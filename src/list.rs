use vstd::prelude::*;

verus! {

/// One element of the list: its value and the arena indices of its neighbours.
struct Node<T> {
    value: T,
    next: Option<usize>,
    prev: Option<usize>,
}

/// A doubly-linked list whose nodes live in an arena and refer to each other
/// by index.
pub struct LinkedList<T> {
    nodes: Vec<Node<T>>,
    head: Option<usize>,
    tail: Option<usize>,
    /// The arena indices of the nodes, from head to tail.
    order: Ghost<Seq<usize>>,
}

impl<T> LinkedList<T> {
    /// The arena indices of the nodes, in list order from head to tail.
    pub closed spec fn ids(self) -> Seq<usize> {
        self.order@
    }

    /// The node that `head` refers to, if any.
    pub closed spec fn head_id(self) -> Option<usize> {
        self.head
    }

    /// The node that `tail` refers to, if any.
    pub closed spec fn tail_id(self) -> Option<usize> {
        self.tail
    }

    /// The links agree with the order: head and tail are its ends, each node's
    /// `next` is its successor and its `prev` its predecessor, and every arena
    /// slot holds exactly one node of the list.
    pub closed spec fn wf(self) -> bool {
        let ids = self.order@;
        let n = ids.len();
        &&& n == self.nodes@.len()
        &&& forall|i: int| 0 <= i < n ==> (#[trigger] ids[i]) < n
        &&& forall|i: int, j: int| 0 <= i < j < n ==> ids[i] != ids[j]
        &&& self.head == (if n == 0 { None } else { Some(ids[0]) })
        &&& self.tail == (if n == 0 { None } else { Some(ids[n - 1]) })
        &&& forall|i: int| 0 <= i < n ==> (#[trigger] self.nodes@[ids[i] as int]).next == (
            if i + 1 < n { Some(ids[i + 1]) } else { None })
        &&& forall|i: int| 0 <= i < n ==> (#[trigger] self.nodes@[ids[i] as int]).prev == (
            if i > 0 { Some(ids[i - 1]) } else { None })
    }

    /// What a well-formed list looks like from outside: one value per node,
    /// distinct nodes, and `head` and `tail` at the two ends of the order.
    pub proof fn lemma_shape(self)
        requires
            self.wf(),
        ensures
            self@.len() == self.ids().len(),
            forall|i: int, j: int| 0 <= i < j < self.ids().len() ==> self.ids()[i] != self.ids()[j],
            self.head_id() == (if self.ids().len() == 0 { None } else { Some(self.ids()[0]) }),
            self.tail_id() == (if self.ids().len() == 0 { None } else {
                Some(self.ids()[self.ids().len() - 1])
            }),
    {
    }
}

impl<T> View for LinkedList<T> {
    type V = Seq<T>;

    /// The values of the list, from head to tail.
    closed spec fn view(&self) -> Seq<T> {
        Seq::new(self.order@.len(), |i: int| self.nodes@[self.order@[i] as int].value)
    }
}

impl<T> LinkedList<T> {
    /// An empty list.
    pub fn new() -> (l: Self)
        ensures
            l.wf(),
            l@ == Seq::<T>::empty(),
            l.ids() == Seq::<usize>::empty(),
            l.head_id() == None::<usize>,
            l.tail_id() == None::<usize>,
    {
        LinkedList { nodes: Vec::new(), head: None, tail: None, order: Ghost(Seq::empty()) }
    }

    /// Adds `value` at the end: a new node, whose `prev` is the old tail,
    /// becomes the tail.
    pub fn append(&mut self, value: T)
        requires
            old(self).wf(),
        ensures
            final(self).wf(),
            final(self)@ == old(self)@.push(value),
            final(self).ids() == old(self).ids().push(old(self).ids().len() as usize),
            final(self).tail_id() == Some(old(self).ids().len() as usize),
            old(self).ids().len() > 0 ==> final(self).head_id() == old(self).head_id(),
            old(self).ids().len() == 0 ==> final(self).head_id() == final(self).tail_id(),
    {
        let ghost ids = self.order@;
        let id = self.nodes.len();
        self.nodes.push(Node { value, next: None, prev: self.tail });
        match self.tail {
            Some(t) => {
                self.nodes[t].next = Some(id);
            },
            None => {
                self.head = Some(id);
            },
        }
        self.tail = Some(id);
        self.order = Ghost(ids.push(id));
        proof {
            let n = ids.len();
            let new_ids = self.order@;
            assert forall|i: int| 0 <= i <= n implies (#[trigger] self.nodes@[new_ids[i] as int]).next == (
                if i + 1 < n + 1 { Some(new_ids[i + 1]) } else { None }) by {
                if i < n - 1 {
                    assert(ids[i] != ids[n - 1]);
                }
            }
            assert forall|i: int| 0 <= i <= n implies (#[trigger] self.nodes@[new_ids[i] as int]).prev == (
                if i > 0 { Some(new_ids[i - 1]) } else { None }) by {
                if i < n {
                    assert(new_ids[i] < n);
                }
            }
            assert(self@ =~= old(self)@.push(value));
        }
    }

    /// Adds `value` at the front: a new node, whose `next` is the old head,
    /// becomes the head.
    pub fn prepend(&mut self, value: T)
        requires
            old(self).wf(),
        ensures
            final(self).wf(),
            final(self)@ == seq![value] + old(self)@,
            final(self).ids() == seq![old(self).ids().len() as usize] + old(self).ids(),
            final(self).head_id() == Some(old(self).ids().len() as usize),
            old(self).ids().len() > 0 ==> final(self).tail_id() == old(self).tail_id(),
            old(self).ids().len() == 0 ==> final(self).head_id() == final(self).tail_id(),
    {
        let ghost ids = self.order@;
        let id = self.nodes.len();
        self.nodes.push(Node { value, next: self.head, prev: None });
        match self.head {
            Some(h) => {
                self.nodes[h].prev = Some(id);
            },
            None => {
                self.tail = Some(id);
            },
        }
        self.head = Some(id);
        self.order = Ghost(seq![id] + ids);
        proof {
            let n = ids.len();
            let new_ids = self.order@;
            assert forall|i: int| 0 <= i <= n implies #[trigger] new_ids[i] < n + 1 by {
                if i > 0 {
                    assert(new_ids[i] == ids[i - 1]);
                }
            }
            assert forall|i: int, j: int| 0 <= i < j <= n implies new_ids[i] != new_ids[j] by {
                if i > 0 {
                    assert(new_ids[i] == ids[i - 1]);
                }
                assert(new_ids[j] == ids[j - 1]);
            }
            assert forall|i: int| 0 <= i <= n implies (#[trigger] self.nodes@[new_ids[i] as int]).next == (
                if i + 1 < n + 1 { Some(new_ids[i + 1]) } else { None }) by {
                if i > 0 {
                    assert(new_ids[i] == ids[i - 1]);
                    assert(ids[i - 1] < n);
                }
            }
            assert forall|i: int| 0 <= i <= n implies (#[trigger] self.nodes@[new_ids[i] as int]).prev == (
                if i > 0 { Some(new_ids[i - 1]) } else { None }) by {
                if i > 1 {
                    assert(new_ids[i] == ids[i - 1]);
                    assert(ids[i - 1] != ids[0]);
                    assert(ids[i - 1] < n);
                }
                if i == 1 {
                    assert(ids[0] < n);
                }
            }
            assert(self@ =~= seq![value] + old(self)@);
        }
    }

    /// Walks the `next` links from `head` to the end and returns the values
    /// met, in that order.
    pub fn traverse(&self) -> (r: Vec<&T>)
        requires
            self.wf(),
        ensures
            deref_all(r@) == self@,
            r@.len() == self@.len(),
            forall|i: int| 0 <= i < r@.len() ==> *r@[i] == self@[i],
    {
        let ghost ids = self.order@;
        let mut r: Vec<&T> = Vec::new();
        let mut cur = self.head;
        let ghost mut k: int = 0;
        while cur.is_some()
            invariant
                self.wf(),
                ids == self.order@,
                0 <= k <= ids.len(),
                cur == (if k < ids.len() { Some(ids[k]) } else { None::<usize> }),
                r@.len() == k,
                forall|i: int| 0 <= i < k ==> *r@[i] == self@[i],
            decreases ids.len() - k,
        {
            let id = cur.unwrap();
            let node = &self.nodes[id];
            r.push(&node.value);
            cur = node.next;
            proof {
                k = k + 1;
            }
        }
        proof {
            assert(deref_all(r@) =~= self@);
        }
        r
    }

    /// The node that `head` refers to, or `None` on an empty list.
    pub fn head(&self) -> (r: Option<usize>)
        ensures
            r == self.head_id(),
    {
        self.head
    }

    /// The node that `tail` refers to, or `None` on an empty list.
    pub fn tail(&self) -> (r: Option<usize>)
        ensures
            r == self.tail_id(),
    {
        self.tail
    }

    /// The value held by node `id`.
    pub fn value(&self, id: usize) -> (r: &T)
        requires
            self.wf(),
            self.ids().contains(id),
        ensures
            forall|p: int| 0 <= p < self.ids().len() && #[trigger] self.ids()[p] == id ==> *r == self@[p],
    {
        &self.nodes[id].value
    }

    /// The node after node `id`, or `None` if `id` is the last one.
    pub fn next(&self, id: usize) -> (r: Option<usize>)
        requires
            self.wf(),
            self.ids().contains(id),
        ensures
            forall|p: int| 0 <= p < self.ids().len() && #[trigger] self.ids()[p] == id ==> r == (
                if p + 1 < self.ids().len() { Some(self.ids()[p + 1]) } else { None }),
    {
        self.nodes[id].next
    }

    /// The node before node `id`, or `None` if `id` is the first one.
    pub fn prev(&self, id: usize) -> (r: Option<usize>)
        requires
            self.wf(),
            self.ids().contains(id),
        ensures
            forall|p: int| 0 <= p < self.ids().len() && #[trigger] self.ids()[p] == id ==> r == (
                if p > 0 { Some(self.ids()[p - 1]) } else { None }),
    {
        self.nodes[id].prev
    }
}

/// The values that the references `r` point to, in order.
pub open spec fn deref_all<T>(r: Seq<&T>) -> Seq<T> {
    r.map_values(|x: &T| *x)
}

/// Calling `append` with `v1, .., vn` in turn, starting from an empty list,
/// yields a list that traverses as `v1, .., vn`. `lists[k]` is the list after
/// the first `k` calls.
pub proof fn lemma_appends_traverse_in_call_order<T>(lists: Seq<LinkedList<T>>, vs: Seq<T>)
    requires
        lists.len() == vs.len() + 1,
        lists[0]@ == Seq::<T>::empty(),
        forall|k: int| 0 <= k < vs.len() ==> #[trigger] lists[k + 1]@ == lists[k]@.push(vs[k]),
    ensures
        lists[vs.len() as int]@ == vs,
{
    assert forall|k: int| 0 <= k <= vs.len() implies #[trigger] lists[k]@ == vs.subrange(0, k) by {
        lemma_appends_prefix(lists, vs, k);
    }
    assert(vs.subrange(0, vs.len() as int) =~= vs);
}

proof fn lemma_appends_prefix<T>(lists: Seq<LinkedList<T>>, vs: Seq<T>, k: int)
    requires
        lists.len() == vs.len() + 1,
        lists[0]@ == Seq::<T>::empty(),
        forall|j: int| 0 <= j < vs.len() ==> #[trigger] lists[j + 1]@ == lists[j]@.push(vs[j]),
        0 <= k <= vs.len(),
    ensures
        lists[k]@ == vs.subrange(0, k),
    decreases k,
{
    if k == 0 {
        assert(vs.subrange(0, 0) =~= Seq::<T>::empty());
    } else {
        lemma_appends_prefix(lists, vs, k - 1);
        assert(lists[(k - 1) + 1]@ == lists[k - 1]@.push(vs[k - 1]));
        assert(vs.subrange(0, k - 1).push(vs[k - 1]) =~= vs.subrange(0, k));
    }
}

/// Calling `prepend` with `v1, .., vn` in turn, starting from an empty list,
/// yields a list that traverses as `vn, .., v1`. `lists[k]` is the list after
/// the first `k` calls.
pub proof fn lemma_prepends_traverse_in_reverse_order<T>(lists: Seq<LinkedList<T>>, vs: Seq<T>)
    requires
        lists.len() == vs.len() + 1,
        lists[0]@ == Seq::<T>::empty(),
        forall|k: int| 0 <= k < vs.len() ==> #[trigger] lists[k + 1]@ == seq![vs[k]] + lists[k]@,
    ensures
        lists[vs.len() as int]@ == vs.reverse(),
{
    assert forall|k: int| 0 <= k <= vs.len() implies #[trigger] lists[k]@ == vs.subrange(0, k).reverse() by {
        lemma_prepends_prefix(lists, vs, k);
    }
    assert(vs.subrange(0, vs.len() as int) =~= vs);
}

proof fn lemma_prepends_prefix<T>(lists: Seq<LinkedList<T>>, vs: Seq<T>, k: int)
    requires
        lists.len() == vs.len() + 1,
        lists[0]@ == Seq::<T>::empty(),
        forall|j: int| 0 <= j < vs.len() ==> #[trigger] lists[j + 1]@ == seq![vs[j]] + lists[j]@,
        0 <= k <= vs.len(),
    ensures
        lists[k]@ == vs.subrange(0, k).reverse(),
    decreases k,
{
    if k == 0 {
        assert(vs.subrange(0, 0).reverse() =~= Seq::<T>::empty());
    } else {
        lemma_prepends_prefix(lists, vs, k - 1);
        assert(lists[(k - 1) + 1]@ == seq![vs[k - 1]] + lists[k - 1]@);
        assert(seq![vs[k - 1]] + vs.subrange(0, k - 1).reverse() =~= vs.subrange(0, k).reverse());
    }
}

/// Two traversals of the same list, with no change in between, give the same
/// values in the same order.
pub proof fn lemma_traversal_idempotent<T>(l: LinkedList<T>, r1: Seq<&T>, r2: Seq<&T>)
    requires
        l.wf(),
        deref_all(r1) == l@,
        deref_all(r2) == l@,
    ensures
        r1 == r2,
{
    assert(deref_all(r1).len() == r1.len());
    assert(deref_all(r2).len() == r2.len());
    assert forall|i: int| 0 <= i < r1.len() implies r1[i] == r2[i] by {
        assert(deref_all(r1)[i] == *r1[i]);
        assert(deref_all(r2)[i] == *r2[i]);
    }
    assert(r1 =~= r2);
}

} // verus!
