//! A doubly linked double-ended queue.
//!
//! The nodes live in one vector and refer to each other by index: every node
//! knows its predecessor and its successor, and the deque knows its first
//! and last node, so both ends are reached in constant time.
use vstd::prelude::*;

verus! {

/// A double-ended queue: elements can be added and removed at the front
/// (`push`, `pop`) and at the back (`push_back`, `pop_back`).
///
/// `size` always equals the number of elements held (see [`Deque::wf`]).
pub struct Deque<E> {
    nodes: Vec<DequeNode<E>>,
    head: Option<usize>,
    tail: Option<usize>,
    pub size: usize,
    /// `order@[k]` is the slot of `nodes` that holds the `k`-th element.
    order: Ghost<Seq<int>>,
    /// `rank@[i]` is the position in the deque of the element in slot `i`.
    rank: Ghost<Seq<int>>,
}

struct DequeNode<E> {
    next: Option<usize>,
    prev: Option<usize>,
    elem: E,
}

/// The slot at position `k` of `order`, or `None` past either end.
spec fn link_at(order: Seq<int>, k: int) -> Option<usize> {
    if 0 <= k < order.len() {
        Some(order[k] as usize)
    } else {
        None
    }
}

/// `order` and `rank` are inverse bijections between the positions
/// `0..n` and the slots `0..n`.
spec fn perm_ok(order: Seq<int>, rank: Seq<int>, n: int) -> bool {
    &&& order.len() == n
    &&& rank.len() == n
    &&& forall|k: int| 0 <= k < n ==> 0 <= #[trigger] order[k] < n && rank[order[k]] == k
    &&& forall|i: int| 0 <= i < n ==> 0 <= #[trigger] rank[i] < n && order[rank[i]] == i
}

/// Walking the links from `head` visits the slots listed in `order`, in
/// that order, and walking back from `tail` visits them in reverse.
spec fn links_ok<E>(
    nodes: Seq<DequeNode<E>>,
    head: Option<usize>,
    tail: Option<usize>,
    order: Seq<int>,
) -> bool {
    &&& head == link_at(order, 0)
    &&& tail == link_at(order, order.len() - 1)
    &&& forall|k: int|
        #![trigger nodes[order[k]]]
        0 <= k < order.len() ==> nodes[order[k]].next == link_at(order, k + 1) && nodes[order[
            k]].prev == link_at(order, k - 1)
}

impl<E> View for Deque<E> {
    type V = Seq<E>;

    /// The elements from the front (index 0) to the back.
    closed spec fn view(&self) -> Seq<E> {
        Seq::new(self.order@.len(), |k: int| self.nodes@[self.order@[k]].elem)
    }
}

impl<E> Deque<E> {
    /// The value of the public `size` field. (A public specification cannot
    /// read a field of a struct that also has private fields; this names it.)
    pub closed spec fn size_field(&self) -> nat {
        self.size as nat
    }

    /// The links form one chain through all the nodes, and `size` counts them.
    pub closed spec fn wf(&self) -> bool {
        let n = self.nodes@.len() as int;
        &&& self.size as int == n
        &&& perm_ok(self.order@, self.rank@, n)
        &&& links_ok(self.nodes@, self.head, self.tail, self.order@)
    }

    /// In a well-formed deque the public `size` field is the number of
    /// elements.
    pub proof fn lemma_size_is_len(&self)
        requires
            self.wf(),
        ensures
            self.size_field() == self@.len(),
    {
    }

    /// An empty deque.
    pub fn new() -> (d: Self)
        ensures
            d.wf(),
            d@ == Seq::<E>::empty(),
            d.size_field() == 0,
    {
        Deque {
            nodes: Vec::new(),
            head: None,
            tail: None,
            size: 0,
            order: Ghost(Seq::empty()),
            rank: Ghost(Seq::empty()),
        }
    }
}

impl<E> Deque<E> {
    /// Inserts `elem` at the front of the deque.
    pub fn push(&mut self, elem: E)
        requires
            old(self).wf(),
            old(self).size_field() < usize::MAX,
        ensures
            final(self).wf(),
            final(self).size_field() == final(self)@.len(),
            final(self)@ == seq![elem] + old(self)@,
            final(self).size_field() == old(self).size_field() + 1,
    {
        let n = self.nodes.len();
        let ghost old_order = self.order@;
        let ghost old_rank = self.rank@;
        let new_head = DequeNode { next: self.head, prev: None, elem };
        match self.head {
            None => {
                self.tail = Some(n);
            },
            Some(old_head) => {
                self.nodes[old_head].prev = Some(n);
            },
        }
        self.nodes.push(new_head);
        self.head = Some(n);
        self.size = self.size + 1;
        proof {
            let new_order = seq![n as int] + old_order;
            let new_rank = Seq::new(
                (n + 1) as nat,
                |i: int|
                    if i == n {
                        0
                    } else {
                        old_rank[i] + 1
                    },
            );
            self.order@ = new_order;
            self.rank@ = new_rank;
            assert forall|k: int| 0 <= k < n + 1 implies 0 <= #[trigger] new_order[k] < n + 1
                && new_rank[new_order[k]] == k by {
                if k > 0 {
                    assert(new_order[k] == old_order[k - 1]);
                }
            }
            assert forall|i: int| 0 <= i < n + 1 implies 0 <= #[trigger] new_rank[i] < n + 1
                && new_order[new_rank[i]] == i by {
                if i < n {
                    assert(0 <= old_rank[i] < n);
                    assert(new_order[old_rank[i] + 1] == old_order[old_rank[i]]);
                }
            }
            assert forall|k: int|
                #![trigger self.nodes@[new_order[k]]]
                0 <= k < new_order.len() implies self.nodes@[new_order[k]].next == link_at(
                new_order,
                k + 1,
            ) && self.nodes@[new_order[k]].prev == link_at(new_order, k - 1) by {
                if k > 0 {
                    assert(new_order[k] == old_order[k - 1]);
                    assert(old_order[k - 1] != n);
                }
            }
            assert(self@ =~= seq![elem] + old(self)@);
        }
    }
}

impl<E> Deque<E> {
    /// Inserts `elem` at the back of the deque.
    pub fn push_back(&mut self, elem: E)
        requires
            old(self).wf(),
            old(self).size_field() < usize::MAX,
        ensures
            final(self).wf(),
            final(self).size_field() == final(self)@.len(),
            final(self)@ == old(self)@.push(elem),
            final(self).size_field() == old(self).size_field() + 1,
    {
        let n = self.nodes.len();
        let ghost old_order = self.order@;
        let ghost old_rank = self.rank@;
        let new_tail = DequeNode { next: None, prev: self.tail, elem };
        match self.tail {
            None => {
                self.head = Some(n);
            },
            Some(old_tail) => {
                self.nodes[old_tail].next = Some(n);
            },
        }
        self.nodes.push(new_tail);
        self.tail = Some(n);
        self.size = self.size + 1;
        proof {
            let new_order = old_order.push(n as int);
            let new_rank = old_rank.push(n as int);
            self.order@ = new_order;
            self.rank@ = new_rank;
            assert forall|k: int| 0 <= k < n + 1 implies 0 <= #[trigger] new_order[k] < n + 1
                && new_rank[new_order[k]] == k by {
                if k < n {
                    assert(new_order[k] == old_order[k]);
                }
            }
            assert forall|i: int| 0 <= i < n + 1 implies 0 <= #[trigger] new_rank[i] < n + 1
                && new_order[new_rank[i]] == i by {
                if i < n {
                    assert(new_rank[i] == old_rank[i]);
                }
            }
            assert forall|k: int|
                #![trigger self.nodes@[new_order[k]]]
                0 <= k < new_order.len() implies self.nodes@[new_order[k]].next == link_at(
                new_order,
                k + 1,
            ) && self.nodes@[new_order[k]].prev == link_at(new_order, k - 1) by {
                if k < n {
                    assert(new_order[k] == old_order[k]);
                    assert(old_order[k] != n);
                }
            }
            assert(self@ =~= old(self)@.push(elem));
        }
    }
}

/// Replaces the slot `from` by the slot `to` wherever it occurs in `order`.
spec fn relabel(order: Seq<int>, from: int, to: int) -> Seq<int> {
    order.map_values(|v: int| if v == from { to } else { v })
}

/// `order` lists `n - 1` distinct slots of `0..n`, none of them `s`, and
/// `rank` gives the position of every other slot in `order`.
spec fn perm_without(order: Seq<int>, rank: Seq<int>, n: int, s: int) -> bool {
    &&& order.len() == n - 1
    &&& rank.len() == n
    &&& forall|k: int|
        0 <= k < n - 1 ==> 0 <= #[trigger] order[k] < n && order[k] != s && rank[order[k]] == k
    &&& forall|i: int| 0 <= i < n && i != s ==> 0 <= #[trigger] rank[i] < n - 1 && order[rank[i]] == i
}

/// Renaming the last slot `n - 1` to the freed slot `s` turns a chain over
/// all slots but `s` into a chain over the slots `0..n - 1`.
proof fn lemma_relabel_perm(o1: Seq<int>, r1: Seq<int>, n: int, s: int)
    requires
        0 <= s < n,
        perm_without(o1, r1, n, s),
    ensures
        perm_ok(
            relabel(o1, n - 1, s),
            Seq::new((n - 1) as nat, |i: int| if i == s { r1[n - 1] } else { r1[i] }),
            n - 1,
        ),
{
    let o2 = relabel(o1, n - 1, s);
    let r2 = Seq::new((n - 1) as nat, |i: int| if i == s { r1[n - 1] } else { r1[i] });
    assert forall|k: int| 0 <= k < n - 1 implies 0 <= #[trigger] o2[k] < n - 1 && r2[o2[k]]
        == k by {
        assert(0 <= o1[k] < n);
    }
    assert forall|i: int| 0 <= i < n - 1 implies 0 <= #[trigger] r2[i] < n - 1 && o2[r2[i]]
        == i by {
        if i == s {
            assert(o1[r1[n - 1]] == n - 1);
        } else {
            assert(o1[r1[i]] == i);
        }
    }
}

/// After the node of the last slot moved into slot `s` and the links to it
/// were redirected, the nodes form the renamed chain.
proof fn lemma_relabel_links<E>(
    nodes0: Seq<DequeNode<E>>,
    head0: Option<usize>,
    tail0: Option<usize>,
    nodes3: Seq<DequeNode<E>>,
    head3: Option<usize>,
    tail3: Option<usize>,
    o1: Seq<int>,
    r1: Seq<int>,
    n: int,
    s: int,
)
    requires
        0 <= s < n <= usize::MAX,
        nodes0.len() == n,
        nodes3.len() == n - 1,
        perm_without(o1, r1, n, s),
        links_ok(nodes0, head0, tail0, o1),
        s == n - 1 ==> head3 == head0 && tail3 == tail0,
        s != n - 1 ==> head3 == (if nodes0[n - 1].prev is None {
            Some(s as usize)
        } else {
            head0
        }) && tail3 == (if nodes0[n - 1].next is None {
            Some(s as usize)
        } else {
            tail0
        }),
        forall|i: int|
            0 <= i < n - 1 ==> {
                let src = if i == s {
                    nodes0[n - 1]
                } else {
                    nodes0[i]
                };
                &&& (#[trigger] nodes3[i]).next == if s != n - 1 && nodes0[n - 1].prev == Some(
                    i as usize,
                ) {
                    Some(s as usize)
                } else {
                    src.next
                }
                &&& nodes3[i].prev == if s != n - 1 && nodes0[n - 1].next == Some(i as usize) {
                    Some(s as usize)
                } else {
                    src.prev
                }
            },
    ensures
        links_ok(nodes3, head3, tail3, relabel(o1, n - 1, s)),
{
    let o2 = relabel(o1, n - 1, s);
    let last = n - 1;
    if s != last {
        let rl = r1[last];
        assert(o1[rl] == last);
        assert(nodes0[last].next == link_at(o1, rl + 1));
        assert(nodes0[last].prev == link_at(o1, rl - 1));
    }
    assert forall|k: int|
        #![trigger nodes3[o2[k]]]
        0 <= k < o2.len() implies nodes3[o2[k]].next == link_at(o2, k + 1) && nodes3[o2[k]].prev
        == link_at(o2, k - 1) by {
        let i = o1[k];
        assert(0 <= i < n && i != s);
        assert(nodes0[i].next == link_at(o1, k + 1));
        assert(nodes0[i].prev == link_at(o1, k - 1));
        if k + 1 < o1.len() {
            assert(0 <= o1[k + 1] < n);
        }
        if k > 0 {
            assert(0 <= o1[k - 1] < n);
        }
        if i == last {
            assert(o2[k] == s);
        } else {
            assert(o2[k] == i);
            if s != last {
                let rl = r1[last];
                if nodes0[last].prev == Some(i as usize) {
                    assert(0 <= o1[rl - 1] < n);
                    assert(o1[rl - 1] == i);
                    assert(r1[i] == rl - 1);
                }
                if nodes0[last].next == Some(i as usize) {
                    assert(0 <= o1[rl + 1] < n);
                    assert(o1[rl + 1] == i);
                    assert(r1[i] == rl + 1);
                }
            }
        }
    }
    if o1.len() > 0 {
        assert(0 <= o1[0] < n);
        assert(0 <= o1[o1.len() - 1] < n);
    }
}

impl<E> Deque<E> {
    /// Links the predecessor and the successor of the node in slot `s` to
    /// each other, so that the chain skips that node. No node moves.
    fn detach(&mut self, s: usize)
        requires
            old(self).wf(),
            s < old(self).nodes@.len(),
        ensures
            final(self).nodes@.len() == old(self).nodes@.len(),
            forall|i: int|
                0 <= i < old(self).nodes@.len() ==> (#[trigger] final(self).nodes@[i]).elem == old(
                    self,
                ).nodes@[i].elem,
            final(self).size == old(self).size,
            final(self).order == old(self).order,
            final(self).rank == old(self).rank,
            links_ok(
                final(self).nodes@,
                final(self).head,
                final(self).tail,
                old(self).order@.remove(old(self).rank@[s as int]),
            ),
    {
        let ghost o = self.order@;
        let ghost r = self.rank@;
        let ghost pos = r[s as int];
        assert(o[pos] == s);
        let prev = self.nodes[s].prev;
        let next = self.nodes[s].next;
        match prev {
            Some(p) => {
                self.nodes[p].next = next;
            },
            None => {
                self.head = next;
            },
        }
        match next {
            Some(q) => {
                self.nodes[q].prev = prev;
            },
            None => {
                self.tail = prev;
            },
        }
        let ghost o1 = o.remove(pos);
        assert forall|k: int|
            #![trigger self.nodes@[o1[k]]]
            0 <= k < o1.len() implies self.nodes@[o1[k]].next == link_at(o1, k + 1)
            && self.nodes@[o1[k]].prev == link_at(o1, k - 1) by {
            if k < pos {
                assert(o1[k] == o[k]);
                if k + 1 < pos {
                    assert(o1[k + 1] == o[k + 1]);
                }
                if k > 0 {
                    assert(o1[k - 1] == o[k - 1]);
                }
            } else {
                assert(o1[k] == o[k + 1]);
                if k + 1 < o1.len() {
                    assert(o1[k + 1] == o[k + 2]);
                }
                if k > pos {
                    assert(o1[k - 1] == o[k]);
                } else if k > 0 {
                    assert(o1[k - 1] == o[k - 1]);
                }
            }
        }
    }

    /// Removes slot `s`, which the chain `o1` no longer visits, from the
    /// vector: the node of the last slot moves into slot `s` and the links
    /// to it are redirected there.
    fn compact(&mut self, s: usize, Ghost(o1): Ghost<Seq<int>>, Ghost(r1): Ghost<Seq<int>>) -> (node: DequeNode<E>)
        requires
            s < old(self).nodes@.len(),
            old(self).size as int == old(self).nodes@.len() - 1,
            perm_without(o1, r1, old(self).nodes@.len() as int, s as int),
            links_ok(old(self).nodes@, old(self).head, old(self).tail, o1),
        ensures
            final(self).wf(),
            node == old(self).nodes@[s as int],
            final(self)@ == Seq::new(o1.len(), |k: int| old(self).nodes@[o1[k]].elem),
    {
        let ghost n = self.nodes@.len() as int;
        let ghost nodes0 = self.nodes@;
        let ghost head0 = self.head;
        let ghost tail0 = self.tail;
        let last = self.nodes.len() - 1;
        let node = self.nodes.swap_remove(s);
        if s != last {
            let ghost rl = r1[last as int];
            assert(o1[rl] == last as int);
            let moved_prev = self.nodes[s].prev;
            let moved_next = self.nodes[s].next;
            match moved_prev {
                Some(p) => {
                    assert(o1[rl - 1] == p as int);
                    self.nodes[p].next = Some(s);
                },
                None => {
                    self.head = Some(s);
                },
            }
            match moved_next {
                Some(q) => {
                    assert(o1[rl + 1] == q as int);
                    self.nodes[q].prev = Some(s);
                },
                None => {
                    self.tail = Some(s);
                },
            }
        }
        proof {
            let o2 = relabel(o1, last as int, s as int);
            let r2 = Seq::new((n - 1) as nat, |i: int| if i == s { r1[last as int] } else { r1[i] });
            lemma_relabel_perm(o1, r1, n, s as int);
            lemma_relabel_links(nodes0, head0, tail0, self.nodes@, self.head, self.tail, o1, r1, n, s as int);
            self.order@ = o2;
            self.rank@ = r2;
            assert(self@ =~= Seq::new(o1.len(), |k: int| nodes0[o1[k]].elem));
        }
        node
    }
}

impl<E> Deque<E> {
    /// Removes the node in slot `s` from the deque and returns its element.
    fn unlink(&mut self, s: usize) -> (e: E)
        requires
            old(self).wf(),
            s < old(self).nodes@.len(),
        ensures
            final(self).wf(),
            e == old(self)@[old(self).rank@[s as int]],
            final(self)@ == old(self)@.remove(old(self).rank@[s as int]),
    {
        let ghost o = self.order@;
        let ghost r = self.rank@;
        let ghost n = self.nodes@.len() as int;
        let ghost pos = r[s as int];
        let ghost nodes0 = self.nodes@;
        self.detach(s);
        let ghost o1 = o.remove(pos);
        let ghost r1 = Seq::new(n as nat, |i: int| if r[i] > pos { r[i] - 1 } else { r[i] });
        assert(perm_without(o1, r1, n, s as int)) by {
            assert forall|k: int| 0 <= k < n - 1 implies 0 <= #[trigger] o1[k] < n && o1[k]
                != s && r1[o1[k]] == k by {
                if k < pos {
                    assert(o1[k] == o[k]);
                } else {
                    assert(o1[k] == o[k + 1]);
                }
            }
            assert forall|i: int| 0 <= i < n && i != s implies 0 <= #[trigger] r1[i] < n - 1
                && o1[r1[i]] == i by {
                assert(o[r[i]] == i);
            }
        }
        self.size = self.size - 1;
        let node = self.compact(s, Ghost(o1), Ghost(r1));
        assert(self@ =~= old(self)@.remove(pos));
        node.elem
    }

    /// Removes and returns the element at the front, or `None` when the
    /// deque is empty.
    pub fn pop(&mut self) -> (r: Option<E>)
        requires
            old(self).wf(),
        ensures
            final(self).wf(),
            final(self).size_field() == final(self)@.len(),
            r is Some ==> final(self).size_field() == old(self).size_field() - 1,
            r is None ==> final(self).size_field() == old(self).size_field(),
            match r {
                None => old(self)@.len() == 0 && final(self)@ == old(self)@,
                Some(e) => old(self)@.len() > 0 && e == old(self)@[0] && final(self)@
                    == old(self)@.drop_first(),
            },
    {
        match self.head {
            None => None,
            Some(h) => {
                assert(self.order@[0] == h);
                let e = self.unlink(h);
                assert(old(self)@.remove(0) =~= old(self)@.drop_first());
                Some(e)
            },
        }
    }

    /// Removes and returns the element at the back, or `None` when the
    /// deque is empty.
    pub fn pop_back(&mut self) -> (r: Option<E>)
        requires
            old(self).wf(),
        ensures
            final(self).wf(),
            final(self).size_field() == final(self)@.len(),
            r is Some ==> final(self).size_field() == old(self).size_field() - 1,
            r is None ==> final(self).size_field() == old(self).size_field(),
            match r {
                None => old(self)@.len() == 0 && final(self)@ == old(self)@,
                Some(e) => old(self)@.len() > 0 && e == old(self)@.last() && final(self)@
                    == old(self)@.drop_last(),
            },
    {
        match self.tail {
            None => None,
            Some(t) => {
                let ghost last_pos = self.order@.len() - 1;
                assert(self.order@[last_pos] == t);
                let e = self.unlink(t);
                assert(old(self)@.remove(last_pos) =~= old(self)@.drop_last());
                Some(e)
            },
        }
    }

    /// Same as [`Deque::pop`]: the deque yields its elements front first.
    pub fn next(&mut self) -> (r: Option<E>)
        requires
            old(self).wf(),
        ensures
            final(self).wf(),
            final(self).size_field() == final(self)@.len(),
            r is Some ==> final(self).size_field() == old(self).size_field() - 1,
            r is None ==> final(self).size_field() == old(self).size_field(),
            match r {
                None => old(self)@.len() == 0 && final(self)@ == old(self)@,
                Some(e) => old(self)@.len() > 0 && e == old(self)@[0] && final(self)@
                    == old(self)@.drop_first(),
            },
    {
        self.pop()
    }

    /// Same as [`Deque::pop_back`]: from the back, the deque yields its
    /// elements last first.
    pub fn next_back(&mut self) -> (r: Option<E>)
        requires
            old(self).wf(),
        ensures
            final(self).wf(),
            final(self).size_field() == final(self)@.len(),
            r is Some ==> final(self).size_field() == old(self).size_field() - 1,
            r is None ==> final(self).size_field() == old(self).size_field(),
            match r {
                None => old(self)@.len() == 0 && final(self)@ == old(self)@,
                Some(e) => old(self)@.len() > 0 && e == old(self)@.last() && final(self)@
                    == old(self)@.drop_last(),
            },
    {
        self.pop_back()
    }
}

/// Popping the front right after pushing `x` at the front gives back `x`
/// and leaves the deque as it was.
pub proof fn law_push_then_pop<E>(before: Seq<E>, x: E)
    ensures
        (seq![x] + before).len() > 0,
        (seq![x] + before)[0] == x,
        (seq![x] + before).drop_first() == before,
{
    assert((seq![x] + before).drop_first() =~= before);
}

/// Popping the back right after pushing `x` at the back gives back `x` and
/// leaves the deque as it was.
pub proof fn law_push_back_then_pop_back<E>(before: Seq<E>, x: E)
    ensures
        before.push(x).len() > 0,
        before.push(x).last() == x,
        before.push(x).drop_last() == before,
{
    assert(before.push(x).drop_last() =~= before);
}

/// Used as a queue (push at the back, pop at the front), the deque yields
/// the elements in the order they came: a push at the back does not change
/// what the next pop at the front returns, unless the deque was empty.
pub proof fn law_first_in_first_out<E>(before: Seq<E>, x: E)
    ensures
        before.len() == 0 ==> before.push(x)[0] == x && before.push(x).drop_first() == before,
        before.len() > 0 ==> before.push(x)[0] == before[0] && before.push(x).drop_first()
            == before.drop_first().push(x),
{
    assert(before.len() == 0 ==> before.push(x).drop_first() =~= before);
    assert(before.len() > 0 ==> before.push(x).drop_first() =~= before.drop_first().push(x));
}

} // verus!
