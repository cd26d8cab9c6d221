use crate::binary_tree::{opt_height, Node};
use std::collections::VecDeque;
use vstd::prelude::*;

verus! {

/// The (depth, subtree) entries that walking one node adds to a
/// breadth-first queue: its present children, left before right, one level
/// further down.
pub open spec fn child_entries<T>(d: nat, n: Node<T>) -> Seq<(nat, Node<T>)> {
    (if n.left is Some {
        seq![((d + 1) as nat, *n.left->0)]
    } else {
        Seq::empty()
    }) + (if n.right is Some {
        seq![((d + 1) as nat, *n.right->0)]
    } else {
        Seq::empty()
    })
}

/// The total number of nodes held by the subtrees of a breadth-first queue.
pub open spec fn queue_size<T>(q: Seq<(nat, Node<T>)>) -> nat
    decreases q.len(),
{
    if q.len() == 0 {
        0
    } else {
        q[0].1.size() + queue_size(q.drop_first())
    }
}

proof fn lemma_queue_size_add<T>(a: Seq<(nat, Node<T>)>, b: Seq<(nat, Node<T>)>)
    ensures
        queue_size(a + b) == queue_size(a) + queue_size(b),
    decreases a.len(),
{
    if a.len() == 0 {
        assert(a + b =~= b);
    } else {
        assert((a + b).drop_first() =~= a.drop_first() + b);
        assert((a + b)[0] == a[0]);
        lemma_queue_size_add(a.drop_first(), b);
    }
}

proof fn lemma_child_entries_size<T>(d: nat, n: Node<T>)
    ensures
        queue_size(child_entries(d, n)) + 1 == n.size(),
{
    let l = if n.left is Some {
        seq![((d + 1) as nat, *n.left->0)]
    } else {
        Seq::<(nat, Node<T>)>::empty()
    };
    let r = if n.right is Some {
        seq![((d + 1) as nat, *n.right->0)]
    } else {
        Seq::<(nat, Node<T>)>::empty()
    };
    lemma_queue_size_add(l, r);
    if n.left is Some {
        assert(l.drop_first() =~= Seq::<(nat, Node<T>)>::empty());
        assert(queue_size(l) == n.left->0.size() + queue_size(Seq::<(nat, Node<T>)>::empty()));
    }
    if n.right is Some {
        assert(r.drop_first() =~= Seq::<(nat, Node<T>)>::empty());
        assert(queue_size(r) == n.right->0.size() + queue_size(Seq::<(nat, Node<T>)>::empty()));
    }
    assert(queue_size(Seq::<(nat, Node<T>)>::empty()) == 0);
    assert(n.size() == 1 + crate::binary_tree::opt_size(n.left) + crate::binary_tree::opt_size(
        n.right,
    ));
}

/// The sequence of (depth, element) pairs that a breadth-first walk of the
/// queued subtrees produces: the front subtree's root first, then the rest
/// of the queue followed by that root's children.
pub open spec fn bfs_seq<T>(q: Seq<(nat, Node<T>)>) -> Seq<(nat, T)>
    decreases queue_size(q),
    via bfs_seq_decreases::<T>
{
    if q.len() == 0 {
        Seq::empty()
    } else {
        seq![(q[0].0, q[0].1.data)] + bfs_seq(q.drop_first() + child_entries(q[0].0, q[0].1))
    }
}

#[via_fn]
proof fn bfs_seq_decreases<T>(q: Seq<(nat, Node<T>)>) {
    if q.len() != 0 {
        lemma_queue_size_add(q.drop_first(), child_entries(q[0].0, q[0].1));
        lemma_child_entries_size(q[0].0, q[0].1);
    }
}

impl<T> Node<T> {
    /// The breadth-first sequence of this tree: every (depth, element) pair,
    /// all of one depth before any of the next, the root at depth zero.
    pub open spec fn level_order(self) -> Seq<(nat, T)> {
        bfs_seq(seq![(0 as nat, self)])
    }
}

/// Whether the queued depths are non-decreasing and span at most two
/// consecutive levels: the invariant a breadth-first queue keeps.
pub open spec fn depths_ok<T>(q: Seq<(nat, Node<T>)>) -> bool {
    &&& forall|i: int, j: int| 0 <= i <= j < q.len() ==> (#[trigger] q[i]).0 <= (#[trigger] q[j]).0
    &&& forall|i: int| 0 <= i < q.len() ==> (#[trigger] q[i]).0 <= q[0].0 + 1
}

proof fn lemma_bfs_seq_len<T>(q: Seq<(nat, Node<T>)>)
    ensures
        bfs_seq(q).len() == queue_size(q),
    decreases queue_size(q),
{
    if q.len() != 0 {
        lemma_queue_size_add(q.drop_first(), child_entries(q[0].0, q[0].1));
        lemma_child_entries_size(q[0].0, q[0].1);
        lemma_bfs_seq_len(q.drop_first() + child_entries(q[0].0, q[0].1));
    }
}

proof fn lemma_bfs_seq_depths<T>(q: Seq<(nat, Node<T>)>)
    requires
        depths_ok(q),
    ensures
        forall|i: int, j: int|
            0 <= i <= j < bfs_seq(q).len() ==> (#[trigger] bfs_seq(q)[i]).0 <= (#[trigger] bfs_seq(
                q,
            )[j]).0,
        forall|i: int| 0 <= i < bfs_seq(q).len() ==> q.len() > 0 && q[0].0 <= (#[trigger] bfs_seq(
            q,
        )[i]).0,
    decreases queue_size(q),
{
    if q.len() != 0 {
        lemma_queue_size_add(q.drop_first(), child_entries(q[0].0, q[0].1));
        lemma_child_entries_size(q[0].0, q[0].1);
        let next = q.drop_first() + child_entries(q[0].0, q[0].1);
        assert forall|i: int, j: int| 0 <= i <= j < next.len() implies (#[trigger] next[i]).0 <= (
        #[trigger] next[j]).0 by {
            if j < q.len() - 1 {
                assert(q[i + 1].0 <= q[j + 1].0);
            } else if i < q.len() - 1 {
                assert(q[i + 1].0 <= q[0].0 + 1);
            }
        }
        assert forall|i: int| 0 <= i < next.len() implies (#[trigger] next[i]).0 <= next[0].0
            + 1 by {
            if next.len() > 0 {
                if 0 < q.len() - 1 {
                    assert(next[0] == q[1]);
                    assert(q[0].0 <= q[1].0);
                    if i < q.len() - 1 {
                        assert(next[i] == q[i + 1]);
                    }
                } else {
                    assert(next[0].0 == q[0].0 + 1);
                    assert(next[i].0 == q[0].0 + 1);
                }
            }
        }
        lemma_bfs_seq_depths(next);
        let out = bfs_seq(q);
        assert(out[0].0 == q[0].0);
        assert forall|i: int| 0 <= i < out.len() implies q[0].0 <= (#[trigger] out[i]).0 by {
            if i > 0 {
                assert(out[i] == bfs_seq(next)[i - 1]);
                if next.len() > 0 {
                    assert(q[0].0 <= next[0].0);
                }
            }
        }
        assert forall|i: int, j: int| 0 <= i <= j < out.len() implies (#[trigger] out[i]).0 <= (
        #[trigger] out[j]).0 by {
            if i > 0 {
                assert(out[i] == bfs_seq(next)[i - 1]);
                assert(out[j] == bfs_seq(next)[j - 1]);
            } else if j > 0 {
                assert(out[j] == bfs_seq(next)[j - 1]);
                if next.len() > 0 {
                    assert(q[0].0 <= next[0].0);
                    assert(next[0].0 <= bfs_seq(next)[j - 1].0);
                }
            }
        }
    }
}

/// The level-order sequence of a tree has exactly one item per node, its
/// first item is the root at depth zero, and the reported depths never
/// decrease from one item to the next.
pub proof fn lemma_level_order_basic<T>(t: Node<T>)
    ensures
        t.level_order().len() == t.size(),
        t.level_order().len() > 0,
        t.level_order()[0] == (0 as nat, t.data),
        forall|i: int, j: int|
            0 <= i <= j < t.level_order().len() ==> (#[trigger] t.level_order()[i]).0 <= (
            #[trigger] t.level_order()[j]).0,
{
    let q = seq![(0 as nat, t)];
    assert(q.drop_first() =~= Seq::<(nat, Node<T>)>::empty());
    assert(queue_size(q) == t.size() + queue_size(Seq::<(nat, Node<T>)>::empty()));
    lemma_bfs_seq_len(q);
    lemma_bfs_seq_depths(q);
    assert(t.level_order()[0] == (0 as nat, t.data));
}

/// Two to the power `n`.
pub open spec fn pow2(n: nat) -> nat
    decreases n,
{
    if n == 0 {
        1
    } else {
        2 * pow2((n - 1) as nat)
    }
}

/// The number of elements rooted at depth `d` that the queued subtrees hold.
pub open spec fn entry_count<T>(e: (nat, Node<T>), d: nat) -> nat {
    if d >= e.0 {
        e.1.count_at((d - e.0) as nat)
    } else {
        0
    }
}

/// The number of elements at depth `d` that walking the whole queue yields.
pub open spec fn queue_count<T>(q: Seq<(nat, Node<T>)>, d: nat) -> nat
    decreases q.len(),
{
    if q.len() == 0 {
        0
    } else {
        entry_count(q[0], d) + queue_count(q.drop_first(), d)
    }
}

proof fn lemma_queue_count_add<T>(a: Seq<(nat, Node<T>)>, b: Seq<(nat, Node<T>)>, d: nat)
    ensures
        queue_count(a + b, d) == queue_count(a, d) + queue_count(b, d),
    decreases a.len(),
{
    if a.len() == 0 {
        assert(a + b =~= b);
    } else {
        assert((a + b).drop_first() =~= a.drop_first() + b);
        assert((a + b)[0] == a[0]);
        lemma_queue_count_add(a.drop_first(), b, d);
    }
}

proof fn lemma_child_entries_count<T>(e: (nat, Node<T>), d: nat)
    ensures
        entry_count(e, d) == (if d == e.0 {
            1 as nat
        } else {
            0 as nat
        }) + queue_count(child_entries(e.0, e.1), d),
{
    let n = e.1;
    let l = if n.left is Some {
        seq![((e.0 + 1) as nat, *n.left->0)]
    } else {
        Seq::<(nat, Node<T>)>::empty()
    };
    let r = if n.right is Some {
        seq![((e.0 + 1) as nat, *n.right->0)]
    } else {
        Seq::<(nat, Node<T>)>::empty()
    };
    lemma_queue_count_add(l, r, d);
    if n.left is Some {
        assert(l.drop_first() =~= Seq::<(nat, Node<T>)>::empty());
        assert(queue_count(l, d) == entry_count(l[0], d));
    }
    if n.right is Some {
        assert(r.drop_first() =~= Seq::<(nat, Node<T>)>::empty());
        assert(queue_count(r, d) == entry_count(r[0], d));
    }
    if d > e.0 {
        assert(n.count_at((d - e.0) as nat) == crate::binary_tree::opt_count_at(
            n.left,
            (d - e.0 - 1) as nat,
        ) + crate::binary_tree::opt_count_at(n.right, (d - e.0 - 1) as nat));
    }
}

proof fn lemma_filter_element<A>(s: Seq<A>, pred: spec_fn(A) -> bool)
    requires
        s.filter(pred).len() > 0,
    ensures
        exists|i: int| 0 <= i < s.len() && pred(#[trigger] s[i]),
    decreases s.len(),
{
    reveal(Seq::filter);
    if s.len() > 0 {
        if pred(s.last()) {
            assert(pred(s[s.len() - 1]));
        } else {
            lemma_filter_element(s.drop_last(), pred);
            let i = choose|i: int| 0 <= i < s.drop_last().len() && pred(#[trigger] s.drop_last()[i]);
            assert(pred(s[i]));
        }
    }
}

proof fn lemma_bfs_seq_count<T>(q: Seq<(nat, Node<T>)>, d: nat)
    ensures
        bfs_seq(q).filter(|p: (nat, T)| p.0 == d).len() == queue_count(q, d),
    decreases queue_size(q),
{
    let pred = |p: (nat, T)| p.0 == d;
    reveal(Seq::filter);
    if q.len() == 0 {
        assert(bfs_seq(q).filter(pred).len() == 0);
    } else {
        lemma_queue_size_add(q.drop_first(), child_entries(q[0].0, q[0].1));
        lemma_child_entries_size(q[0].0, q[0].1);
        let next = q.drop_first() + child_entries(q[0].0, q[0].1);
        let head = seq![(q[0].0, q[0].1.data)];
        Seq::filter_distributes_over_add(head, bfs_seq(next), pred);
        assert(head.drop_last() =~= Seq::<(nat, T)>::empty());
        assert(Seq::<(nat, T)>::empty().filter(pred) =~= Seq::<(nat, T)>::empty());
        assert(head.last() == (q[0].0, q[0].1.data));
        assert(head.filter(pred).len() == (if d == q[0].0 {
            1 as nat
        } else {
            0 as nat
        }));
        lemma_bfs_seq_count(next, d);
        lemma_queue_count_add(q.drop_first(), child_entries(q[0].0, q[0].1), d);
        lemma_child_entries_count(q[0], d);
    }
}

/// In the level-order sequence of any tree, the number of items reported at
/// depth `d` is exactly the number of the tree's nodes at depth `d`.
pub proof fn lemma_level_order_count_at<T>(t: Node<T>, d: nat)
    ensures
        t.level_order().filter(|p: (nat, T)| p.0 == d).len() == t.count_at(d),
{
    let q = seq![(0 as nat, t)];
    lemma_bfs_seq_count(q, d);
    assert(q.drop_first() =~= Seq::<(nat, Node<T>)>::empty());
    assert(queue_count(Seq::<(nat, Node<T>)>::empty(), d) == 0);
    assert(queue_count(q, d) == entry_count(q[0], d));
    assert(entry_count(q[0], d) == t.count_at(d));
}

proof fn lemma_perfect_count_at<T>(t: Node<T>, h: nat, d: nat)
    requires
        t.is_perfect(h),
    ensures
        d <= h ==> t.count_at(d) == pow2(d),
        d > h ==> t.count_at(d) == 0,
    decreases t,
{
    if d > 0 && h > 0 {
        lemma_perfect_count_at(*t.left->0, (h - 1) as nat, (d - 1) as nat);
        lemma_perfect_count_at(*t.right->0, (h - 1) as nat, (d - 1) as nat);
    }
}

/// For the complete binary tree of height `h`: the level-order sequence has
/// exactly two-to-the-`d` items at each depth `d` up to and including `h`,
/// some item at depth `h` itself, and no item deeper, so `h` is the maximum
/// reported depth.
pub proof fn lemma_level_order_perfect<T>(t: Node<T>, h: nat, d: nat)
    requires
        t.is_perfect(h),
    ensures
        d <= h ==> t.level_order().filter(|p: (nat, T)| p.0 == d).len() == pow2(d),
        forall|i: int| 0 <= i < t.level_order().len() ==> (#[trigger] t.level_order()[i]).0 <= h,
        exists|i: int| 0 <= i < t.level_order().len() && (#[trigger] t.level_order()[i]).0 == h,
{
    lemma_level_order_count_at(t, d);
    lemma_perfect_count_at(t, h, d);
    let s = t.level_order();
    assert forall|i: int| 0 <= i < s.len() implies (#[trigger] s[i]).0 <= h by {
        let d0 = s[i].0;
        if d0 > h {
            lemma_level_order_count_at(t, d0);
            lemma_perfect_count_at(t, h, d0);
            let pred = |p: (nat, T)| p.0 == d0;
            s.lemma_filter_contains(pred, i);
            s.lemma_filter_len(pred);
            assert(s.filter(pred).contains(s[i]));
            assert(s.filter(pred).len() > 0);
        }
    }
    lemma_level_order_count_at(t, h);
    lemma_perfect_count_at(t, h, h);
    let predh = |p: (nat, T)| p.0 == h;
    assert(pow2(h) > 0) by {
        lemma_pow2_pos(h);
    }
    lemma_filter_element(s, predh);
}

proof fn lemma_pow2_pos(n: nat)
    ensures
        pow2(n) >= 1,
    decreases n,
{
    if n > 0 {
        lemma_pow2_pos((n - 1) as nat);
    }
}

/// A level-order traversal in progress: a queue of the subtrees still to be
/// walked, together with the depth of the next element and how many queued
/// subtrees still belong to that depth.
pub struct LevelOrderIter<'a, T> {
    /// The subtrees still to be walked, front first.
    pub queue: VecDeque<&'a Node<T>>,
    /// The depth of the next element to be produced.
    pub level: usize,
    /// How many entries at the front of the queue are rooted at depth
    /// `level`; every later entry is rooted one level further down.
    pub remaining: usize,
}

impl<'a, T> LevelOrderIter<'a, T> {
    /// The queued subtrees, each with the depth of its root.
    pub open spec fn entries(self) -> Seq<(nat, Node<T>)> {
        Seq::new(
            self.queue@.len(),
            |i: int|
                (
                    if i < self.remaining {
                        self.level as nat
                    } else {
                        (self.level + 1) as nat
                    },
                    *self.queue@[i],
                ),
        )
    }

    /// The (depth, element) pairs this iterator has still to produce.
    pub open spec fn items(self) -> Seq<(nat, T)> {
        bfs_seq(self.entries())
    }

    /// The iterator's bookkeeping is consistent: a non-empty queue begins
    /// with at least one entry of the current level, and no queued subtree
    /// reaches a depth that would overflow the level counter.
    pub open spec fn wf(self) -> bool {
        &&& self.remaining <= self.queue@.len()
        &&& (self.queue@.len() > 0 ==> self.remaining >= 1)
        &&& forall|i: int|
            0 <= i < self.entries().len() ==> (#[trigger] self.entries()[i]).0
                + self.entries()[i].1.height() + 1 < usize::MAX
    }

    /// Create a level-order traversal of the tree rooted at `node`.
    pub fn new(node: &'a Node<T>) -> (it: Self)
        requires
            node.height() + 1 < usize::MAX,
        ensures
            it.wf(),
            it.items() == node.level_order(),
    {
        let mut queue = VecDeque::new();
        queue.push_back(node);
        let it = Self { queue, level: 0, remaining: 1 };
        proof {
            assert(it.entries() =~= seq![(0 as nat, *node)]);
        }
        it
    }

    /// The depth, in the walked tree, of the next element that `next` will
    /// produce.
    pub fn level(&self) -> (r: usize)
        requires
            self.wf(),
        ensures
            r == self.level,
            self.items().len() > 0 ==> r as nat == self.items()[0].0,
    {
        proof {
            if self.entries().len() > 0 {
                assert(self.items()[0].0 == self.entries()[0].0);
            }
        }
        self.level
    }

    /// Produce the next (depth, element) pair of the walk, or `None` when
    /// every node has been visited.
    pub fn next(&mut self) -> (r: Option<(usize, &'a T)>)
        requires
            old(self).wf(),
        ensures
            final(self).wf(),
            old(self).items().len() == 0 ==> r is None && final(self).entries() == old(
                self,
            ).entries() && final(self).level == old(self).level,
            old(self).items().len() > 0 ==> {
                &&& r is Some
                &&& ((r->0).0 as nat, *(r->0).1) == old(self).items()[0]
                &&& (r->0).0 == old(self).level
                &&& final(self).items() == old(self).items().drop_first()
            },
    {
        let ghost pre = *self;
        if let Option::Some(node) = self.queue.pop_front() {
            let ghost d = pre.entries()[0].0;
            if let Option::Some(l) = node.left() {
                self.queue.push_back(l);
            }
            if let Option::Some(rt) = node.right() {
                self.queue.push_back(rt);
            }
            let depth = self.level;
            self.remaining = self.remaining - 1;
            if self.remaining == 0 {
                proof {
                    assert(pre.entries()[0].0 + pre.entries()[0].1.height() + 1 < usize::MAX);
                }
                self.level = self.level + 1;
                self.remaining = self.queue.len();
            }
            proof {
                let cur = *self;
                assert(d == depth as nat);
                if node.left is Some {
                    assert(opt_height(node.left) <= node.height());
                }
                if node.right is Some {
                    assert(opt_height(node.right) <= node.height());
                }
                assert(cur.entries() =~= pre.entries().drop_first() + child_entries(d, *node));
                assert(pre.items() =~= seq![(d, node.data)] + cur.items());
                assert(cur.items() =~= pre.items().drop_first());
                assert forall|i: int|
                    0 <= i < cur.entries().len() implies (#[trigger] cur.entries()[i]).0
                    + cur.entries()[i].1.height() + 1 < usize::MAX by {
                    let tail_len = pre.entries().len() - 1;
                    if i < tail_len {
                        assert(cur.entries()[i] == pre.entries()[i + 1]);
                        assert(pre.entries()[i + 1].0 + pre.entries()[i + 1].1.height() + 1
                            < usize::MAX);
                    } else {
                        assert(cur.entries()[i].0 == d + 1);
                        assert(cur.entries()[i].1.height() + 1 <= node.height());
                    }
                }
            }
            Option::Some((depth, node.data()))
        } else {
            proof {
                assert(pre.entries() =~= Seq::<(nat, Node<T>)>::empty());
            }
            Option::None
        }
    }
}

} // verus!
