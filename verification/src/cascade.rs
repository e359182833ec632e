//! The order in which a release empties nodes: each emptied node is the
//! released one or is pointed at by a node emptied before it.

use vstd::prelude::*;
use crate::nanocube::{NCDimNode, Nanocube};

verus! {

impl<S> Nanocube<S> {
    /// Every child sits at a lower slot of its arena than its parent: no
    /// chain of pointers comes back to where it started.
    pub open spec fn ordered(&self) -> bool {
        forall|d: nat, j: int|
            d < self.num_dims() && 0 <= j < self.slots(d) ==> {
                let n = #[trigger] self.nodes_of(d)[j];
                &&& (n.left matches Some(c) ==> c < j)
                &&& (n.right matches Some(c) ==> c < j)
            }
    }

    /// Slot `x` lies strictly below `y`: in a later arena, or at a lower slot
    /// of the same arena.
    pub open spec fn below(x: (usize, usize), y: (usize, usize)) -> bool {
        x.1 > y.1 || (x.1 == y.1 && x.0 < y.0)
    }

    /// Node `p` (slot `p.0` of dimension `p.1`) points at `c` (slot `c.0`
    /// of arena `c.1`): as a child in the same dimension or as its `next`.
    pub open spec fn points_to(&self, p: (usize, usize), c: (usize, usize)) -> bool {
        let n = self.nodes_of(p.1 as nat)[p.0 as int];
        &&& p.1 < self.num_dims()
        &&& p.0 < self.slots(p.1 as nat)
        &&& ((c.1 == p.1 && (n.left == Some(c.0) || n.right == Some(c.0))) || (c.1 == p.1 + 1 && n.next
            == Some(c.0)))
    }

    /// `x` is the root, or a node listed in `listed` points at it.
    pub open spec fn reached(&self, root: (usize, usize), listed: Seq<(usize, usize)>, x: (usize, usize)) -> bool {
        x == root || exists|m: int| 0 <= m < listed.len() && #[trigger] self.points_to(listed[m], x)
    }

    /// Every node of `order` is the root or is pointed at by a node listed
    /// before it: the nodes of `order` are reached from the root alone.
    pub open spec fn cascade_from(&self, root: (usize, usize), order: Seq<(usize, usize)>) -> bool {
        forall|m: int| 0 <= m < order.len() ==> #[trigger] self.reached(root, order.take(m), order[m])
    }

    pub proof fn lemma_reached_push(&self, root: (usize, usize), listed: Seq<(usize, usize)>, x: (usize, usize), y: (usize, usize))
        requires
            self.reached(root, listed, y),
        ensures
            self.reached(root, listed.push(x), y),
    {
        if y != root {
            let m = choose|m: int| 0 <= m < listed.len() && #[trigger] self.points_to(listed[m], y);
            assert(listed.push(x)[m] == listed[m]);
        }
    }

    pub proof fn lemma_cascade_push(&self, root: (usize, usize), order: Seq<(usize, usize)>, x: (usize, usize))
        requires
            self.cascade_from(root, order),
            self.reached(root, order, x),
        ensures
            self.cascade_from(root, order.push(x)),
    {
        let o2 = order.push(x);
        assert forall|m: int| 0 <= m < o2.len() implies #[trigger] self.reached(root, o2.take(m), o2[m]) by {
            if m < order.len() {
                assert(o2.take(m) =~= order.take(m));
                assert(self.reached(root, order.take(m), order[m]));
            } else {
                assert(o2.take(m) =~= order);
            }
        }
    }


    /// The releases that emptying node `n` at `x` pushes: its children, then
    /// its `next`.
    pub open spec fn kids(n: NCDimNode, x: (usize, usize)) -> Seq<(usize, usize)> {
        (match n.left {
            Some(l) => seq![(l, x.1)],
            None => Seq::empty(),
        }) + (match n.right {
            Some(r) => seq![(r, x.1)],
            None => Seq::empty(),
        }) + (match n.next {
            Some(k) => seq![(k, (x.1 + 1) as usize)],
            None => Seq::empty(),
        })
    }

    /// Emptying a reached node `x` lists it after the nodes emptied so far;
    /// every pending release, old or pushed by `x`, is then reached.
    pub proof fn lemma_cascade_clear(
        &self,
        root: (usize, usize),
        order: Seq<(usize, usize)>,
        st1: Seq<(usize, usize)>,
        x: (usize, usize),
    )
        requires
            self.cascade_from(root, order),
            self.reached(root, order, x),
            x.1 < self.num_dims(),
            self.num_dims() <= usize::MAX,
            x.0 < self.slots(x.1 as nat),
            forall|k: int| 0 <= k < st1.len() ==> self.reached(root, order, #[trigger] st1[k]),
        ensures
            self.cascade_from(root, order.push(x)),
            forall|k: int|
                0 <= k < (st1 + Self::kids(self.nodes_of(x.1 as nat)[x.0 as int], x)).len() ==> self.reached(
                    root,
                    order.push(x),
                    #[trigger] (st1 + Self::kids(self.nodes_of(x.1 as nat)[x.0 as int], x))[k],
                ),
            forall|k: int|
                st1.len() <= k < (st1 + Self::kids(self.nodes_of(x.1 as nat)[x.0 as int], x)).len() ==> self.points_to(
                    x,
                    #[trigger] (st1 + Self::kids(self.nodes_of(x.1 as nat)[x.0 as int], x))[k],
                ),
    {
        self.lemma_cascade_push(root, order, x);
        let n = self.nodes_of(x.1 as nat)[x.0 as int];
        let st2 = st1 + Self::kids(n, x);
        let o2 = order.push(x);
        assert(o2[order.len() as int] == x);
        assert forall|k: int| 0 <= k < st2.len() implies self.reached(root, o2, #[trigger] st2[k]) && (k >= st1.len()
            ==> self.points_to(x, st2[k])) by {
            if k < st1.len() {
                assert(st2[k] == st1[k]);
                self.lemma_reached_push(root, order, x, st1[k]);
            } else {
                let kk = Self::kids(n, x);
                let j = k - st1.len();
                let a = match n.left {
                    Some(l) => seq![(l, x.1)],
                    None => Seq::empty(),
                };
                let b = match n.right {
                    Some(r) => seq![(r, x.1)],
                    None => Seq::empty(),
                };
                let c = match n.next {
                    Some(t) => seq![(t, (x.1 + 1) as usize)],
                    None => Seq::empty(),
                };
                assert(kk == a + b + c);
                assert(st2[k] == kk[j]);
                if j < a.len() {
                    assert(kk[j] == a[j]);
                } else if j < a.len() + b.len() {
                    assert(kk[j] == (a + b)[j]);
                    assert((a + b)[j] == b[j - a.len()]);
                } else {
                    assert(kk[j] == c[j - a.len() - b.len()]);
                }
                assert(self.points_to(x, st2[k]));
                assert(self.points_to(o2[order.len() as int], st2[k]));
            }
        }
    }

    pub proof fn lemma_contains_push(order: Seq<(usize, usize)>, x: (usize, usize))
        ensures
            order.push(x).contains(x),
            forall|y: (usize, usize)| order.contains(y) ==> #[trigger] order.push(x).contains(y),
    {
        assert(order.push(x)[order.len() as int] == x);
        assert forall|y: (usize, usize)| order.contains(y) implies #[trigger] order.push(x).contains(y) by {
            let m = choose|m: int| 0 <= m < order.len() && order[m] == y;
            assert(order.push(x)[m] == y);
        }
    }

    /// Nodes that stay as they were or are emptied keep the arenas ordered.
    pub proof fn lemma_ordered_kept(&self, other: &Self)
        requires
            self.ordered(),
            self.num_dims() == other.num_dims(),
            forall|d: nat| d < self.num_dims() ==> #[trigger] other.slots(d) == self.slots(d),
            forall|d: nat, t: int|
                d < self.num_dims() && 0 <= t < self.slots(d) ==> #[trigger] other.nodes_of(d)[t] == self.nodes_of(d)[t]
                    || other.nodes_of(d)[t] == crate::counting::cleared(),
        ensures
            other.ordered(),
    {
        assert forall|d: nat, j: int| d < other.num_dims() && 0 <= j < other.slots(d) implies {
            let n = #[trigger] other.nodes_of(d)[j];
            &&& (n.left matches Some(c) ==> c < j)
            &&& (n.right matches Some(c) ==> c < j)
        } by {
            assert(other.nodes_of(d)[j] == self.nodes_of(d)[j] || other.nodes_of(d)[j] == crate::counting::cleared());
        }
    }

    /// Appending a node whose children are already in the arena keeps it
    /// ordered.
    pub proof fn lemma_ordered_push(&self, other: &Self, d: nat, n: NCDimNode)
        requires
            self.ordered(),
            d < self.num_dims(),
            self.num_dims() == other.num_dims(),
            self.node_ptrs_ok(d, n),
            other.nodes_of(d) == self.nodes_of(d).push(n),
            forall|e: nat| e < self.num_dims() && e != d ==> #[trigger] other.nodes_of(e) == self.nodes_of(e),
        ensures
            other.ordered(),
    {
        assert forall|e: nat, j: int| e < other.num_dims() && 0 <= j < other.slots(e) implies {
            let m = #[trigger] other.nodes_of(e)[j];
            &&& (m.left matches Some(c) ==> c < j)
            &&& (m.right matches Some(c) ==> c < j)
        } by {
            if e == d && j == self.slots(d) {
                assert(other.nodes_of(e)[j] == n);
            } else {
                assert(other.nodes_of(e)[j] == self.nodes_of(e)[j]);
            }
        }
    }

    /// In ordered arenas a node points only below itself.
    pub proof fn lemma_points_below(&self, p: (usize, usize), c: (usize, usize))
        requires
            self.ordered(),
            self.points_to(p, c),
        ensures
            Self::below(c, p),
    {
        assert(p.1 < self.num_dims() && p.0 < self.slots(p.1 as nat));
        let n = self.nodes_of(p.1 as nat)[p.0 as int];
        assert(n == self.nodes_of(p.1 as nat)[p.0 as int]);
    }
}

} // verus!
