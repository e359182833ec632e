//! The invariant of the cascade in `release_node_ref`, and its two steps:
//! dropping one reference, and emptying a node whose count reached zero.

use vstd::prelude::*;
use crate::counting::{cleared, hits, lemma_occ_push, lemma_sum_at_least, occ, PtrKind};
use crate::cube::Monoid;
use crate::nanocube::{NCDimNode, Nanocube};

verus! {

impl<S> Nanocube<S> {
    /// The surplus that slot `t` of arena `d` must have once the reference to
    /// slot `node` of arena `dim` is released.
    pub open spec fn released_excess(&self, node: usize, dim: nat, d: nat, t: usize) -> int {
        self.excess(d, t) - if t == node && d == dim {
            1int
        } else {
            0int
        }
    }

    /// Midway through releasing slot `node` of arena `dim` of `s0`: every
    /// count is the pointers to its slot, plus its final surplus, plus the
    /// releases still pending on `stack`; a node is emptied exactly when its
    /// count went from positive to zero (but for `hole`, which is about to
    /// be).
    pub open spec fn release_inv(
        &self,
        s0: &Self,
        node: usize,
        dim: nat,
        stack: Seq<(usize, usize)>,
        hole: Option<(nat, int)>,
    ) -> bool {
        let nd = s0.num_dims();
        &&& self.arenas_ok()
        &&& self.base_root == s0.base_root
        &&& s0.same_frame(self)
        &&& nd <= usize::MAX
        &&& self.summaries.values@ == s0.summaries.values@
        &&& forall|d: nat| d <= nd ==> #[trigger] self.slots(d) == s0.slots(d)
        &&& forall|k: int|
            0 <= k < stack.len() ==> (#[trigger] stack[k]).1 <= nd && stack[k].0 < s0.slots(
                stack[k].1 as nat,
            )
        &&& forall|d: nat, t: usize|
            d <= nd && t < s0.slots(d) ==> #[trigger] self.counts_of(d)[t as int] == self.refs(d, t)
                + s0.released_excess(node, dim, d, t) + occ(stack, (t, d as usize))
        &&& forall|d: nat, t: usize|
            d <= nd && t < s0.slots(d) ==> #[trigger] self.counts_of(d)[t as int] <= s0.counts_of(
                d,
            )[t as int]
        &&& forall|d: nat, t: int|
            d < nd && 0 <= t < s0.slots(d) && hole != Some((d, t)) ==> #[trigger] self.nodes_of(d)[t]
                == if s0.counts_of(d)[t] > 0 && self.counts_of(d)[t] == 0 {
                cleared()
            } else {
                s0.nodes_of(d)[t]
            }
    }

    /// A release whose count stays positive drops that count and nothing
    /// else.
    pub proof fn lemma_release_single(
        before: Self,
        after: Self,
        s0: Self,
        node: usize,
        dim: nat,
        st0: Seq<(usize, usize)>,
        st1: Seq<(usize, usize)>,
        idx: usize,
        d: nat,
    )
        requires
            s0.counts_of(dim)[node as int] > 1,
            st0 == seq![(node, dim as usize)],
            st0 == st1.push((idx, d as usize)),
            s0.counts_but(&before, dim, s0.counts_of(dim)),
            d <= s0.num_dims(),
            dim <= s0.num_dims(),
            s0.num_dims() <= usize::MAX,
            after.counts_of(d) == before.counts_of(d).update(idx as int, (before.counts_of(d)[idx as int] - 1) as u128),
            forall|e: nat| e <= s0.num_dims() && e != d ==> #[trigger] after.counts_of(e) == before.counts_of(e),
        ensures
            st1.len() == 0,
            s0.counts_but(&after, dim, s0.counts_of(dim).update(node as int, (s0.counts_of(dim)[node as int] - 1) as u128)),
    {
        assert(st0.len() == st1.len() + 1);
        assert(st0.len() == 1);
        assert(st0[st1.len() as int] == (idx, d as usize));
        assert(d == dim);
        assert forall|e: nat| e <= s0.num_dims() && e != dim implies #[trigger] after.counts_of(e) == s0.counts_of(e) by {
            assert(before.counts_of(e) == s0.counts_of(e));
        }
    }

    /// Dropping the reference popped from the stack keeps the invariant; a
    /// node whose count reaches zero is left as a hole, still as it was.
    pub proof fn lemma_release_dec(
        before: Self,
        after: Self,
        s0: Self,
        node: usize,
        dim: nat,
        st0: Seq<(usize, usize)>,
        st1: Seq<(usize, usize)>,
        idx: usize,
        d: usize,
    )
        requires
            before.release_inv(&s0, node, dim, st0, None),
            st0 == st1.push((idx, d)),
            before.counts_of(d as nat)[idx as int] >= 1,
            after.arenas_ok(),
            before.same_but_counts(&after),
            before.counts_but(
                &after,
                d as nat,
                before.counts_of(d as nat).update(
                    idx as int,
                    (before.counts_of(d as nat)[idx as int] - 1) as u128,
                ),
            ),
        ensures
            after.release_inv(
                &s0,
                node,
                dim,
                st1,
                if d < s0.num_dims() && after.counts_of(d as nat)[idx as int] == 0 {
                    Some((d as nat, idx as int))
                } else {
                    None
                },
            ),
            d < s0.num_dims() ==> after.nodes_of(d as nat)[idx as int] == s0.nodes_of(d as nat)[idx as int],
            d < s0.num_dims() && after.counts_of(d as nat)[idx as int] == 0 ==> s0.counts_of(d as nat)[idx as int] > 0,
            after.ptr_total(s0.num_dims()) == before.ptr_total(s0.num_dims()),
    {
        let nd = s0.num_dims();
        let dn = d as nat;
        assert(st0[st0.len() - 1] == (idx, d));
        assert(dn <= nd && idx < s0.slots(dn));
        before.lemma_ptr_total_same(&after, nd);
        assert forall|e: nat, t: usize|
            e <= nd && t < s0.slots(e) implies #[trigger] after.counts_of(e)[t as int] == after.refs(e, t)
                + s0.released_excess(node, dim, e, t) + occ(st1, (t, e as usize)) by {
            lemma_occ_push(st1, (idx, d), (t, e as usize));
            assert(after.refs(e, t) == before.refs(e, t));
            assert(before.counts_of(e)[t as int] == before.refs(e, t) + s0.released_excess(node, dim, e, t)
                + occ(st0, (t, e as usize)));
            assert(((t, e as usize) == (idx, d)) == (t == idx && e == dn));
            if e != dn {
                assert(after.counts_of(e) == before.counts_of(e));
            } else if t == idx {
                assert(after.counts_of(e)[t as int] == before.counts_of(e)[t as int] - 1);
            } else {
                assert(t as int != idx as int);
                assert(after.counts_of(e)[t as int] == before.counts_of(e)[t as int]);
            }
        }
        assert forall|e: nat, t: usize|
            e <= nd && t < s0.slots(e) implies #[trigger] after.counts_of(e)[t as int] <= s0.counts_of(e)[t as int] by {
            assert(before.counts_of(e)[t as int] <= s0.counts_of(e)[t as int]);
            if e != dn {
                assert(after.counts_of(e) == before.counts_of(e));
            }
        }
        let hole = if d < nd && after.counts_of(dn)[idx as int] == 0 {
            Some((dn, idx as int))
        } else {
            None
        };
        assert forall|e: nat, t: int|
            e < nd && 0 <= t < s0.slots(e) && hole != Some((e, t)) implies #[trigger] after.nodes_of(e)[t]
                == if s0.counts_of(e)[t] > 0 && after.counts_of(e)[t] == 0 {
                cleared()
            } else {
                s0.nodes_of(e)[t]
            } by {
            assert(after.nodes_of(e) == before.nodes_of(e));
            assert(before.nodes_of(e)[t] == if s0.counts_of(e)[t] > 0 && before.counts_of(e)[t] == 0 {
                cleared()
            } else {
                s0.nodes_of(e)[t]
            });
            if e != dn {
                assert(after.counts_of(e) == before.counts_of(e));
            }
        }
        assert forall|k: int| 0 <= k < st1.len() implies (#[trigger] st1[k]).1 <= nd && st1[k].0 < s0.slots(
            st1[k].1 as nat,
        ) by {
            assert(st1[k] == st0[k]);
        }
        assert forall|e: nat| e <= nd implies #[trigger] after.slots(e) == s0.slots(e) by {
            assert(after.slots(e) == before.slots(e));
        }
        if d < nd {
            assert(after.nodes_of(dn) == before.nodes_of(dn));
            assert(before.nodes_of(dn)[idx as int] == s0.nodes_of(dn)[idx as int]);
            assert(before.counts_of(dn)[idx as int] <= s0.counts_of(dn)[idx as int]);
        }
        assert forall|e: nat| e < after.num_dims() implies #[trigger] s0.width_of(e) == after.width_of(e) by {
            assert(s0.width_of(e) == before.width_of(e));
            assert(before.width_of(e) == after.width_of(e));
        }
    }

    /// Emptying the hole and pushing the references that it held restores
    /// the invariant, and lowers the pointer total by as much as the stack
    /// grew.
    pub proof fn lemma_release_clear(
        mid: Self,
        after: Self,
        s0: Self,
        node: usize,
        dim: nat,
        sp0: Seq<(usize, usize)>,
        stack: Seq<(usize, usize)>,
        idx: usize,
        d: usize,
        nb: NCDimNode,
    )
        requires
            d < s0.num_dims(),
            mid.release_inv(&s0, node, dim, sp0, Some((d as nat, idx as int))),
            idx < s0.slots(d as nat),
            nb == mid.nodes_of(d as nat)[idx as int],
            nb == s0.nodes_of(d as nat)[idx as int],
            s0.counts_of(d as nat)[idx as int] > 0,
            mid.counts_of(d as nat)[idx as int] == 0,
            after.num_dims() == mid.num_dims(),
            after.base_root == mid.base_root,
            after.summaries == mid.summaries,
            forall|e: nat| e < mid.num_dims() ==> (#[trigger] after.dims@[e as int]).nodes.wf()
                && after.width_of(e) == mid.width_of(e)
                && (e != d ==> after.nodes_of(e) == mid.nodes_of(e))
                && after.counts_of(e) == mid.counts_of(e),
            after.nodes_of(d as nat) == mid.nodes_of(d as nat).update(idx as int, cleared()),
            stack == {
                let s1 = if nb.left is Some { sp0.push((nb.left.unwrap(), d)) } else { sp0 };
                let s2 = if nb.right is Some { s1.push((nb.right.unwrap(), d)) } else { s1 };
                if nb.next is Some { s2.push((nb.next.unwrap(), (d + 1) as usize)) } else { s2 }
            },
        ensures
            after.release_inv(&s0, node, dim, stack, None),
            after.ptr_total(s0.num_dims()) + stack.len() < mid.ptr_total(s0.num_dims()) + sp0.len() + 1,
    {
        let nd = s0.num_dims();
        let dn = d as nat;
        let s1 = if nb.left is Some { sp0.push((nb.left.unwrap(), d)) } else { sp0 };
        let s2 = if nb.right is Some { s1.push((nb.right.unwrap(), d)) } else { s1 };
        assert(mid.node_ptrs_ok(dn, nb));
        assert(after.counts_of(nd) == mid.counts_of(nd));
        assert forall|e: nat| e <= nd implies #[trigger] after.slots(e) == s0.slots(e) by {
            assert(mid.slots(e) == s0.slots(e));
        }
        assert forall|e: nat, j: int|
            e < nd && 0 <= j < after.slots(e) implies after.node_ptrs_ok(e, #[trigger] after.nodes_of(e)[j]) by {
            if !(e == dn && j == idx) {
                assert(mid.node_ptrs_ok(e, mid.nodes_of(e)[j]));
            }
            if e + 1 < nd {
                assert(after.slots(e + 1) == mid.slots(e + 1));
            }
        }
        assert(after.arenas_ok());
        mid.lemma_ptr_total_update(&after, nd, dn, idx as int, cleared());
        assert forall|k: int| 0 <= k < stack.len() implies (#[trigger] stack[k]).1 <= nd && stack[k].0 < s0.slots(
            stack[k].1 as nat,
        ) by {
            if k < sp0.len() {
                assert(stack[k] == sp0[k]);
            } else if k < s1.len() {
                assert(stack[k] == s1[k]);
            } else if k < s2.len() {
                assert(stack[k] == s2[k]);
            }
        }
        assert forall|e: nat, t: usize|
            e <= nd && t < s0.slots(e) implies #[trigger] after.counts_of(e)[t as int] == after.refs(e, t)
                + s0.released_excess(node, dim, e, t) + occ(stack, (t, e as usize)) by {
            mid.lemma_clear_refs(&after, dn, idx as int, e, t);
            lemma_occ_push(sp0, (nb.left.unwrap(), d), (t, e as usize));
            lemma_occ_push(s1, (nb.right.unwrap(), d), (t, e as usize));
            lemma_occ_push(s2, (nb.next.unwrap(), (d + 1) as usize), (t, e as usize));
            assert(mid.counts_of(e)[t as int] == mid.refs(e, t) + s0.released_excess(node, dim, e, t) + occ(sp0, (t, e as usize)));
            assert(after.counts_of(e) == mid.counts_of(e));
        }
        assert forall|e: nat, t: usize|
            e <= nd && t < s0.slots(e) implies #[trigger] after.counts_of(e)[t as int] <= s0.counts_of(e)[t as int] by {
            assert(mid.counts_of(e)[t as int] <= s0.counts_of(e)[t as int]);
            assert(after.counts_of(e) == mid.counts_of(e));
        }
        assert forall|e: nat, t: int|
            e < nd && 0 <= t < s0.slots(e) implies #[trigger] after.nodes_of(e)[t]
                == if s0.counts_of(e)[t] > 0 && after.counts_of(e)[t] == 0 {
                cleared()
            } else {
                s0.nodes_of(e)[t]
            } by {
            assert(after.counts_of(e) == mid.counts_of(e));
            if !(e == dn && t == idx) {
                assert(mid.nodes_of(e)[t] == if s0.counts_of(e)[t] > 0 && mid.counts_of(e)[t] == 0 {
                    cleared()
                } else {
                    s0.nodes_of(e)[t]
                });
            }
        }
        assert forall|e: nat| e < after.num_dims() implies #[trigger] s0.width_of(e) == after.width_of(e) by {
            assert(s0.width_of(e) == mid.width_of(e));
        }
        assert(hits(PtrKind::Any, cleared(), 0) == 0);
    }
}

impl<S: Monoid> Nanocube<S> {
    /// After a release, a well-formed subtree whose root still has a
    /// reference is untouched: every node under it is held by its parent.
    pub proof fn lemma_release_keeps_tree(old: Self, new: Self, d: nat, i: usize, bit: nat)
        requires
            old.good(d, i, bit),
            new.counts_ok(),
            old.same_frame(&new),
            new.summaries.values@ == old.summaries.values@,
            forall|e: nat| e <= old.num_dims() ==> #[trigger] new.slots(e) == old.slots(e),
            forall|e: nat, t: int|
                e < old.num_dims() && 0 <= t < old.slots(e) ==> #[trigger] new.nodes_of(e)[t]
                    == if old.counts_of(e)[t] > 0 && new.counts_of(e)[t] == 0 {
                    cleared()
                } else {
                    old.nodes_of(e)[t]
                },
            d < old.num_dims() ==> new.counts_of(d)[i as int] >= 1,
        ensures
            old.agree(&new, d, i, bit),
        decreases old.num_dims() - d, old.width_of(d) - bit,
    {
        let nd = old.num_dims();
        if d < nd {
            let n = old.nodes_of(d)[i as int];
            assert(new.slots(d) == old.slots(d));
            assert(i < new.nodes_of(d).len());
            assert(old.counts_of(d)[i as int] > 0 && new.counts_of(d)[i as int] == 0 ==> false);
            assert(new.nodes_of(d)[i as int] == n);
            let k = n.next.unwrap();
            lemma_sum_at_least(new.nodes_of(d), i as int, PtrKind::Next, k);
            assert(hits(PtrKind::Next, n, k) == 1);
            assert(old.good(d + 1, k, 0));
            assert(k < old.slots(d + 1));
            assert(0 <= new.excess(d + 1, k));
            Self::lemma_release_keeps_tree(old, new, d + 1, k, 0);
            if bit < old.width_of(d) {
                if let Some(l) = n.left {
                    lemma_sum_at_least(new.nodes_of(d), i as int, PtrKind::Child, l);
                    assert(hits(PtrKind::Child, n, l) >= 1);
                    assert(old.good(d, l, bit + 1));
                    assert(0 <= new.excess(d, l));
                    Self::lemma_release_keeps_tree(old, new, d, l, bit + 1);
                }
                if let Some(r) = n.right {
                    lemma_sum_at_least(new.nodes_of(d), i as int, PtrKind::Child, r);
                    assert(hits(PtrKind::Child, n, r) >= 1);
                    assert(old.good(d, r, bit + 1));
                    assert(0 <= new.excess(d, r));
                    Self::lemma_release_keeps_tree(old, new, d, r, bit + 1);
                }
            }
        }
    }
}

} // verus!
