//! Which slots a change leaves without any reference: counts only grow, and
//! every slot that is appended is held by some pointer, but for the few
//! that the change hands back to its caller.

use vstd::prelude::*;
use crate::nanocube::{NCDimNode, Nanocube};
use crate::counting::{cleared, hits, PtrKind};

verus! {

/// The slot `o` of arena `d`, if there is one.
pub open spec fn opt_top(d: nat, o: Option<usize>) -> Set<(nat, usize)> {
    match o {
        Some(t) => set![(d, t)],
        None => Set::empty(),
    }
}

impl<S> Nanocube<S> {
    /// No count of a slot of `self` is lower in `other`.
    pub open spec fn counts_grown(&self, other: &Self) -> bool {
        forall|d: nat, t: usize|
            d <= self.num_dims() && t < self.slots(d) ==> #[trigger] other.counts_of(d)[t as int]
                >= self.counts_of(d)[t as int]
    }

    /// Every slot appended in `other` has a positive count, but for those of
    /// `tops` (pairs of an arena and a slot).
    pub open spec fn fresh_held(&self, other: &Self, tops: Set<(nat, usize)>) -> bool {
        forall|d: nat, t: usize|
            d <= self.num_dims() && self.slots(d) <= t < other.slots(d) && #[trigger] other.counts_of(d)[t as int]
                == 0 ==> tops.contains((d, t))
    }

    pub proof fn lemma_grown_trans(a: Self, b: Self, c: Self)
        requires
            a.extends(&b),
            a.counts_grown(&b),
            b.counts_grown(&c),
        ensures
            a.counts_grown(&c),
    {
        assert forall|d: nat, t: usize| d <= a.num_dims() && t < a.slots(d) implies #[trigger] c.counts_of(d)[t as int]
            >= a.counts_of(d)[t as int] by {
            a.lemma_extends_slots(&b, d);
            assert(b.counts_of(d)[t as int] >= a.counts_of(d)[t as int]);
        }
    }

    /// Two changes in a row: the slots left unheld are among the tops of
    /// either, and a top of the first that the second took a reference to
    /// is held.
    pub proof fn lemma_held_compose(a: Self, b: Self, c: Self, ta: Set<(nat, usize)>, tb: Set<(nat, usize)>, tc: Set<(nat, usize)>)
        requires
            a.extends(&b),
            b.extends(&c),
            a.fresh_held(&b, ta),
            b.fresh_held(&c, tb),
            b.counts_grown(&c),
            forall|x: (nat, usize)| ta.contains(x) ==> x.0 <= a.num_dims() && (tc.contains(x) || c.counts_of(x.0)[x.1 as int] > 0),
            forall|x: (nat, usize)| tb.contains(x) ==> tc.contains(x),
        ensures
            a.fresh_held(&c, tc),
    {
        assert forall|d: nat, t: usize|
            d <= a.num_dims() && a.slots(d) <= t < c.slots(d) && #[trigger] c.counts_of(d)[t as int] == 0 implies tc.contains(
            (d, t),
        ) by {
            if t < b.slots(d) {
                assert(b.counts_of(d)[t as int] == 0);
                assert(ta.contains((d, t)));
            } else {
                assert(tb.contains((d, t)));
            }
        }
    }

    /// After appending `node` to arena `d`: counts grew by the node's
    /// pointers, every slot it points at is held, and the new slot is the
    /// only one added.
    pub proof fn lemma_attach_counts(s0: Self, s: Self, d: nat, node: NCDimNode, index: usize)
        requires
            d < s0.num_dims(),
            s0.same_frame(&s),
            index == s0.slots(d),
            s.nodes_of(d) == s0.nodes_of(d).push(node),
            forall|e: nat| e <= s0.num_dims() && e != d ==> #[trigger] s.slots(e) == s0.slots(e),
            s0.node_ptrs_ok(d, node),
            forall|e: nat, t: usize|
                e <= s0.num_dims() && t < s0.slots(e) ==> #[trigger] s.counts_of(e)[t as int] == s0.counts_of(e)[t as int]
                    + (if e == d { hits(PtrKind::Child, node, t) } else { 0 }) + (if e == d + 1 {
                    hits(PtrKind::Next, node, t)
                } else {
                    0
                }),
        ensures
            s0.counts_grown(&s),
            s0.fresh_held(&s, set![(d, index)]),
            node.left matches Some(l) ==> s.counts_of(d)[l as int] > 0,
            node.right matches Some(r) ==> s.counts_of(d)[r as int] > 0,
            node.next matches Some(k) ==> s.counts_of(d + 1)[k as int] > 0,
    {
        if let Some(l) = node.left {
            assert(s.counts_of(d)[l as int] == s0.counts_of(d)[l as int] + hits(PtrKind::Child, node, l));
        }
        if let Some(r) = node.right {
            assert(s.counts_of(d)[r as int] == s0.counts_of(d)[r as int] + hits(PtrKind::Child, node, r));
        }
        if let Some(k) = node.next {
            assert(s.counts_of(d + 1)[k as int] == s0.counts_of(d + 1)[k as int] + hits(PtrKind::Next, node, k));
        }
        assert forall|e: nat, t: usize|
            e <= s0.num_dims() && s0.slots(e) <= t < s.slots(e) && #[trigger] s.counts_of(e)[t as int] == 0 implies set![(
            d,
            index,
        )].contains((e, t)) by {
            if e != d {
                assert(s.slots(e) == s0.slots(e));
            }
        }
    }

    pub proof fn lemma_held_weaken(a: Self, b: Self, ta: Set<(nat, usize)>, tb: Set<(nat, usize)>)
        requires
            a.fresh_held(&b, ta),
            ta.subset_of(tb),
        ensures
            a.fresh_held(&b, tb),
    {
        assert forall|d: nat, t: usize|
            d <= a.num_dims() && a.slots(d) <= t < b.slots(d) && #[trigger] b.counts_of(d)[t as int] == 0 implies tb.contains(
            (d, t),
        ) by {
            assert(ta.contains((d, t)));
        }
    }

    pub proof fn lemma_held_refl(a: Self)
        ensures
            a.counts_grown(&a),
            a.fresh_held(&a, Set::empty()),
    {
    }

    /// The slots that `merge` appends are held, but for its result `i`: the
    /// merged children `x`, `y` and the merged `next` `k` are pointed at by
    /// the node appended last.
    pub proof fn lemma_merge_held(
        s0: Self,
        s1: Self,
        s2: Self,
        s3: Self,
        s4: Self,
        dn: nat,
        x: Option<usize>,
        y: Option<usize>,
        k: Option<usize>,
        i: usize,
    )
        requires
            dn < s0.num_dims(),
            s0.extends(&s1),
            s1.extends(&s2),
            s2.extends(&s3),
            s3.extends(&s4),
            s0.counts_grown(&s1),
            s1.counts_grown(&s2),
            s2.counts_grown(&s3) || s2 == s3,
            s3.counts_grown(&s4),
            s0.fresh_held(&s1, opt_top(dn, x)),
            s1.fresh_held(&s2, opt_top(dn, y)),
            s2.fresh_held(&s3, opt_top(dn + 1, k)) || s2 == s3,
            s3.fresh_held(&s4, set![(dn, i)]),
            x matches Some(t) ==> s4.counts_of(dn)[t as int] > 0,
            y matches Some(t) ==> s4.counts_of(dn)[t as int] > 0,
            k matches Some(t) ==> s4.counts_of(dn + 1)[t as int] > 0,
        ensures
            s0.counts_grown(&s4),
            s0.fresh_held(&s4, opt_top(dn, Some(i))),
    {
        if s2 == s3 {
            Self::lemma_held_refl(s2);
            Self::lemma_held_weaken(s2, s3, Set::empty(), opt_top(dn + 1, k));
        }
        Self::lemma_grown_trans(s0, s1, s2);
        s0.lemma_extends_trans(&s1, &s2);
        Self::lemma_grown_trans(s0, s2, s3);
        s0.lemma_extends_trans(&s2, &s3);
        Self::lemma_grown_trans(s0, s3, s4);
        let t1 = opt_top(dn, x);
        let t2 = opt_top(dn, x).union(opt_top(dn, y));
        let t3 = t2.union(opt_top(dn + 1, k));
        let tf = opt_top(dn, Some(i));
        assert forall|z: (nat, usize)| t1.contains(z) implies z.0 <= s0.num_dims() && (t2.contains(z) || s2.counts_of(z.0)[z.1 as int] > 0) by {
        }
        Self::lemma_held_compose(s0, s1, s2, t1, opt_top(dn, y), t2);
        Self::lemma_held_compose(s0, s2, s3, t2, opt_top(dn + 1, k), t3);
        assert forall|z: (nat, usize)| t3.contains(z) implies z.0 <= s0.num_dims() && (tf.contains(z) || s4.counts_of(z.0)[z.1 as int] > 0) by {
        }
        Self::lemma_held_compose(s0, s3, s4, t3, set![(dn, i)], tf);
    }

    /// The slots that `insert` appends are held, but for the two nodes it
    /// returns: the subtrees `r0`, `r1` of its recursive call and the merged
    /// `next` `m` are pointed at by the two nodes appended last, `n1` (slot
    /// `i1`) and `n2` (slot `i2`).
    pub proof fn lemma_insert_held(
        s0: Self,
        s1: Self,
        s2: Self,
        s3: Self,
        s4: Self,
        dn: nat,
        rd: nat,
        r0: usize,
        r1: usize,
        m: Option<usize>,
        n1: NCDimNode,
        n2: NCDimNode,
        i1: usize,
        i2: usize,
    )
        requires
            dn < s0.num_dims(),
            rd == dn || rd == dn + 1,
            s0.extends(&s1),
            s1.extends(&s2),
            s2.extends(&s3),
            s3.extends(&s4),
            s0.counts_grown(&s1),
            s1.counts_grown(&s2) || s1 == s2,
            s2.counts_grown(&s3),
            s3.counts_grown(&s4),
            s0.fresh_held(&s1, set![(rd, r0), (rd, r1)]),
            s1.fresh_held(&s2, opt_top(dn + 1, m)) || s1 == s2,
            s2.fresh_held(&s3, set![(dn, i1)]),
            s3.fresh_held(&s4, set![(dn, i2)]),
            (rd == dn && (n1.left == Some(r0) || n1.right == Some(r0))) || (rd == dn + 1 && n1.next == Some(r0)),
            m is Some ==> n1.next == m,
            (rd == dn && (n2.left == Some(r1) || n2.right == Some(r1))) || (rd == dn + 1 && n2.next == Some(r1)),
            n1.left matches Some(l) ==> s3.counts_of(dn)[l as int] > 0,
            n1.right matches Some(r) ==> s3.counts_of(dn)[r as int] > 0,
            n1.next matches Some(k) ==> s3.counts_of(dn + 1)[k as int] > 0,
            n2.left matches Some(l) ==> s4.counts_of(dn)[l as int] > 0,
            n2.right matches Some(r) ==> s4.counts_of(dn)[r as int] > 0,
            n2.next matches Some(k) ==> s4.counts_of(dn + 1)[k as int] > 0,
            r0 < s1.slots(rd),
            m matches Some(k) ==> k < s3.slots(dn + 1),
        ensures
            s0.counts_grown(&s4),
            s0.fresh_held(&s4, set![(dn, i1), (dn, i2)]),
    {
        if s1 == s2 {
            Self::lemma_held_refl(s1);
            Self::lemma_held_weaken(s1, s2, Set::empty(), opt_top(dn + 1, m));
        }
        Self::lemma_grown_trans(s0, s1, s2);
        s0.lemma_extends_trans(&s1, &s2);
        Self::lemma_grown_trans(s0, s2, s3);
        s0.lemma_extends_trans(&s2, &s3);
        Self::lemma_grown_trans(s0, s3, s4);
        let t1 = set![(rd, r0), (rd, r1)];
        let t2 = t1.union(opt_top(dn + 1, m));
        let t3 = t2.insert((dn, i1));
        let tf = set![(dn, i1), (dn, i2)];
        s1.lemma_extends_slots(&s2, rd);
        s2.lemma_extends_slots(&s3, rd);
        assert(s4.counts_of(rd)[r0 as int] > 0) by {
            assert(s3.counts_of(rd)[r0 as int] > 0);
        }
        if let Some(k) = m {
            assert(s3.counts_of(dn + 1)[k as int] > 0);
            assert(s4.counts_of(dn + 1)[k as int] > 0);
        }
        assert(s4.counts_of(rd)[r1 as int] > 0);
        Self::lemma_held_compose(s0, s1, s2, t1, opt_top(dn + 1, m), t2);
        assert forall|z: (nat, usize)| t2.contains(z) implies z.0 <= s0.num_dims() && (t3.contains(z)
            || s3.counts_of(z.0)[z.1 as int] > 0) by {
        }
        Self::lemma_held_compose(s0, s2, s3, t2, set![(dn, i1)], t3);
        assert forall|z: (nat, usize)| t3.contains(z) implies z.0 <= s0.num_dims() && (tf.contains(z)
            || s4.counts_of(z.0)[z.1 as int] > 0) by {
        }
        Self::lemma_held_compose(s0, s3, s4, t3, set![(dn, i2)], tf);
    }

    /// Every node whose count is zero holds no pointer.
    pub open spec fn dead_cleared(&self) -> bool {
        forall|d: nat, t: int|
            d < self.num_dims() && 0 <= t < self.slots(d) && #[trigger] self.counts_of(d)[t] == 0 ==> self.nodes_of(d)[t]
                == cleared()
    }

    /// `other` is `self` after a release: same arenas, counts no higher, and
    /// exactly the nodes whose count dropped to zero emptied.
    pub open spec fn released_to(&self, other: &Self) -> bool {
        &&& self.same_frame(other)
        &&& forall|d: nat| d <= self.num_dims() ==> #[trigger] other.slots(d) == self.slots(d)
        &&& forall|d: nat, t: usize|
            d <= self.num_dims() && t < self.slots(d) ==> #[trigger] other.counts_of(d)[t as int]
                <= self.counts_of(d)[t as int]
        &&& forall|d: nat, t: int|
            d < self.num_dims() && 0 <= t < self.slots(d) ==> #[trigger] other.nodes_of(d)[t] == if self.counts_of(
                d,
            )[t] > 0 && other.counts_of(d)[t] == 0 {
                cleared()
            } else {
                self.nodes_of(d)[t]
            }
    }

    /// The steps of `add` keep every unreferenced node empty: `insert` (to
    /// `s1`, returning `r0` and `r1`), a reference to `r0` (to `s2`), the
    /// release of the old root (to `s3`), the new root (to `s4`), a
    /// reference to `r1` (to `s5`) and its release (to `s6`).
    pub proof fn lemma_add_dead_cleared(s0: Self, s1: Self, s2: Self, s3: Self, s4: Self, s5: Self, s6: Self, r0: usize, r1: usize)
        requires
            0 < s0.num_dims(),
            s0.dead_cleared(),
            s1.arenas_ok(),
            s4.arenas_ok(),
            s1.counts_of(0)[r0 as int] < u128::MAX,
            s4.counts_of(0)[r1 as int] < u128::MAX,
            s0.extends(&s1),
            s0.counts_grown(&s1),
            s0.fresh_held(&s1, set![(0nat, r0), (0nat, r1)]),
            r0 < s1.slots(0),
            r1 < s1.slots(0),
            s1.same_but_counts(&s2),
            s1.counts_but(&s2, 0, s1.counts_of(0).update(r0 as int, (s1.counts_of(0)[r0 as int] + 1) as u128)),
            s2.released_to(&s3),
            s3.same_frame(&s4),
            forall|d: nat| #[trigger] s4.counts_of(d) == s3.counts_of(d),
            forall|d: nat| #[trigger] s4.nodes_of(d) == s3.nodes_of(d),
            forall|d: nat| #[trigger] s4.slots(d) == s3.slots(d),
            s4.same_but_counts(&s5),
            s4.counts_but(&s5, 0, s4.counts_of(0).update(r1 as int, (s4.counts_of(0)[r1 as int] + 1) as u128)),
            s5.released_to(&s6),
        ensures
            s6.dead_cleared(),
    {
        let nd = s0.num_dims();
        assert(s1.dims@[0].nodes.wf());
        assert(s4.dims@[0].nodes.wf());
        assert forall|d: nat, t: int| d < s6.num_dims() && 0 <= t < s6.slots(d) && #[trigger] s6.counts_of(d)[t] == 0 implies s6.nodes_of(
            d,
        )[t] == cleared() by {
            assert(s6.slots(d) == s5.slots(d));
            assert(s5.slots(d) == s4.slots(d));
            assert(s3.slots(d) == s2.slots(d));
            assert(s2.slots(d) == s1.slots(d));
            if s5.counts_of(d)[t] > 0 {
            } else {
                assert(s6.nodes_of(d)[t] == s5.nodes_of(d)[t]);
                assert(s5.nodes_of(d)[t] == s4.nodes_of(d)[t]);
                if d == 0 && t == r1 {
                    assert(s5.counts_of(0)[t] == s4.counts_of(0)[t] + 1);
                }
                assert(s5.counts_of(d)[t] == s3.counts_of(d)[t]);
                if s2.counts_of(d)[t] > 0 {
                } else {
                    assert(s3.nodes_of(d)[t] == s2.nodes_of(d)[t]);
                    assert(s2.nodes_of(d)[t] == s1.nodes_of(d)[t]);
                    if d == 0 && t == r0 {
                        assert(s2.counts_of(0)[t] == s1.counts_of(0)[t] + 1);
                    }
                    assert(s2.counts_of(d)[t] == s1.counts_of(d)[t]);
                    s1.lemma_slots_bounded(d);
                    let tu = t as usize;
                    assert(tu as int == t);
                    if t < s0.slots(d) {
                        assert(s1.counts_of(d)[tu as int] >= s0.counts_of(d)[tu as int]);
                        assert(s1.nodes_of(d)[t] == s0.nodes_of(d)[t]);
                    } else {
                        assert(s0.slots(d) <= tu < s1.slots(d));
                        assert(s1.counts_of(d)[tu as int] == 0);
                        assert(set![(0nat, r0), (0nat, r1)].contains((d, tu)));
                    }
                }
            }
        }
    }
}

} // verus!
