//! Laws of the library that span several calls.

use vstd::prelude::*;
use crate::cube::Monoid;
use crate::model::{lemma_ocombine_assoc, lemma_ocombine_comm, ocombine};
use crate::nanocube::Nanocube;
use crate::counting::cleared;

verus! {

/// The query that selects everything from `n` dimensions: no prefix in any.
pub open spec fn whole_query(n: nat) -> Seq<Seq<bool>> {
    Seq::new(n, |k: int| Seq::<bool>::empty())
}

impl<S: Monoid> Nanocube<S> {
    /// The answer to query `q` over the points of `pairs`, each a summary and
    /// its addresses, combined in the order given.
    pub open spec fn pairs_eval(&self, pairs: Seq<(S, Seq<usize>)>, q: Seq<Seq<bool>>) -> Option<S>
        decreases pairs.len(),
    {
        if pairs.len() == 0 {
            None
        } else {
            ocombine(self.pairs_eval(pairs.drop_last(), q), self.single(pairs.last().1, pairs.last().0, 0, 0, q))
        }
    }

    /// `b` is `a` after adding the point `p` (its summary, then its
    /// addresses), as `add` states it.
    pub open spec fn add_step(a: Self, b: Self, p: (S, Seq<usize>)) -> bool {
        &&& a.same_frame(&b)
        &&& forall|q: Seq<Seq<bool>>| #[trigger] b.eval(0, b.base_root, 0, q) == ocombine(
            a.eval(0, a.base_root, 0, q),
            a.single(p.1, p.0, 0, 0, q),
        )
    }
}

impl<S: Monoid> Nanocube<S> {
    /// The summary that `get_summary_index` reaches from a well-formed node
    /// aggregates every point under the node: it is the answer to the query
    /// that selects everything.
    pub proof fn lemma_summary_is_total(&self, d: nat, i: usize, bit: nat)
        requires
            d <= self.num_dims(),
            self.good(d, i, bit),
        ensures
            self.summary_of(d, Some(i)) matches Some(k) && k < self.summaries.values@.len()
                && self.eval(d, Some(i), bit, whole_query((self.num_dims() - d) as nat)) == Some(
                self.summaries.values@[k as int],
            ),
        decreases self.num_dims() - d,
    {
        if d < self.num_dims() {
            let q = whole_query((self.num_dims() - d) as nat);
            let k = self.nodes_of(d)[i as int].next.unwrap();
            assert(q.drop_first() =~= whole_query((self.num_dims() - (d + 1)) as nat));
            assert(q[0].len() == 0);
            self.lemma_summary_is_total(d + 1, k, 0);
        }
    }

    /// Adding two points in either order answers every query alike: `a1`,
    /// `a2` are the cube `a0` after adding `p` then `r`, `b1`, `b2` after
    /// adding `r` then `p`, as `add` states them.
    pub proof fn lemma_add_order_irrelevant(
        a0: Self,
        a1: Self,
        a2: Self,
        b1: Self,
        b2: Self,
        p: Seq<usize>,
        vp: S,
        r: Seq<usize>,
        vr: S,
    )
        requires
            a0.same_frame(&a1),
            a0.same_frame(&b1),
            forall|q: Seq<Seq<bool>>| #[trigger] a1.eval(0, a1.base_root, 0, q) == ocombine(
                a0.eval(0, a0.base_root, 0, q),
                a0.single(p, vp, 0, 0, q),
            ),
            forall|q: Seq<Seq<bool>>| #[trigger] a2.eval(0, a2.base_root, 0, q) == ocombine(
                a1.eval(0, a1.base_root, 0, q),
                a1.single(r, vr, 0, 0, q),
            ),
            forall|q: Seq<Seq<bool>>| #[trigger] b1.eval(0, b1.base_root, 0, q) == ocombine(
                a0.eval(0, a0.base_root, 0, q),
                a0.single(r, vr, 0, 0, q),
            ),
            forall|q: Seq<Seq<bool>>| #[trigger] b2.eval(0, b2.base_root, 0, q) == ocombine(
                b1.eval(0, b1.base_root, 0, q),
                b1.single(p, vp, 0, 0, q),
            ),
        ensures
            forall|q: Seq<Seq<bool>>| #[trigger] a2.eval(0, a2.base_root, 0, q) == b2.eval(0, b2.base_root, 0, q),
    {
        assert forall|q: Seq<Seq<bool>>| #[trigger] a2.eval(0, a2.base_root, 0, q) == b2.eval(0, b2.base_root, 0, q) by {
            let x = a0.eval(0, a0.base_root, 0, q);
            let sp = a0.single(p, vp, 0, 0, q);
            let sr = a0.single(r, vr, 0, 0, q);
            a0.lemma_matches_frame(&a1, r, 0, 0, q);
            a0.lemma_matches_frame(&b1, p, 0, 0, q);
            assert(a1.eval(0, a1.base_root, 0, q) == ocombine(x, sp));
            assert(b1.eval(0, b1.base_root, 0, q) == ocombine(x, sr));
            lemma_ocombine_assoc(x, sp, sr);
            lemma_ocombine_assoc(x, sr, sp);
            lemma_ocombine_comm(sp, sr);
        }
    }

    /// Merging is symmetric: whatever the order of the two nodes, the merged
    /// node answers every query alike.
    pub proof fn lemma_merge_symmetric(
        s0: Self,
        m1: Self,
        m2: Self,
        d: nat,
        n1: Option<usize>,
        n2: Option<usize>,
        r1: Option<usize>,
        r2: Option<usize>,
        b: nat,
    )
        requires
            forall|q: Seq<Seq<bool>>| #[trigger] m1.eval(d, r1, b, q) == ocombine(s0.eval(d, n1, b, q), s0.eval(d, n2, b, q)),
            forall|q: Seq<Seq<bool>>| #[trigger] m2.eval(d, r2, b, q) == ocombine(s0.eval(d, n2, b, q), s0.eval(d, n1, b, q)),
        ensures
            forall|q: Seq<Seq<bool>>| #[trigger] m1.eval(d, r1, b, q) == m2.eval(d, r2, b, q),
    {
        assert forall|q: Seq<Seq<bool>>| #[trigger] m1.eval(d, r1, b, q) == m2.eval(d, r2, b, q) by {
            lemma_ocombine_comm(s0.eval(d, n1, b, q), s0.eval(d, n2, b, q));
        }
    }

    /// The point at position `j` can be taken out and combined last.
    pub proof fn lemma_points_eval_remove(&self, pts: Seq<Seq<usize>>, v: S, q: Seq<Seq<bool>>, j: int)
        requires
            0 <= j < pts.len(),
        ensures
            self.points_eval(pts, v, q) == ocombine(self.points_eval(pts.remove(j), v, q), self.single(pts[j], v, 0, 0, q)),
        decreases pts.len(),
    {
        if j == pts.len() - 1 {
            assert(pts.remove(j) =~= pts.drop_last());
        } else {
            let dl = pts.drop_last();
            self.lemma_points_eval_remove(dl, v, q, j);
            assert(pts.remove(j).drop_last() =~= dl.remove(j));
            assert(pts.remove(j).last() == pts.last());
            let a = self.points_eval(dl.remove(j), v, q);
            let sj = self.single(pts[j], v, 0, 0, q);
            let sl = self.single(pts.last(), v, 0, 0, q);
            lemma_ocombine_assoc(a, sj, sl);
            lemma_ocombine_assoc(a, sl, sj);
            lemma_ocombine_comm(sj, sl);
        }
    }

    /// The answer over a sequence of points does not depend on their order:
    /// two sequences holding the same points (with multiplicity) give every
    /// query the same answer.
    pub proof fn lemma_points_order_irrelevant(&self, p1: Seq<Seq<usize>>, p2: Seq<Seq<usize>>, v: S, q: Seq<Seq<bool>>)
        requires
            p1.to_multiset() == p2.to_multiset(),
        ensures
            self.points_eval(p1, v, q) == self.points_eval(p2, v, q),
        decreases p1.len(),
    {
        broadcast use vstd::seq_lib::group_to_multiset_ensures;
        if p1.len() == 0 {
            assert(p1.to_multiset().len() == 0);
            assert(p2.len() == p2.to_multiset().len());
            assert(p2.len() == 0);
        } else {
            let x = p1.last();
            assert(p1.to_multiset().count(x) > 0) by {
                assert(p1.contains(x)) by {
                    assert(p1[p1.len() - 1] == x);
                }
            }
            assert(p2.contains(x));
            let j = choose|j: int| 0 <= j < p2.len() && p2[j] == x;
            assert(p1.remove(p1.len() - 1) =~= p1.drop_last());
            assert(p1.drop_last().to_multiset() == p2.remove(j).to_multiset());
            self.lemma_points_order_irrelevant(p1.drop_last(), p2.remove(j), v, q);
            self.lemma_points_eval_remove(p2, v, q, j);
        }
    }

    /// Building a cube from the same points in another order answers every
    /// query alike: `c1` and `c2` hold, as `test_nanocube` states them, the
    /// points of `d1` and `d2`, which are the same with multiplicity.
    pub proof fn lemma_build_order_irrelevant(c1: Self, c2: Self, d1: Seq<Seq<usize>>, d2: Seq<Seq<usize>>, v: S)
        requires
            c1.same_frame(&c2),
            d1.to_multiset() == d2.to_multiset(),
            forall|q: Seq<Seq<bool>>| #[trigger] c1.eval(0, c1.base_root, 0, q) == c1.points_eval(d1, v, q),
            forall|q: Seq<Seq<bool>>| #[trigger] c2.eval(0, c2.base_root, 0, q) == c2.points_eval(d2, v, q),
        ensures
            forall|q: Seq<Seq<bool>>| #[trigger] c1.eval(0, c1.base_root, 0, q) == c2.eval(0, c2.base_root, 0, q),
    {
        assert forall|q: Seq<Seq<bool>>| #[trigger] c1.eval(0, c1.base_root, 0, q) == c2.eval(0, c2.base_root, 0, q) by {
            c1.lemma_points_order_irrelevant(d1, d2, v, q);
            c1.lemma_points_eval_frame(&c2, d2, v, q);
        }
    }

    /// Taking one more reference to a slot that is referenced already, then
    /// releasing it, restores the cube: same nodes, summaries and root, and
    /// every count as it was. `s1` is `s0` after `make_node_ref(Some(v), dim)`
    /// and `s2` is `s1` after `release_node_ref(Some(v), dim)`, as their
    /// contracts state them.
    pub proof fn lemma_ref_release_restores(s0: Self, s1: Self, s2: Self, dim: nat, v: usize)
        requires
            s0.arenas_ok(),
            s1.arenas_ok(),
            s2.arenas_ok(),
            dim <= s0.num_dims(),
            v < s0.slots(dim),
            0 < s0.counts_of(dim)[v as int] < u128::MAX,
            s0.same_but_counts(&s1),
            s0.counts_but(&s1, dim, s0.counts_of(dim).update(v as int, (s0.counts_of(dim)[v as int] + 1) as u128)),
            s1.same_frame(&s2),
            s2.base_root == s1.base_root,
            s2.summaries.values@ == s1.summaries.values@,
            forall|d: nat| d <= s1.num_dims() ==> #[trigger] s2.slots(d) == s1.slots(d),
            forall|d: nat, t: int|
                d < s1.num_dims() && 0 <= t < s1.slots(d) ==> #[trigger] s2.nodes_of(d)[t] == if s1.counts_of(d)[t]
                    > 0 && s2.counts_of(d)[t] == 0 {
                    cleared()
                } else {
                    s1.nodes_of(d)[t]
                },
            s1.counts_of(dim)[v as int] > 1 ==> s1.counts_but(
                &s2,
                dim,
                s1.counts_of(dim).update(v as int, (s1.counts_of(dim)[v as int] - 1) as u128),
            ),
        ensures
            s0.same_but_counts(&s2),
            forall|d: nat| d <= s0.num_dims() ==> #[trigger] s2.counts_of(d) == s0.counts_of(d),
    {
        let nd = s0.num_dims();
        assert forall|d: nat| d <= nd implies #[trigger] s0.counts_of(d).len() == s0.slots(d) && s2.counts_of(d).len()
            == s2.slots(d) by {
            if d < nd {
                assert(s0.dims@[d as int].nodes.wf());
                assert(s2.dims@[d as int].nodes.wf());
            }
        }
        assert(s1.counts_of(dim)[v as int] > 1);
        assert forall|d: nat| d <= nd implies #[trigger] s2.counts_of(d) == s0.counts_of(d) by {
            if d == dim {
                assert(s2.counts_of(d) =~= s0.counts_of(d));
            } else {
                assert(s1.counts_of(d) == s0.counts_of(d));
            }
        }
        assert forall|d: nat| d < nd implies #[trigger] s2.nodes_of(d) == s0.nodes_of(d) by {
            assert(s1.nodes_of(d) == s0.nodes_of(d));
            assert forall|t: int| 0 <= t < s0.slots(d) implies s2.nodes_of(d)[t] == s0.nodes_of(d)[t] by {
                assert(s2.counts_of(d)[t] == s0.counts_of(d)[t]);
                if d == dim && t == v {
                } else {
                    assert(s1.counts_of(d)[t] == s0.counts_of(d)[t]);
                }
                assert(s2.nodes_of(d)[t] == s1.nodes_of(d)[t]);
            }
            assert(s2.slots(d) == s0.slots(d));
            assert(s2.nodes_of(d) =~= s0.nodes_of(d));
        }
        assert forall|d: nat| d < nd implies #[trigger] s0.width_of(d) == s2.width_of(d) by {
            assert(s0.width_of(d) == s1.width_of(d));
        }
    }

    /// The point at position `j` can be taken out and combined last.
    pub proof fn lemma_pairs_eval_remove(&self, pairs: Seq<(S, Seq<usize>)>, q: Seq<Seq<bool>>, j: int)
        requires
            0 <= j < pairs.len(),
        ensures
            self.pairs_eval(pairs, q) == ocombine(self.pairs_eval(pairs.remove(j), q), self.single(pairs[j].1, pairs[j].0, 0, 0, q)),
        decreases pairs.len(),
    {
        if j == pairs.len() - 1 {
            assert(pairs.remove(j) =~= pairs.drop_last());
        } else {
            let dl = pairs.drop_last();
            self.lemma_pairs_eval_remove(dl, q, j);
            assert(pairs.remove(j).drop_last() =~= dl.remove(j));
            assert(pairs.remove(j).last() == pairs.last());
            let a = self.pairs_eval(dl.remove(j), q);
            let sj = self.single(pairs[j].1, pairs[j].0, 0, 0, q);
            let sl = self.single(pairs.last().1, pairs.last().0, 0, 0, q);
            lemma_ocombine_assoc(a, sj, sl);
            lemma_ocombine_assoc(a, sl, sj);
            lemma_ocombine_comm(sj, sl);
        }
    }

    /// The answer over points of any summaries does not depend on their
    /// order: two sequences holding the same (summary, addresses) pairs with
    /// multiplicity give every query the same answer.
    pub proof fn lemma_pairs_order_irrelevant(&self, p1: Seq<(S, Seq<usize>)>, p2: Seq<(S, Seq<usize>)>, q: Seq<Seq<bool>>)
        requires
            p1.to_multiset() == p2.to_multiset(),
        ensures
            self.pairs_eval(p1, q) == self.pairs_eval(p2, q),
        decreases p1.len(),
    {
        broadcast use vstd::seq_lib::group_to_multiset_ensures;
        if p1.len() == 0 {
            assert(p1.to_multiset().len() == 0);
            assert(p2.len() == p2.to_multiset().len());
            assert(p2.len() == 0);
        } else {
            let x = p1.last();
            assert(p1.to_multiset().count(x) > 0) by {
                assert(p1.contains(x)) by {
                    assert(p1[p1.len() - 1] == x);
                }
            }
            assert(p2.contains(x));
            let j = choose|j: int| 0 <= j < p2.len() && p2[j] == x;
            assert(p1.remove(p1.len() - 1) =~= p1.drop_last());
            assert(p1.drop_last().to_multiset() == p2.remove(j).to_multiset());
            self.lemma_pairs_order_irrelevant(p1.drop_last(), p2.remove(j), q);
            self.lemma_pairs_eval_remove(p2, q, j);
        }
    }

    pub proof fn lemma_pairs_frame(&self, other: &Self, pairs: Seq<(S, Seq<usize>)>, q: Seq<Seq<bool>>)
        requires
            self.same_frame(other),
        ensures
            self.pairs_eval(pairs, q) == other.pairs_eval(pairs, q),
        decreases pairs.len(),
    {
        if pairs.len() > 0 {
            self.lemma_pairs_frame(other, pairs.drop_last(), q);
            self.lemma_matches_frame(other, pairs.last().1, 0, 0, q);
        }
    }

    /// Adding the points of `pairs` one after the other to a cube that holds
    /// none answers every query with the combination of the summaries of the
    /// added points that lie in the queried region. `cubes[k + 1]` is
    /// `cubes[k]` after adding `pairs[k]`, as `add` states it.
    pub proof fn lemma_adds_eval(cubes: Seq<Self>, pairs: Seq<(S, Seq<usize>)>)
        requires
            cubes.len() == pairs.len() + 1,
            forall|q: Seq<Seq<bool>>| #[trigger] cubes[0].eval(0, cubes[0].base_root, 0, q) == None::<S>,
            forall|k: int| #![trigger pairs[k]] 0 <= k < pairs.len() ==> Self::add_step(cubes[k], cubes[k + 1], pairs[k]),
        ensures
            cubes[0].same_frame(&cubes.last()),
            forall|q: Seq<Seq<bool>>| #[trigger] cubes.last().eval(0, cubes.last().base_root, 0, q) == cubes[0].pairs_eval(pairs, q),
        decreases pairs.len(),
    {
        if pairs.len() == 0 {
            cubes[0].lemma_refl();
        } else {
            let n = pairs.len() - 1;
            let cd = cubes.drop_last();
            let pd = pairs.drop_last();
            assert forall|k: int| #![trigger pd[k]] 0 <= k < pd.len() implies Self::add_step(cd[k], cd[k + 1], pd[k]) by {
                assert(pairs[k] == pd[k]);
            }
            Self::lemma_adds_eval(cd, pd);
            let prev = cubes[n];
            assert(cd.last() == prev);
            assert(pairs[n] == pairs.last());
            assert(Self::add_step(prev, cubes.last(), pairs.last()));
            Self::lemma_same_frame_trans(cubes[0], prev, cubes.last());
            assert forall|q: Seq<Seq<bool>>| #[trigger] cubes.last().eval(0, cubes.last().base_root, 0, q) == cubes[0].pairs_eval(pairs, q) by {
                assert(prev.eval(0, prev.base_root, 0, q) == cubes[0].pairs_eval(pd, q));
                cubes[0].lemma_matches_frame(&prev, pairs.last().1, 0, 0, q);
            }
        }
    }

    /// Adding the same (summary, addresses) pairs, with multiplicity, in two
    /// orders to two cubes that hold nothing and have the same dimensions
    /// answers every query alike.
    pub proof fn lemma_adds_order_irrelevant(
        c1: Seq<Self>,
        p1: Seq<(S, Seq<usize>)>,
        c2: Seq<Self>,
        p2: Seq<(S, Seq<usize>)>,
    )
        requires
            c1.len() == p1.len() + 1,
            c2.len() == p2.len() + 1,
            c1[0].same_frame(&c2[0]),
            p1.to_multiset() == p2.to_multiset(),
            forall|q: Seq<Seq<bool>>| #[trigger] c1[0].eval(0, c1[0].base_root, 0, q) == None::<S>,
            forall|q: Seq<Seq<bool>>| #[trigger] c2[0].eval(0, c2[0].base_root, 0, q) == None::<S>,
            forall|k: int| #![trigger p1[k]] 0 <= k < p1.len() ==> Self::add_step(c1[k], c1[k + 1], p1[k]),
            forall|k: int| #![trigger p2[k]] 0 <= k < p2.len() ==> Self::add_step(c2[k], c2[k + 1], p2[k]),
        ensures
            forall|q: Seq<Seq<bool>>| #[trigger] c1.last().eval(0, c1.last().base_root, 0, q) == c2.last().eval(
                0,
                c2.last().base_root,
                0,
                q,
            ),
    {
        Self::lemma_adds_eval(c1, p1);
        Self::lemma_adds_eval(c2, p2);
        assert forall|q: Seq<Seq<bool>>| #[trigger] c1.last().eval(0, c1.last().base_root, 0, q) == c2.last().eval(
            0,
            c2.last().base_root,
            0,
            q,
        ) by {
            c1[0].lemma_pairs_order_irrelevant(p1, p2, q);
            c1[0].lemma_pairs_frame(&c2[0], p2, q);
        }
    }
}

} // verus!
