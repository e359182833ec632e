//! What survives a change of the arenas: a subtree whose slots are left as
//! they were keeps its shape, its well-formedness and the value of every
//! query.

use vstd::prelude::*;
use crate::cube::Monoid;
use crate::nanocube::Nanocube;
use crate::model::ocombine;
use crate::counting::{hits, lemma_sum_update, lemma_sum_zero, PtrKind};
use crate::nanocube::NCDimNode;

verus! {

impl<S> Nanocube<S> {
    /// Same number of dimensions, same widths.
    pub open spec fn same_frame(&self, other: &Self) -> bool {
        &&& self.num_dims() == other.num_dims()
        &&& forall|d: nat| d < self.num_dims() ==> #[trigger] self.width_of(d) == other.width_of(d)
    }

    /// `other` holds every slot of `self` unchanged, possibly with more after.
    pub open spec fn extends(&self, other: &Self) -> bool {
        &&& self.same_frame(other)
        &&& forall|d: nat|
            d < self.num_dims() ==> #[trigger] self.nodes_of(d).len() <= other.nodes_of(d).len()
        &&& forall|d: nat, j: int|
            d < self.num_dims() && 0 <= j < self.nodes_of(d).len() ==> #[trigger] other.nodes_of(
                d,
            )[j] == self.nodes_of(d)[j]
        &&& self.summaries.values@.len() <= other.summaries.values@.len()
        &&& forall|j: int|
            0 <= j < self.summaries.values@.len() ==> #[trigger] other.summaries.values@[j]
                == self.summaries.values@[j]
    }

    /// Every slot of the subtree at node `i` of dimension `d`, depth `bit`,
    /// is the same in `self` and `other`.
    pub open spec fn agree(&self, other: &Self, d: nat, i: usize, bit: nat) -> bool
        decreases self.num_dims() - d, self.width_of(d) - bit,
    {
        if d >= self.num_dims() {
            &&& i < self.slots(d)
            &&& i < other.slots(d)
            &&& other.summaries.values@[i as int] == self.summaries.values@[i as int]
        } else if bit > self.width_of(d) || i >= self.slots(d) {
            false
        } else {
            let n = self.nodes_of(d)[i as int];
            &&& i < other.slots(d)
            &&& other.nodes_of(d)[i as int] == n
            &&& (n.next matches Some(k) ==> self.agree(other, d + 1, k, 0))
            &&& (bit < self.width_of(d) ==> (n.left matches Some(l) ==> self.agree(
                other,
                d,
                l,
                bit + 1,
            )) && (n.right matches Some(r) ==> self.agree(other, d, r, bit + 1)))
        }
    }

    pub proof fn lemma_eval_agree(&self, other: &Self, d: nat, i: usize, bit: nat, q: Seq<Seq<bool>>)
        requires
            self.same_frame(other),
            self.agree(other, d, i, bit),
        ensures
            self.eval(d, Some(i), bit, q) == other.eval(d, Some(i), bit, q),
        decreases self.num_dims() - d, self.width_of(d) - bit,
    {
        if d < self.num_dims() {
            assert(self.width_of(d) == other.width_of(d));
            let n = self.nodes_of(d)[i as int];
            if bit >= self.width_of(d) || q.len() == 0 || q[0].len() == 0 {
                if let Some(k) = n.next {
                    self.lemma_eval_agree(other, d + 1, k, 0, q.drop_first());
                }
                assert(other.nodes_of(d)[i as int] == n);
                assert(other.eval(d, Some(i), bit, q) == other.eval(d + 1, n.next, 0, q.drop_first()));
                assert(self.eval(d, Some(i), bit, q) == self.eval(d + 1, n.next, 0, q.drop_first()));
                assert(self.eval(d + 1, n.next, 0, q.drop_first()) == other.eval(d + 1, n.next, 0, q.drop_first()));
            } else {
                let c = if q[0][0] {
                    n.right
                } else {
                    n.left
                };
                if let Some(c) = c {
                    self.lemma_eval_agree(other, d, c, bit + 1, q.update(0, q[0].drop_first()));
                }
                assert(other.nodes_of(d)[i as int] == n);
                assert(other.eval(d, Some(i), bit, q) == other.eval(d, c, bit + 1, q.update(0, q[0].drop_first())));
                assert(self.eval(d, c, bit + 1, q.update(0, q[0].drop_first())) == other.eval(d, c, bit + 1, q.update(0, q[0].drop_first())));
            }
        } else {
            assert(other.summaries.values@[i as int] == self.summaries.values@[i as int]);
        }
    }

    pub proof fn lemma_summary_of_agree(&self, other: &Self, d: nat, i: usize, bit: nat)
        requires
            self.same_frame(other),
            self.agree(other, d, i, bit),
        ensures
            self.summary_of(d, Some(i)) == other.summary_of(d, Some(i)),
        decreases self.num_dims() - d,
    {
        if d < self.num_dims() {
            let n = self.nodes_of(d)[i as int];
            assert(other.nodes_of(d)[i as int] == n);
            assert(self.num_dims() == other.num_dims());
            assert(self.summary_of(d, Some(i)) == self.summary_of(d + 1, n.next));
            assert(other.summary_of(d, Some(i)) == other.summary_of(d + 1, n.next));
            if let Some(k) = n.next {
                self.lemma_summary_of_agree(other, d + 1, k, 0);
            }
        }
    }

    pub proof fn lemma_matches_frame(&self, other: &Self, addr: Seq<usize>, d: nat, bit: nat, q: Seq<Seq<bool>>)
        requires
            self.same_frame(other),
        ensures
            self.matches(addr, d, bit, q) == other.matches(addr, d, bit, q),
        decreases self.num_dims() - d, self.width_of(d) - bit,
    {
        if d < self.num_dims() {
            assert(self.width_of(d) == other.width_of(d));
            if bit >= self.width_of(d) || q.len() == 0 || q[0].len() == 0 {
                self.lemma_matches_frame(other, addr, d + 1, 0, q.drop_first());
            } else {
                self.lemma_matches_frame(other, addr, d, bit + 1, q.update(0, q[0].drop_first()));
            }
        }
    }
}

impl<S> Nanocube<S> {
    /// Every address bit that a refinement from dimension `d`, depth `bit`,
    /// on reads is a valid shift of `usize`.
    pub open spec fn widths_fit(&self, d: nat, bit: nat) -> bool {
        &&& (d < self.num_dims() && bit < self.width_of(d) ==> self.width_of(d) <= usize::BITS)
        &&& forall|e: nat| d < e < self.num_dims() ==> #[trigger] self.width_of(e) <= usize::BITS
    }

    /// Old slots keep their surplus of references, new slots have none.
    pub open spec fn counts_kept(&self, other: &Self) -> bool {
        forall|d: nat, t: usize|
            d <= self.num_dims() && t < other.slots(d) ==> #[trigger] other.excess(d, t) == if t
                < self.slots(d) {
                self.excess(d, t)
            } else {
                0
            }
    }

    /// No node points at slot `t` of arena `d` when every pointer into that
    /// arena stays below `bound <= t`.
    pub proof fn lemma_unreferenced(&self, d: nat, t: usize, bound: nat)
        requires
            d <= self.num_dims(),
            bound <= t,
            d < self.num_dims() ==> forall|j: int|
                0 <= j < self.slots(d) ==> {
                    let n = #[trigger] self.nodes_of(d)[j];
                    &&& (n.left matches Some(l) ==> l < bound)
                    &&& (n.right matches Some(r) ==> r < bound)
                },
            d > 0 ==> forall|j: int|
                0 <= j < self.slots((d - 1) as nat) ==> ((#[trigger] self.nodes_of((d - 1) as nat)[j]).next matches Some(k)
                    ==> k < bound),
        ensures
            self.refs(d, t) == 0,
    {
        if d < self.num_dims() {
            lemma_sum_zero(self.nodes_of(d), PtrKind::Child, t, bound);
        }
        if d > 0 {
            lemma_sum_zero(self.nodes_of((d - 1) as nat), PtrKind::Next, t, bound);
        }
    }

    /// A node just appended on top of arena `d` of `mid` is pointed at by
    /// nobody, when the arena before `d` is still that of `s0`.
    pub proof fn lemma_top_unreferenced(s0: Self, mid: Self, fin: Self, d: nat, n: NCDimNode, t: usize)
        requires
            t == mid.slots(d),
            d < s0.num_dims(),
            s0.arenas_ok(),
            mid.arenas_ok(),
            s0.same_frame(&mid),
            mid.same_frame(&fin),
            s0.slots(d) <= mid.slots(d),
            fin.nodes_of(d) == mid.nodes_of(d).push(n),
            mid.node_ptrs_ok(d, n),
            d > 0 ==> fin.nodes_of((d - 1) as nat) == s0.nodes_of((d - 1) as nat),
        ensures
            fin.refs(d, t) == 0,
    {
        assert forall|j: int| 0 <= j < fin.slots(d) implies {
            let n = #[trigger] fin.nodes_of(d)[j];
            &&& (n.left matches Some(l) ==> l < t)
            &&& (n.right matches Some(r) ==> r < t)
        } by {
            if j < t {
                assert(fin.nodes_of(d)[j] == mid.nodes_of(d)[j]);
                assert(mid.node_ptrs_ok(d, mid.nodes_of(d)[j]));
            }
        }
        if d > 0 {
            assert forall|j: int| 0 <= j < fin.slots((d - 1) as nat) implies ((#[trigger] fin.nodes_of((d - 1) as nat)[j]).next matches Some(k)
                ==> k < t) by {
                assert(s0.node_ptrs_ok((d - 1) as nat, s0.nodes_of((d - 1) as nat)[j]));
            }
        }
        fin.lemma_unreferenced(d, t, t as nat);
    }

    /// Every slot of arena `d` appended to `base` is pointed at by nobody
    /// when the appended nodes only point into `base` and the arena before
    /// `d` is still that of `s0`.
    pub proof fn lemma_fresh_unreferenced(s0: Self, base: Self, fin: Self, d: nat, t: usize)
        requires
            d < s0.num_dims(),
            s0.arenas_ok(),
            base.arenas_ok(),
            s0.same_frame(&base),
            base.extends(&fin),
            s0.slots(d) <= base.slots(d),
            base.slots(d) <= t,
            forall|j: int| base.slots(d) <= j < fin.slots(d) ==> {
                let n = #[trigger] fin.nodes_of(d)[j];
                &&& (n.left matches Some(l) ==> l < base.slots(d))
                &&& (n.right matches Some(r) ==> r < base.slots(d))
            },
            d > 0 ==> fin.nodes_of((d - 1) as nat) == s0.nodes_of((d - 1) as nat),
        ensures
            fin.refs(d, t) == 0,
    {
        let b = base.slots(d);
        assert forall|j: int| 0 <= j < fin.slots(d) implies {
            let n = #[trigger] fin.nodes_of(d)[j];
            &&& (n.left matches Some(l) ==> l < b)
            &&& (n.right matches Some(r) ==> r < b)
        } by {
            if j < b {
                assert(fin.nodes_of(d)[j] == base.nodes_of(d)[j]);
                assert(base.node_ptrs_ok(d, base.nodes_of(d)[j]));
            }
        }
        if d > 0 {
            assert forall|j: int| 0 <= j < fin.slots((d - 1) as nat) implies ((#[trigger] fin.nodes_of((d - 1) as nat)[j]).next matches Some(k)
                ==> k < b) by {
                assert(s0.node_ptrs_ok((d - 1) as nat, s0.nodes_of((d - 1) as nat)[j]));
            }
        }
        fin.lemma_unreferenced(d, t, b);
    }

    pub proof fn lemma_same_frame_trans(a: Self, b: Self, c: Self)
        requires
            a.same_frame(&b),
            b.same_frame(&c),
        ensures
            a.same_frame(&c),
    {
        assert forall|d: nat| d < a.num_dims() implies #[trigger] a.width_of(d) == c.width_of(d) by {
            assert(a.width_of(d) == b.width_of(d));
        }
    }

    pub proof fn lemma_refl(&self)
        ensures
            self.extends(self),
            self.counts_kept(self),
    {
    }

    pub proof fn lemma_extends_slots(&self, other: &Self, d: nat)
        requires
            self.extends(other),
            d <= self.num_dims(),
        ensures
            self.slots(d) <= other.slots(d),
    {
    }

    pub proof fn lemma_extends_trans(&self, b: &Self, c: &Self)
        requires
            self.extends(b),
            b.extends(c),
        ensures
            self.extends(c),
    {
        assert forall|d: nat| d < self.num_dims() implies #[trigger] self.width_of(d) == c.width_of(d) by {
            assert(self.width_of(d) == b.width_of(d));
            assert(b.width_of(d) == c.width_of(d));
        }
        assert forall|d: nat| d < self.num_dims() implies #[trigger] self.nodes_of(d).len() <= c.nodes_of(d).len() by {
            assert(self.nodes_of(d).len() <= b.nodes_of(d).len());
            assert(b.nodes_of(d).len() <= c.nodes_of(d).len());
        }
        assert forall|d: nat, j: int|
            d < self.num_dims() && 0 <= j < self.nodes_of(d).len() implies #[trigger] c.nodes_of(d)[j]
                == self.nodes_of(d)[j] by {
            assert(self.nodes_of(d).len() <= b.nodes_of(d).len());
            assert(b.nodes_of(d)[j] == self.nodes_of(d)[j]);
            assert(c.nodes_of(d)[j] == b.nodes_of(d)[j]);
        }
        assert forall|j: int| 0 <= j < self.summaries.values@.len() implies #[trigger] c.summaries.values@[j]
            == self.summaries.values@[j] by {
            assert(b.summaries.values@[j] == self.summaries.values@[j]);
        }
    }

    pub proof fn lemma_counts_kept_trans(&self, b: &Self, c: &Self)
        requires
            self.extends(b),
            b.extends(c),
            self.counts_kept(b),
            b.counts_kept(c),
        ensures
            self.counts_kept(c),
    {
        assert forall|d: nat, t: usize|
            d <= self.num_dims() && t < c.slots(d) implies #[trigger] c.excess(d, t) == if t
                < self.slots(d) {
                self.excess(d, t)
            } else {
                0
            } by {
            self.lemma_extends_slots(b, d);
            assert(c.excess(d, t) == if t < b.slots(d) { b.excess(d, t) } else { 0 });
            if t < b.slots(d) {
                assert(b.excess(d, t) == if t < self.slots(d) { self.excess(d, t) } else { 0 });
            }
        }
    }
}

impl<S: Monoid> Nanocube<S> {
    pub proof fn lemma_good_agree(&self, other: &Self, d: nat, i: usize, bit: nat)
        requires
            self.same_frame(other),
            self.agree(other, d, i, bit),
            self.good(d, i, bit),
        ensures
            other.good(d, i, bit),
        decreases self.num_dims() - d, self.width_of(d) - bit,
    {
        if d < self.num_dims() {
            assert(self.width_of(d) == other.width_of(d));
            let n = self.nodes_of(d)[i as int];
            let k = n.next.unwrap();
            self.lemma_good_agree(other, d + 1, k, 0);
            if bit < self.width_of(d) {
                if let Some(l) = n.left {
                    self.lemma_good_agree(other, d, l, bit + 1);
                }
                if let Some(r) = n.right {
                    self.lemma_good_agree(other, d, r, bit + 1);
                }
                assert(other.nodes_of(d)[i as int] == n);
                if let Some(l) = n.left {
                    assert(self.agree(other, d, l, bit + 1));
                    assert(other.nodes_of(d)[l as int] == self.nodes_of(d)[l as int]);
                }
                if let Some(r) = n.right {
                    assert(self.agree(other, d, r, bit + 1));
                    assert(other.nodes_of(d)[r as int] == self.nodes_of(d)[r as int]);
                }
                assert(other.next_of(d, n.left) == self.next_of(d, n.left));
                assert(other.next_of(d, n.right) == self.next_of(d, n.right));
                assert forall|q: Seq<Seq<bool>>|
                    #[trigger] other.eval(d + 1, n.next, 0, q) == ocombine(
                        other.eval(d + 1, other.next_of(d, n.left), 0, q),
                        other.eval(d + 1, other.next_of(d, n.right), 0, q),
                    ) by {
                    self.lemma_eval_agree(other, d + 1, k, 0, q);
                    assert(self.eval(d + 1, n.next, 0, q) == ocombine(
                        self.eval(d + 1, self.next_of(d, n.left), 0, q),
                        self.eval(d + 1, self.next_of(d, n.right), 0, q),
                    ));
                    if let Some(l) = n.left {
                        assert(self.agree(other, d, l, bit + 1));
                        if let Some(kl) = self.nodes_of(d)[l as int].next {
                            assert(self.agree(other, d + 1, kl, 0));
                            self.lemma_eval_agree(other, d + 1, kl, 0, q);
                        }
                    }
                    if let Some(r) = n.right {
                        assert(self.agree(other, d, r, bit + 1));
                        if let Some(kr) = self.nodes_of(d)[r as int].next {
                            assert(self.agree(other, d + 1, kr, 0));
                            self.lemma_eval_agree(other, d + 1, kr, 0, q);
                        }
                    }
                }
            }
        }
    }

    /// Appending slots leaves every well-formed subtree as it was.
    pub proof fn lemma_extends_agree(&self, other: &Self, d: nat, i: usize, bit: nat)
        requires
            self.extends(other),
            self.good(d, i, bit),
        ensures
            self.agree(other, d, i, bit),
        decreases self.num_dims() - d, self.width_of(d) - bit,
    {
        if d < self.num_dims() {
            assert(self.nodes_of(d).len() <= other.nodes_of(d).len());
            assert(other.nodes_of(d)[i as int] == self.nodes_of(d)[i as int]);
            let n = self.nodes_of(d)[i as int];
            self.lemma_extends_agree(other, d + 1, n.next.unwrap(), 0);
            if bit < self.width_of(d) {
                if let Some(l) = n.left {
                    self.lemma_extends_agree(other, d, l, bit + 1);
                }
                if let Some(r) = n.right {
                    self.lemma_extends_agree(other, d, r, bit + 1);
                }
            }
        } else {
            assert(other.summaries.values@[i as int] == self.summaries.values@[i as int]);
        }
    }

    /// A well-formed subtree keeps its shape and answers when slots are
    /// appended.
    pub proof fn lemma_extends_keeps(&self, other: &Self, d: nat, i: usize, bit: nat)
        requires
            self.extends(other),
            self.good(d, i, bit),
        ensures
            other.good(d, i, bit),
            forall|q: Seq<Seq<bool>>| #[trigger] other.eval(d, Some(i), bit, q) == self.eval(d, Some(i), bit, q),
            other.summary_of(d, Some(i)) == self.summary_of(d, Some(i)),
            d < self.num_dims() ==> other.nodes_of(d)[i as int] == self.nodes_of(d)[i as int],
    {
        self.lemma_extends_agree(other, d, i, bit);
        self.lemma_good_agree(other, d, i, bit);
        self.lemma_summary_of_agree(other, d, i, bit);
        assert forall|q: Seq<Seq<bool>>| #[trigger] other.eval(d, Some(i), bit, q) == self.eval(d, Some(i), bit, q) by {
            self.lemma_eval_agree(other, d, i, bit, q);
        }
    }

    pub proof fn lemma_extends_keeps_opt(&self, other: &Self, d: nat, i: Option<usize>, bit: nat)
        requires
            self.extends(other),
            self.good_opt(d, i, bit),
        ensures
            other.good_opt(d, i, bit),
            forall|q: Seq<Seq<bool>>| #[trigger] other.eval(d, i, bit, q) == self.eval(d, i, bit, q),
            other.summary_of(d, i) == self.summary_of(d, i),
    {
        if let Some(i) = i {
            self.lemma_extends_keeps(other, d, i, bit);
        }
    }
}

impl<S> Nanocube<S> {
    /// Replacing node `j` of dimension `d` changes the pointer total by the
    /// difference of the two nodes' pointers.
    pub proof fn lemma_ptr_total_update(&self, other: &Self, k: nat, d: nat, j: int, n: NCDimNode)
        requires
            k <= self.num_dims(),
            d < self.num_dims(),
            other.num_dims() == self.num_dims(),
            0 <= j < self.nodes_of(d).len(),
            other.nodes_of(d) == self.nodes_of(d).update(j, n),
            forall|e: nat| e < self.num_dims() && e != d ==> #[trigger] other.nodes_of(e) == self.nodes_of(e),
        ensures
            d < k ==> other.ptr_total(k) + hits(PtrKind::Any, self.nodes_of(d)[j], 0) == self.ptr_total(k)
                + hits(PtrKind::Any, n, 0),
            d >= k ==> other.ptr_total(k) == self.ptr_total(k),
        decreases k,
    {
        if k > 0 {
            self.lemma_ptr_total_update(other, (k - 1) as nat, d, j, n);
            if (k - 1) as nat == d {
                lemma_sum_update(self.nodes_of(d), j, n, PtrKind::Any, 0);
            } else {
                assert(other.nodes_of((k - 1) as nat) == self.nodes_of((k - 1) as nat));
            }
        }
    }

    pub proof fn lemma_ptr_total_same(&self, other: &Self, k: nat)
        requires
            k <= self.num_dims(),
            other.num_dims() == self.num_dims(),
            forall|e: nat| e < self.num_dims() ==> #[trigger] other.nodes_of(e) == self.nodes_of(e),
        ensures
            other.ptr_total(k) == self.ptr_total(k),
        decreases k,
    {
        if k > 0 {
            self.lemma_ptr_total_same(other, (k - 1) as nat);
            assert(other.nodes_of((k - 1) as nat) == self.nodes_of((k - 1) as nat));
        }
    }

    /// Emptying node `t` of dimension `d` removes its pointers from the
    /// reference tallies.
    pub proof fn lemma_clear_refs(&self, other: &Self, d: nat, t: int, e: nat, x: usize)
        requires
            d < self.num_dims(),
            e <= self.num_dims(),
            other.num_dims() == self.num_dims(),
            0 <= t < self.nodes_of(d).len(),
            other.nodes_of(d) == self.nodes_of(d).update(t, crate::counting::cleared()),
            forall|f: nat| f < self.num_dims() && f != d ==> #[trigger] other.nodes_of(f) == self.nodes_of(f),
        ensures
            other.refs(e, x) + (if e == d { hits(PtrKind::Child, self.nodes_of(d)[t], x) } else { 0 })
                + (if e == d + 1 { hits(PtrKind::Next, self.nodes_of(d)[t], x) } else { 0 })
                == self.refs(e, x),
    {
        let c = crate::counting::cleared();
        if e < self.num_dims() {
            if e == d {
                lemma_sum_update(self.nodes_of(d), t, c, PtrKind::Child, x);
            } else {
                assert(other.nodes_of(e) == self.nodes_of(e));
            }
        }
        if e > 0 {
            if (e - 1) as nat == d {
                lemma_sum_update(self.nodes_of(d), t, c, PtrKind::Next, x);
            } else {
                assert(other.nodes_of((e - 1) as nat) == self.nodes_of((e - 1) as nat));
            }
        }
    }
}

impl<S: Monoid> Nanocube<S> {
    pub proof fn lemma_points_eval_frame(&self, other: &Self, pts: Seq<Seq<usize>>, v: S, q: Seq<Seq<bool>>)
        requires
            self.same_frame(other),
        ensures
            self.points_eval(pts, v, q) == other.points_eval(pts, v, q),
        decreases pts.len(),
    {
        if pts.len() > 0 {
            self.lemma_points_eval_frame(other, pts.drop_last(), v, q);
            self.lemma_matches_frame(other, pts.last(), 0, 0, q);
        }
    }
}

} // verus!
