//! The nanocube itself: one arena of refinement nodes per dimension, and an
//! arena of summaries below the last dimension.

use vstd::prelude::*;
use vstd::arithmetic::power2::pow2;
use crate::cube::Monoid;
use crate::model::{addr_bit, lemma_ocombine_swap, ocombine, same_cell};
use crate::ref_counted_vec::RefCountedVec;
use crate::liveness::opt_top;
use crate::layout::{built, empty_arenas, Arenas};
use crate::counting::{cleared, hits, lemma_occ_push, lemma_sum_bound, lemma_sum_push, lemma_sum_zero, occ, sum_hits, PtrKind};

verus! {

/// Whether bit number `bit` (counted from the least significant end) of
/// `value` is set.
pub open spec fn bit_set(value: usize, bit: usize) -> bool {
    (value as nat / pow2(bit as nat)) % 2 == 1
}

/// Bit number `bit` of `value`, counted from the least significant end.
pub fn get_bit(value: usize, bit: usize) -> (r: bool)
    requires
        bit < usize::BITS,
    ensures
        r == bit_set(value, bit),
{
    let shifted = value >> bit;
    proof {
        vstd::bits::lemma_usize_shr_is_div(value, bit);
        assert((shifted & 1usize != 0usize) == (shifted % 2 == 1)) by (bit_vector);
    }
    shifted & 1 != 0
}

/// A node of one dimension: `left` and `right` refine the current bit of
/// the dimension's address (0 and 1), `next` is the root of the next
/// dimension (or, below the last dimension, the summary) that aggregates
/// every point under this node.
#[derive(Copy, Debug, Clone)]
pub struct NCDimNode {
    pub left: Option<usize>,
    pub right: Option<usize>,
    pub next: Option<usize>,
}

pub struct NCDim {
    pub nodes: RefCountedVec<NCDimNode>,
    pub width: usize,
}

impl NCDim {
    pub(crate) fn len(&self) -> (n: usize)
        ensures
            n == self.nodes.values@.len(),
    {
        return self.nodes.len();
    }

    fn new(width: usize) -> (r: NCDim)
        ensures
            r.width == width,
            r.nodes.wf(),
            r.nodes.values@ == Seq::<NCDimNode>::empty(),
    {
        NCDim { nodes: RefCountedVec::new(), width: width }
    }

    pub fn at(&self, index: usize) -> (r: &NCDimNode)
        requires
            index < self.nodes.values@.len(),
        ensures
            *r == self.nodes.values@[index as int],
    {
        return &self.nodes.values[index];
    }

    pub fn at_mut(&mut self, index: usize) -> (r: &mut NCDimNode)
        requires
            index < old(self).nodes.values@.len(),
        ensures
            *r == old(self).nodes.values@[index as int],
            final(self).nodes.values@ == old(self).nodes.values@.update(index as int, *final(r)),
            final(self).nodes.ref_counts@ == old(self).nodes.ref_counts@,
            final(self).width == old(self).width,
    {
        return &mut self.nodes.values[index];
    }
}

pub struct Nanocube<Summary> {
    pub base_root: Option<usize>,
    pub dims: Vec<NCDim>,
    pub summaries: RefCountedVec<Summary>,
}

} // verus!

verus! {

impl<S> Nanocube<S> {
    /// Everything but the reference counts is the same in `self` and `other`.
    pub open spec fn same_but_counts(&self, other: &Self) -> bool {
        &&& self.base_root == other.base_root
        &&& self.same_frame(other)
        &&& forall|d: nat| d < self.num_dims() ==> #[trigger] other.nodes_of(d) == self.nodes_of(d)
        &&& other.summaries.values@ == self.summaries.values@
    }

    /// A usable nanocube: at least one dimension, sound arenas, and every
    /// count is exactly the pointers to its slot plus, for the root, the
    /// cube's own reference; the root is a well-formed tree, and a node that
    /// nothing refers to holds no pointer.
    pub open spec fn inv(&self) -> bool
        where S: Monoid,
    {
        &&& self.num_dims() > 0
        &&& self.arenas_ok()
        &&& self.counts_ok()
        &&& self.good_opt(0, self.base_root, 0)
        &&& self.dead_cleared()
        &&& self.ordered()
        &&& forall|d: nat, t: usize|
            d <= self.num_dims() && t < self.slots(d) ==> #[trigger] self.excess(d, t) == if d == 0
                && self.base_root == Some(t) {
                1int
            } else {
                0int
            }
    }

    pub proof fn lemma_same_but_counts_extends(&self, other: &Self)
        requires
            self.same_but_counts(other),
        ensures
            self.extends(other),
    {
    }

    /// The counts of `other` are those of `self`, but for arena `d` where
    /// they are `c`.
    pub open spec fn counts_but(&self, other: &Self, d: nat, c: Seq<u128>) -> bool {
        &&& other.counts_of(d) == c
        &&& forall|e: nat| e <= self.num_dims() && e != d ==> #[trigger] other.counts_of(e) == self.counts_of(e)
    }
}

} // verus!

verus! {

impl<S> Nanocube<S> {
    /// The arena of dimension `d` (or of the summaries) has at most
    /// `usize::MAX` slots.
    pub proof fn lemma_slots_bounded(&self, d: nat)
        requires
            d <= self.num_dims(),
        ensures
            self.slots(d) <= usize::MAX,
    {
        if d < self.num_dims() {
            vstd::std_specs::vec::axiom_spec_len(&self.dims@[d as int].nodes.values);
        } else {
            vstd::std_specs::vec::axiom_spec_len(&self.summaries.values);
        }
    }
}

impl<Summary: Monoid + PartialOrd> Nanocube<Summary> {
    pub fn new(widths: Vec<usize>) -> (r: Nanocube<Summary>)
        requires
            widths.len() > 0,
        ensures
            r.base_root is None,
            r.num_dims() == widths.len(),
            forall|d: nat| d < widths.len() ==> #[trigger] r.width_of(d) == widths@[d as int],
            forall|d: nat| d <= widths.len() ==> #[trigger] r.slots(d) == 0,
            r.arenas_ok(),
            r.counts_ok(),
            r.inv(),
            forall|q: Seq<Seq<bool>>| #[trigger] r.eval(0, r.base_root, 0, q) == None::<Summary>,
    {
        let mut dims: Vec<NCDim> = Vec::new();
        let mut k: usize = 0;
        while k < widths.len()
            invariant
                k <= widths.len(),
                dims@.len() == k,
                forall|d: int|
                    0 <= d < k ==> (#[trigger] dims@[d]).width == widths@[d] && dims@[d].nodes.wf()
                        && dims@[d].nodes.values@.len() == 0,
            decreases widths.len() - k,
        {
            dims.push(NCDim::new(widths[k]));
            k = k + 1;
        }
        let r = Nanocube { base_root: None, dims, summaries: RefCountedVec::new() };
        assert forall|d: nat| d < r.num_dims() implies (#[trigger] r.dims@[d as int]).nodes.wf() by {
            assert(r.dims@[d as int] == dims@[d as int]);
        }
        r
    }

    /// Takes one more reference to node `node_index` of dimension `dim`
    /// (a summary when `dim` is the number of dimensions); returns the new
    /// count, or 0 when there is no node.
    pub fn make_node_ref(&mut self, node_index: Option<usize>, dim: usize) -> (count: u128)
        requires
            old(self).arenas_ok(),
            node_index is Some ==> dim <= old(self).num_dims(),
            node_index matches Some(v) ==> v < old(self).slots(dim as nat) && old(self).counts_of(
                dim as nat,
            )[v as int] < u128::MAX,
        ensures
            final(self).arenas_ok(),
            old(self).same_but_counts(final(self)),
            node_index is None ==> count == 0 && old(self).counts_but(
                final(self),
                dim as nat,
                old(self).counts_of(dim as nat),
            ),
            node_index matches Some(v) ==> {
                &&& count == old(self).counts_of(dim as nat)[v as int] + 1
                &&& old(self).counts_but(
                    final(self),
                    dim as nat,
                    old(self).counts_of(dim as nat).update(v as int, count),
                )
            },
            forall|d: nat, t: usize|
                d <= old(self).num_dims() && t < old(self).slots(d) ==> #[trigger] final(self).excess(d, t)
                    == old(self).excess(d, t) + if d == dim && node_index == Some(t) { 1int } else { 0int },
            old(self).counts_ok() && (node_index matches Some(v) ==> old(self).excess(dim as nat, v)
                < u64::MAX) ==> final(self).counts_ok(),
            old(self).ordered() ==> final(self).ordered(),
            final(self).arenas() == old(self).arenas().bump(dim as nat, node_index),
    {
        let c = match node_index {
            None => 0,
            Some(v) if dim == self.dims.len() => self.summaries.make_ref(v),
            Some(v) => {
                proof {
                    assert(self.dims@[dim as int].nodes.wf());
                }
                self.dims[dim].nodes.make_ref(v)
            },
        };
        proof {
            assert forall|d: nat| d < self.num_dims() implies #[trigger] self.dims@[d as int].nodes.wf()
                && self.nodes_of(d) == old(self).nodes_of(d) && self.width_of(d) == old(self).width_of(d) by {
                if d != dim {
                    assert(self.dims@[d as int] == old(self).dims@[d as int]);
                }
            }
            assert forall|d: nat, j: int|
                d < self.num_dims() && 0 <= j < self.slots(d) implies self.node_ptrs_ok(
                    d,
                    #[trigger] self.nodes_of(d)[j],
                ) by {
                assert(self.nodes_of(d) == old(self).nodes_of(d));
                assert(old(self).node_ptrs_ok(d, old(self).nodes_of(d)[j]));
                if d + 1 < self.num_dims() {
                    assert(self.nodes_of(d + 1) == old(self).nodes_of(d + 1));
                }
            }
            assert forall|d: nat, t: usize|
                d <= self.num_dims() && t < old(self).slots(d) implies #[trigger] self.excess(d, t)
                    == old(self).excess(d, t) + if d == dim && node_index == Some(t) { 1int } else { 0int } by {
                if d < self.num_dims() {
                    assert(self.nodes_of(d) == old(self).nodes_of(d));
                }
                if d > 0 {
                    assert(self.nodes_of((d - 1) as nat) == old(self).nodes_of((d - 1) as nat));
                }
                assert(self.refs(d, t) == old(self).refs(d, t));
            }
            if old(self).ordered() {
                old(self).lemma_ordered_kept(self);
            }
            let a = old(self).arenas().bump(dim as nat, node_index);
            assert forall|d: nat| d <= self.num_dims() implies #[trigger] a.counts[d as int] == self.counts_of(d) by {
                if node_index is Some && d == dim {
                } else {
                    if node_index is Some {
                        assert(a.counts[d as int] == old(self).arenas().counts[d as int]);
                    }
                }
            }
            Self::lemma_arenas_of(*self, a);
        }
        c
    }

    /// A count is below its limit whenever the surplus is within bounds.
    proof fn lemma_count_room(&self, d: nat, t: usize, extra: int)
        requires
            self.arenas_ok(),
            d <= self.num_dims(),
            t < self.slots(d),
            0 <= extra <= 3,
            self.excess(d, t) <= u64::MAX + extra,
        ensures
            self.counts_of(d)[t as int] < u128::MAX,
    {
        self.lemma_slots_bounded(d);
        if d < self.num_dims() {
            lemma_sum_bound(self.nodes_of(d), PtrKind::Child, t);
        }
        if d > 0 {
            self.lemma_slots_bounded((d - 1) as nat);
            lemma_sum_bound(self.nodes_of((d - 1) as nat), PtrKind::Next, t);
        }
        assert(usize::MAX <= u64::MAX);
    }

    /// Appends `node` to dimension `dim`, taking a reference to each node
    /// that it points to; returns its index.
    #[verifier::spinoff_prover]
    #[verifier::rlimit(40)]
    fn attach(&mut self, node: NCDimNode, dim: usize) -> (index: usize)
        requires
            old(self).arenas_ok(),
            old(self).counts_ok(),
            dim < old(self).num_dims(),
            old(self).node_ptrs_ok(dim as nat, node),
        ensures
            final(self).arenas_ok(),
            final(self).counts_ok(),
            final(self).base_root == old(self).base_root,
            old(self).extends(final(self)),
            index == old(self).slots(dim as nat),
            final(self).nodes_of(dim as nat) == old(self).nodes_of(dim as nat).push(node),
            forall|d: nat| d <= old(self).num_dims() && d != dim ==> #[trigger] final(self).slots(d) == old(self).slots(d),
            forall|d: nat, t: usize|
                d <= old(self).num_dims() && t < old(self).slots(d) ==> #[trigger] final(self).excess(d, t)
                    == old(self).excess(d, t),
            final(self).excess(dim as nat, index) == 0,
            old(self).counts_kept(final(self)),
            old(self).counts_grown(final(self)),
            old(self).fresh_held(final(self), set![(dim as nat, index)]),
            node.left matches Some(l) ==> final(self).counts_of(dim as nat)[l as int] > 0,
            node.right matches Some(r) ==> final(self).counts_of(dim as nat)[r as int] > 0,
            node.next matches Some(k) ==> final(self).counts_of((dim + 1) as nat)[k as int] > 0,
            old(self).ordered() ==> final(self).ordered(),
            final(self).arenas() == old(self).arenas().push_node(dim as nat, node),
    {
        let ghost s0 = *self;
        proof {
            vstd::std_specs::vec::axiom_spec_len(&self.dims);
            if let Some(l) = node.left {
                s0.lemma_count_room(dim as nat, l, 0);
            }
        }
        self.make_node_ref(node.left, dim);
        let ghost s1 = *self;
        proof {
            if let Some(r) = node.right {
                assert(s1.refs(dim as nat, r) == s0.refs(dim as nat, r));
                assert(0 <= s0.excess(dim as nat, r) <= u64::MAX);
                assert(s1.counts_of(dim as nat)[r as int] <= s0.counts_of(dim as nat)[r as int] + 1);
                s1.lemma_count_room(dim as nat, r, 1);
            }
        }
        self.make_node_ref(node.right, dim);
        let ghost s2 = *self;
        proof {
            if let Some(k) = node.next {
                assert(s2.refs((dim + 1) as nat, k) == s0.refs((dim + 1) as nat, k));
                assert(0 <= s0.excess((dim + 1) as nat, k) <= u64::MAX);
                assert(s2.counts_of((dim + 1) as nat) == s0.counts_of((dim + 1) as nat));
                s2.lemma_count_room((dim + 1) as nat, k, 0);
            }
        }
        self.make_node_ref(node.next, dim + 1);
        let ghost s3 = *self;
        proof {
            assert(self.dims@[dim as int].nodes.wf());
        }
        let index = self.dims[dim].nodes.insert(node);
        proof {
            let dn = dim as nat;
            assert forall|d: nat| d < self.num_dims() implies #[trigger] self.dims@[d as int].nodes.wf()
                && self.width_of(d) == s0.width_of(d)
                && (d != dn ==> self.nodes_of(d) == s0.nodes_of(d)) by {
                assert(s1.nodes_of(d) == s0.nodes_of(d));
                assert(s2.nodes_of(d) == s1.nodes_of(d));
                assert(s3.nodes_of(d) == s2.nodes_of(d));
                assert(s1.width_of(d) == s0.width_of(d));
                assert(s2.width_of(d) == s1.width_of(d));
                assert(s3.width_of(d) == s2.width_of(d));
                assert(s3.dims@[d as int].nodes.wf());
                if d != dim {
                    assert(self.dims@[d as int] == s3.dims@[d as int]);
                }
            }
            assert(s3.nodes_of(dn) == s0.nodes_of(dn));
            assert(self.nodes_of(dn) == s0.nodes_of(dn).push(node));
            assert forall|d: nat, j: int|
                d < self.num_dims() && 0 <= j < self.slots(d) implies self.node_ptrs_ok(
                    d,
                    #[trigger] self.nodes_of(d)[j],
                ) by {
                if d == dn && j == index {
                } else {
                    assert(self.nodes_of(d)[j] == s0.nodes_of(d)[j]);
                    assert(s0.node_ptrs_ok(d, s0.nodes_of(d)[j]));
                }
            }
            assert(self.arenas_ok());
            // Counts: every old slot gained exactly the pointers of `node`.
            assert forall|d: nat, t: usize|
                d <= self.num_dims() && t < s0.slots(d) implies #[trigger] self.counts_of(d)[t as int]
                    == s0.counts_of(d)[t as int] + (if d == dn { hits(PtrKind::Child, node, t) } else { 0 })
                    + (if d == dn + 1 { hits(PtrKind::Next, node, t) } else { 0 }) by {
                assert(s1.counts_of(d)[t as int] == s0.counts_of(d)[t as int] + (if d == dn && node.left == Some(t) { 1int } else { 0 }));
                assert(s2.counts_of(d)[t as int] == s1.counts_of(d)[t as int] + (if d == dn && node.right == Some(t) { 1int } else { 0 }));
                assert(s3.counts_of(d)[t as int] == s2.counts_of(d)[t as int] + (if d == dn + 1 && node.next == Some(t) { 1int } else { 0 }));
                if d == dn {
                    assert(self.counts_of(d) == s3.counts_of(d).push(0));
                } else if d < self.num_dims() {
                    assert(self.dims@[d as int] == s3.dims@[d as int]);
                } else {
                    assert(self.counts_of(d) == s3.counts_of(d));
                }
            }
            assert forall|d: nat, t: usize|
                d <= self.num_dims() && t < s0.slots(d) implies #[trigger] self.excess(d, t)
                    == s0.excess(d, t) by {
                if d < self.num_dims() && d == dn {
                    lemma_sum_push(s0.nodes_of(dn), node, PtrKind::Child, t);
                }
                if d > 0 && d - 1 == dn {
                    lemma_sum_push(s0.nodes_of(dn), node, PtrKind::Next, t);
                }
            }
            // The new slot: nothing points at it yet.
            lemma_sum_zero(s0.nodes_of(dn), PtrKind::Child, index, s0.slots(dn));
            if dn > 0 {
                lemma_sum_zero(s0.nodes_of((dn - 1) as nat), PtrKind::Next, index, s0.slots(dn));
            }
            lemma_sum_push(s0.nodes_of(dn), node, PtrKind::Child, index);
            assert(self.excess(dn, index) == 0);
            assert forall|d: nat, t: usize|
                d <= self.num_dims() && t < self.slots(d) implies 0 <= #[trigger] self.excess(d, t)
                    <= u64::MAX by {
                if t < s0.slots(d) {
                    assert(self.excess(d, t) == s0.excess(d, t));
                }
            }
            Self::lemma_attach_counts(s0, *self, dn, node, index);
            if s0.ordered() {
                s0.lemma_ordered_push(self, dn, node);
            }
            assert forall|e: nat| e <= self.num_dims() && e != dn implies #[trigger] self.counts_of(e) == s3.counts_of(e) by {
                if e < self.num_dims() {
                    assert(self.dims@[e as int] == s3.dims@[e as int]);
                }
            }
            Self::lemma_push_node_arenas(s0, s3, *self, dn, node);
        }
        index
    }

    /// Appends summary `value`; returns its index.
    fn store_summary(&mut self, value: Summary) -> (index: usize)
        requires
            old(self).arenas_ok(),
            old(self).counts_ok(),
        ensures
            final(self).arenas_ok(),
            final(self).counts_ok(),
            final(self).base_root == old(self).base_root,
            old(self).extends(final(self)),
            index == old(self).slots(old(self).num_dims()),
            final(self).summaries.values@ == old(self).summaries.values@.push(value),
            forall|d: nat| d < old(self).num_dims() ==> #[trigger] final(self).nodes_of(d) == old(self).nodes_of(d),
            forall|d: nat, t: usize|
                d <= old(self).num_dims() && t < old(self).slots(d) ==> #[trigger] final(self).excess(d, t)
                    == old(self).excess(d, t),
            final(self).excess(old(self).num_dims(), index) == 0,
            old(self).counts_kept(final(self)),
            old(self).counts_grown(final(self)),
            old(self).fresh_held(final(self), set![(old(self).num_dims(), index)]),
            old(self).ordered() ==> final(self).ordered(),
            final(self).arenas() == old(self).arenas().push_sum(value),
    {
        let ghost s0 = *self;
        let index = self.summaries.insert(value);
        proof {
            let nd = self.num_dims();
            assert forall|d: nat| d < nd implies #[trigger] self.dims@[d as int].nodes.wf() by {
                assert(self.dims@[d as int] == s0.dims@[d as int]);
            }
            assert forall|d: nat, j: int|
                d < nd && 0 <= j < self.slots(d) implies self.node_ptrs_ok(
                    d,
                    #[trigger] self.nodes_of(d)[j],
                ) by {
                assert(s0.node_ptrs_ok(d, s0.nodes_of(d)[j]));
            }
            assert forall|d: nat, t: usize|
                d <= nd && t < s0.slots(d) implies #[trigger] self.excess(d, t) == s0.excess(d, t) by {
                if d == nd {
                    assert(self.counts_of(d)[t as int] == s0.counts_of(d)[t as int]);
                }
            }
            if nd > 0 {
                lemma_sum_zero(s0.nodes_of((nd - 1) as nat), PtrKind::Next, index, s0.slots(nd));
            }
            assert(self.excess(nd, index) == 0);
            assert forall|d: nat, t: usize|
                d <= nd && t < self.slots(d) implies 0 <= #[trigger] self.excess(d, t) <= u64::MAX by {
                if t < s0.slots(d) {
                    assert(self.excess(d, t) == s0.excess(d, t));
                }
            }
            assert forall|d: nat, t: usize|
                d <= nd && t < s0.slots(d) implies #[trigger] self.counts_of(d)[t as int] >= s0.counts_of(d)[t as int] by {
                if d == nd {
                    assert(self.counts_of(d)[t as int] == s0.counts_of(d)[t as int]);
                } else {
                    assert(self.dims@[d as int] == s0.dims@[d as int]);
                }
            }
            assert forall|d: nat, t: usize|
                d <= nd && s0.slots(d) <= t < self.slots(d) && #[trigger] self.counts_of(d)[t as int] == 0
                    implies set![(nd, index)].contains((d, t)) by {
                if d < nd {
                    assert(self.nodes_of(d) == s0.nodes_of(d));
                }
            }
            if s0.ordered() {
                assert forall|d: nat| d < nd implies #[trigger] self.slots(d) == s0.slots(d) by {
                    assert(self.nodes_of(d) == s0.nodes_of(d));
                }
                s0.lemma_ordered_kept(self);
            }
            assert forall|e: nat| e < nd implies #[trigger] self.counts_of(e) == s0.counts_of(e) by {
                assert(self.dims@[e as int] == s0.dims@[e as int]);
            }
            Self::lemma_push_sum_arenas(s0, *self, value);
        }
        index
    }

    /// A copy of node `node_index` of dimension `dim`.
    pub fn get_node(&self, dim: usize, node_index: usize) -> (r: NCDimNode)
        requires
            dim < self.num_dims(),
            node_index < self.slots(dim as nat),
        ensures
            r == self.nodes_of(dim as nat)[node_index as int],
    {
        self.dims[dim].at(node_index).clone()
    }

    /// Inserts a chain of new nodes that holds the single point `addresses`
    /// with summary `summary`, starting at dimension `dim`, depth `bit`.
    /// Returns the top of the chain and the summary slot at its bottom.
    pub fn insert_fresh_node(
        &mut self,
        summary: Summary,
        addresses: &Vec<usize>,
        dim: usize,
        bit: usize,
    ) -> (r: (Option<usize>, Option<usize>))
        requires
            old(self).arenas_ok(),
            old(self).counts_ok(),
            old(self).widths_fit(dim as nat, bit as nat),
            addresses@.len() == old(self).num_dims(),
            dim <= old(self).num_dims(),
            dim < old(self).num_dims() ==> bit <= old(self).width_of(dim as nat),
        ensures
            final(self).arenas_ok(),
            final(self).counts_ok(),
            final(self).base_root == old(self).base_root,
            old(self).extends(final(self)),
            old(self).counts_kept(final(self)),
            r.0 matches Some(i) && final(self).good(dim as nat, i, bit as nat),
            forall|q: Seq<Seq<bool>>|
                #[trigger] final(self).eval(dim as nat, r.0, bit as nat, q) == final(self).single(
                    addresses@,
                    summary,
                    dim as nat,
                    bit as nat,
                    q,
                ),
            r.1 == final(self).summary_of(dim as nat, r.0),
            old(self).chain_appended(final(self), addresses@, summary, dim as nat, bit as nat),
            r.0 == Some(old(self).chain_slot(dim as nat, bit as nat) as usize),
            r.1 == Some(old(self).slots(old(self).num_dims()) as usize),
            final(self).counts_of(dim as nat)[r.0.unwrap() as int] == 0,
            old(self).counts_grown(final(self)),
            old(self).fresh_held(final(self), opt_top(dim as nat, r.0)),
            final(self).single_chain(addresses@, dim as nat, r.0.unwrap(), bit as nat),
            old(self).ordered() ==> final(self).ordered(),
            (final(self).arenas(), r.0, r.1) == old(self).arenas().fresh(
                old(self).arenas().widths,
                summary,
                addresses@,
                dim as nat,
                bit as nat,
            ),
        decreases old(self).num_dims() - dim, old(self).width_of(dim as nat) - bit,
    {
        let ghost s0 = *self;
        let ghost addr = addresses@;
        let ghost dn = dim as nat;
        let ghost bn = bit as nat;
        if dim == self.dims.len() {
            let new_ref = self.store_summary(summary);
            proof {
                assert forall|d: nat| d <= s0.num_dims() implies #[trigger] self.slots(d) == s0.slots(d)
                    + s0.chain_added(dn, bn, d) by {
                    if d < s0.num_dims() {
                        assert(self.nodes_of(d) == s0.nodes_of(d));
                    }
                }
                if dn > 0 {
                    assert forall|j: int| 0 <= j < self.slots((dn - 1) as nat) implies ((#[trigger] self.nodes_of(
                        (dn - 1) as nat,
                    )[j]).next matches Some(k) ==> k < s0.slots(dn)) by {
                        assert(self.nodes_of((dn - 1) as nat) == s0.nodes_of((dn - 1) as nat));
                        assert(s0.node_ptrs_ok((dn - 1) as nat, s0.nodes_of((dn - 1) as nat)[j]));
                    }
                }
                self.lemma_unreferenced(dn, new_ref, s0.slots(dn));
                assert forall|q: Seq<Seq<bool>>|
                    #[trigger] self.eval(dn, Some(new_ref), bn, q) == self.single(addr, summary, dn, bn, q) by {
                }
            }
            (Some(new_ref), Some(new_ref))
        } else {
            let width = self.dims[dim].width;
            if bit != width {
                let where_to_insert = get_bit(addresses[dim], width - bit - 1);
                let recursion_result = self.insert_fresh_node(summary, addresses, dim, bit + 1);
                let ghost s1 = *self;
                let left_recursion_result = recursion_result.0.expect("fresh node should have returned Some");
                let next = self.dims[dim].at(left_recursion_result).next;
                let new_refinement_node = if where_to_insert {
                    NCDimNode { left: None, right: recursion_result.0, next: next }
                } else {
                    NCDimNode { left: recursion_result.0, right: None, next: next }
                };
                let new_index = self.attach(new_refinement_node, dim);
                proof {
                    let c = left_recursion_result;
                    assert(s1.nodes_of(dn)[s0.chain_slot(dn, bn + 1) as int] == s0.chain_node(addr, dn, bn + 1));
                    assert(addr_bit(addr[dn as int], s0.width_of(dn), bn) == where_to_insert);
                    assert(new_refinement_node == s0.chain_node(addr, dn, bn));
                    assert forall|d: nat| d <= s0.num_dims() implies #[trigger] self.slots(d) == s1.slots(d)
                        + if d == dn { 1nat } else { 0nat } by {
                    }
                    Self::lemma_chain_grow(s0, s1, *self, addr, summary, dn, bn, dn, bn + 1);
                    if dn > 0 {
                        assert(self.slots((dn - 1) as nat) == s0.slots((dn - 1) as nat));
                        assert(self.nodes_of((dn - 1) as nat) =~= s0.nodes_of((dn - 1) as nat));
                    }
                    Self::lemma_top_unreferenced(s0, s1, *self, dn, new_refinement_node, new_index);
                    Self::lemma_held_compose(s0, s1, *self, opt_top(dn, recursion_result.0), set![(dn, new_index)], opt_top(dn, Some(new_index)));
                    Self::lemma_grown_trans(s0, s1, *self);
                    s1.lemma_single_chain_extends(self, addr, dn, c, bn + 1);
                    assert(self.single_chain(addr, dn, new_index, bn));
                    s0.lemma_arenas_widths(&s1);
                    assert(s1.arenas().nodes[dn as int] == s1.nodes_of(dn));
                    s0.lemma_extends_trans(&s1, self);
                    s0.lemma_counts_kept_trans(&s1, self);
                    s1.lemma_extends_keeps(self, dn, c, bn + 1);
                    let k = next.unwrap();
                    s1.lemma_extends_keeps(self, dn + 1, k, 0);
                    let n = new_refinement_node;
                    assert(self.nodes_of(dn)[new_index as int] == n);
                    assert(self.nodes_of(dn)[c as int] == s1.nodes_of(dn)[c as int]);
                    assert(self.next_of(dn, Some(c)) == next);
                    assert(s0.width_of(dn) == self.width_of(dn));
                    assert forall|q: Seq<Seq<bool>>|
                        #[trigger] self.eval(dn + 1, n.next, 0, q) == ocombine(
                            self.eval(dn + 1, self.next_of(dn, n.left), 0, q),
                            self.eval(dn + 1, self.next_of(dn, n.right), 0, q),
                        ) by {
                    }
                    assert(self.good(dn, new_index, bn));
                    assert forall|q: Seq<Seq<bool>>|
                        #[trigger] self.eval(dn, Some(new_index), bn, q) == self.single(addr, summary, dn, bn, q) by {
                        if q.len() == 0 || q[0].len() == 0 {
                            let qd = q.drop_first();
                            assert(self.eval(dn, Some(new_index), bn, q) == self.eval(dn + 1, next, 0, qd));
                            assert(self.eval(dn + 1, Some(k), 0, qd) == s1.eval(dn + 1, Some(k), 0, qd));
                            assert(s1.eval(dn, Some(c), bn + 1, q) == s1.eval(dn + 1, next, 0, qd));
                            assert(s1.eval(dn, Some(c), bn + 1, q) == s1.single(addr, summary, dn, bn + 1, q));
                            assert(s1.matches(addr, dn, bn + 1, q) == s1.matches(addr, dn + 1, 0, qd));
                            assert(self.matches(addr, dn, bn, q) == self.matches(addr, dn + 1, 0, qd));
                            s1.lemma_matches_frame(self, addr, dn + 1, 0, qd);
                        } else {
                            let q2 = q.update(0, q[0].drop_first());
                            assert(self.matches(addr, dn, bn, q) == (q[0][0] == addr_bit(addr[dn as int], self.width_of(dn), bn)
                                && self.matches(addr, dn, bn + 1, q2)));
                            assert(addr_bit(addr[dn as int], self.width_of(dn), bn) == where_to_insert);
                            if q[0][0] == where_to_insert {
                                assert(self.eval(dn, Some(new_index), bn, q) == self.eval(dn, Some(c), bn + 1, q2));
                                assert(self.eval(dn, Some(c), bn + 1, q2) == s1.eval(dn, Some(c), bn + 1, q2));
                                assert(s1.eval(dn, Some(c), bn + 1, q2) == s1.single(addr, summary, dn, bn + 1, q2));
                                s1.lemma_matches_frame(self, addr, dn, bn + 1, q2);
                            } else {
                                assert(self.eval(dn, Some(new_index), bn, q) == self.eval(dn, None, bn + 1, q2));
                            }
                        }
                    }
                }
                return (Some(new_index), recursion_result.1);
            } else {
                let next_dim_result = self.insert_fresh_node(summary, addresses, dim + 1, 0);
                let ghost s1 = *self;
                let new_node_at_current_dim = NCDimNode { left: None, right: None, next: next_dim_result.0 };
                let new_index = self.attach(new_node_at_current_dim, dim);
                proof {
                    assert(new_node_at_current_dim == s0.chain_node(addr, dn, bn));
                    assert forall|d: nat| d <= s0.num_dims() implies #[trigger] self.slots(d) == s1.slots(d)
                        + if d == dn { 1nat } else { 0nat } by {
                    }
                    Self::lemma_chain_grow(s0, s1, *self, addr, summary, dn, bn, dn + 1, 0);
                    if dn > 0 {
                        assert(self.slots((dn - 1) as nat) == s0.slots((dn - 1) as nat));
                        assert(self.nodes_of((dn - 1) as nat) =~= s0.nodes_of((dn - 1) as nat));
                    }
                    Self::lemma_top_unreferenced(s0, s1, *self, dn, new_node_at_current_dim, new_index);
                    Self::lemma_held_compose(s0, s1, *self, opt_top(dn + 1, next_dim_result.0), set![(dn, new_index)], opt_top(dn, Some(new_index)));
                    Self::lemma_grown_trans(s0, s1, *self);
                    s1.lemma_single_chain_extends(self, addr, dn + 1, next_dim_result.0.unwrap(), 0);
                    assert(self.single_chain(addr, dn, new_index, bn));
                    s0.lemma_arenas_widths(&s1);
                    assert(s1.arenas().nodes[dn as int] == s1.nodes_of(dn));
                    s0.lemma_extends_trans(&s1, self);
                    s0.lemma_counts_kept_trans(&s1, self);
                    let k = next_dim_result.0.unwrap();
                    s1.lemma_extends_keeps(self, dn + 1, k, 0);
                    assert(self.nodes_of(dn)[new_index as int] == new_node_at_current_dim);
                    assert(s0.width_of(dn) == self.width_of(dn));
                    assert(self.good(dn, new_index, bn));
                    assert forall|q: Seq<Seq<bool>>|
                        #[trigger] self.eval(dn, Some(new_index), bn, q) == self.single(addr, summary, dn, bn, q) by {
                        let qd = q.drop_first();
                        assert(self.eval(dn, Some(new_index), bn, q) == self.eval(dn + 1, Some(k), 0, qd));
                        assert(self.eval(dn + 1, Some(k), 0, qd) == s1.eval(dn + 1, Some(k), 0, qd));
                        assert(s1.eval(dn + 1, Some(k), 0, qd) == s1.single(addr, summary, dn + 1, 0, qd));
                        assert(self.matches(addr, dn, bn, q) == self.matches(addr, dn + 1, 0, qd));
                        s1.lemma_matches_frame(self, addr, dn + 1, 0, qd);
                    }
                }
                return (Some(new_index), next_dim_result.1);
            }
        }
    }

    /// Follows `next` pointers from node `node_index` of dimension `dim`
    /// down to the summary that aggregates it.
    pub fn get_summary_index(&self, node_index: Option<usize>, dim: usize) -> (r: Option<usize>)
        requires
            self.arenas_ok(),
            dim < self.num_dims() ==> (node_index matches Some(i) ==> i < self.slots(dim as nat)),
        ensures
            r == self.summary_of(dim as nat, node_index),
    {
        let ghost d0 = dim as nat;
        let mut current_node_index = node_index;
        let mut d = dim;
        while d < self.dims.len()
            invariant
                self.arenas_ok(),
                dim <= d,
                dim <= self.num_dims() ==> d <= self.num_dims(),
                d < self.num_dims() ==> (current_node_index matches Some(i) ==> i < self.slots(d as nat)),
                d0 == dim as nat,
                self.summary_of(d as nat, current_node_index) == self.summary_of(d0, node_index),
            decreases self.num_dims() - d,
        {
            match current_node_index {
                None => {
                    return None;
                },
                Some(i) => {
                    proof {
                        assert(self.node_ptrs_ok(d as nat, self.nodes_of(d as nat)[i as int]));
                    }
                    let next_index = self.dims[d].at(i).next;
                    d += 1;
                    current_node_index = next_index;
                },
            }
        }
        assert(self.summary_of(d as nat, current_node_index) == current_node_index);
        return current_node_index;
    }

    /// Merges the subtrees at `node_1` and `node_2` of dimension `dim` into a
    /// subtree that answers every query with the combination of their
    /// answers. Returns the merged node and the summary slot below it: one of
    /// the two when the other is missing, else a new slot, the last of the
    /// arena, that nothing points at yet.
    #[verifier::spinoff_prover]
    #[verifier::rlimit(60)]
    pub fn merge(&mut self, node_1: Option<usize>, node_2: Option<usize>, dim: usize) -> (r: (
        Option<usize>,
        Option<usize>,
    ))
        requires
            old(self).arenas_ok(),
            old(self).counts_ok(),
            node_1 is Some && node_2 is Some ==> dim <= old(self).num_dims(),
            node_1 is None || node_2 is None ==> dim < old(self).num_dims() ==> (node_1 matches Some(i)
                ==> i < old(self).slots(dim as nat)) && (node_2 matches Some(j) ==> j < old(self).slots(dim as nat)),
            node_1 is Some && node_2 is Some ==> exists|b: nat| old(self).merge_ready(dim as nat, node_1, node_2, b),
        ensures
            final(self).arenas_ok(),
            final(self).counts_ok(),
            final(self).base_root == old(self).base_root,
            old(self).extends(final(self)),
            old(self).counts_kept(final(self)),
            forall|d: nat| d < dim ==> #[trigger] final(self).slots(d) == old(self).slots(d),
            (r.0 is None) == (node_1 is None && node_2 is None),
            node_1 is None ==> r.0 == node_2 && *final(self) == *old(self),
            node_2 is None ==> r.0 == node_1 && *final(self) == *old(self),
            node_1 is Some && node_2 is Some ==> (r.0 matches Some(i) && old(self).slots(dim as nat) <= i && i + 1
                == final(self).slots(dim as nat) && final(self).counts_of(dim as nat)[i as int] == 0),
            old(self).counts_grown(final(self)),
            old(self).fresh_held(final(self), opt_top(dim as nat, r.0)),
            old(self).ordered() ==> final(self).ordered(),
            forall|b: nat|
                #![trigger old(self).merge_ready(dim as nat, node_1, node_2, b)]
                old(self).merge_ready(dim as nat, node_1, node_2, b) ==> (final(self).arenas(), r.0, r.1)
                    == old(self).arenas().merged(old(self).arenas().widths, node_1, node_2, dim as nat, b),
            dim < old(self).num_dims() && node_1 is Some && node_2 is Some ==> {
                let a = old(self).nodes_of(dim as nat)[node_1.unwrap() as int];
                let b = old(self).nodes_of(dim as nat)[node_2.unwrap() as int];
                let m = final(self).nodes_of(dim as nat)[r.0.unwrap() as int];
                &&& (m.left is None) == (a.left is None && b.left is None)
                &&& (m.right is None) == (a.right is None && b.right is None)
            },
            dim == old(self).num_dims() && node_1 is Some && node_2 is Some ==> {
                &&& r == (Some(old(self).slots(dim as nat) as usize), Some(old(self).slots(dim as nat) as usize))
                &&& final(self).summaries.values@ == old(self).summaries.values@.push(
                    Summary::op(old(self).summaries.values@[node_1.unwrap() as int], old(self).summaries.values@[node_2.unwrap() as int]),
                )
                &&& forall|d: nat| d < dim ==> #[trigger] final(self).nodes_of(d) == old(self).nodes_of(d)
            },
            forall|b: nat|
                #![trigger old(self).merge_ready(dim as nat, node_1, node_2, b)]
                old(self).merge_ready(dim as nat, node_1, node_2, b) ==> final(self).good_opt(
                    dim as nat,
                    r.0,
                    b,
                ),
            forall|b: nat, q: Seq<Seq<bool>>|
                old(self).merge_ready(dim as nat, node_1, node_2, b) ==> #[trigger] final(self).eval(
                    dim as nat,
                    r.0,
                    b,
                    q,
                ) == ocombine(
                    old(self).eval(dim as nat, node_1, b, q),
                    old(self).eval(dim as nat, node_2, b, q),
                ),
            r.1 == final(self).summary_of(dim as nat, r.0),
        decreases old(self).num_dims() - dim, old(self).width_of(dim as nat) - old(self).merge_depth(
            dim as nat,
            node_1,
            node_2,
        ), if node_1 is None && node_2 is None {
            0nat
        } else {
            1nat
        },
    {
        let ghost s0 = *self;
        let ghost dn = dim as nat;
        let ghost b = choose|b: nat| s0.merge_ready(dn, node_1, node_2, b);
        proof {
            s0.lemma_refl();
            assert forall|b2: nat| #[trigger] s0.merge_ready(dn, node_1, node_2, b2) implies b2 == b || dn
                >= s0.num_dims() || (node_1 is None && node_2 is None) by {
                if dn < s0.num_dims() {
                    if let Some(i) = node_1 {
                        s0.lemma_depth_unique(dn, i, b, b2);
                    } else if let Some(j) = node_2 {
                        s0.lemma_depth_unique(dn, j, b, b2);
                    }
                }
            }
        }
        if let None = node_1 {
            proof {
                if let Some(j) = node_2 {
                    if dn < s0.num_dims() {
                        assert(j < s0.slots(dn));
                    }
                }
            }
            proof {
                Self::lemma_held_refl(s0);
                Self::lemma_held_weaken(s0, s0, Set::empty(), opt_top(dn, node_2));
                s0.lemma_summary_at(dn, node_2);
            }
            return (node_2, self.get_summary_index(node_2, dim));
        }
        if let None = node_2 {
            proof {
                if let Some(i) = node_1 {
                    if dn < s0.num_dims() {
                        assert(i < s0.slots(dn));
                    }
                }
            }
            proof {
                Self::lemma_held_refl(s0);
                Self::lemma_held_weaken(s0, s0, Set::empty(), opt_top(dn, node_1));
                s0.lemma_summary_at(dn, node_1);
            }
            return (node_1, self.get_summary_index(node_1, dim));
        }
        let node_1 = node_1.unwrap();
        let node_2 = node_2.unwrap();
        if dim == self.dims.len() {
            let new_summary = {
                let node_1_summary = &self.summaries.values[node_1];
                let node_2_summary = &self.summaries.values[node_2];
                node_1_summary.mapply(node_2_summary)
            };
            let new_summary_index = self.store_summary(new_summary);
            proof {
                if dn > 0 {
                    assert forall|j: int| 0 <= j < self.slots((dn - 1) as nat) implies ((#[trigger] self.nodes_of(
                        (dn - 1) as nat,
                    )[j]).next matches Some(k) ==> k < s0.slots(dn)) by {
                        assert(self.nodes_of((dn - 1) as nat) == s0.nodes_of((dn - 1) as nat));
                        assert(s0.node_ptrs_ok((dn - 1) as nat, s0.nodes_of((dn - 1) as nat)[j]));
                    }
                }
                self.lemma_unreferenced(dn, new_summary_index, s0.slots(dn));
            }
            return (Some(new_summary_index), Some(new_summary_index));
        }
        proof {
            assert(node_1 < s0.slots(dn) && node_2 < s0.slots(dn));
        }
        let node_1_node = self.get_node(dim, node_1);
        let node_2_node = self.get_node(dim, node_2);
        let ghost w = s0.width_of(dn);
        let ghost cb = if b < w { b + 1 } else { b };
        proof {
            s0.lemma_depth_of(dn, node_1, b);
            assert(s0.merge_ready(dn, node_1_node.left, node_2_node.left, cb));
            if let Some(l) = node_1_node.left {
                s0.lemma_depth_of(dn, l, cb);
            } else if let Some(l) = node_2_node.left {
                s0.lemma_depth_of(dn, l, cb);
            }
        }
        let left_merge = self.merge(node_1_node.left, node_2_node.left, dim);
        let ghost s1 = *self;
        proof {
            s0.lemma_extends_keeps_opt(&s1, dn, node_1_node.right, cb);
            s0.lemma_extends_keeps_opt(&s1, dn, node_2_node.right, cb);
            assert(s1.width_of(dn) == w);
            assert(s1.merge_ready(dn, node_1_node.right, node_2_node.right, cb));
            if let Some(l) = node_1_node.right {
                s1.lemma_depth_of(dn, l, cb);
            } else if let Some(l) = node_2_node.right {
                s1.lemma_depth_of(dn, l, cb);
            }
        }
        let right_merge = self.merge(node_1_node.right, node_2_node.right, dim);
        let ghost s2 = *self;
        proof {
            s0.lemma_extends_trans(&s1, &s2);
            s0.lemma_counts_kept_trans(&s1, &s2);
            assert(s1.good_opt(dn, left_merge.0, cb));
            s1.lemma_extends_keeps_opt(&s2, dn, left_merge.0, cb);
            s0.lemma_extends_keeps_opt(&s2, dn + 1, node_1_node.next, 0);
            s0.lemma_extends_keeps_opt(&s2, dn + 1, node_2_node.next, 0);
        }
        let node_1_index = left_merge.0;
        let node_2_index = right_merge.0;
        let next_merge = match (node_1_index, node_2_index) {
            (None, None) => {
                proof {
                    assert(s2.merge_ready(dn + 1, node_1_node.next, node_2_node.next, 0));
                }
                self.merge(node_1_node.next, node_2_node.next, dim + 1)
            },
            (None, Some(node_2_merge_next)) => (self.dims[dim].at(node_2_merge_next).next, right_merge.1),
            (Some(node_1_merge_next), None) => (self.dims[dim].at(node_1_merge_next).next, left_merge.1),
            (Some(node_1_merge_next), Some(node_2_merge_next)) => {
                let node_1_merge_next_next = self.get_node(dim, node_1_merge_next).next;
                let node_2_merge_next_next = self.get_node(dim, node_2_merge_next).next;
                proof {
                    assert(s2.merge_ready(dn + 1, node_1_merge_next_next, node_2_merge_next_next, 0));
                }
                self.merge(node_1_merge_next_next, node_2_merge_next_next, dim + 1)
            },
        };
        let ghost s3 = *self;
        let new_node = NCDimNode { left: left_merge.0, right: right_merge.0, next: next_merge.0 };
        let new_index = self.attach(new_node, dim);
        proof {
            let s4 = *self;
            let x = left_merge.0;
            let y = right_merge.0;
            if !(x is None && y is None) && !(x is Some && y is Some) {
                s2.lemma_refl();
            }
            s0.lemma_extends_trans(&s2, &s3);
            s0.lemma_counts_kept_trans(&s2, &s3);
            s0.lemma_extends_trans(&s3, &s4);
            s0.lemma_counts_kept_trans(&s3, &s4);
            assert(s0.merge_ready(dn, node_1_node.left, node_2_node.left, cb));
            assert(s1.merge_ready(dn, node_1_node.right, node_2_node.right, cb));
            if x is None && y is None {
                assert(s2.merge_ready(dn + 1, node_1_node.next, node_2_node.next, 0));
            } else if x is Some && y is Some {
                assert(s2.merge_ready(dn + 1, s2.next_of(dn, x), s2.next_of(dn, y), 0));
            }
            Self::lemma_merged_node(s0, s1, s2, s3, s4, dn, b, cb, node_1, node_2, x, y, next_merge.0, new_index);
            if x is None && y is Some {
                s2.lemma_extends_keeps_opt(&s3, dn, y, cb);
            }
            if x is Some && y is None {
                s1.lemma_extends_keeps_opt(&s2, dn, x, cb);
            }
            s3.lemma_extends_keeps_opt(&s4, dn + 1, next_merge.0, 0);
            if dn > 0 {
                let e = (dn - 1) as nat;
                assert(s1.slots(e) == s0.slots(e));
                assert(s2.slots(e) == s1.slots(e));
                assert(s3.slots(e) == s2.slots(e));
                assert(s4.slots(e) == s3.slots(e));
                assert(s4.nodes_of(e) =~= s0.nodes_of(e));
            }
            s0.lemma_extends_slots(&s3, dn);
            Self::lemma_top_unreferenced(s0, s3, s4, dn, new_node, new_index);
            Self::lemma_merge_held(s0, s1, s2, s3, s4, dn, left_merge.0, right_merge.0, next_merge.0, new_index);
            s0.lemma_arenas_widths(&s1);
            s0.lemma_arenas_widths(&s2);
            let ws = s0.arenas().widths;
            assert((s1.arenas(), left_merge.0, left_merge.1) == s0.arenas().merged(ws, node_1_node.left, node_2_node.left, dn, cb));
            assert((s2.arenas(), right_merge.0, right_merge.1) == s1.arenas().merged(ws, node_1_node.right, node_2_node.right, dn, cb));
            if x is None && y is None {
                s0.lemma_arenas_widths(&s2);
                assert((s3.arenas(), next_merge.0, next_merge.1) == s2.arenas().merged(ws, node_1_node.next, node_2_node.next, dn + 1, 0));
            } else if x is Some && y is Some {
                assert((s3.arenas(), next_merge.0, next_merge.1) == s2.arenas().merged(ws, s2.next_of(dn, x), s2.next_of(dn, y), dn + 1, 0));
            }
            assert((s4.arenas(), Some(new_index), next_merge.1) == s0.arenas().merged(ws, Some(node_1), Some(node_2), dn, b));
        }
        (Some(new_index), next_merge.1)
    }

    /// Adds the point `addresses` with summary `summary` to the subtree at
    /// `current_node_index` of dimension `dim`, depth `bit`. Returns the new
    /// subtree, holding the old one's points and the new point, and a new
    /// subtree holding the new point alone. Both are new slots that nothing
    /// points at yet (the last two of the arena, or one fresh chain when there
    /// was no subtree); the first shares the old node's child on the side away
    /// from the point, the second is a chain of single children.
    #[verifier::spinoff_prover]
    #[verifier::rlimit(90)]
    pub fn insert(
        &mut self,
        summary: Summary,
        addresses: &Vec<usize>,
        dim: usize,
        bit: usize,
        current_node_index: Option<usize>,
    ) -> (r: (Option<usize>, Option<usize>))
        requires
            old(self).arenas_ok(),
            old(self).counts_ok(),
            old(self).widths_fit(dim as nat, bit as nat),
            addresses@.len() >= old(self).num_dims(),
            addresses@.len() == old(self).num_dims() || old(self).holds_point(
                addresses@,
                dim as nat,
                current_node_index,
                bit as nat,
            ),
            dim <= old(self).num_dims(),
            dim < old(self).num_dims() ==> bit <= old(self).width_of(dim as nat),
            dim == old(self).num_dims() ==> current_node_index is Some,
            old(self).good_opt(dim as nat, current_node_index, bit as nat),
        ensures
            final(self).arenas_ok(),
            final(self).counts_ok(),
            final(self).base_root == old(self).base_root,
            old(self).extends(final(self)),
            old(self).counts_kept(final(self)),
            r.0 matches Some(i) && final(self).good(dim as nat, i, bit as nat),
            r.1 matches Some(i) && final(self).good(dim as nat, i, bit as nat),
            forall|q: Seq<Seq<bool>>|
                #[trigger] final(self).eval(dim as nat, r.0, bit as nat, q) == ocombine(
                    old(self).eval(dim as nat, current_node_index, bit as nat, q),
                    old(self).single(addresses@, summary, dim as nat, bit as nat, q),
                ),
            forall|q: Seq<Seq<bool>>|
                #[trigger] final(self).eval(dim as nat, r.1, bit as nat, q) == old(self).single(
                    addresses@,
                    summary,
                    dim as nat,
                    bit as nat,
                    q,
                ),
            forall|d: nat| d < dim ==> #[trigger] final(self).slots(d) == old(self).slots(d),
            (r.0 == r.1) == (current_node_index is None && dim < old(self).num_dims()),
            final(self).counts_of(dim as nat)[r.0.unwrap() as int] == 0,
            final(self).counts_of(dim as nat)[r.1.unwrap() as int] == 0,
            dim == old(self).num_dims() ==> {
                &&& r == (Some((old(self).slots(dim as nat) + 1) as usize), Some(old(self).slots(dim as nat) as usize))
                &&& final(self).summaries.values@ == old(self).summaries.values@.push(summary).push(
                    Summary::op(summary, old(self).summaries.values@[current_node_index.unwrap() as int]),
                )
                &&& forall|d: nat| d < dim ==> #[trigger] final(self).nodes_of(d) == old(self).nodes_of(d)
            },
            dim < old(self).num_dims() && current_node_index is None ==> {
                &&& r.0 == Some(old(self).chain_slot(dim as nat, bit as nat) as usize)
                &&& old(self).chain_appended(final(self), addresses@, summary, dim as nat, bit as nat)
            },
            dim < old(self).num_dims() && current_node_index is Some ==> {
                &&& old(self).slots(dim as nat) <= r.0.unwrap()
                &&& r.0 == Some((final(self).slots(dim as nat) - 2) as usize)
                &&& r.1 == Some((final(self).slots(dim as nat) - 1) as usize)
            },
            old(self).counts_grown(final(self)),
            old(self).fresh_held(final(self), set![(dim as nat, r.0.unwrap()), (dim as nat, r.1.unwrap())]),
            final(self).single_chain(addresses@, dim as nat, r.1.unwrap(), bit as nat),
            old(self).ordered() ==> final(self).ordered(),
            (final(self).arenas(), r.0, r.1) == old(self).arenas().inserted(
                old(self).arenas().widths,
                summary,
                addresses@,
                dim as nat,
                bit as nat,
                current_node_index,
            ),
            current_node_index matches Some(c) ==> (dim < old(self).num_dims() && bit < old(self).width_of(dim as nat)
                ==> if addr_bit(addresses@[dim as int], old(self).width_of(dim as nat), bit as nat) {
                final(self).nodes_of(dim as nat)[r.0.unwrap() as int].left == old(self).nodes_of(dim as nat)[c as int].left
            } else {
                final(self).nodes_of(dim as nat)[r.0.unwrap() as int].right == old(self).nodes_of(dim as nat)[c as int].right
            }),
            current_node_index matches Some(c) ==> (dim < old(self).num_dims() && bit < old(self).width_of(dim as nat)
                ==> if addr_bit(addresses@[dim as int], old(self).width_of(dim as nat), bit as nat) {
                old(self).nodes_of(dim as nat)[c as int].right is None ==> final(self).nodes_of(dim as nat)[r.0.unwrap() as int].right
                    == final(self).nodes_of(dim as nat)[r.1.unwrap() as int].right && final(self).nodes_of(dim as nat)[r.1.unwrap() as int].right
                    == Some((final(self).slots(dim as nat) - 3) as usize)
            } else {
                old(self).nodes_of(dim as nat)[c as int].left is None ==> final(self).nodes_of(dim as nat)[r.0.unwrap() as int].left
                    == final(self).nodes_of(dim as nat)[r.1.unwrap() as int].left && final(self).nodes_of(dim as nat)[r.1.unwrap() as int].left
                    == Some((final(self).slots(dim as nat) - 3) as usize)
            }),
        decreases old(self).num_dims() - dim, old(self).width_of(dim as nat) - bit,
    {
        let ghost s0 = *self;
        let ghost addr = addresses@;
        let ghost dn = dim as nat;
        let ghost bn = bit as nat;
        if dim == self.dims.len() {
            // we bottomed out; just insert a summary and be done.
            let merged_summary = summary.mapply(&self.summaries.values[current_node_index.unwrap()]);
            let new_summary_index = self.store_summary(summary);
            let ghost s1 = *self;
            let merged_summary_index = self.store_summary(merged_summary);
            proof {
                s0.lemma_extends_trans(&s1, self);
                s0.lemma_counts_kept_trans(&s1, self);
                let old_v = s0.summaries.values@[current_node_index.unwrap() as int];
                Summary::lemma_op_commutative(summary, old_v);
                assert(self.summaries.values@[new_summary_index as int] == summary);
                if dn > 0 {
                    assert forall|j: int| 0 <= j < self.slots((dn - 1) as nat) implies ((#[trigger] self.nodes_of(
                        (dn - 1) as nat,
                    )[j]).next matches Some(k) ==> k < s0.slots(dn)) by {
                        assert(self.nodes_of((dn - 1) as nat) == s1.nodes_of((dn - 1) as nat));
                        assert(s1.nodes_of((dn - 1) as nat) == s0.nodes_of((dn - 1) as nat));
                        assert(s0.node_ptrs_ok((dn - 1) as nat, s0.nodes_of((dn - 1) as nat)[j]));
                    }
                }
                self.lemma_unreferenced(dn, new_summary_index, s0.slots(dn));
                self.lemma_unreferenced(dn, merged_summary_index, s0.slots(dn));
                assert(self.excess(dn, new_summary_index) == 0);
                assert(self.excess(dn, merged_summary_index) == 0);
                assert forall|d: nat| d < dn implies #[trigger] self.nodes_of(d) == s0.nodes_of(d) by {
                    assert(s1.nodes_of(d) == s0.nodes_of(d));
                }
                Self::lemma_grown_trans(s0, s1, *self);
                Self::lemma_held_compose(s0, s1, *self, set![(dn, new_summary_index)], set![(dn, merged_summary_index)],
                    set![(dn, merged_summary_index), (dn, new_summary_index)]);
            }
            return (Some(merged_summary_index), Some(new_summary_index));
        }
        if current_node_index.is_none() {
            let fresh_insert = self.insert_fresh_node(summary, addresses, dim, bit);
            proof {
                assert forall|q: Seq<Seq<bool>>|
                    #[trigger] self.eval(dn, fresh_insert.0, bn, q) == ocombine(
                        s0.eval(dn, current_node_index, bn, q),
                        s0.single(addr, summary, dn, bn, q),
                    ) by {
                    s0.lemma_matches_frame(self, addr, dn, bn, q);
                }
                Self::lemma_held_weaken(s0, *self, opt_top(dn, fresh_insert.0), set![(dn, fresh_insert.0.unwrap()), (dn, fresh_insert.0.unwrap())]);
            }
            return (fresh_insert.0, fresh_insert.0);
        }
        let current_node_index = current_node_index.unwrap();
        let width = self.dims[dim].width;
        proof {
            assert(s0.good(dn, current_node_index, bn));
        }
        let current_node = self.get_node(dim, current_node_index);
        let current_address = addresses[dim];
        let ghost cb: nat = if bn < width { bn + 1 } else { bn };
        let ghost rd: nat = if bn < width { dn } else { dn + 1 };
        let ghost rb: nat = if bn < width { bn + 1 } else { 0 };
        proof {
            if addresses@.len() != s0.num_dims() {
                let pq = s0.path_query(addr, dn, bn);
                if bn == width {
                    s0.lemma_path_leaf(addr, dn);
                    assert(s0.eval(dn, Some(current_node_index), bn, pq) == s0.eval(
                        dn + 1,
                        current_node.next,
                        0,
                        pq.drop_first(),
                    ));
                } else {
                    s0.lemma_path_step(addr, dn, bn);
                }
            }
        }
        let (where_to_insert, result) = if bit == width {
            // recurse into next dimension through next node
            (None, self.insert(summary, addresses, dim + 1, 0, current_node.next))
        } else {
            // recurse into current dimension through refinement nodes
            let w = get_bit(current_address, width - bit - 1);
            let refinement_node = if w {
                current_node.right
            } else {
                current_node.left
            };
            (Some(w), self.insert(summary, addresses, dim, bit + 1, refinement_node))
        };
        let ghost s1 = *self;
        let ghost oc = if where_to_insert is None {
            current_node.next
        } else if where_to_insert == Some(true) {
            current_node.right
        } else {
            current_node.left
        };
        let ghost other = if where_to_insert == Some(true) {
            current_node.left
        } else {
            current_node.right
        };
        proof {
            assert(s0.good_opt(rd, oc, rb));
            assert(s0.merge_ready(rd, oc, None, rb));
            s0.lemma_extends_keeps(&s1, dn + 1, current_node.next.unwrap(), 0);
            if where_to_insert is Some {
                s0.lemma_extends_keeps_opt(&s1, dn, current_node.left, bn + 1);
                s0.lemma_extends_keeps_opt(&s1, dn, current_node.right, bn + 1);
                if let Some(l) = current_node.left {
                    assert(s1.good(dn, l, bn + 1));
                }
                if let Some(r) = current_node.right {
                    assert(s1.good(dn, r, bn + 1));
                }
                assert(s1.good(dn, result.0.unwrap(), bn + 1));
                assert(s1.good(dn, result.1.unwrap(), bn + 1));
            }
        }
        let ghost mut mtop: Option<usize> = None;
        let new_node = match (current_node.left, current_node.right, where_to_insert) {
            (Some(_), None, Some(false)) => {
                let a_union_c = result.0;
                NCDimNode { left: a_union_c, right: None, next: self.get_node(dim, a_union_c.unwrap()).next }
            },
            (Some(_), None, Some(true)) => {
                let c = result.0;
                let n1 = self.get_node(dim, current_node.left.unwrap()).next;
                let n2 = self.get_node(dim, result.0.unwrap()).next;
                proof {
                    assert(s1.merge_ready(dn + 1, n1, n2, 0));
                }
                let an_union_cn = self.merge(n1, n2, dim + 1).0;
                proof {
                    mtop = an_union_cn;
                }
                NCDimNode { left: current_node.left, right: c, next: an_union_cn }
            },
            (None, Some(_), Some(false)) => {
                let c = result.0;
                let n1 = self.get_node(dim, current_node.right.unwrap()).next;
                let n2 = self.get_node(dim, result.0.unwrap()).next;
                proof {
                    assert(s1.merge_ready(dn + 1, n1, n2, 0));
                }
                let bn_union_cn = self.merge(n1, n2, dim + 1).0;
                proof {
                    mtop = bn_union_cn;
                }
                NCDimNode { left: c, right: current_node.right, next: bn_union_cn }
            },
            (None, Some(_), Some(true)) => {
                let b_union_c = result.0;
                NCDimNode { left: None, right: b_union_c, next: self.get_node(dim, b_union_c.unwrap()).next }
            },
            (Some(_), Some(_), Some(false)) => {
                let a_union_c = result.0;
                let c = result.1;
                let an_union_bn = current_node.next;
                let cn = self.get_node(dim, c.unwrap()).next;
                // Nanocubes summarise with commutative monoids, so the next
                // node can be (a union b) union c, where the freshly inserted
                // c is a single point: this merge is the cheap one.
                proof {
                    assert(s1.merge_ready(dn + 1, an_union_bn, cn, 0));
                }
                let an_union_bn_union_cn = self.merge(an_union_bn, cn, dim + 1).0;
                proof {
                    mtop = an_union_bn_union_cn;
                }
                NCDimNode { left: a_union_c, right: current_node.right, next: an_union_bn_union_cn }
            },
            (Some(_), Some(_), Some(true)) => {
                let b_union_c = result.0;
                let c = result.1;
                let an_union_bn = current_node.next;
                let cn = self.get_node(dim, c.unwrap()).next;
                proof {
                    assert(s1.merge_ready(dn + 1, an_union_bn, cn, 0));
                }
                let an_union_bn_union_cn = self.merge(an_union_bn, cn, dim + 1).0;
                proof {
                    mtop = an_union_bn_union_cn;
                }
                NCDimNode { left: current_node.left, right: b_union_c, next: an_union_bn_union_cn }
            },
            (None, None, None) => {
                NCDimNode { left: None, right: None, next: result.0 }
            },
            _ => {
                // leaves have no children and inner nodes have one
                proof {
                    assert(false);
                }
                NCDimNode { left: None, right: None, next: None }
            },
        };
        let ghost s2 = *self;
        proof {
            s0.lemma_arenas_widths(&s1);
            if where_to_insert is Some {
                assert((s2.arenas(), new_node) == Arenas::inserted_node(s1.arenas(), s0.arenas().widths, current_node, dn,
                    where_to_insert == Some(true), result.0.unwrap(), result.1.unwrap()));
            } else {
                assert(s2 == s1);
                assert(new_node == NCDimNode { left: None, right: None, next: result.0 });
            }
            assert((rd == dn && (new_node.left == result.0 || new_node.right == result.0)) || (rd == dn + 1
                && new_node.next == result.0));
            assert(mtop is Some ==> new_node.next == mtop);
            assert(s1.fresh_held(&s2, opt_top(dn + 1, mtop)) || s1 == s2);
            assert(s1.counts_grown(&s2) || s1 == s2);
        }
        let new_index = self.attach(new_node, dim);
        let ghost s3 = *self;
        let new_orphan_node = NCDimNode {
            left: if where_to_insert == Some(false) {
                result.1
            } else {
                None
            },
            right: if where_to_insert == Some(true) {
                result.1
            } else {
                None
            },
            next: if where_to_insert == None {
                result.1
            } else {
                self.get_node(dim, result.1.unwrap()).next
            },
        };
        let new_orphan_index = self.attach(new_orphan_node, dim);
        proof {
            let s4 = *self;
            let r0 = result.0.unwrap();
            let r1 = result.1.unwrap();
            if !(where_to_insert is Some && ((oc is None) || (oc is Some && other is Some))) {
                s1.lemma_refl();
            }
            if where_to_insert is Some && ((oc is None) || (oc is Some && other is Some)) {
                let (m1, m2) = if oc is None {
                    (s1.next_of(dn, other), s1.next_of(dn, Some(r0)))
                } else {
                    (current_node.next, s1.next_of(dn, Some(r1)))
                };
                assert(s1.merge_ready(dn + 1, m1, m2, 0));
            }
            s0.lemma_extends_trans(&s1, &s2);
            s0.lemma_counts_kept_trans(&s1, &s2);
            s0.lemma_extends_trans(&s2, &s3);
            s0.lemma_counts_kept_trans(&s2, &s3);
            s0.lemma_extends_trans(&s3, &s4);
            s0.lemma_counts_kept_trans(&s3, &s4);
            s1.lemma_extends_trans(&s2, &s3);
            s1.lemma_extends_trans(&s3, &s4);
            Self::lemma_insert_node(
                s0, s1, s2, s3, addr, summary, dn, bn, rd, rb, current_node_index,
                where_to_insert, oc, other, r0, r1, new_node.next, new_index,
            );
            s3.lemma_extends_keeps(&s4, dn, new_index, bn);
            Self::lemma_orphan_node(s0, s1, s4, addr, summary, dn, bn, rd, rb, where_to_insert, r1, new_orphan_index);
            Self::lemma_insert_held(s0, s1, s2, s3, s4, dn, rd, r0, r1, mtop, new_node, new_orphan_node, new_index, new_orphan_index);
            Self::lemma_orphan_chain(s1, s4, addr, dn, bn, rd, rb, where_to_insert, r1, new_orphan_index, new_orphan_node);
            Self::lemma_insert_arenas(s0, s1, s2, s3, s4, addr, summary, dn, bn, Some(current_node_index), current_node,
                where_to_insert, oc, result.0, result.1, new_node, new_orphan_node, new_index, new_orphan_index);
            Self::lemma_insert_tops(s0, s1, s2, s3, s4, dn, where_to_insert, r1, new_node, new_orphan_node, new_index, new_orphan_index);
        }
        (Some(new_index), Some(new_orphan_index))
    }

    /// Drops one reference to node `node_index` of dimension `dim`. A node
    /// whose count reaches zero is emptied and drops, in turn, the
    /// references that it held.
    #[verifier::spinoff_prover]
    #[verifier::rlimit(60)]
    pub fn release_node_ref(&mut self, node_index: Option<usize>, dim: usize)
        requires
            old(self).arenas_ok(),
            old(self).counts_ok(),
            old(self).ordered(),
            node_index is Some ==> dim <= old(self).num_dims(),
            node_index matches Some(i) ==> i < old(self).slots(dim as nat) && old(self).counts_of(dim as nat)[i as int] >= 1,
        ensures
            final(self).arenas_ok(),
            final(self).ordered(),
            (node_index matches Some(i) ==> old(self).excess(dim as nat, i) >= 1) ==> final(self).counts_ok(),
            final(self).base_root == old(self).base_root,
            old(self).same_frame(final(self)),
            final(self).summaries.values@ == old(self).summaries.values@,
            forall|d: nat| d <= old(self).num_dims() ==> #[trigger] final(self).slots(d) == old(self).slots(d),
            forall|d: nat, t: usize|
                d <= old(self).num_dims() && t < old(self).slots(d) ==> #[trigger] final(self).excess(d, t)
                    == old(self).excess(d, t) - if node_index == Some(t) && d == dim { 1int } else { 0 },
            forall|d: nat, t: usize|
                d <= old(self).num_dims() && t < old(self).slots(d) ==> #[trigger] final(self).counts_of(d)[t as int]
                    <= old(self).counts_of(d)[t as int],
            forall|d: nat, t: int|
                d < old(self).num_dims() && 0 <= t < old(self).slots(d) ==> #[trigger] final(self).nodes_of(d)[t]
                    == if old(self).counts_of(d)[t] > 0 && final(self).counts_of(d)[t] == 0 {
                    cleared()
                } else {
                    old(self).nodes_of(d)[t]
                },
            node_index is None ==> *final(self) == *old(self),
            node_index matches Some(i) ==> final(self).arenas() == old(self).arenas().released(
                seq![(i, dim)],
                old(self).arenas().fuel(),
            ),
            node_index matches Some(i) ==> exists|order: Seq<(usize, usize)>|
                #![trigger old(self).cascade_from((i, dim), order)]
                {
                    &&& old(self).cascade_from((i, dim), order)
                    &&& forall|d: nat, t: usize|
                        d < old(self).num_dims() && t < old(self).slots(d) && old(self).counts_of(d)[t as int] > 0
                            && #[trigger] final(self).counts_of(d)[t as int] == 0 ==> order.contains((t, d as usize))
                },
            node_index matches Some(i) ==> (old(self).counts_of(dim as nat)[i as int] > 1 ==> old(self).counts_but(
                final(self),
                dim as nat,
                old(self).counts_of(dim as nat).update(i as int, (old(self).counts_of(dim as nat)[i as int] - 1) as u128),
            )),
    {
        let ghost s0 = *self;
        let ghost nd = s0.num_dims();
        let ghost dn = dim as nat;
        proof {
            vstd::std_specs::vec::axiom_spec_len(&self.dims);
        }
        if let Some(node_index) = node_index {
            let mut stack = Vec::<(usize, usize)>::new();
            stack.push((node_index, dim));
            proof {
                assert forall|d: nat, t: usize|
                    d <= nd && t < s0.slots(d) implies #[trigger] self.counts_of(d)[t as int] == self.refs(d, t)
                        + s0.released_excess(node_index, dn, d, t) + occ(stack@, (t, d as usize)) by {
                    lemma_occ_push(Seq::empty(), (node_index, dim), (t, d as usize));
                    assert(Seq::<(usize, usize)>::empty().push((node_index, dim)) == stack@);
                    assert(((t, d as usize) == (node_index, dim)) == (t == node_index && d == dn));
                }
                assert(stack@[0] == (node_index, dim));
            }
            let ghost root = (node_index, dim);
            let ghost mut order: Seq<(usize, usize)> = Seq::empty();
            let ghost mut first = true;
            let ghost mut f: nat = s0.arenas().fuel();
            proof {
                s0.lemma_fuel_bound(nd);
                assert(s0.arenas().nodes.take(nd as int) =~= s0.arenas().nodes);
            }
            while stack.len() > 0
                invariant
                    self.num_dims() == nd,
                    s0.num_dims() == nd,
                    s0.counts_ok(),
                    dn <= nd,
                    node_index < s0.slots(dn),
                    s0.counts_of(dn)[node_index as int] >= 1,
                    s0.ordered(),
                    first ==> stack@ == seq![root] && self.counts_of(dn)[node_index as int] == s0.counts_of(dn)[node_index as int],
                    !first ==> forall|k: int| 0 <= k < stack@.len() ==> Self::below(#[trigger] stack@[k], root),
                    self.release_inv(&s0, node_index, dn, stack@, None),
                    dn == dim as nat,
                    root == (node_index, dim),
                    s0.arenas().released(seq![root], s0.arenas().fuel()) == self.arenas().released(stack@, f),
                    self.ptr_total(nd) + stack@.len() <= f,
                    s0.cascade_from(root, order),
                    forall|k: int| 0 <= k < stack@.len() ==> s0.reached(root, order, #[trigger] stack@[k]),
                    forall|e: nat, t: usize|
                        e < nd && t < s0.slots(e) && s0.counts_of(e)[t as int] > 0 && #[trigger] self.counts_of(e)[t as int]
                            == 0 ==> order.contains((t, e as usize)),
                    s0.counts_of(dn)[node_index as int] > 1 ==> if stack@.len() == 0 {
                        s0.counts_but(self, dn, s0.counts_of(dn).update(node_index as int, (s0.counts_of(dn)[node_index as int] - 1) as u128))
                    } else {
                        stack@ == seq![(node_index, dim)] && s0.counts_but(self, dn, s0.counts_of(dn))
                    },
                decreases self.ptr_total(nd) + stack@.len(),
            {
                let ghost before = *self;
                let ghost st0 = stack@;
                let (idx, d) = stack.pop().unwrap();
                proof {
                    assert(st0 == stack@.push((idx, d)));
                    assert(st0[st0.len() - 1] == (idx, d));
                    lemma_occ_push(stack@, (idx, d), (idx, d));
                    assert(st0[st0.len() - 1].1 <= nd && st0[st0.len() - 1].0 < s0.slots(st0[st0.len() - 1].1 as nat));
                    if first {
                        assert(st0 == seq![root]);
                        assert((idx, d) == root);
                    } else {
                        assert(Self::below(st0[st0.len() - 1], root));
                        assert(0 <= s0.released_excess(node_index, dn, d as nat, idx)) by {
                            assert(0 <= s0.excess(d as nat, idx));
                        }
                        assert(forall|k: int| 0 <= k < stack@.len() ==> Self::below(#[trigger] stack@[k], root)) by {
                            assert forall|k: int| 0 <= k < stack@.len() implies Self::below(#[trigger] stack@[k], root) by {
                                assert(stack@[k] == st0[k]);
                            }
                        }
                    }
                    assert(self.counts_of(d as nat)[idx as int] >= 1);
                    assert(s0.reached(root, order, st0[st0.len() - 1]));
                    assert forall|k: int| 0 <= k < stack@.len() implies s0.reached(root, order, #[trigger] stack@[k]) by {
                        assert(stack@[k] == st0[k]);
                    }
                }
                if d == self.dims.len() {
                    self.summaries.release_ref(idx);
                    proof {
                        assert forall|e: nat| e < nd implies #[trigger] self.dims@[e as int].nodes.wf()
                            && self.counts_of(e) == before.counts_of(e) by {
                            assert(self.dims@[e as int] == before.dims@[e as int]);
                        }
                        assert(self.counts_of(nd) == before.counts_of(nd).update(idx as int, (before.counts_of(nd)[idx as int] - 1) as u128));
                        assert forall|e: nat, j: int|
                            e < nd && 0 <= j < self.slots(e) implies self.node_ptrs_ok(e, #[trigger] self.nodes_of(e)[j]) by {
                            assert(before.node_ptrs_ok(e, before.nodes_of(e)[j]));
                        }
                        Self::lemma_release_dec(before, *self, s0, node_index, dn, st0, stack@, idx, d);
                        assert forall|e: nat, t: usize|
                            e < nd && t < s0.slots(e) && s0.counts_of(e)[t as int] > 0 && #[trigger] self.counts_of(
                                e,
                            )[t as int] == 0 implies order.contains((t, e as usize)) by {
                            assert(self.counts_of(e) == before.counts_of(e));
                        }
                        assert forall|e: nat| e < nd implies #[trigger] self.nodes_of(e) == before.nodes_of(e)
                            && self.width_of(e) == before.width_of(e) by {
                            assert(self.dims@[e as int] == before.dims@[e as int]);
                        }
                        Self::lemma_drop_ref_arenas(before, *self, nd, idx);
                        before.arenas().lemma_released_drop(st0, stack@, (idx, d), f);
                    }
                } else {
                    proof {
                        assert(self.dims@[d as int].nodes.wf());
                        assert(idx < s0.slots(d as nat));
                        assert(self.slots(d as nat) == s0.slots(d as nat));
                        assert(idx < self.dims@[d as int].nodes.values@.len());
                    }
                    let new_ref_count = self.dims[d].nodes.release_ref(idx);
                    let ghost mid = *self;
                    proof {
                        assert forall|e: nat| e < nd implies #[trigger] self.dims@[e as int].nodes.wf()
                            && self.nodes_of(e) == before.nodes_of(e) && self.width_of(e) == before.width_of(e)
                            && (e != d ==> self.counts_of(e) == before.counts_of(e)) by {
                            if e != d {
                                assert(self.dims@[e as int] == before.dims@[e as int]);
                            }
                        }
                        assert(self.counts_of(nd) == before.counts_of(nd));
                        assert(self.counts_of(d as nat) == before.counts_of(d as nat).update(idx as int, new_ref_count));
                        Self::lemma_drop_ref_arenas(before, *self, d as nat, idx);
                        assert(self.arenas().counts[d as int] == self.counts_of(d as nat));
                        assert forall|e: nat, j: int|
                            e < nd && 0 <= j < self.slots(e) implies self.node_ptrs_ok(e, #[trigger] self.nodes_of(e)[j]) by {
                            assert(before.node_ptrs_ok(e, before.nodes_of(e)[j]));
                            if e + 1 < nd {
                                assert(self.nodes_of(e + 1) == before.nodes_of(e + 1));
                            }
                        }
                        Self::lemma_release_dec(before, *self, s0, node_index, dn, st0, stack@, idx, d);
                        if s0.counts_of(dn)[node_index as int] > 1 {
                            assert(st0 == seq![(node_index, dim)]);
                            assert(before.counts_of(dn) == s0.counts_of(dn));
                        }
                    }
                    if new_ref_count == 0 {
                        let ghost sp0 = stack@;
                        let ghost nb = self.nodes_of(d as nat)[idx as int];
                        proof {
                            if s0.counts_of(dn)[node_index as int] > 1 {
                                assert(st0 == seq![(node_index, dim)]);
                                assert(before.counts_of(dn) == s0.counts_of(dn));
                            }
                            assert(self.slots(d as nat) == s0.slots(d as nat));
                            assert(idx < self.dims@[d as int].nodes.values@.len());
                        }
                        let node = self.dims[d].at_mut(idx);
                        if let Some(left) = node.left {
                            stack.push((left, d));
                        }
                        if let Some(right) = node.right {
                            stack.push((right, d));
                        }
                        if let Some(next) = node.next {
                            stack.push((next, d + 1));
                        }
                        node.left = None;
                        node.right = None;
                        node.next = None;
                        proof {
                            assert forall|e: nat| e < nd implies (#[trigger] self.dims@[e as int]).nodes.wf()
                                && self.width_of(e) == mid.width_of(e)
                                && (e != d ==> self.nodes_of(e) == mid.nodes_of(e))
                                && self.counts_of(e) == mid.counts_of(e) by {
                                if e != d {
                                    assert(self.dims@[e as int] == mid.dims@[e as int]);
                                }
                            }
                            Self::lemma_release_clear(mid, *self, s0, node_index, dn, sp0, stack@, idx, d, nb);
                            assert(self.counts_of(nd) == mid.counts_of(nd));
                            Self::lemma_clear_arenas(mid, *self, d as nat, idx);
                            assert(before.arenas().nodes[d as int] == before.nodes_of(d as nat));
                            before.arenas().lemma_released_clear(st0, sp0, (idx, d), f, stack@);
                            let x = (idx, d);
                            s0.lemma_cascade_clear(root, order, sp0, x);
                            assert(stack@ =~= sp0 + Self::kids(s0.nodes_of(d as nat)[idx as int], x));
                            assert forall|k: int| 0 <= k < stack@.len() implies Self::below(#[trigger] stack@[k], root) by {
                                if k < sp0.len() {
                                    assert(stack@[k] == sp0[k]);
                                } else {
                                    assert(s0.points_to(x, stack@[k]));
                                    s0.lemma_points_below(x, stack@[k]);
                                }
                            }
                            Self::lemma_contains_push(order, x);
                            assert forall|e: nat, t: usize|
                                e < nd && t < s0.slots(e) && s0.counts_of(e)[t as int] > 0 && #[trigger] self.counts_of(
                                    e,
                                )[t as int] == 0 implies order.push(x).contains((t, e as usize)) by {
                                assert(self.counts_of(e) == mid.counts_of(e));
                                if !(e == d && t == idx) {
                                    assert(mid.counts_of(e)[t as int] == before.counts_of(e)[t as int]);
                                }
                            }
                            order = order.push(x);
                        }
                    } else {
                        proof {
                            assert forall|e: nat, t: usize|
                                e < nd && t < s0.slots(e) && s0.counts_of(e)[t as int] > 0 && #[trigger] self.counts_of(
                                    e,
                                )[t as int] == 0 implies order.contains((t, e as usize)) by {
                                if !(e == d && t == idx) {
                                    assert(self.counts_of(e)[t as int] == before.counts_of(e)[t as int]);
                                }
                            }
                            before.arenas().lemma_released_drop(st0, stack@, (idx, d), f);
                        }
                    }
                }
                proof {
                    if s0.counts_of(dn)[node_index as int] > 1 {
                        assert(dn as usize == dim);
                        Self::lemma_release_single(before, *self, s0, node_index, dn, st0, stack@, idx, d as nat);
                    }
                    first = false;
                    f = (f - 1) as nat;
                }
            }
            proof {
                assert forall|d: nat, t: usize|
                    d <= nd && t < s0.slots(d) implies #[trigger] self.excess(d, t) == s0.excess(d, t) - if Some(
                        node_index,
                    ) == Some(t) && d == dn {
                        1int
                    } else {
                        0
                    } by {
                    assert(occ(stack@, (t, d as usize)) == 0);
                }
            }
        }
        proof {
            if node_index is None {
                assert forall|d: nat, t: int|
                    d < nd && 0 <= t < s0.slots(d) implies #[trigger] self.nodes_of(d)[t]
                        == if s0.counts_of(d)[t] > 0 && self.counts_of(d)[t] == 0 {
                        cleared()
                    } else {
                        s0.nodes_of(d)[t]
                    } by {
                }
            }
        }
    }

    /// Adds the point `addresses` with summary `summary`: afterwards every
    /// query is answered with its old answer combined with the new summary
    /// when the point lies in the queried region.
    #[verifier::spinoff_prover]
    #[verifier::rlimit(40)]
    pub fn add(&mut self, summary: Summary, addresses: &Vec<usize>)
        requires
            old(self).inv(),
            old(self).widths_fit(0, 0),
            addresses@.len() >= old(self).num_dims(),
            addresses@.len() == old(self).num_dims() || old(self).holds_point(
                addresses@,
                0,
                old(self).base_root,
                0,
            ),
        ensures
            final(self).inv(),
            old(self).same_frame(final(self)),
            forall|q: Seq<Seq<bool>>|
                #[trigger] final(self).eval(0, final(self).base_root, 0, q) == ocombine(
                    old(self).eval(0, old(self).base_root, 0, q),
                    old(self).single(addresses@, summary, 0, 0, q),
                ),
            forall|d: nat| d <= old(self).num_dims() ==> #[trigger] final(self).slots(d) >= old(self).slots(d),
            old(self).base_root is None ==> {
                &&& final(self).base_root == Some(old(self).chain_slot(0, 0) as usize)
                &&& old(self).chain_appended(final(self), addresses@, summary, 0, 0)
            },
            old(self).base_root is Some ==> final(self).base_root == Some((final(self).slots(0) - 2) as usize),
            (final(self).arenas(), final(self).base_root) == old(self).arenas().added(summary, addresses@, old(self).base_root),
    {
        let ghost s0 = *self;
        let ghost nd = s0.num_dims();
        let base = self.base_root;
        let (result_base, orphan_node) = self.insert(summary, addresses, 0, 0, base);
        let ghost s1 = *self;
        let r0 = result_base.unwrap();
        let r1 = orphan_node.unwrap();
        proof {
            assert(s1.good(0, r0, 0));
            assert(s1.good(0, r1, 0));
            assert(0 <= s1.excess(0, r0) <= 1) by {
                if r0 < s0.slots(0) {
                    assert(s0.excess(0, r0) <= 1);
                }
            }
            s1.lemma_count_room(0, r0, 0);
        }
        self.make_node_ref(result_base, 0);
        let ghost s2 = *self;
        proof {
            assert(s1.refs(0, r0) == s2.refs(0, r0));
            if let Some(b) = base {
                assert(s0.excess(0, b) == 1);
                assert(s1.excess(0, b) == 1);
                assert(s2.refs(0, b) == s1.refs(0, b));
                assert(s2.excess(0, b) >= 1);
            }
            assert forall|d: nat, t: usize| d <= nd && t < s2.slots(d) implies 0 <= #[trigger] s2.excess(d, t) <= 2 by {
                assert(s2.refs(d, t) == s1.refs(d, t));
                assert(s2.slots(d) == s1.slots(d));
                assert(s1.excess(d, t) == if t < s0.slots(d) { s0.excess(d, t) } else { 0 });
                if t < s0.slots(d) {
                    assert(s0.excess(d, t) <= 1);
                }
                if !(d == 0 && t == r0) {
                    assert(s2.counts_of(d)[t as int] == s1.counts_of(d)[t as int]);
                }
            }
        }
        self.release_node_ref(base, 0);
        let ghost s3 = *self;
        proof {
            s1.lemma_same_but_counts_extends(&s2);
            s1.lemma_extends_keeps(&s2, 0, r0, 0);
            assert(s3.excess(0, r0) >= 1) by {
                assert(s1.excess(0, r0) == if r0 < s0.slots(0) { s0.excess(0, r0) } else { 0 });
                if base == Some(r0) {
                    assert(s0.excess(0, r0) == 1);
                }
            }
            assert(s3.counts_of(0)[r0 as int] >= 1);
            Self::lemma_release_keeps_tree(s2, s3, 0, r0, 0);
            s2.lemma_good_agree(&s3, 0, r0, 0);
            assert forall|q: Seq<Seq<bool>>| #[trigger] s3.eval(0, Some(r0), 0, q) == s1.eval(0, Some(r0), 0, q) by {
                s2.lemma_eval_agree(&s3, 0, r0, 0, q);
            }
        }
        self.base_root = result_base;
        let ghost s4 = *self;
        proof {
            assert(s3.extends(&s4));
            s3.lemma_extends_keeps(&s4, 0, r0, 0);
            assert forall|d: nat, t: usize| d <= nd && t < s4.slots(d) implies 0 <= #[trigger] s4.excess(d, t) <= 2 by {
                assert(s4.excess(d, t) == s3.excess(d, t));
                assert(s2.excess(d, t) <= 2);
            }
            assert(r1 < s4.slots(0));
            s4.lemma_count_room(0, r1, 0);
        }
        self.make_node_ref(orphan_node, 0);
        let ghost s5 = *self;
        proof {
            assert(s5.refs(0, r1) == s4.refs(0, r1));
            assert forall|d: nat, t: usize|
                d <= nd && t < s5.slots(d) implies 0 <= #[trigger] s5.excess(d, t) <= u64::MAX by {
                assert(s5.refs(d, t) == s4.refs(d, t));
                assert(s4.excess(d, t) <= 2);
                if !(d == 0 && t == r1) {
                    assert(s5.counts_of(d)[t as int] == s4.counts_of(d)[t as int]);
                }
            }
            s4.lemma_same_but_counts_extends(&s5);
            s4.lemma_extends_keeps(&s5, 0, r0, 0);
            assert(s4.excess(0, r1) >= 0);
            assert(s5.counts_of(0)[r1 as int] == s4.counts_of(0)[r1 as int] + 1);
            assert(s5.excess(0, r1) >= 1);
        }
        self.release_node_ref(orphan_node, 0);
        proof {
            let s6 = *self;
            assert(s2.released_to(&s3));
            assert(s5.released_to(&s6));
            Self::lemma_add_dead_cleared(s0, s1, s2, s3, s4, s5, s6, r0, r1);
            Self::lemma_add_arenas(s0, s1, s2, s3, s4, s5, s6, summary, addresses@, base, r0, r1);
            assert forall|d: nat| d <= nd implies #[trigger] s6.slots(d) >= s0.slots(d) by {
                s0.lemma_extends_slots(&s1, d);
                if d < nd {
                    assert(s2.nodes_of(d) == s1.nodes_of(d));
                    assert(s5.nodes_of(d) == s4.nodes_of(d));
                }
                assert(s2.slots(d) == s1.slots(d));
                assert(s3.slots(d) == s2.slots(d));
                assert(s4.slots(d) == s3.slots(d));
                assert(s5.slots(d) == s4.slots(d));
                assert(s6.slots(d) == s5.slots(d));
            }
            if base is None {
                assert(r1 == r0);
                assert(s5.counts_of(0)[r0 as int] > 1);
                assert forall|d: nat| d < nd implies #[trigger] s6.nodes_of(d) == s1.nodes_of(d) by {
                    assert forall|t: int| 0 <= t < s1.slots(d) implies s6.nodes_of(d)[t] == s1.nodes_of(d)[t] by {
                        assert(s5.nodes_of(d)[t] == s1.nodes_of(d)[t]);
                        if !(d == 0 && t == r0) {
                            assert(s6.counts_of(d)[t] == s5.counts_of(d)[t]);
                        }
                    }
                    assert(s6.nodes_of(d) =~= s1.nodes_of(d));
                }
                Self::lemma_chain_kept(s0, s1, s6, addresses@, summary, 0, 0);
            }
            assert forall|d: nat, t: usize|
                d <= nd && t < s6.slots(d) implies #[trigger] s6.excess(d, t) == if d == 0 && s6.base_root
                    == Some(t) {
                1int
            } else {
                0int
            } by {
                assert(s5.refs(d, t) == s4.refs(d, t));
                if !(d == 0 && t == r1) {
                    assert(s5.counts_of(d)[t as int] == s4.counts_of(d)[t as int]);
                }
                assert(s4.excess(d, t) == s3.excess(d, t));
                assert(s2.refs(d, t) == s1.refs(d, t));
                if !(d == 0 && t == r0) {
                    assert(s2.counts_of(d)[t as int] == s1.counts_of(d)[t as int]);
                }
                assert(s1.excess(d, t) == if t < s0.slots(d) { s0.excess(d, t) } else { 0 });
            }
            assert(s6.base_root == Some(r0));
            assert(s6.excess(0, r0) == 1);
            assert(s6.counts_of(0)[r0 as int] >= 1);
            Self::lemma_release_keeps_tree(s5, s6, 0, r0, 0);
            s5.lemma_good_agree(&s6, 0, r0, 0);
            assert forall|q: Seq<Seq<bool>>| #[trigger] s6.eval(0, Some(r0), 0, q) == s1.eval(0, Some(r0), 0, q) by {
                s5.lemma_eval_agree(&s6, 0, r0, 0, q);
            }
            assert forall|q: Seq<Seq<bool>>|
                #[trigger] s6.eval(0, s6.base_root, 0, q) == ocombine(
                    s0.eval(0, s0.base_root, 0, q),
                    s0.single(addresses@, summary, 0, 0, q),
                ) by {
                assert(s6.eval(0, Some(r0), 0, q) == s1.eval(0, Some(r0), 0, q));
            }
            Self::lemma_same_frame_trans(s0, s1, s3);
            Self::lemma_same_frame_trans(s0, s3, s5);
            Self::lemma_same_frame_trans(s0, s5, s6);
        }
    }
}

} // verus!

verus! {

/// Builds the nanocube of dimensions of the given widths that holds every
/// point of `data`, each counted once.
pub fn test_nanocube(dims: Vec<usize>, data: &Vec<Vec<usize>>) -> (nc: Nanocube<usize>)
    requires
        dims.len() > 0,
        data.len() > 0 ==> forall|d: int| 0 <= d < dims.len() ==> #[trigger] dims@[d] <= usize::BITS,
        forall|k: int|
            0 <= k < data.len() ==> (#[trigger] data@[k])@.len() >= dims.len() && (data@[k]@.len()
                == dims.len() || exists|j: int| 0 <= j < k && same_cell(dims@, data@[j]@, data@[k]@)),
    ensures
        nc.inv(),
        nc.num_dims() == dims.len(),
        forall|d: nat| d < dims.len() ==> #[trigger] nc.width_of(d) == dims@[d as int],
        forall|q: Seq<Seq<bool>>|
            #[trigger] nc.eval(0, nc.base_root, 0, q) == nc.points_eval(data.deep_view(), 1, q),
        data.len() == 1 ==> nc.lone_point(data@[0]@, 1),
        (nc.arenas(), nc.base_root) == built(dims@.map_values(|w: usize| w as nat), data.deep_view()),
{
    let ghost widths = dims@;
    let ghost ws = dims@.map_values(|w: usize| w as nat);
    let mut nc = Nanocube::<usize>::new(dims);
    let ghost s0 = nc;
    proof {
        let e = empty_arenas::<usize>(ws);
        assert forall|d: nat| d <= s0.num_dims() implies #[trigger] e.counts[d as int] == s0.counts_of(d) by {
            assert(s0.slots(d) == 0);
            if d < s0.num_dims() {
                assert(s0.dims@[d as int].nodes.wf());
            }
            assert(s0.counts_of(d) =~= Seq::<u128>::empty());
        }
        assert forall|d: nat| d < s0.num_dims() implies #[trigger] e.nodes[d as int] == s0.nodes_of(d) by {
            assert(s0.slots(d) == 0);
            assert(s0.nodes_of(d) =~= Seq::<NCDimNode>::empty());
        }
        assert(s0.slots(s0.num_dims()) == 0);
        assert(s0.summaries.values@ =~= Seq::<usize>::empty());
        Nanocube::<usize>::lemma_arenas_of(s0, e);
        assert(data.deep_view().take(0) =~= Seq::<Seq<usize>>::empty());
    }
    let mut k: usize = 0;
    while k < data.len()
        invariant
            k <= data.len(),
            nc.inv(),
            s0.same_frame(&nc),
            nc.num_dims() == widths.len(),
            forall|d: nat| d < widths.len() ==> #[trigger] nc.width_of(d) == widths[d as int],
            data.len() > 0 ==> forall|d: int| 0 <= d < widths.len() ==> #[trigger] widths[d] <= usize::BITS,
            forall|j: int|
                0 <= j < data.len() ==> (#[trigger] data@[j])@.len() >= widths.len() && (data@[j]@.len()
                    == widths.len() || exists|i: int| 0 <= i < j && same_cell(widths, data@[i]@, data@[j]@)),
            forall|q: Seq<Seq<bool>>|
                #[trigger] nc.eval(0, nc.base_root, 0, q) == s0.points_eval(data.deep_view().take(k as int), 1, q),
            s0.base_root is None,
            forall|d: nat| d <= s0.num_dims() ==> #[trigger] s0.slots(d) == 0,
            k == 0 ==> nc == s0,
            k == 1 ==> nc.lone_point(data@[0]@, 1),
            (nc.arenas(), nc.base_root) == built(ws, data.deep_view().take(k as int)),
            ws == widths.map_values(|w: usize| w as nat),
        decreases data.len() - k,
    {
        let ghost before = nc;
        proof {
            assert forall|d: nat| d < nc.num_dims() implies #[trigger] nc.width_of(d) <= usize::BITS by {
                assert(widths[d as int] <= usize::BITS);
            }
            let a = data@[k as int]@;
            if a.len() != widths.len() {
                let j = choose|j: int| 0 <= j < k && same_cell(widths, data@[j]@, a);
                let pq = nc.path_query(a, 0, 0);
                nc.lemma_matches_own_cell(widths, data@[j]@, a, 0, 0);
                let pts = data.deep_view().take(k as int);
                assert(pts[j] == data@[j]@);
                nc.lemma_points_eval_some(pts, 1, pq, j);
                s0.lemma_points_eval_frame(&nc, pts, 1, pq);
            }
        }
        nc.add(1, &data[k]);
        proof {
            let pts = data.deep_view().take(k + 1);
            assert(pts.drop_last() =~= data.deep_view().take(k as int));
            assert(pts.last() == data@[k as int]@);
            assert forall|q: Seq<Seq<bool>>|
                #[trigger] nc.eval(0, nc.base_root, 0, q) == s0.points_eval(pts, 1, q) by {
                s0.lemma_matches_frame(&before, data@[k as int]@, 0, 0, q);
            }
            assert forall|d: nat| d < widths.len() implies #[trigger] nc.width_of(d) == widths[d as int] by {
                assert(before.width_of(d) == nc.width_of(d));
            }
            assert forall|d: nat| d < s0.num_dims() implies #[trigger] s0.width_of(d) == nc.width_of(d) by {
                assert(s0.width_of(d) == before.width_of(d));
            }
            if k == 0 {
                Nanocube::<usize>::lemma_lone_point(s0, nc, data@[0]@, 1);
            }
            assert(pts.drop_last() =~= data.deep_view().take(k as int));
        }
        k = k + 1;
    }
    proof {
        assert(data.deep_view().take(data.len() as int) =~= data.deep_view());
        assert forall|q: Seq<Seq<bool>>|
            #[trigger] nc.eval(0, nc.base_root, 0, q) == nc.points_eval(data.deep_view(), 1, q) by {
            s0.lemma_points_eval_frame(&nc, data.deep_view(), 1, q);
        }
    }
    nc
}

/// The three nanocubes of the smoke test, over two dimensions of width 2:
/// the points (1, 0); (1, 0), (1, 3); and (1, 0), (1, 3), (1, 2).
pub fn smoke_test() -> (r: Vec<Nanocube<usize>>)
    ensures
        r.len() == 3,
        forall|k: int| 0 <= k < 3 ==> (#[trigger] r@[k]).inv() && r@[k].num_dims() == 2 && r@[k].width_of(0) == 2
            && r@[k].width_of(1) == 2,
        r@[0].lone_point(seq![1usize, 0], 1),
        forall|q: Seq<Seq<bool>>|
            #[trigger] r@[0].eval(0, r@[0].base_root, 0, q) == r@[0].points_eval(seq![seq![1usize, 0]], 1, q),
        forall|q: Seq<Seq<bool>>|
            #[trigger] r@[1].eval(0, r@[1].base_root, 0, q) == r@[1].points_eval(
                seq![seq![1usize, 0], seq![1usize, 3]],
                1,
                q,
            ),
        forall|q: Seq<Seq<bool>>|
            #[trigger] r@[2].eval(0, r@[2].base_root, 0, q) == r@[2].points_eval(
                seq![seq![1usize, 0], seq![1usize, 3], seq![1usize, 2]],
                1,
                q,
            ),
        (r@[0].arenas(), r@[0].base_root) == built(seq![2nat, 2nat], seq![seq![1usize, 0]]),
        (r@[1].arenas(), r@[1].base_root) == built(seq![2nat, 2nat], seq![seq![1usize, 0], seq![1usize, 3]]),
        (r@[2].arenas(), r@[2].base_root) == built(
            seq![2nat, 2nat],
            seq![seq![1usize, 0], seq![1usize, 3], seq![1usize, 2]],
        ),
{
    let mut r: Vec<Nanocube<usize>> = Vec::new();
    let data0 = vec![vec![1, 0]];
    proof {
        assert(data0.deep_view() =~~= seq![seq![1usize, 0]]);
    }
    let w0: Vec<usize> = vec![2, 2];
    proof {
        assert(w0@.map_values(|w: usize| w as nat) =~= seq![2nat, 2nat]);
    }
    r.push(test_nanocube(w0, &data0));
    let data1 = vec![vec![1, 0], vec![1, 3]];
    proof {
        assert(data1.deep_view() =~~= seq![seq![1usize, 0], seq![1usize, 3]]);
    }
    let w1: Vec<usize> = vec![2, 2];
    proof {
        assert(w1@.map_values(|w: usize| w as nat) =~= seq![2nat, 2nat]);
    }
    r.push(test_nanocube(w1, &data1));
    let data2 = vec![vec![1, 0], vec![1, 3], vec![1, 2]];
    proof {
        assert(data2.deep_view() =~~= seq![seq![1usize, 0], seq![1usize, 3], seq![1usize, 2]]);
    }
    let w2: Vec<usize> = vec![2, 2];
    proof {
        assert(w2@.map_values(|w: usize| w as nat) =~= seq![2nat, 2nat]);
    }
    r.push(test_nanocube(w2, &data2));
    r
}

} // verus!
