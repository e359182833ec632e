//! The mathematical reading of a nanocube.
//!
//! A query is a sequence with one entry per remaining dimension; each entry
//! is the prefix of bits that selects a region of that dimension. The value
//! of a query at a node is the combination of the summaries of every point
//! under the node that lies in the selected region (`None` when there is
//! none).

use vstd::prelude::*;
use crate::cube::Monoid;
use crate::nanocube::{bit_set, NCDimNode, Nanocube};
use crate::counting::{sum_hits, PtrKind};

verus! {

/// Combination of two optional summaries; `None` is the empty region.
pub open spec fn ocombine<S: Monoid>(x: Option<S>, y: Option<S>) -> Option<S> {
    match (x, y) {
        (None, _) => y,
        (_, None) => x,
        (Some(a), Some(b)) => Some(S::op(a, b)),
    }
}

pub proof fn lemma_ocombine_comm<S: Monoid>(x: Option<S>, y: Option<S>)
    ensures
        ocombine(x, y) == ocombine(y, x),
{
    if let (Some(a), Some(b)) = (x, y) {
        S::lemma_op_commutative(a, b);
    }
}

pub proof fn lemma_ocombine_assoc<S: Monoid>(x: Option<S>, y: Option<S>, z: Option<S>)
    ensures
        ocombine(ocombine(x, y), z) == ocombine(x, ocombine(y, z)),
{
    if let (Some(a), Some(b), Some(c)) = (x, y, z) {
        S::lemma_op_associative(a, b, c);
    }
}

/// Regrouping four summaries: (a b)(c d) = (a c)(b d).
pub proof fn lemma_ocombine_swap<S: Monoid>(a: Option<S>, b: Option<S>, c: Option<S>, d: Option<S>)
    ensures
        ocombine(ocombine(a, b), ocombine(c, d)) == ocombine(ocombine(a, c), ocombine(b, d)),
{
    lemma_ocombine_assoc(a, b, ocombine(c, d));
    lemma_ocombine_assoc(b, c, d);
    lemma_ocombine_comm(b, c);
    lemma_ocombine_assoc(c, b, d);
    lemma_ocombine_assoc(a, c, ocombine(b, d));
}

/// Bit of an address that is refined at depth `bit` of a dimension of the
/// given width: the most significant of the width's bits comes first.
pub open spec fn addr_bit(a: usize, width: nat, bit: nat) -> bool {
    bit_set(a, (width - bit - 1) as usize)
}

/// Points `a` and `b` fall in the same cell of dimensions of the given
/// widths: every address bit that the cube refines agrees.
pub open spec fn same_cell(widths: Seq<usize>, a: Seq<usize>, b: Seq<usize>) -> bool {
    forall|d: int, i: nat|
        0 <= d < widths.len() && i < widths[d] ==> #[trigger] addr_bit(a[d], widths[d] as nat, i)
            == addr_bit(b[d], widths[d] as nat, i)
}

impl<S> Nanocube<S> {
    pub open spec fn num_dims(&self) -> nat {
        self.dims@.len()
    }

    pub open spec fn width_of(&self, d: nat) -> nat {
        self.dims@[d as int].width as nat
    }

    pub open spec fn nodes_of(&self, d: nat) -> Seq<NCDimNode> {
        self.dims@[d as int].nodes.values@
    }

    /// Reference counts of the arena of dimension `d`; the arena below the
    /// last dimension is that of the summaries.
    pub open spec fn counts_of(&self, d: nat) -> Seq<u128> {
        if d < self.num_dims() {
            self.dims@[d as int].nodes.ref_counts@
        } else {
            self.summaries.ref_counts@
        }
    }

    pub open spec fn slots(&self, d: nat) -> nat {
        if d < self.num_dims() {
            self.nodes_of(d).len()
        } else {
            self.summaries.values@.len()
        }
    }

    pub open spec fn node_ptrs_ok(&self, d: nat, n: NCDimNode) -> bool {
        &&& (n.left matches Some(l) ==> l < self.slots(d))
        &&& (n.right matches Some(r) ==> r < self.slots(d))
        &&& (n.next matches Some(k) ==> k < self.slots(d + 1))
    }

    /// Every arena is a well-formed counted vector and every pointer held by
    /// any node names a slot.
    pub open spec fn arenas_ok(&self) -> bool {
        &&& self.summaries.wf()
        &&& forall|d: nat| d < self.num_dims() ==> (#[trigger] self.dims@[d as int]).nodes.wf()
        &&& forall|d: nat, j: int|
            d < self.num_dims() && 0 <= j < self.slots(d) ==> self.node_ptrs_ok(
                d,
                #[trigger] self.nodes_of(d)[j],
            )
    }

    /// How many pointers held by nodes name slot `t` of arena `d`.
    pub open spec fn refs(&self, d: nat, t: usize) -> nat {
        (if d < self.num_dims() {
            sum_hits(self.nodes_of(d), PtrKind::Child, t)
        } else {
            0
        }) + (if d > 0 {
            sum_hits(self.nodes_of((d - 1) as nat), PtrKind::Next, t)
        } else {
            0
        })
    }

    /// How many pointers the nodes of the first `k` dimensions hold.
    pub open spec fn ptr_total(&self, k: nat) -> nat
        decreases k,
    {
        if k == 0 {
            0
        } else {
            self.ptr_total((k - 1) as nat) + sum_hits(self.nodes_of((k - 1) as nat), PtrKind::Any, 0)
        }
    }

    /// References to slot `t` of arena `d` that no node holds.
    pub open spec fn excess(&self, d: nat, t: usize) -> int {
        self.counts_of(d)[t as int] - self.refs(d, t)
    }

    /// Every count covers the pointers to its slot, with a bounded surplus.
    pub open spec fn counts_ok(&self) -> bool {
        forall|d: nat, t: usize|
            d <= self.num_dims() && t < self.slots(d) ==> 0 <= #[trigger] self.excess(d, t)
                <= u64::MAX
    }

    /// The slot that `next` of node `i` of dimension `d` names, if any.
    pub open spec fn next_of(&self, d: nat, i: Option<usize>) -> Option<usize> {
        match i {
            None => None,
            Some(i) => self.nodes_of(d)[i as int].next,
        }
    }

    /// The value of query `q` at node `i` of dimension `d`, refined to
    /// depth `bit`.
    pub open spec fn eval(&self, d: nat, i: Option<usize>, bit: nat, q: Seq<Seq<bool>>) -> Option<
        S,
    >
        decreases self.num_dims() - d, self.width_of(d) - bit,
    {
        match i {
            None => None,
            Some(i) => if d >= self.num_dims() {
                Some(self.summaries.values@[i as int])
            } else if bit >= self.width_of(d) || q.len() == 0 || q[0].len() == 0 {
                self.eval(d + 1, self.nodes_of(d)[i as int].next, 0, q.drop_first())
            } else {
                let n = self.nodes_of(d)[i as int];
                self.eval(
                    d,
                    if q[0][0] {
                        n.right
                    } else {
                        n.left
                    },
                    bit + 1,
                    q.update(0, q[0].drop_first()),
                )
            },
        }
    }

    /// Whether the point with the given addresses lies in the region that
    /// query `q` selects from dimension `d`, depth `bit`, on.
    pub open spec fn matches(&self, addr: Seq<usize>, d: nat, bit: nat, q: Seq<Seq<bool>>) -> bool
        decreases self.num_dims() - d, self.width_of(d) - bit,
    {
        if d >= self.num_dims() {
            true
        } else if bit >= self.width_of(d) || q.len() == 0 || q[0].len() == 0 {
            self.matches(addr, d + 1, 0, q.drop_first())
        } else {
            q[0][0] == addr_bit(addr[d as int], self.width_of(d), bit) && self.matches(
                addr,
                d,
                bit + 1,
                q.update(0, q[0].drop_first()),
            )
        }
    }

    /// The query that selects exactly the cell of the point `addr`, from
    /// dimension `d`, depth `bit`, on.
    pub open spec fn path_query(&self, addr: Seq<usize>, d: nat, bit: nat) -> Seq<Seq<bool>> {
        Seq::new(
            (self.num_dims() - d) as nat,
            |k: int|
                if k == 0 {
                    Seq::new(
                        (self.width_of(d) - bit) as nat,
                        |j: int| addr_bit(addr[d as int], self.width_of(d), (bit + j) as nat),
                    )
                } else {
                    Seq::new(
                        self.width_of((d + k) as nat),
                        |j: int| addr_bit(addr[d + k], self.width_of((d + k) as nat), j as nat),
                    )
                },
        )
    }

    /// Depth at which a fresh chain started at dimension `dim`, depth `bit`,
    /// enters dimension `d`.
    pub open spec fn chain_start(dim: nat, bit: nat, d: nat) -> nat {
        if d == dim {
            bit
        } else {
            0
        }
    }

    /// How many slots a fresh chain started at dimension `dim`, depth `bit`,
    /// appends to arena `d`: one node per depth, one summary at the bottom.
    pub open spec fn chain_added(&self, dim: nat, bit: nat, d: nat) -> nat {
        if d < dim {
            0
        } else if d < self.num_dims() {
            (self.width_of(d) + 1 - Self::chain_start(dim, bit, d)) as nat
        } else {
            1
        }
    }

    /// The slot of the chain node at depth `b` of dimension `d`, for a chain
    /// appended to `self`: the deepest node comes first, the summary after
    /// the last dimension's existing summaries.
    pub open spec fn chain_slot(&self, d: nat, b: nat) -> nat {
        if d < self.num_dims() {
            (self.slots(d) + self.width_of(d) - b) as nat
        } else {
            self.slots(d)
        }
    }

    /// The chain node at depth `b` of dimension `d`: one child, on the side
    /// of the point's bit, that is the next node of the chain; `next` is the
    /// top of the chain in the next dimension.
    pub open spec fn chain_node(&self, addr: Seq<usize>, d: nat, b: nat) -> NCDimNode {
        let w = self.width_of(d);
        let below = if b < w {
            Some(self.chain_slot(d, b + 1) as usize)
        } else {
            None
        };
        let go_right = b < w && addr_bit(addr[d as int], w, b);
        NCDimNode {
            left: if go_right { None } else { below },
            right: if go_right { below } else { None },
            next: Some(self.chain_slot(d + 1, 0) as usize),
        }
    }

    /// `other` is `self` with the fresh chain of the point `addr` with summary
    /// `v`, started at dimension `dim`, depth `bit`, appended, and nothing else.
    pub open spec fn chain_appended(&self, other: &Self, addr: Seq<usize>, v: S, dim: nat, bit: nat) -> bool {
        &&& forall|d: nat|
            d <= self.num_dims() ==> #[trigger] other.slots(d) == self.slots(d) + self.chain_added(dim, bit, d)
        &&& forall|d: nat, b: nat|
            dim <= d < self.num_dims() && Self::chain_start(dim, bit, d) <= b <= self.width_of(d)
                ==> #[trigger] other.nodes_of(d)[self.chain_slot(d, b) as int] == self.chain_node(addr, d, b)
        &&& other.summaries.values@[self.slots(self.num_dims()) as int] == v
    }

    /// A point at `addr` is already under node `i`: the query of its cell
    /// has an answer.
    pub open spec fn holds_point(&self, addr: Seq<usize>, d: nat, i: Option<usize>, bit: nat) -> bool {
        self.eval(d, i, bit, self.path_query(addr, d, bit)) is Some
    }

    /// The value of query `q` for a single point of summary `v`.
    pub open spec fn single(&self, addr: Seq<usize>, v: S, d: nat, bit: nat, q: Seq<Seq<bool>>) -> Option<S> {
        if self.matches(addr, d, bit, q) {
            Some(v)
        } else {
            None
        }
    }

    /// The value of query `q` over the points `pts` (addresses for every
    /// dimension), each of summary `v`.
    pub open spec fn points_eval(&self, pts: Seq<Seq<usize>>, v: S, q: Seq<Seq<bool>>) -> Option<S>
        where S: Monoid,
        decreases pts.len(),
    {
        if pts.len() == 0 {
            None
        } else {
            ocombine(self.points_eval(pts.drop_last(), v, q), self.single(pts.last(), v, 0, 0, q))
        }
    }

    /// The summary slot reached from node `i` of dimension `d` by following
    /// `next` pointers.
    pub open spec fn summary_of(&self, d: nat, i: Option<usize>) -> Option<usize>
        decreases self.num_dims() - d,
    {
        match i {
            None => None,
            Some(i) => if d >= self.num_dims() {
                Some(i)
            } else {
                self.summary_of(d + 1, self.nodes_of(d)[i as int].next)
            },
        }
    }
}

impl<S: Monoid> Nanocube<S> {
    /// Node `i` of dimension `d` is the well-formed root of a subtree at depth
    /// `bit`: leaves sit exactly at the dimension's width, inner nodes have a
    /// child, every node has a `next`, the `next` of an inner node with one
    /// child is that child's `next` itself, and the `next` of an inner node
    /// answers every query as the union of its children's `next`s.
    pub open spec fn good(&self, d: nat, i: usize, bit: nat) -> bool
        decreases self.num_dims() - d, self.width_of(d) - bit,
    {
        if d >= self.num_dims() {
            i < self.slots(d)
        } else if bit > self.width_of(d) || i >= self.slots(d) {
            false
        } else {
            let n = self.nodes_of(d)[i as int];
            &&& n.next is Some
            &&& self.good(d + 1, n.next.unwrap(), 0)
            &&& if bit == self.width_of(d) {
                n.left is None && n.right is None
            } else {
                &&& (n.left is Some || n.right is Some)
                &&& (n.left is Some ==> self.good(d, n.left.unwrap(), bit + 1))
                &&& (n.right is Some ==> self.good(d, n.right.unwrap(), bit + 1))
                &&& (n.left is None ==> n.next == self.next_of(d, n.right))
                &&& (n.right is None ==> n.next == self.next_of(d, n.left))
                &&& forall|q: Seq<Seq<bool>>|
                    #[trigger] self.eval(d + 1, n.next, 0, q) == ocombine(
                        self.eval(d + 1, self.next_of(d, n.left), 0, q),
                        self.eval(d + 1, self.next_of(d, n.right), 0, q),
                    )
            }
        }
    }

    pub open spec fn good_opt(&self, d: nat, i: Option<usize>, bit: nat) -> bool {
        match i {
            None => true,
            Some(i) => self.good(d, i, bit),
        }
    }

    /// The depth at which node `i` of dimension `d` is well formed.
    pub open spec fn depth_of(&self, d: nat, i: usize) -> nat {
        choose|b: nat| self.good(d, i, b)
    }

    /// The depth of a pair of optional nodes that are merged; the width of
    /// the dimension when there is no node.
    pub open spec fn merge_depth(&self, d: nat, n1: Option<usize>, n2: Option<usize>) -> nat {
        match (n1, n2) {
            (Some(i), _) => self.depth_of(d, i),
            (None, Some(j)) => self.depth_of(d, j),
            (None, None) => self.width_of(d),
        }
    }

    /// Both nodes, where present, are well formed at depth `b`.
    pub open spec fn merge_ready(&self, d: nat, n1: Option<usize>, n2: Option<usize>, b: nat) -> bool {
        &&& (d < self.num_dims() ==> b <= self.width_of(d))
        &&& self.good_opt(d, n1, b)
        &&& self.good_opt(d, n2, b)
    }

    /// A node is well formed at one depth only.
    pub proof fn lemma_depth_unique(&self, d: nat, i: usize, b1: nat, b2: nat)
        requires
            d < self.num_dims(),
            self.good(d, i, b1),
            self.good(d, i, b2),
        ensures
            b1 == b2,
        decreases self.width_of(d) - b1,
    {
        let n = self.nodes_of(d)[i as int];
        if b1 < self.width_of(d) && b2 < self.width_of(d) {
            if let Some(l) = n.left {
                self.lemma_depth_unique(d, l, b1 + 1, b2 + 1);
            } else {
                self.lemma_depth_unique(d, n.right.unwrap(), b1 + 1, b2 + 1);
            }
        }
    }

    pub proof fn lemma_depth_of(&self, d: nat, i: usize, b: nat)
        requires
            d < self.num_dims(),
            self.good(d, i, b),
        ensures
            self.depth_of(d, i) == b,
    {
        let c = self.depth_of(d, i);
        assert(self.good(d, i, c));
        self.lemma_depth_unique(d, i, b, c);
    }
}

impl<S> Nanocube<S> {
    /// Refining one bit of the point's own path leaves the path from the
    /// next depth.
    pub proof fn lemma_path_step(&self, addr: Seq<usize>, d: nat, bit: nat)
        requires
            d < self.num_dims(),
            bit < self.width_of(d),
        ensures
            ({
                let q = self.path_query(addr, d, bit);
                &&& q.len() > 0
                &&& q[0].len() > 0
                &&& q[0][0] == addr_bit(addr[d as int], self.width_of(d), bit)
                &&& q.update(0, q[0].drop_first()) == self.path_query(addr, d, bit + 1)
            }),
    {
        let q = self.path_query(addr, d, bit);
        let q2 = self.path_query(addr, d, bit + 1);
        assert(q[0].drop_first() =~= q2[0]);
        assert(q.update(0, q[0].drop_first()) =~= q2);
    }

    /// At the leaves of a dimension the point's path continues in the next.
    pub proof fn lemma_path_leaf(&self, addr: Seq<usize>, d: nat)
        requires
            d < self.num_dims(),
        ensures
            ({
                let q = self.path_query(addr, d, self.width_of(d));
                &&& q.len() > 0
                &&& q[0].len() == 0
                &&& q.drop_first() == self.path_query(addr, d + 1, 0)
            }),
    {
        let q = self.path_query(addr, d, self.width_of(d));
        let q2 = self.path_query(addr, d + 1, 0);
        assert forall|k: int| 0 <= k < q2.len() implies q.drop_first()[k] == q2[k] by {
            if k == 0 {
                assert(q.drop_first()[k] =~= q2[k]);
            } else {
                assert((d + (k + 1)) as nat == ((d + 1) + k) as nat);
                assert(q.drop_first()[k] =~= q2[k]);
            }
        }
        assert(q.drop_first() =~= q2);
    }

    /// A point lies in the region of another point's own cell when the two
    /// share it.
    pub proof fn lemma_matches_own_cell(&self, widths: Seq<usize>, a: Seq<usize>, b: Seq<usize>, d: nat, bit: nat)
        requires
            widths.len() == self.num_dims(),
            forall|e: nat| e < self.num_dims() ==> #[trigger] self.width_of(e) == widths[e as int],
            same_cell(widths, a, b),
            d <= self.num_dims(),
            d < self.num_dims() ==> bit <= self.width_of(d),
        ensures
            self.matches(a, d, bit, self.path_query(b, d, bit)),
        decreases self.num_dims() - d, self.width_of(d) - bit,
    {
        if d < self.num_dims() {
            if bit == self.width_of(d) {
                self.lemma_path_leaf(b, d);
                self.lemma_matches_own_cell(widths, a, b, d + 1, 0);
            } else {
                self.lemma_path_step(b, d, bit);
                assert(addr_bit(a[d as int], widths[d as int] as nat, bit) == addr_bit(b[d as int], widths[d as int] as nat, bit));
                self.lemma_matches_own_cell(widths, a, b, d, bit + 1);
            }
        }
    }
}

impl<S: Monoid> Nanocube<S> {
    /// Some point of `pts` in the queried region gives the query an answer.
    pub proof fn lemma_points_eval_some(&self, pts: Seq<Seq<usize>>, v: S, q: Seq<Seq<bool>>, j: int)
        requires
            0 <= j < pts.len(),
            self.matches(pts[j], 0, 0, q),
        ensures
            self.points_eval(pts, v, q) is Some,
        decreases pts.len(),
    {
        if j < pts.len() - 1 {
            self.lemma_points_eval_some(pts.drop_last(), v, q, j);
        }
    }
}

} // verus!
