//! The layout of a fresh chain: one more node on top of a chain already
//! appended keeps the chain's shape.

use vstd::prelude::*;
use crate::model::addr_bit;
use crate::nanocube::{NCDimNode, Nanocube};

verus! {

impl<S> Nanocube<S> {
    /// Node `i` of dimension `d`, at depth `bit`, is a chain that holds the
    /// single point `addr`: one child per depth, on the side of the point's
    /// bit, whose `next` it shares, down to a leaf whose `next` is such a
    /// chain in the next dimension, and so on to a summary.
    pub open spec fn single_chain(&self, addr: Seq<usize>, d: nat, i: usize, bit: nat) -> bool
        decreases self.num_dims() - d, self.width_of(d) - bit,
    {
        if d >= self.num_dims() {
            i < self.slots(d)
        } else if bit > self.width_of(d) || i >= self.slots(d) {
            false
        } else {
            let n = self.nodes_of(d)[i as int];
            if bit == self.width_of(d) {
                &&& n.left is None
                &&& n.right is None
                &&& n.next is Some
                &&& self.single_chain(addr, d + 1, n.next.unwrap(), 0)
            } else {
                let right = addr_bit(addr[d as int], self.width_of(d), bit);
                let c = if right { n.right } else { n.left };
                &&& (if right { n.left } else { n.right }) is None
                &&& c is Some
                &&& n.next == self.nodes_of(d)[c.unwrap() as int].next
                &&& self.single_chain(addr, d, c.unwrap(), bit + 1)
            }
        }
    }

    /// Appending slots keeps a chain as it was.
    pub proof fn lemma_single_chain_extends(&self, other: &Self, addr: Seq<usize>, d: nat, i: usize, bit: nat)
        requires
            self.extends(other),
            d <= self.num_dims(),
            self.single_chain(addr, d, i, bit),
        ensures
            other.single_chain(addr, d, i, bit),
        decreases self.num_dims() - d, self.width_of(d) - bit,
    {
        if d < self.num_dims() {
            let n = self.nodes_of(d)[i as int];
            assert(other.nodes_of(d)[i as int] == n);
            assert(other.width_of(d) == self.width_of(d));
            if bit == self.width_of(d) {
                self.lemma_single_chain_extends(other, addr, d + 1, n.next.unwrap(), 0);
            } else {
                let right = addr_bit(addr[d as int], self.width_of(d), bit);
                let c = (if right { n.right } else { n.left }).unwrap();
                assert(self.single_chain(addr, d, c, bit + 1));
                assert(c < self.slots(d));
                assert(other.nodes_of(d)[c as int] == self.nodes_of(d)[c as int]);
                self.lemma_single_chain_extends(other, addr, d, c, bit + 1);
            }
        } else {
            self.lemma_extends_slots(other, d);
        }
    }
}

impl<S> Nanocube<S> {
    /// Appending the chain node of depth `bit` of dimension `dim` on top of
    /// the chain started one step further down (depth `bit + 1`, or the top
    /// of the next dimension when `bit` is the width) gives the chain
    /// started at `dim`, `bit`.
    pub proof fn lemma_chain_grow(
        s0: Self,
        s1: Self,
        s2: Self,
        addr: Seq<usize>,
        v: S,
        dim: nat,
        bit: nat,
        idim: nat,
        ibit: nat,
    )
        requires
            dim < s0.num_dims(),
            bit <= s0.width_of(dim),
            (bit < s0.width_of(dim) && idim == dim && ibit == bit + 1) || (bit == s0.width_of(dim)
                && idim == dim + 1 && ibit == 0),
            s0.extends(&s1),
            s1.extends(&s2),
            s0.chain_appended(&s1, addr, v, idim, ibit),
            forall|d: nat|
                d <= s0.num_dims() ==> #[trigger] s2.slots(d) == s1.slots(d) + if d == dim {
                    1nat
                } else {
                    0nat
                },
            s2.nodes_of(dim)[s1.slots(dim) as int] == s0.chain_node(addr, dim, bit),
        ensures
            s0.chain_appended(&s2, addr, v, dim, bit),
    {
        let nd = s0.num_dims();
        assert forall|d: nat| d <= nd implies #[trigger] s2.slots(d) == s0.slots(d) + s0.chain_added(
            dim,
            bit,
            d,
        ) by {
            assert(s1.slots(d) == s0.slots(d) + s0.chain_added(idim, ibit, d));
        }
        assert forall|d: nat, b: nat|
            dim <= d < nd && Self::chain_start(dim, bit, d) <= b <= s0.width_of(d) implies #[trigger] s2.nodes_of(
            d,
        )[s0.chain_slot(d, b) as int] == s0.chain_node(addr, d, b) by {
            assert(s1.slots(d) == s0.slots(d) + s0.chain_added(idim, ibit, d));
            if d == dim && b == bit {
                assert(s0.chain_slot(d, b) == s1.slots(d));
            } else {
                assert(s1.nodes_of(d)[s0.chain_slot(d, b) as int] == s0.chain_node(addr, d, b));
                assert(s0.chain_slot(d, b) < s1.slots(d));
                assert(s0.width_of(d) == s1.width_of(d));
            }
        }
        assert(s1.summaries.values@[s0.slots(nd) as int] == v);
        assert(s1.slots(nd) == s0.slots(nd) + 1);
    }

    /// A chain stays appended while slots, nodes and summaries stay as they
    /// are.
    pub proof fn lemma_chain_kept(s0: Self, s1: Self, s2: Self, addr: Seq<usize>, v: S, dim: nat, bit: nat)
        requires
            s0.chain_appended(&s1, addr, v, dim, bit),
            s0.num_dims() == s1.num_dims(),
            forall|d: nat| d <= s0.num_dims() ==> #[trigger] s2.slots(d) == s1.slots(d),
            forall|d: nat| d < s0.num_dims() ==> #[trigger] s2.nodes_of(d) == s1.nodes_of(d),
            s2.summaries.values@ == s1.summaries.values@,
        ensures
            s0.chain_appended(&s2, addr, v, dim, bit),
    {
        assert forall|d: nat| d <= s0.num_dims() implies #[trigger] s2.slots(d) == s0.slots(d) + s0.chain_added(dim, bit, d) by {
            assert(s1.slots(d) == s0.slots(d) + s0.chain_added(dim, bit, d));
        }
        assert forall|d: nat, b: nat|
            dim <= d < s0.num_dims() && Self::chain_start(dim, bit, d) <= b <= s0.width_of(d) implies #[trigger] s2.nodes_of(
            d,
        )[s0.chain_slot(d, b) as int] == s0.chain_node(addr, d, b) by {
            assert(s1.nodes_of(d)[s0.chain_slot(d, b) as int] == s0.chain_node(addr, d, b));
            assert(s2.nodes_of(d) == s1.nodes_of(d));
        }
    }

    /// The node that `insert` builds for the new point alone, on top of the
    /// chain `r1` (at depth `rb` of arena `rd`) that its recursive call
    /// returned, is a chain too.
    pub proof fn lemma_orphan_chain(
        s1: Self,
        s4: Self,
        addr: Seq<usize>,
        dn: nat,
        bn: nat,
        rd: nat,
        rb: nat,
        wh: Option<bool>,
        r1: usize,
        oidx: usize,
        orphan: NCDimNode,
    )
        requires
            dn < s1.num_dims(),
            bn <= s1.width_of(dn),
            s1.extends(&s4),
            (bn == s1.width_of(dn)) == (wh is None),
            wh matches Some(t) ==> t == addr_bit(addr[dn as int], s1.width_of(dn), bn),
            rd == if wh is None { dn + 1 } else { dn },
            rb == if wh is None { 0 } else { bn + 1 },
            s1.single_chain(addr, rd, r1, rb),
            oidx < s4.slots(dn),
            s4.nodes_of(dn)[oidx as int] == orphan,
            orphan.left == (if wh == Some(false) { Some(r1) } else { None }),
            orphan.right == (if wh == Some(true) { Some(r1) } else { None }),
            orphan.next == (if wh is None { Some(r1) } else { s4.nodes_of(dn)[r1 as int].next }),
        ensures
            s4.single_chain(addr, dn, oidx, bn),
    {
        s1.lemma_single_chain_extends(&s4, addr, rd, r1, rb);
        assert(s4.width_of(dn) == s1.width_of(dn));
    }

    /// The node of depth `b` of dimension `d` of a cube that holds the single
    /// point `addr` alone: its child is the node one depth further, on the
    /// point's side, and its `next` the top of the next dimension.
    pub open spec fn lone_node(&self, addr: Seq<usize>, d: nat, b: nat) -> NCDimNode {
        let w = self.width_of(d);
        let below = if b < w {
            Some((w - b - 1) as usize)
        } else {
            None
        };
        let go_right = b < w && addr_bit(addr[d as int], w, b);
        NCDimNode {
            left: if go_right { None } else { below },
            right: if go_right { below } else { None },
            next: Some(
                if d + 1 < self.num_dims() {
                    self.width_of(d + 1) as usize
                } else {
                    0usize
                },
            ),
        }
    }

    /// The cube holds the point `addr`, of summary `v`, alone, as the first
    /// point added to an empty cube is stored: in dimension `d` the node of
    /// depth `b` sits at slot `width - b`, the root is the top of the first
    /// dimension, and the one summary is `v`.
    pub open spec fn lone_point(&self, addr: Seq<usize>, v: S) -> bool {
        &&& self.base_root == Some(self.width_of(0) as usize)
        &&& forall|d: nat| d < self.num_dims() ==> #[trigger] self.slots(d) == self.width_of(d) + 1
        &&& self.summaries.values@ == seq![v]
        &&& forall|d: nat, b: nat|
            d < self.num_dims() && b <= self.width_of(d) ==> #[trigger] self.nodes_of(d)[self.width_of(d) - b]
                == self.lone_node(addr, d, b)
    }

    /// A chain appended to a cube with no slot is a lone point.
    pub proof fn lemma_lone_point(e: Self, c: Self, addr: Seq<usize>, v: S)
        requires
            e.num_dims() > 0,
            e.same_frame(&c),
            forall|d: nat| d <= e.num_dims() ==> #[trigger] e.slots(d) == 0,
            e.chain_appended(&c, addr, v, 0, 0),
            c.base_root == Some(e.chain_slot(0, 0) as usize),
        ensures
            c.lone_point(addr, v),
    {
        let nd = e.num_dims();
        assert(c.slots(nd) == 1) by {
            assert(c.slots(nd) == e.slots(nd) + e.chain_added(0, 0, nd));
        }
        assert(c.summaries.values@ =~= seq![v]);
        assert forall|d: nat| d < nd implies #[trigger] c.slots(d) == c.width_of(d) + 1 by {
            assert(c.slots(d) == e.slots(d) + e.chain_added(0, 0, d));
        }
        assert forall|d: nat, b: nat| d < nd && b <= c.width_of(d) implies #[trigger] c.nodes_of(d)[c.width_of(d) - b]
            == c.lone_node(addr, d, b) by {
            assert(c.width_of(d) == e.width_of(d));
            if d + 1 < nd {
                assert(c.width_of(d + 1) == e.width_of(d + 1));
            }
            assert(e.chain_slot(d, b) == c.width_of(d) - b);
            assert(c.nodes_of(d)[e.chain_slot(d, b) as int] == e.chain_node(addr, d, b));
        }
        assert(c.width_of(0) == e.width_of(0));
    }
}

} // verus!
