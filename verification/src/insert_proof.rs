//! Correctness of the two nodes that `insert` builds over the result of its
//! recursive call: the node holding the old points and the new one, and the
//! node holding the new point alone.

use vstd::prelude::*;
use crate::cube::Monoid;
use crate::model::{addr_bit, lemma_ocombine_assoc, lemma_ocombine_comm, ocombine};
use crate::nanocube::{NCDimNode, Nanocube};

verus! {

impl<S: Monoid> Nanocube<S> {
    /// The node holding only the new point, built in `sn` from the subtree
    /// `r1` (at depth `rb` of dimension `rd`) that holds the new point alone.
    pub proof fn lemma_orphan_node(
        s0: Self,
        s1: Self,
        sn: Self,
        addr: Seq<usize>,
        v: S,
        dn: nat,
        b: nat,
        rd: nat,
        rb: nat,
        wh: Option<bool>,
        r1: usize,
        oidx: usize,
    )
        requires
            dn < s0.num_dims(),
            b <= s0.width_of(dn),
            s0.extends(&s1),
            s1.extends(&sn),
            (b == s0.width_of(dn)) == (wh is None),
            wh matches Some(t) ==> t == addr_bit(addr[dn as int], s0.width_of(dn), b),
            rd == if wh is None { dn + 1 } else { dn },
            rb == if wh is None { 0 } else { b + 1 },
            s1.good(rd, r1, rb),
            forall|q: Seq<Seq<bool>>| #[trigger] s1.eval(rd, Some(r1), rb, q) == s0.single(addr, v, rd, rb, q),
            oidx < sn.slots(dn),
            sn.nodes_of(dn)[oidx as int] == (NCDimNode {
                left: if wh == Some(false) { Some(r1) } else { None },
                right: if wh == Some(true) { Some(r1) } else { None },
                next: if wh is None { Some(r1) } else { s1.next_of(dn, Some(r1)) },
            }),
        ensures
            sn.good(dn, oidx, b),
            forall|q: Seq<Seq<bool>>| #[trigger] sn.eval(dn, Some(oidx), b, q) == s0.single(addr, v, dn, b, q),
    {
        let w = s0.width_of(dn);
        s0.lemma_extends_trans(&s1, &sn);
        assert(sn.width_of(dn) == w);
        s1.lemma_extends_keeps(&sn, rd, r1, rb);
        let o = sn.nodes_of(dn)[oidx as int];
        if wh is Some {
            assert(s1.nodes_of(dn)[r1 as int].next is Some);
            s1.lemma_extends_keeps(&sn, dn + 1, s1.nodes_of(dn)[r1 as int].next.unwrap(), 0);
            assert(sn.next_of(dn, Some(r1)) == o.next);
        }
        assert(sn.good(dn, oidx, b));
        assert forall|q: Seq<Seq<bool>>| #[trigger] sn.eval(dn, Some(oidx), b, q) == s0.single(addr, v, dn, b, q) by {
            s0.lemma_matches_frame(&sn, addr, dn, b, q);
            if b >= w || q.len() == 0 || q[0].len() == 0 {
                let qd = q.drop_first();
                assert(sn.eval(dn, Some(oidx), b, q) == sn.eval(dn + 1, o.next, 0, qd));
                assert(s0.matches(addr, dn, b, q) == s0.matches(addr, dn + 1, 0, qd));
                if wh is Some {
                    assert(s1.eval(dn, Some(r1), b + 1, q) == s1.eval(dn + 1, o.next, 0, qd));
                    assert(s0.matches(addr, dn, b + 1, q) == s0.matches(addr, dn + 1, 0, qd));
                    assert(s1.eval(dn, Some(r1), b + 1, q) == s0.single(addr, v, dn, b + 1, q));
                }
            } else {
                let q2 = q.update(0, q[0].drop_first());
                assert(s0.matches(addr, dn, b, q) == (q[0][0] == addr_bit(addr[dn as int], w, b)
                    && s0.matches(addr, dn, b + 1, q2)));
                if Some(q[0][0]) == wh {
                    assert(sn.eval(dn, Some(oidx), b, q) == sn.eval(dn, Some(r1), b + 1, q2));
                    assert(s1.eval(dn, Some(r1), b + 1, q2) == s0.single(addr, v, dn, b + 1, q2));
                } else {
                    assert(sn.eval(dn, Some(oidx), b, q) == sn.eval(dn, None, b + 1, q2));
                }
            }
        }
    }

    /// The node holding the old points of node `c` (depth `b` of dimension
    /// `dn` of `s0`) and the new point, built in `sn` from the recursive
    /// result `r0` (old child `oc` plus the point), the orphan `r1` (the
    /// point alone) and the new `next` `nm`.
    pub proof fn lemma_insert_node(
        s0: Self,
        s1: Self,
        s2: Self,
        sn: Self,
        addr: Seq<usize>,
        v: S,
        dn: nat,
        b: nat,
        rd: nat,
        rb: nat,
        c: usize,
        wh: Option<bool>,
        oc: Option<usize>,
        other: Option<usize>,
        r0: usize,
        r1: usize,
        nm: Option<usize>,
        nidx: usize,
    )
        requires
            dn < s0.num_dims(),
            s0.good(dn, c, b),
            s0.extends(&s1),
            s1.extends(&s2),
            s2.extends(&sn),
            (b == s0.width_of(dn)) == (wh is None),
            wh matches Some(t) ==> t == addr_bit(addr[dn as int], s0.width_of(dn), b),
            rd == if wh is None { dn + 1 } else { dn },
            rb == if wh is None { 0 } else { b + 1 },
            oc == if wh is None {
                s0.nodes_of(dn)[c as int].next
            } else if wh == Some(true) {
                s0.nodes_of(dn)[c as int].right
            } else {
                s0.nodes_of(dn)[c as int].left
            },
            other == if wh == Some(true) {
                s0.nodes_of(dn)[c as int].left
            } else {
                s0.nodes_of(dn)[c as int].right
            },
            s1.good(rd, r0, rb),
            s1.good(rd, r1, rb),
            forall|q: Seq<Seq<bool>>| #[trigger] s1.eval(rd, Some(r0), rb, q) == ocombine(
                s0.eval(rd, oc, rb, q),
                s0.single(addr, v, rd, rb, q),
            ),
            forall|q: Seq<Seq<bool>>| #[trigger] s1.eval(rd, Some(r1), rb, q) == s0.single(addr, v, rd, rb, q),
            nm is Some,
            wh is None ==> s2 == s1 && nm == Some(r0),
            (wh is Some && oc is Some && other is None) ==> s2 == s1 && nm == s1.next_of(dn, Some(r0)),
            (wh is Some && oc is None) ==> {
                &&& s2.good_opt(dn + 1, nm, 0)
                &&& forall|q: Seq<Seq<bool>>| #[trigger] s2.eval(dn + 1, nm, 0, q) == ocombine(
                    s1.eval(dn + 1, s1.next_of(dn, other), 0, q),
                    s1.eval(dn + 1, s1.next_of(dn, Some(r0)), 0, q),
                )
            },
            (wh is Some && oc is Some && other is Some) ==> {
                &&& s2.good_opt(dn + 1, nm, 0)
                &&& forall|q: Seq<Seq<bool>>| #[trigger] s2.eval(dn + 1, nm, 0, q) == ocombine(
                    s1.eval(dn + 1, s0.nodes_of(dn)[c as int].next, 0, q),
                    s1.eval(dn + 1, s1.next_of(dn, Some(r1)), 0, q),
                )
            },
            nidx < sn.slots(dn),
            sn.nodes_of(dn)[nidx as int] == (NCDimNode {
                left: if wh == Some(false) { Some(r0) } else { s0.nodes_of(dn)[c as int].left },
                right: if wh == Some(true) { Some(r0) } else { s0.nodes_of(dn)[c as int].right },
                next: nm,
            }),
        ensures
            sn.good(dn, nidx, b),
            forall|q: Seq<Seq<bool>>| #[trigger] sn.eval(dn, Some(nidx), b, q) == ocombine(
                s0.eval(dn, Some(c), b, q),
                s0.single(addr, v, dn, b, q),
            ),
    {
        let w = s0.width_of(dn);
        let nd = s0.nodes_of(dn)[c as int];
        let nn = sn.nodes_of(dn)[nidx as int];
        s0.lemma_extends_trans(&s1, &s2);
        s0.lemma_extends_trans(&s2, &sn);
        s1.lemma_extends_trans(&s2, &sn);
        assert(sn.width_of(dn) == w);
        assert(s1.width_of(dn) == w);
        assert(s0.good(dn, c, b));
        s1.lemma_extends_keeps(&sn, rd, r0, rb);
        s1.lemma_extends_keeps(&sn, rd, r1, rb);
        s0.lemma_extends_keeps(&s1, dn + 1, nd.next.unwrap(), 0);
        s0.lemma_extends_keeps(&sn, dn + 1, nd.next.unwrap(), 0);
        if wh is Some {
            s0.lemma_extends_keeps_opt(&sn, dn, other, b + 1);
            s0.lemma_extends_keeps_opt(&s1, dn, other, b + 1);
            s0.lemma_extends_keeps_opt(&s1, dn, oc, b + 1);
            if let Some(ov) = other {
                assert(s0.good(dn, ov, b + 1));
                s0.lemma_extends_keeps(&s1, dn + 1, s0.nodes_of(dn)[ov as int].next.unwrap(), 0);
                s0.lemma_extends_keeps(&sn, dn + 1, s0.nodes_of(dn)[ov as int].next.unwrap(), 0);
            }
            if let Some(ov) = oc {
                assert(s0.good(dn, ov, b + 1));
                s0.lemma_extends_keeps(&s1, dn + 1, s0.nodes_of(dn)[ov as int].next.unwrap(), 0);
            }
            s1.lemma_extends_keeps(&sn, dn + 1, s1.nodes_of(dn)[r0 as int].next.unwrap(), 0);
            s1.lemma_extends_keeps(&sn, dn + 1, s1.nodes_of(dn)[r1 as int].next.unwrap(), 0);
        }
        let nmv = nm.unwrap();
        assert(s2.good(dn + 1, nmv, 0));
        s2.lemma_extends_keeps(&sn, dn + 1, nmv, 0);
        // The new `next` answers with the old `next` plus the point.
        assert forall|q: Seq<Seq<bool>>|
            #[trigger] sn.eval(dn + 1, nm, 0, q) == ocombine(
                s0.eval(dn + 1, nd.next, 0, q),
                s0.single(addr, v, dn + 1, 0, q),
            ) by {
            assert(sn.eval(dn + 1, nm, 0, q) == s2.eval(dn + 1, nm, 0, q));
            if wh is Some {
                let qe = seq![Seq::<bool>::empty()] + q;
                assert(qe.drop_first() =~= q);
                let pt = s0.single(addr, v, dn + 1, 0, q);
                assert(s0.matches(addr, dn, b + 1, qe) == s0.matches(addr, dn + 1, 0, q));
                assert(s1.eval(dn, Some(r0), b + 1, qe) == s1.eval(dn + 1, s1.next_of(dn, Some(r0)), 0, q));
                assert(s1.eval(dn, Some(r1), b + 1, qe) == s1.eval(dn + 1, s1.next_of(dn, Some(r1)), 0, q));
                assert(s0.eval(dn, oc, b + 1, qe) == s0.eval(dn + 1, s0.next_of(dn, oc), 0, q));
                assert(s0.eval(dn, other, b + 1, qe) == s0.eval(dn + 1, s0.next_of(dn, other), 0, q));
                assert(s1.eval(dn, Some(r0), b + 1, qe) == ocombine(s0.eval(dn, oc, b + 1, qe), pt));
                assert(s1.eval(dn, Some(r1), b + 1, qe) == pt);
                assert(s0.eval(dn + 1, nd.next, 0, q) == ocombine(
                    s0.eval(dn + 1, s0.next_of(dn, nd.left), 0, q),
                    s0.eval(dn + 1, s0.next_of(dn, nd.right), 0, q),
                ));
                let xo = s0.eval(dn + 1, s0.next_of(dn, oc), 0, q);
                let xt = s0.eval(dn + 1, s0.next_of(dn, other), 0, q);
                if wh == Some(true) {
                    assert(s0.eval(dn + 1, nd.next, 0, q) == ocombine(xt, xo));
                } else {
                    assert(s0.eval(dn + 1, nd.next, 0, q) == ocombine(xo, xt));
                    lemma_ocombine_comm(xo, xt);
                }
                if oc is Some && other is None {
                    assert(xt is None);
                } else if oc is None {
                    assert(xo is None);
                    assert(s1.eval(dn + 1, s1.next_of(dn, other), 0, q) == xt);
                } else {
                }
            }
        }
        // Well formed.
        if wh is Some {
            assert forall|q: Seq<Seq<bool>>|
                #[trigger] sn.eval(dn + 1, nn.next, 0, q) == ocombine(
                    sn.eval(dn + 1, sn.next_of(dn, nn.left), 0, q),
                    sn.eval(dn + 1, sn.next_of(dn, nn.right), 0, q),
                ) by {
                let qe = seq![Seq::<bool>::empty()] + q;
                assert(qe.drop_first() =~= q);
                let pt = s0.single(addr, v, dn + 1, 0, q);
                assert(s0.matches(addr, dn, b + 1, qe) == s0.matches(addr, dn + 1, 0, q));
                assert(s1.eval(dn, Some(r0), b + 1, qe) == s1.eval(dn + 1, s1.next_of(dn, Some(r0)), 0, q));
                assert(s0.eval(dn, oc, b + 1, qe) == s0.eval(dn + 1, s0.next_of(dn, oc), 0, q));
                assert(s1.eval(dn, Some(r0), b + 1, qe) == ocombine(s0.eval(dn, oc, b + 1, qe), pt));
                assert(s0.eval(dn + 1, nd.next, 0, q) == ocombine(
                    s0.eval(dn + 1, s0.next_of(dn, nd.left), 0, q),
                    s0.eval(dn + 1, s0.next_of(dn, nd.right), 0, q),
                ));
                let xo = s0.eval(dn + 1, s0.next_of(dn, oc), 0, q);
                let xt = s0.eval(dn + 1, s0.next_of(dn, other), 0, q);
                assert(sn.eval(dn + 1, sn.next_of(dn, Some(r0)), 0, q) == ocombine(xo, pt));
                assert(sn.eval(dn + 1, sn.next_of(dn, other), 0, q) == xt);
                if wh == Some(true) {
                    lemma_ocombine_assoc(xt, xo, pt);
                } else {
                    lemma_ocombine_assoc(xo, xt, pt);
                    lemma_ocombine_comm(xt, pt);
                    lemma_ocombine_assoc(xo, pt, xt);
                    lemma_ocombine_comm(xo, xt);
                }
            }
        }
        assert(sn.good(dn, nidx, b));
        // Every query, answered at the new node.
        assert forall|q: Seq<Seq<bool>>|
            #[trigger] sn.eval(dn, Some(nidx), b, q) == ocombine(
                s0.eval(dn, Some(c), b, q),
                s0.single(addr, v, dn, b, q),
            ) by {
            if b >= w || q.len() == 0 || q[0].len() == 0 {
                let qd = q.drop_first();
                assert(sn.eval(dn, Some(nidx), b, q) == sn.eval(dn + 1, nm, 0, qd));
                assert(s0.eval(dn, Some(c), b, q) == s0.eval(dn + 1, nd.next, 0, qd));
                assert(s0.matches(addr, dn, b, q) == s0.matches(addr, dn + 1, 0, qd));
            } else {
                let q2 = q.update(0, q[0].drop_first());
                assert(s0.matches(addr, dn, b, q) == (q[0][0] == addr_bit(addr[dn as int], w, b)
                    && s0.matches(addr, dn, b + 1, q2)));
                if Some(q[0][0]) == wh {
                    assert(sn.eval(dn, Some(nidx), b, q) == sn.eval(dn, Some(r0), b + 1, q2));
                    assert(s0.eval(dn, Some(c), b, q) == s0.eval(dn, oc, b + 1, q2));
                    assert(s1.eval(dn, Some(r0), b + 1, q2) == ocombine(
                        s0.eval(dn, oc, b + 1, q2),
                        s0.single(addr, v, dn, b + 1, q2),
                    ));
                } else {
                    assert(sn.eval(dn, Some(nidx), b, q) == sn.eval(dn, other, b + 1, q2));
                    assert(s0.eval(dn, Some(c), b, q) == s0.eval(dn, other, b + 1, q2));
                }
            }
        }
    }
}

impl<S> Nanocube<S> {
    /// The two nodes that `insert` appends last are new, consecutive, and
    /// pointed at by nobody.
    pub proof fn lemma_insert_tops(
        s0: Self,
        s1: Self,
        s2: Self,
        s3: Self,
        s4: Self,
        dn: nat,
        wh: Option<bool>,
        r1: usize,
        n1: NCDimNode,
        n2: NCDimNode,
        i1: usize,
        i2: usize,
    )
        requires
            dn < s0.num_dims(),
            s0.arenas_ok(),
            s2.arenas_ok(),
            s0.extends(&s1),
            s1.extends(&s2),
            s2.extends(&s3),
            s3.extends(&s4),
            s0.counts_kept(&s4),
            i1 == s2.slots(dn),
            i2 == s3.slots(dn),
            s3.nodes_of(dn) == s2.nodes_of(dn).push(n1),
            s4.nodes_of(dn) == s3.nodes_of(dn).push(n2),
            s2.node_ptrs_ok(dn, n1),
            wh is Some ==> r1 < s1.slots(dn),
            n2.left == (if wh == Some(false) { Some(r1) } else { None }),
            n2.right == (if wh == Some(true) { Some(r1) } else { None }),
            forall|d: nat| d < dn ==> #[trigger] s4.slots(d) == s0.slots(d),
        ensures
            s0.slots(dn) <= i1,
            i2 == i1 + 1,
            s4.slots(dn) == i2 + 1,
            s4.counts_of(dn)[i1 as int] == 0,
            s4.counts_of(dn)[i2 as int] == 0,
    {
        s2.lemma_extends_trans(&s3, &s4);
        s0.lemma_extends_slots(&s1, dn);
        s1.lemma_extends_slots(&s2, dn);
        if dn > 0 {
            let e = (dn - 1) as nat;
            assert(s4.slots(e) == s0.slots(e));
            s0.lemma_extends_trans(&s1, &s2);
            s0.lemma_extends_trans(&s2, &s4);
            assert(s4.nodes_of(e) =~= s0.nodes_of(e));
        }
        assert forall|j: int| s2.slots(dn) <= j < s4.slots(dn) implies {
            let n = #[trigger] s4.nodes_of(dn)[j];
            &&& (n.left matches Some(l) ==> l < s2.slots(dn))
            &&& (n.right matches Some(r) ==> r < s2.slots(dn))
        } by {
            if j == i1 {
                assert(s4.nodes_of(dn)[j] == n1);
            } else {
                assert(s4.nodes_of(dn)[j] == n2);
            }
        }
        Self::lemma_fresh_unreferenced(s0, s2, s4, dn, i1);
        Self::lemma_fresh_unreferenced(s0, s2, s4, dn, i2);
        assert(s4.excess(dn, i1) == 0);
        assert(s4.excess(dn, i2) == 0);
    }
}

} // verus!
