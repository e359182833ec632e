//! Correctness of the node that `merge` builds over its merged children.

use vstd::prelude::*;
use crate::cube::Monoid;
use crate::model::{lemma_ocombine_swap, ocombine};
use crate::nanocube::{NCDimNode, Nanocube};

verus! {

impl<S: Monoid> Nanocube<S> {
    /// The node `{x, y, nm}` built in `s4` from the merge `x` of the left
    /// children, the merge `y` of the right children and the merge `nm` of
    /// the `next`s of nodes `n1` and `n2` of `s0` is well formed and answers
    /// every query with the combination of their answers.
    pub proof fn lemma_merged_node(
        s0: Self,
        s1: Self,
        s2: Self,
        s3: Self,
        s4: Self,
        dn: nat,
        b: nat,
        cb: nat,
        n1: usize,
        n2: usize,
        x: Option<usize>,
        y: Option<usize>,
        nm: Option<usize>,
        new_index: usize,
    )
        requires
            dn < s0.num_dims(),
            s0.merge_ready(dn, Some(n1), Some(n2), b),
            s0.extends(&s1),
            s1.extends(&s2),
            s2.extends(&s3),
            s3.extends(&s4),
            cb == if b < s0.width_of(dn) { b + 1 } else { b },
            ({
                let nd1 = s0.nodes_of(dn)[n1 as int];
                let nd2 = s0.nodes_of(dn)[n2 as int];
                &&& (x is None) == (nd1.left is None && nd2.left is None)
                &&& s1.good_opt(dn, x, cb)
                &&& forall|q: Seq<Seq<bool>>| #[trigger] s1.eval(dn, x, cb, q) == ocombine(
                    s0.eval(dn, nd1.left, cb, q),
                    s0.eval(dn, nd2.left, cb, q),
                )
                &&& (y is None) == (nd1.right is None && nd2.right is None)
                &&& s2.good_opt(dn, y, cb)
                &&& forall|q: Seq<Seq<bool>>| #[trigger] s2.eval(dn, y, cb, q) == ocombine(
                    s1.eval(dn, nd1.right, cb, q),
                    s1.eval(dn, nd2.right, cb, q),
                )
                &&& (x is None && y is None) ==> {
                    &&& (nm is None) == (nd1.next is None && nd2.next is None)
                    &&& s3.good_opt(dn + 1, nm, 0)
                    &&& forall|q: Seq<Seq<bool>>| #[trigger] s3.eval(dn + 1, nm, 0, q) == ocombine(
                        s2.eval(dn + 1, nd1.next, 0, q),
                        s2.eval(dn + 1, nd2.next, 0, q),
                    )
                }
                &&& (x is Some && y is Some) ==> {
                    &&& (nm is None) == (s2.next_of(dn, x) is None && s2.next_of(dn, y) is None)
                    &&& s3.good_opt(dn + 1, nm, 0)
                    &&& forall|q: Seq<Seq<bool>>| #[trigger] s3.eval(dn + 1, nm, 0, q) == ocombine(
                        s2.eval(dn + 1, s2.next_of(dn, x), 0, q),
                        s2.eval(dn + 1, s2.next_of(dn, y), 0, q),
                    )
                }
                &&& (x is Some && y is None) ==> s3 == s2 && nm == s2.next_of(dn, x)
                &&& (x is None && y is Some) ==> s3 == s2 && nm == s2.next_of(dn, y)
            }),
            new_index < s4.slots(dn),
            s4.nodes_of(dn)[new_index as int] == (NCDimNode { left: x, right: y, next: nm }),
        ensures
            s4.good(dn, new_index, b),
            forall|q: Seq<Seq<bool>>| #[trigger] s4.eval(dn, Some(new_index), b, q) == ocombine(
                s0.eval(dn, Some(n1), b, q),
                s0.eval(dn, Some(n2), b, q),
            ),
            s4.summary_of(dn, Some(new_index)) == s3.summary_of(dn + 1, nm),
    {
        let w = s0.width_of(dn);
        let nd1 = s0.nodes_of(dn)[n1 as int];
        let nd2 = s0.nodes_of(dn)[n2 as int];
        let (l1, r1, k1) = (nd1.left, nd1.right, nd1.next);
        let (l2, r2, k2) = (nd2.left, nd2.right, nd2.next);
        s0.lemma_extends_trans(&s1, &s2);
        s0.lemma_extends_trans(&s2, &s3);
        s0.lemma_extends_trans(&s3, &s4);
        s1.lemma_extends_trans(&s2, &s3);
        s1.lemma_extends_trans(&s3, &s4);
        s2.lemma_extends_trans(&s3, &s4);
        assert(s0.good(dn, n1, b));
        assert(s0.good(dn, n2, b));
        assert(s4.width_of(dn) == w);
        assert(s1.width_of(dn) == w);
        assert(s2.width_of(dn) == w);
        if b == w {
            assert(x is None && y is None);
        }
        s0.lemma_extends_keeps_opt(&s1, dn, r1, cb);
        s0.lemma_extends_keeps_opt(&s1, dn, r2, cb);
        s0.lemma_extends_keeps_opt(&s2, dn + 1, k1, 0);
        s0.lemma_extends_keeps_opt(&s2, dn + 1, k2, 0);
        s1.lemma_extends_keeps_opt(&s2, dn, x, cb);
        s1.lemma_extends_keeps_opt(&s4, dn, x, cb);
        s2.lemma_extends_keeps_opt(&s4, dn, y, cb);
        assert(nm is Some && s3.good_opt(dn + 1, nm, 0)) by {
            if x is None && y is None {
            } else if x is Some && y is Some {
            } else if let Some(xv) = x {
                assert(s2.good(dn, xv, cb));
            } else {
                assert(s2.good(dn, y.unwrap(), cb));
            }
        }
        s3.lemma_extends_keeps_opt(&s4, dn + 1, nm, 0);
        // Every query, answered at the merged `next`.
        assert forall|q: Seq<Seq<bool>>|
            #[trigger] s4.eval(dn + 1, nm, 0, q) == ocombine(
                s0.eval(dn + 1, k1, 0, q),
                s0.eval(dn + 1, k2, 0, q),
            ) by {
            assert(s4.eval(dn + 1, nm, 0, q) == s3.eval(dn + 1, nm, 0, q));
            if x is None && y is None {
                assert(s3.eval(dn + 1, nm, 0, q) == ocombine(
                    s2.eval(dn + 1, k1, 0, q),
                    s2.eval(dn + 1, k2, 0, q),
                ));
            } else {
                let qe = seq![Seq::<bool>::empty()] + q;
                assert(qe.drop_first() =~= q);
                let e_l1 = s0.eval(dn, l1, cb, qe);
                let e_l2 = s0.eval(dn, l2, cb, qe);
                let e_r1 = s0.eval(dn, r1, cb, qe);
                let e_r2 = s0.eval(dn, r2, cb, qe);
                assert(e_l1 == s0.eval(dn + 1, s0.next_of(dn, l1), 0, q));
                assert(e_l2 == s0.eval(dn + 1, s0.next_of(dn, l2), 0, q));
                assert(e_r1 == s0.eval(dn + 1, s0.next_of(dn, r1), 0, q));
                assert(e_r2 == s0.eval(dn + 1, s0.next_of(dn, r2), 0, q));
                assert(s0.eval(dn + 1, k1, 0, q) == ocombine(e_l1, e_r1));
                assert(s0.eval(dn + 1, k2, 0, q) == ocombine(e_l2, e_r2));
                assert(s1.eval(dn, x, cb, qe) == ocombine(e_l1, e_l2));
                assert(s1.eval(dn, r1, cb, qe) == e_r1);
                assert(s1.eval(dn, r2, cb, qe) == e_r2);
                assert(s2.eval(dn, y, cb, qe) == ocombine(e_r1, e_r2));
                assert(s2.eval(dn, x, cb, qe) == s1.eval(dn, x, cb, qe));
                assert(s2.eval(dn, x, cb, qe) == s2.eval(dn + 1, s2.next_of(dn, x), 0, q));
                assert(s2.eval(dn, y, cb, qe) == s2.eval(dn + 1, s2.next_of(dn, y), 0, q));
                if x is Some && y is Some {
                    assert(s3.eval(dn + 1, nm, 0, q) == ocombine(
                        s2.eval(dn + 1, s2.next_of(dn, x), 0, q),
                        s2.eval(dn + 1, s2.next_of(dn, y), 0, q),
                    ));
                    lemma_ocombine_swap(e_l1, e_l2, e_r1, e_r2);
                } else if x is Some {
                    assert(e_r1 is None && e_r2 is None);
                } else {
                    assert(e_l1 is None && e_l2 is None);
                }
            }
        }
        // Well formed.
        if b < w {
            assert forall|q: Seq<Seq<bool>>|
                #[trigger] s4.eval(dn + 1, nm, 0, q) == ocombine(
                    s4.eval(dn + 1, s4.next_of(dn, x), 0, q),
                    s4.eval(dn + 1, s4.next_of(dn, y), 0, q),
                ) by {
                if x is Some && y is Some {
                    assert(s3.eval(dn + 1, nm, 0, q) == ocombine(
                        s2.eval(dn + 1, s2.next_of(dn, x), 0, q),
                        s2.eval(dn + 1, s2.next_of(dn, y), 0, q),
                    ));
                    s2.lemma_extends_keeps_opt(&s4, dn + 1, s2.next_of(dn, x), 0);
                    s2.lemma_extends_keeps_opt(&s4, dn + 1, s2.next_of(dn, y), 0);
                }
            }
        }
        assert(s4.good(dn, new_index, b));
        // Every query, answered at the new node.
        assert forall|q: Seq<Seq<bool>>|
            #[trigger] s4.eval(dn, Some(new_index), b, q) == ocombine(
                s0.eval(dn, Some(n1), b, q),
                s0.eval(dn, Some(n2), b, q),
            ) by {
            if b >= w || q.len() == 0 || q[0].len() == 0 {
                let qd = q.drop_first();
                assert(s4.eval(dn, Some(new_index), b, q) == s4.eval(dn + 1, nm, 0, qd));
                assert(s0.eval(dn, Some(n1), b, q) == s0.eval(dn + 1, k1, 0, qd));
                assert(s0.eval(dn, Some(n2), b, q) == s0.eval(dn + 1, k2, 0, qd));
            } else {
                let q2 = q.update(0, q[0].drop_first());
                if q[0][0] {
                    assert(s4.eval(dn, Some(new_index), b, q) == s4.eval(dn, y, cb, q2));
                    assert(s0.eval(dn, Some(n1), b, q) == s0.eval(dn, r1, cb, q2));
                    assert(s0.eval(dn, Some(n2), b, q) == s0.eval(dn, r2, cb, q2));
                    assert(s2.eval(dn, y, cb, q2) == ocombine(s1.eval(dn, r1, cb, q2), s1.eval(dn, r2, cb, q2)));
                } else {
                    assert(s4.eval(dn, Some(new_index), b, q) == s4.eval(dn, x, cb, q2));
                    assert(s0.eval(dn, Some(n1), b, q) == s0.eval(dn, l1, cb, q2));
                    assert(s0.eval(dn, Some(n2), b, q) == s0.eval(dn, l2, cb, q2));
                    assert(s1.eval(dn, x, cb, q2) == ocombine(s0.eval(dn, l1, cb, q2), s0.eval(dn, l2, cb, q2)));
                }
            }
        }
    }
}

} // verus!
