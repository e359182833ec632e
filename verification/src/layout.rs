//! The arenas of a cube as plain sequences, and the arenas that `merge`
//! leaves, step by step as it builds them: which slots it appends, in which
//! order, with which pointers and counts.

use vstd::prelude::*;
use crate::cube::Monoid;
use crate::model::addr_bit;
use crate::counting::{cleared, lemma_sum_bound, PtrKind};
use crate::nanocube::{NCDimNode, Nanocube};

verus! {

/// Every arena of a cube: the widths of its dimensions, the nodes of each
/// dimension, the reference counts of each arena (the last one that of the
/// summaries), and the summaries.
pub struct Arenas<S> {
    pub widths: Seq<nat>,
    pub nodes: Seq<Seq<NCDimNode>>,
    pub counts: Seq<Seq<u128>>,
    pub sums: Seq<S>,
}

impl<S> Nanocube<S> {
    pub open spec fn arenas(&self) -> Arenas<S> {
        Arenas {
            widths: Seq::new(self.num_dims(), |d: int| self.width_of(d as nat)),
            nodes: Seq::new(self.num_dims(), |d: int| self.nodes_of(d as nat)),
            counts: Seq::new(self.num_dims() + 1, |d: int| self.counts_of(d as nat)),
            sums: self.summaries.values@,
        }
    }
}

impl<S> Nanocube<S> {
    /// The arenas of `s` are `a` when they agree arena by arena.
    pub proof fn lemma_arenas_of(s: Self, a: Arenas<S>)
        requires
            a.widths.len() == s.num_dims(),
            forall|d: nat| d < s.num_dims() ==> #[trigger] a.widths[d as int] == s.width_of(d),
            a.nodes.len() == s.num_dims(),
            forall|d: nat| d < s.num_dims() ==> #[trigger] a.nodes[d as int] == s.nodes_of(d),
            a.counts.len() == s.num_dims() + 1,
            forall|d: nat| d <= s.num_dims() ==> #[trigger] a.counts[d as int] == s.counts_of(d),
            a.sums == s.summaries.values@,
        ensures
            s.arenas() == a,
    {
        let b = s.arenas();
        assert(b.widths =~= a.widths) by {
            assert forall|d: int| 0 <= d < a.widths.len() implies b.widths[d] == a.widths[d] by {
                assert(a.widths[(d as nat) as int] == s.width_of(d as nat));
            }
        }
        assert(b.nodes =~= a.nodes) by {
            assert forall|d: int| 0 <= d < a.nodes.len() implies b.nodes[d] == a.nodes[d] by {
                assert(a.nodes[(d as nat) as int] == s.nodes_of(d as nat));
            }
        }
        assert(b.counts =~= a.counts) by {
            assert forall|d: int| 0 <= d < a.counts.len() implies b.counts[d] == a.counts[d] by {
                assert(a.counts[(d as nat) as int] == s.counts_of(d as nat));
            }
        }
    }
}

impl<S> Nanocube<S> {
    /// `s` is `s3` with `n` appended to dimension `d` at count 0, and `s3`
    /// is `s0` with a reference taken to each slot that `n` points at.
    pub proof fn lemma_push_node_arenas(s0: Self, s3: Self, s: Self, d: nat, n: NCDimNode)
        requires
            d < s0.num_dims(),
            s3.arenas() == s0.arenas().bump(d, n.left).bump(d, n.right).bump(d + 1, n.next),
            s.num_dims() == s3.num_dims(),
            forall|e: nat| e < s3.num_dims() ==> #[trigger] s.width_of(e) == s3.width_of(e),
            forall|e: nat| e < s3.num_dims() && e != d ==> #[trigger] s.nodes_of(e) == s3.nodes_of(e),
            forall|e: nat| e <= s3.num_dims() && e != d ==> #[trigger] s.counts_of(e) == s3.counts_of(e),
            s.nodes_of(d) == s3.nodes_of(d).push(n),
            s.counts_of(d) == s3.counts_of(d).push(0),
            s.summaries.values@ == s3.summaries.values@,
        ensures
            s.arenas() == s0.arenas().push_node(d, n),
    {
        let a = s3.arenas();
        let b = s0.arenas().push_node(d, n);
        assert(s3.arenas().widths.len() == s3.num_dims());
        assert forall|e: nat| e < s.num_dims() implies #[trigger] b.nodes[e as int] == s.nodes_of(e) by {
            assert(a.nodes[e as int] == s3.nodes_of(e));
        }
        assert forall|e: nat| e <= s.num_dims() implies #[trigger] b.counts[e as int] == s.counts_of(e) by {
            assert(a.counts[e as int] == s3.counts_of(e));
        }
        assert forall|e: nat| e < s.num_dims() implies #[trigger] b.widths[e as int] == s.width_of(e) by {
            assert(a.widths[e as int] == s3.width_of(e));
        }
        Self::lemma_arenas_of(s, b);
    }

    /// `s` is `s0` with summary `v` appended at count 0.
    pub proof fn lemma_push_sum_arenas(s0: Self, s: Self, v: S)
        requires
            s.num_dims() == s0.num_dims(),
            forall|e: nat| e < s0.num_dims() ==> #[trigger] s.width_of(e) == s0.width_of(e),
            forall|e: nat| e < s0.num_dims() ==> #[trigger] s.nodes_of(e) == s0.nodes_of(e),
            forall|e: nat| e < s0.num_dims() ==> #[trigger] s.counts_of(e) == s0.counts_of(e),
            s.counts_of(s0.num_dims()) == s0.counts_of(s0.num_dims()).push(0),
            s.summaries.values@ == s0.summaries.values@.push(v),
        ensures
            s.arenas() == s0.arenas().push_sum(v),
    {
        let a = s0.arenas();
        let b = a.push_sum(v);
        assert forall|e: nat| e <= s.num_dims() implies #[trigger] b.counts[e as int] == s.counts_of(e) by {
            assert(a.counts[e as int] == s0.counts_of(e));
        }
        Self::lemma_arenas_of(s, b);
    }
}

impl<S> Nanocube<S> {
    /// `after` is `before` with one reference less to slot `t` of arena `d`.
    pub proof fn lemma_drop_ref_arenas(before: Self, after: Self, d: nat, t: usize)
        requires
            d <= before.num_dims(),
            after.num_dims() == before.num_dims(),
            forall|e: nat| e < before.num_dims() ==> #[trigger] after.width_of(e) == before.width_of(e),
            forall|e: nat| e < before.num_dims() ==> #[trigger] after.nodes_of(e) == before.nodes_of(e),
            forall|e: nat| e <= before.num_dims() && e != d ==> #[trigger] after.counts_of(e) == before.counts_of(e),
            after.counts_of(d) == before.counts_of(d).update(t as int, (before.counts_of(d)[t as int] - 1) as u128),
            after.summaries.values@ == before.summaries.values@,
        ensures
            after.arenas() == before.arenas().drop_ref(d, t),
    {
        let a = before.arenas();
        let b = a.drop_ref(d, t);
        assert forall|e: nat| e <= after.num_dims() implies #[trigger] b.counts[e as int] == after.counts_of(e) by {
            assert(a.counts[e as int] == before.counts_of(e));
        }
        assert forall|e: nat| e < after.num_dims() implies #[trigger] b.nodes[e as int] == after.nodes_of(e) by {
            assert(a.nodes[e as int] == before.nodes_of(e));
        }
        Self::lemma_arenas_of(after, b);
    }

    /// `after` is `before` with node `t` of dimension `d` emptied.
    pub proof fn lemma_clear_arenas(before: Self, after: Self, d: nat, t: usize)
        requires
            d < before.num_dims(),
            after.num_dims() == before.num_dims(),
            forall|e: nat| e < before.num_dims() ==> #[trigger] after.width_of(e) == before.width_of(e),
            forall|e: nat| e < before.num_dims() && e != d ==> #[trigger] after.nodes_of(e) == before.nodes_of(e),
            after.nodes_of(d) == before.nodes_of(d).update(t as int, cleared()),
            forall|e: nat| e <= before.num_dims() ==> #[trigger] after.counts_of(e) == before.counts_of(e),
            after.summaries.values@ == before.summaries.values@,
        ensures
            after.arenas() == before.arenas().cleared_at(d, t),
    {
        let a = before.arenas();
        let b = a.cleared_at(d, t);
        assert forall|e: nat| e <= after.num_dims() implies #[trigger] b.counts[e as int] == after.counts_of(e) by {
            assert(a.counts[e as int] == before.counts_of(e));
        }
        assert forall|e: nat| e < after.num_dims() implies #[trigger] b.nodes[e as int] == after.nodes_of(e) by {
            assert(a.nodes[e as int] == before.nodes_of(e));
        }
        Self::lemma_arenas_of(after, b);
    }

    /// The pointers that the nodes hold are at most three per node.
    pub proof fn lemma_fuel_bound(&self, k: nat)
        requires
            k <= self.num_dims(),
        ensures
            self.ptr_total(k) <= 3 * Arenas::<S>::node_total(self.arenas().nodes.take(k as int)),
        decreases k,
    {
        if k > 0 {
            self.lemma_fuel_bound((k - 1) as nat);
            lemma_sum_bound(self.nodes_of((k - 1) as nat), PtrKind::Any, 0);
            let t = self.arenas().nodes.take(k as int);
            assert(t.drop_last() =~= self.arenas().nodes.take(k - 1));
            assert(t.last() == self.nodes_of((k - 1) as nat));
        }
    }

    pub proof fn lemma_summary_at(&self, d: nat, i: Option<usize>)
        ensures
            self.arenas().summary_at(d, i) == self.summary_of(d, i),
        decreases self.num_dims() - d,
    {
        if let Some(t) = i {
            if d < self.num_dims() {
                self.lemma_summary_at(d + 1, self.nodes_of(d)[t as int].next);
            }
        }
    }

    pub proof fn lemma_arenas_widths(&self, other: &Self)
        requires
            self.same_frame(other),
        ensures
            self.arenas().widths == other.arenas().widths,
    {
        assert(self.arenas().widths =~= other.arenas().widths);
    }
}

impl<S: Monoid> Nanocube<S> {
    /// The steps of `insert` below the summaries, when there is a node:
    /// recursion (to `s1`), the node over its result with the merge it needs
    /// (to `s2`), then that node and the node of the new point alone
    /// appended (to `s3` and `s4`), leave the arenas that `inserted` says.
    pub proof fn lemma_insert_arenas(
        s0: Self,
        s1: Self,
        s2: Self,
        s3: Self,
        s4: Self,
        addr: Seq<usize>,
        v: S,
        dn: nat,
        bn: nat,
        cur: Option<usize>,
        n: NCDimNode,
        wh: Option<bool>,
        oc: Option<usize>,
        r0: Option<usize>,
        r1: Option<usize>,
        n1: NCDimNode,
        n2: NCDimNode,
        i1: usize,
        i2: usize,
    )
        requires
            dn < s0.num_dims(),
            bn <= s0.width_of(dn),
            cur is Some,
            n == s0.nodes_of(dn)[cur.unwrap() as int],
            (bn == s0.width_of(dn)) == (wh is None),
            wh matches Some(t) ==> t == addr_bit(addr[dn as int], s0.width_of(dn), bn),
            oc == (if wh is None { n.next } else if wh == Some(true) { n.right } else { n.left }),
            (s1.arenas(), r0, r1) == s0.arenas().inserted(
                s0.arenas().widths,
                v,
                addr,
                if wh is None { dn + 1 } else { dn },
                if wh is None { 0 } else { bn + 1 },
                oc,
            ),
            wh is Some ==> (s2.arenas(), n1) == Arenas::inserted_node(s1.arenas(), s0.arenas().widths, n, dn,
                wh == Some(true), r0.unwrap(), r1.unwrap()),
            wh is None ==> s2 == s1 && n1 == (NCDimNode { left: None, right: None, next: r0 }),
            s3.arenas() == s2.arenas().push_node(dn, n1),
            s4.arenas() == s3.arenas().push_node(dn, n2),
            i1 == s2.slots(dn),
            i2 == s3.slots(dn),
            n2.left == (if wh == Some(false) { r1 } else { None }),
            n2.right == (if wh == Some(true) { r1 } else { None }),
            n2.next == (if wh is None { r1 } else { s3.nodes_of(dn)[r1.unwrap() as int].next }),
            s0.same_frame(&s1),
            s2.num_dims() == s0.num_dims(),
            s3.num_dims() == s0.num_dims(),
        ensures
            (s4.arenas(), Some(i1), Some(i2)) == s0.arenas().inserted(s0.arenas().widths, v, addr, dn, bn, cur),
    {
        let ws = s0.arenas().widths;
        assert(s0.arenas().nodes[dn as int] == s0.nodes_of(dn));
        assert(ws[dn as int] == s0.width_of(dn));
        assert(s2.arenas().nodes[dn as int] == s2.nodes_of(dn));
        assert(s3.arenas().nodes[dn as int] == s3.nodes_of(dn));
    }
}

impl<S: Monoid> Nanocube<S> {
    /// The steps of `add`: insertion (to `s1`, returning `r0` and `r1`), a
    /// reference to `r0` (to `s2`), the release of the old root `base` (to
    /// `s3`), the new root (to `s4`), a reference to `r1` (to `s5`) and its
    /// release (to `s6`), leave the arenas that `added` says.
    pub proof fn lemma_add_arenas(
        s0: Self,
        s1: Self,
        s2: Self,
        s3: Self,
        s4: Self,
        s5: Self,
        s6: Self,
        v: S,
        addr: Seq<usize>,
        base: Option<usize>,
        r0: usize,
        r1: usize,
    )
        requires
            (s1.arenas(), Some(r0), Some(r1)) == s0.arenas().inserted(s0.arenas().widths, v, addr, 0, 0, base),
            s2.arenas() == s1.arenas().bump(0, Some(r0)),
            base matches Some(b) ==> s3.arenas() == s2.arenas().released(seq![(b, 0usize)], s2.arenas().fuel()),
            base is None ==> s3 == s2,
            s4.dims == s3.dims,
            s4.summaries == s3.summaries,
            s5.arenas() == s4.arenas().bump(0, Some(r1)),
            s6.arenas() == s5.arenas().released(seq![(r1, 0usize)], s5.arenas().fuel()),
        ensures
            (s6.arenas(), Some(r0)) == s0.arenas().added(v, addr, base),
    {
        let a = s3.arenas();
        assert forall|d: nat| d < s4.num_dims() implies #[trigger] a.nodes[d as int] == s4.nodes_of(d) by {
        }
        assert forall|d: nat| d <= s4.num_dims() implies #[trigger] a.counts[d as int] == s4.counts_of(d) by {
        }
        assert forall|d: nat| d < s4.num_dims() implies #[trigger] a.widths[d as int] == s4.width_of(d) by {
        }
        Self::lemma_arenas_of(s4, a);
    }
}

impl<S> Arenas<S> {
    /// One reference less to slot `t` of arena `d`.
    pub open spec fn drop_ref(self, d: nat, t: usize) -> Self {
        Arenas {
            widths: self.widths,
            nodes: self.nodes,
            counts: self.counts.update(
                d as int,
                self.counts[d as int].update(t as int, (self.counts[d as int][t as int] - 1) as u128),
            ),
            sums: self.sums,
        }
    }

    /// Node `t` of dimension `d` emptied.
    pub open spec fn cleared_at(self, d: nat, t: usize) -> Self {
        Arenas {
            widths: self.widths,
            nodes: self.nodes.update(d as int, self.nodes[d as int].update(t as int, cleared())),
            counts: self.counts,
            sums: self.sums,
        }
    }

    /// What releasing the slots of `stack`, last first, leaves, as
    /// `release_node_ref` does it: a node whose count drops to zero is
    /// emptied and its left, right and next slots are released after it.
    /// `fuel` bounds the number of steps.
    pub open spec fn released(self, stack: Seq<(usize, usize)>, fuel: nat) -> Self
        decreases fuel,
    {
        if fuel == 0 || stack.len() == 0 {
            self
        } else {
            let top = stack.last();
            let rest = stack.drop_last();
            let d = top.1 as nat;
            let a = self.drop_ref(d, top.0);
            if d >= self.widths.len() || a.counts[d as int][top.0 as int] != 0 {
                a.released(rest, (fuel - 1) as nat)
            } else {
                let n = a.nodes[d as int][top.0 as int];
                let s1 = if n.left is Some { rest.push((n.left.unwrap(), top.1)) } else { rest };
                let s2 = if n.right is Some { s1.push((n.right.unwrap(), top.1)) } else { s1 };
                let s3 = if n.next is Some { s2.push((n.next.unwrap(), (top.1 + 1) as usize)) } else { s2 };
                a.cleared_at(d, top.0).released(s3, (fuel - 1) as nat)
            }
        }
    }

    /// One step of a release that empties nothing.
    pub proof fn lemma_released_drop(self, st0: Seq<(usize, usize)>, rest: Seq<(usize, usize)>, top: (usize, usize), fuel: nat)
        requires
            fuel >= 1,
            st0 == rest.push(top),
            top.1 >= self.widths.len() || self.drop_ref(top.1 as nat, top.0).counts[top.1 as int][top.0 as int] != 0,
        ensures
            self.released(st0, fuel) == self.drop_ref(top.1 as nat, top.0).released(rest, (fuel - 1) as nat),
    {
        assert(st0.last() == top);
        assert(st0.drop_last() == rest);
    }

    /// One step of a release that empties node `top` and releases what it
    /// pointed at, `kids`, after it.
    pub proof fn lemma_released_clear(
        self,
        st0: Seq<(usize, usize)>,
        rest: Seq<(usize, usize)>,
        top: (usize, usize),
        fuel: nat,
        st2: Seq<(usize, usize)>,
    )
        requires
            fuel >= 1,
            st0 == rest.push(top),
            top.1 < self.widths.len(),
            self.drop_ref(top.1 as nat, top.0).counts[top.1 as int][top.0 as int] == 0,
            st2 == ({
                let n = self.nodes[top.1 as int][top.0 as int];
                let s1 = if n.left is Some { rest.push((n.left.unwrap(), top.1)) } else { rest };
                let s2 = if n.right is Some { s1.push((n.right.unwrap(), top.1)) } else { s1 };
                if n.next is Some { s2.push((n.next.unwrap(), (top.1 + 1) as usize)) } else { s2 }
            }),
        ensures
            self.released(st0, fuel) == self.drop_ref(top.1 as nat, top.0).cleared_at(top.1 as nat, top.0).released(
                st2,
                (fuel - 1) as nat,
            ),
    {
        assert(st0.last() == top);
        assert(st0.drop_last() == rest);
    }

    /// How many nodes the dimensions hold, in all.
    pub open spec fn node_total(nodes: Seq<Seq<NCDimNode>>) -> nat
        decreases nodes.len(),
    {
        if nodes.len() == 0 {
            0
        } else {
            Self::node_total(nodes.drop_last()) + nodes.last().len()
        }
    }

    /// Enough steps for any release: one per pointer the nodes hold, and one.
    pub open spec fn fuel(self) -> nat {
        3 * Self::node_total(self.nodes) + 1
    }

    /// One more reference to slot `o` of arena `d`, if there is a slot.
    pub open spec fn bump(self, d: nat, o: Option<usize>) -> Self {
        match o {
            None => self,
            Some(t) => Arenas {
                widths: self.widths,
                nodes: self.nodes,
                counts: self.counts.update(
                    d as int,
                    self.counts[d as int].update(t as int, (self.counts[d as int][t as int] + 1) as u128),
                ),
                sums: self.sums,
            },
        }
    }

    /// Node `n` appended to dimension `d`, with a reference taken to each
    /// slot that it points at; the new slot has count 0.
    pub open spec fn push_node(self, d: nat, n: NCDimNode) -> Self {
        let a = self.bump(d, n.left).bump(d, n.right).bump(d + 1, n.next);
        Arenas {
            widths: a.widths,
            nodes: a.nodes.update(d as int, a.nodes[d as int].push(n)),
            counts: a.counts.update(d as int, a.counts[d as int].push(0)),
            sums: a.sums,
        }
    }

    /// Summary `v` appended, with count 0.
    pub open spec fn push_sum(self, v: S) -> Self {
        let nd = self.widths.len();
        Arenas {
            widths: self.widths,
            nodes: self.nodes,
            counts: self.counts.update(nd as int, self.counts[nd as int].push(0)),
            sums: self.sums.push(v),
        }
    }

    /// The summary slot reached from slot `i` of arena `d` along `next`.
    pub open spec fn summary_at(self, d: nat, i: Option<usize>) -> Option<usize>
        decreases self.widths.len() - d,
    {
        match i {
            None => None,
            Some(t) => if d >= self.widths.len() {
                Some(t)
            } else {
                self.summary_at(d + 1, self.nodes[d as int][t as int].next)
            },
        }
    }
}

impl<S: Monoid> Arenas<S> {
    /// What `merge` of `n1` and `n2` in arena `d`, well formed at depth
    /// `bit`, leaves: the arenas, the merged node and its summary slot. `ws`
    /// are the widths of the dimensions.
    pub open spec fn merged(self, ws: Seq<nat>, n1: Option<usize>, n2: Option<usize>, d: nat, bit: nat) -> (
        Self,
        Option<usize>,
        Option<usize>,
    )
        decreases ws.len() - d, ws[d as int] - bit,
    {
        if n1 is None {
            (self, n2, self.summary_at(d, n2))
        } else if n2 is None {
            (self, n1, self.summary_at(d, n1))
        } else if d >= ws.len() {
            let v = S::op(self.sums[n1.unwrap() as int], self.sums[n2.unwrap() as int]);
            let k = Some(self.sums.len() as usize);
            (self.push_sum(v), k, k)
        } else {
            let x = self.nodes[d as int][n1.unwrap() as int];
            let y = self.nodes[d as int][n2.unwrap() as int];
            let l = if bit < ws[d as int] {
                self.merged(ws, x.left, y.left, d, bit + 1)
            } else {
                (self, None, None)
            };
            let r = if bit < ws[d as int] {
                l.0.merged(ws, x.right, y.right, d, bit + 1)
            } else {
                (l.0, None, None)
            };
            let m = r.0;
            let nm = match (l.1, r.1) {
                (None, None) => m.merged(ws, x.next, y.next, d + 1, 0),
                (None, Some(q)) => (m, m.nodes[d as int][q as int].next, r.2),
                (Some(p), None) => (m, m.nodes[d as int][p as int].next, l.2),
                (Some(p), Some(q)) => m.merged(
                    ws,
                    m.nodes[d as int][p as int].next,
                    m.nodes[d as int][q as int].next,
                    d + 1,
                    0,
                ),
            };
            let a = nm.0.push_node(d, NCDimNode { left: l.1, right: r.1, next: nm.1 });
            (a, Some(nm.0.nodes[d as int].len() as usize), nm.2)
        }
    }

    /// What `insert_fresh_node` of the point `addr` with summary `v`, from
    /// dimension `d`, depth `bit`, leaves: the chain is built from its
    /// bottom up, each node appended once the one below it is.
    pub open spec fn fresh(self, ws: Seq<nat>, v: S, addr: Seq<usize>, d: nat, bit: nat) -> (
        Self,
        Option<usize>,
        Option<usize>,
    )
        decreases ws.len() - d, ws[d as int] - bit,
    {
        if d >= ws.len() {
            let k = Some(self.sums.len() as usize);
            (self.push_sum(v), k, k)
        } else if bit < ws[d as int] {
            let rr = self.fresh(ws, v, addr, d, bit + 1);
            let below = rr.1;
            let next = rr.0.nodes[d as int][below.unwrap() as int].next;
            let node = if addr_bit(addr[d as int], ws[d as int], bit) {
                NCDimNode { left: None, right: below, next: next }
            } else {
                NCDimNode { left: below, right: None, next: next }
            };
            (rr.0.push_node(d, node), Some(rr.0.nodes[d as int].len() as usize), rr.2)
        } else {
            let rr = self.fresh(ws, v, addr, d + 1, 0);
            let node = NCDimNode { left: None, right: None, next: rr.1 };
            (rr.0.push_node(d, node), Some(rr.0.nodes[d as int].len() as usize), rr.2)
        }
    }

    /// The node that `insert` builds over its recursive result `res` in arena
    /// `m`, for the point on the `right` side of node `n` of dimension `d`,
    /// and the arenas once the merge of `next`s it needs is done.
    pub open spec fn inserted_node(m: Self, ws: Seq<nat>, n: NCDimNode, d: nat, right: bool, res0: usize, res1: usize) -> (
        Self,
        NCDimNode,
    ) {
        let r0_next = m.nodes[d as int][res0 as int].next;
        let r1_next = m.nodes[d as int][res1 as int].next;
        if right {
            if n.left is None {
                (m, NCDimNode { left: None, right: Some(res0), next: r0_next })
            } else if n.right is None {
                let mg = m.merged(ws, m.nodes[d as int][n.left.unwrap() as int].next, r0_next, d + 1, 0);
                (mg.0, NCDimNode { left: n.left, right: Some(res0), next: mg.1 })
            } else {
                let mg = m.merged(ws, n.next, r1_next, d + 1, 0);
                (mg.0, NCDimNode { left: n.left, right: Some(res0), next: mg.1 })
            }
        } else {
            if n.right is None {
                (m, NCDimNode { left: Some(res0), right: None, next: r0_next })
            } else if n.left is None {
                let mg = m.merged(ws, m.nodes[d as int][n.right.unwrap() as int].next, r0_next, d + 1, 0);
                (mg.0, NCDimNode { left: Some(res0), right: n.right, next: mg.1 })
            } else {
                let mg = m.merged(ws, n.next, r1_next, d + 1, 0);
                (mg.0, NCDimNode { left: Some(res0), right: n.right, next: mg.1 })
            }
        }
    }

    /// What `insert` of the point `addr` with summary `v` into the subtree
    /// `cur` of dimension `d`, depth `bit`, leaves: the arenas, the node
    /// holding the old points and the new one, and the node holding the new
    /// point alone.
    pub open spec fn inserted(self, ws: Seq<nat>, v: S, addr: Seq<usize>, d: nat, bit: nat, cur: Option<usize>) -> (
        Self,
        Option<usize>,
        Option<usize>,
    )
        decreases ws.len() - d, ws[d as int] - bit,
    {
        if d >= ws.len() {
            let k = self.sums.len();
            let a = self.push_sum(v).push_sum(S::op(v, self.sums[cur.unwrap() as int]));
            (a, Some((k + 1) as usize), Some(k as usize))
        } else if cur is None {
            let f = self.fresh(ws, v, addr, d, bit);
            (f.0, f.1, f.1)
        } else {
            let n = self.nodes[d as int][cur.unwrap() as int];
            if bit >= ws[d as int] {
                let res = self.inserted(ws, v, addr, d + 1, 0, n.next);
                let a3 = res.0.push_node(d, NCDimNode { left: None, right: None, next: res.1 });
                let a4 = a3.push_node(d, NCDimNode { left: None, right: None, next: res.2 });
                let i1 = res.0.nodes[d as int].len();
                (a4, Some(i1 as usize), Some((i1 + 1) as usize))
            } else {
                let right = addr_bit(addr[d as int], ws[d as int], bit);
                let res = self.inserted(ws, v, addr, d, bit + 1, if right { n.right } else { n.left });
                let r0 = res.1.unwrap();
                let r1 = res.2.unwrap();
                let built = Self::inserted_node(res.0, ws, n, d, right, r0, r1);
                let a3 = built.0.push_node(d, built.1);
                let orphan = NCDimNode {
                    left: if right { None } else { res.2 },
                    right: if right { res.2 } else { None },
                    next: a3.nodes[d as int][r1 as int].next,
                };
                let i1 = built.0.nodes[d as int].len();
                (a3.push_node(d, orphan), Some(i1 as usize), Some((i1 + 1) as usize))
            }
        }
    }

    /// What `add` of the point `addr` with summary `v` leaves, from arenas
    /// whose root is `root`: the arenas and the new root. The new root and
    /// the node of the new point alone each get a reference; the old root and
    /// then that node are released.
    pub open spec fn added(self, v: S, addr: Seq<usize>, root: Option<usize>) -> (Self, Option<usize>) {
        let ins = self.inserted(self.widths, v, addr, 0, 0, root);
        let a1 = ins.0.bump(0, ins.1);
        let a2 = match root {
            Some(b) => a1.released(seq![(b, 0usize)], a1.fuel()),
            None => a1,
        };
        let a3 = a2.bump(0, ins.2);
        let a4 = match ins.2 {
            Some(o) => a3.released(seq![(o, 0usize)], a3.fuel()),
            None => a3,
        };
        (a4, ins.1)
    }
}

/// The arenas of a cube of dimensions of widths `ws` that holds nothing.
pub open spec fn empty_arenas<S>(ws: Seq<nat>) -> Arenas<S> {
    Arenas {
        widths: ws,
        nodes: Seq::new(ws.len(), |d: int| Seq::<NCDimNode>::empty()),
        counts: Seq::new(ws.len() + 1, |d: int| Seq::<u128>::empty()),
        sums: Seq::empty(),
    }
}

/// The arenas and root of the cube of dimensions of widths `ws` built by
/// adding the points `pts`, in order, each counted once.
pub open spec fn built(ws: Seq<nat>, pts: Seq<Seq<usize>>) -> (Arenas<usize>, Option<usize>)
    decreases pts.len(),
{
    if pts.len() == 0 {
        (empty_arenas(ws), None)
    } else {
        let p = built(ws, pts.drop_last());
        p.0.added(1, pts.last(), p.1)
    }
}

} // verus!
