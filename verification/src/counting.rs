//! Counting the pointers that the nodes of an arena hold.

use vstd::prelude::*;
use crate::nanocube::NCDimNode;

verus! {

/// Which pointers of a node are counted.
pub enum PtrKind {
    /// `left` and `right` pointers equal to the target.
    Child,
    /// The `next` pointer, if equal to the target.
    Next,
    /// Every pointer that is present, whatever its target.
    Any,
}

pub open spec fn opt_is(o: Option<usize>, t: usize) -> nat {
    if o == Some(t) { 1 } else { 0 }
}

pub open spec fn opt_present(o: Option<usize>) -> nat {
    if o is Some { 1 } else { 0 }
}

/// How many pointers of `n` of the given kind there are (to `t`).
pub open spec fn hits(kind: PtrKind, n: NCDimNode, t: usize) -> nat {
    match kind {
        PtrKind::Child => opt_is(n.left, t) + opt_is(n.right, t),
        PtrKind::Next => opt_is(n.next, t),
        PtrKind::Any => opt_present(n.left) + opt_present(n.right) + opt_present(n.next),
    }
}

/// The sum of `hits` over the nodes of `s`.
pub open spec fn sum_hits(s: Seq<NCDimNode>, kind: PtrKind, t: usize) -> nat
    decreases s.len(),
{
    if s.len() == 0 {
        0
    } else {
        sum_hits(s.drop_last(), kind, t) + hits(kind, s.last(), t)
    }
}

pub proof fn lemma_sum_push(s: Seq<NCDimNode>, n: NCDimNode, kind: PtrKind, t: usize)
    ensures
        sum_hits(s.push(n), kind, t) == sum_hits(s, kind, t) + hits(kind, n, t),
{
    assert(s.push(n).drop_last() =~= s);
}

pub proof fn lemma_sum_update(s: Seq<NCDimNode>, j: int, n: NCDimNode, kind: PtrKind, t: usize)
    requires
        0 <= j < s.len(),
    ensures
        sum_hits(s.update(j, n), kind, t) + hits(kind, s[j], t) == sum_hits(s, kind, t) + hits(
            kind,
            n,
            t,
        ),
    decreases s.len(),
{
    if j == s.len() - 1 {
        assert(s.update(j, n).drop_last() =~= s.drop_last());
    } else {
        lemma_sum_update(s.drop_last(), j, n, kind, t);
        assert(s.update(j, n).drop_last() =~= s.drop_last().update(j, n));
    }
}

pub proof fn lemma_sum_at_least(s: Seq<NCDimNode>, j: int, kind: PtrKind, t: usize)
    requires
        0 <= j < s.len(),
    ensures
        sum_hits(s, kind, t) >= hits(kind, s[j], t),
    decreases s.len(),
{
    if j < s.len() - 1 {
        lemma_sum_at_least(s.drop_last(), j, kind, t);
    }
}

pub proof fn lemma_sum_bound(s: Seq<NCDimNode>, kind: PtrKind, t: usize)
    ensures
        sum_hits(s, kind, t) <= 3 * s.len(),
    decreases s.len(),
{
    if s.len() > 0 {
        lemma_sum_bound(s.drop_last(), kind, t);
    }
}

/// No node points at `t` when every pointer stays below `bound <= t`.
pub proof fn lemma_sum_zero(s: Seq<NCDimNode>, kind: PtrKind, t: usize, bound: nat)
    requires
        bound <= t,
        kind !is Any,
        forall|j: int|
            0 <= j < s.len() ==> {
                let n = #[trigger] s[j];
                &&& (kind is Child ==> (n.left matches Some(l) ==> l < bound) && (
                n.right matches Some(r) ==> r < bound))
                &&& (kind is Next ==> (n.next matches Some(k) ==> k < bound))
            },
    ensures
        sum_hits(s, kind, t) == 0,
    decreases s.len(),
{
    if s.len() > 0 {
        assert(s.last() == s[s.len() - 1]);
        lemma_sum_zero(s.drop_last(), kind, t, bound);
    }
}

} // verus!

verus! {

/// How many times `e` occurs in `s`.
pub open spec fn occ(s: Seq<(usize, usize)>, e: (usize, usize)) -> nat
    decreases s.len(),
{
    if s.len() == 0 {
        0
    } else {
        occ(s.drop_last(), e) + if s.last() == e {
            1nat
        } else {
            0nat
        }
    }
}

pub proof fn lemma_occ_push(s: Seq<(usize, usize)>, x: (usize, usize), e: (usize, usize))
    ensures
        occ(s.push(x), e) == occ(s, e) + if x == e {
            1nat
        } else {
            0nat
        },
{
    assert(s.push(x).drop_last() =~= s);
}

/// A node that holds no pointer.
pub open spec fn cleared() -> NCDimNode {
    NCDimNode { left: None, right: None, next: None }
}

} // verus!
