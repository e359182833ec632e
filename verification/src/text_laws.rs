//! What the printed forms of a cube say, node by node: the Graphviz text has,
//! for every dimension, a cluster with one vertex per referenced node and
//! one edge per child pointer; the listing has, for every dimension in
//! order, a rule and then one line per node of that dimension.

use vstd::prelude::*;
use crate::dot::{
    all_edge_lines, digit, clusters_text, decimal, dims_txt, dot_text, ncdim_text, node_lines, txt_spec,
    vertex_lines,
};
use crate::nanocube::{NCDim, NCDimNode, Nanocube};

verus! {

/// The quoted name of node `i` of dimension `d`.
pub open spec fn quoted_id(i: nat, d: nat) -> Seq<char> {
    "\""@ + decimal(i) + "_"@ + decimal(d) + "\""@
}

/// The edge from node `i` to its left child `c`, labelled 0.
pub open spec fn left_edge(i: nat, c: usize, d: nat) -> Seq<char> {
    "  "@ + quoted_id(i, d) + " -> "@ + quoted_id(c as nat, d) + " [label=\"0\"];\n"@
}

/// The edge from node `i` to its right child `c`, labelled 1.
pub open spec fn right_edge(i: nat, c: usize, d: nat) -> Seq<char> {
    "  "@ + quoted_id(i, d) + " -> "@ + quoted_id(c as nat, d) + " [label=\"1\"];\n"@
}

/// The edges of node `n`, number `i` of dimension `d`: to its left child if
/// it has one, then to its right child if it has one.
pub open spec fn node_edges(n: NCDimNode, i: nat, d: nat) -> Seq<char> {
    (if n.left is Some { left_edge(i, n.left.unwrap(), d) } else { Seq::empty() }) + (if n.right is Some {
        right_edge(i, n.right.unwrap(), d)
    } else {
        Seq::empty()
    })
}

/// The vertex of node `n`, number `i` of dimension `d`, with count `c`:
/// nothing when the count is zero.
pub open spec fn vertex_words(n: NCDimNode, c: u128, i: nat, d: nat) -> Seq<char> {
    if c == 0 {
        Seq::empty()
    } else {
        "  "@ + quoted_id(i, d) + " [label=\""@ + decimal(i) + ":"@ + (if n.next is Some {
            decimal(n.next.unwrap() as nat)
        } else {
            "None"@
        }) + " ["@ + decimal(c as nat) + "]\"];\n"@
    }
}

/// The vertices of the first `k` nodes of `dim`, one per node.
pub open spec fn vertices_of(dim: &NCDim, d: nat, k: nat) -> Seq<Seq<char>> {
    Seq::new(k, |i: int| vertex_words(dim.nodes.values@[i], dim.nodes.ref_counts@[i], i as nat, d))
}

/// The edges of the first `k` nodes of `dim`, one group per node.
pub open spec fn edges_of(dim: &NCDim, d: nat, k: nat) -> Seq<Seq<char>> {
    Seq::new(k, |i: int| node_edges(dim.nodes.values@[i], i as nat, d))
}

/// The cluster of dimension `d`: its title, the vertices of its nodes in
/// order, then the edges of its nodes in order.
pub open spec fn cluster_words(dim: &NCDim, d: nat) -> Seq<char> {
    let k = dim.nodes.values@.len();
    " subgraph cluster_"@ + decimal(d) + " {\n"@ + " label=\"Dim. "@ + decimal(d) + "\";\n"@
        + vertices_of(dim, d, k).flatten() + "}\n"@ + edges_of(dim, d, k).flatten()
}

/// The clusters of the dimensions of `nc`, in order.
pub open spec fn clusters_of<S>(nc: &Nanocube<S>) -> Seq<Seq<char>> {
    Seq::new(nc.num_dims(), |d: int| cluster_words(&nc.dims@[d], d as nat))
}

/// The slot `o` as the listing writes it.
pub open spec fn slot_words(o: Option<usize>) -> Seq<char> {
    if o is Some {
        "Some("@ + decimal(o.unwrap() as nat) + ")"@
    } else {
        "None"@
    }
}

/// The listing line of node `n`: its left, right and next slots.
pub open spec fn listed_line(n: NCDimNode) -> Seq<char> {
    slot_words(n.left) + " "@ + slot_words(n.right) + " "@ + slot_words(n.next) + "\n"@
}

/// The block of dimension `d` in the listing: a rule, then the line of each
/// node of dimension `d`, in order.
pub open spec fn listed_block<S>(nc: &Nanocube<S>, d: nat) -> Seq<char> {
    "--------\n"@ + Seq::new(nc.nodes_of(d).len(), |j: int| listed_line(nc.nodes_of(d)[j])).flatten()
}

/// The blocks of the dimensions of `nc`, in order.
pub open spec fn blocks_of<S>(nc: &Nanocube<S>) -> Seq<Seq<char>> {
    Seq::new(nc.num_dims(), |d: int| listed_block(nc, d as nat))
}

/// `s` occurs in `t`.
pub open spec fn occurs_in(s: Seq<char>, t: Seq<char>) -> bool {
    exists|p: int| 0 <= p && p + s.len() <= t.len() && #[trigger] t.subrange(p, p + s.len()) == s
}

pub proof fn lemma_occurs_concat(s: Seq<char>, a: Seq<char>, b: Seq<char>)
    ensures
        occurs_in(s, a) ==> occurs_in(s, a + b),
        occurs_in(s, b) ==> occurs_in(s, a + b),
        occurs_in(s, s),
{
    assert(s.subrange(0int, 0int + s.len()) =~= s);
    if occurs_in(s, a) {
        let p = choose|p: int| 0 <= p && p + s.len() <= a.len() && #[trigger] a.subrange(p, p + s.len()) == s;
        assert((a + b).subrange(p, p + s.len()) =~= a.subrange(p, p + s.len()));
    }
    if occurs_in(s, b) {
        let p = choose|p: int| 0 <= p && p + s.len() <= b.len() && #[trigger] b.subrange(p, p + s.len()) == s;
        assert((a + b).subrange(a.len() + p, a.len() + p + s.len()) =~= b.subrange(p, p + s.len()));
    }
}

proof fn lemma_occurs_flatten(parts: Seq<Seq<char>>, s: Seq<char>, i: int)
    requires
        0 <= i < parts.len(),
        occurs_in(s, parts[i]),
    ensures
        occurs_in(s, parts.flatten()),
    decreases parts.len(),
{
    broadcast use Seq::lemma_flatten_push;
    let dl = parts.drop_last();
    assert(parts =~= dl.push(parts.last()));
    if i == parts.len() - 1 {
        lemma_occurs_concat(s, dl.flatten(), parts.last());
    } else {
        assert(dl[i] == parts[i]);
        lemma_occurs_flatten(dl, s, i);
        lemma_occurs_concat(s, dl.flatten(), parts.last());
    }
}

proof fn lemma_lines_flat(dim: &NCDim, d: nat, k: nat)
    requires
        k <= dim.nodes.values@.len(),
    ensures
        vertex_lines(dim, d, k) == vertices_of(dim, d, k).flatten(),
        all_edge_lines(dim, d, k) == edges_of(dim, d, k).flatten(),
    decreases k,
{
    broadcast use Seq::lemma_flatten_push;
    if k > 0 {
        let j = (k - 1) as nat;
        lemma_lines_flat(dim, d, j);
        assert(vertices_of(dim, d, k) =~= vertices_of(dim, d, j).push(vertices_of(dim, d, k)[j as int]));
        assert(edges_of(dim, d, k) =~= edges_of(dim, d, j).push(edges_of(dim, d, k)[j as int]));
    }
}

/// The Graphviz text of a dimension is its title, then one vertex for each
/// of its nodes in order (nothing for a node whose count is zero), then, for
/// each of its nodes in order, an edge labelled 0 to its left child and an
/// edge labelled 1 to its right child, each exactly when that child exists.
pub proof fn lemma_cluster_text(dim: &NCDim, d: nat)
    ensures
        ncdim_text(dim, d) == cluster_words(dim, d),
{
    lemma_lines_flat(dim, d, dim.nodes.values@.len());
}

/// Every child pointer of a node of a dimension shows in the text of that
/// dimension as an edge: labelled 0 for the left child, 1 for the right.
pub proof fn lemma_cluster_edges(dim: &NCDim, d: nat, i: nat)
    requires
        i < dim.nodes.values@.len(),
    ensures
        dim.nodes.values@[i as int].left matches Some(c) ==> occurs_in(left_edge(i, c, d), ncdim_text(dim, d)),
        dim.nodes.values@[i as int].right matches Some(c) ==> occurs_in(right_edge(i, c, d), ncdim_text(dim, d)),
{
    let k = dim.nodes.values@.len();
    let n = dim.nodes.values@[i as int];
    lemma_cluster_text(dim, d);
    let es = edges_of(dim, d, k);
    assert(es[i as int] == node_edges(n, i, d));
    let head = " subgraph cluster_"@ + decimal(d) + " {\n"@ + " label=\"Dim. "@ + decimal(d) + "\";\n"@
        + vertices_of(dim, d, k).flatten() + "}\n"@;
    assert(cluster_words(dim, d) == head + es.flatten());
    if let Some(c) = n.left {
        let e = left_edge(i, c, d);
        let rest = if n.right is Some { right_edge(i, n.right.unwrap(), d) } else { Seq::empty() };
        lemma_occurs_concat(e, e, rest);
        lemma_occurs_flatten(es, e, i as int);
        lemma_occurs_concat(e, head, es.flatten());
    }
    if let Some(c) = n.right {
        let e = right_edge(i, c, d);
        let first = if n.left is Some { left_edge(i, n.left.unwrap(), d) } else { Seq::empty() };
        lemma_occurs_concat(e, first, e);
        lemma_occurs_flatten(es, e, i as int);
        lemma_occurs_concat(e, head, es.flatten());
    }
}

proof fn lemma_clusters_flat<S>(nc: &Nanocube<S>, k: nat)
    requires
        k <= nc.num_dims(),
    ensures
        clusters_text(nc, k) == clusters_of(nc).take(k as int).flatten(),
    decreases k,
{
    broadcast use Seq::lemma_flatten_push;
    if k > 0 {
        let j = (k - 1) as nat;
        lemma_clusters_flat(nc, j);
        lemma_cluster_text(&nc.dims@[j as int], j);
        assert(clusters_of(nc).take(k as int) =~= clusters_of(nc).take(j as int).push(clusters_of(nc)[j as int]));
    }
}

/// The Graphviz text of a cube is its header, the cluster of each of its
/// dimensions in order, and the closing brace.
pub proof fn lemma_graph_text<S>(nc: &Nanocube<S>)
    ensures
        dot_text(nc) == "digraph G {\n"@ + "    splines=line;\n"@ + clusters_of(nc).flatten() + "}\n"@,
{
    lemma_clusters_flat(nc, nc.num_dims());
    assert(clusters_of(nc).take(nc.num_dims() as int) =~= clusters_of(nc));
}

/// Every child pointer of every node of every dimension shows in the
/// Graphviz text of the cube as an edge of that dimension: labelled 0 for
/// the left child, 1 for the right.
pub proof fn lemma_graph_edges<S>(nc: &Nanocube<S>, d: nat, i: nat)
    requires
        d < nc.num_dims(),
        i < nc.slots(d),
    ensures
        nc.nodes_of(d)[i as int].left matches Some(c) ==> occurs_in(left_edge(i, c, d), dot_text(nc)),
        nc.nodes_of(d)[i as int].right matches Some(c) ==> occurs_in(right_edge(i, c, d), dot_text(nc)),
{
    let dim = &nc.dims@[d as int];
    lemma_cluster_edges(dim, d, i);
    lemma_cluster_text(dim, d);
    lemma_graph_text(nc);
    let cs = clusters_of(nc);
    assert(cs[d as int] == ncdim_text(dim, d));
    let head = "digraph G {\n"@ + "    splines=line;\n"@;
    assert(dot_text(nc) == head + cs.flatten() + "}\n"@);
    let n = nc.nodes_of(d)[i as int];
    if let Some(c) = n.left {
        let e = left_edge(i, c, d);
        lemma_occurs_flatten(cs, e, d as int);
        lemma_occurs_concat(e, head, cs.flatten());
        lemma_occurs_concat(e, head + cs.flatten(), "}\n"@);
    }
    if let Some(c) = n.right {
        let e = right_edge(i, c, d);
        lemma_occurs_flatten(cs, e, d as int);
        lemma_occurs_concat(e, head, cs.flatten());
        lemma_occurs_concat(e, head + cs.flatten(), "}\n"@);
    }
}

proof fn lemma_node_lines_flat(ns: Seq<NCDimNode>, k: nat)
    requires
        k <= ns.len(),
    ensures
        node_lines(ns, k) == Seq::new(k, |j: int| listed_line(ns[j])).flatten(),
    decreases k,
{
    broadcast use Seq::lemma_flatten_push;
    if k > 0 {
        let j = (k - 1) as nat;
        lemma_node_lines_flat(ns, j);
        assert(Seq::new(k, |x: int| listed_line(ns[x])) =~= Seq::new(j, |x: int| listed_line(ns[x])).push(
            listed_line(ns[j as int]),
        ));
    }
}

proof fn lemma_blocks_flat<S>(nc: &Nanocube<S>, k: nat)
    requires
        k <= nc.num_dims(),
    ensures
        dims_txt(nc, k) == blocks_of(nc).take(k as int).flatten(),
    decreases k,
{
    broadcast use Seq::lemma_flatten_push;
    if k > 0 {
        let j = (k - 1) as nat;
        lemma_blocks_flat(nc, j);
        lemma_node_lines_flat(nc.nodes_of(j), nc.nodes_of(j).len());
        assert(blocks_of(nc).take(k as int) =~= blocks_of(nc).take(j as int).push(blocks_of(nc)[j as int]));
    }
}

/// The listing of a cube is, for each dimension `d` in order, a rule
/// followed by one line per node of dimension `d`, the line of node `j`
/// giving its left, right and next slots.
pub proof fn lemma_listing<S>(nc: &Nanocube<S>)
    ensures
        txt_spec(nc) == blocks_of(nc).flatten(),
{
    lemma_blocks_flat(nc, nc.num_dims());
    assert(blocks_of(nc).take(nc.num_dims() as int) =~= blocks_of(nc));
}

/// The number that the decimal digits `s` stand for, most significant
/// first.
pub open spec fn digits_value(s: Seq<char>) -> int
    decreases s.len(),
{
    if s.len() == 0 {
        0
    } else {
        digits_value(s.drop_last()) * 10 + (s.last() as int - 48)
    }
}

/// The decimal text of `n` is made of the digits `0` to `9` only, reads
/// back as `n`, and has no leading zero.
pub proof fn lemma_decimal_reads_back(n: nat)
    ensures
        decimal(n).len() > 0,
        forall|j: int| 0 <= j < decimal(n).len() ==> '0' <= #[trigger] decimal(n)[j] <= '9',
        digits_value(decimal(n)) == n,
        decimal(n)[0] == '0' ==> n == 0,
    decreases n,
{
    if n >= 10 {
        lemma_decimal_reads_back(n / 10);
        let s = decimal(n);
        let p = decimal(n / 10);
        assert(s == p.push(digit(n % 10)));
        assert(s.drop_last() =~= p);
        assert((digit(n % 10) as int) == 48 + n % 10);
        assert forall|j: int| 0 <= j < s.len() implies '0' <= #[trigger] s[j] <= '9' by {
            if j < p.len() {
                assert(s[j] == p[j]);
            }
        }
        assert(s[0] == p[0]);
        assert(s.last() == digit(n % 10));
        assert(digits_value(s) == digits_value(p) * 10 + (n % 10) as int);
        assert(n == (n / 10) * 10 + n % 10);
    } else {
        let s = decimal(n);
        assert((digit(n) as int) == 48 + n);
        assert(s.drop_last() =~= Seq::<char>::empty());
        assert(s.last() == digit(n));
        assert(digits_value(s) == digits_value(s.drop_last()) * 10 + (s.last() as int - 48));
    }
}

} // verus!
