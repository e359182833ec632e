//! Graphviz text of a nanocube: one cluster per dimension, one vertex per
//! node that is still referenced, and an edge for every refinement pointer.

use vstd::prelude::*;
use crate::nanocube::{NCDim, NCDimNode, Nanocube};
use crate::text_laws::{quoted_id, blocks_of, cluster_words, clusters_of, lemma_cluster_text, lemma_graph_text, lemma_listing};

verus! {

pub open spec fn digit(k: nat) -> char {
    (48 + k) as char
}

/// The decimal digits of `n`, most significant first.
pub open spec fn decimal(n: nat) -> Seq<char>
    decreases n,
{
    if n < 10 {
        seq![digit(n)]
    } else {
        decimal(n / 10).push(digit(n % 10))
    }
}

/// The one-character text of a decimal digit.
fn digit_text(k: u8) -> (s: String)
    requires
        k < 10,
    ensures
        s@ == seq![digit(k as nat)],
{
    proof {
        reveal_strlit("0");
        reveal_strlit("1");
        reveal_strlit("2");
        reveal_strlit("3");
        reveal_strlit("4");
        reveal_strlit("5");
        reveal_strlit("6");
        reveal_strlit("7");
        reveal_strlit("8");
        reveal_strlit("9");
    }
    let t = match k {
        0 => "0",
        1 => "1",
        2 => "2",
        3 => "3",
        4 => "4",
        5 => "5",
        6 => "6",
        7 => "7",
        8 => "8",
        _ => "9",
    };
    String::from_str(t)
}

/// The decimal representation of `n`, most significant digit first.
fn u128_text(n: u128) -> (s: String)
    ensures
        s@ == decimal(n as nat),
    decreases n,
{
    if n < 10 {
        digit_text(n as u8)
    } else {
        let mut s = u128_text(n / 10);
        let d = digit_text((n % 10) as u8);
        s.append(d.as_str());
        s
    }
}

/// The decimal representation of `n`, most significant digit first.
fn usize_text(n: usize) -> (s: String)
    ensures
        s@ == decimal(n as nat),
{
    u128_text(n as u128)
}

pub open spec fn node_id_text(i: nat, dim: nat) -> Seq<char> {
    "\""@ + decimal(i) + "_"@ + decimal(dim) + "\""@
}

/// The name of the vertex of node `i` of dimension `dim`: `"i_dim"`,
/// quotes included.
pub fn node_id(i: usize, dim: usize) -> (r: String)
    ensures
        r@ == node_id_text(i as nat, dim as nat),
        r@ == quoted_id(i as nat, dim as nat),
{
    let mut s = String::from_str("\"");
    s.append(usize_text(i).as_str());
    s.append("_");
    s.append(usize_text(dim).as_str());
    s.append("\"");
    s
}

/// The vertex line of node `i` of `dim`, empty when no one refers to it.
pub open spec fn vertex_line(dim: &NCDim, d: nat, i: nat) -> Seq<char> {
    let n = dim.nodes.values@[i as int];
    let rc = dim.nodes.ref_counts@[i as int];
    if rc == 0 {
        Seq::empty()
    } else {
        "  "@ + node_id_text(i, d) + " [label=\""@ + decimal(i) + ":"@ + match n.next {
            None => "None"@,
            Some(s) => decimal(s as nat),
        } + " ["@ + decimal(rc as nat) + "]\"];\n"@
    }
}

/// The edge lines of node `i` of `dim`: label 0 to its left child, 1 to its
/// right one.
pub open spec fn edge_lines(dim: &NCDim, d: nat, i: nat) -> Seq<char> {
    let n = dim.nodes.values@[i as int];
    (match n.left {
        None => Seq::empty(),
        Some(l) => "  "@ + node_id_text(i, d) + " -> "@ + node_id_text(l as nat, d) + " [label=\"0\"];\n"@,
    }) + (match n.right {
        None => Seq::empty(),
        Some(r) => "  "@ + node_id_text(i, d) + " -> "@ + node_id_text(r as nat, d) + " [label=\"1\"];\n"@,
    })
}

pub open spec fn vertex_lines(dim: &NCDim, d: nat, k: nat) -> Seq<char>
    decreases k,
{
    if k == 0 {
        Seq::empty()
    } else {
        vertex_lines(dim, d, (k - 1) as nat) + vertex_line(dim, d, (k - 1) as nat)
    }
}

pub open spec fn all_edge_lines(dim: &NCDim, d: nat, k: nat) -> Seq<char>
    decreases k,
{
    if k == 0 {
        Seq::empty()
    } else {
        all_edge_lines(dim, d, (k - 1) as nat) + edge_lines(dim, d, (k - 1) as nat)
    }
}

/// The cluster of dimension `d`.
pub open spec fn ncdim_text(dim: &NCDim, d: nat) -> Seq<char> {
    let len = dim.nodes.values@.len();
    " subgraph cluster_"@ + decimal(d) + " {\n"@ + " label=\"Dim. "@ + decimal(d) + "\";\n"@
        + vertex_lines(dim, d, len) + "}\n"@ + all_edge_lines(dim, d, len)
}

pub open spec fn clusters_text<S>(nc: &Nanocube<S>, k: nat) -> Seq<char>
    decreases k,
{
    if k == 0 {
        Seq::empty()
    } else {
        clusters_text(nc, (k - 1) as nat) + ncdim_text(&nc.dims@[k - 1], (k - 1) as nat)
    }
}

/// The whole graph.
pub open spec fn dot_text<S>(nc: &Nanocube<S>) -> Seq<char> {
    "digraph G {\n"@ + "    splines=line;\n"@ + clusters_text(nc, nc.dims@.len()) + "}\n"@
}

pub fn print_dot_ncdim(dim: &NCDim, d: usize, draw_next: bool) -> (r: String)
    requires
        dim.nodes.values@.len() <= dim.nodes.ref_counts@.len(),
    ensures
        r@ == ncdim_text(dim, d as nat),
        r@ == cluster_words(dim, d as nat),
{
    proof {
        lemma_cluster_text(dim, d as nat);
    }
    let mut w = String::from_str(" subgraph cluster_");
    w.append(usize_text(d).as_str());
    w.append(" {\n");
    w.append(" label=\"Dim. ");
    w.append(usize_text(d).as_str());
    w.append("\";\n");
    let ghost head = w@;
    let len = dim.len();
    let mut i: usize = 0;
    while i < len
        invariant
            dim.nodes.values@.len() <= dim.nodes.ref_counts@.len(),
            len == dim.nodes.values@.len(),
            i <= len,
            w@ == head + vertex_lines(dim, d as nat, i as nat),
        decreases len - i,
    {
        let mut line = String::new();
        if dim.nodes.ref_counts[i] != 0 {
            let next = match dim.nodes.values[i].next {
                None => String::from_str("None"),
                Some(s) => usize_text(s),
            };
            line.append("  ");
            line.append(node_id(i, d).as_str());
            line.append(" [label=\"");
            line.append(usize_text(i).as_str());
            line.append(":");
            line.append(next.as_str());
            line.append(" [");
            line.append(u128_text(dim.nodes.ref_counts[i]).as_str());
            line.append("]\"];\n");
            proof {
                assert(line@ =~= vertex_line(dim, d as nat, i as nat));
            }
        }
        w.append(line.as_str());
        proof {
            assert(head + vertex_lines(dim, d as nat, (i + 1) as nat) =~= head + vertex_lines(dim, d as nat, i as nat)
                + vertex_line(dim, d as nat, i as nat));
        }
        i = i + 1;
    }
    w.append("}\n");
    let ghost mid = w@;
    let mut i: usize = 0;
    while i < len
        invariant
            dim.nodes.values@.len() <= dim.nodes.ref_counts@.len(),
            len == dim.nodes.values@.len(),
            i <= len,
            w@ == mid + all_edge_lines(dim, d as nat, i as nat),
        decreases len - i,
    {
        let node = &dim.nodes.values[i];
        let mut line0 = String::new();
        if let Some(left) = node.left {
            line0.append("  ");
            line0.append(node_id(i, d).as_str());
            line0.append(" -> ");
            line0.append(node_id(left, d).as_str());
            line0.append(" [label=\"0\"];\n");
        }
        let mut line1 = String::new();
        if let Some(right) = node.right {
            line1.append("  ");
            line1.append(node_id(i, d).as_str());
            line1.append(" -> ");
            line1.append(node_id(right, d).as_str());
            line1.append(" [label=\"1\"];\n");
        }
        proof {
            assert(line0@ + line1@ =~= edge_lines(dim, d as nat, i as nat));
        }
        w.append(line0.as_str());
        w.append(line1.as_str());
        proof {
            assert(mid + all_edge_lines(dim, d as nat, (i + 1) as nat) =~= mid + all_edge_lines(dim, d as nat, i as nat)
                + edge_lines(dim, d as nat, i as nat));
        }
        i = i + 1;
    }
    w
}

/// The graph of `nc`, in the dot language of Graphviz.
pub fn print_dot<Summary>(nc: &Nanocube<Summary>) -> (r: String)
    requires
        forall|d: int|
            0 <= d < nc.dims@.len() ==> (#[trigger] nc.dims@[d]).nodes.values@.len()
                <= nc.dims@[d].nodes.ref_counts@.len(),
    ensures
        r@ == dot_text(nc),
        r@ == "digraph G {\n"@ + "    splines=line;\n"@ + clusters_of(nc).flatten() + "}\n"@,
{
    proof {
        lemma_graph_text(nc);
    }
    let mut w = String::from_str("digraph G {\n");
    w.append("    splines=line;\n");
    let ghost head = w@;
    let mut i: usize = 0;
    while i < nc.dims.len()
        invariant
            forall|d: int|
                0 <= d < nc.dims@.len() ==> (#[trigger] nc.dims@[d]).nodes.values@.len()
                    <= nc.dims@[d].nodes.ref_counts@.len(),
            i <= nc.dims@.len(),
            w@ == head + clusters_text(nc, i as nat),
        decreases nc.dims@.len() - i,
    {
        let text = print_dot_ncdim(&nc.dims[i], i, i < (nc.dims.len() - 1));
        w.append(text.as_str());
        proof {
            assert(head + clusters_text(nc, (i + 1) as nat) =~= head + clusters_text(nc, i as nat) + ncdim_text(
                &nc.dims@[i as int],
                i as nat,
            ));
        }
        i = i + 1;
    }
    w.append("}\n");
    w
}

/// An optional slot as `Debug` prints it: `None` or `Some(k)`.
pub open spec fn opt_text(o: Option<usize>) -> Seq<char> {
    match o {
        None => "None"@,
        Some(k) => "Some("@ + decimal(k as nat) + ")"@,
    }
}

/// The line of one node: its left, right and next slots.
pub open spec fn node_line(n: NCDimNode) -> Seq<char> {
    opt_text(n.left) + " "@ + opt_text(n.right) + " "@ + opt_text(n.next) + "\n"@
}

/// The lines of the first `k` nodes.
pub open spec fn node_lines(nodes: Seq<NCDimNode>, k: nat) -> Seq<char>
    decreases k,
{
    if k == 0 {
        Seq::empty()
    } else {
        node_lines(nodes, (k - 1) as nat) + node_line(nodes[k - 1])
    }
}

/// The listing of the first `k` dimensions, each after a rule.
pub open spec fn dims_txt<S>(nc: &Nanocube<S>, k: nat) -> Seq<char>
    decreases k,
{
    if k == 0 {
        Seq::empty()
    } else {
        dims_txt(nc, (k - 1) as nat) + "--------\n"@ + node_lines(
            nc.dims@[k - 1].nodes.values@,
            nc.dims@[k - 1].nodes.values@.len(),
        )
    }
}

/// The listing of every node of every dimension.
pub open spec fn txt_spec<S>(nc: &Nanocube<S>) -> Seq<char> {
    dims_txt(nc, nc.dims@.len())
}

fn opt_slot_text(o: Option<usize>) -> (r: String)
    ensures
        r@ == opt_text(o),
{
    match o {
        None => String::from_str("None"),
        Some(k) => {
            let mut s = String::from_str("Some(");
            s.append(usize_text(k).as_str());
            s.append(")");
            s
        },
    }
}

/// The plain-text listing of the cube: for each dimension a rule, then one
/// line per node with its left, right and next slots.
pub fn txt_text<S>(nc: &Nanocube<S>) -> (r: String)
    ensures
        r@ == txt_spec(nc),
        r@ == blocks_of(nc).flatten(),
{
    proof {
        lemma_listing(nc);
    }
    let mut w = String::new();
    let mut i: usize = 0;
    while i < nc.dims.len()
        invariant
            i <= nc.dims@.len(),
            w@ == dims_txt(nc, i as nat),
        decreases nc.dims@.len() - i,
    {
        let ghost before = w@;
        w.append("--------\n");
        let ghost head = w@;
        let nodes = &nc.dims[i].nodes.values;
        let mut j: usize = 0;
        while j < nodes.len()
            invariant
                j <= nodes@.len(),
                w@ == head + node_lines(nodes@, j as nat),
            decreases nodes@.len() - j,
        {
            let n = nodes[j];
            let mut line = opt_slot_text(n.left);
            line.append(" ");
            line.append(opt_slot_text(n.right).as_str());
            line.append(" ");
            line.append(opt_slot_text(n.next).as_str());
            line.append("\n");
            w.append(line.as_str());
            proof {
                assert(line@ =~= node_line(nodes@[j as int]));
                assert(head + node_lines(nodes@, (j + 1) as nat) =~= head + node_lines(nodes@, j as nat) + node_line(
                    nodes@[j as int],
                ));
            }
            j = j + 1;
        }
        proof {
            assert(dims_txt(nc, (i + 1) as nat) =~= before + "--------\n"@ + node_lines(nodes@, nodes@.len()));
        }
        i = i + 1;
    }
    w
}

/// The lines of a dimension depend only on its nodes and their counts.
pub proof fn lemma_ncdim_text_same(a: &NCDim, b: &NCDim, d: nat)
    requires
        a.nodes.values@ == b.nodes.values@,
        a.nodes.ref_counts@ == b.nodes.ref_counts@,
    ensures
        ncdim_text(a, d) == ncdim_text(b, d),
{
    let len = a.nodes.values@.len();
    assert forall|k: nat| k <= len implies #[trigger] vertex_lines(a, d, k) == vertex_lines(b, d, k) && all_edge_lines(a, d, k)
        == all_edge_lines(b, d, k) by {
        lemma_lines_same(a, b, d, k);
    }
}

proof fn lemma_lines_same(a: &NCDim, b: &NCDim, d: nat, k: nat)
    requires
        a.nodes.values@ == b.nodes.values@,
        a.nodes.ref_counts@ == b.nodes.ref_counts@,
    ensures
        vertex_lines(a, d, k) == vertex_lines(b, d, k),
        all_edge_lines(a, d, k) == all_edge_lines(b, d, k),
    decreases k,
{
    if k > 0 {
        lemma_lines_same(a, b, d, (k - 1) as nat);
    }
}

/// The graph text and the listing of a cube depend only on its arenas: two
/// cubes with the same arenas print alike.
pub proof fn lemma_texts_of_arenas<S>(a: &Nanocube<S>, b: &Nanocube<S>)
    requires
        a.arenas() == b.arenas(),
    ensures
        dot_text(a) == dot_text(b),
        txt_spec(a) == txt_spec(b),
{
    assert(a.dims@.len() == a.arenas().nodes.len());
    let n = a.dims@.len();
    assert forall|k: nat| k <= n implies #[trigger] clusters_text(a, k) == clusters_text(b, k) && dims_txt(a, k) == dims_txt(b, k) by {
        lemma_clusters_same(a, b, k);
    }
}

proof fn lemma_clusters_same<S>(a: &Nanocube<S>, b: &Nanocube<S>, k: nat)
    requires
        a.arenas() == b.arenas(),
        k <= a.dims@.len(),
    ensures
        clusters_text(a, k) == clusters_text(b, k),
        dims_txt(a, k) == dims_txt(b, k),
    decreases k,
{
    if k > 0 {
        lemma_clusters_same(a, b, (k - 1) as nat);
        let e = (k - 1) as nat;
        assert(a.arenas().nodes.len() == a.num_dims());
        assert(b.arenas().nodes.len() == b.num_dims());
        assert(a.arenas().nodes[e as int] == a.nodes_of(e));
        assert(b.arenas().nodes[e as int] == b.nodes_of(e));
        assert(a.arenas().counts[e as int] == a.counts_of(e));
        assert(b.arenas().counts[e as int] == b.counts_of(e));
        lemma_ncdim_text_same(&a.dims@[e as int], &b.dims@[e as int], e);
    }
}

} // verus!
