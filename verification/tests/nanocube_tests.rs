use lib::cube::Monoid;
use lib::dot::{node_id, print_dot, print_dot_ncdim, txt_text};
use lib::nanocube::{get_bit, smoke_test, test_nanocube, NCDimNode, Nanocube};

/// Walks a query (one bit prefix per dimension) down from the root, as the
/// model's `eval` does, and returns the summary reached.
fn query(nc: &Nanocube<usize>, q: &[Vec<bool>]) -> Option<usize> {
    let mut node = nc.base_root;
    for (d, prefix) in q.iter().enumerate() {
        for &b in prefix {
            match node {
                None => return None,
                Some(i) => {
                    let n = nc.get_node(d, i);
                    node = if b { n.right } else { n.left };
                }
            }
        }
        match node {
            None => return None,
            Some(i) => node = nc.get_node(d, i).next,
        }
    }
    node.map(|s| nc.summaries.values[s])
}

fn total(nc: &Nanocube<usize>) -> Option<usize> {
    nc.get_summary_index(nc.base_root, 0).map(|s| nc.summaries.values[s])
}

fn bits(v: usize, width: usize, len: usize) -> Vec<bool> {
    (0..len).map(|k| get_bit(v, width - k - 1)).collect()
}

#[test]
fn test_get_bit() {
    assert!(get_bit(5, 0));
    assert!(!get_bit(5, 1));
    assert!(get_bit(5, 2));
    assert!(!get_bit(5, 3));
    assert!(get_bit(usize::MAX, 63));
}

#[test]
fn test_usize_mapply_adds_and_wraps() {
    assert_eq!(3usize.mapply(&4), 7);
    assert_eq!(usize::MAX.mapply(&2), 1);
    assert_eq!(0usize.mapply(&usize::MAX), usize::MAX);
}

#[test]
fn test_node_id() {
    assert_eq!(node_id(3, 1), "\"3_1\"");
    assert_eq!(node_id(120, 0), "\"120_0\"");
}

#[test]
fn test_new_is_empty() {
    let nc = Nanocube::<usize>::new(vec![2, 3]);
    assert_eq!(nc.base_root, None);
    assert_eq!(nc.dims.len(), 2);
    assert_eq!(nc.dims[0].width, 2);
    assert_eq!(nc.dims[1].width, 3);
    assert_eq!(nc.summaries.len(), 0);
    assert_eq!(total(&nc), None);
    assert_eq!(query(&nc, &[vec![], vec![]]), None);
}

#[test]
fn test_single_point_structure() {
    let mut nc = Nanocube::<usize>::new(vec![1, 1]);
    nc.add(1, &vec![1, 0]);
    assert_eq!(nc.base_root, Some(1));
    assert_eq!(nc.dims[0].nodes.ref_counts, vec![1, 1]);
    assert_eq!(nc.dims[1].nodes.ref_counts, vec![1, 2]);
    assert_eq!(nc.summaries.ref_counts, vec![2]);
    assert_eq!(nc.summaries.values, vec![1]);
    let root = nc.get_node(0, 1);
    assert_eq!(root.left, None);
    assert_eq!(root.right, Some(0));
    assert_eq!(root.next, Some(1));
    assert_eq!(total(&nc), Some(1));
}

#[test]
fn test_print_dot_single_point() {
    let mut nc = Nanocube::<usize>::new(vec![1, 1]);
    nc.add(1, &vec![1, 0]);
    let expected = [
        "digraph G {\n",
        "    splines=line;\n",
        " subgraph cluster_0 {\n",
        " label=\"Dim. 0\";\n",
        "  \"0_0\" [label=\"0:1 [1]\"];\n",
        "  \"1_0\" [label=\"1:1 [1]\"];\n",
        "}\n",
        "  \"1_0\" -> \"0_0\" [label=\"1\"];\n",
        " subgraph cluster_1 {\n",
        " label=\"Dim. 1\";\n",
        "  \"0_1\" [label=\"0:0 [1]\"];\n",
        "  \"1_1\" [label=\"1:0 [2]\"];\n",
        "}\n",
        "  \"1_1\" -> \"0_1\" [label=\"0\"];\n",
        "}\n",
    ]
    .join("");
    assert_eq!(print_dot(&nc), expected);
}

#[test]
fn test_print_dot_ncdim_skips_unreferenced_nodes() {
    let mut nc = Nanocube::<usize>::new(vec![1, 1]);
    nc.add(1, &vec![1, 0]);
    nc.add(1, &vec![0, 0]);
    let text = print_dot_ncdim(&nc.dims[0], 0, true);
    // the first root was released: no vertex line for it, and no edge either
    assert!(!text.contains("\"1_0\" [label"));
    assert!(!text.contains("\"1_0\" ->"));
    assert!(text.starts_with(" subgraph cluster_0 {\n label=\"Dim. 0\";\n"));
}

#[test]
fn test_add_counts_points_in_regions() {
    let mut nc = Nanocube::<usize>::new(vec![2, 2]);
    nc.add(1, &vec![1, 0]);
    nc.add(1, &vec![1, 3]);
    nc.add(1, &vec![1, 2]);
    nc.add(1, &vec![2, 3]);
    assert_eq!(total(&nc), Some(4));
    // x = 1 exactly
    assert_eq!(query(&nc, &[bits(1, 2, 2), vec![]]), Some(3));
    // x < 2
    assert_eq!(query(&nc, &[vec![false], vec![]]), Some(3));
    // x >= 2
    assert_eq!(query(&nc, &[vec![true], vec![]]), Some(1));
    // y >= 2
    assert_eq!(query(&nc, &[vec![], vec![true]]), Some(3));
    // x = 1, y = 3
    assert_eq!(query(&nc, &[bits(1, 2, 2), bits(3, 2, 2)]), Some(1));
    // x = 1, y = 1: empty
    assert_eq!(query(&nc, &[bits(1, 2, 2), bits(1, 2, 2)]), None);
    // x = 0: empty
    assert_eq!(query(&nc, &[bits(0, 2, 2), vec![]]), None);
}

#[test]
fn test_add_same_point_twice() {
    let mut nc = Nanocube::<usize>::new(vec![2, 2]);
    nc.add(5, &vec![3, 1]);
    nc.add(7, &vec![3, 1]);
    assert_eq!(total(&nc), Some(12));
    assert_eq!(query(&nc, &[bits(3, 2, 2), bits(1, 2, 2)]), Some(12));
}

#[test]
fn test_add_order_does_not_matter() {
    let points = vec![vec![0, 1, 2], vec![3, 1, 0], vec![3, 0, 2], vec![1, 1, 1]];
    let mut a = Nanocube::<usize>::new(vec![2, 1, 2]);
    for p in &points {
        a.add(1, p);
    }
    let mut b = Nanocube::<usize>::new(vec![2, 1, 2]);
    for p in points.iter().rev() {
        b.add(1, p);
    }
    for x in 0..4usize {
        for xl in 0..3usize {
            for y in 0..2usize {
                for yl in 0..2usize {
                    for z in 0..4usize {
                        for zl in 0..3usize {
                            let q = [bits(x, 2, xl), bits(y, 1, yl), bits(z, 2, zl)];
                            assert_eq!(query(&a, &q), query(&b, &q));
                        }
                    }
                }
            }
        }
    }
}

#[test]
fn test_release_frees_old_root() {
    let mut nc = Nanocube::<usize>::new(vec![1, 1]);
    nc.add(1, &vec![1, 0]);
    let first_root = nc.base_root.unwrap();
    nc.add(1, &vec![0, 0]);
    assert_ne!(nc.base_root, Some(first_root));
    assert_eq!(nc.dims[0].nodes.ref_counts[first_root], 0);
    let old = nc.get_node(0, first_root);
    assert_eq!((old.left, old.right, old.next), (None, None, None));
    assert_eq!(total(&nc), Some(2));
}

#[test]
fn test_make_and_release_node_ref() {
    let mut nc = Nanocube::<usize>::new(vec![1, 1]);
    nc.add(1, &vec![0, 1]);
    let root = nc.base_root;
    assert_eq!(nc.make_node_ref(None, 0), 0);
    assert_eq!(nc.make_node_ref(root, 0), 2);
    nc.release_node_ref(root, 0);
    assert_eq!(nc.dims[0].nodes.ref_counts[root.unwrap()], 1);
    // the summary arena sits below the last dimension
    assert_eq!(nc.make_node_ref(Some(0), 2), 3);
}

#[test]
fn test_release_cascades_through_unreferenced_nodes() {
    let mut nc = Nanocube::<usize>::new(vec![1, 1]);
    nc.add(1, &vec![1, 0]);
    let root = nc.base_root;
    nc.release_node_ref(root, 0);
    // everything was held by the root alone, but for the summary's own count
    assert!(nc.dims[0].nodes.ref_counts.iter().all(|&c| c == 0));
    assert!(nc.dims[1].nodes.ref_counts.iter().all(|&c| c == 0));
    assert_eq!(nc.summaries.ref_counts, vec![0]);
    for d in 0..2 {
        for n in &nc.dims[d].nodes.values {
            assert_eq!((n.left, n.right, n.next), (None, None, None));
        }
    }
}

#[test]
fn test_insert_fresh_node_chain() {
    let mut nc = Nanocube::<usize>::new(vec![2, 1]);
    let (top, summary) = nc.insert_fresh_node(9, &vec![2, 1], 0, 0);
    let top = top.unwrap();
    let s = summary.unwrap();
    assert_eq!(nc.summaries.values[s], 9);
    assert_eq!(nc.get_summary_index(Some(top), 0), Some(s));
    // address 2 is "10" in two bits: right, then left
    let n = nc.get_node(0, top);
    assert_eq!(n.left, None);
    let n2 = nc.get_node(0, n.right.unwrap());
    assert_eq!(n2.right, None);
    assert!(n2.left.is_some());
}

#[test]
fn test_merge_combines_summaries() {
    let mut nc = Nanocube::<usize>::new(vec![2, 2]);
    let (a, _) = nc.insert_fresh_node(2, &vec![0, 1], 0, 0);
    let (b, _) = nc.insert_fresh_node(3, &vec![0, 2], 0, 0);
    let (m, s) = nc.merge(a, b, 0);
    assert!(m.is_some());
    assert_eq!(nc.summaries.values[s.unwrap()], 5);
    let (m2, s2) = nc.merge(None, b, 0);
    assert_eq!(m2, b);
    assert_eq!(nc.summaries.values[s2.unwrap()], 3);
    let (m3, s3) = nc.merge(None, None, 0);
    assert_eq!((m3, s3), (None, None));
}

#[test]
fn test_insert_returns_merged_and_fresh() {
    let mut nc = Nanocube::<usize>::new(vec![1, 1]);
    nc.add(4, &vec![0, 0]);
    let base = nc.base_root;
    let (merged, fresh) = nc.insert(6, &vec![1, 1], 0, 0, base);
    let ms = nc.get_summary_index(merged, 0).unwrap();
    let fs = nc.get_summary_index(fresh, 0).unwrap();
    assert_eq!(nc.summaries.values[ms], 10);
    assert_eq!(nc.summaries.values[fs], 6);
}

#[test]
fn test_get_node_and_at() {
    let mut nc = Nanocube::<usize>::new(vec![1, 1]);
    nc.add(1, &vec![1, 0]);
    let n: NCDimNode = nc.get_node(0, 1);
    let a = nc.dims[0].at(1);
    assert_eq!((n.left, n.right, n.next), (a.left, a.right, a.next));
    nc.dims[0].at_mut(0).next = None;
    assert_eq!(nc.get_node(0, 0).next, None);
}

#[test]
fn test_get_summary_index_follows_next() {
    let mut nc = Nanocube::<usize>::new(vec![1, 1]);
    nc.add(1, &vec![1, 0]);
    assert_eq!(nc.get_summary_index(Some(1), 1), Some(0));
    assert_eq!(nc.get_summary_index(None, 0), None);
    assert_eq!(nc.get_summary_index(Some(0), 2), Some(0));
}

#[test]
fn test_test_nanocube_counts() {
    let nc = test_nanocube(vec![2, 2], &vec![vec![1, 0], vec![1, 3], vec![1, 2]]);
    assert_eq!(total(&nc), Some(3));
    assert_eq!(query(&nc, &[vec![], vec![true]]), Some(2));
}

#[test]
fn test_smoke_test_cubes() {
    let cubes = smoke_test();
    assert_eq!(cubes.len(), 3);
    assert_eq!(total(&cubes[0]), Some(1));
    assert_eq!(total(&cubes[1]), Some(2));
    assert_eq!(total(&cubes[2]), Some(3));
    assert_eq!(query(&cubes[2], &[bits(1, 2, 2), bits(2, 2, 2)]), Some(1));
    assert_eq!(query(&cubes[1], &[bits(1, 2, 2), bits(2, 2, 2)]), None);
}


#[test]
fn test_add_extra_addresses_for_a_filled_cell() {
    let mut nc = Nanocube::<usize>::new(vec![2, 2]);
    nc.add(1, &vec![1, 2]);
    nc.add(1, &vec![1, 2, 99]);
    assert_eq!(total(&nc), Some(2));
    let nc2 = test_nanocube(vec![2, 2], &vec![vec![3, 1], vec![3, 1, 7]]);
    assert_eq!(total(&nc2), Some(2));
}

#[test]
fn test_merge_is_symmetric() {
    let mut nc = Nanocube::<usize>::new(vec![2, 2]);
    let (a, _) = nc.insert_fresh_node(2, &vec![0, 1], 0, 0);
    let (b, _) = nc.insert_fresh_node(3, &vec![2, 2], 0, 0);
    let (ab, _) = nc.merge(a, b, 0);
    let (ba, _) = nc.merge(b, a, 0);
    let walk = |root: Option<usize>, q: &[Vec<bool>]| -> Option<usize> {
        let mut node = root;
        for (d, prefix) in q.iter().enumerate() {
            for &bit in prefix {
                let i = node?;
                let n = nc.get_node(d, i);
                node = if bit { n.right } else { n.left };
            }
            node = nc.get_node(d, node?).next;
        }
        node.map(|s| nc.summaries.values[s])
    };
    for x in 0..4usize {
        for xl in 0..3usize {
            for y in 0..4usize {
                for yl in 0..3usize {
                    let q = [bits(x, 2, xl), bits(y, 2, yl)];
                    assert_eq!(walk(ab, &q), walk(ba, &q));
                }
            }
        }
    }
    assert_eq!(walk(ab, &[vec![], vec![]]), Some(5));
    assert_eq!(walk(ab, &[vec![true], vec![]]), Some(3));
}

fn links(nc: &Nanocube<usize>, d: usize, i: usize) -> (Option<usize>, Option<usize>, Option<usize>) {
    let n = nc.dims[d].at(i);
    (n.left, n.right, n.next)
}

#[test]
fn test_txt_text_single_point() {
    let mut nc = Nanocube::<usize>::new(vec![1]);
    nc.add(1, &vec![0]);
    assert_eq!(txt_text(&nc), "--------\nNone None Some(0)\nSome(0) None Some(0)\n");
    let empty = Nanocube::<usize>::new(vec![2, 3]);
    assert_eq!(txt_text(&empty), "--------\n--------\n");
}

#[test]
fn test_insert_fresh_node_layout() {
    let mut n = Nanocube::<usize>::new(vec![1]);
    assert_eq!(n.insert_fresh_node(5, &vec![0], 0, 0), (Some(1), Some(0)));
    assert_eq!(links(&n, 0, 1), (Some(0), None, Some(0)));
    assert_eq!(links(&n, 0, 0), (None, None, Some(0)));
    assert_eq!(n.summaries.values, vec![5]);
    assert_eq!(n.dims[0].nodes.ref_counts, vec![1, 0]);
    assert_eq!(n.summaries.ref_counts, vec![2]);
}

#[test]
fn test_insert_fresh_node_follows_address_bits() {
    let mut n = Nanocube::<usize>::new(vec![2]);
    // address 2 is "10": right first, then left
    assert_eq!(n.insert_fresh_node(7, &vec![2], 0, 0), (Some(2), Some(0)));
    assert_eq!(links(&n, 0, 2), (None, Some(1), Some(0)));
    assert_eq!(links(&n, 0, 1), (Some(0), None, Some(0)));
    assert_eq!(links(&n, 0, 0), (None, None, Some(0)));
    assert_eq!(n.summaries.values, vec![7]);
    assert_eq!(n.dims[0].nodes.len(), 3);
}

#[test]
fn test_insert_into_empty_returns_one_chain() {
    let mut n = Nanocube::<usize>::new(vec![1]);
    assert_eq!(n.insert(5, &vec![0], 0, 0, None), (Some(1), Some(1)));
    assert_eq!(links(&n, 0, 1), (Some(0), None, Some(0)));
    assert_eq!(links(&n, 0, 0).2, Some(0));
    assert_eq!(n.summaries.values[0], 5);
}

#[test]
fn test_insert_shares_untouched_child() {
    let mut n = Nanocube::<usize>::new(vec![1]);
    n.add(1, &vec![0]);
    let b = n.base_root;
    assert_eq!(b, Some(1));
    assert_eq!(n.insert(1, &vec![1], 0, 0, b), (Some(3), Some(4)));
    assert_eq!(n.base_root, Some(1));
    assert_eq!(links(&n, 0, 3), (Some(0), Some(2), Some(2)));
    assert_eq!(links(&n, 0, 4), (None, Some(2), Some(1)));
    assert_eq!(links(&n, 0, 2).2, Some(1));
    assert_eq!(n.summaries.values[1], 1);
    assert_eq!(n.summaries.values[2], 2);
    assert_eq!(n.dims[0].nodes.ref_counts[3], 0);
    assert_eq!(n.dims[0].nodes.ref_counts[4], 0);
}

#[test]
fn test_insert_at_summaries_appends_two() {
    let mut n = Nanocube::<usize>::new(vec![1]);
    n.add(3, &vec![0]);
    assert_eq!(n.insert(4, &vec![0], 1, 0, Some(0)), (Some(2), Some(1)));
    assert_eq!(n.summaries.values, vec![3, 4, 7]);
    assert_eq!(n.summaries.ref_counts[1], 0);
    assert_eq!(n.summaries.ref_counts[2], 0);
}

#[test]
fn test_merge_trivial_reads_nothing() {
    let mut n = Nanocube::<usize>::new(vec![1]);
    assert_eq!(n.merge(None, Some(5), 1), (Some(5), Some(5)));
    assert_eq!(n.base_root, None);
    assert_eq!(n.summaries.values.len(), 0);
    assert_eq!(n.dims[0].nodes.len(), 0);
}

#[test]
fn test_merge_at_summaries_appends_combination() {
    let mut n = Nanocube::<usize>::new(vec![1]);
    n.add(2, &vec![0]);
    n.add(5, &vec![1]);
    let before = n.summaries.values.clone();
    let nodes_before = n.dims[0].nodes.len();
    let k = before.len();
    assert_eq!(n.merge(Some(0), Some(k - 1), 1), (Some(k), Some(k)));
    assert_eq!(n.summaries.values[k], before[0] + before[k - 1]);
    assert_eq!(n.summaries.ref_counts[k], 0);
    assert_eq!(n.dims[0].nodes.len(), nodes_before);
}

#[test]
fn test_merge_node_with_itself() {
    let mut n = Nanocube::<usize>::new(vec![1]);
    n.add(1, &vec![0]);
    assert_eq!(n.merge(Some(1), Some(1), 0), (Some(3), Some(1)));
    assert_eq!(n.summaries.values[1], 2);
    assert_eq!(links(&n, 0, 3), (Some(2), None, Some(1)));
    assert_eq!(links(&n, 0, 2), (None, None, Some(1)));
    assert_eq!(n.base_root, Some(1));
    assert_eq!(n.dims[0].nodes.ref_counts[3], 0);
}

#[test]
fn test_release_none_changes_nothing() {
    let mut n = Nanocube::<usize>::new(vec![1, 1]);
    n.add(1, &vec![0, 1]);
    let counts0 = n.dims[0].nodes.ref_counts.clone();
    let counts1 = n.dims[1].nodes.ref_counts.clone();
    let sums = n.summaries.ref_counts.clone();
    n.release_node_ref(None, 0);
    assert_eq!(n.dims[0].nodes.ref_counts, counts0);
    assert_eq!(n.dims[1].nodes.ref_counts, counts1);
    assert_eq!(n.summaries.ref_counts, sums);
}

#[test]
fn test_make_then_release_restores_counts() {
    let mut n = Nanocube::<usize>::new(vec![1, 1]);
    n.add(1, &vec![0, 1]);
    let counts0 = n.dims[0].nodes.ref_counts.clone();
    let counts1 = n.dims[1].nodes.ref_counts.clone();
    let sums = n.summaries.ref_counts.clone();
    let txt = txt_text(&n);
    let child = n.get_node(0, n.base_root.unwrap()).left;
    n.make_node_ref(child, 0);
    n.release_node_ref(child, 0);
    assert_eq!(n.dims[0].nodes.ref_counts, counts0);
    assert_eq!(n.dims[1].nodes.ref_counts, counts1);
    assert_eq!(n.summaries.ref_counts, sums);
    assert_eq!(txt_text(&n), txt);
}

#[test]
fn test_add_order_of_many_points_does_not_matter() {
    let pts = vec![vec![0, 1], vec![3, 2], vec![1, 1], vec![3, 0], vec![0, 1]];
    let mut rev = pts.clone();
    rev.reverse();
    let a = test_nanocube(vec![2, 2], &pts);
    let b = test_nanocube(vec![2, 2], &rev);
    for x in 0..4usize {
        for y in 0..4usize {
            for lx in 0..3usize {
                for ly in 0..3usize {
                    let q = [bits(x, 2, lx), bits(y, 2, ly)];
                    assert_eq!(query(&a, &q), query(&b, &q));
                }
            }
        }
    }
    assert_eq!(total(&a), Some(5));
}

#[test]
fn test_first_add_is_one_chain() {
    let mut n = Nanocube::<usize>::new(vec![2, 1]);
    n.add(3, &vec![2, 1]);
    assert_eq!(n.base_root, Some(2));
    assert_eq!(links(&n, 0, 0), (None, None, Some(1)));
    assert_eq!(links(&n, 0, 1), (Some(0), None, Some(1)));
    assert_eq!(links(&n, 0, 2), (None, Some(1), Some(1)));
    assert_eq!(links(&n, 1, 0), (None, None, Some(0)));
    assert_eq!(links(&n, 1, 1), (None, Some(0), Some(0)));
    assert_eq!(n.summaries.values, vec![3]);
    assert_eq!(n.dims[0].nodes.len(), 3);
    assert_eq!(n.dims[1].nodes.len(), 2);
}

#[test]
fn test_later_add_roots_at_second_to_last_node() {
    let mut n = Nanocube::<usize>::new(vec![2, 1]);
    n.add(3, &vec![2, 1]);
    n.add(4, &vec![1, 0]);
    let len = n.dims[0].nodes.len();
    assert_eq!(n.base_root, Some(len - 2));
    // the node that held the new point alone is emptied and unreferenced
    assert_eq!(links(&n, 0, len - 1), (None, None, None));
    assert_eq!(n.dims[0].nodes.ref_counts[len - 1], 0);
    for d in 0..2 {
        for (i, c) in n.dims[d].nodes.ref_counts.iter().enumerate() {
            if *c == 0 {
                assert_eq!(links(&n, d, i), (None, None, None));
            }
        }
    }
    assert_eq!(total(&n), Some(7));
}

#[test]
fn test_node_id_prints_every_digit() {
    assert_eq!(node_id(1234567890, 0), "\"1234567890_0\"");
    assert_eq!(node_id(usize::MAX, 10), format!("\"{}_10\"", usize::MAX));
    assert_eq!(node_id(9, 100), "\"9_100\"");
}

#[test]
fn test_merge_keeps_children_that_either_side_has() {
    let mut nc = Nanocube::<usize>::new(vec![2, 2]);
    let (a, _) = nc.insert_fresh_node(2, &vec![0, 1], 0, 0);
    let (b, _) = nc.insert_fresh_node(3, &vec![3, 2], 0, 0);
    let (m, _) = nc.merge(a, b, 0);
    let m = m.unwrap();
    assert_eq!(m + 1, nc.dims[0].nodes.len());
    let n = nc.get_node(0, m);
    // address 0 starts with bit 0 (left), address 3 with bit 1 (right)
    assert!(n.left.is_some() && n.right.is_some());
    assert_eq!(nc.dims[0].nodes.ref_counts[m], 0);
}

#[test]
fn test_release_reference_held_by_a_parent() {
    let mut n = Nanocube::<usize>::new(vec![1, 1]);
    n.add(1, &vec![0, 1]);
    let root = n.base_root.unwrap();
    let child = n.get_node(0, root).left.unwrap();
    assert_eq!(n.dims[0].nodes.ref_counts[child], 1);
    n.release_node_ref(Some(child), 0);
    assert_eq!(n.dims[0].nodes.ref_counts[child], 0);
    assert_eq!(links(&n, 0, child), (None, None, None));
    // the root still points at the emptied child, and keeps its own count
    assert_eq!(n.get_node(0, root).left, Some(child));
    assert_eq!(n.dims[0].nodes.ref_counts[root], 1);
}

#[test]
fn test_calls_beyond_the_last_arena() {
    let mut n = Nanocube::<usize>::new(vec![1]);
    n.add(2, &vec![0]);
    let before = txt_text(&n);
    let counts = n.summaries.ref_counts.clone();
    n.release_node_ref(None, 7);
    assert_eq!(n.make_node_ref(None, 9), 0);
    assert_eq!(n.get_summary_index(Some(6), 5), Some(6));
    assert_eq!(n.get_summary_index(None, 5), None);
    assert_eq!(n.merge(None, Some(4), 9), (Some(4), Some(4)));
    assert_eq!(n.merge(Some(3), None, 9), (Some(3), Some(3)));
    assert_eq!(txt_text(&n), before);
    assert_eq!(n.summaries.ref_counts, counts);
}
