use dendrogram::agglomerate::cluster;
use dendrogram::tree::ClusterTree;

fn reference_matrix() -> Vec<Vec<u32>> {
    vec![
        vec![0, 2, 4, 6],
        vec![2, 0, 4, 6],
        vec![4, 4, 0, 6],
        vec![6, 6, 6, 0],
    ]
}

fn reference_labels() -> Vec<String> {
    vec!["A".to_string(), "B".to_string(), "C".to_string(), "D".to_string()]
}

/// Every merge of a tree, innermost first: its height text and its sorted
/// leaf indices.
fn merge_summaries(t: &ClusterTree, out: &mut Vec<(String, Vec<usize>)>) {
    if let ClusterTree::Merge(l, r, h) = t {
        merge_summaries(l, out);
        merge_summaries(r, out);
        let mut leaves = t.leaf_indices();
        leaves.sort();
        out.push((h.to_text(), leaves));
    }
}

#[test]
fn reference_scenario_render() {
    let tree = cluster(&reference_matrix(), 4);
    let lines = tree.render_lines(&reference_labels()).unwrap();
    let expected = vec![
        "3\u{2500}\u{2500}\u{2500}\u{2500}\u{2500}D".to_string(),
        "\u{2514}\u{2500}2\u{2500}\u{2500}\u{2500}C".to_string(),
        "  \u{2514}\u{2500}1\u{2500}A".to_string(),
        "    \u{2514}\u{2500}B".to_string(),
    ];
    assert_eq!(lines, expected);
    assert_eq!(lines.len(), 4);
}

#[test]
fn reference_scenario_heights() {
    let tree = cluster(&reference_matrix(), 4);
    // A merges with B first at height 1, C joins them at 2, and the root
    // merges D with the rest at 3; each surviving lower position becomes
    // the left child of its merge.
    match &tree {
        ClusterTree::Merge(l, r, h) => {
            assert_eq!(h.to_text(), "3");
            match (&**l, &**r) {
                (ClusterTree::Leaf(3), ClusterTree::Merge(l2, r2, h2)) => {
                    assert_eq!(h2.to_text(), "2");
                    match (&**l2, &**r2) {
                        (ClusterTree::Leaf(2), ClusterTree::Merge(l1, r1, h1)) => {
                            assert_eq!(h1.to_text(), "1");
                            assert!(matches!(&**l1, ClusterTree::Leaf(0)));
                            assert!(matches!(&**r1, ClusterTree::Leaf(1)));
                        }
                        _ => panic!("wrong inner merge"),
                    }
                }
                _ => panic!("wrong outer merge"),
            }
        }
        _ => panic!("root must be a merge"),
    }
}

#[test]
fn leaf_indices_are_a_permutation() {
    let tree = cluster(&reference_matrix(), 4);
    let mut idx = tree.leaf_indices();
    idx.sort();
    assert_eq!(idx, vec![0, 1, 2, 3]);
    assert_eq!(tree.size(), 4);
}

#[test]
fn deterministic_output() {
    let first = cluster(&reference_matrix(), 4);
    let second = cluster(&reference_matrix(), 4);
    let lines1 = first.render_lines(&reference_labels()).unwrap();
    let lines2 = second.render_lines(&reference_labels()).unwrap();
    assert_eq!(lines1, lines2);
    assert_eq!(first.leaf_indices(), second.leaf_indices());
}

#[test]
fn single_item_renders_its_label() {
    let tree = cluster(&vec![vec![0]], 1);
    assert!(matches!(tree, ClusterTree::Leaf(0)));
    assert_eq!(tree.size(), 1);
    let lines = tree.render_lines(&vec!["A".to_string()]).unwrap();
    assert_eq!(lines, vec!["A".to_string()]);
}

#[test]
fn relabeled_reference_matrix() {
    // The reference input, with items and labels both permuted by reversal:
    // the merge heights and the merged index sets, seen through the
    // permutation, stay the same.
    let d = reference_matrix();
    let p: Vec<usize> = vec![3, 2, 1, 0];
    let mut d2 = vec![vec![0u32; 4]; 4];
    for i in 0..4 {
        for j in 0..4 {
            d2[i][j] = d[p[i]][p[j]];
        }
    }
    let labels = reference_labels();
    let labels2: Vec<String> = (0..4).map(|i| labels[p[i]].clone()).collect();

    let tree1 = cluster(&d, 4);
    let tree2 = cluster(&d2, 4);

    let mut m1: Vec<(String, Vec<usize>)> = Vec::new();
    merge_summaries(&tree1, &mut m1);
    let mut m2: Vec<(String, Vec<usize>)> = Vec::new();
    merge_summaries(&tree2, &mut m2);
    let m2_mapped: Vec<(String, Vec<usize>)> = m2
        .into_iter()
        .map(|(h, leaves)| {
            let mut orig: Vec<usize> = leaves.into_iter().map(|x| p[x]).collect();
            orig.sort();
            (h, orig)
        })
        .collect();
    let mut a = m1.clone();
    a.sort();
    let mut b = m2_mapped.clone();
    b.sort();
    assert_eq!(a, b);

    let lines2 = tree2.render_lines(&labels2).unwrap();
    let expected2 = vec![
        "3\u{2500}\u{2500}\u{2500}\u{2500}\u{2500}D".to_string(),
        "\u{2514}\u{2500}2\u{2500}\u{2500}\u{2500}C".to_string(),
        "  \u{2514}\u{2500}1\u{2500}B".to_string(),
        "    \u{2514}\u{2500}A".to_string(),
    ];
    assert_eq!(lines2, expected2);
}

/// Checks that no merge inside `t` stands higher than `bound`.
fn heights_below(t: &ClusterTree, bound: &dendrogram::frac::Frac) -> bool {
    match t {
        ClusterTree::Leaf(_) => true,
        ClusterTree::Merge(l, r, h) => {
            !bound.lt(h) && heights_below(l, bound) && heights_below(r, bound)
        }
    }
}

fn heights_monotone(t: &ClusterTree) -> bool {
    match t {
        ClusterTree::Leaf(_) => true,
        ClusterTree::Merge(l, r, h) => {
            heights_below(l, h)
                && heights_below(r, h)
                && heights_monotone(l)
                && heights_monotone(r)
        }
    }
}

#[test]
fn heights_never_decrease() {
    let tree = cluster(&reference_matrix(), 4);
    assert!(heights_monotone(&tree));
    let d = vec![
        vec![0, 1, 9, 9, 3],
        vec![1, 0, 9, 9, 3],
        vec![9, 9, 0, 2, 9],
        vec![9, 9, 2, 0, 9],
        vec![3, 3, 9, 9, 0],
    ];
    let tree2 = cluster(&d, 5);
    assert!(heights_monotone(&tree2));
    assert_eq!(tree2.size(), 5);
}

#[test]
fn two_items_merge_at_half_their_distance() {
    let d = vec![vec![0, 5], vec![5, 0]];
    let tree = cluster(&d, 2);
    match &tree {
        ClusterTree::Merge(l, r, h) => {
            assert!(matches!(&**l, ClusterTree::Leaf(0)));
            assert!(matches!(&**r, ClusterTree::Leaf(1)));
            // height 5/2
            assert_eq!(h.to_text(), "5/2");
        }
        _ => panic!("root must be a merge"),
    }
}
