use dendrogram::agglomerate::cluster;
use dendrogram::frac::Frac;
use dendrogram::render::RenderError;
use dendrogram::tree::ClusterTree;

#[test]
fn unknown_index_is_reported() {
    let d = vec![vec![0, 1, 5], vec![1, 0, 5], vec![5, 5, 0]];
    let tree = cluster(&d, 3);
    let labels = vec!["A".to_string(), "B".to_string()];
    match tree.render_lines(&labels) {
        Err(RenderError::UnknownIndex(i)) => assert_eq!(i, 2),
        _ => panic!("rendering must fail on an uncovered index"),
    }
}

#[test]
fn first_uncovered_index_wins() {
    // With an empty label table the first leaf in traversal order is the
    // one reported; here the tree reads C, then A, then B.
    let d = vec![vec![0, 1, 5], vec![1, 0, 5], vec![5, 5, 0]];
    let tree = cluster(&d, 3);
    assert_eq!(tree.leaf_indices(), vec![2, 0, 1]);
    let labels: Vec<String> = Vec::new();
    match tree.render_lines(&labels) {
        Err(RenderError::UnknownIndex(i)) => assert_eq!(i, 2),
        _ => panic!("rendering must fail on an uncovered index"),
    }
}

#[test]
fn hand_built_tree_renders() {
    // A merge of two leaves at height 7/2 under a two-entry label table.
    let tree = ClusterTree::Merge(
        Box::new(ClusterTree::Leaf(0)),
        Box::new(ClusterTree::Leaf(1)),
        Frac { num: 7, den: 2 },
    );
    let labels = vec!["left".to_string(), "right".to_string()];
    let lines = tree.render_lines(&labels).unwrap();
    assert_eq!(
        lines,
        vec![
            "7/2\u{2500}\u{2500}left".to_string(),
            "\u{2514}\u{2500}\u{2500}\u{2500}right".to_string(),
        ]
    );
}

#[test]
fn leaf_indices_in_traversal_order() {
    let tree = ClusterTree::Merge(
        Box::new(ClusterTree::Leaf(2)),
        Box::new(ClusterTree::Merge(
            Box::new(ClusterTree::Leaf(0)),
            Box::new(ClusterTree::Leaf(1)),
            Frac { num: 1, den: 1 },
        )),
        Frac { num: 2, den: 1 },
    );
    assert_eq!(tree.leaf_indices(), vec![2, 0, 1]);
    assert_eq!(tree.size(), 3);
}
