use rope_buffer::rope::{RopeBuilder, RopeNode, MAX_LEAF_SIZE};

fn collect_all<Line: Clone>(node: &RopeNode<Line>) -> Vec<Line> {
    let mut out = Vec::new();
    let mut it = node.lines();
    while let Some(line) = it.next() {
        out.push(line.clone());
    }
    out
}

fn collect_from<Line: Clone>(node: &RopeNode<Line>, k: usize) -> Vec<Line> {
    let mut out = Vec::new();
    let mut it = node.from_index(k);
    while let Some(line) = it.next() {
        out.push(line.clone());
    }
    out
}

#[test]
fn count_tracks_inserts_and_deletes() {
    let mut node: RopeNode<u32> = RopeNode::default();
    let mut inserts: usize = 0;
    let mut deletes: usize = 0;
    for i in 0..200u32 {
        let at = (i as usize * 7) % (node.count() + 1);
        node.insert_line(at, i);
        inserts += 1;
        assert_eq!(node.count(), inserts - deletes);
    }
    for i in 0..77u32 {
        let at = (i as usize * 13) % node.count();
        node.delete_line(at);
        deletes += 1;
        assert_eq!(node.count(), inserts - deletes);
    }
    assert_eq!(node.count(), 123);
}

#[test]
fn get_line_after_insert_returns_inserted() {
    let mut builder = RopeBuilder::new();
    for i in 0..100u32 {
        builder.insert(i);
    }
    let mut node = builder.build().unwrap();
    for &at in &[0usize, 1, 50, 63, 64, 65, 99, 100] {
        node.insert_line(at, 1000 + at as u32);
        assert_eq!(*node.get_line(at), 1000 + at as u32);
    }
}

fn round_trip(n: usize) {
    let mut builder = RopeBuilder::new();
    let mut expected: Vec<String> = Vec::new();
    for i in 0..n {
        builder.insert(format!("line{}", i));
        expected.push(format!("line{}", i));
    }
    match builder.build() {
        None => assert_eq!(n, 0),
        Some(node) => {
            assert!(n > 0);
            assert!(node.is_well_formed());
            assert_eq!(node.count(), n);
            assert_eq!(collect_all(&node), expected);
        }
    }
}

#[test]
fn round_trip_empty() {
    round_trip(0);
}

#[test]
fn round_trip_one() {
    round_trip(1);
}

#[test]
fn round_trip_full_leaf() {
    round_trip(MAX_LEAF_SIZE);
}

#[test]
fn round_trip_one_past_leaf() {
    round_trip(MAX_LEAF_SIZE + 1);
}

#[test]
fn round_trip_many() {
    round_trip(1000);
}

#[test]
fn scenario_insert_then_delete() {
    let mut builder = RopeBuilder::new();
    for s in ["a", "b", "c"] {
        builder.insert(s.to_string());
    }
    let mut node = builder.build().unwrap();
    node.insert_line(1, "x".to_string());
    assert_eq!(
        collect_all(&node),
        vec!["a".to_string(), "x".to_string(), "b".to_string(), "c".to_string()]
    );
    let removed = node.delete_line(0);
    assert_eq!(removed, "a");
    assert_eq!(
        collect_all(&node),
        vec!["x".to_string(), "b".to_string(), "c".to_string()]
    );
    assert_eq!(node.get_line(0).as_str(), "x");
}

#[test]
fn sixty_five_sequential_inserts_split_the_leaf() {
    let mut node: RopeNode<String> = RopeNode::default();
    for i in 0..(MAX_LEAF_SIZE + 1) {
        node.insert_line(node.count(), format!("l{}", i));
    }
    assert_eq!(node.count(), MAX_LEAF_SIZE + 1);
    assert!(!node.is_leaf());
    assert!(node.is_well_formed());
    assert!(node.is_balanced());
}

#[test]
fn sibling_leaves_collapse_after_delete() {
    let left_lines: Vec<u32> = (0..31).collect();
    let right_lines: Vec<u32> = (31..63).collect();
    assert_eq!(left_lines.len() + right_lines.len(), MAX_LEAF_SIZE - 1);
    let mut node = RopeNode::Internal {
        left: Box::new(RopeNode::Leaf(left_lines)),
        right: Box::new(RopeNode::Leaf(right_lines)),
        left_count: 31,
        count: 63,
    };
    assert!(node.is_well_formed());
    let removed = node.delete_line(0);
    assert_eq!(removed, 0);
    assert!(node.is_leaf());
    assert_eq!(node.count(), 62);
    let expected: Vec<u32> = (1..63).collect();
    assert_eq!(collect_all(&node), expected);
}

#[test]
fn from_index_yields_the_suffix_of_lines() {
    let mut builder = RopeBuilder::new();
    for i in 0..150u32 {
        builder.insert(i);
    }
    let node = builder.build().unwrap();
    let all = collect_all(&node);
    assert_eq!(all.len(), 150);
    for k in 0..=150usize {
        assert_eq!(collect_from(&node, k).as_slice(), &all[k..]);
    }
    assert!(collect_from(&node, 151).is_empty());
    assert!(collect_from(&node, 10_000).is_empty());
}

#[test]
fn from_lines_is_balanced_and_ordered() {
    for n in [0usize, 1, 63, 64, 65, 128, 129, 1000] {
        let lines: Vec<usize> = (0..n).collect();
        let node = RopeNode::from_lines(lines.clone());
        assert!(node.is_well_formed());
        assert!(node.is_balanced());
        assert_eq!(node.count(), n);
        assert_eq!(collect_all(&node), lines);
    }
}

#[test]
fn get_line_mut_edits_one_line_in_place() {
    let mut builder = RopeBuilder::new();
    for i in 0..100u64 {
        builder.insert(i);
    }
    let mut node = builder.build().unwrap();
    *node.get_line_mut(42) = 9999;
    assert_eq!(*node.get_line(42), 9999);
    assert_eq!(*node.get_line(41), 41);
    assert_eq!(*node.get_line(43), 43);
    assert_eq!(node.count(), 100);
    assert!(node.is_well_formed());
}

#[test]
fn delete_down_to_an_empty_tree() {
    let mut builder = RopeBuilder::new();
    for i in 0..200u32 {
        builder.insert(i);
    }
    let mut node = builder.build().unwrap();
    for _ in 0..200 {
        node.delete_line(0);
        assert!(node.is_well_formed());
    }
    assert_eq!(node.count(), 0);
    assert!(node.is_leaf());
    assert!(collect_all(&node).is_empty());
    node.insert_line(0, 7);
    assert_eq!(node.count(), 1);
    assert_eq!(*node.get_line(0), 7);
}

#[test]
fn empty_builder_yields_no_tree() {
    let builder: RopeBuilder<String> = RopeBuilder::new();
    assert!(builder.build().is_none());
}

#[test]
fn randomized_edits_keep_the_invariants() {
    let mut node: RopeNode<u64> = RopeNode::default();
    let mut model: Vec<u64> = Vec::new();
    let mut state: u64 = 0x243F_6A88_85A3_08D3;
    for step in 0..10_000u64 {
        state = state
            .wrapping_mul(6_364_136_223_846_793_005)
            .wrapping_add(1_442_695_040_888_963_407);
        let r = state >> 33;
        let deleting = !model.is_empty() && (r & 3) == 1;
        if deleting {
            let at = ((r >> 2) as usize) % model.len();
            let got = node.delete_line(at);
            let want = model.remove(at);
            assert_eq!(got, want);
        } else {
            let at = ((r >> 2) as usize) % (model.len() + 1);
            node.insert_line(at, step);
            model.insert(at, step);
        }
        assert_eq!(node.count(), model.len());
        assert!(node.is_well_formed());
        assert!(node.is_balanced());
    }
    assert_eq!(collect_all(&node), model);
}
