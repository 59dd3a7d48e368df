use rigid_sim::collider::{BuildTask, Collider};

fn collider_with(ids: &[usize]) -> Collider {
    let mut c = Collider::new();
    for &id in ids {
        c.add(id);
    }
    c
}

#[test]
fn new_collider_is_empty() {
    let c = Collider::new();
    assert!(c.ids().is_empty());
    assert_eq!(c.node_count(), 0);
}

#[test]
fn add_appends_ids() {
    let c = collider_with(&[4, 2, 7]);
    assert_eq!(c.ids(), &vec![4, 2, 7]);
    assert_eq!(c.node_count(), 0);
}

#[test]
fn start_build_makes_root_over_all_ids() {
    let mut c = collider_with(&[4, 2, 7]);
    c.start_build();
    assert_eq!(c.node_count(), 1);
    assert_eq!(c.node_range(0), (0, 3));
    assert_eq!(c.children(0), None);
    let t = c.next_node();
    assert_eq!(t, Some(BuildTask { index: 0, first: 0, length: 3 }));
    assert_eq!(c.next_node(), None);
}

#[test]
fn build_splits_marked_ids_first() {
    // ids 0..4; bodies 1 and 3 lie below the split plane
    let mut c = collider_with(&[0, 1, 2, 3]);
    let below = vec![false, true, false, true];
    c.start_build();
    c.next_node();
    c.build(&below);
    assert_eq!(c.node_count(), 3);
    assert_eq!(c.children(0), Some(1));
    assert_eq!(c.node_range(1), (0, 2));
    assert_eq!(c.node_range(2), (2, 2));
    let ids = c.ids().clone();
    assert!(below[ids[0]] && below[ids[1]]);
    assert!(!below[ids[2]] && !below[ids[3]]);
    let mut sorted = ids.clone();
    sorted.sort();
    assert_eq!(sorted, vec![0, 1, 2, 3]);
    // exact order produced by the two-ended sweep
    assert_eq!(ids, vec![3, 1, 2, 0]);
    // the left child comes next, then the right one
    assert_eq!(c.next_node(), Some(BuildTask { index: 1, first: 0, length: 2 }));
    c.build(&vec![true, false, false, true]);
    assert_eq!(c.children(1), Some(3));
    // splitting node 1 leaves the ranges of the nodes that existed before it alone
    assert_eq!(c.node_range(0), (0, 4));
    assert_eq!(c.node_range(1), (0, 2));
    assert_eq!(c.node_range(2), (2, 2));
    assert_eq!(c.children(0), Some(1));
    assert_eq!(c.next_node(), Some(BuildTask { index: 3, first: 0, length: 1 }));
    c.build(&below);
    assert_eq!(c.next_node(), Some(BuildTask { index: 4, first: 1, length: 1 }));
    c.build(&below);
    assert_eq!(c.next_node(), Some(BuildTask { index: 2, first: 2, length: 2 }));
}

#[test]
fn build_keeps_a_leaf_when_one_side_is_empty() {
    let mut c = collider_with(&[0, 1, 2]);
    c.start_build();
    c.next_node();
    c.build(&vec![true, true, true]);
    // two nodes were appended but stay unused
    assert_eq!(c.node_count(), 3);
    assert_eq!(c.children(0), None);
    assert_eq!(c.node_range(0), (0, 3));
    assert_eq!(c.next_node(), None);
}

#[test]
fn build_leaves_small_nodes_alone() {
    let mut c = collider_with(&[5]);
    c.start_build();
    c.next_node();
    c.build(&vec![false; 6]);
    assert_eq!(c.node_count(), 1);
    assert_eq!(c.children(0), None);
    assert_eq!(c.next_node(), None);
}

#[test]
fn build_without_current_node_does_nothing() {
    let mut c = collider_with(&[0, 1]);
    c.start_build();
    c.build(&vec![true, false]);
    assert_eq!(c.node_count(), 1);
    assert_eq!(c.next_node(), Some(BuildTask { index: 0, first: 0, length: 2 }));
}

#[test]
fn clear_drops_nodes_but_keeps_ids() {
    let mut c = collider_with(&[0, 1]);
    c.start_build();
    c.clear();
    assert_eq!(c.node_count(), 0);
    assert_eq!(c.ids(), &vec![0, 1]);
    assert_eq!(c.next_node(), None);
}

fn full_build(c: &mut Collider, below_of: impl Fn(usize, &[usize]) -> Vec<bool>) {
    c.start_build();
    while let Some(t) = c.next_node() {
        let below = below_of(t.index, &c.ids()[t.first..t.first + t.length]);
        c.build(&below);
    }
}

#[test]
fn walk_without_pruning_reports_every_near_id() {
    let mut c = collider_with(&[0, 1, 2, 3, 4, 5, 6, 7]);
    // split on the value of the id: below when smaller than the middle of the range
    full_build(&mut c, |_, range| {
        let lo = *range.iter().min().unwrap();
        let hi = *range.iter().max().unwrap();
        let mut below = vec![false; 8];
        for &id in range {
            below[id] = 2 * id < lo + hi;
        }
        below
    });
    let mut out = vec![];
    c.collide(0, &|_| true, &|id| id % 2 == 0, &mut out);
    let mut sorted = out.clone();
    sorted.sort();
    assert_eq!(sorted, vec![0, 2, 4, 6]);
    // same order as the ids
    let expected: Vec<usize> = c.ids().iter().copied().filter(|id| id % 2 == 0).collect();
    assert_eq!(out, expected);
}

#[test]
fn walk_skips_pruned_subtrees() {
    let mut c = collider_with(&[0, 1, 2, 3]);
    c.start_build();
    c.next_node();
    c.build(&vec![true, true, false, false]);
    // node 1 holds {0, 1}, node 2 holds {2, 3}
    let mut out = vec![7];
    c.collide(0, &|node| node != 1, &|_| true, &mut out);
    out.sort();
    assert_eq!(out, vec![2, 3, 7]);
    let mut none = vec![];
    c.collide(0, &|node| node != 0, &|_| true, &mut none);
    assert!(none.is_empty());
}
