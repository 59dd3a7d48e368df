use rigid_sim::collider::Collider;
use rigid_sim::walk::{Probe, RayWalk};

fn tree_of_four() -> Collider {
    let mut c = Collider::new();
    for id in 0..4 {
        c.add(id);
    }
    c.start_build();
    c.next_node();
    c.build(&vec![true, true, false, false]);
    c
}

fn run(c: &Collider, start: usize, node_hit: impl Fn(usize) -> bool, body_hit: impl Fn(usize) -> bool) -> (Vec<Probe>, Option<usize>) {
    let mut walk = RayWalk::new(start);
    let mut probes = vec![];
    while let Some(p) = walk.next_probe() {
        probes.push(p);
        let hit = match p {
            Probe::Node(i) => node_hit(i),
            Probe::Body(id) => body_hit(id),
        };
        walk.answer(c, hit);
    }
    (probes, walk.best())
}

#[test]
fn walk_visits_depth_first_left_first() {
    let c = tree_of_four();
    // node 1 owns ids[0..2], node 2 owns ids[2..4]
    let ids = c.ids().clone();
    let (probes, best) = run(&c, 0, |_| true, |_| true);
    assert_eq!(
        probes,
        vec![
            Probe::Node(0),
            Probe::Node(1),
            Probe::Body(ids[0]),
            Probe::Body(ids[1]),
            Probe::Node(2),
            Probe::Body(ids[2]),
            Probe::Body(ids[3]),
        ]
    );
    assert_eq!(best, Some(ids[3]));
}

#[test]
fn walk_skips_missed_nodes() {
    let c = tree_of_four();
    let ids = c.ids().clone();
    let (probes, best) = run(&c, 0, |i| i != 2, |_| true);
    assert_eq!(probes, vec![Probe::Node(0), Probe::Node(1), Probe::Body(ids[0]), Probe::Body(ids[1]), Probe::Node(2)]);
    assert_eq!(best, Some(ids[1]));
    let (probes, best) = run(&c, 0, |_| false, |_| true);
    assert_eq!(probes, vec![Probe::Node(0)]);
    assert_eq!(best, None);
}

#[test]
fn walk_ends_with_last_collide_report() {
    let c = tree_of_four();
    for mask in 0..16usize {
        let near = |id: usize| mask & (1 << id) != 0;
        let mut out = vec![];
        c.collide(0, &|_| true, &near, &mut out);
        let (_, best) = run(&c, 0, |_| true, near);
        assert_eq!(best, out.last().copied());
    }
}

#[test]
fn answer_without_probe_does_nothing() {
    let c = tree_of_four();
    let mut walk = RayWalk::new(0);
    walk.answer(&c, true);
    assert_eq!(walk.best(), None);
    assert_eq!(walk.next_probe(), Some(Probe::Node(0)));
    walk.answer(&c, false);
    assert_eq!(walk.next_probe(), None);
}

#[test]
fn walk_from_a_missing_node_finds_nothing() {
    let c = tree_of_four();
    let (probes, best) = run(&c, 99, |_| true, |_| true);
    assert_eq!(probes, vec![Probe::Node(99)]);
    assert_eq!(best, None);
}
