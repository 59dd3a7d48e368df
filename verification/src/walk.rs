//! A depth-first walk of the collision tree driven one test at a time, for the
//! picking ray: which node or body to test next is decided here, the geometric test
//! itself (and any state it keeps, such as the best distance so far) by the caller.
use vstd::prelude::*;
use crate::collider::{Collider, TreeView};

verus! {

/// What the walk asks the caller to test next.
#[derive(Clone, Copy, PartialEq, Eq, Structural, Debug)]
pub enum Probe {
    /// Does the ray meet the box of this node?
    Node(usize),
    /// Does the ray meet this body?
    Body(usize),
}

/// The walk as plain values: probes still to make (the last one is made first), the
/// probe awaiting its answer, and the last body that was hit.
pub ghost struct WalkView {
    pub stack: Seq<Probe>,
    pub current: Option<Probe>,
    pub best: Option<usize>,
}

impl TreeView {
    /// The probes that a hit on node `i` adds, last made first: the two children
    /// (left on top), or the bodies of a leaf (first body of its range on top).
    pub open spec fn expansion(self, i: int) -> Seq<Probe> {
        if self.child[i] == 0 {
            let r = self.range(i);
            Seq::new(r.len(), |k: int| Probe::Body(r[r.len() - 1 - k]))
        } else {
            seq![Probe::Node((self.child[i] + 1) as usize), Probe::Node(self.child[i])]
        }
    }
}

impl WalkView {
    /// The walk once the probe on top of the stack was taken.
    pub open spec fn popped(self) -> WalkView {
        if self.stack.len() == 0 {
            WalkView { current: None, ..self }
        } else {
            WalkView { stack: self.stack.drop_last(), current: Some(self.stack.last()), best: self.best }
        }
    }

    /// The walk once the current probe was answered `hit`: a hit node (of the tree)
    /// adds its expansion, a hit body becomes the best one.
    pub open spec fn answered(self, tree: TreeView, hit: bool) -> WalkView {
        match self.current {
            None => self,
            Some(Probe::Node(i)) => WalkView {
                stack: if hit && i < tree.node_count() {
                    self.stack + tree.expansion(i as int)
                } else {
                    self.stack
                },
                current: None,
                best: self.best,
            },
            Some(Probe::Body(id)) => WalkView {
                stack: self.stack,
                current: None,
                best: if hit {
                    Some(id)
                } else {
                    self.best
                },
            },
        }
    }
}

/// The answer to probe `p` when every node test answers `overlaps` and every body
/// test answers `near`.
pub open spec fn expected_answer(
    p: Probe,
    overlaps: spec_fn(usize) -> bool,
    near: spec_fn(usize) -> bool,
) -> bool {
    match p {
        Probe::Node(i) => overlaps(i),
        Probe::Body(id) => near(id),
    }
}

/// The bodies that probe `p` leads to hits on, under fixed answers: a node leads to
/// the ids that a walk of `collide` from it reports.
pub open spec fn probe_reports(
    tree: TreeView,
    p: Probe,
    overlaps: spec_fn(usize) -> bool,
    near: spec_fn(usize) -> bool,
) -> Seq<usize> {
    match p {
        Probe::Node(i) => tree.collected(i as int, overlaps, near),
        Probe::Body(id) => if near(id) {
            seq![id]
        } else {
            Seq::empty()
        },
    }
}

/// The bodies that the probes of `stack` lead to hits on, top of the stack first.
pub open spec fn stack_reports(
    tree: TreeView,
    stack: Seq<Probe>,
    overlaps: spec_fn(usize) -> bool,
    near: spec_fn(usize) -> bool,
) -> Seq<usize>
    decreases stack.len(),
{
    if stack.len() == 0 {
        Seq::empty()
    } else {
        probe_reports(tree, stack.last(), overlaps, near) + stack_reports(
            tree,
            stack.drop_last(),
            overlaps,
            near,
        )
    }
}

/// The body that walk `w` ends with under fixed answers: the last body still to be
/// hit, or else the best one so far.
pub open spec fn final_best(
    tree: TreeView,
    w: WalkView,
    overlaps: spec_fn(usize) -> bool,
    near: spec_fn(usize) -> bool,
) -> Option<usize> {
    let rest = stack_reports(tree, w.stack, overlaps, near);
    if rest.len() > 0 {
        Some(rest.last())
    } else {
        w.best
    }
}

proof fn lemma_stack_reports_append(
    tree: TreeView,
    s: Seq<Probe>,
    e: Seq<Probe>,
    overlaps: spec_fn(usize) -> bool,
    near: spec_fn(usize) -> bool,
)
    ensures
        stack_reports(tree, s + e, overlaps, near) == stack_reports(tree, e, overlaps, near)
            + stack_reports(tree, s, overlaps, near),
    decreases e.len(),
{
    if e.len() == 0 {
        assert(s + e =~= s);
        assert(stack_reports(tree, e, overlaps, near) =~= Seq::<usize>::empty());
        assert(stack_reports(tree, s + e, overlaps, near) =~= Seq::<usize>::empty()
            + stack_reports(tree, s, overlaps, near));
    } else {
        assert((s + e).drop_last() =~= s + e.drop_last());
        assert((s + e).last() == e.last());
        lemma_stack_reports_append(tree, s, e.drop_last(), overlaps, near);
        assert(stack_reports(tree, s + e, overlaps, near) =~= stack_reports(tree, e, overlaps, near)
            + stack_reports(tree, s, overlaps, near));
    }
}

proof fn lemma_leaf_expansion_reports(
    tree: TreeView,
    r: Seq<usize>,
    overlaps: spec_fn(usize) -> bool,
    near: spec_fn(usize) -> bool,
)
    ensures
        stack_reports(
            tree,
            Seq::new(r.len(), |k: int| Probe::Body(r[r.len() - 1 - k])),
            overlaps,
            near,
        ) == r.filter(near),
    decreases r.len(),
{
    let e = Seq::new(r.len(), |k: int| Probe::Body(r[r.len() - 1 - k]));
    if r.len() == 0 {
        reveal(Seq::filter);
        assert(r.filter(near) =~= Seq::<usize>::empty());
    } else {
        let t = r.drop_first();
        let et = Seq::new(t.len(), |k: int| Probe::Body(t[t.len() - 1 - k]));
        assert(e.drop_last() =~= et);
        assert(e.last() == Probe::Body(r[0]));
        lemma_leaf_expansion_reports(tree, t, overlaps, near);
        assert(r =~= seq![r[0]] + t);
        t.lemma_filter_prepend(r[0], near);
    }
}

/// A walk that starts at node `index` ends, under fixed answers, with the last id
/// that a walk of `collide` from the same node reports (`None` when it reports none).
pub proof fn lemma_walk_starts_with_collide_reports(
    tree: TreeView,
    index: usize,
    overlaps: spec_fn(usize) -> bool,
    near: spec_fn(usize) -> bool,
)
    ensures
        ({
            let w = WalkView { stack: seq![Probe::Node(index)], current: None, best: None };
            let reports = tree.collected(index as int, overlaps, near);
            final_best(tree, w, overlaps, near) == if reports.len() > 0 {
                Some(reports.last())
            } else {
                None
            }
        }),
{
    let w = WalkView { stack: seq![Probe::Node(index)], current: None, best: None };
    assert(w.stack.drop_last() =~= Seq::<Probe>::empty());
    assert(stack_reports(tree, w.stack.drop_last(), overlaps, near) =~= Seq::<usize>::empty());
    assert(stack_reports(tree, w.stack, overlaps, near) =~= tree.collected(
        index as int,
        overlaps,
        near,
    ));
}

/// Taking a probe and answering it as the fixed tests do never changes the body the
/// walk ends with; once the stack is empty that body is the best one. Together with
/// the law above: under fixed tests the walk finds the last body that `collide` would
/// report from the same node.
pub proof fn lemma_walk_step_keeps_final_best(
    tree: TreeView,
    w: WalkView,
    overlaps: spec_fn(usize) -> bool,
    near: spec_fn(usize) -> bool,
)
    requires
        tree.wf(),
        w.current is None,
        w.stack.len() > 0,
    ensures
        ({
            let hit = expected_answer(w.stack.last(), overlaps, near);
            let after = w.popped().answered(tree, hit);
            &&& after.current is None
            &&& final_best(tree, after, overlaps, near) == final_best(tree, w, overlaps, near)
        }),
{
    let p = w.stack.last();
    let hit = expected_answer(p, overlaps, near);
    let rest = w.stack.drop_last();
    let after = w.popped().answered(tree, hit);
    let own = match p {
        Probe::Node(_) => Seq::<usize>::empty(),
        Probe::Body(id) => if near(id) {
            seq![id]
        } else {
            Seq::empty()
        },
    };
    // what the popped probe leads to = what it reports itself + what it pushed
    match p {
        Probe::Node(i) => {
            if hit && i < tree.node_count() {
                lemma_stack_reports_append(tree, rest, tree.expansion(i as int), overlaps, near);
                if tree.child[i as int] == 0 {
                    lemma_leaf_expansion_reports(tree, tree.range(i as int), overlaps, near);
                } else {
                    assert(tree.splits(i as int));
                    let c = tree.child[i as int];
                    let e = tree.expansion(i as int);
                    assert(e.drop_last().drop_last() =~= Seq::<Probe>::empty());
                    assert(e.last() == Probe::Node(c));
                    assert(e.drop_last().last() == Probe::Node((c + 1) as usize));
                    assert(stack_reports(tree, e.drop_last().drop_last(), overlaps, near)
                        =~= Seq::<usize>::empty());
                    assert(stack_reports(tree, e.drop_last(), overlaps, near) =~= tree.collected(
                        c + 1,
                        overlaps,
                        near,
                    ));
                    assert(stack_reports(tree, e, overlaps, near) =~= tree.collected(
                        i as int,
                        overlaps,
                        near,
                    ));
                }
                assert(stack_reports(tree, after.stack, overlaps, near) =~= probe_reports(
                    tree,
                    p,
                    overlaps,
                    near,
                ) + stack_reports(tree, rest, overlaps, near));
            } else {
                assert(probe_reports(tree, p, overlaps, near) =~= Seq::<usize>::empty());
                assert(stack_reports(tree, after.stack, overlaps, near) =~= probe_reports(
                    tree,
                    p,
                    overlaps,
                    near,
                ) + stack_reports(tree, rest, overlaps, near));
            }
            assert(after.best == w.best);
        },
        Probe::Body(id) => {
            assert(after.stack == rest);
        },
    }
    assert(stack_reports(tree, w.stack, overlaps, near) =~= probe_reports(tree, p, overlaps, near)
        + stack_reports(tree, rest, overlaps, near));
}

/// The state of a walk over a collision tree.
pub struct RayWalk {
    stack: Vec<Probe>,
    current: Option<Probe>,
    best: Option<usize>,
}

impl View for RayWalk {
    type V = WalkView;

    closed spec fn view(&self) -> WalkView {
        WalkView { stack: self.stack@, current: self.current, best: self.best }
    }
}

impl RayWalk {
    /// A walk that starts at node `index`.
    pub fn new(index: usize) -> (w: RayWalk)
        ensures
            w@ == (WalkView { stack: seq![Probe::Node(index)], current: None, best: None }),
    {
        let mut stack = Vec::new();
        stack.push(Probe::Node(index));
        assert(stack@ =~= seq![Probe::Node(index)]);
        RayWalk { stack, current: None, best: None }
    }

    /// The next probe to answer, or `None` when the walk is over.
    pub fn next_probe(&mut self) -> (p: Option<Probe>)
        ensures
            final(self)@ == old(self)@.popped(),
            p == final(self)@.current,
    {
        let p = self.stack.pop();
        self.current = p;
        p
    }

    /// Answers the probe taken by the last `next_probe`.
    pub fn answer(&mut self, tree: &Collider, hit: bool)
        requires
            tree.wf(),
        ensures
            final(self)@ == old(self)@.answered(tree@, hit),
    {
        let p = match self.current {
            None => { return; },
            Some(p) => p,
        };
        self.current = None;
        match p {
            Probe::Body(id) => {
                if hit {
                    self.best = Some(id);
                }
            },
            Probe::Node(i) => {
                if hit && i < tree.node_count() {
                    match tree.children(i) {
                        Some(c) => {
                            self.stack.push(Probe::Node(c + 1));
                            self.stack.push(Probe::Node(c));
                            assert(self@.stack =~= old(self)@.stack + tree@.expansion(i as int));
                        },
                        None => {
                            let (first, length) = tree.node_range(i);
                            let ids = tree.ids();
                            let ghost r = tree@.range(i as int);
                            let ghost s0 = self.stack@;
                            let ghost best0 = self.best;
                            let mut k = length;
                            while k > 0
                                invariant
                                    k <= length,
                                    self.current == None::<Probe>,
                                    self.best == best0,
                                    first + length <= ids.len(),
                                    ids@ == tree@.ids,
                                    r == ids@.subrange(first as int, first + length),
                                    self.stack@ == s0 + Seq::new(
                                        (length - k) as nat,
                                        |m: int| Probe::Body(r[r.len() - 1 - m]),
                                    ),
                                decreases k,
                            {
                                k -= 1;
                                self.stack.push(Probe::Body(ids[first + k]));
                                assert(self.stack@ =~= s0 + Seq::new(
                                    (length - k) as nat,
                                    |m: int| Probe::Body(r[r.len() - 1 - m]),
                                ));
                            }
                            assert(self@.stack =~= old(self)@.stack + tree@.expansion(i as int));
                        },
                    }
                }
                assert(self@ == old(self)@.answered(tree@, hit));
            },
        }
    }

    /// The last body whose probe was answered with a hit.
    pub fn best(&self) -> (b: Option<usize>)
        ensures
            b == self@.best,
    {
        self.best
    }
}

} // verus!
