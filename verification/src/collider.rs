//! The bounding-volume tree over body ids that the collision solver walks.
//!
//! The tree is stored flat: node `i` owns the range `ids[first[i] .. first[i] + length[i]]`
//! and, when it is not a leaf, its two children are the nodes `child[i]` and
//! `child[i] + 1`. Building the tree alternates with geometric work (bounding
//! boxes, split thresholds) that this crate leaves to its caller: the caller asks
//! for the next node with `next_node`, computes on which side of the split plane
//! each body of the node lies, and hands that answer to `build`.
use vstd::prelude::*;
use vstd::multiset::Multiset;

verus! {

/// A node whose id range is known and which still has to be split or made a leaf.
#[derive(Clone, Copy, PartialEq, Eq, Structural, Debug)]
pub struct BuildTask {
    pub index: usize,
    pub first: usize,
    pub length: usize,
}

/// The tree of `ids` as plain sequences.
pub ghost struct TreeView {
    pub ids: Seq<usize>,
    pub first: Seq<usize>,
    pub length: Seq<usize>,
    pub child: Seq<usize>,
    pub pending: Seq<BuildTask>,
    pub current: Option<BuildTask>,
}

impl TreeView {
    /// How many nodes the tree has, unused ones included.
    pub open spec fn node_count(self) -> nat {
        self.first.len()
    }

    /// The ids that node `i` owns.
    pub open spec fn range(self, i: int) -> Seq<usize> {
        self.ids.subrange(self.first[i] as int, self.first[i] + self.length[i])
    }

    /// Node `i` is internal and its two children cut its range in two non-empty halves.
    pub open spec fn splits(self, i: int) -> bool {
        let c = self.child[i] as int;
        &&& i < c
        &&& c + 1 < self.node_count()
        &&& self.first[c] == self.first[i]
        &&& self.length[c] > 0
        &&& self.length[c + 1] > 0
        &&& self.first[c + 1] == self.first[i] + self.length[c]
        &&& self.length[c] + self.length[c + 1] == self.length[i]
    }

    /// `t` describes an existing leaf with exactly the range of `t`.
    pub open spec fn task_matches(self, t: BuildTask) -> bool {
        &&& t.index < self.node_count()
        &&& self.child[t.index as int] == 0
        &&& self.first[t.index as int] == t.first
        &&& self.length[t.index as int] == t.length
    }

    /// What every operation keeps: every node's range lies within `ids`; an internal
    /// node's children come after it and cut its range in two non-empty halves; each
    /// node waiting to be split (at most once in the stack, or being split now) is a
    /// leaf with the range recorded for it.
    pub open spec fn wf(self) -> bool {
        &&& self.node_count() <= usize::MAX
        &&& self.length.len() == self.node_count()
        &&& self.child.len() == self.node_count()
        &&& forall|i: int|
            0 <= i < self.node_count() ==> #[trigger] self.first[i] + self.length[i]
                <= self.ids.len()
        &&& forall|i: int|
            0 <= i < self.node_count() && #[trigger] self.child[i] != 0 ==> self.splits(i)
        &&& forall|k: int| 0 <= k < self.pending.len() ==> self.task_matches(#[trigger] self.pending[k])
        &&& forall|k1: int, k2: int|
            0 <= k1 < self.pending.len() && 0 <= k2 < self.pending.len() && k1 != k2
                ==> #[trigger] self.pending[k1].index != #[trigger] self.pending[k2].index
        &&& self.current matches Some(t) ==> {
            &&& self.task_matches(t)
            &&& forall|k: int| 0 <= k < self.pending.len() ==> #[trigger] self.pending[k].index != t.index
        }
    }

    /// The same tree with no node under construction.
    pub open spec fn idle(self) -> TreeView {
        TreeView { current: None, ..self }
    }

    /// The tree after node `t` was split with `size` ids on its left: two nodes are
    /// appended; when both halves are non-empty they become the children of `t`,
    /// own the two halves of its range and wait to be split in turn (left first),
    /// otherwise they stay unused and `t` stays a leaf.
    pub open spec fn split_result(self, ids: Seq<usize>, t: BuildTask, size: int) -> TreeView {
        let n = self.node_count() as int;
        let first = self.first.push(0).push(0);
        let length = self.length.push(0).push(0);
        let child = self.child.push(0).push(0);
        if 0 < size < t.length {
            TreeView {
                ids: ids,
                first: first.update(n, t.first).update(n + 1, (t.first + size) as usize),
                length: length.update(n, size as usize).update(n + 1, (t.length - size) as usize),
                child: child.update(t.index as int, n as usize),
                pending: self.pending.push(
                    BuildTask { index: (n + 1) as usize, first: (t.first + size) as usize, length: (t.length - size) as usize },
                ).push(BuildTask { index: n as usize, first: t.first, length: size as usize }),
                current: None,
            }
        } else {
            TreeView { ids: ids, first: first, length: length, child: child, pending: self.pending, current: None }
        }
    }
}

impl TreeView {
    /// `after` is this tree once its current node was split by `below`.
    pub open spec fn split_by(self, after: TreeView, below: Seq<bool>) -> bool {
        let t = self.current.unwrap();
        exists|size: int|
            partitioned(self.ids, after.ids, t.first as int, t.length as int, below, size)
                && after == self.split_result(after.ids, t, size)
    }
}

impl TreeView {
    /// The ids that a walk from node `idx` reports: it skips every node that fails
    /// `overlaps`, and at a leaf reports, in order, the ids of its range that pass `near`.
    pub open spec fn collected(
        self,
        idx: int,
        overlaps: spec_fn(usize) -> bool,
        near: spec_fn(usize) -> bool,
    ) -> Seq<usize>
        decreases self.node_count() - idx,
    {
        if idx < 0 || idx >= self.node_count() || !overlaps(idx as usize) {
            Seq::empty()
        } else if self.child[idx] == 0 {
            self.range(idx).filter(near)
        } else if idx < self.child[idx] && self.child[idx] + 1 < self.node_count() {
            self.collected(self.child[idx] as int, overlaps, near) + self.collected(
                self.child[idx] + 1,
                overlaps,
                near,
            )
        } else {
            Seq::empty()
        }
    }
}

/// How a walk from node `i` is made of the walks below it, whatever the tests answer:
/// a node that fails `overlaps` (or does not exist) reports nothing; a leaf that passes
/// reports every id of its range that passes `near`, in order; an internal node that
/// passes reports everything its first child reports followed by everything its second
/// child reports, so skipping one child never changes what the other reports.
pub proof fn lemma_walk_is_made_of_subwalks(
    tree: TreeView,
    i: int,
    overlaps: spec_fn(usize) -> bool,
    near: spec_fn(usize) -> bool,
)
    requires
        tree.wf(),
    ensures
        !(0 <= i < tree.node_count()) || !overlaps(i as usize) ==> tree.collected(i, overlaps, near)
            == Seq::<usize>::empty(),
        0 <= i < tree.node_count() && overlaps(i as usize) && tree.child[i] == 0 ==> tree.collected(
            i,
            overlaps,
            near,
        ) == tree.ids.subrange(tree.first[i] as int, tree.first[i] + tree.length[i]).filter(near),
        0 <= i < tree.node_count() && overlaps(i as usize) && tree.child[i] != 0 ==> tree.collected(
            i,
            overlaps,
            near,
        ) == tree.collected(tree.child[i] as int, overlaps, near) + tree.collected(
            tree.child[i] + 1,
            overlaps,
            near,
        ),
{
    if 0 <= i < tree.node_count() && tree.child[i] != 0 {
        assert(tree.splits(i));
    }
}

/// A walk that skips no node reports exactly the ids of the start node's range that
/// pass `near`, in the order in which they stand in `ids`.
pub proof fn lemma_walk_without_pruning(tree: TreeView, idx: int, near: spec_fn(usize) -> bool)
    requires
        tree.wf(),
        0 <= idx < tree.node_count(),
    ensures
        tree.collected(idx, |i: usize| true, near) == tree.range(idx).filter(near),
    decreases tree.node_count() - idx,
{
    if tree.child[idx] != 0 {
        assert(tree.splits(idx));
        let c = tree.child[idx] as int;
        lemma_walk_without_pruning(tree, c, near);
        lemma_walk_without_pruning(tree, c + 1, near);
        assert(tree.first[idx] + tree.length[idx] <= tree.ids.len());
        assert(tree.range(idx) =~= tree.range(c) + tree.range(c + 1));
        Seq::filter_distributes_over_add(tree.range(c), tree.range(c + 1), near);
    }
}

/// When the root owns every id (as `start_build` leaves it, and as every later build
/// step keeps it), a walk from the root that skips no node reports every id that
/// passes `near`, each as often as it was added, in the order of `ids`.
pub proof fn lemma_root_walk_reports_every_near_id(tree: TreeView, near: spec_fn(usize) -> bool)
    requires
        tree.wf(),
        tree.node_count() > 0,
        tree.first[0] == 0,
        tree.length[0] == tree.ids.len(),
    ensures
        tree.collected(0, |i: usize| true, near) == tree.ids.filter(near),
{
    lemma_walk_without_pruning(tree, 0, near);
    assert(tree.range(0) =~= tree.ids);
}

/// Skipping nodes only drops reports: whatever `overlaps` answers, a walk reports no
/// id more often than it occurs among the ids of the start node's range that pass `near`.
pub proof fn lemma_walk_reports_only_near_ids(
    tree: TreeView,
    idx: int,
    overlaps: spec_fn(usize) -> bool,
    near: spec_fn(usize) -> bool,
)
    requires
        tree.wf(),
        0 <= idx < tree.node_count(),
    ensures
        tree.collected(idx, overlaps, near).to_multiset().subset_of(
            tree.range(idx).filter(near).to_multiset(),
        ),
    decreases tree.node_count() - idx,
{
    broadcast use vstd::multiset::group_multiset_axioms;
    broadcast use vstd::seq_lib::group_to_multiset_ensures;
    if !overlaps(idx as usize) {
        assert(tree.collected(idx, overlaps, near).to_multiset() =~= Multiset::empty());
    } else if tree.child[idx] != 0 {
        assert(tree.splits(idx));
        let c = tree.child[idx] as int;
        lemma_walk_reports_only_near_ids(tree, c, overlaps, near);
        lemma_walk_reports_only_near_ids(tree, c + 1, overlaps, near);
        assert(tree.first[idx] + tree.length[idx] <= tree.ids.len());
        assert(tree.range(idx) =~= tree.range(c) + tree.range(c + 1));
        Seq::filter_distributes_over_add(tree.range(c), tree.range(c + 1), near);
        vstd::seq_lib::lemma_multiset_commutative(
            tree.collected(c, overlaps, near),
            tree.collected(c + 1, overlaps, near),
        );
        vstd::seq_lib::lemma_multiset_commutative(
            tree.range(c).filter(near),
            tree.range(c + 1).filter(near),
        );
    }
}

/// Splitting a node only reorders ids inside its range and leaves the range and the
/// place in the tree of every node that existed before unchanged (in particular the
/// root keeps owning every id).
pub proof fn lemma_split_keeps_existing_nodes(tree: TreeView, after: TreeView, below: Seq<bool>)
    requires
        tree.wf(),
        tree.current is Some,
        tree.split_by(after, below),
    ensures
        after.ids.to_multiset() == tree.ids.to_multiset(),
        after.node_count() == tree.node_count() + 2,
        forall|i: int|
            0 <= i < tree.node_count() ==> #[trigger] after.first[i] == tree.first[i]
                && after.length[i] == tree.length[i],
        forall|i: int|
            0 <= i < tree.node_count() && i != tree.current.unwrap().index ==> #[trigger] after.child[i]
                == tree.child[i],
{
    let t = tree.current.unwrap();
    let size = choose|size: int|
        partitioned(tree.ids, after.ids, t.first as int, t.length as int, below, size)
            && after == tree.split_result(after.ids, t, size);
    assert(tree.task_matches(t));
}

/// `f` answers each id the same way every time it is asked.
pub open spec fn is_test<F: Fn(usize) -> bool>(f: F) -> bool {
    forall|i: usize| !(#[trigger] call_ensures(f, (i,), true) && call_ensures(f, (i,), false))
}

/// The answers of a test `f`, as a spec function.
pub open spec fn outcome<F: Fn(usize) -> bool>(f: F) -> spec_fn(usize) -> bool {
    |i: usize| call_ensures(f, (i,), true)
}

/// The order in which a split leaves the ids `s` of a node: the range is swept from
/// both ends; an id marked in `below` at the front stays there, an unmarked one
/// trades places with the id at the back, which is looked at next.
pub open spec fn swept(s: Seq<usize>, below: Seq<bool>) -> Seq<usize>
    decreases s.len(),
{
    if s.len() == 0 {
        s
    } else if below[s[0] as int] {
        seq![s[0]] + swept(s.drop_first(), below)
    } else if s.len() == 1 {
        s
    } else {
        swept(seq![s.last()] + s.subrange(1, s.len() - 1), below) + seq![s[0]]
    }
}

/// `after` is `before` with the slots `first .. first + length` reordered so that the
/// `size` ids marked in `below` come first and the unmarked ones after them, in the
/// order of `swept`.
pub open spec fn partitioned(
    before: Seq<usize>,
    after: Seq<usize>,
    first: int,
    length: int,
    below: Seq<bool>,
    size: int,
) -> bool {
    &&& permuted_within(before, after, first, length)
    &&& after.subrange(first, first + length) == swept(before.subrange(first, first + length), below)
    &&& 0 <= size <= length
    &&& forall|k: int| first <= k < first + size ==> below[#[trigger] after[k] as int]
    &&& forall|k: int| first + size <= k < first + length ==> !below[#[trigger] after[k] as int]
}

/// `after` holds the ids of `before`, reordered only inside the slots `first .. first + length`.
pub open spec fn permuted_within(before: Seq<usize>, after: Seq<usize>, first: int, length: int) -> bool {
    &&& after.len() == before.len()
    &&& after.to_multiset() == before.to_multiset()
    &&& forall|k: int|
        0 <= k < before.len() && !(first <= k < first + length) ==> #[trigger] after[k] == before[k]
}

proof fn lemma_update_multiset(s: Seq<usize>, i: int, v: usize)
    requires
        0 <= i < s.len(),
    ensures
        s.update(i, v).to_multiset() == s.to_multiset().remove(s[i]).insert(v),
{
    assert(s.update(i, v) =~= s.remove(i).insert(i, v));
    vstd::seq_lib::to_multiset_remove(s, i);
    vstd::seq_lib::to_multiset_insert(s.remove(i), i, v);
}

proof fn lemma_swap_multiset(s: Seq<usize>, a: int, b: int)
    requires
        0 <= a < s.len(),
        0 <= b < s.len(),
    ensures
        s.update(a, s[b]).update(b, s[a]).to_multiset() == s.to_multiset(),
{
    broadcast use vstd::multiset::group_multiset_axioms;
    let t = s.update(a, s[b]);
    lemma_update_multiset(s, a, s[b]);
    lemma_update_multiset(t, b, s[a]);
    if a == b {
        assert(t.update(b, s[a]) =~= s);
    } else {
        vstd::seq_lib::to_multiset_contains(s, s[a]);
        assert(s.to_multiset().count(s[a]) > 0) by {
            broadcast use vstd::seq_lib::group_to_multiset_ensures;
            assert(s.contains(s[a]));
        }
        assert(t.update(b, s[a]).to_multiset() =~= s.to_multiset());
    }
}

/// Reorders `ids[first .. first + length]` so that the ids marked in `below` come first;
/// returns how many there are.
fn partition(ids: &mut Vec<usize>, first: usize, length: usize, below: &[bool]) -> (size: usize)
    requires
        first + length <= old(ids)@.len(),
        forall|k: int| first <= k < first + length ==> (#[trigger] old(ids)@[k] as int) < below@.len(),
    ensures
        partitioned(old(ids)@, final(ids)@, first as int, length as int, below@, size as int),
        forall|k: int| first <= k < first + length ==> (#[trigger] final(ids)@[k] as int) < below@.len(),
{
    let mut l0: usize = 0;
    let mut l1: usize = length;
    proof {
        assert(ids@.subrange(first as int, first as int) =~= Seq::<usize>::empty());
        assert(ids@.subrange(first + length, first + length) =~= Seq::<usize>::empty());
        assert(swept(old(ids)@.subrange(first as int, first + length), below@) =~= Seq::<usize>::empty()
            + swept(ids@.subrange(first + 0, first + length), below@) + Seq::<usize>::empty());
    }
    while l0 < l1
        invariant
            0 <= l0 <= l1 <= length,
            first + length <= ids.len(),
            permuted_within(old(ids)@, ids@, first as int, length as int),
            forall|k: int| first <= k < first + length ==> (#[trigger] ids@[k] as int) < below@.len(),
            forall|k: int| first <= k < first + l0 ==> below[#[trigger] ids@[k] as int],
            forall|k: int| first + l1 <= k < first + length ==> !below[#[trigger] ids@[k] as int],
            swept(old(ids)@.subrange(first as int, first + length), below@) == ids@.subrange(
                first as int,
                first + l0,
            ) + swept(ids@.subrange(first + l0, first + l1), below@) + ids@.subrange(
                first + l1,
                first + length,
            ),
        decreases l1 - l0,
    {
        let ghost before = ids@;
        let ghost mid = ids@.subrange(first + l0, first + l1);
        if below[ids[first + l0]] {
            l0 += 1;
            proof {
                assert(mid.drop_first() =~= ids@.subrange(first + l0, first + l1));
                assert(ids@.subrange(first as int, first + l0) =~= before.subrange(
                    first as int,
                    first + l0 - 1,
                ) + seq![mid[0]]);
                assert(swept(mid, below@) == seq![mid[0]] + swept(mid.drop_first(), below@));
            }
        } else {
            let a = first + l0;
            let b = first + l1 - 1;
            let x = ids[a];
            let y = ids[b];
            proof {
                lemma_swap_multiset(ids@, a as int, b as int);
            }
            ids.set(a, y);
            ids.set(b, x);
            l1 -= 1;
            proof {
                assert(ids@.subrange(first as int, first + l0) =~= before.subrange(
                    first as int,
                    first + l0,
                ));
                assert(ids@.subrange(first + l1, first + length) =~= seq![x] + before.subrange(
                    first + l1 + 1,
                    first + length,
                ));
                if mid.len() == 1 {
                    assert(ids@.subrange(first + l0, first + l1) =~= Seq::<usize>::empty());
                    assert(mid =~= seq![x]);
                } else {
                    assert(ids@.subrange(first + l0, first + l1) =~= seq![mid.last()] + mid.subrange(
                        1,
                        mid.len() - 1,
                    ));
                }
                assert(swept(mid, below@) == swept(ids@.subrange(first + l0, first + l1), below@)
                    + seq![x]);
            }
        }
    }
    proof {
        assert(ids@.subrange(first + l0, first + l1) =~= Seq::<usize>::empty());
        assert(ids@.subrange(first as int, first + length) =~= ids@.subrange(first as int, first + l0)
            + ids@.subrange(first + l1, first + length));
    }
    l0
}

/// The tree, plus the nodes still waiting to be split.
pub struct Collider {
    ids: Vec<usize>,
    first: Vec<usize>,
    length: Vec<usize>,
    childs: Vec<usize>,
    pending: Vec<BuildTask>,
    current: Option<BuildTask>,
}

impl View for Collider {
    type V = TreeView;

    closed spec fn view(&self) -> TreeView {
        TreeView {
            ids: self.ids@,
            first: self.first@,
            length: self.length@,
            child: self.childs@,
            pending: self.pending@,
            current: self.current,
        }
    }
}

impl Collider {
    /// The tree is well formed (see `TreeView::wf`).
    pub open spec fn wf(&self) -> bool {
        self@.wf()
    }

    /// An empty collider: no ids, no nodes.
    pub fn new() -> (c: Collider)
        ensures
            c.wf(),
            c@.ids == Seq::<usize>::empty(),
            c@.node_count() == 0,
            c@.pending == Seq::<BuildTask>::empty(),
            c@.current == None::<BuildTask>,
    {
        Collider {
            ids: vec![],
            first: vec![],
            length: vec![],
            childs: vec![],
            pending: vec![],
            current: None,
        }
    }

    /// The registered ids, in the order the tree keeps them.
    pub fn ids(&self) -> (r: &Vec<usize>)
        ensures
            r@ == self@.ids,
    {
        &self.ids
    }

    /// How many nodes the tree has (unused nodes included).
    pub fn node_count(&self) -> (n: usize)
        ensures
            n == self@.node_count(),
    {
        self.first.len()
    }

    /// The range `(first, length)` of ids that node `index` owns.
    pub fn node_range(&self, index: usize) -> (r: (usize, usize))
        requires
            self.wf(),
            index < self@.node_count(),
        ensures
            r == (self@.first[index as int], self@.length[index as int]),
            r.0 + r.1 <= self@.ids.len(),
    {
        (self.first[index], self.length[index])
    }

    /// The first of the two children of node `index`, or `None` for a leaf.
    pub fn children(&self, index: usize) -> (r: Option<usize>)
        requires
            self.wf(),
            index < self@.node_count(),
        ensures
            r == (if self@.child[index as int] == 0 {
                None
            } else {
                Some(self@.child[index as int])
            }),
            r matches Some(c) ==> self@.splits(index as int) && c + 1 < self@.node_count(),
    {
        let c = self.childs[index];
        if c == 0 {
            None
        } else {
            Some(c)
        }
    }

    /// Registers the body `point` with the collider.
    pub fn add(&mut self, point: usize)
        requires
            old(self).wf(),
        ensures
            final(self).wf(),
            final(self)@ == (TreeView { ids: old(self)@.ids.push(point), ..old(self)@ }),
    {
        self.ids.push(point);
    }

    /// Appends a leaf with an empty range and returns its index.
    fn push(&mut self) -> (index: usize)
        requires
            old(self).wf(),
            old(self)@.node_count() < usize::MAX,
        ensures
            final(self).wf(),
            index == old(self)@.node_count(),
            final(self)@ == (TreeView {
                first: old(self)@.first.push(0),
                length: old(self)@.length.push(0),
                child: old(self)@.child.push(0),
                ..old(self)@
            }),
    {
        self.length.push(0);
        self.childs.push(0);
        self.first.push(0);
        let index = self.first.len() - 1;
        proof {
            let v = self@;
            let o = old(self)@;
            assert forall|i: int| 0 <= i < v.node_count() && #[trigger] v.child[i] != 0 implies v.splits(i) by {
                assert(o.splits(i));
            }
            assert forall|k: int| 0 <= k < v.pending.len() implies v.task_matches(#[trigger] v.pending[k]) by {
                assert(o.task_matches(o.pending[k]));
            }
        }
        index
    }

    /// Drops every node, and any build in progress; the ids stay.
    pub fn clear(&mut self)
        requires
            old(self).wf(),
        ensures
            final(self).wf(),
            final(self)@ == (TreeView {
                ids: old(self)@.ids,
                first: Seq::empty(),
                length: Seq::empty(),
                child: Seq::empty(),
                pending: Seq::empty(),
                current: None,
            }),
    {
        self.length.clear();
        self.childs.clear();
        self.first.clear();
        self.pending.clear();
        self.current = None;
    }

    /// Starts a rebuild of the tree: one root node that owns every id.
    pub fn start_build(&mut self)
        requires
            old(self).wf(),
        ensures
            final(self).wf(),
            final(self)@ == (TreeView {
                ids: old(self)@.ids,
                first: seq![0usize],
                length: seq![old(self)@.ids.len() as usize],
                child: seq![0usize],
                pending: seq![BuildTask { index: 0, first: 0, length: old(self)@.ids.len() as usize }],
                current: None,
            }),
    {
        self.clear();
        let root = self.push();
        let n = self.ids.len();
        self.length.set(root, n);
        let task = BuildTask { index: root, first: 0, length: n };
        self.pending.push(task);
        assert(self@.first =~= seq![0usize]);
        assert(self@.length =~= seq![n]);
        assert(self@.child =~= seq![0usize]);
        assert(self@.pending =~= seq![task]);
    }

    /// Takes the next node to split, depth first, left child before right child.
    pub fn next_node(&mut self) -> (task: Option<BuildTask>)
        requires
            old(self).wf(),
        ensures
            final(self).wf(),
            final(self)@.current == task,
            old(self)@.pending.len() == 0 ==> task is None && final(self)@ == old(self)@.idle(),
            old(self)@.pending.len() > 0 ==> task == Some(old(self)@.pending.last())
                && final(self)@ == (TreeView {
                    pending: old(self)@.pending.drop_last(),
                    current: task,
                    ..old(self)@
                }),
    {
        let task = self.pending.pop();
        self.current = task;
        proof {
            let v = self@;
            let o = old(self)@;
            if o.pending.len() > 0 {
                assert(o.task_matches(o.pending[o.pending.len() - 1]));
                assert forall|k: int| 0 <= k < v.pending.len() implies v.task_matches(#[trigger] v.pending[k]) by {
                    assert(o.task_matches(o.pending[k]));
                }
            }
        }
        task
    }

    /// Reports the ids near a probe: walks the tree from node `idx`, skips every
    /// node for which `overlaps` says the probe misses its box, and at each leaf
    /// appends to `out` the ids of its range for which `near` holds.
    pub fn collide<F: Fn(usize) -> bool, G: Fn(usize) -> bool>(
        &self,
        idx: usize,
        overlaps: &F,
        near: &G,
        out: &mut Vec<usize>,
    )
        requires
            self.wf(),
            idx < self@.node_count(),
            forall|i: usize| call_requires(*overlaps, (i,)),
            forall|i: usize| call_requires(*near, (i,)),
            is_test(*overlaps),
            is_test(*near),
        ensures
            final(out)@ == old(out)@ + self@.collected(idx as int, outcome(*overlaps), outcome(*near)),
        decreases self@.node_count() - idx,
    {
        let hit = overlaps(idx);
        if !hit {
            return;
        }
        let c = self.childs[idx];
        if c == 0 {
            let first = self.first[idx];
            let length = self.length[idx];
            assert(self@.first[idx as int] + self@.length[idx as int] <= self@.ids.len());
            let ghost nr = outcome(*near);
            let mut k = first;
            while k < first + length
                invariant
                    first <= k <= first + length,
                    first + length <= self.ids.len(),
                    forall|i: usize| call_requires(*near, (i,)),
                    is_test(*near),
                    nr == outcome(*near),
                    out@ == old(out)@ + self@.ids.subrange(first as int, k as int).filter(nr),
                decreases first + length - k,
            {
                let id = self.ids[k];
                let keep = near(id);
                proof {
                    reveal(Seq::filter);
                    let s = self@.ids.subrange(first as int, k + 1);
                    assert(s.drop_last() =~= self@.ids.subrange(first as int, k as int));
                    assert(s.last() == id);
                    assert(keep == nr(id));
                }
                if keep {
                    out.push(id);
                }
                proof {
                    reveal(Seq::filter);
                    let s = self@.ids.subrange(first as int, k + 1);
                    assert(s.drop_last() =~= self@.ids.subrange(first as int, k as int));
                    assert(out@ =~= old(out)@ + s.filter(nr));
                }
                k += 1;
            }
            return;
        }
        assert(self@.splits(idx as int));
        assert(c + 1 < self.first.len());
        self.collide(c, overlaps, near, out);
        self.collide(c + 1, overlaps, near, out);
        assert(out@ =~= old(out)@ + self@.collected(idx as int, outcome(*overlaps), outcome(*near)));
    }

    /// Splits the node taken by the last `next_node`, given for every id of its range
    /// whether the body lies below the split plane (`below[id]`).
    ///
    /// A node with fewer than two ids stays a leaf. Otherwise two nodes are appended,
    /// the range is reordered with the marked ids first, and, when both halves are
    /// non-empty, the two nodes become the children of the split node and wait to be
    /// split in turn; when one half is empty the node stays a leaf.
    pub fn build(&mut self, below: &[bool])
        requires
            old(self).wf(),
            old(self)@.current matches Some(t) ==> forall|k: int|
                t.first <= k < t.first + t.length ==> (#[trigger] old(self)@.ids[k] as int)
                    < below@.len(),
            old(self)@.node_count() + 2 <= usize::MAX,
        ensures
            final(self).wf(),
            final(self)@.current is None,
            old(self)@.current is None ==> final(self)@ == old(self)@,
            old(self)@.current matches Some(t) && t.length < 2 ==> final(self)@ == old(self)@.idle(),
            old(self)@.current matches Some(t) && t.length >= 2 ==> old(self)@.split_by(
                final(self)@,
                below@,
            ),
    {
        let t = match self.current {
            None => { return; },
            Some(t) => t,
        };
        self.current = None;
        if t.length < 2 {
            proof {
                let v = self@;
                let o = old(self)@;
                assert forall|k: int| 0 <= k < v.pending.len() implies v.task_matches(#[trigger] v.pending[k]) by {
                    assert(o.task_matches(o.pending[k]));
                }
                assert(v =~= o.idle());
            }
            return;
        }
        let ghost o = old(self)@;
        assert(t.first + t.length <= self.ids.len()) by {
            assert(o.task_matches(t));
        }
        let n = self.push();
        let n1 = self.push();
        let size = partition(&mut self.ids, t.first, t.length, below);
        if size == 0 || size == t.length {
            proof {
                let v = self@;
                assert(v.first =~= o.first.push(0).push(0));
                assert(v.length =~= o.length.push(0).push(0));
                assert(v.child =~= o.child.push(0).push(0));
                assert(v =~= o.split_result(v.ids, t, size as int));
            }
            return;
        }
        self.childs.set(t.index, n);
        self.first.set(n, t.first);
        self.length.set(n, size);
        self.first.set(n1, t.first + size);
        self.length.set(n1, t.length - size);
        let right = BuildTask { index: n1, first: t.first + size, length: t.length - size };
        let left = BuildTask { index: n, first: t.first, length: size };
        self.pending.push(right);
        self.pending.push(left);
        proof {
            let v = self@;
            let r = o.split_result(v.ids, t, size as int);
            assert(v.first =~= r.first);
            assert(v.length =~= r.length);
            assert(v.child =~= r.child);
            assert(v.pending =~= r.pending);
            assert(v =~= r);
            assert(o.task_matches(t));
            assert forall|i: int| 0 <= i < v.node_count() implies #[trigger] v.first[i] + v.length[i] <= v.ids.len() by {
                if i < o.node_count() {
                    assert(o.first[i] + o.length[i] <= o.ids.len());
                }
            }
            assert forall|i: int| 0 <= i < v.node_count() && #[trigger] v.child[i] != 0 implies v.splits(i) by {
                if i != t.index {
                    assert(o.splits(i));
                }
            }
            assert forall|k: int| 0 <= k < v.pending.len() implies v.task_matches(#[trigger] v.pending[k]) by {
                if k < o.pending.len() {
                    assert(o.task_matches(o.pending[k]));
                    assert(o.pending[k].index != t.index);
                }
            }
            assert forall|k1: int, k2: int|
                0 <= k1 < v.pending.len() && 0 <= k2 < v.pending.len() && k1 != k2
                    implies #[trigger] v.pending[k1].index != #[trigger] v.pending[k2].index by {
                if k1 < o.pending.len() {
                    assert(o.task_matches(o.pending[k1]));
                }
                if k2 < o.pending.len() {
                    assert(o.task_matches(o.pending[k2]));
                }
            }
        }
    }
}

} // verus!
