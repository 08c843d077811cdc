//! The prefix tree of a decode and the beam that is kept over it.
//!
//! Nodes live in an arena and are named by their index in it. Each node stands
//! for one label prefix and carries the probabilities of the previous and of
//! the current time step. The beam is a bounded min-heap of node indices,
//! keyed by the current total of the node.

use std::cmp::Ordering;
use std::collections::HashMap;
use vstd::prelude::*;
use vstd::std_specs::cmp::{PartialEqSpecImpl, PartialOrdSpecImpl};
use crate::heap::{
    key, lemma_ordered_frame, lemma_same_items_in_range, lemma_sift_down_keeps,
    lemma_sift_down_orders, lemma_sift_up_keeps, lemma_sift_up_orders, lemma_top_is_least,
    le_parent, ordered, sift_down, sift_up, swapped,
};
use crate::log_space::LogSpace;

verus! {

/// The parent of a node that has none: the root.
pub const NO_PARENT: usize = usize::MAX;

/// The label of an entry that was not given one.
pub const NO_LABEL: i32 = i32::MAX;

/// The probabilities of one prefix at one time step.
#[derive(Clone, Copy, Debug, PartialEq, Eq, Structural)]
pub struct BeamProbability {
    /// That the prefix ended in its last label.
    pub label: LogSpace,
    /// That the prefix ended in a blank.
    pub blank: LogSpace,
    /// The sum of the two.
    pub total: LogSpace,
}

impl BeamProbability {
    /// Probability zero throughout.
    pub open spec fn inactive() -> BeamProbability {
        BeamProbability {
            label: LogSpace::spec_neg_infinity(),
            blank: LogSpace::spec_neg_infinity(),
            total: LogSpace::spec_neg_infinity(),
        }
    }

    /// The probabilities of the empty prefix before the first time step: it
    /// has certainly ended in a blank.
    pub open spec fn initial() -> BeamProbability {
        BeamProbability {
            label: LogSpace::spec_neg_infinity(),
            blank: LogSpace::spec_zero(),
            total: LogSpace::spec_zero(),
        }
    }
}

impl Default for BeamProbability {
    fn default() -> (p: BeamProbability)
        ensures
            p == BeamProbability::inactive(),
    {
        BeamProbability {
            label: LogSpace::neg_infinity(),
            blank: LogSpace::neg_infinity(),
            total: LogSpace::neg_infinity(),
        }
    }
}

/// What a node holds, with its children as a map from label to index.
pub struct EntryView {
    pub old_p: BeamProbability,
    pub new_p: BeamProbability,
    pub label: i32,
    pub parent: usize,
    pub children: Map<i32, usize>,
}

impl EntryView {
    /// A node without probabilities and without children.
    pub open spec fn fresh(label: i32, parent: usize) -> EntryView {
        EntryView {
            old_p: BeamProbability::inactive(),
            new_p: BeamProbability::inactive(),
            label,
            parent,
            children: Map::empty(),
        }
    }

    /// The root of a tree.
    pub open spec fn root(label: i32) -> EntryView {
        EntryView {
            old_p: BeamProbability::inactive(),
            new_p: BeamProbability::initial(),
            label,
            parent: NO_PARENT,
            children: Map::empty(),
        }
    }

    /// A node is active while its current total is not probability zero.
    pub open spec fn is_active(self) -> bool {
        self.new_p.total != LogSpace::spec_neg_infinity()
    }
}

/// One node of the prefix tree.
pub struct BeamEntry {
    /// The probabilities of the previous time step.
    pub old_p: BeamProbability,
    /// The probabilities of the time step that is being computed.
    pub new_p: BeamProbability,
    /// The last label of the prefix.
    pub label: i32,
    /// The node of the prefix without its last label, or `NO_PARENT`.
    pub parent: usize,
    /// The nodes of the prefixes that are one label longer, by that label.
    pub children: HashMap<i32, usize>,
}

impl View for BeamEntry {
    type V = EntryView;

    open spec fn view(&self) -> EntryView {
        EntryView {
            old_p: self.old_p,
            new_p: self.new_p,
            label: self.label,
            parent: self.parent,
            children: self.children@,
        }
    }
}

impl Default for BeamEntry {
    fn default() -> (e: BeamEntry)
        ensures
            e@ == EntryView::fresh(NO_LABEL, NO_PARENT),
    {
        BeamEntry {
            old_p: Default::default(),
            new_p: Default::default(),
            label: NO_LABEL,
            parent: NO_PARENT,
            children: HashMap::new(),
        }
    }
}

impl BeamEntry {
    /// Whether the current total is not probability zero.
    pub fn is_active(&self) -> (r: bool)
        ensures
            r == self@.is_active(),
    {
        self.new_p.total != LogSpace::neg_infinity()
    }
}

/// Nodes are equal when their current totals are.
impl PartialEq for BeamEntry {
    fn eq(&self, other: &Self) -> (r: bool) {
        self.new_p.total.0.0 == other.new_p.total.0.0
    }
}

impl PartialEqSpecImpl for BeamEntry {
    open spec fn obeys_eq_spec() -> bool {
        true
    }

    open spec fn eq_spec(&self, other: &Self) -> bool {
        self.new_p.total.0.0 == other.new_p.total.0.0
    }
}

/// Nodes are ordered by their current totals.
impl PartialOrd for BeamEntry {
    fn partial_cmp(&self, other: &Self) -> (r: Option<Ordering>) {
        if self.new_p.total.0.0 < other.new_p.total.0.0 {
            Some(Ordering::Less)
        } else if self.new_p.total.0.0 > other.new_p.total.0.0 {
            Some(Ordering::Greater)
        } else {
            Some(Ordering::Equal)
        }
    }
}

impl PartialOrdSpecImpl for BeamEntry {
    open spec fn obeys_partial_cmp_spec() -> bool {
        true
    }

    open spec fn partial_cmp_spec(&self, other: &Self) -> Option<Ordering> {
        if self.new_p.total.0.0 < other.new_p.total.0.0 {
            Some(Ordering::Less)
        } else if self.new_p.total.0.0 > other.new_p.total.0.0 {
            Some(Ordering::Greater)
        } else {
            Some(Ordering::Equal)
        }
    }
}

/// What a beam list holds: the arena, and the beam over it.
pub struct BeamListView {
    /// The most nodes that the beam keeps.
    pub capacity: usize,
    /// The nodes, by index.
    pub entries: Seq<EntryView>,
    /// The beam, in heap order: the children of position `i` are at
    /// positions `2 * i + 1` and `2 * i + 2`.
    pub heap: Seq<usize>,
}

impl BeamListView {
    /// An empty arena under an empty beam.
    pub open spec fn empty(capacity: usize) -> BeamListView {
        BeamListView { capacity, entries: Seq::empty(), heap: Seq::empty() }
    }

    /// The key by which the beam orders a node: its current total.
    pub open spec fn key(self, idx: usize) -> int {
        key(self.entries, idx)
    }

    /// The beam is a min-heap by key.
    pub open spec fn heap_ordered(self) -> bool {
        ordered(self.entries, self.heap)
    }

    /// Every item of `h` names a node.
    pub open spec fn in_range(self, h: Seq<usize>) -> bool {
        forall|i: int| 0 <= i < h.len() ==> (#[trigger] h[i]) < self.entries.len()
    }

    /// Node `i` is linked as a node of a tree: the first node is the root,
    /// every other node comes after its parent and is the child that its
    /// parent has under its label, and every child that it lists is a later
    /// node that names it as parent under that label.
    pub open spec fn node_wf(self, i: int) -> bool {
        let e = self.entries[i];
        &&& i == 0 ==> e.parent == NO_PARENT
        &&& i > 0 ==> {
            &&& e.parent < i
            &&& self.entries[e.parent as int].children.contains_key(e.label)
            &&& self.entries[e.parent as int].children[e.label] == i
        }
        &&& forall|l: i32| #[trigger]
            e.children.contains_key(l) ==> {
                &&& i < e.children[l] < self.entries.len()
                &&& self.entries[e.children[l] as int].parent == i
                &&& self.entries[e.children[l] as int].label == l
            }
    }

    /// The nodes form one tree.
    pub open spec fn tree_wf(self) -> bool {
        forall|i: int| 0 <= i < self.entries.len() ==> #[trigger] self.node_wf(i)
    }

    /// The nodes form one tree, and the beam holds at most `capacity` of them.
    pub open spec fn wf(self) -> bool {
        &&& self.heap.len() <= self.capacity
        &&& self.in_range(self.heap)
        &&& self.tree_wf()
    }

    /// With the beam emptied.
    pub open spec fn clear(self) -> BeamListView {
        BeamListView { heap: Seq::empty(), ..self }
    }

    /// With a root of the given label as a new node, alone in the beam.
    pub open spec fn add_root(self, label: i32) -> BeamListView {
        BeamListView {
            entries: self.entries.push(EntryView::root(label)),
            heap: seq![self.entries.len() as usize],
            ..self
        }
    }

    /// With the previous probabilities of a node replaced. An index that
    /// names no node changes nothing.
    pub open spec fn set_old_p(self, idx: usize, p: BeamProbability) -> BeamListView {
        if idx < self.entries.len() {
            BeamListView {
                entries: self.entries.update(
                    idx as int,
                    EntryView { old_p: p, ..self.entries[idx as int] },
                ),
                ..self
            }
        } else {
            self
        }
    }

    /// With the current probabilities of a node replaced. An index that
    /// names no node changes nothing.
    pub open spec fn set_new_p(self, idx: usize, p: BeamProbability) -> BeamListView {
        if idx < self.entries.len() {
            BeamListView {
                entries: self.entries.update(
                    idx as int,
                    EntryView { new_p: p, ..self.entries[idx as int] },
                ),
                ..self
            }
        } else {
            self
        }
    }

    /// With the current probabilities of a node set to zero.
    pub open spec fn deactivate(self, idx: usize) -> BeamListView {
        self.set_new_p(idx, BeamProbability::inactive())
    }

    /// The child of `parent` under `label`, made as a new inactive node at
    /// the end of the arena if there was none. A parent that names no node
    /// gets no child.
    pub open spec fn get_child(self, parent: usize, label: i32) -> (BeamListView, usize) {
        let p = self.entries[parent as int];
        if parent >= self.entries.len() {
            (self, parent)
        } else if p.children.contains_key(label) {
            (self, p.children[label])
        } else {
            let idx = self.entries.len() as usize;
            (
                BeamListView {
                    entries: self.entries.update(
                        parent as int,
                        EntryView { children: p.children.insert(label, idx), ..p },
                    ).push(EntryView::fresh(label, parent)),
                    ..self
                },
                idx,
            )
        }
    }

    /// The list after a node is offered to the beam, and the node that left
    /// the beam for it. Below capacity the node is added and none leaves. At
    /// capacity the node takes the place of the one at the top, which leaves.
    pub open spec fn push(self, idx: usize) -> (BeamListView, Option<usize>) {
        if self.heap.len() < self.capacity {
            (
                BeamListView {
                    heap: sift_up(self.entries, self.heap.push(idx), self.heap.len() as int),
                    ..self
                },
                None,
            )
        } else {
            (
                BeamListView { heap: sift_down(self.entries, self.heap.update(0, idx), 0), ..self },
                Some(self.heap[0]),
            )
        }
    }

    /// The labels from the root to a node, the root's own label left out.
    pub open spec fn path(self, idx: int) -> Seq<i32>
        decreases idx,
    {
        if 0 < idx && self.entries[idx].parent < idx {
            self.path(self.entries[idx].parent as int).push(self.entries[idx].label)
        } else {
            Seq::empty()
        }
    }

    /// How many labels the prefix of a node has.
    pub open spec fn depth(self, idx: int) -> nat {
        self.path(idx).len()
    }

    /// The node `k` parent links above a node.
    pub open spec fn ancestor(self, idx: int, k: nat) -> int
        decreases k,
    {
        if k == 0 {
            idx
        } else {
            self.ancestor(self.entries[idx].parent as int, (k - 1) as nat)
        }
    }

    /// Two lists have the same tree up to node `idx`: the same parents and
    /// labels.
    pub open spec fn same_links_up_to(self, other: BeamListView, idx: int) -> bool {
        forall|j: int|
            0 <= j <= idx ==> (#[trigger] self.entries[j]).parent == other.entries[j].parent
                && self.entries[j].label == other.entries[j].label
    }

    /// The path of a node is a matter of the parents and labels up to it.
    pub proof fn lemma_path_frame(self, other: BeamListView, idx: int)
        requires
            self.same_links_up_to(other, idx),
        ensures
            self.path(idx) == other.path(idx),
        decreases idx,
    {
        if 0 < idx && self.entries[idx].parent < idx {
            assert(self.entries[idx].parent == other.entries[idx].parent);
            self.lemma_path_frame(other, self.entries[idx].parent as int);
        } else if 0 < idx {
            assert(self.entries[idx].parent == other.entries[idx].parent);
        }
    }

    /// In a tree every node but the root has its parent before it, and from
    /// every node as many parent links as its prefix has labels lead to the
    /// root and no fewer: the links hold no cycle.
    pub proof fn lemma_root_is_reached(self, idx: int)
        requires
            self.tree_wf(),
            0 <= idx < self.entries.len(),
        ensures
            idx > 0 ==> self.entries[idx].parent < idx,
            self.ancestor(idx, self.depth(idx)) == 0,
            forall|k: nat| k < self.depth(idx) ==> 0 < #[trigger] self.ancestor(idx, k) <= idx,
        decreases idx,
    {
        assert(self.node_wf(idx));
        if idx > 0 {
            let parent = self.entries[idx].parent as int;
            self.lemma_root_is_reached(parent);
            assert(self.depth(idx) == self.depth(parent) + 1);
            assert forall|k: nat| k < self.depth(idx) implies 0 < #[trigger] self.ancestor(idx, k)
                <= idx by {
                if k > 0 {
                    assert(self.ancestor(idx, k) == self.ancestor(parent, (k - 1) as nat));
                }
            }
        }
    }

    /// In a tree a parent has at most one child under a label.
    pub proof fn lemma_child_is_unique(self, a: int, b: int)
        requires
            self.tree_wf(),
            0 < a < self.entries.len(),
            0 < b < self.entries.len(),
            self.entries[a].parent == self.entries[b].parent,
            self.entries[a].label == self.entries[b].label,
        ensures
            a == b,
    {
        assert(self.node_wf(a));
        assert(self.node_wf(b));
    }

    /// The path of a node holds, from the root down, the labels of the nodes
    /// on the way to it: label `k` of the path is the label of the node that
    /// is `depth - 1 - k` parent links above.
    pub proof fn lemma_path_labels(self, idx: int, k: int)
        requires
            self.tree_wf(),
            0 <= idx < self.entries.len(),
            0 <= k < self.depth(idx),
        ensures
            self.path(idx)[k] == self.entries[self.ancestor(
                idx,
                (self.depth(idx) - 1 - k) as nat,
            )].label,
        decreases idx,
    {
        assert(self.node_wf(idx));
        if idx > 0 {
            let parent = self.entries[idx].parent as int;
            if k < self.depth(idx) - 1 {
                self.lemma_path_labels(parent, k);
                assert(self.ancestor(idx, (self.depth(idx) - 1 - k) as nat) == self.ancestor(
                    parent,
                    (self.depth(parent) - 1 - k) as nat,
                ));
            }
        }
    }

    /// A list with the links of a tree is a tree: the nodes of `other` have
    /// the parents, labels and children of the nodes of `self`.
    pub proof fn lemma_tree_frame(self, other: BeamListView)
        requires
            self.tree_wf(),
            self.entries.len() == other.entries.len(),
            forall|j: int|
                0 <= j < self.entries.len() ==> {
                    &&& (#[trigger] other.entries[j]).parent == self.entries[j].parent
                    &&& other.entries[j].label == self.entries[j].label
                    &&& other.entries[j].children == self.entries[j].children
                },
        ensures
            other.tree_wf(),
            forall|i: int| 0 <= i < self.entries.len() ==> #[trigger] other.path(i) == self.path(i),
    {
        assert forall|i: int| 0 <= i < other.entries.len() implies #[trigger] other.node_wf(i) by {
            assert(self.node_wf(i));
            let e = other.entries[i];
            if i > 0 {
                assert(other.entries[e.parent as int].children == self.entries[e.parent as int].children);
            }
            assert forall|l: i32| #[trigger] e.children.contains_key(l) implies {
                &&& i < e.children[l] < other.entries.len()
                &&& other.entries[e.children[l] as int].parent == i
                &&& other.entries[e.children[l] as int].label == l
            } by {
                assert(self.entries[i].children.contains_key(l));
                let c = e.children[l] as int;
                assert(other.entries[c].parent == self.entries[c].parent);
            }
        }
        assert forall|i: int| 0 <= i < self.entries.len() implies #[trigger] other.path(i)
            == self.path(i) by {
            assert forall|j: int| 0 <= j <= i implies (#[trigger] other.entries[j]).parent
                == self.entries[j].parent && other.entries[j].label == self.entries[j].label by {}
            other.lemma_path_frame(self, i);
        }
    }

    /// Replacing probabilities keeps the tree and every path.
    pub proof fn lemma_set_p(self, idx: usize, p: BeamProbability)
        requires
            self.wf(),
            idx < self.entries.len(),
        ensures
            self.set_new_p(idx, p).wf(),
            self.set_old_p(idx, p).wf(),
            self.deactivate(idx).wf(),
            forall|i: int|
                0 <= i < self.entries.len() ==> #[trigger] self.set_new_p(idx, p).path(i)
                    == self.path(i),
            forall|i: int|
                0 <= i < self.entries.len() ==> #[trigger] self.set_old_p(idx, p).path(i)
                    == self.path(i),
            forall|i: int|
                0 <= i < self.entries.len() ==> #[trigger] self.deactivate(idx).path(i)
                    == self.path(i),
    {
        self.lemma_tree_frame(self.set_new_p(idx, p));
        self.lemma_tree_frame(self.set_old_p(idx, p));
        self.lemma_tree_frame(self.deactivate(idx));
    }

    /// Looking a child up, or making it, keeps the tree and every path that
    /// was there; a child that was made is inactive and one label longer than
    /// its parent.
    pub proof fn lemma_get_child(self, parent: usize, label: i32)
        requires
            self.wf(),
            parent < self.entries.len(),
            self.get_child(parent, label).0.entries.len() <= usize::MAX,
        ensures
            ({
                let (v, c) = self.get_child(parent, label);
                &&& v.wf()
                &&& v.heap == self.heap
                &&& v.capacity == self.capacity
                &&& parent < c < v.entries.len()
                &&& v.entries[c as int].parent == parent
                &&& v.entries[c as int].label == label
                &&& self.entries.len() <= v.entries.len() <= self.entries.len() + 1
                &&& c >= self.entries.len() ==> v.entries[c as int] == EntryView::fresh(label, parent)
                &&& c < self.entries.len() ==> v == self
                &&& forall|i: int|
                    0 <= i < self.entries.len() ==> {
                        &&& (#[trigger] v.entries[i]).old_p == self.entries[i].old_p
                        &&& v.entries[i].new_p == self.entries[i].new_p
                        &&& v.entries[i].label == self.entries[i].label
                        &&& v.entries[i].parent == self.entries[i].parent
                    }
                &&& forall|i: int| 0 <= i < self.entries.len() ==> #[trigger] v.path(i) == self.path(i)
                &&& v.path(c as int) == self.path(parent as int).push(label)
            }),
    {
        let (v, c) = self.get_child(parent, label);
        assert(self.node_wf(parent as int));
        let p = self.entries[parent as int];
        if p.children.contains_key(label) {
            assert(self.node_wf(c as int));
        } else {
            let n = self.entries.len() as int;
            assert(c == n);
            assert(v.entries[n] == EntryView::fresh(label, parent));
            assert forall|i: int| 0 <= i < v.entries.len() implies #[trigger] v.node_wf(i) by {
                let e = v.entries[i];
                if i < n {
                    assert(self.node_wf(i));
                    assert(e.parent == self.entries[i].parent);
                    assert(e.label == self.entries[i].label);
                    if i > 0 {
                        let q = e.parent as int;
                        if q == parent {
                            assert(p.children.contains_key(e.label));
                            assert(e.label != label);
                            assert(v.entries[q].children == p.children.insert(label, c));
                        } else {
                            assert(v.entries[q] == self.entries[q]);
                        }
                    }
                    assert forall|l: i32| #[trigger] e.children.contains_key(l) implies {
                        &&& i < e.children[l] < v.entries.len()
                        &&& v.entries[e.children[l] as int].parent == i
                        &&& v.entries[e.children[l] as int].label == l
                    } by {
                        if i == parent && l == label {
                            assert(e.children[l] == c);
                        } else {
                            assert(self.entries[i].children.contains_key(l));
                            assert(e.children[l] == self.entries[i].children[l]);
                            let k = e.children[l] as int;
                            assert(k < n);
                            assert(v.entries[k].parent == self.entries[k].parent);
                        }
                    }
                } else {
                    assert(v.entries[parent as int].children == p.children.insert(label, c));
                }
            }
            assert forall|i: int| 0 <= i < self.entries.len() implies #[trigger] v.path(i)
                == self.path(i) by {
                assert forall|j: int| 0 <= j <= i implies (#[trigger] v.entries[j]).parent
                    == self.entries[j].parent && v.entries[j].label == self.entries[j].label by {}
                v.lemma_path_frame(self, i);
            }
            assert(v.path(parent as int) == self.path(parent as int));
        }
    }

    /// What an offer to the beam keeps: the arena; the tree; the bound on
    /// the beam; the nodes of the beam, but for the one that came and the one
    /// that left; and the heap order. In a min-heap the node that leaves is
    /// one of least key.
    pub proof fn lemma_push(self, idx: usize)
        requires
            self.wf(),
            self.capacity >= 1,
            idx < self.entries.len(),
        ensures
            ({
                let (v, removed) = self.push(idx);
                &&& v.wf()
                &&& v.entries == self.entries
                &&& v.capacity == self.capacity
                &&& removed is None <==> self.heap.len() < self.capacity
                &&& removed is None ==> v.heap.len() == self.heap.len() + 1
                    && v.heap.to_multiset() == self.heap.to_multiset().insert(idx)
                &&& removed is Some ==> v.heap.len() == self.heap.len() && removed == Some(
                    self.heap[0],
                ) && v.heap.to_multiset() == self.heap.to_multiset().insert(idx).remove(self.heap[0])
                &&& self.heap_ordered() ==> v.heap_ordered()
                &&& self.heap_ordered() && removed is Some ==> forall|i: int|
                    0 <= i < self.heap.len() ==> key(self.entries, self.heap[0]) <= key(
                        self.entries,
                        #[trigger] self.heap[i],
                    )
            }),
    {
        broadcast use vstd::seq_lib::to_multiset_update;

        let (v, removed) = self.push(idx);
        let n = self.heap.len() as int;
        if self.heap.len() < self.capacity {
            let h0 = self.heap.push(idx);
            self.heap.to_multiset_ensures();
            lemma_sift_up_keeps(self.entries, h0, n);
            lemma_same_items_in_range(self.entries.len(), v.heap, h0);
            assert(v.heap.len() == n + 1);
            assert(v.heap.to_multiset() == self.heap.to_multiset().insert(idx));
            self.lemma_tree_frame(v);
            if self.heap_ordered() {
                assert forall|i: int| 0 < i < h0.len() && i != n implies #[trigger] le_parent(
                    self.entries,
                    h0,
                    i,
                ) by {
                    assert(le_parent(self.entries, self.heap, i));
                }
                lemma_sift_up_orders(self.entries, h0, n);
            }
        } else {
            let h0 = self.heap.update(0, idx);
            lemma_sift_down_keeps(self.entries, h0, 0);
            lemma_same_items_in_range(self.entries.len(), v.heap, h0);
            assert(v.heap.len() == n);
            assert(v.heap.to_multiset() == self.heap.to_multiset().insert(idx).remove(self.heap[0]));
            self.lemma_tree_frame(v);
            if self.heap_ordered() {
                assert forall|i: int| 0 < i < h0.len() && (i - 1) / 2 != 0 implies #[trigger] le_parent(
                    self.entries,
                    h0,
                    i,
                ) by {
                    assert(le_parent(self.entries, self.heap, i));
                }
                lemma_sift_down_orders(self.entries, h0, 0);
                assert forall|i: int| 0 <= i < self.heap.len() implies key(
                    self.entries,
                    self.heap[0],
                ) <= key(self.entries, #[trigger] self.heap[i]) by {
                    lemma_top_is_least(self.entries, self.heap, i);
                }
            }
        }
    }
}

impl BeamListView {
    /// The beam is in order: a min-heap by key that holds no node twice and
    /// only nodes above zero probability.
    pub open spec fn beam_in_order(self) -> bool {
        &&& self.heap_ordered()
        &&& self.heap.no_duplicates()
        &&& forall|i: int|
            0 <= i < self.heap.len() ==> self.entries[(#[trigger] self.heap[i]) as int].new_p.total.spec_is_possible()
    }

    /// Replacing the previous probabilities of a node, or the current ones
    /// of a node outside the beam, keeps the beam in order.
    pub proof fn lemma_set_p_in_order(self, idx: usize, p: BeamProbability)
        requires
            self.wf(),
            self.beam_in_order(),
        ensures
            self.set_old_p(idx, p).beam_in_order(),
            !self.heap.contains(idx) ==> self.set_new_p(idx, p).beam_in_order(),
            !self.heap.contains(idx) ==> self.deactivate(idx).beam_in_order(),
    {
        let a = self.set_old_p(idx, p);
        assert forall|i: int| 0 <= i < self.heap.len() implies key(a.entries, #[trigger] self.heap[i])
            == key(self.entries, self.heap[i]) by {}
        lemma_ordered_frame(self.entries, a.entries, self.heap);
        if !self.heap.contains(idx) {
            let b = self.set_new_p(idx, p);
            let c = self.deactivate(idx);
            assert forall|i: int| 0 <= i < self.heap.len() implies (#[trigger] self.heap[i]) != idx by {
                assert(self.heap.contains(self.heap[i]));
            }
            assert forall|i: int| 0 <= i < self.heap.len() implies key(
                b.entries,
                #[trigger] self.heap[i],
            ) == key(self.entries, self.heap[i]) by {}
            assert forall|i: int| 0 <= i < self.heap.len() implies key(
                c.entries,
                #[trigger] self.heap[i],
            ) == key(self.entries, self.heap[i]) by {}
            lemma_ordered_frame(self.entries, b.entries, self.heap);
            lemma_ordered_frame(self.entries, c.entries, self.heap);
        }
    }

    /// Offering a node above zero probability that is not in the beam keeps
    /// the beam in order. The beam then holds the node and, of the nodes it
    /// held, all but the one that left.
    pub proof fn lemma_push_in_order(self, idx: usize)
        requires
            self.wf(),
            self.capacity >= 1,
            idx < self.entries.len(),
            self.beam_in_order(),
            !self.heap.contains(idx),
            self.entries[idx as int].new_p.total.spec_is_possible(),
        ensures
            ({
                let (v, removed) = self.push(idx);
                &&& v.beam_in_order()
                &&& v.heap.contains(idx)
                &&& forall|x: usize| #[trigger]
                    v.heap.contains(x) <==> (x == idx || self.heap.contains(x)) && removed != Some(
                        x,
                    )
            }),
    {
        broadcast use vstd::multiset::group_multiset_axioms;

        let (v, removed) = self.push(idx);
        self.lemma_push(idx);
        self.heap.to_multiset_ensures();
        v.heap.to_multiset_ensures();
        self.heap.lemma_multiset_has_no_duplicates();
        assert(self.heap.to_multiset().count(idx) == 0);
        assert forall|x: usize| v.heap.to_multiset().count(x) <= 1 by {
            assert(self.heap.to_multiset().count(x) <= 1);
            if removed is Some {
                assert(self.heap.contains(self.heap[0]));
                assert(self.heap.to_multiset().count(self.heap[0]) == 1);
            }
        }
        v.heap.lemma_multiset_has_no_duplicates_conv();
        assert forall|x: usize| #[trigger]
            v.heap.contains(x) <==> (x == idx || self.heap.contains(x)) && removed != Some(x) by {
            assert(v.heap.contains(x) <==> v.heap.to_multiset().count(x) > 0);
            assert(self.heap.contains(x) <==> self.heap.to_multiset().count(x) > 0);
            if removed is Some {
                assert(self.heap.contains(self.heap[0]));
                assert(self.heap.to_multiset().count(self.heap[0]) == 1);
            }
        }
        assert forall|i: int| 0 <= i < v.heap.len() implies v.entries[(#[trigger] v.heap[i]) as int].new_p.total.spec_is_possible() by {
            let x = v.heap[i];
            assert(v.heap.contains(x));
            if x != idx {
                assert(self.heap.contains(x));
                let j = choose|j: int| 0 <= j < self.heap.len() && self.heap[j] == x;
                assert(self.entries[self.heap[j] as int].new_p.total.spec_is_possible());
            }
        }
    }

    /// In a beam in order no node of the beam has a total below that of the
    /// node at the top.
    pub proof fn lemma_min_is_least(self, i: int)
        requires
            self.beam_in_order(),
            0 <= i < self.heap.len(),
        ensures
            self.key(self.heap[0]) <= self.key(self.heap[i]),
    {
        lemma_top_is_least(self.entries, self.heap, i);
    }
}

/// The arena of nodes and the beam over it.
pub struct BeamList {
    capacity: usize,
    entries: Vec<BeamEntry>,
    heap: Vec<usize>,
}

impl View for BeamList {
    type V = BeamListView;

    closed spec fn view(&self) -> BeamListView {
        BeamListView {
            capacity: self.capacity,
            entries: Seq::new(self.entries@.len(), |i: int| self.entries@[i]@),
            heap: self.heap@,
        }
    }
}

impl BeamList {
    /// An empty list whose beam keeps at most `capacity` nodes.
    pub fn new(capacity: usize) -> (list: BeamList)
        ensures
            list@ == BeamListView::empty(capacity),
            list@.wf(),
    {
        let list = BeamList { capacity: capacity, entries: Vec::new(), heap: Vec::with_capacity(capacity) };
        assert(list@.entries =~= Seq::empty());
        list
    }

    /// A copy of the beam, in heap order.
    pub fn clone_heap(&self) -> (heap: Vec<usize>)
        ensures
            heap@ == self@.heap,
    {
        self.heap.clone()
    }

    /// Empties the beam. The arena stays.
    pub fn clear(&mut self)
        ensures
            final(self)@ == old(self)@.clear(),
            old(self)@.wf() ==> final(self)@.wf(),
    {
        proof {
            if old(self)@.wf() {
                old(self)@.lemma_tree_frame(old(self)@.clear());
            }
        }
        self.heap.clear();
    }

    /// The most nodes that the beam keeps.
    pub fn capacity(&self) -> (n: usize)
        ensures
            n == self@.capacity,
    {
        self.capacity
    }

    /// How many nodes the arena holds.
    pub fn size(&self) -> (n: usize)
        ensures
            n == self@.entries.len(),
    {
        self.entries.len()
    }

    /// The node at an index.
    pub fn entry(&self, idx: usize) -> (e: &BeamEntry)
        requires
            idx < self@.entries.len(),
        ensures
            e@ == self@.entries[idx as int],
    {
        &self.entries[idx]
    }

    fn new_node(&mut self) -> (idx: usize)
        ensures
            idx == old(self)@.entries.len(),
            final(self).entries@.len() == idx + 1,
            final(self)@ == (BeamListView {
                entries: old(self)@.entries.push(EntryView::fresh(NO_LABEL, NO_PARENT)),
                ..old(self)@
            }),
    {
        self.entries.push(Default::default());
        assert(self@.entries =~= old(self)@.entries.push(EntryView::fresh(NO_LABEL, NO_PARENT)));
        self.entries.len() - 1
    }

    /// Makes the root of the tree, with the given label, and puts it in the
    /// beam.
    pub fn add_root(&mut self, label: i32)
        requires
            old(self)@.entries.len() == 0,
            old(self)@.heap.len() == 0,
            old(self)@.capacity >= 1,
        ensures
            final(self)@ == old(self)@.add_root(label),
            final(self)@.wf(),
    {
        let root_idx = self.new_node();
        assert(self@.entries[root_idx as int] == EntryView::fresh(NO_LABEL, NO_PARENT));
        self.entries[root_idx].new_p.blank = LogSpace::zero();
        self.entries[root_idx].new_p.total = LogSpace::zero();
        self.entries[root_idx].label = label;
        self.heap.push(root_idx);
        assert(self@.entries =~= old(self)@.add_root(label).entries);
        assert(self@.heap =~= old(self)@.add_root(label).heap);
        assert(self@.node_wf(0));
    }

    /// Replaces the probabilities of the previous time step of a node.
    pub fn set_old_p(&mut self, idx: usize, p: BeamProbability)
        requires
            idx < old(self)@.entries.len(),
        ensures
            final(self)@ == old(self)@.set_old_p(idx, p),
            old(self)@.wf() ==> final(self)@.wf(),
    {
        proof {
            if old(self)@.wf() {
                old(self)@.lemma_set_p(idx, p);
            }
        }
        self.entries[idx].old_p = p;
        assert(self@.entries =~= old(self)@.set_old_p(idx, p).entries);
    }

    /// Replaces the current probabilities of a node.
    pub fn set_new_p(&mut self, idx: usize, p: BeamProbability)
        requires
            idx < old(self)@.entries.len(),
        ensures
            final(self)@ == old(self)@.set_new_p(idx, p),
            old(self)@.wf() ==> final(self)@.wf(),
    {
        proof {
            if old(self)@.wf() {
                old(self)@.lemma_set_p(idx, p);
            }
        }
        self.entries[idx].new_p = p;
        assert(self@.entries =~= old(self)@.set_new_p(idx, p).entries);
    }

    /// Sets the current probabilities of a node to zero. Its previous
    /// probabilities, its links and its children stay.
    pub fn deactivate(&mut self, entry_idx: usize)
        requires
            entry_idx < old(self)@.entries.len(),
        ensures
            final(self)@ == old(self)@.deactivate(entry_idx),
            old(self)@.wf() ==> final(self)@.wf(),
    {
        proof {
            if old(self)@.wf() {
                old(self)@.lemma_set_p(entry_idx, BeamProbability::inactive());
            }
        }
        self.entries[entry_idx].new_p = Default::default();
        assert(self@.entries =~= old(self)@.deactivate(entry_idx).entries);
    }

    /// Gives the child of `parent` under `label`, and makes it first if
    /// there is none.
    pub fn get_child(&mut self, parent: usize, label: i32) -> (child: usize)
        requires
            parent < old(self)@.entries.len(),
        ensures
            final(self)@ == old(self)@.get_child(parent, label).0,
            child == old(self)@.get_child(parent, label).1,
            final(self)@.entries.len() <= usize::MAX,
            old(self)@.wf() ==> final(self)@.wf(),
    {
        let found = match self.entries[parent].children.get(&label) {
            Some(idx) => Some(*idx),
            None => None,
        };
        assert(self.entries@.len() == self.entries.len());
        match found {
            Some(idx) => idx,
            None => {
                let new_idx = self.new_node();
                let ghost mid = *self;
                self.entries[new_idx].label = label;
                self.entries[new_idx].parent = parent;
                self.entries[parent].children.insert(label, new_idx);
                proof {
                    let goal = old(self)@.get_child(parent, label).0.entries;
                    assert(!old(self)@.entries[parent as int].children.contains_key(label));
                    assert(self@.entries.len() == goal.len());
                    assert forall|i: int| 0 <= i < goal.len() implies self@.entries[i] == goal[i] by {
                        assert(mid@.entries[i] == mid.entries@[i]@);
                    }
                    assert(self@.entries =~= goal);
                    assert(self.entries@.len() == self.entries.len());
                    if old(self)@.wf() {
                        old(self)@.lemma_get_child(parent, label);
                    }
                }
                new_idx
            },
        }
    }

    /// The labels of the prefix of a node, from the first to the last.
    pub fn get_seq(&self, entry_idx: usize) -> (seq: Vec<i32>)
        requires
            self@.wf(),
            entry_idx < self@.entries.len(),
        ensures
            seq@ == self@.path(entry_idx as int),
    {
        let ghost v = self@;
        let mut upward: Vec<i32> = Vec::new();
        let mut idx = entry_idx;
        // The root has no label of its own in the sequence.
        while self.entries[idx].parent != NO_PARENT
            invariant
                v == self@,
                v.wf(),
                idx < v.entries.len(),
                v.path(entry_idx as int) == v.path(idx as int) + upward@.reverse(),
            decreases idx,
        {
            proof {
                assert(v.node_wf(idx as int));
                assert(v.entries[idx as int] == self.entries@[idx as int]@);
                let label = v.entries[idx as int].label;
                let parent = v.entries[idx as int].parent as int;
                assert(upward@.push(label).reverse() =~= seq![label] + upward@.reverse());
                assert(v.path(idx as int) + upward@.reverse() =~= v.path(parent) + (seq![label]
                    + upward@.reverse()));
            }
            upward.push(self.entries[idx].label);
            idx = self.entries[idx].parent;
        }
        proof {
            assert(v.node_wf(idx as int));
            assert(v.entries[idx as int] == self.entries@[idx as int]@);
            assert(idx == 0);
            assert(v.path(entry_idx as int) =~= upward@.reverse());
        }
        let mut seq: Vec<i32> = Vec::new();
        let mut left = upward.len();
        while left > 0
            invariant
                left <= upward@.len(),
                seq@.len() == upward@.len() - left,
                forall|k: int| 0 <= k < seq@.len() ==> seq@[k] == upward@[upward@.len() - 1 - k],
            decreases left,
        {
            left -= 1;
            seq.push(upward[left]);
        }
        assert(seq@ =~= upward@.reverse());
        seq
    }

    /// How many nodes the beam holds.
    pub fn len(&self) -> (n: usize)
        ensures
            n == self@.heap.len(),
    {
        self.heap.len()
    }

    /// The node at the top of the heap: in a min-heap, a node of the beam
    /// that has the least total.
    pub fn min(&self) -> (idx: usize)
        requires
            self@.heap.len() > 0,
        ensures
            idx == self@.heap[0],
            self@.heap_ordered() ==> forall|i: int|
                0 <= i < self@.heap.len() ==> self@.key(idx) <= self@.key(#[trigger] self@.heap[i]),
    {
        proof {
            if self@.heap_ordered() {
                assert forall|i: int| 0 <= i < self@.heap.len() implies self@.key(self@.heap[0])
                    <= self@.key(#[trigger] self@.heap[i]) by {
                    lemma_top_is_least(self@.entries, self@.heap, i);
                }
            }
        }
        self.heap[0]
    }

    fn key_at(&self, pos: usize) -> (k: i32)
        requires
            pos < self@.heap.len(),
            self@.in_range(self@.heap),
        ensures
            k == self@.key(self@.heap[pos as int]),
    {
        let idx = self.heap[pos];
        assert(self@.entries[idx as int] == self.entries@[idx as int]@);
        self.entries[idx].new_p.total.0.0
    }

    fn swap_heap(&mut self, i: usize, j: usize)
        requires
            i < old(self)@.heap.len(),
            j < old(self)@.heap.len(),
        ensures
            final(self)@ == (BeamListView { heap: swapped(old(self)@.heap, i as int, j as int), ..old(self)@ }),
    {
        let a = self.heap[i];
        let b = self.heap[j];
        self.heap[i] = b;
        self.heap[j] = a;
        assert(self@.heap =~= swapped(old(self)@.heap, i as int, j as int));
        assert(self@.entries =~= old(self)@.entries);
    }

    fn sift_up(&mut self, idx: usize)
        requires
            idx < old(self)@.heap.len(),
            old(self)@.in_range(old(self)@.heap),
        ensures
            final(self)@ == (BeamListView {
                heap: sift_up(old(self)@.entries, old(self)@.heap, idx as int),
                ..old(self)@
            }),
    {
        let ghost v = self@;
        let ghost start = idx as int;
        let mut idx = idx;
        while idx > 0
            invariant
                idx < self@.heap.len(),
                self@.in_range(self@.heap),
                self@ == (BeamListView { heap: self@.heap, ..v }),
                sift_up(v.entries, self@.heap, idx as int) == sift_up(v.entries, v.heap, start),
            ensures
                self@.heap == sift_up(v.entries, v.heap, start),
            decreases idx,
        {
            let parent: usize = (idx - 1) / 2;
            if self.key_at(idx) >= self.key_at(parent) {
                break;
            }
            self.swap_heap(idx, parent);
            idx = parent;
        }
    }

    fn sift_down(&mut self, idx: usize)
        requires
            idx < old(self)@.heap.len(),
            old(self)@.in_range(old(self)@.heap),
        ensures
            final(self)@ == (BeamListView {
                heap: sift_down(old(self)@.entries, old(self)@.heap, idx as int),
                ..old(self)@
            }),
    {
        let ghost v = self@;
        let ghost start = idx as int;
        let mut idx = idx;
        let n = self.heap.len();
        while idx < n
            invariant
                n == self@.heap.len(),
                idx < n,
                self@.in_range(self@.heap),
                self@ == (BeamListView { heap: self@.heap, ..v }),
                sift_down(v.entries, self@.heap, idx as int) == sift_down(v.entries, v.heap, start),
            ensures
                self@.heap == sift_down(v.entries, v.heap, start),
            decreases n - idx,
        {
            if idx >= n / 2 {
                break;
            }
            let left: usize = 2 * idx + 1;
            if left >= n {
                break;
            }
            let right: usize = left + 1;
            let mut child: usize = left;
            if right < n {
                if self.key_at(right) < self.key_at(left) {
                    child = right;
                }
            }
            if self.key_at(idx) <= self.key_at(child) {
                break;
            }
            self.swap_heap(idx, child);
            idx = child;
        }
    }

    /// Offers a node to the beam. Below capacity the node is added. At
    /// capacity it takes the place of the node at the top of the heap, which
    /// is returned.
    pub fn push(&mut self, entry_idx: usize) -> (removed: Option<usize>)
        requires
            old(self)@.wf(),
            old(self)@.capacity >= 1,
            entry_idx < old(self)@.entries.len(),
        ensures
            final(self)@ == old(self)@.push(entry_idx).0,
            removed == old(self)@.push(entry_idx).1,
            final(self)@.wf(),
            old(self)@.heap_ordered() ==> final(self)@.heap_ordered(),
    {
        proof {
            old(self)@.lemma_push(entry_idx);
        }
        if self.heap.len() < self.capacity {
            self.heap.push(entry_idx);
            assert(self@ == (BeamListView { heap: old(self)@.heap.push(entry_idx), ..old(self)@ })) by {
                assert(self@.entries =~= old(self)@.entries);
            }
            self.sift_up(self.heap.len() - 1);
            None
        } else {
            let removed = self.heap[0];
            self.heap[0] = entry_idx;
            assert(self@ == (BeamListView { heap: old(self)@.heap.update(0, entry_idx), ..old(self)@ })) by {
                assert(self@.entries =~= old(self)@.entries);
            }
            self.sift_down(0);
            Some(removed)
        }
    }
}

} // verus!
