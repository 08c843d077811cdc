//! The tree and the bound of the beam.
//!
//! Every step of a decode keeps the list the tree of a decode: one tree in
//! which every node but the root comes after its parent and is the one child
//! of that parent under its label; labels of the classes, the blank at the
//! root alone; a beam of nodes of the tree within its capacity; and prefixes
//! no longer than the time steps taken.

use vstd::prelude::*;
use crate::beam_list::{BeamListView, BeamProbability, NO_PARENT};
use crate::log_space::{LogSpace, NEG_INFINITY_ORDINAL};
use crate::search::{extends, lemma_extends_self, lemma_extends_twice, lemma_grown_keeps, Setup};

verus! {

/// Every item of `branches` names a node of `v` whose prefix has fewer than
/// `depth` labels.
pub open spec fn shallow(v: BeamListView, branches: Seq<usize>, depth: nat) -> bool {
    forall|k: int|
        0 <= k < branches.len() ==> (#[trigger] branches[k]) < v.entries.len() && v.depth(
            branches[k] as int,
        ) < depth
}

impl Setup {
    /// Moving the branches forward in time keeps the tree of a decode, its
    /// size and its beam.
    pub proof fn lemma_advance(self, v: BeamListView, branches: Seq<usize>, depth: nat)
        requires
            self.grown(v, depth),
            v.in_range(branches),
        ensures
            self.grown(Setup::advance(v, branches), depth),
            extends(v, Setup::advance(v, branches)),
            Setup::advance(v, branches).entries.len() == v.entries.len(),
            Setup::advance(v, branches).heap == v.heap,
        decreases branches.len(),
    {
        if branches.len() == 0 {
            lemma_extends_self(v);
        } else {
            let before = Setup::advance(v, branches.drop_last());
            let b = branches.last();
            assert(v.in_range(branches.drop_last())) by {
                assert forall|i: int| 0 <= i < branches.drop_last().len() implies (
                #[trigger] branches.drop_last()[i]) < v.entries.len() by {
                    assert(branches.drop_last()[i] == branches[i]);
                }
            }
            self.lemma_advance(v, branches.drop_last(), depth);
            let p = before.entries[b as int].new_p;
            before.lemma_set_p(b, p);
            lemma_grown_keeps(self, before, before.set_old_p(b, p), depth);
            lemma_extends_twice(v, before, before.set_old_p(b, p));
        }
    }

    /// A time step for a prefix as it is keeps the tree of a decode and its
    /// size.
    pub proof fn lemma_no_extend(self, v: BeamListView, b: usize, base: int, depth: nat)
        requires
            self.grown(v, depth),
            b < v.entries.len(),
        ensures
            self.grown(self.no_extend(v, b, base), depth),
            extends(v, self.no_extend(v, b, base)),
            self.no_extend(v, b, base).entries.len() == v.entries.len(),
    {
        let node = v.entries[b as int];
        let grown = if node.parent != NO_PARENT && v.entries[node.parent as int].is_active() {
            let parent = v.entries[node.parent as int];
            self.ar.add(
                node.new_p.label,
                self.with_lm(Setup::carried(parent, node.label), parent.label, node.label),
            )
        } else {
            node.new_p.label
        };
        let label = self.ar.mul(grown, self.emission(base, node.label));
        let blank = self.ar.mul(node.old_p.total, self.emission(base, self.blank_idx));
        let total = self.ar.add(blank, label);
        let p = BeamProbability { label, blank, total };
        let moved = v.set_new_p(b, p);
        v.lemma_set_p(b, p);
        lemma_grown_keeps(self, v, moved, depth);
        if total.spec_is_possible() {
            let pushed = moved.push(b).0;
            moved.lemma_push(b);
            moved.lemma_tree_frame(pushed);
            lemma_grown_keeps(self, moved, pushed, depth);
            lemma_extends_twice(v, moved, pushed);
        }
    }

    /// So does a time step for each of the branches as it is.
    pub proof fn lemma_no_extend_all(
        self,
        v: BeamListView,
        branches: Seq<usize>,
        base: int,
        depth: nat,
    )
        requires
            self.grown(v, depth),
            v.in_range(branches),
        ensures
            self.grown(self.no_extend_all(v, branches, base), depth),
            extends(v, self.no_extend_all(v, branches, base)),
            self.no_extend_all(v, branches, base).entries.len() == v.entries.len(),
        decreases branches.len(),
    {
        if branches.len() == 0 {
            lemma_extends_self(v);
        } else {
            let before = self.no_extend_all(v, branches.drop_last(), base);
            assert(v.in_range(branches.drop_last())) by {
                assert forall|i: int| 0 <= i < branches.drop_last().len() implies (
                #[trigger] branches.drop_last()[i]) < v.entries.len() by {
                    assert(branches.drop_last()[i] == branches[i]);
                }
            }
            self.lemma_no_extend_all(v, branches.drop_last(), base, depth);
            self.lemma_no_extend(before, branches.last(), base, depth);
            lemma_extends_twice(v, before, self.no_extend(before, branches.last(), base));
        }
    }

    /// A time step for a prefix with one more label takes no node away.
    pub proof fn lemma_extend_label_size(self, v: BeamListView, b: usize, label: i32, base: int)
        ensures
            self.extend_label(v, b, label, base).entries.len() >= v.entries.len(),
    {
    }

    /// Nor do the time steps for a prefix with each of the labels below
    /// `upto`.
    pub proof fn lemma_extend_labels_size(self, v: BeamListView, b: usize, upto: int, base: int)
        ensures
            self.extend_labels(v, b, upto, base).entries.len() >= v.entries.len(),
        decreases upto,
    {
        if upto > 0 {
            self.lemma_extend_labels_size(v, b, upto - 1, base);
            self.lemma_extend_label_size(
                self.extend_labels(v, b, upto - 1, base),
                b,
                (upto - 1) as i32,
                base,
            );
        }
    }

    /// Nor do the time steps for each of the branches with one more label.
    pub proof fn lemma_extend_all_size(self, v: BeamListView, branches: Seq<usize>, base: int)
        ensures
            self.extend_all(v, branches, base).entries.len() >= v.entries.len(),
        decreases branches.len(),
    {
        if branches.len() > 0 {
            let before = self.extend_all(v, branches.drop_last(), base);
            self.lemma_extend_all_size(v, branches.drop_last(), base);
            self.lemma_extend_labels_size(before, branches.last(), self.num_classes as int, base);
        }
    }

    /// A time step for a prefix with one more label keeps the tree of a
    /// decode, in an arena that a machine can hold.
    pub proof fn lemma_extend_label(
        self,
        v: BeamListView,
        b: usize,
        label: i32,
        base: int,
        depth: nat,
    )
        requires
            self.grown(v, depth),
            b < v.entries.len(),
            v.depth(b as int) < depth,
            0 <= label < self.num_classes,
            self.extend_label(v, b, label, base).entries.len() <= usize::MAX,
        ensures
            self.grown(self.extend_label(v, b, label, base), depth),
            extends(v, self.extend_label(v, b, label, base)),
    {
        lemma_extends_self(v);
        let logit = self.predictions[base + label];
        if label == self.blank_idx || logit.ord() <= NEG_INFINITY_ORDINAL {
        } else {
            let (found, c) = v.get_child(b, label);
            v.lemma_get_child(b, label);
            assert(self.grown(found, depth)) by {
                assert forall|i: int| 0 <= i < found.entries.len() implies #[trigger] found.depth(i)
                    <= depth by {
                    if i < v.entries.len() {
                        assert(found.path(i) == v.path(i));
                        assert(v.depth(i) <= depth);
                    }
                }
                assert forall|i: int| 0 < i < found.entries.len() implies 0 <= (
                #[trigger] found.entries[i]).label < self.num_classes && found.entries[i].label
                    != self.blank_idx by {
                    if i < v.entries.len() {
                        assert(found.entries[i].label == v.entries[i].label);
                    }
                }
            }
            assert(extends(v, found));
            if found.entries[c as int].is_active() {
            } else {
                let node = found.entries[b as int];
                let score = self.ar.mul(
                    self.with_lm(Setup::carried(node, label), node.label, label),
                    LogSpace(logit),
                );
                let p = BeamProbability {
                    label: score,
                    blank: LogSpace::spec_neg_infinity(),
                    total: score,
                };
                let scored = found.set_new_p(c, p);
                found.lemma_set_p(c, p);
                lemma_grown_keeps(self, found, scored, depth);
                lemma_extends_twice(v, found, scored);
                if Setup::admits(scored, score) {
                    let (pushed, removed) = scored.push(c);
                    scored.lemma_push(c);
                    scored.lemma_tree_frame(pushed);
                    lemma_grown_keeps(self, scored, pushed, depth);
                    lemma_extends_twice(v, scored, pushed);
                    match removed {
                        Some(r) => {
                            pushed.lemma_set_p(r, BeamProbability::inactive());
                            lemma_grown_keeps(self, pushed, pushed.deactivate(r), depth);
                            lemma_extends_twice(v, pushed, pushed.deactivate(r));
                        },
                        None => {},
                    }
                } else {
                    scored.lemma_set_p(c, BeamProbability::inactive());
                    lemma_grown_keeps(self, scored, scored.deactivate(c), depth);
                    lemma_extends_twice(v, scored, scored.deactivate(c));
                }
            }
        }
    }

    /// So do the time steps for a prefix with each of the labels below
    /// `upto`.
    pub proof fn lemma_extend_labels(
        self,
        v: BeamListView,
        b: usize,
        upto: int,
        base: int,
        depth: nat,
    )
        requires
            self.grown(v, depth),
            b < v.entries.len(),
            v.depth(b as int) < depth,
            upto <= self.num_classes,
            self.extend_labels(v, b, upto, base).entries.len() <= usize::MAX,
        ensures
            self.grown(self.extend_labels(v, b, upto, base), depth),
            extends(v, self.extend_labels(v, b, upto, base)),
        decreases upto,
    {
        if upto <= 0 {
            lemma_extends_self(v);
        } else {
            let before = self.extend_labels(v, b, upto - 1, base);
            self.lemma_extend_label_size(before, b, (upto - 1) as i32, base);
            self.lemma_extend_labels(v, b, upto - 1, base, depth);
            assert(before.path(b as int) == v.path(b as int));
            self.lemma_extend_label(before, b, (upto - 1) as i32, base, depth);
            lemma_extends_twice(v, before, self.extend_label(before, b, (upto - 1) as i32, base));
        }
    }

    /// So do the time steps for each of the branches with one more label.
    pub proof fn lemma_extend_all(
        self,
        v: BeamListView,
        branches: Seq<usize>,
        base: int,
        depth: nat,
    )
        requires
            self.grown(v, depth),
            shallow(v, branches, depth),
            self.extend_all(v, branches, base).entries.len() <= usize::MAX,
        ensures
            self.grown(self.extend_all(v, branches, base), depth),
            extends(v, self.extend_all(v, branches, base)),
        decreases branches.len(),
    {
        if branches.len() == 0 {
            lemma_extends_self(v);
        } else {
            let before = self.extend_all(v, branches.drop_last(), base);
            let b = branches.last();
            self.lemma_extend_labels_size(before, b, self.num_classes as int, base);
            assert(shallow(v, branches.drop_last(), depth)) by {
                assert forall|k: int| 0 <= k < branches.drop_last().len() implies (
                #[trigger] branches.drop_last()[k]) < v.entries.len() && v.depth(
                    branches.drop_last()[k] as int,
                ) < depth by {
                    assert(branches.drop_last()[k] == branches[k]);
                }
            }
            self.lemma_extend_all(v, branches.drop_last(), base, depth);
            assert(b == branches[branches.len() - 1]);
            assert(before.path(b as int) == v.path(b as int));
            if !Setup::pruned(before, b) {
                self.lemma_extend_labels(before, b, self.num_classes as int, base, depth);
            } else {
                lemma_extends_self(before);
            }
            lemma_extends_twice(v, before, self.extend_node(before, b, base));
        }
    }

    /// Moving the branches forward in time keeps the size of the arena.
    pub proof fn lemma_advance_size(v: BeamListView, branches: Seq<usize>)
        ensures
            Setup::advance(v, branches).entries.len() == v.entries.len(),
        decreases branches.len(),
    {
        if branches.len() > 0 {
            Setup::lemma_advance_size(v, branches.drop_last());
        }
    }

    /// A time step for each of the branches as it is keeps the size of the
    /// arena.
    pub proof fn lemma_no_extend_all_size(self, v: BeamListView, branches: Seq<usize>, base: int)
        ensures
            self.no_extend_all(v, branches, base).entries.len() == v.entries.len(),
        decreases branches.len(),
    {
        if branches.len() > 0 {
            self.lemma_no_extend_all_size(v, branches.drop_last(), base);
        }
    }

    /// A time step takes no node away.
    pub proof fn lemma_step_size(self, v: BeamListView, base: int)
        ensures
            self.step(v, base).entries.len() >= v.entries.len(),
    {
        let branches = v.heap;
        Setup::lemma_advance_size(v.clear(), branches);
        let moved = Setup::advance(v.clear(), branches);
        self.lemma_no_extend_all_size(moved, branches, base);
        self.lemma_extend_all_size(self.no_extend_all(moved, branches, base), branches, base);
    }

    /// A time step keeps the tree of a decode, with prefixes that may be one
    /// label longer, in an arena that a machine can hold.
    pub proof fn lemma_step(self, v: BeamListView, base: int, depth: nat)
        requires
            self.grown(v, depth),
            self.step(v, base).entries.len() <= usize::MAX,
        ensures
            self.grown(self.step(v, base), depth + 1),
            extends(v, self.step(v, base)),
    {
        let branches = v.heap;
        v.lemma_tree_frame(v.clear());
        lemma_grown_keeps(self, v, v.clear(), depth);
        self.lemma_advance(v.clear(), branches, depth);
        let moved = Setup::advance(v.clear(), branches);
        lemma_extends_twice(v, v.clear(), moved);
        self.lemma_no_extend_all(moved, branches, base, depth);
        let stayed = self.no_extend_all(moved, branches, base);
        lemma_extends_twice(v, moved, stayed);
        assert(self.grown(stayed, depth + 1)) by {
            assert forall|k: int| 0 <= k < stayed.entries.len() implies #[trigger] stayed.depth(k)
                <= depth + 1 by {
                assert(stayed.depth(k) <= depth);
            }
        }
        assert(shallow(stayed, branches, depth + 1)) by {
            assert forall|k: int| 0 <= k < branches.len() implies (#[trigger] branches[k])
                < stayed.entries.len() && stayed.depth(branches[k] as int) < depth + 1 by {
                assert(stayed.depth(branches[k] as int) <= depth);
            }
        }
        self.lemma_extend_all(stayed, branches, base, depth + 1);
        lemma_extends_twice(v, stayed, self.extend_all(stayed, branches, base));
    }

    /// The list of a decode before its first time step: the root alone, in
    /// the beam.
    pub open spec fn start(self, beam_width: usize) -> BeamListView {
        BeamListView::empty(beam_width).add_root(self.blank_idx)
    }

    /// After every number of time steps the list of a decode is a tree whose
    /// every node but the root has its parent before it and is the one child
    /// of that parent under its label; the beam holds at most `beam_width`
    /// nodes, each of the tree; and no prefix has more labels than time
    /// steps were taken. This holds of every arithmetic, in an arena that a
    /// machine can hold.
    pub proof fn lemma_run(self, beam_width: usize, start: int, steps: nat)
        requires
            beam_width >= 1,
            self.run(self.start(beam_width), start, steps).entries.len() <= usize::MAX,
        ensures
            self.grown(self.run(self.start(beam_width), start, steps), steps),
            self.run(self.start(beam_width), start, steps).wf(),
            self.run(self.start(beam_width), start, steps).capacity == beam_width,
            self.run(self.start(beam_width), start, steps).heap.len() <= beam_width,
        decreases steps,
    {
        let root = self.start(beam_width);
        if steps == 0 {
            assert(root.node_wf(0));
            assert(root.entries[0].parent == NO_PARENT);
            assert(root.path(0) =~= Seq::<i32>::empty());
        } else {
            let before = self.run(root, start, (steps - 1) as nat);
            let base = start + (steps - 1) * self.num_classes;
            self.lemma_step_size(before, base);
            self.lemma_run(beam_width, start, (steps - 1) as nat);
            self.lemma_step(before, base, (steps - 1) as nat);
        }
    }
}

} // verus!
