//! The order of the beam.
//!
//! Every step of a decode keeps the beam a min-heap by current total that
//! holds no node twice and only nodes above zero probability.

use vstd::prelude::*;
use crate::beam_list::{BeamListView, BeamProbability, NO_PARENT};
use crate::heap::{key, lemma_ordered_frame};
use crate::laws::tree::shallow;
use crate::log_space::{LogSpace, NEG_INFINITY_ORDINAL};
use crate::search::{lemma_grown_keeps, Setup};

verus! {

impl Setup {
    /// A time step for a prefix as it is, of a node outside the beam, keeps
    /// the beam in order, and brings no other node into it.
    pub proof fn lemma_no_extend_in_order(self, v: BeamListView, b: usize, base: int, depth: nat)
        requires
            self.grown(v, depth),
            b < v.entries.len(),
            v.beam_in_order(),
            !v.heap.contains(b),
        ensures
            self.no_extend(v, b, base).beam_in_order(),
            forall|x: usize| #[trigger]
                self.no_extend(v, b, base).heap.contains(x) ==> v.heap.contains(x) || x == b,
    {
        let node = v.entries[b as int];
        let grown = if node.parent != NO_PARENT && v.entries[node.parent as int].is_active() {
            let parent = v.entries[node.parent as int];
            self.ar.add(
                node.new_p.label,
                self.with_lm(Setup::carried(parent, node.label), parent.label, node.label),
            )
        } else {
            node.new_p.label
        };
        let label = self.ar.mul(grown, self.emission(base, node.label));
        let blank = self.ar.mul(node.old_p.total, self.emission(base, self.blank_idx));
        let total = self.ar.add(blank, label);
        let p = BeamProbability { label, blank, total };
        let moved = v.set_new_p(b, p);
        v.lemma_set_p(b, p);
        v.lemma_set_p_in_order(b, p);
        if total.spec_is_possible() {
            moved.lemma_push_in_order(b);
        }
    }

    /// So does a time step for each of the branches as it is, when no branch
    /// comes twice and none is in the beam.
    pub proof fn lemma_no_extend_all_in_order(
        self,
        v: BeamListView,
        branches: Seq<usize>,
        base: int,
        depth: nat,
    )
        requires
            self.grown(v, depth),
            v.in_range(branches),
            branches.no_duplicates(),
            v.beam_in_order(),
            forall|k: int| 0 <= k < branches.len() ==> !v.heap.contains(#[trigger] branches[k]),
        ensures
            self.no_extend_all(v, branches, base).beam_in_order(),
            forall|x: usize| #[trigger]
                self.no_extend_all(v, branches, base).heap.contains(x) ==> v.heap.contains(x)
                    || branches.contains(x),
        decreases branches.len(),
    {
        if branches.len() > 0 {
            let rest = branches.drop_last();
            let before = self.no_extend_all(v, rest, base);
            let b = branches.last();
            assert forall|i: int| 0 <= i < rest.len() implies (#[trigger] rest[i]) == branches[i] by {}
            assert(v.in_range(rest)) by {
                assert forall|i: int| 0 <= i < rest.len() implies (#[trigger] rest[i])
                    < v.entries.len() by {
                    assert(rest[i] == branches[i]);
                }
            }
            assert(rest.no_duplicates());
            assert forall|k: int| 0 <= k < rest.len() implies !v.heap.contains(#[trigger] rest[k]) by {
                assert(rest[k] == branches[k]);
            }
            self.lemma_no_extend_all_in_order(v, rest, base, depth);
            self.lemma_no_extend_all(v, rest, base, depth);
            assert(!before.heap.contains(b)) by {
                if before.heap.contains(b) {
                    assert(v.heap.contains(b) || rest.contains(b));
                    assert(b == branches[branches.len() - 1]);
                    if rest.contains(b) {
                        let j = choose|j: int| 0 <= j < rest.len() && rest[j] == b;
                        assert(branches[j] == branches[branches.len() - 1]);
                    }
                }
            }
            self.lemma_no_extend_in_order(before, b, base, depth);
            let after = self.no_extend(before, b, base);
            assert forall|x: usize| #[trigger] after.heap.contains(x) implies v.heap.contains(x)
                || branches.contains(x) by {
                if x == b {
                    assert(branches[branches.len() - 1] == b);
                } else {
                    assert(before.heap.contains(x));
                    if rest.contains(x) {
                        let j = choose|j: int| 0 <= j < rest.len() && rest[j] == x;
                        assert(branches[j] == x);
                    }
                }
            }
        }
    }

    /// A time step for a prefix with one more label keeps the beam in
    /// order.
    pub proof fn lemma_extend_label_in_order(
        self,
        v: BeamListView,
        b: usize,
        label: i32,
        base: int,
        depth: nat,
    )
        requires
            self.grown(v, depth),
            b < v.entries.len(),
            v.depth(b as int) < depth,
            0 <= label < self.num_classes,
            self.extend_label(v, b, label, base).entries.len() <= usize::MAX,
            v.beam_in_order(),
        ensures
            self.extend_label(v, b, label, base).beam_in_order(),
    {
        let logit = self.predictions[base + label];
        if label == self.blank_idx || logit.ord() <= NEG_INFINITY_ORDINAL {
        } else {
            let (found, c) = v.get_child(b, label);
            v.lemma_get_child(b, label);
            assert(found.beam_in_order()) by {
                assert forall|i: int| 0 <= i < v.heap.len() implies key(
                    found.entries,
                    #[trigger] v.heap[i],
                ) == key(v.entries, v.heap[i]) by {
                    assert(found.entries[v.heap[i] as int].new_p == v.entries[v.heap[i] as int].new_p);
                }
                lemma_ordered_frame(v.entries, found.entries, v.heap);
                assert forall|i: int| 0 <= i < found.heap.len() implies found.entries[(
                #[trigger] found.heap[i]) as int].new_p.total.spec_is_possible() by {
                    assert(found.entries[v.heap[i] as int].new_p == v.entries[v.heap[i] as int].new_p);
                }
            }
            if found.entries[c as int].is_active() {
            } else {
                assert(!found.heap.contains(c)) by {
                    if found.heap.contains(c) {
                        let j = choose|j: int| 0 <= j < found.heap.len() && found.heap[j] == c;
                        assert(found.entries[found.heap[j] as int].new_p.total.spec_is_possible());
                    }
                }
                let node = found.entries[b as int];
                let score = self.ar.mul(
                    self.with_lm(Setup::carried(node, label), node.label, label),
                    LogSpace(logit),
                );
                let p = BeamProbability {
                    label: score,
                    blank: LogSpace::spec_neg_infinity(),
                    total: score,
                };
                let scored = found.set_new_p(c, p);
                found.lemma_set_p(c, p);
                found.lemma_set_p_in_order(c, p);
                if Setup::admits(scored, score) {
                    let (pushed, removed) = scored.push(c);
                    scored.lemma_push(c);
                    scored.lemma_push_in_order(c);
                    match removed {
                        Some(r) => {
                            assert(!pushed.heap.contains(r));
                            pushed.lemma_set_p_in_order(r, BeamProbability::inactive());
                        },
                        None => {},
                    }
                } else {
                    scored.lemma_set_p_in_order(c, BeamProbability::inactive());
                }
            }
        }
    }

    /// So do the time steps for a prefix with each of the labels below
    /// `upto`.
    pub proof fn lemma_extend_labels_in_order(
        self,
        v: BeamListView,
        b: usize,
        upto: int,
        base: int,
        depth: nat,
    )
        requires
            self.grown(v, depth),
            b < v.entries.len(),
            v.depth(b as int) < depth,
            upto <= self.num_classes,
            self.extend_labels(v, b, upto, base).entries.len() <= usize::MAX,
            v.beam_in_order(),
        ensures
            self.extend_labels(v, b, upto, base).beam_in_order(),
        decreases upto,
    {
        if upto > 0 {
            let before = self.extend_labels(v, b, upto - 1, base);
            self.lemma_extend_label_size(before, b, (upto - 1) as i32, base);
            self.lemma_extend_labels_in_order(v, b, upto - 1, base, depth);
            self.lemma_extend_labels(v, b, upto - 1, base, depth);
            assert(before.path(b as int) == v.path(b as int));
            self.lemma_extend_label_in_order(before, b, (upto - 1) as i32, base, depth);
        }
    }

    /// So do the time steps for each of the branches with one more label.
    pub proof fn lemma_extend_all_in_order(
        self,
        v: BeamListView,
        branches: Seq<usize>,
        base: int,
        depth: nat,
    )
        requires
            self.grown(v, depth),
            shallow(v, branches, depth),
            self.extend_all(v, branches, base).entries.len() <= usize::MAX,
            v.beam_in_order(),
        ensures
            self.extend_all(v, branches, base).beam_in_order(),
        decreases branches.len(),
    {
        if branches.len() > 0 {
            let before = self.extend_all(v, branches.drop_last(), base);
            let b = branches.last();
            self.lemma_extend_labels_size(before, b, self.num_classes as int, base);
            assert(shallow(v, branches.drop_last(), depth)) by {
                assert forall|k: int| 0 <= k < branches.drop_last().len() implies (
                #[trigger] branches.drop_last()[k]) < v.entries.len() && v.depth(
                    branches.drop_last()[k] as int,
                ) < depth by {
                    assert(branches.drop_last()[k] == branches[k]);
                }
            }
            self.lemma_extend_all_in_order(v, branches.drop_last(), base, depth);
            self.lemma_extend_all(v, branches.drop_last(), base, depth);
            assert(b == branches[branches.len() - 1]);
            assert(before.path(b as int) == v.path(b as int));
            if !Setup::pruned(before, b) {
                self.lemma_extend_labels_in_order(before, b, self.num_classes as int, base, depth);
            }
        }
    }

    /// So does a time step.
    pub proof fn lemma_step_in_order(self, v: BeamListView, base: int, depth: nat)
        requires
            self.grown(v, depth),
            self.step(v, base).entries.len() <= usize::MAX,
            v.beam_in_order(),
        ensures
            self.step(v, base).beam_in_order(),
    {
        let branches = v.heap;
        v.lemma_tree_frame(v.clear());
        lemma_grown_keeps(self, v, v.clear(), depth);
        self.lemma_advance(v.clear(), branches, depth);
        let moved = Setup::advance(v.clear(), branches);
        assert(moved.heap =~= Seq::<usize>::empty());
        assert(moved.beam_in_order());
        self.lemma_no_extend_all_in_order(moved, branches, base, depth);
        self.lemma_no_extend_all(moved, branches, base, depth);
        let stayed = self.no_extend_all(moved, branches, base);
        assert(self.grown(stayed, depth + 1)) by {
            assert forall|k: int| 0 <= k < stayed.entries.len() implies #[trigger] stayed.depth(k)
                <= depth + 1 by {
                assert(stayed.depth(k) <= depth);
            }
        }
        assert(shallow(stayed, branches, depth + 1)) by {
            assert forall|k: int| 0 <= k < branches.len() implies (#[trigger] branches[k])
                < stayed.entries.len() && stayed.depth(branches[k] as int) < depth + 1 by {
                assert(stayed.depth(branches[k] as int) <= depth);
            }
        }
        self.lemma_extend_all_in_order(stayed, branches, base, depth + 1);
    }

    /// After every number of time steps the beam of a decode is in order: a
    /// min-heap by current total that holds no node twice and only nodes
    /// above zero probability, so that the node at its top is one of least
    /// total among those kept.
    pub proof fn lemma_run_in_order(self, beam_width: usize, start: int, steps: nat)
        requires
            beam_width >= 1,
            self.run(self.start(beam_width), start, steps).entries.len() <= usize::MAX,
        ensures
            self.run(self.start(beam_width), start, steps).beam_in_order(),
        decreases steps,
    {
        let root = self.start(beam_width);
        if steps == 0 {
            assert(root.heap.len() == 1);
            assert(root.heap[0] == 0);
        } else {
            let before = self.run(root, start, (steps - 1) as nat);
            let base = start + (steps - 1) * self.num_classes;
            self.lemma_step_size(before, base);
            self.lemma_run_in_order(beam_width, start, (steps - 1) as nat);
            self.lemma_run(beam_width, start, (steps - 1) as nat);
            self.lemma_step_in_order(before, base, (steps - 1) as nat);
        }
    }
}

} // verus!
