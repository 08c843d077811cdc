//! The first label.
//!
//! After one time step, under a beam with room for every class, the beam
//! holds the root and a child of the root for each label whose score is above
//! zero, each with the score of its label times what the language model gives
//! for it as a first label. The decode gives the one label whose total is
//! above every other total: the first label goes to another label where the
//! weight of the model makes that label's total the greatest.

use vstd::prelude::*;
use crate::beam_list::{BeamListView, BeamProbability, NO_PARENT};
use crate::heap::{key, lemma_ordered_frame};
use crate::log_space::{LogSpace, NEG_INFINITY_ORDINAL};
use crate::search::Setup;

verus! {

impl Setup {
    /// The probabilities of the empty prefix after the first time step, on
    /// the row of scores at `base`.
    pub open spec fn root_after_one(self, base: int) -> BeamProbability {
        let label = self.ar.mul(
            LogSpace::spec_neg_infinity(),
            self.emission(base, self.blank_idx),
        );
        let blank = self.ar.mul(LogSpace::spec_zero(), self.emission(base, self.blank_idx));
        BeamProbability { label, blank, total: self.ar.add(blank, label) }
    }

    /// The total of the prefix of the one label after the first time step:
    /// what the model gives for it as a first label, times its score.
    pub open spec fn first_score(self, base: int, label: i32) -> LogSpace {
        self.ar.mul(
            self.with_lm(LogSpace::spec_zero(), self.blank_idx, label),
            LogSpace(self.predictions[base + label]),
        )
    }

    /// The label is not the blank, and its score in the row is above zero
    /// probability.
    pub open spec fn eligible(self, base: int, label: i32) -> bool {
        label != self.blank_idx && self.predictions[base + label].ord() > NEG_INFINITY_ORDINAL
    }

    /// Node `c` is the child of the root for an eligible label below
    /// `upto`: in the beam with the first score of its label where that is
    /// above zero probability, inactive and outside the beam where not.
    pub open spec fn first_child(self, v: BeamListView, base: int, upto: int, c: int) -> bool {
        let e = v.entries[c];
        let s = self.first_score(base, e.label);
        &&& e.parent == 0
        &&& 0 <= e.label < upto
        &&& self.eligible(base, e.label)
        &&& if s.spec_is_possible() {
            e.new_p == (BeamProbability {
                label: s,
                blank: LogSpace::spec_neg_infinity(),
                total: s,
            }) && v.heap.contains(c as usize)
        } else {
            e.new_p == BeamProbability::inactive() && !v.heap.contains(c as usize)
        }
    }

    /// The list in the first time step, after the labels below `upto`: the
    /// root with its probabilities, in the beam where its total is above
    /// zero, and a child of the root for each eligible label below `upto`.
    pub open spec fn first_labels(self, v: BeamListView, base: int, upto: int) -> bool {
        &&& self.grown(v, 1)
        &&& v.beam_in_order()
        &&& v.capacity >= self.num_classes
        &&& v.entries[0].old_p == BeamProbability::initial()
        &&& v.entries[0].new_p == self.root_after_one(base)
        &&& v.heap.contains(0usize) <==> self.root_after_one(base).total.spec_is_possible()
        &&& forall|c: int| 0 < c < v.entries.len() ==> #[trigger] self.first_child(v, base, upto, c)
        &&& forall|l: i32|
            0 <= l < upto && self.eligible(base, l) ==> #[trigger] v.entries[0].children.contains_key(
                l,
            )
        &&& v.heap.len() + (if self.blank_idx < upto {
            1int
        } else {
            0int
        }) <= 1 + upto
    }

    /// The time step for the root with one more label makes the child of
    /// that label.
    pub proof fn lemma_first_label(self, v: BeamListView, base: int, label: i32)
        requires
            0 <= self.blank_idx < self.num_classes,
            0 <= label < self.num_classes,
            self.first_labels(v, base, label as int),
            self.extend_label(v, 0, label, base).entries.len() <= usize::MAX,
        ensures
            self.first_labels(self.extend_label(v, 0, label, base), base, label + 1),
    {
        let zero = LogSpace::spec_neg_infinity();
        let upto = label as int;
        let after = self.extend_label(v, 0, label, base);
        assert(v.node_wf(0));
        assert(v.path(0) =~= Seq::<i32>::empty());
        if !self.eligible(base, label) {
            assert(after == v);
            assert forall|c: int| 0 < c < v.entries.len() implies #[trigger] self.first_child(
                v,
                base,
                upto + 1,
                c,
            ) by {
                assert(self.first_child(v, base, upto, c));
            }
        } else {
            let (found, c) = v.get_child(0, label);
            v.lemma_get_child(0, label);
            self.lemma_extend_label(v, 0, label, base, 1);
            // No child has this label yet.
            assert(!v.entries[0].children.contains_key(label)) by {
                if v.entries[0].children.contains_key(label) {
                    let k = v.entries[0].children[label] as int;
                    assert(self.first_child(v, base, upto, k));
                }
            }
            assert(c == v.entries.len());
            assert(found.heap == v.heap);
            assert(!v.heap.contains(c)) by {
                if v.heap.contains(c) {
                    let j = choose|j: int| 0 <= j < v.heap.len() && v.heap[j] == c;
                    assert(v.heap[j] < v.entries.len());
                }
            }
            assert(found.beam_in_order()) by {
                assert forall|i: int| 0 <= i < v.heap.len() implies key(
                    found.entries,
                    #[trigger] v.heap[i],
                ) == key(v.entries, v.heap[i]) by {
                    assert(found.entries[v.heap[i] as int].new_p == v.entries[v.heap[i] as int].new_p);
                }
                lemma_ordered_frame(v.entries, found.entries, v.heap);
                assert forall|i: int| 0 <= i < found.heap.len() implies found.entries[(
                #[trigger] found.heap[i]) as int].new_p.total.spec_is_possible() by {
                    assert(found.entries[v.heap[i] as int].new_p == v.entries[v.heap[i] as int].new_p);
                }
            }
            let node = found.entries[0];
            assert(node.old_p == v.entries[0].old_p);
            assert(node.label == self.blank_idx);
            let s = self.first_score(base, label);
            assert(Setup::carried(node, label) == LogSpace::spec_zero());
            let p = BeamProbability { label: s, blank: zero, total: s };
            let scored = found.set_new_p(c, p);
            found.lemma_set_p(c, p);
            found.lemma_set_p_in_order(c, p);
            assert(scored.heap == v.heap);
            assert(scored.heap.len() < scored.capacity);
            if s.spec_is_possible() {
                assert(Setup::admits(scored, s));
                let (pushed, removed) = scored.push(c);
                scored.lemma_push(c);
                scored.lemma_push_in_order(c);
                assert(removed is None);
                assert(after == pushed);
                assert(pushed.entries == scored.entries);
                assert forall|k: int| 0 < k < after.entries.len() implies #[trigger] self.first_child(
                    after,
                    base,
                    upto + 1,
                    k,
                ) by {
                    if k < v.entries.len() {
                        assert(self.first_child(v, base, upto, k));
                        assert(after.entries[k] == v.entries[k]);
                        assert(after.heap.contains(k as usize) <==> v.heap.contains(k as usize));
                    } else {
                        assert(after.heap.contains(c));
                    }
                }
                assert(after.heap.contains(0usize) <==> v.heap.contains(0usize));
            } else {
                assert(!Setup::admits(scored, s));
                assert(after == scored.deactivate(c));
                scored.lemma_set_p_in_order(c, BeamProbability::inactive());
                assert forall|k: int| 0 < k < after.entries.len() implies #[trigger] self.first_child(
                    after,
                    base,
                    upto + 1,
                    k,
                ) by {
                    if k < v.entries.len() {
                        assert(self.first_child(v, base, upto, k));
                        assert(after.entries[k] == v.entries[k]);
                    }
                }
            }
            assert(after.entries[0].new_p == v.entries[0].new_p);
            assert(after.entries[0].old_p == v.entries[0].old_p);
            assert forall|l: i32| 0 <= l < upto + 1 && self.eligible(base, l) implies #[trigger] after.entries[0].children.contains_key(
            l) by {
                if l < upto {
                    assert(v.entries[0].children.contains_key(l));
                }
            }
        }
    }

    /// The time steps for the root with each of the labels below `upto`
    /// make the children of those labels.
    pub proof fn lemma_first_labels(self, v: BeamListView, base: int, upto: int)
        requires
            0 <= self.blank_idx < self.num_classes,
            0 <= upto <= self.num_classes,
            self.first_labels(v, base, 0),
            self.extend_labels(v, 0, upto, base).entries.len() <= usize::MAX,
        ensures
            self.first_labels(self.extend_labels(v, 0, upto, base), base, upto),
        decreases upto,
    {
        if upto > 0 {
            let before = self.extend_labels(v, 0, upto - 1, base);
            self.lemma_extend_label_size(before, 0, (upto - 1) as i32, base);
            self.lemma_first_labels(v, base, upto - 1);
            self.lemma_first_label(before, base, (upto - 1) as i32);
        }
    }

    /// The list after the first time step.
    pub proof fn lemma_first_step(self, beam_width: usize, base: int)
        requires
            0 <= self.blank_idx < self.num_classes,
            beam_width >= self.num_classes,
            self.step(self.start(beam_width), base).entries.len() <= usize::MAX,
        ensures
            self.first_labels(
                self.step(self.start(beam_width), base),
                base,
                self.num_classes as int,
            ),
    {
        let root = self.start(beam_width);
        let branches = root.heap;
        assert(branches =~= seq![0usize]);
        assert(branches.drop_last() =~= Seq::<usize>::empty());
        assert(branches.last() == 0);
        let cleared = root.clear();
        let moved = Setup::advance(cleared, branches);
        assert(Setup::advance(cleared, branches.drop_last()) == cleared);
        assert(moved == cleared.set_old_p(0, cleared.entries[0].new_p));
        assert(moved.entries[0].old_p == BeamProbability::initial());
        assert(moved.entries[0].new_p == BeamProbability::initial());
        assert(moved.entries[0].parent == NO_PARENT);
        assert(moved.entries.len() == 1);
        assert(moved.heap =~= Seq::<usize>::empty());
        assert(self.no_extend_all(moved, branches.drop_last(), base) == moved);
        let stayed = self.no_extend_all(moved, branches, base);
        assert(stayed == self.no_extend(moved, 0, base));
        let p = self.root_after_one(base);
        let set = moved.set_new_p(0, p);
        assert(set.node_wf(0));
        assert(set.wf());
        assert(set.beam_in_order());
        assert(set.path(0) =~= Seq::<i32>::empty());
        if p.total.spec_is_possible() {
            assert(stayed == set.push(0).0);
            set.lemma_push(0);
            set.lemma_push_in_order(0);
            assert(stayed.entries == set.entries);
            assert(stayed.path(0) =~= Seq::<i32>::empty());
            assert(stayed.node_wf(0));
        } else {
            assert(stayed == set);
            assert(!stayed.heap.contains(0usize));
        }
        assert(self.grown(stayed, 1));
        assert(self.first_labels(stayed, base, 0));
        assert(self.extend_all(stayed, branches.drop_last(), base) == stayed);
        let after = self.extend_all(stayed, branches, base);
        assert(after == self.extend_node(stayed, 0, base));
        assert(self.step(root, base) == after);
        if Setup::pruned(stayed, 0) {
            // Only a single class, the blank, leaves no room in the beam.
            assert(self.num_classes == 1);
            assert(after == stayed);
            assert forall|c: int| 0 < c < stayed.entries.len() implies #[trigger] self.first_child(
                stayed,
                base,
                1,
                c,
            ) by {}
        } else {
            self.lemma_first_labels(stayed, base, self.num_classes as int);
        }
    }

    /// The best of the first nodes of a beam has a total that none of them
    /// exceeds, and is one of them.
    pub proof fn lemma_best_is_greatest(v: BeamListView, upto: int, j: int)
        requires
            1 <= upto <= v.heap.len(),
            0 <= j < upto,
        ensures
            v.key(v.heap[j]) <= v.key(Setup::best(v, upto)),
            v.heap.contains(Setup::best(v, upto)),
        decreases upto,
    {
        if upto > 1 {
            Setup::lemma_best_is_greatest(v, upto - 1, 0);
            if j < upto - 1 {
                Setup::lemma_best_is_greatest(v, upto - 1, j);
            }
            assert(v.heap.contains(v.heap[upto - 1]));
        } else {
            assert(v.heap.contains(v.heap[0]));
        }
    }

    /// After one time step, under a beam with room for every class, the
    /// decode gives the one label whose first score is above zero
    /// probability, above the total of the empty prefix, and above the first
    /// score of every other label that has a score above zero in the row.
    pub proof fn lemma_first_label_is_the_greatest(self, beam_width: usize, start: int, label: i32)
        requires
            0 <= self.blank_idx < self.num_classes,
            beam_width >= self.num_classes,
            self.run(self.start(beam_width), start, 1).entries.len() <= usize::MAX,
            0 <= label < self.num_classes,
            self.eligible(start, label),
            self.first_score(start, label).spec_is_possible(),
            self.root_after_one(start).total.ord() < self.first_score(start, label).ord(),
            forall|l: i32|
                0 <= l < self.num_classes && l != label && self.eligible(start, l)
                    ==> (#[trigger] self.first_score(start, l)).ord() < self.first_score(
                    start,
                    label,
                ).ord(),
        ensures
            self.decode_item(beam_width, start, 1) == seq![label],
    {
        let root = self.start(beam_width);
        assert(self.run(root, start, 0) == root);
        assert(start + (1 - 1) * self.num_classes == start) by (nonlinear_arith);
        let v = self.run(root, start, 1);
        assert(v == self.step(root, start));
        self.lemma_first_step(beam_width, start);
        let nc = self.num_classes as int;
        assert(v.entries[0].children.contains_key(label));
        let c = v.entries[0].children[label];
        assert(v.node_wf(0));
        assert(self.first_child(v, start, nc, c as int));
        assert(v.entries[c as int].label == label);
        assert(v.heap.contains(c));
        let at = choose|j: int| 0 <= j < v.heap.len() && v.heap[j] == c;
        let n = v.heap.len() as int;
        let best = Setup::best(v, n);
        Setup::lemma_best_is_greatest(v, n, at);
        if best != c {
            if best == 0 {
                assert(v.key(best) == self.root_after_one(start).total.ord());
            } else {
                let j = choose|j: int| 0 <= j < v.heap.len() && v.heap[j] == best;
                assert(v.heap[j] < v.entries.len());
                assert(self.first_child(v, start, nc, best as int));
                let l = v.entries[best as int].label;
                if l == label {
                    v.lemma_child_is_unique(best as int, c as int);
                }
                assert(self.first_score(start, l).ord() < self.first_score(start, label).ord());
            }
            assert(false);
        }
        assert(v.node_wf(c as int));
        assert(v.path(0) =~= Seq::<i32>::empty());
        assert(v.path(c as int) =~= seq![label]);
    }
}

} // verus!
