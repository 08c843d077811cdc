//! A language model that weighs nothing.
//!
//! Where the arithmetic gives zero for the weighted log of every probability
//! of the tables, and leaves a factor as it is in a product with zero, a
//! decode with the model gives what the decode without a model gives.

use vstd::prelude::*;
use crate::beam_list::{BeamListView, NO_PARENT};
use crate::laws::tree::shallow;
use crate::log_space::LogSpace;
use crate::output::greatest;
use crate::search::{lemma_grown_keeps, lm_index, LanguageModelView, Setup};

verus! {

/// The language model weighs nothing under the arithmetic: the weighted
/// log of every probability of its tables, none taken below the least, is
/// zero, and a product with zero is the other factor.
pub open spec fn weightless(setup: Setup, lm: LanguageModelView) -> bool {
    &&& setup.language_model == Some(lm)
    &&& forall|i: int|
        0 <= i < lm.first_char_probs.len() ==> setup.ar.weighted_ln(
            lm.weight,
            lm.clamped(#[trigger] lm.first_char_probs[i]),
        ) == LogSpace::spec_zero()
    &&& forall|i: int|
        0 <= i < lm.second_char_probs.len() ==> setup.ar.weighted_ln(
            lm.weight,
            lm.clamped(#[trigger] lm.second_char_probs[i]),
        ) == LogSpace::spec_zero()
    &&& forall|x: LogSpace| #[trigger] setup.ar.mul(x, LogSpace::spec_zero()) == x
}

impl Setup {
    /// The same decode without a language model.
    pub open spec fn plain(self) -> Setup {
        Setup { language_model: None, ..self }
    }

    /// The arena of every item of a batch is one that a machine can hold.
    pub open spec fn arenas_fit(self, beam_width: usize, lengths: Seq<i32>) -> bool {
        forall|i: int|
            0 <= i < lengths.len() ==> (#[trigger] self.run(
                self.start(beam_width),
                i * greatest(lengths) * self.num_classes,
                lengths[i] as nat,
            )).entries.len() <= usize::MAX
    }

    /// A model that weighs nothing leaves what carries over as it is.
    pub proof fn lemma_weightless_factor(
        self,
        lm: LanguageModelView,
        prev: LogSpace,
        a_label: i32,
        b_label: i32,
    )
        requires
            weightless(self, lm),
            self.valid(),
            0 <= a_label < self.num_classes,
            0 <= b_label < self.num_classes,
            b_label != self.blank_idx,
        ensures
            self.with_lm(prev, a_label, b_label) == prev,
    {
        lm.lemma_fits_holds_entry(self.num_classes, self.blank_idx, a_label, b_label);
        let ai = lm_index(a_label, self.blank_idx);
        let bi = lm_index(b_label, self.blank_idx);
        let row = lm.first_char_probs.len() as int;
        if a_label == self.blank_idx {
            assert(lm.table_value(a_label, b_label, self.blank_idx) == lm.first_char_probs[bi]);
        } else {
            assert(0 <= ai * row) by (nonlinear_arith)
                requires
                    0 <= ai,
                    0 <= row,
            ;
            assert(lm.table_value(a_label, b_label, self.blank_idx) == lm.second_char_probs[ai
                * row + bi]);
        }
    }

    /// Under a model that weighs nothing a time step for a prefix as it is
    /// gives what it gives without the model.
    pub proof fn lemma_plain_no_extend(
        self,
        lm: LanguageModelView,
        v: BeamListView,
        b: usize,
        base: int,
        depth: nat,
    )
        requires
            weightless(self, lm),
            self.valid(),
            self.grown(v, depth),
            b < v.entries.len(),
        ensures
            self.no_extend(v, b, base) == self.plain().no_extend(v, b, base),
    {
        let node = v.entries[b as int];
        assert(v.node_wf(b as int));
        if node.parent != NO_PARENT {
            let parent = v.entries[node.parent as int];
            assert(0 <= parent.label < self.num_classes);
            self.lemma_weightless_factor(
                lm,
                Setup::carried(parent, node.label),
                parent.label,
                node.label,
            );
        }
    }

    /// So does a time step for each of the branches as it is.
    pub proof fn lemma_plain_no_extend_all(
        self,
        lm: LanguageModelView,
        v: BeamListView,
        branches: Seq<usize>,
        base: int,
        depth: nat,
    )
        requires
            weightless(self, lm),
            self.valid(),
            self.grown(v, depth),
            v.in_range(branches),
        ensures
            self.no_extend_all(v, branches, base) == self.plain().no_extend_all(v, branches, base),
        decreases branches.len(),
    {
        if branches.len() > 0 {
            let before = self.no_extend_all(v, branches.drop_last(), base);
            assert(v.in_range(branches.drop_last())) by {
                assert forall|i: int| 0 <= i < branches.drop_last().len() implies (
                #[trigger] branches.drop_last()[i]) < v.entries.len() by {
                    assert(branches.drop_last()[i] == branches[i]);
                }
            }
            self.lemma_plain_no_extend_all(lm, v, branches.drop_last(), base, depth);
            self.lemma_no_extend_all(v, branches.drop_last(), base, depth);
            self.lemma_plain_no_extend(lm, before, branches.last(), base, depth);
        }
    }

    /// So does a time step for a prefix with one more label.
    pub proof fn lemma_plain_extend_label(
        self,
        lm: LanguageModelView,
        v: BeamListView,
        b: usize,
        label: i32,
        base: int,
        depth: nat,
    )
        requires
            weightless(self, lm),
            self.valid(),
            self.grown(v, depth),
            b < v.entries.len(),
            0 <= label < self.num_classes,
        ensures
            self.extend_label(v, b, label, base) == self.plain().extend_label(v, b, label, base),
    {
        if label != self.blank_idx {
            let (found, c) = v.get_child(b, label);
            let node = found.entries[b as int];
            assert(node.label == v.entries[b as int].label);
            assert(0 <= v.entries[b as int].label < self.num_classes);
            self.lemma_weightless_factor(lm, Setup::carried(node, label), node.label, label);
        }
    }

    /// So do the time steps for a prefix with each of the labels below
    /// `upto`.
    pub proof fn lemma_plain_extend_labels(
        self,
        lm: LanguageModelView,
        v: BeamListView,
        b: usize,
        upto: int,
        base: int,
        depth: nat,
    )
        requires
            weightless(self, lm),
            self.valid(),
            self.grown(v, depth),
            b < v.entries.len(),
            v.depth(b as int) < depth,
            upto <= self.num_classes,
            self.extend_labels(v, b, upto, base).entries.len() <= usize::MAX,
        ensures
            self.extend_labels(v, b, upto, base) == self.plain().extend_labels(v, b, upto, base),
        decreases upto,
    {
        if upto > 0 {
            let before = self.extend_labels(v, b, upto - 1, base);
            self.lemma_extend_label_size(before, b, (upto - 1) as i32, base);
            self.lemma_plain_extend_labels(lm, v, b, upto - 1, base, depth);
            self.lemma_extend_labels(v, b, upto - 1, base, depth);
            self.lemma_plain_extend_label(lm, before, b, (upto - 1) as i32, base, depth);
        }
    }

    /// So do the time steps for each of the branches with one more label.
    pub proof fn lemma_plain_extend_all(
        self,
        lm: LanguageModelView,
        v: BeamListView,
        branches: Seq<usize>,
        base: int,
        depth: nat,
    )
        requires
            weightless(self, lm),
            self.valid(),
            self.grown(v, depth),
            shallow(v, branches, depth),
            self.extend_all(v, branches, base).entries.len() <= usize::MAX,
        ensures
            self.extend_all(v, branches, base) == self.plain().extend_all(v, branches, base),
        decreases branches.len(),
    {
        if branches.len() > 0 {
            let before = self.extend_all(v, branches.drop_last(), base);
            let b = branches.last();
            self.lemma_extend_labels_size(before, b, self.num_classes as int, base);
            assert(shallow(v, branches.drop_last(), depth)) by {
                assert forall|k: int| 0 <= k < branches.drop_last().len() implies (
                #[trigger] branches.drop_last()[k]) < v.entries.len() && v.depth(
                    branches.drop_last()[k] as int,
                ) < depth by {
                    assert(branches.drop_last()[k] == branches[k]);
                }
            }
            self.lemma_plain_extend_all(lm, v, branches.drop_last(), base, depth);
            self.lemma_extend_all(v, branches.drop_last(), base, depth);
            assert(b == branches[branches.len() - 1]);
            assert(before.path(b as int) == v.path(b as int));
            if !Setup::pruned(before, b) {
                self.lemma_plain_extend_labels(lm, before, b, self.num_classes as int, base, depth);
            }
        }
    }

    /// So does a time step.
    pub proof fn lemma_plain_step(self, lm: LanguageModelView, v: BeamListView, base: int, depth: nat)
        requires
            weightless(self, lm),
            self.valid(),
            self.grown(v, depth),
            self.step(v, base).entries.len() <= usize::MAX,
        ensures
            self.step(v, base) == self.plain().step(v, base),
    {
        let branches = v.heap;
        v.lemma_tree_frame(v.clear());
        lemma_grown_keeps(self, v, v.clear(), depth);
        self.lemma_advance(v.clear(), branches, depth);
        let moved = Setup::advance(v.clear(), branches);
        self.lemma_plain_no_extend_all(lm, moved, branches, base, depth);
        self.lemma_no_extend_all(moved, branches, base, depth);
        let stayed = self.no_extend_all(moved, branches, base);
        assert(self.grown(stayed, depth + 1)) by {
            assert forall|k: int| 0 <= k < stayed.entries.len() implies #[trigger] stayed.depth(k)
                <= depth + 1 by {
                assert(stayed.depth(k) <= depth);
            }
        }
        assert(shallow(stayed, branches, depth + 1)) by {
            assert forall|k: int| 0 <= k < branches.len() implies (#[trigger] branches[k])
                < stayed.entries.len() && stayed.depth(branches[k] as int) < depth + 1 by {
                assert(stayed.depth(branches[k] as int) <= depth);
            }
        }
        self.lemma_plain_extend_all(lm, stayed, branches, base, depth + 1);
    }

    /// So do the time steps of an item.
    pub proof fn lemma_plain_run(
        self,
        lm: LanguageModelView,
        beam_width: usize,
        start: int,
        steps: nat,
    )
        requires
            weightless(self, lm),
            self.valid(),
            beam_width >= 1,
            self.run(self.start(beam_width), start, steps).entries.len() <= usize::MAX,
        ensures
            self.run(self.start(beam_width), start, steps) == self.plain().run(
                self.plain().start(beam_width),
                start,
                steps,
            ),
        decreases steps,
    {
        if steps > 0 {
            let before = self.run(self.start(beam_width), start, (steps - 1) as nat);
            let base = start + (steps - 1) * self.num_classes;
            self.lemma_step_size(before, base);
            self.lemma_plain_run(lm, beam_width, start, (steps - 1) as nat);
            self.lemma_run(beam_width, start, (steps - 1) as nat);
            self.lemma_plain_step(lm, before, base, (steps - 1) as nat);
        }
    }

    /// A language model that weighs nothing changes nothing: the decode of
    /// a batch gives with it what it gives without a model. A weight of
    /// zero makes such a model where the arithmetic has zero times a finite
    /// log at zero and a sum with zero at the other term.
    pub proof fn lemma_weightless_model_changes_nothing(
        self,
        lm: LanguageModelView,
        beam_width: usize,
        lengths: Seq<i32>,
    )
        requires
            weightless(self, lm),
            self.valid(),
            beam_width >= 1,
            self.arenas_fit(beam_width, lengths),
        ensures
            self.decode_items(beam_width, lengths) == self.plain().decode_items(beam_width, lengths),
    {
        let with = self.decode_items(beam_width, lengths);
        let without = self.plain().decode_items(beam_width, lengths);
        assert forall|i: int| 0 <= i < lengths.len() implies with[i] == without[i] by {
            let start = i * greatest(lengths) * self.num_classes;
            let state = self.run(self.start(beam_width), start, lengths[i] as nat);
            assert(state.entries.len() <= usize::MAX);
            self.lemma_plain_run(lm, beam_width, start, lengths[i] as nat);
        }
        assert(with =~= without);
    }
}

} // verus!
