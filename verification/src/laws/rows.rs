//! The rows of an item.
//!
//! The decode of an item is a matter of the rows of scores of that item: in
//! a batch it gives what it gives for the item alone.

use vstd::prelude::*;
use crate::beam_list::BeamListView;
use crate::decoder::{holds, DecoderOutput};
use crate::output::{
    greatest, lemma_greatest, lemma_longest, lemma_padded, longest, padded, padded_row,
};
use crate::search::{lemma_grown_keeps, Setup};

verus! {

/// Two decodes differ in their scores at most, and the row of the one at
/// `a_base` is the row of the other at `b_base`.
pub open spec fn same_row(a: Setup, a_base: int, b: Setup, b_base: int) -> bool {
    &&& a.num_classes == b.num_classes
    &&& a.blank_idx == b.blank_idx
    &&& a.language_model == b.language_model
    &&& a.ar == b.ar
    &&& forall|c: int|
        0 <= c < a.num_classes ==> #[trigger] a.predictions[a_base + c] == b.predictions[b_base + c]
}

/// Two decodes differ in their scores at most, and the `steps` rows of the
/// one from `a_start` are the rows of the other from `b_start`.
pub open spec fn same_rows(a: Setup, a_start: int, b: Setup, b_start: int, steps: nat) -> bool {
    &&& a.num_classes == b.num_classes
    &&& a.blank_idx == b.blank_idx
    &&& a.language_model == b.language_model
    &&& a.ar == b.ar
    &&& forall|k: int|
        0 <= k < steps * a.num_classes ==> #[trigger] a.predictions[a_start + k]
            == b.predictions[b_start + k]
}

impl Setup {
    /// On the same row a time step for a prefix as it is gives the same.
    pub proof fn lemma_row_no_extend(
        self,
        base: int,
        other: Setup,
        other_base: int,
        v: BeamListView,
        b: usize,
        depth: nat,
    )
        requires
            same_row(self, base, other, other_base),
            0 <= self.blank_idx < self.num_classes,
            self.grown(v, depth),
            b < v.entries.len(),
        ensures
            self.no_extend(v, b, base) == other.no_extend(v, b, other_base),
    {
        let node = v.entries[b as int];
        assert(0 <= node.label < self.num_classes);
        assert(self.predictions[base + node.label] == other.predictions[other_base + node.label]);
        assert(self.predictions[base + self.blank_idx] == other.predictions[other_base
            + self.blank_idx]);
    }

    /// So does a time step for each of the branches as it is.
    pub proof fn lemma_row_no_extend_all(
        self,
        base: int,
        other: Setup,
        other_base: int,
        v: BeamListView,
        branches: Seq<usize>,
        depth: nat,
    )
        requires
            same_row(self, base, other, other_base),
            0 <= self.blank_idx < self.num_classes,
            self.grown(v, depth),
            v.in_range(branches),
        ensures
            self.no_extend_all(v, branches, base) == other.no_extend_all(v, branches, other_base),
        decreases branches.len(),
    {
        if branches.len() > 0 {
            let before = self.no_extend_all(v, branches.drop_last(), base);
            assert(v.in_range(branches.drop_last())) by {
                assert forall|i: int| 0 <= i < branches.drop_last().len() implies (
                #[trigger] branches.drop_last()[i]) < v.entries.len() by {
                    assert(branches.drop_last()[i] == branches[i]);
                }
            }
            self.lemma_row_no_extend_all(base, other, other_base, v, branches.drop_last(), depth);
            self.lemma_no_extend_all(v, branches.drop_last(), base, depth);
            self.lemma_row_no_extend(base, other, other_base, before, branches.last(), depth);
        }
    }

    /// So does a time step for a prefix with one more label.
    pub proof fn lemma_row_extend_label(
        self,
        base: int,
        other: Setup,
        other_base: int,
        v: BeamListView,
        b: usize,
        label: i32,
    )
        requires
            same_row(self, base, other, other_base),
            0 <= label < self.num_classes,
        ensures
            self.extend_label(v, b, label, base) == other.extend_label(v, b, label, other_base),
    {
        assert(self.predictions[base + label] == other.predictions[other_base + label]);
    }

    /// So do the time steps for a prefix with each of the labels below
    /// `upto`.
    pub proof fn lemma_row_extend_labels(
        self,
        base: int,
        other: Setup,
        other_base: int,
        v: BeamListView,
        b: usize,
        upto: int,
    )
        requires
            same_row(self, base, other, other_base),
            upto <= self.num_classes,
        ensures
            self.extend_labels(v, b, upto, base) == other.extend_labels(v, b, upto, other_base),
        decreases upto,
    {
        if upto > 0 {
            self.lemma_row_extend_labels(base, other, other_base, v, b, upto - 1);
            self.lemma_row_extend_label(
                base,
                other,
                other_base,
                self.extend_labels(v, b, upto - 1, base),
                b,
                (upto - 1) as i32,
            );
        }
    }

    /// So do the time steps for each of the branches with one more label.
    pub proof fn lemma_row_extend_all(
        self,
        base: int,
        other: Setup,
        other_base: int,
        v: BeamListView,
        branches: Seq<usize>,
    )
        requires
            same_row(self, base, other, other_base),
        ensures
            self.extend_all(v, branches, base) == other.extend_all(v, branches, other_base),
        decreases branches.len(),
    {
        if branches.len() > 0 {
            let before = self.extend_all(v, branches.drop_last(), base);
            self.lemma_row_extend_all(base, other, other_base, v, branches.drop_last());
            self.lemma_row_extend_labels(
                base,
                other,
                other_base,
                before,
                branches.last(),
                self.num_classes as int,
            );
        }
    }

    /// So does a time step.
    pub proof fn lemma_row_step(
        self,
        base: int,
        other: Setup,
        other_base: int,
        v: BeamListView,
        depth: nat,
    )
        requires
            same_row(self, base, other, other_base),
            0 <= self.blank_idx < self.num_classes,
            self.grown(v, depth),
        ensures
            self.step(v, base) == other.step(v, other_base),
    {
        let branches = v.heap;
        v.lemma_tree_frame(v.clear());
        lemma_grown_keeps(self, v, v.clear(), depth);
        self.lemma_advance(v.clear(), branches, depth);
        let moved = Setup::advance(v.clear(), branches);
        self.lemma_row_no_extend_all(base, other, other_base, moved, branches, depth);
        self.lemma_row_extend_all(
            base,
            other,
            other_base,
            self.no_extend_all(moved, branches, base),
            branches,
        );
    }

    /// On the same rows the time steps of an item give the same.
    pub proof fn lemma_rows_run(
        self,
        start: int,
        other: Setup,
        other_start: int,
        beam_width: usize,
        steps: nat,
        upto: nat,
    )
        requires
            same_rows(self, start, other, other_start, steps),
            0 <= self.blank_idx < self.num_classes,
            beam_width >= 1,
            upto <= steps,
            self.run(self.start(beam_width), start, upto).entries.len() <= usize::MAX,
        ensures
            self.run(self.start(beam_width), start, upto) == other.run(
                other.start(beam_width),
                other_start,
                upto,
            ),
        decreases upto,
    {
        if upto > 0 {
            let before = self.run(self.start(beam_width), start, (upto - 1) as nat);
            let nc = self.num_classes as int;
            let base = start + (upto - 1) * nc;
            let other_base = other_start + (upto - 1) * nc;
            self.lemma_step_size(before, base);
            self.lemma_rows_run(start, other, other_start, beam_width, steps, (upto - 1) as nat);
            self.lemma_run(beam_width, start, (upto - 1) as nat);
            assert(same_row(self, base, other, other_base)) by {
                assert forall|c: int| 0 <= c < nc implies #[trigger] self.predictions[base + c]
                    == other.predictions[other_base + c] by {
                    let k = (upto - 1) * nc + c;
                    assert(0 <= k < steps * nc) by (nonlinear_arith)
                        requires
                            0 <= c < nc,
                            1 <= upto <= steps,
                            k == (upto - 1) * nc + c,
                    ;
                    assert(self.predictions[start + k] == other.predictions[other_start + k]);
                }
            }
            self.lemma_row_step(base, other, other_base, before, (upto - 1) as nat);
        }
    }

    /// The same decode on the rows of one item alone.
    pub open spec fn alone(self, start: int, steps: nat) -> Setup {
        Setup {
            predictions: self.predictions.subrange(start, start + steps * self.num_classes),
            ..self
        }
    }

    /// The decode of an item is a matter of its own rows: within a batch it
    /// gives what it gives for the item alone.
    pub proof fn lemma_item_alone(self, beam_width: usize, lengths: Seq<i32>, i: int)
        requires
            self.valid(),
            beam_width >= 1,
            0 <= i < lengths.len(),
            forall|k: int| 0 <= k < lengths.len() ==> lengths[k] >= 0,
            self.predictions.len() >= lengths.len() * greatest(lengths) * self.num_classes,
            self.arenas_fit(beam_width, lengths),
        ensures
            self.decode_items(beam_width, lengths)[i] == self.alone(
                i * greatest(lengths) * self.num_classes,
                lengths[i] as nat,
            ).decode_item(beam_width, 0, lengths[i] as nat),
    {
        let nc = self.num_classes as int;
        let g = greatest(lengths);
        let n = lengths.len() as int;
        let start = i * g * nc;
        let steps = lengths[i] as nat;
        let other = self.alone(start, steps);
        lemma_greatest(lengths, i);
        assert(0 <= start && start + steps * nc <= n * g * nc && 0 <= steps * nc) by (nonlinear_arith)
            requires
                0 <= i < n,
                0 <= steps <= g,
                nc >= 1,
                start == i * g * nc,
        ;
        assert(same_rows(self, start, other, 0, steps)) by {
            assert forall|k: int| 0 <= k < steps * nc implies #[trigger] self.predictions[start + k]
                == other.predictions[0 + k] by {}
        }
        let state = self.run(self.start(beam_width), start, steps);
        assert(state.entries.len() <= usize::MAX);
        self.lemma_rows_run(start, other, 0, beam_width, steps, steps);
    }

    /// A batch of one item is decoded from the start of the scores.
    pub proof fn lemma_batch_of_one(self, beam_width: usize, steps: i32)
        requires
            steps >= 0,
        ensures
            self.decode_items(beam_width, seq![steps]) == seq![
                self.decode_item(beam_width, 0, steps as nat),
            ],
    {
        let lengths = seq![steps];
        assert(lengths.drop_last() =~= Seq::<i32>::empty());
        assert(greatest(lengths.drop_last()) == 0);
        assert(greatest(lengths) == steps);
        assert(0 * greatest(lengths) * self.num_classes == 0) by (nonlinear_arith);
        assert(self.decode_items(beam_width, lengths) =~= seq![
            self.decode_item(beam_width, 0, steps as nat),
        ]);
    }

    /// Batching changes nothing: the decode of a batch gives for each item
    /// what the decode of a batch of that item alone gives, on the rows of
    /// the item.
    pub proof fn lemma_batching_independence(self, beam_width: usize, lengths: Seq<i32>, i: int)
        requires
            self.valid(),
            beam_width >= 1,
            0 <= i < lengths.len(),
            forall|k: int| 0 <= k < lengths.len() ==> lengths[k] >= 0,
            self.predictions.len() >= lengths.len() * greatest(lengths) * self.num_classes,
            self.arenas_fit(beam_width, lengths),
        ensures
            self.alone(
                i * greatest(lengths) * self.num_classes,
                lengths[i] as nat,
            ).decode_items(beam_width, seq![lengths[i]]) == seq![
                self.decode_items(beam_width, lengths)[i],
            ],
    {
        self.lemma_item_alone(beam_width, lengths, i);
        self.alone(i * greatest(lengths) * self.num_classes, lengths[i] as nat).lemma_batch_of_one(
            beam_width,
            lengths[i],
        );
    }
}

/// The output of a batch and the output of one of its items alone: the
/// length of the item is the same in both, the output of the item alone is
/// its labels, and the row of the item in the batch is those labels and
/// zeros behind them.
pub proof fn lemma_rows_of_a_batch(
    batch: DecoderOutput,
    items: Seq<Seq<i32>>,
    single: DecoderOutput,
    i: int,
    j: int,
)
    requires
        holds(batch, items),
        0 <= i < items.len(),
        holds(single, seq![items[i]]),
        0 <= j < longest(items),
    ensures
        batch.Lengths@[i] == single.Lengths@[0],
        single.Sequences@ == items[i],
        items[i].len() <= longest(items),
        batch.Sequences@.len() == items.len() * longest(items),
        0 <= i * longest(items) + j < batch.Sequences@.len(),
        batch.Sequences@[i * longest(items) + j] == (if j < items[i].len() {
            single.Sequences@[j]
        } else {
            0i32
        }),
{
    let one = seq![items[i]];
    assert(one.drop_last() =~= Seq::<Seq<i32>>::empty());
    assert(longest(one.drop_last()) == 0);
    assert(longest(one) == items[i].len());
    assert(padded(one.drop_last(), longest(one)) =~= Seq::<i32>::empty());
    assert(padded(one, longest(one)) =~= padded_row(items[i], items[i].len() as int));
    assert(padded_row(items[i], items[i].len() as int) =~= items[i]);
    lemma_longest(items, i);
    lemma_padded(items, longest(items), i, j);
}

} // verus!
