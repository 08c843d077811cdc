//! Prefix beam search.
//!
//! For each item of a batch the decoder walks the time steps of the item's
//! class scores. At each step it moves the probabilities of the prefixes in
//! the beam forward, once for the prefix as it is and once for the prefix
//! with one more label, and keeps the best `beam_width` of what comes out.
//! The labels of the best prefix after the last step are the item's result.
//!
//! What each step gives is stated in `crate::search`, the layout of the
//! output in `crate::output`.

use vstd::prelude::*;
use crate::arith::Arithmetic;
use crate::beam_list::{BeamEntry, BeamList, BeamProbability, NO_PARENT};
use crate::log_space::{LogSpace, Scalar, NEG_INFINITY_ORDINAL};
use crate::output::{
    greatest, lemma_greatest, lemma_greatest_range, lengths_of, longest, padded, padded_row,
    shaped,
};
use crate::search::{
    extends, lemma_extends_self, lemma_extends_twice, lemma_grown_keeps, lemma_path_in_classes,
    LanguageModelView, Setup,
};

verus! {

/// What a decode returns.
#[derive(Debug, PartialEq, Eq)]
pub struct DecoderOutput {
    /// One row of labels for each item, each row as long as the longest
    /// result and filled up with zeros.
    pub Sequences: Vec<i32>,
    /// The number of labels of each item's result.
    pub Lengths: Vec<i32>,
}

/// A bigram model over the labels other than the blank.
pub struct LanguageModel<'a> {
    /// The probability of each label as the first of a sequence.
    pub first_char_probs: &'a [Scalar],
    /// The probability of each label after each label: a row for each
    /// label, each row as long as the first table.
    pub second_char_probs: &'a [Scalar],
    /// The factor on the log of a probability of the model.
    pub weight: Scalar,
    /// The least probability that the model gives.
    pub min_prob: Scalar,
}

impl<'a> View for LanguageModel<'a> {
    type V = LanguageModelView;

    open spec fn view(&self) -> LanguageModelView {
        LanguageModelView {
            first_char_probs: self.first_char_probs@,
            second_char_probs: self.second_char_probs@,
            weight: self.weight,
            min_prob: self.min_prob,
        }
    }
}

/// The view of a language model that may be absent.
pub open spec fn lm_view(language_model: Option<LanguageModel>) -> Option<LanguageModelView> {
    match language_model {
        Some(lm) => Some(lm@),
        None => None,
    }
}

impl<'a> LanguageModel<'a> {
    /// Whether the tables are long enough for every pair of labels.
    pub fn tables_fit(&self, num_classes: i32, blank_idx: i32) -> (r: bool)
        ensures
            r == self@.fits(num_classes, blank_idx),
    {
        if num_classes < 2 {
            return true;
        }
        let labels: usize = (num_classes - 1) as usize;
        let row = self.first_char_probs.len();
        if row < labels {
            return false;
        }
        let last: usize = labels - 1;
        let pairs = self.second_char_probs.len();
        assert(last * row >= 0 && (num_classes - 2) * row == last * row) by (nonlinear_arith)
            requires
                last == num_classes - 2,
                row >= 0,
                last >= 0,
        ;
        match last.checked_mul(row) {
            Some(start) => match start.checked_add(last) {
                Some(end) => pairs > end,
                None => false,
            },
            None => false,
        }
    }

    /// The weighted log-probability that the model gives for the last label
    /// of `b` after the last label of `a`.
    pub fn get_probability<A, P, L>(
        &self,
        a: &BeamEntry,
        b: &BeamEntry,
        blank_idx: i32,
        ar: &Arithmetic<A, P, L>,
    ) -> (r: LogSpace) where
        A: Fn(Scalar, Scalar) -> Scalar,
        P: Fn(Scalar, Scalar) -> Scalar,
        L: Fn(Scalar, Scalar) -> Scalar,

        requires
            ar.total(),
            self@.holds_entry(a.label, b.label, blank_idx),
        ensures
            ar.functional() ==> r == self@.probability(a.label, b.label, blank_idx, ar.model()),
    {
        let row = self.first_char_probs.len();
        let b_idx: usize = if b.label < blank_idx {
            b.label as usize
        } else {
            (b.label - 1) as usize
        };
        let mut p = if a.label == blank_idx {
            self.first_char_probs[b_idx]
        } else {
            let a_idx: usize = if a.label < blank_idx {
                a.label as usize
            } else {
                (a.label - 1) as usize
            };
            let pairs = self.second_char_probs.len();
            assert(0 <= a_idx * row) by (nonlinear_arith)
                requires
                    0 <= a_idx,
                    0 <= row,
            ;
            self.second_char_probs[a_idx * row + b_idx]
        };
        if p.0 < self.min_prob.0 {
            p = self.min_prob;
        }
        ar.weighted_ln(self.weight, p)
    }
}

/// One decode at work: the scores, the classes, the model and the
/// arithmetic.
struct Search<'a, A, P, L> {
    predictions: &'a [Scalar],
    num_classes: i32,
    blank_idx: i32,
    language_model: Option<LanguageModel<'a>>,
    ar: &'a Arithmetic<A, P, L>,
}

impl<'a, A, P, L> Search<'a, A, P, L> where
    A: Fn(Scalar, Scalar) -> Scalar,
    P: Fn(Scalar, Scalar) -> Scalar,
    L: Fn(Scalar, Scalar) -> Scalar,
 {
    /// What the decode works on.
    spec fn setup(&self) -> Setup {
        Setup {
            predictions: self.predictions@,
            num_classes: self.num_classes,
            blank_idx: self.blank_idx,
            language_model: lm_view(self.language_model),
            ar: self.ar.model(),
        }
    }

    /// The arithmetic accepts all arguments and the setup is in order.
    spec fn ready(&self) -> bool {
        &&& self.ar.total()
        &&& self.setup().valid()
    }

    /// `prev` times what the language model gives for `b` after `a`; `prev`
    /// itself without a model.
    fn with_lm(&self, prev: LogSpace, a: &BeamEntry, b: &BeamEntry) -> (r: LogSpace)
        requires
            self.ready(),
            0 <= a.label < self.num_classes,
            0 <= b.label < self.num_classes,
            b.label != self.blank_idx,
        ensures
            self.ar.functional() ==> r == self.setup().with_lm(prev, a.label, b.label),
    {
        match &self.language_model {
            Some(lm) => {
                proof {
                    lm@.lemma_fits_holds_entry(self.num_classes, self.blank_idx, a.label, b.label);
                }
                let factor = lm.get_probability(a, b, self.blank_idx, self.ar);
                self.ar.mul(prev, factor)
            },
            None => prev,
        }
    }

    /// The score of a label in the row that starts at `base`.
    fn emission(&self, base: usize, label: i32) -> (r: LogSpace)
        requires
            self.setup().row(base as int),
            0 <= label < self.num_classes,
        ensures
            r == self.setup().emission(base as int, label),
    {
        LogSpace(self.predictions[base + label as usize])
    }

    /// Moves the probabilities of the branches forward a time step.
    fn advance(&self, list: &mut BeamList, branches: &Vec<usize>, Ghost(depth): Ghost<nat>)
        requires
            self.setup().grown(old(list)@, depth),
            old(list)@.in_range(branches@),
        ensures
            final(list)@ == Setup::advance(old(list)@, branches@),
            self.setup().grown(final(list)@, depth),
            extends(old(list)@, final(list)@),
            final(list)@.entries.len() == old(list)@.entries.len(),
            final(list)@.heap == old(list)@.heap,
    {
        let mut i: usize = 0;
        while i < branches.len()
            invariant
                i <= branches@.len(),
                list@.in_range(branches@),
                list@ == Setup::advance(old(list)@, branches@.take(i as int)),
                self.setup().grown(list@, depth),
                extends(old(list)@, list@),
                list@.entries.len() == old(list)@.entries.len(),
                list@.heap == old(list)@.heap,
            decreases branches@.len() - i,
        {
            let b = branches[i];
            let ghost before = list@;
            let moved = list.entry(b).new_p;
            list.set_old_p(b, moved);
            proof {
                assert(branches@.take(i + 1).drop_last() =~= branches@.take(i as int));
                before.lemma_set_p(b, moved);
                lemma_grown_keeps(self.setup(), before, list@, depth);
                lemma_extends_twice(old(list)@, before, list@);
            }
            i += 1;
        }
        assert(branches@.take(branches@.len() as int) =~= branches@);
    }

    /// Takes a time step for the prefix of `b` as it is.
    fn no_extend(&self, list: &mut BeamList, b: usize, base: usize, Ghost(depth): Ghost<nat>)
        requires
            self.ready(),
            self.setup().row(base as int),
            self.setup().grown(old(list)@, depth),
            b < old(list)@.entries.len(),
        ensures
            self.ar.functional() ==> final(list)@ == self.setup().no_extend(
                old(list)@,
                b,
                base as int,
            ),
            self.setup().grown(final(list)@, depth),
            extends(old(list)@, final(list)@),
            final(list)@.entries.len() == old(list)@.entries.len(),
    {
        let ghost v = list@;
        proof {
            assert(v.node_wf(b as int));
        }
        let node = list.entry(b);
        let label = node.label;
        let parent = node.parent;
        let old_total = node.old_p.total;
        let mut grown = node.new_p.label;
        if parent != NO_PARENT {
            let from = list.entry(parent);
            if from.is_active() {
                let carried = if label == from.label {
                    from.old_p.blank
                } else {
                    from.old_p.total
                };
                let carried = self.with_lm(carried, from, list.entry(b));
                grown = self.ar.add(grown, carried);
            }
        }
        let new_label = self.ar.mul(grown, self.emission(base, label));
        let new_blank = self.ar.mul(old_total, self.emission(base, self.blank_idx));
        let new_total = self.ar.add(new_blank, new_label);
        let p = BeamProbability { label: new_label, blank: new_blank, total: new_total };
        list.set_new_p(b, p);
        proof {
            v.lemma_set_p(b, p);
            lemma_grown_keeps(self.setup(), v, list@, depth);
        }
        if new_total.is_possible() {
            let ghost moved = list@;
            list.push(b);
            proof {
                moved.lemma_push(b);
                moved.lemma_tree_frame(list@);
                lemma_grown_keeps(self.setup(), moved, list@, depth);
                lemma_extends_twice(v, moved, list@);
            }
        }
    }

    /// Takes a time step for the prefix of `b` with `label` behind it.
    fn extend_label(
        &self,
        list: &mut BeamList,
        b: usize,
        label: i32,
        base: usize,
        Ghost(depth): Ghost<nat>,
    )
        requires
            self.ready(),
            self.setup().row(base as int),
            self.setup().grown(old(list)@, depth),
            b < old(list)@.entries.len(),
            old(list)@.depth(b as int) < depth,
            0 <= label < self.num_classes,
        ensures
            self.ar.functional() ==> final(list)@ == self.setup().extend_label(
                old(list)@,
                b,
                label,
                base as int,
            ),
            self.setup().grown(final(list)@, depth),
            extends(old(list)@, final(list)@),
    {
        let ghost v = list@;
        let logit = self.predictions[base + label as usize];
        if label == self.blank_idx || logit.0 <= NEG_INFINITY_ORDINAL {
            return ;
        }
        let c = list.get_child(b, label);
        let ghost found = list@;
        proof {
            v.lemma_get_child(b, label);
            assert(self.setup().grown(found, depth) && extends(v, found)) by {
                assert forall|i: int| 0 <= i < found.entries.len() implies #[trigger] found.depth(i)
                    <= depth by {
                    if i < v.entries.len() {
                        assert(found.path(i) == v.path(i));
                        assert(v.depth(i) <= depth);
                    }
                }
                assert forall|i: int| 0 < i < found.entries.len() implies 0 <= (
                #[trigger] found.entries[i]).label < self.num_classes && found.entries[i].label
                    != self.blank_idx by {
                    if i < v.entries.len() {
                        assert(found.entries[i].label == v.entries[i].label);
                    }
                }
            }
        }
        if list.entry(c).is_active() {
            return ;
        }
        let node = list.entry(b);
        let carried = if node.label == label {
            node.old_p.blank
        } else {
            node.old_p.total
        };
        let carried = self.with_lm(carried, node, list.entry(c));
        let score = self.ar.mul(carried, LogSpace(logit));
        let p = BeamProbability { label: score, blank: LogSpace::neg_infinity(), total: score };
        list.set_new_p(c, p);
        let ghost scored = list@;
        proof {
            found.lemma_set_p(c, p);
            lemma_grown_keeps(self.setup(), found, scored, depth);
            lemma_extends_twice(v, found, scored);
        }
        let admitted = score.is_possible() && (list.len() < list.capacity() || score.0.0
            > list.entry(list.min()).new_p.total.0.0);
        if admitted {
            let removed = list.push(c);
            let ghost pushed = list@;
            proof {
                scored.lemma_push(c);
                scored.lemma_tree_frame(pushed);
                lemma_grown_keeps(self.setup(), scored, pushed, depth);
                lemma_extends_twice(v, scored, pushed);
            }
            match removed {
                Some(r) => {
                    list.deactivate(r);
                    proof {
                        pushed.lemma_set_p(r, BeamProbability::inactive());
                        lemma_grown_keeps(self.setup(), pushed, list@, depth);
                        lemma_extends_twice(v, pushed, list@);
                    }
                },
                None => {},
            }
        } else {
            list.deactivate(c);
            proof {
                scored.lemma_set_p(c, BeamProbability::inactive());
                lemma_grown_keeps(self.setup(), scored, list@, depth);
                lemma_extends_twice(v, scored, list@);
            }
        }
    }

    /// Takes a time step for the prefixes one label longer than that of `b`,
    /// unless none of them can get into the beam.
    fn extend_node(&self, list: &mut BeamList, b: usize, base: usize, Ghost(depth): Ghost<nat>)
        requires
            self.ready(),
            self.setup().row(base as int),
            self.setup().grown(old(list)@, depth),
            b < old(list)@.entries.len(),
            old(list)@.depth(b as int) < depth,
        ensures
            self.ar.functional() ==> final(list)@ == self.setup().extend_node(
                old(list)@,
                b,
                base as int,
            ),
            self.setup().grown(final(list)@, depth),
            extends(old(list)@, final(list)@),
    {
        let ghost v = list@;
        proof {
            lemma_extends_self(v);
        }
        let had = list.entry(b).old_p.total;
        if had.0.0 <= NEG_INFINITY_ORDINAL || (list.len() >= list.capacity() && had.0.0
            <= list.entry(list.min()).new_p.total.0.0) {
            return ;
        }
        let mut label: i32 = 0;
        while label < self.num_classes
            invariant
                0 <= label <= self.num_classes,
                self.ready(),
                self.setup().row(base as int),
                self.setup().grown(list@, depth),
                b < v.entries.len(),
                v.depth(b as int) < depth,
                extends(v, list@),
                self.ar.functional() ==> list@ == self.setup().extend_labels(
                    v,
                    b,
                    label as int,
                    base as int,
                ),
            decreases self.num_classes - label,
        {
            let ghost before = list@;
            proof {
                assert(before.path(b as int) == v.path(b as int));
            }
            self.extend_label(list, b, label, base, Ghost(depth));
            proof {
                lemma_extends_twice(v, before, list@);
            }
            label += 1;
        }
    }

    /// Takes a time step on the row of scores that starts at `base`.
    fn step(&self, list: &mut BeamList, base: usize, Ghost(depth): Ghost<nat>)
        requires
            self.ready(),
            self.setup().row(base as int),
            self.setup().grown(old(list)@, depth),
        ensures
            self.ar.functional() ==> final(list)@ == self.setup().step(old(list)@, base as int),
            self.setup().grown(final(list)@, depth + 1),
    {
        let ghost v = list@;
        // Copy the beam of the previous time step and start a new one.
        let branches = list.clone_heap();
        list.clear();
        proof {
            v.lemma_tree_frame(v.clear());
            lemma_grown_keeps(self.setup(), v, v.clear(), depth);
        }
        self.advance(list, &branches, Ghost(depth));
        let ghost moved = list@;
        proof {
            lemma_extends_twice(v, v.clear(), moved);
        }
        let mut i: usize = 0;
        while i < branches.len()
            invariant
                i <= branches@.len(),
                self.ready(),
                self.setup().row(base as int),
                self.setup().grown(list@, depth),
                v.in_range(branches@),
                list@.entries.len() == v.entries.len(),
                extends(v, list@),
                self.ar.functional() ==> list@ == self.setup().no_extend_all(
                    moved,
                    branches@.take(i as int),
                    base as int,
                ),
            decreases branches@.len() - i,
        {
            let ghost before = list@;
            self.no_extend(list, branches[i], base, Ghost(depth));
            proof {
                assert(branches@.take(i + 1).drop_last() =~= branches@.take(i as int));
                lemma_extends_twice(v, before, list@);
            }
            i += 1;
        }
        let ghost stayed = list@;
        proof {
            assert(branches@.take(branches@.len() as int) =~= branches@);
            assert(self.setup().grown(stayed, depth + 1)) by {
                assert forall|k: int| 0 <= k < stayed.entries.len() implies #[trigger] stayed.depth(
                    k,
                ) <= depth + 1 by {
                    assert(stayed.depth(k) <= depth);
                }
            }
            lemma_extends_self(stayed);
        }
        let mut i: usize = 0;
        while i < branches.len()
            invariant
                i <= branches@.len(),
                self.ready(),
                self.setup().row(base as int),
                self.setup().grown(list@, depth + 1),
                self.setup().grown(stayed, depth),
                stayed.in_range(branches@),
                extends(stayed, list@),
                self.ar.functional() ==> list@ == self.setup().extend_all(
                    stayed,
                    branches@.take(i as int),
                    base as int,
                ),
            decreases branches@.len() - i,
        {
            let ghost before = list@;
            let b = branches[i];
            proof {
                assert(before.path(b as int) == stayed.path(b as int));
                assert(stayed.depth(b as int) <= depth);
            }
            self.extend_node(list, b, base, Ghost((depth + 1) as nat));
            proof {
                assert(branches@.take(i + 1).drop_last() =~= branches@.take(i as int));
                lemma_extends_twice(stayed, before, list@);
            }
            i += 1;
        }
        assert(branches@.take(branches@.len() as int) =~= branches@);
    }

    /// Decodes one item: `steps` rows of scores, the first at `start`.
    fn decode_item(&self, beam_width: usize, start: usize, steps: usize) -> (seq: Vec<i32>)
        requires
            self.ready(),
            beam_width >= 1,
            start + steps * self.num_classes <= self.predictions@.len(),
        ensures
            self.ar.functional() ==> seq@ == self.setup().decode_item(
                beam_width,
                start as int,
                steps as nat,
            ),
            seq@.len() <= steps,
            forall|k: int|
                0 <= k < seq@.len() ==> 0 <= #[trigger] seq@[k] < self.num_classes && seq@[k]
                    != self.blank_idx,
    {
        let mut list = BeamList::new(beam_width);
        list.add_root(self.blank_idx);
        let ghost root = list@;
        let mut t: usize = 0;
        while t < steps
            invariant
                t <= steps,
                self.ready(),
                start + steps * self.num_classes <= self.predictions@.len(),
                self.setup().grown(list@, t as nat),
                self.ar.functional() ==> list@ == self.setup().run(root, start as int, t as nat),
            decreases steps - t,
        {
            let width: usize = self.num_classes as usize;
            let rows = self.predictions.len();
            assert(t * width + width <= steps * self.num_classes && 0 <= t * width)
                by (nonlinear_arith)
                requires
                    0 <= t < steps,
                    width == self.num_classes,
                    self.num_classes >= 1,
            ;
            let base = start + t * width;
            self.step(&mut list, base, Ghost(t as nat));
            t += 1;
        }
        if list.len() == 0 {
            return Vec::new();
        }
        // The best of the beam, the first of them if several are.
        let final_branches = list.clone_heap();
        let mut best = final_branches[0];
        let mut j: usize = 1;
        while j < final_branches.len()
            invariant
                1 <= j <= final_branches@.len(),
                final_branches@ == list@.heap,
                list@.wf(),
                best == Setup::best(list@, j as int),
                best < list@.entries.len(),
            decreases final_branches@.len() - j,
        {
            let candidate = final_branches[j];
            if list.entry(candidate).new_p.total.0.0 > list.entry(best).new_p.total.0.0 {
                best = candidate;
            }
            j += 1;
        }
        proof {
            assert(list@.depth(best as int) <= steps);
            lemma_path_in_classes(self.setup(), list@, steps as nat, best as int);
        }
        list.get_seq(best)
    }
}

/// What a decode asks of its input: a beam of room for one prefix, one
/// class or more, the blank among the classes, no negative length, and rows
/// of scores for every item up to the greatest length.
pub open spec fn valid_input(
    predictions: Seq<Scalar>,
    lengths: Seq<i32>,
    num_classes: i32,
    beam_width: i32,
    blank_idx: i32,
) -> bool {
    &&& beam_width >= 1
    &&& num_classes >= 1
    &&& 0 <= blank_idx < num_classes
    &&& forall|i: int| 0 <= i < lengths.len() ==> lengths[i] >= 0
    &&& predictions.len() >= lengths.len() * greatest(lengths) * num_classes
}

/// The sequences that a vector of vectors holds.
pub open spec fn rows(outputs: Seq<Vec<i32>>) -> Seq<Seq<i32>> {
    Seq::new(outputs.len(), |i: int| outputs[i]@)
}

/// The output holds the given sequences: their lengths, and their rows at
/// the width of the longest.
pub open spec fn holds(out: DecoderOutput, items: Seq<Seq<i32>>) -> bool {
    &&& out.Lengths@ == lengths_of(items)
    &&& out.Sequences@ == padded(items, longest(items))
}

/// A decode is determined by what it is given: two outputs that hold the
/// same sequences have the same rows and the same lengths. Two decodes of one
/// input under one single-valued arithmetic hold the same sequences, those
/// of `Setup::decode_items`.
pub proof fn lemma_output_is_determined(a: DecoderOutput, b: DecoderOutput, items: Seq<Seq<i32>>)
    requires
        holds(a, items),
        holds(b, items),
    ensures
        a.Sequences@ == b.Sequences@,
        a.Lengths@ == b.Lengths@,
{
}

/// Whether the input is one that a decode takes.
pub fn input_is_valid(
    predictions: &[Scalar],
    lengths: &[i32],
    num_classes: i32,
    beam_width: i32,
    blank_idx: i32,
) -> (r: bool)
    ensures
        r == valid_input(predictions@, lengths@, num_classes, beam_width, blank_idx),
{
    if beam_width < 1 || num_classes < 1 || blank_idx < 0 || blank_idx >= num_classes {
        return false;
    }
    let mut max_num_preds: i32 = 0;
    let mut i: usize = 0;
    while i < lengths.len()
        invariant
            i <= lengths@.len(),
            max_num_preds == greatest(lengths@.take(i as int)),
            forall|k: int| 0 <= k < i ==> lengths@[k] >= 0,
        decreases lengths@.len() - i,
    {
        if lengths[i] < 0 {
            return false;
        }
        proof {
            assert(lengths@.take(i + 1).drop_last() =~= lengths@.take(i as int));
        }
        if lengths[i] > max_num_preds {
            max_num_preds = lengths[i];
        }
        i += 1;
    }
    proof {
        assert(lengths@.take(lengths@.len() as int) =~= lengths@);
        lemma_greatest_range(lengths@);
    }
    let ghost n = lengths@.len() as int;
    let ghost g = greatest(lengths@);
    let available = predictions.len();
    let batch_size = lengths.len();
    let rows_each: usize = max_num_preds as usize;
    let width: usize = num_classes as usize;
    proof {
        assert(n * g >= 0 && n * g * num_classes >= n * g) by (nonlinear_arith)
            requires
                n >= 0,
                g >= 0,
                num_classes >= 1,
        ;
    }
    match batch_size.checked_mul(rows_each) {
        Some(rows_needed) => match rows_needed.checked_mul(width) {
            Some(needed) => {
                assert(needed == n * g * num_classes);
                available >= needed
            },
            None => {
                assert(n * g * num_classes > usize::MAX);
                false
            },
        },
        None => {
            assert(n * g > usize::MAX);
            false
        },
    }
}

/// Decodes a batch.
///
/// `predictions` holds for each item a block of `greatest(lengths)` rows of
/// `num_classes` scores; item `i` is decoded over the first `lengths[i]`
/// rows of its block. A score is a log-probability: it is multiplied, in
/// log space, with what a prefix had before the time step.
///
/// Whatever the arithmetic returns, the output holds one sequence for each
/// item, of labels other than the blank and no longer than the item has time
/// steps. Where the arithmetic is single-valued, the sequences are those of
/// `Setup::decode_items`.
pub fn decode_internal<A, P, L>(
    predictions: &[Scalar],
    lengths: &[i32],
    num_classes: i32,
    beam_width: i32,
    blank_idx: i32,
    language_model: Option<LanguageModel>,
    ar: &Arithmetic<A, P, L>,
) -> (out: DecoderOutput) where
    A: Fn(Scalar, Scalar) -> Scalar,
    P: Fn(Scalar, Scalar) -> Scalar,
    L: Fn(Scalar, Scalar) -> Scalar,

    requires
        ar.total(),
        valid_input(predictions@, lengths@, num_classes, beam_width, blank_idx),
        match language_model {
            Some(lm) => lm@.fits(num_classes, blank_idx),
            None => true,
        },
    ensures
        exists|items: Seq<Seq<i32>>| #[trigger]
            holds(out, items) && shaped(items, lengths@, num_classes, blank_idx),
        ar.functional() ==> holds(
            out,
            (Setup {
                predictions: predictions@,
                num_classes,
                blank_idx,
                language_model: lm_view(language_model),
                ar: ar.model(),
            }).decode_items(beam_width as usize, lengths@),
        ),
{
    let batch_size = lengths.len();

    // The greatest length: each item's block of scores has that many rows.
    let mut max_num_preds: i32 = 0;
    let mut i: usize = 0;
    while i < batch_size
        invariant
            batch_size == lengths@.len(),
            i <= batch_size,
            max_num_preds == greatest(lengths@.take(i as int)),
        decreases batch_size - i,
    {
        proof {
            assert(lengths@.take(i + 1).drop_last() =~= lengths@.take(i as int));
        }
        if lengths[i] > max_num_preds {
            max_num_preds = lengths[i];
        }
        i += 1;
    }
    proof {
        assert(lengths@.take(lengths@.len() as int) =~= lengths@);
    }

    let search = Search { predictions, num_classes, blank_idx, language_model, ar };
    let ghost setup = search.setup();
    let ghost expected = setup.decode_items(beam_width as usize, lengths@);
    let width: usize = num_classes as usize;
    let rows_total = predictions.len();
    let mut outputs: Vec<Vec<i32>> = Vec::new();
    let mut i: usize = 0;
    while i < batch_size
        invariant
            batch_size == lengths@.len(),
            i <= batch_size,
            search.ready(),
            search.setup() == setup,
            search.predictions@ == predictions@,
            search.num_classes == num_classes,
            width == num_classes,
            beam_width >= 1,
            max_num_preds == greatest(lengths@),
            valid_input(predictions@, lengths@, num_classes, beam_width, blank_idx),
            outputs@.len() == i,
            rows_total == predictions@.len(),
            expected == setup.decode_items(beam_width as usize, lengths@),
            forall|k: int| 0 <= k < i ==> (#[trigger] outputs@[k])@.len() <= lengths@[k],
            forall|k: int, j: int|
                0 <= k < i && 0 <= j < outputs@[k]@.len() ==> 0 <= #[trigger] outputs@[k]@[j]
                    < num_classes && outputs@[k]@[j] != blank_idx,
            search.blank_idx == blank_idx,
            ar.functional() ==> forall|k: int| 0 <= k < i ==> (#[trigger] outputs@[k])@ == expected[k],
            ar == search.ar,
        decreases batch_size - i,
    {
        let num_preds = lengths[i] as usize;
        let rows_each: usize = max_num_preds as usize;
        proof {
            lemma_greatest(lengths@, i as int);
            lemma_greatest_range(lengths@);
            let n = batch_size as int;
            let g = max_num_preds as int;
            let c = num_classes as int;
            assert(0 <= i * g <= i * g * c && i * g * c + num_preds * c <= n * g * c)
                by (nonlinear_arith)
                requires
                    0 <= i < n,
                    0 <= num_preds <= g,
                    c >= 1,
            ;
            assert(n * g * c <= rows_total);
            assert(i * rows_each == i * g);
            assert(expected.len() == batch_size);
        }
        let batch_index = i * rows_each * width;
        let seq = search.decode_item(beam_width as usize, batch_index, num_preds);
        outputs.push(seq);
        i += 1;
    }

    // The lengths of the results, and the greatest of them.
    let ghost items = rows(outputs@);
    let mut out_lengths: Vec<i32> = Vec::with_capacity(batch_size);
    let mut max_len: usize = 0;
    let mut i: usize = 0;
    while i < outputs.len()
        invariant
            i <= outputs@.len(),
            items == rows(outputs@),
            outputs@.len() == lengths@.len(),
            forall|k: int| 0 <= k < outputs@.len() ==> (#[trigger] outputs@[k])@.len() <= lengths@[k],
            out_lengths@ == lengths_of(items.take(i as int)),
            max_len == longest(items.take(i as int)),
        decreases outputs@.len() - i,
    {
        proof {
            assert(items.take(i + 1).drop_last() =~= items.take(i as int));
            assert(items[i as int] == outputs@[i as int]@);
        }
        out_lengths.push(outputs[i].len() as i32);
        if outputs[i].len() > max_len {
            max_len = outputs[i].len();
        }
        proof {
            assert(out_lengths@ =~= lengths_of(items.take(i + 1)));
        }
        i += 1;
    }
    proof {
        assert(items.take(items.len() as int) =~= items);
    }

    // The results as rows of that width, filled up with zeros.
    let mut sequences: Vec<i32> = Vec::new();
    let mut i: usize = 0;
    while i < outputs.len()
        invariant
            i <= outputs@.len(),
            items == rows(outputs@),
            max_len == longest(items),
            sequences@ == padded(items.take(i as int), max_len as int),
        decreases outputs@.len() - i,
    {
        let ghost done = sequences@;
        let ghost row = padded_row(items[i as int], max_len as int);
        let mut j: usize = 0;
        while j < max_len
            invariant
                i < outputs@.len(),
                j <= max_len,
                items == rows(outputs@),
                row == padded_row(items[i as int], max_len as int),
                sequences@ == done + row.take(j as int),
            decreases max_len - j,
        {
            proof {
                assert(items[i as int] == outputs@[i as int]@);
            }
            let label = if j < outputs[i].len() {
                outputs[i][j]
            } else {
                0
            };
            sequences.push(label);
            proof {
                assert(row.take(j + 1) =~= row.take(j as int).push(row[j as int]));
                assert(sequences@ =~= done + row.take(j + 1));
            }
            j += 1;
        }
        proof {
            assert(row.take(max_len as int) =~= row);
            assert(items.take(i + 1).drop_last() =~= items.take(i as int));
        }
        i += 1;
    }
    proof {
        assert(items.take(items.len() as int) =~= items);
    }

    let out = DecoderOutput { Sequences: sequences, Lengths: out_lengths };
    proof {
        assert(holds(out, items));
        assert forall|k: int| 0 <= k < items.len() implies (#[trigger] items[k]).len()
            <= lengths@[k] by {
            assert(items[k] == outputs@[k]@);
        }
        assert forall|k: int, j: int| 0 <= k < items.len() && 0 <= j < items[k].len() implies 0
            <= #[trigger] items[k][j] < num_classes && items[k][j] != blank_idx by {
            assert(items[k] == outputs@[k]@);
            assert(0 <= outputs@[k]@[j] < num_classes);
        }
        assert(shaped(items, lengths@, num_classes, blank_idx));
        if ar.functional() {
            assert forall|k: int| 0 <= k < items.len() implies items[k] == expected[k] by {
                assert(items[k] == outputs@[k]@);
            }
            assert(items =~= expected);
        }
    }
    out
}

/// Decodes a batch without a language model: `decode_internal` with no
/// model.
pub fn decode<A, P, L>(
    predictions: &[Scalar],
    lengths: &[i32],
    num_classes: i32,
    beam_width: i32,
    blank_idx: i32,
    ar: &Arithmetic<A, P, L>,
) -> (out: DecoderOutput) where
    A: Fn(Scalar, Scalar) -> Scalar,
    P: Fn(Scalar, Scalar) -> Scalar,
    L: Fn(Scalar, Scalar) -> Scalar,

    requires
        ar.total(),
        valid_input(predictions@, lengths@, num_classes, beam_width, blank_idx),
    ensures
        exists|items: Seq<Seq<i32>>| #[trigger]
            holds(out, items) && shaped(items, lengths@, num_classes, blank_idx),
        ar.functional() ==> holds(
            out,
            (Setup {
                predictions: predictions@,
                num_classes,
                blank_idx,
                language_model: None,
                ar: ar.model(),
            }).decode_items(beam_width as usize, lengths@),
        ),
{
    decode_internal(predictions, lengths, num_classes, beam_width, blank_idx, None, ar)
}

/// Decodes a batch with a bigram language model over the labels:
/// `decode_internal` with the model of the two tables, the weight and the
/// least probability.
pub fn decode_with_lm<A, P, L>(
    predictions: &[Scalar],
    lengths: &[i32],
    num_classes: i32,
    beam_width: i32,
    blank_idx: i32,
    first_char_probs: &[Scalar],
    second_char_probs: &[Scalar],
    lm_weight: Scalar,
    lm_min_prob: Scalar,
    ar: &Arithmetic<A, P, L>,
) -> (out: DecoderOutput) where
    A: Fn(Scalar, Scalar) -> Scalar,
    P: Fn(Scalar, Scalar) -> Scalar,
    L: Fn(Scalar, Scalar) -> Scalar,

    requires
        ar.total(),
        valid_input(predictions@, lengths@, num_classes, beam_width, blank_idx),
        (LanguageModelView {
            first_char_probs: first_char_probs@,
            second_char_probs: second_char_probs@,
            weight: lm_weight,
            min_prob: lm_min_prob,
        }).fits(num_classes, blank_idx),
    ensures
        exists|items: Seq<Seq<i32>>| #[trigger]
            holds(out, items) && shaped(items, lengths@, num_classes, blank_idx),
        ar.functional() ==> holds(
            out,
            (Setup {
                predictions: predictions@,
                num_classes,
                blank_idx,
                language_model: Some(
                    LanguageModelView {
                        first_char_probs: first_char_probs@,
                        second_char_probs: second_char_probs@,
                        weight: lm_weight,
                        min_prob: lm_min_prob,
                    },
                ),
                ar: ar.model(),
            }).decode_items(beam_width as usize, lengths@),
        ),
{
    decode_internal(
        predictions,
        lengths,
        num_classes,
        beam_width,
        blank_idx,
        Some(
            LanguageModel {
                first_char_probs,
                second_char_probs,
                weight: lm_weight,
                min_prob: lm_min_prob,
            },
        ),
        ar,
    )
}

} // verus!
