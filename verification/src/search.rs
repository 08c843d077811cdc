//! The search, as functions on lists.
//!
//! A decode is a chain of steps, each a function from the list before it to
//! the list after it. The functions are written over the views of lists and
//! over the functions of the arithmetic, and say what the decoder computes
//! wherever the arithmetic is single-valued.

use vstd::prelude::*;
use crate::arith::ArithModel;
use crate::beam_list::{BeamListView, BeamProbability, EntryView, NO_PARENT};
use crate::log_space::{LogSpace, Scalar, NEG_INFINITY_ORDINAL};
use crate::output::greatest;

verus! {

/// What a language model holds.
pub struct LanguageModelView {
    pub first_char_probs: Seq<Scalar>,
    pub second_char_probs: Seq<Scalar>,
    pub weight: Scalar,
    pub min_prob: Scalar,
}

/// The place of a label in the tables of a language model, which leave the
/// blank out.
pub open spec fn lm_index(label: i32, blank_idx: i32) -> int {
    if label < blank_idx {
        label as int
    } else {
        label - 1
    }
}

impl LanguageModelView {
    /// Whether the tables hold the probability of `b_label` after `a_label`:
    /// the place at which it is looked up is inside its table.
    pub open spec fn holds_entry(self, a_label: i32, b_label: i32, blank_idx: i32) -> bool {
        if a_label == blank_idx {
            0 <= lm_index(b_label, blank_idx) < self.first_char_probs.len()
        } else {
            &&& 0 <= lm_index(a_label, blank_idx)
            &&& 0 <= lm_index(b_label, blank_idx)
            &&& lm_index(a_label, blank_idx) * self.first_char_probs.len() + lm_index(
                b_label,
                blank_idx,
            ) < self.second_char_probs.len()
        }
    }

    /// What the tables hold for `b_label` after `a_label`. After the blank,
    /// which only the root has, it is in the first table; else in the second,
    /// which has a row for each label and rows as long as the first table.
    pub open spec fn table_value(self, a_label: i32, b_label: i32, blank_idx: i32) -> Scalar {
        if a_label == blank_idx {
            self.first_char_probs[lm_index(b_label, blank_idx)]
        } else {
            self.second_char_probs[lm_index(a_label, blank_idx) * self.first_char_probs.len()
                + lm_index(b_label, blank_idx)]
        }
    }

    /// The probability, but at least `min_prob`.
    pub open spec fn clamped(self, p: Scalar) -> Scalar {
        if p.ord() < self.min_prob.ord() {
            self.min_prob
        } else {
            p
        }
    }

    /// The weighted log-probability of `b_label` after `a_label`.
    pub open spec fn probability(
        self,
        a_label: i32,
        b_label: i32,
        blank_idx: i32,
        ar: ArithModel,
    ) -> LogSpace {
        ar.weighted_ln(self.weight, self.clamped(self.table_value(a_label, b_label, blank_idx)))
    }

    /// The tables are long enough for every pair of labels: the first has an
    /// entry for each label, and the second reaches to the last label's
    /// entry in the last label's row.
    pub open spec fn fits(self, num_classes: i32, blank_idx: i32) -> bool {
        &&& self.first_char_probs.len() >= num_classes - 1
        &&& num_classes >= 2 ==> self.second_char_probs.len() > (num_classes - 2)
            * self.first_char_probs.len() + (num_classes - 2)
    }

    /// Tables that are long enough for every pair of labels hold the entry
    /// of each label after each label or after the blank.
    pub proof fn lemma_fits_holds_entry(
        self,
        num_classes: i32,
        blank_idx: i32,
        a_label: i32,
        b_label: i32,
    )
        requires
            self.fits(num_classes, blank_idx),
            0 <= blank_idx < num_classes,
            0 <= a_label < num_classes,
            0 <= b_label < num_classes,
            b_label != blank_idx,
        ensures
            self.holds_entry(a_label, b_label, blank_idx),
    {
        let ai = lm_index(a_label, blank_idx);
        let bi = lm_index(b_label, blank_idx);
        let row = self.first_char_probs.len() as int;
        let nc = num_classes as int;
        if a_label != blank_idx {
            assert(ai * row + bi <= (nc - 2) * row + (nc - 2)) by (nonlinear_arith)
                requires
                    0 <= ai <= nc - 2,
                    0 <= bi <= nc - 2,
                    0 <= row,
            ;
        }
    }
}

/// What a decode works on, but for the lengths and the beam width.
pub struct Setup {
    /// The class scores: for each item a block of rows, one row of
    /// `num_classes` scores for each time step.
    pub predictions: Seq<Scalar>,
    pub num_classes: i32,
    pub blank_idx: i32,
    pub language_model: Option<LanguageModelView>,
    /// The functions of the arithmetic.
    pub ar: ArithModel,
}

impl Setup {
    /// The score of a label in the row that starts at `base`.
    pub open spec fn emission(self, base: int, label: i32) -> LogSpace {
        LogSpace(self.predictions[base + label])
    }

    /// `prev` times what the language model gives for `b_label` after
    /// `a_label`; `prev` itself without a model.
    pub open spec fn with_lm(self, prev: LogSpace, a_label: i32, b_label: i32) -> LogSpace {
        match self.language_model {
            Some(lm) => self.ar.mul(
                prev,
                lm.probability(a_label, b_label, self.blank_idx, self.ar),
            ),
            None => prev,
        }
    }

    /// The probability that carries over into a prefix whose last label is
    /// `label`, from the node of the prefix without it: after the same label
    /// only what ended in a blank, since a repeat needs a blank between.
    pub open spec fn carried(from: EntryView, label: i32) -> LogSpace {
        if from.label == label {
            from.old_p.blank
        } else {
            from.old_p.total
        }
    }

    /// The previous probabilities of each node of `branches` become its
    /// current ones.
    pub open spec fn advance(v: BeamListView, branches: Seq<usize>) -> BeamListView
        decreases branches.len(),
    {
        if branches.len() == 0 {
            v
        } else {
            let before = Setup::advance(v, branches.drop_last());
            let b = branches.last();
            before.set_old_p(b, before.entries[b as int].new_p)
        }
    }

    /// One more time step for the prefix of node `b` as it is. What it had
    /// as a label probability grows by what carries over from its parent, if
    /// the parent is active, and is multiplied by the score of its last
    /// label; its blank probability is its previous total times the score of
    /// the blank. With a total above zero probability the node is offered to
    /// the beam.
    pub open spec fn no_extend(self, v: BeamListView, b: usize, base: int) -> BeamListView {
        let node = v.entries[b as int];
        let grown = if node.parent != NO_PARENT && v.entries[node.parent as int].is_active() {
            let parent = v.entries[node.parent as int];
            self.ar.add(
                node.new_p.label,
                self.with_lm(Setup::carried(parent, node.label), parent.label, node.label),
            )
        } else {
            node.new_p.label
        };
        let label = self.ar.mul(grown, self.emission(base, node.label));
        let blank = self.ar.mul(node.old_p.total, self.emission(base, self.blank_idx));
        let total = self.ar.add(blank, label);
        let moved = v.set_new_p(b, BeamProbability { label, blank, total });
        if total.spec_is_possible() {
            moved.push(b).0
        } else {
            moved
        }
    }

    /// `no_extend` for each node of `branches`, in their order.
    pub open spec fn no_extend_all(self, v: BeamListView, branches: Seq<usize>, base: int) -> BeamListView
        decreases branches.len(),
    {
        if branches.len() == 0 {
            v
        } else {
            self.no_extend(
                self.no_extend_all(v, branches.drop_last(), base),
                branches.last(),
                base,
            )
        }
    }

    /// Whether a candidate of the given total gets into the beam: it is above
    /// zero probability, and the beam has room or a top below it.
    pub open spec fn admits(v: BeamListView, total: LogSpace) -> bool {
        total.spec_is_possible() && (v.heap.len() < v.capacity || total.ord() > v.key(v.heap[0]))
    }

    /// One more time step for the prefix of node `b` with `label` behind it.
    /// Nothing happens for the blank, for a label whose score is zero
    /// probability, or if the child is active already. Else the child gets
    /// what carries over from `b` times the score of the label. If the beam
    /// admits it, it is offered, and the node that leaves for it is
    /// deactivated; if not, the child is.
    pub open spec fn extend_label(self, v: BeamListView, b: usize, label: i32, base: int) -> BeamListView {
        let logit = self.predictions[base + label];
        if label == self.blank_idx || logit.ord() <= NEG_INFINITY_ORDINAL {
            v
        } else {
            let (found, c) = v.get_child(b, label);
            if found.entries[c as int].is_active() {
                found
            } else {
                let node = found.entries[b as int];
                let score = self.ar.mul(
                    self.with_lm(Setup::carried(node, label), node.label, label),
                    LogSpace(logit),
                );
                let scored = found.set_new_p(
                    c,
                    BeamProbability {
                        label: score,
                        blank: LogSpace::spec_neg_infinity(),
                        total: score,
                    },
                );
                if Setup::admits(scored, score) {
                    let (pushed, removed) = scored.push(c);
                    match removed {
                        Some(r) => pushed.deactivate(r),
                        None => pushed,
                    }
                } else {
                    scored.deactivate(c)
                }
            }
        }
    }

    /// `extend_label` for the labels below `upto`, in rising order.
    pub open spec fn extend_labels(self, v: BeamListView, b: usize, upto: int, base: int) -> BeamListView
        decreases upto,
    {
        if upto <= 0 {
            v
        } else {
            self.extend_label(self.extend_labels(v, b, upto - 1, base), b, (upto - 1) as i32, base)
        }
    }

    /// Whether no prefix one label longer than that of `b` can get into the
    /// beam: `b` had zero probability, or the beam is full and its top is
    /// not below what `b` had.
    pub open spec fn pruned(v: BeamListView, b: usize) -> bool {
        let had = v.entries[b as int].old_p.total;
        had.ord() <= NEG_INFINITY_ORDINAL || (v.heap.len() >= v.capacity && had.ord() <= v.key(
            v.heap[0],
        ))
    }

    /// One more time step for the prefixes one label longer than that of
    /// `b`.
    pub open spec fn extend_node(self, v: BeamListView, b: usize, base: int) -> BeamListView {
        if Setup::pruned(v, b) {
            v
        } else {
            self.extend_labels(v, b, self.num_classes as int, base)
        }
    }

    /// `extend_node` for each node of `branches`, in their order.
    pub open spec fn extend_all(self, v: BeamListView, branches: Seq<usize>, base: int) -> BeamListView
        decreases branches.len(),
    {
        if branches.len() == 0 {
            v
        } else {
            self.extend_node(self.extend_all(v, branches.drop_last(), base), branches.last(), base)
        }
    }

    /// One time step, on the row of scores that starts at `base`: the beam is
    /// taken as the branches and emptied, the branches move forward in time,
    /// then each as it is, then each with one more label.
    pub open spec fn step(self, v: BeamListView, base: int) -> BeamListView {
        let branches = v.heap;
        let moved = Setup::advance(v.clear(), branches);
        self.extend_all(self.no_extend_all(moved, branches, base), branches, base)
    }

    /// `steps` time steps on the rows that start at `start`.
    pub open spec fn run(self, v: BeamListView, start: int, steps: nat) -> BeamListView
        decreases steps,
    {
        if steps == 0 {
            v
        } else {
            self.step(self.run(v, start, (steps - 1) as nat), start + (steps - 1) * self.num_classes)
        }
    }

    /// The node of greatest total among the first `upto` of the beam, the
    /// earliest of them in heap order.
    pub open spec fn best(v: BeamListView, upto: int) -> usize
        decreases upto,
    {
        if upto <= 1 {
            v.heap[0]
        } else {
            let before = Setup::best(v, upto - 1);
            if v.key(v.heap[upto - 1]) > v.key(before) {
                v.heap[upto - 1]
            } else {
                before
            }
        }
    }

    /// The labels that the decode of one item gives: those of the best
    /// prefix in the beam after the item's time steps, and none if the beam
    /// is empty then.
    pub open spec fn decode_item(self, beam_width: usize, start: int, steps: nat) -> Seq<i32> {
        let v = self.run(BeamListView::empty(beam_width).add_root(self.blank_idx), start, steps);
        if v.heap.len() == 0 {
            Seq::empty()
        } else {
            v.path(Setup::best(v, v.heap.len() as int) as int)
        }
    }

    /// The labels that the decode of each item of a batch gives. The block of
    /// an item has as many rows as the longest item has time steps.
    pub open spec fn decode_items(self, beam_width: usize, lengths: Seq<i32>) -> Seq<Seq<i32>> {
        Seq::new(
            lengths.len(),
            |i: int|
                self.decode_item(
                    beam_width,
                    i * greatest(lengths) * self.num_classes,
                    lengths[i] as nat,
                ),
        )
    }
}

impl Setup {
    /// The classes and the blank are in order, and the tables of the
    /// language model are long enough for them.
    pub open spec fn valid(self) -> bool {
        &&& self.num_classes >= 1
        &&& 0 <= self.blank_idx < self.num_classes
        &&& match self.language_model {
            Some(lm) => lm.fits(self.num_classes, self.blank_idx),
            None => true,
        }
    }

    /// A row of scores starts at `base`.
    pub open spec fn row(self, base: int) -> bool {
        0 <= base && base + self.num_classes <= self.predictions.len()
    }

    /// The list is the tree of a decode whose prefixes have at most `depth`
    /// labels: a tree with a beam of room for one node at least, whose root
    /// has the blank for its label and whose other nodes have labels of the
    /// classes, none the blank.
    pub open spec fn grown(self, v: BeamListView, depth: nat) -> bool {
        &&& v.wf()
        &&& v.capacity >= 1
        &&& v.entries.len() >= 1
        &&& v.entries[0].label == self.blank_idx
        &&& forall|i: int|
            0 < i < v.entries.len() ==> 0 <= (#[trigger] v.entries[i]).label < self.num_classes
                && v.entries[i].label != self.blank_idx
        &&& forall|i: int| 0 <= i < v.entries.len() ==> #[trigger] v.depth(i) <= depth
    }
}

/// In the tree of a decode the labels of every path are labels of the
/// classes, none the blank.
pub proof fn lemma_path_in_classes(setup: Setup, v: BeamListView, depth: nat, idx: int)
    requires
        setup.grown(v, depth),
        0 <= idx < v.entries.len(),
    ensures
        forall|k: int|
            0 <= k < v.path(idx).len() ==> 0 <= #[trigger] v.path(idx)[k] < setup.num_classes
                && v.path(idx)[k] != setup.blank_idx,
    decreases idx,
{
    assert(v.node_wf(idx));
    if idx > 0 {
        let parent = v.entries[idx].parent as int;
        lemma_path_in_classes(setup, v, depth, parent);
        assert(0 <= v.entries[idx].label < setup.num_classes);
        assert forall|k: int| 0 <= k < v.path(idx).len() implies 0 <= #[trigger] v.path(idx)[k]
            < setup.num_classes && v.path(idx)[k] != setup.blank_idx by {
            if k < v.path(parent).len() {
                assert(v.path(idx)[k] == v.path(parent)[k]);
            }
        }
    }
}

/// `after` has the nodes of `before`, with their labels and paths, and maybe
/// more.
pub open spec fn extends(before: BeamListView, after: BeamListView) -> bool {
    &&& before.entries.len() <= after.entries.len()
    &&& before.capacity == after.capacity
    &&& forall|i: int|
        #![trigger after.path(i)]
        0 <= i < before.entries.len() ==> after.path(i) == before.path(i)
            && after.entries[i].label == before.entries[i].label
}

/// A list with the size, the labels and the paths of the tree of a decode is
/// such a tree, once it is well formed.
pub proof fn lemma_grown_keeps(setup: Setup, before: BeamListView, after: BeamListView, depth: nat)
    requires
        setup.grown(before, depth),
        after.wf(),
        after.capacity == before.capacity,
        after.entries.len() == before.entries.len(),
        forall|i: int|
            #![trigger after.path(i)]
            0 <= i < before.entries.len() ==> after.path(i) == before.path(i)
                && after.entries[i].label == before.entries[i].label,
    ensures
        setup.grown(after, depth),
        extends(before, after),
{
    assert forall|i: int| 0 < i < after.entries.len() implies 0 <= (#[trigger] after.entries[i]).label
        < setup.num_classes && after.entries[i].label != setup.blank_idx by {
        assert(after.path(i) == before.path(i));
        assert(after.entries[i].label == before.entries[i].label);
    }
    assert forall|i: int| 0 <= i < after.entries.len() implies #[trigger] after.depth(i) <= depth by {
        assert(after.path(i) == before.path(i));
        assert(before.depth(i) <= depth);
    }
    assert(after.path(0) == before.path(0));
}

/// A list extends itself.
pub proof fn lemma_extends_self(a: BeamListView)
    ensures
        extends(a, a),
{
}

/// What extends an extension of a list extends the list.
pub proof fn lemma_extends_twice(a: BeamListView, b: BeamListView, c: BeamListView)
    requires
        extends(a, b),
        extends(b, c),
    ensures
        extends(a, c),
{
    assert forall|i: int| 0 <= i < a.entries.len() implies #[trigger] c.path(i) == a.path(i)
        && c.entries[i].label == a.entries[i].label by {
        assert(b.path(i) == a.path(i));
        assert(b.entries[i].label == a.entries[i].label);
        assert(c.path(i) == b.path(i));
        assert(c.entries[i].label == b.entries[i].label);
    }
}

} // verus!
