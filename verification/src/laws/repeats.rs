//! Repeats cost time steps.
//!
//! A prefix takes a time step for each of its labels, and one more for each
//! label that repeats the one before it, since a blank has to stand between
//! the two. Where a product of probability zero with a number below
//! infinity is zero, and the scores and what the language model gives are
//! such numbers, a decode of `steps` time steps gives a sequence whose labels
//! and repeats together are at most `steps`.

use vstd::prelude::*;
use crate::beam_list::{BeamListView, BeamProbability, NO_PARENT};
use crate::laws::tree::shallow;
use crate::log_space::{LogSpace, Scalar, INFINITY_ORDINAL, NEG_INFINITY_ORDINAL};
use crate::output::{greatest, lemma_greatest};
use crate::search::{lemma_grown_keeps, lm_index, Setup};

verus! {

/// How many labels of the sequence repeat the label before them.
pub open spec fn repeats(s: Seq<i32>) -> nat
    decreases s.len(),
{
    if s.len() < 2 {
        0
    } else {
        repeats(s.drop_last()) + if s[s.len() - 2] == s[s.len() - 1] {
            1nat
        } else {
            0nat
        }
    }
}

/// The scalar is a number below infinity: negative infinity or finite.
pub open spec fn below_infinity(y: Scalar) -> bool {
    NEG_INFINITY_ORDINAL <= y.ord() < INFINITY_ORDINAL
}

/// Probability zero stays zero in the products of the decode: under the
/// arithmetic the product of probability zero with a number below infinity
/// is zero, and the scores and the weighted logs of the language model's
/// probabilities, none taken below the least, are such numbers.
pub open spec fn zero_absorbs(setup: Setup) -> bool {
    &&& forall|y: LogSpace|
        below_infinity(y.0) ==> #[trigger] setup.ar.mul(LogSpace::spec_neg_infinity(), y)
            == LogSpace::spec_neg_infinity()
    &&& forall|k: int|
        0 <= k < setup.predictions.len() ==> below_infinity(#[trigger] setup.predictions[k])
    &&& match setup.language_model {
        Some(lm) => {
            &&& forall|i: int|
                0 <= i < lm.first_char_probs.len() ==> below_infinity(
                    setup.ar.weighted_ln(lm.weight, lm.clamped(#[trigger] lm.first_char_probs[i])).0,
                )
            &&& forall|i: int|
                0 <= i < lm.second_char_probs.len() ==> below_infinity(
                    setup.ar.weighted_ln(
                        lm.weight,
                        lm.clamped(#[trigger] lm.second_char_probs[i]),
                    ).0,
                )
        },
        None => true,
    }
}

/// The time steps that the prefix of a node takes at least: one for each
/// label and one for each repeat.
pub open spec fn cost(v: BeamListView, i: int) -> nat {
    v.path(i).len() + repeats(v.path(i))
}

/// The probabilities are such as node `i` can have after `t` time steps: it
/// has ended in its last label only if its prefix takes no more than `t`
/// steps, in a blank only if there was a step more for the blank, the root
/// apart, and its total is above zero only if one of the two is.
pub open spec fn timely(v: BeamListView, i: int, p: BeamProbability, t: nat) -> bool {
    &&& p.label != LogSpace::spec_neg_infinity() ==> i > 0 && cost(v, i) <= t
    &&& p.blank != LogSpace::spec_neg_infinity() ==> cost(v, i) + (if i > 0 {
        1nat
    } else {
        0nat
    }) <= t
    &&& p.total != LogSpace::spec_neg_infinity() ==> p.label != LogSpace::spec_neg_infinity()
        || p.blank != LogSpace::spec_neg_infinity()
}

/// The current probabilities of node `i` are timely for `new_t` time steps
/// and its previous ones for `old_t`.
pub open spec fn node_on_time(v: BeamListView, i: int, new_t: nat, old_t: nat) -> bool {
    timely(v, i, v.entries[i].new_p, new_t) && timely(v, i, v.entries[i].old_p, old_t)
}

/// Every node is on time.
pub open spec fn on_time(v: BeamListView, new_t: nat, old_t: nat) -> bool {
    forall|i: int| 0 <= i < v.entries.len() ==> #[trigger] node_on_time(v, i, new_t, old_t)
}

/// A label behind a sequence is a repeat where it is the last label of the
/// sequence.
pub proof fn lemma_repeats_push(s: Seq<i32>, x: i32)
    ensures
        repeats(s.push(x)) == repeats(s) + (if s.len() > 0 && s.last() == x {
            1nat
        } else {
            0nat
        }),
{
    assert(s.push(x).drop_last() =~= s);
}

/// In a tree the path of the root is empty, and the path of another node
/// ends in the label of the node and takes the steps of its parent's path,
/// one for the label, and one more where the label repeats that of the
/// parent.
pub proof fn lemma_cost_of_child(v: BeamListView, c: int)
    requires
        v.tree_wf(),
        0 <= c < v.entries.len(),
    ensures
        c == 0 ==> v.path(c).len() == 0 && cost(v, c) == 0,
        c > 0 ==> v.path(c).len() > 0 && v.path(c).last() == v.entries[c].label,
        c > 0 ==> cost(v, c) == cost(v, v.entries[c].parent as int) + 1 + (if v.entries[c].parent
            > 0 && v.entries[v.entries[c].parent as int].label == v.entries[c].label {
            1nat
        } else {
            0nat
        }),
{
    assert(v.node_wf(c));
    if c > 0 {
        let p = v.entries[c].parent as int;
        assert(v.node_wf(p));
        lemma_repeats_push(v.path(p), v.entries[c].label);
        if p > 0 {
            let q = v.entries[p].parent as int;
            assert(v.path(p) == v.path(q).push(v.entries[p].label));
        }
    }
}

/// Nodes that are on time stay so with more time.
pub proof fn lemma_on_time_later(v: BeamListView, new_t: nat, old_t: nat, new_u: nat, old_u: nat)
    requires
        on_time(v, new_t, old_t),
        new_t <= new_u,
        old_t <= old_u,
    ensures
        on_time(v, new_u, old_u),
{
    assert forall|i: int| 0 <= i < v.entries.len() implies #[trigger] node_on_time(
        v,
        i,
        new_u,
        old_u,
    ) by {
        assert(node_on_time(v, i, new_t, old_t));
    }
}

/// Nodes that are on time are so in a list of the same paths and
/// probabilities.
pub proof fn lemma_on_time_same(before: BeamListView, after: BeamListView, new_t: nat, old_t: nat)
    requires
        on_time(before, new_t, old_t),
        after.entries.len() == before.entries.len(),
        forall|i: int|
            0 <= i < before.entries.len() ==> #[trigger] after.path(i) == before.path(i),
        forall|i: int|
            0 <= i < before.entries.len() ==> (#[trigger] after.entries[i]).new_p
                == before.entries[i].new_p && after.entries[i].old_p == before.entries[i].old_p,
    ensures
        on_time(after, new_t, old_t),
{
    assert forall|i: int| 0 <= i < after.entries.len() implies #[trigger] node_on_time(
        after,
        i,
        new_t,
        old_t,
    ) by {
        assert(node_on_time(before, i, new_t, old_t));
        assert(after.path(i) == before.path(i));
        assert(after.entries[i].new_p == before.entries[i].new_p);
    }
}

/// Nodes that are on time stay so when one of them gets timely
/// probabilities.
pub proof fn lemma_on_time_set(
    v: BeamListView,
    idx: usize,
    p: BeamProbability,
    new_t: nat,
    old_t: nat,
)
    requires
        v.wf(),
        idx < v.entries.len(),
        on_time(v, new_t, old_t),
    ensures
        timely(v, idx as int, p, new_t) ==> on_time(v.set_new_p(idx, p), new_t, old_t),
        timely(v, idx as int, p, old_t) ==> on_time(v.set_old_p(idx, p), new_t, old_t),
        on_time(v.deactivate(idx), new_t, old_t),
{
    v.lemma_set_p(idx, p);
    v.lemma_set_p(idx, BeamProbability::inactive());
    if timely(v, idx as int, p, new_t) {
        let a = v.set_new_p(idx, p);
        assert forall|i: int| 0 <= i < a.entries.len() implies #[trigger] node_on_time(
            a,
            i,
            new_t,
            old_t,
        ) by {
            assert(node_on_time(v, i, new_t, old_t));
            assert(a.path(i) == v.path(i));
        }
    }
    if timely(v, idx as int, p, old_t) {
        let a = v.set_old_p(idx, p);
        assert forall|i: int| 0 <= i < a.entries.len() implies #[trigger] node_on_time(
            a,
            i,
            new_t,
            old_t,
        ) by {
            assert(node_on_time(v, i, new_t, old_t));
            assert(a.path(i) == v.path(i));
        }
    }
    let a = v.deactivate(idx);
    assert forall|i: int| 0 <= i < a.entries.len() implies #[trigger] node_on_time(
        a,
        i,
        new_t,
        old_t,
    ) by {
        assert(node_on_time(v, i, new_t, old_t));
        assert(a.path(i) == v.path(i));
    }
}

impl Setup {
    /// What is multiplied with what the language model gives is zero where
    /// it was zero.
    pub proof fn lemma_with_lm_of_zero(self, a_label: i32, b_label: i32)
        requires
            zero_absorbs(self),
            self.valid(),
            0 <= a_label < self.num_classes,
            0 <= b_label < self.num_classes,
            b_label != self.blank_idx,
        ensures
            self.with_lm(LogSpace::spec_neg_infinity(), a_label, b_label)
                == LogSpace::spec_neg_infinity(),
    {
        match self.language_model {
            Some(lm) => {
                lm.lemma_fits_holds_entry(self.num_classes, self.blank_idx, a_label, b_label);
                let ai = lm_index(a_label, self.blank_idx);
                let bi = lm_index(b_label, self.blank_idx);
                let row = lm.first_char_probs.len() as int;
                if a_label == self.blank_idx {
                    assert(lm.table_value(a_label, b_label, self.blank_idx)
                        == lm.first_char_probs[bi]);
                } else {
                    assert(0 <= ai * row) by (nonlinear_arith)
                        requires
                            0 <= ai,
                            0 <= row,
                    ;
                    assert(lm.table_value(a_label, b_label, self.blank_idx)
                        == lm.second_char_probs[ai * row + bi]);
                }
                assert(below_infinity(lm.probability(a_label, b_label, self.blank_idx, self.ar).0));
            },
            None => {},
        }
    }

    /// In a row of scores every score of a class is a number below
    /// infinity.
    pub proof fn lemma_emission_below_infinity(self, base: int, label: i32)
        requires
            zero_absorbs(self),
            self.row(base),
            0 <= label < self.num_classes,
        ensures
            below_infinity(self.emission(base, label).0),
    {
        assert(below_infinity(self.predictions[base + label]));
    }

    /// Moving the branches forward in time keeps the nodes on time: what
    /// was timely as a current probability is so as a previous one.
    pub proof fn lemma_advance_on_time(
        self,
        v: BeamListView,
        branches: Seq<usize>,
        depth: nat,
        t: nat,
    )
        requires
            self.grown(v, depth),
            v.in_range(branches),
            on_time(v, t, t),
        ensures
            on_time(Setup::advance(v, branches), t, t),
        decreases branches.len(),
    {
        if branches.len() > 0 {
            let rest = branches.drop_last();
            let before = Setup::advance(v, rest);
            let b = branches.last();
            assert(v.in_range(rest)) by {
                assert forall|i: int| 0 <= i < rest.len() implies (#[trigger] rest[i])
                    < v.entries.len() by {
                    assert(rest[i] == branches[i]);
                }
            }
            self.lemma_advance_on_time(v, rest, depth, t);
            self.lemma_advance(v, rest, depth);
            assert(b == branches[branches.len() - 1]);
            assert(node_on_time(before, b as int, t, t));
            lemma_on_time_set(before, b, before.entries[b as int].new_p, t, t);
        }
    }

    /// A time step for a prefix as it is keeps the nodes on time, the
    /// current probabilities for one time step more than the previous ones.
    pub proof fn lemma_no_extend_on_time(
        self,
        v: BeamListView,
        b: usize,
        base: int,
        depth: nat,
        t: nat,
    )
        requires
            zero_absorbs(self),
            self.valid(),
            self.row(base),
            self.grown(v, depth),
            b < v.entries.len(),
            on_time(v, t + 1, t),
        ensures
            on_time(self.no_extend(v, b, base), t + 1, t),
    {
        let zero = LogSpace::spec_neg_infinity();
        let node = v.entries[b as int];
        assert(v.node_wf(b as int));
        assert(node_on_time(v, b as int, t + 1, t));
        lemma_cost_of_child(v, b as int);
        let grown = if node.parent != NO_PARENT && v.entries[node.parent as int].is_active() {
            let parent = v.entries[node.parent as int];
            self.ar.add(
                node.new_p.label,
                self.with_lm(Setup::carried(parent, node.label), parent.label, node.label),
            )
        } else {
            node.new_p.label
        };
        assert(grown != zero ==> b > 0 && cost(v, b as int) <= t + 1) by {
            if grown != zero && node.new_p.label == zero {
                let from = node.parent as int;
                let parent = v.entries[from];
                assert(v.node_wf(from));
                assert(node_on_time(v, from, t + 1, t));
                lemma_cost_of_child(v, from);
                let carried = Setup::carried(parent, node.label);
                assert(0 <= parent.label < self.num_classes);
                self.lemma_with_lm_of_zero(parent.label, node.label);
                assert(carried != zero);
                if from == 0 {
                    assert(parent.label == self.blank_idx);
                    assert(node.label != self.blank_idx);
                }
            }
        }
        assert(0 <= node.label < self.num_classes);
        self.lemma_emission_below_infinity(base, node.label);
        self.lemma_emission_below_infinity(base, self.blank_idx);
        let label = self.ar.mul(grown, self.emission(base, node.label));
        let blank = self.ar.mul(node.old_p.total, self.emission(base, self.blank_idx));
        let total = self.ar.add(blank, label);
        let p = BeamProbability { label, blank, total };
        assert(timely(v, b as int, p, (t + 1) as nat));
        let moved = v.set_new_p(b, p);
        v.lemma_set_p(b, p);
        lemma_on_time_set(v, b, p, (t + 1) as nat, t);
        if total.spec_is_possible() {
            let pushed = moved.push(b).0;
            moved.lemma_push(b);
            moved.lemma_tree_frame(pushed);
            lemma_on_time_same(moved, pushed, (t + 1) as nat, t);
        }
    }

    /// So does a time step for each of the branches as it is.
    pub proof fn lemma_no_extend_all_on_time(
        self,
        v: BeamListView,
        branches: Seq<usize>,
        base: int,
        depth: nat,
        t: nat,
    )
        requires
            zero_absorbs(self),
            self.valid(),
            self.row(base),
            self.grown(v, depth),
            v.in_range(branches),
            on_time(v, t + 1, t),
        ensures
            on_time(self.no_extend_all(v, branches, base), t + 1, t),
        decreases branches.len(),
    {
        if branches.len() > 0 {
            let rest = branches.drop_last();
            let before = self.no_extend_all(v, rest, base);
            assert(v.in_range(rest)) by {
                assert forall|i: int| 0 <= i < rest.len() implies (#[trigger] rest[i])
                    < v.entries.len() by {
                    assert(rest[i] == branches[i]);
                }
            }
            self.lemma_no_extend_all_on_time(v, rest, base, depth, t);
            self.lemma_no_extend_all(v, rest, base, depth);
            assert(branches.last() == branches[branches.len() - 1]);
            self.lemma_no_extend_on_time(before, branches.last(), base, depth, t);
        }
    }

    /// So does a time step for a prefix with one more label.
    pub proof fn lemma_extend_label_on_time(
        self,
        v: BeamListView,
        b: usize,
        label: i32,
        base: int,
        depth: nat,
        t: nat,
    )
        requires
            zero_absorbs(self),
            self.valid(),
            self.row(base),
            self.grown(v, depth),
            b < v.entries.len(),
            v.depth(b as int) < depth,
            0 <= label < self.num_classes,
            self.extend_label(v, b, label, base).entries.len() <= usize::MAX,
            on_time(v, t + 1, t),
        ensures
            on_time(self.extend_label(v, b, label, base), t + 1, t),
    {
        let zero = LogSpace::spec_neg_infinity();
        let logit = self.predictions[base + label];
        if label == self.blank_idx || logit.ord() <= NEG_INFINITY_ORDINAL {
        } else {
            let (found, c) = v.get_child(b, label);
            v.lemma_get_child(b, label);
            assert(on_time(found, (t + 1) as nat, t)) by {
                assert forall|i: int| 0 <= i < found.entries.len() implies #[trigger] node_on_time(
                    found,
                    i,
                    (t + 1) as nat,
                    t,
                ) by {
                    if i < v.entries.len() {
                        assert(node_on_time(v, i, (t + 1) as nat, t));
                        assert(found.path(i) == v.path(i));
                        assert(found.entries[i].new_p == v.entries[i].new_p);
                        assert(found.entries[i].old_p == v.entries[i].old_p);
                    }
                }
            }
            if found.entries[c as int].is_active() {
            } else {
                let node = found.entries[b as int];
                let carried = Setup::carried(node, label);
                let score = self.ar.mul(self.with_lm(carried, node.label, label), LogSpace(logit));
                let p = BeamProbability { label: score, blank: zero, total: score };
                assert(timely(found, c as int, p, (t + 1) as nat)) by {
                    if score != zero {
                        assert(node.label == v.entries[b as int].label);
                        assert(0 <= node.label < self.num_classes);
                        self.lemma_with_lm_of_zero(node.label, label);
                        assert(below_infinity(logit));
                        assert(carried != zero);
                        assert(node_on_time(found, b as int, (t + 1) as nat, t));
                        lemma_cost_of_child(found, c as int);
                        lemma_cost_of_child(found, b as int);
                        if b == 0 {
                            assert(node.label == self.blank_idx);
                        }
                    }
                }
                let scored = found.set_new_p(c, p);
                found.lemma_set_p(c, p);
                lemma_on_time_set(found, c, p, (t + 1) as nat, t);
                if Setup::admits(scored, score) {
                    let (pushed, removed) = scored.push(c);
                    scored.lemma_push(c);
                    scored.lemma_tree_frame(pushed);
                    lemma_on_time_same(scored, pushed, (t + 1) as nat, t);
                    match removed {
                        Some(r) => {
                            lemma_on_time_set(
                                pushed,
                                r,
                                BeamProbability::inactive(),
                                (t + 1) as nat,
                                t,
                            );
                        },
                        None => {},
                    }
                } else {
                    lemma_on_time_set(scored, c, BeamProbability::inactive(), (t + 1) as nat, t);
                }
            }
        }
    }

    /// So do the time steps for a prefix with each of the labels below
    /// `upto`.
    pub proof fn lemma_extend_labels_on_time(
        self,
        v: BeamListView,
        b: usize,
        upto: int,
        base: int,
        depth: nat,
        t: nat,
    )
        requires
            zero_absorbs(self),
            self.valid(),
            self.row(base),
            self.grown(v, depth),
            b < v.entries.len(),
            v.depth(b as int) < depth,
            upto <= self.num_classes,
            self.extend_labels(v, b, upto, base).entries.len() <= usize::MAX,
            on_time(v, t + 1, t),
        ensures
            on_time(self.extend_labels(v, b, upto, base), t + 1, t),
        decreases upto,
    {
        if upto > 0 {
            let before = self.extend_labels(v, b, upto - 1, base);
            self.lemma_extend_label_size(before, b, (upto - 1) as i32, base);
            self.lemma_extend_labels_on_time(v, b, upto - 1, base, depth, t);
            self.lemma_extend_labels(v, b, upto - 1, base, depth);
            assert(before.path(b as int) == v.path(b as int));
            self.lemma_extend_label_on_time(before, b, (upto - 1) as i32, base, depth, t);
        }
    }

    /// So do the time steps for each of the branches with one more label.
    pub proof fn lemma_extend_all_on_time(
        self,
        v: BeamListView,
        branches: Seq<usize>,
        base: int,
        depth: nat,
        t: nat,
    )
        requires
            zero_absorbs(self),
            self.valid(),
            self.row(base),
            self.grown(v, depth),
            shallow(v, branches, depth),
            self.extend_all(v, branches, base).entries.len() <= usize::MAX,
            on_time(v, t + 1, t),
        ensures
            on_time(self.extend_all(v, branches, base), t + 1, t),
        decreases branches.len(),
    {
        if branches.len() > 0 {
            let before = self.extend_all(v, branches.drop_last(), base);
            let b = branches.last();
            self.lemma_extend_labels_size(before, b, self.num_classes as int, base);
            assert(shallow(v, branches.drop_last(), depth)) by {
                assert forall|k: int| 0 <= k < branches.drop_last().len() implies (
                #[trigger] branches.drop_last()[k]) < v.entries.len() && v.depth(
                    branches.drop_last()[k] as int,
                ) < depth by {
                    assert(branches.drop_last()[k] == branches[k]);
                }
            }
            self.lemma_extend_all_on_time(v, branches.drop_last(), base, depth, t);
            self.lemma_extend_all(v, branches.drop_last(), base, depth);
            assert(b == branches[branches.len() - 1]);
            assert(before.path(b as int) == v.path(b as int));
            if !Setup::pruned(before, b) {
                self.lemma_extend_labels_on_time(
                    before,
                    b,
                    self.num_classes as int,
                    base,
                    depth,
                    t,
                );
            }
        }
    }

    /// A time step keeps the nodes on time, for one time step more.
    pub proof fn lemma_step_on_time(self, v: BeamListView, base: int, depth: nat, t: nat)
        requires
            zero_absorbs(self),
            self.valid(),
            self.row(base),
            self.grown(v, depth),
            self.step(v, base).entries.len() <= usize::MAX,
            on_time(v, t, t),
        ensures
            on_time(self.step(v, base), t + 1, t + 1),
    {
        let branches = v.heap;
        v.lemma_tree_frame(v.clear());
        lemma_grown_keeps(self, v, v.clear(), depth);
        lemma_on_time_same(v, v.clear(), t, t);
        self.lemma_advance(v.clear(), branches, depth);
        self.lemma_advance_on_time(v.clear(), branches, depth, t);
        let moved = Setup::advance(v.clear(), branches);
        lemma_on_time_later(moved, t, t, (t + 1) as nat, t);
        self.lemma_no_extend_all_on_time(moved, branches, base, depth, t);
        self.lemma_no_extend_all(moved, branches, base, depth);
        let stayed = self.no_extend_all(moved, branches, base);
        assert(self.grown(stayed, depth + 1)) by {
            assert forall|k: int| 0 <= k < stayed.entries.len() implies #[trigger] stayed.depth(k)
                <= depth + 1 by {
                assert(stayed.depth(k) <= depth);
            }
        }
        assert(shallow(stayed, branches, depth + 1)) by {
            assert forall|k: int| 0 <= k < branches.len() implies (#[trigger] branches[k])
                < stayed.entries.len() && stayed.depth(branches[k] as int) < depth + 1 by {
                assert(stayed.depth(branches[k] as int) <= depth);
            }
        }
        self.lemma_extend_all_on_time(stayed, branches, base, depth + 1, t);
        lemma_on_time_later(
            self.extend_all(stayed, branches, base),
            (t + 1) as nat,
            t,
            (t + 1) as nat,
            (t + 1) as nat,
        );
    }

    /// After every number of time steps every node of a decode is on time.
    pub proof fn lemma_run_on_time(self, beam_width: usize, start: int, steps: nat)
        requires
            zero_absorbs(self),
            self.valid(),
            0 <= start,
            start + steps * self.num_classes <= self.predictions.len(),
            beam_width >= 1,
            self.run(self.start(beam_width), start, steps).entries.len() <= usize::MAX,
        ensures
            on_time(self.run(self.start(beam_width), start, steps), steps, steps),
        decreases steps,
    {
        let root = self.start(beam_width);
        if steps == 0 {
            assert(root.path(0) =~= Seq::<i32>::empty());
            assert(node_on_time(root, 0, 0, 0));
        } else {
            let before = self.run(root, start, (steps - 1) as nat);
            let nc = self.num_classes as int;
            let base = start + (steps - 1) * nc;
            assert(0 <= (steps - 1) * nc && (steps - 1) * nc + nc == steps * nc) by (nonlinear_arith)
                requires
                    steps >= 1,
                    nc >= 1,
            ;
            self.lemma_step_size(before, base);
            self.lemma_run_on_time(beam_width, start, (steps - 1) as nat);
            self.lemma_run(beam_width, start, (steps - 1) as nat);
            self.lemma_step_on_time(before, base, (steps - 1) as nat, (steps - 1) as nat);
        }
    }

    /// The best of the first nodes of a beam is one of them.
    pub proof fn lemma_best_is_of_the_beam(v: BeamListView, upto: int)
        requires
            1 <= upto <= v.heap.len(),
        ensures
            exists|j: int| 0 <= j < upto && v.heap[j] == Setup::best(v, upto),
        decreases upto,
    {
        if upto <= 1 {
            assert(v.heap[0] == Setup::best(v, upto));
        } else {
            Setup::lemma_best_is_of_the_beam(v, upto - 1);
            let before = Setup::best(v, upto - 1);
            if v.key(v.heap[upto - 1]) > v.key(before) {
                assert(v.heap[upto - 1] == Setup::best(v, upto));
            } else {
                let j = choose|j: int| 0 <= j < upto - 1 && v.heap[j] == before;
                assert(v.heap[j] == Setup::best(v, upto));
            }
        }
    }

    /// Repeats cost time steps: where a product with probability zero is
    /// zero, the labels that a decode of `steps` time steps gives, and one
    /// for each label among them that repeats the one before it, are
    /// together at most `steps`.
    pub proof fn lemma_repeats_cost_time_steps(self, beam_width: usize, start: int, steps: nat)
        requires
            zero_absorbs(self),
            self.valid(),
            0 <= start,
            start + steps * self.num_classes <= self.predictions.len(),
            beam_width >= 1,
            self.run(self.start(beam_width), start, steps).entries.len() <= usize::MAX,
        ensures
            self.decode_item(beam_width, start, steps).len() + repeats(
                self.decode_item(beam_width, start, steps),
            ) <= steps,
    {
        let v = self.run(self.start(beam_width), start, steps);
        self.lemma_run(beam_width, start, steps);
        self.lemma_run_in_order(beam_width, start, steps);
        self.lemma_run_on_time(beam_width, start, steps);
        if v.heap.len() > 0 {
            let best = Setup::best(v, v.heap.len() as int);
            Setup::lemma_best_is_of_the_beam(v, v.heap.len() as int);
            let j = choose|j: int| 0 <= j < v.heap.len() && v.heap[j] == best;
            assert(v.entries[v.heap[j] as int].new_p.total.spec_is_possible());
            assert(node_on_time(v, best as int, steps, steps));
        } else {
            assert(self.decode_item(beam_width, start, steps) =~= Seq::<i32>::empty());
        }
    }

    /// So for every item of a batch: its labels and repeats are together at
    /// most the time steps of the item.
    pub proof fn lemma_repeats_cost_time_steps_of_items(
        self,
        beam_width: usize,
        lengths: Seq<i32>,
        i: int,
    )
        requires
            zero_absorbs(self),
            self.valid(),
            beam_width >= 1,
            0 <= i < lengths.len(),
            forall|k: int| 0 <= k < lengths.len() ==> lengths[k] >= 0,
            self.predictions.len() >= lengths.len() * greatest(lengths) * self.num_classes,
            self.arenas_fit(beam_width, lengths),
        ensures
            self.decode_items(beam_width, lengths)[i].len() + repeats(
                self.decode_items(beam_width, lengths)[i],
            ) <= lengths[i],
    {
        let nc = self.num_classes as int;
        let g = greatest(lengths);
        let n = lengths.len() as int;
        let start = i * g * nc;
        let steps = lengths[i] as nat;
        lemma_greatest(lengths, i);
        assert(0 <= start && start + steps * nc <= n * g * nc) by (nonlinear_arith)
            requires
                0 <= i < n,
                0 <= steps <= g,
                nc >= 1,
                start == i * g * nc,
        ;
        let state = self.run(self.start(beam_width), start, steps);
        assert(state.entries.len() <= usize::MAX);
        self.lemma_repeats_cost_time_steps(beam_width, start, steps);
    }
}

} // verus!
