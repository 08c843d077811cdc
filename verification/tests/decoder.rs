use ctc_beam_decoder::arith::Arithmetic;
use ctc_beam_decoder::beam_list::BeamEntry;
use ctc_beam_decoder::decoder::{
    decode, decode_internal, decode_with_lm, input_is_valid, DecoderOutput, LanguageModel,
};
use ctc_beam_decoder::log_space::{LogSpace, Scalar};

fn num(s: Scalar) -> f32 {
    f32::from_bits(s.to_bits())
}

fn scalar(x: f32) -> Scalar {
    Scalar::from_bits(x.to_bits())
}

fn log_add_exp(a: f32, b: f32) -> f32 {
    if a == f32::NEG_INFINITY {
        return b;
    } else if b == f32::NEG_INFINITY {
        return a;
    }
    if a > b {
        a + f32::ln_1p(f32::exp(b - a))
    } else {
        b + f32::ln_1p(f32::exp(a - b))
    }
}

fn arithmetic() -> Arithmetic<
    impl Fn(Scalar, Scalar) -> Scalar,
    impl Fn(Scalar, Scalar) -> Scalar,
    impl Fn(Scalar, Scalar) -> Scalar,
> {
    Arithmetic {
        log_add_exp: |a: Scalar, b: Scalar| scalar(log_add_exp(num(a), num(b))),
        plus: |a: Scalar, b: Scalar| scalar(num(a) + num(b)),
        scaled_ln: |w: Scalar, p: Scalar| scalar(num(w) * f32::ln(num(p))),
    }
}

/// The scores of a decode are the logs of the class probabilities.
fn logs(probabilities: &[f32]) -> Vec<Scalar> {
    probabilities.iter().map(|p| scalar(p.ln())).collect()
}

fn run(probabilities: &[f32], lengths: &[i32], num_classes: i32, beam_width: i32, blank_idx: i32) -> DecoderOutput {
    let predictions = logs(probabilities);
    assert!(input_is_valid(&predictions, lengths, num_classes, beam_width, blank_idx));
    decode(&predictions, lengths, num_classes, beam_width, blank_idx, &arithmetic())
}

#[test]
fn trivial_single_class() {
    let out = run(&[0.1, 0.9, 0.1, 0.9, 0.1, 0.9], &[3], 2, 1, 0);
    assert_eq!(out.Sequences, vec![1]);
    assert_eq!(out.Lengths, vec![1]);
}

#[test]
fn blank_separated_repeat() {
    let out = run(&[0.1, 0.8, 0.1, 0.8, 0.1, 0.1, 0.1, 0.8, 0.1], &[3], 3, 4, 0);
    assert_eq!(out.Sequences, vec![1, 1]);
    assert_eq!(out.Lengths, vec![2]);
}

#[test]
fn blank_only() {
    let out = run(&[0.9, 0.1, 0.9, 0.1], &[2], 2, 4, 0);
    assert_eq!(out.Sequences, Vec::<i32>::new());
    assert_eq!(out.Lengths, vec![0]);
}

/// The labels that an alignment stands for: repeats merged, blanks removed.
fn collapse(alignment: &[usize], blank: usize) -> Vec<i32> {
    let mut out = Vec::new();
    let mut last = usize::MAX;
    for &c in alignment {
        if c != last && c != blank {
            out.push(c as i32);
        }
        last = c;
    }
    out
}

/// The label string of greatest probability over two time steps, summed over
/// its alignments.
fn brute_force_two_steps(p: &[f32], classes: usize, blank: usize) -> Vec<i32> {
    let mut totals: Vec<(Vec<i32>, f64)> = Vec::new();
    for first in 0..classes {
        for second in 0..classes {
            let labels = collapse(&[first, second], blank);
            let weight = (p[first] as f64) * (p[classes + second] as f64);
            match totals.iter_mut().find(|(l, _)| *l == labels) {
                Some(entry) => entry.1 += weight,
                None => totals.push((labels, weight)),
            }
        }
    }
    let mut best = 0;
    for i in 1..totals.len() {
        if totals[i].1 > totals[best].1 {
            best = i;
        }
    }
    totals[best].0.clone()
}

fn rows_of_probabilities(seed: u32, rows: usize, classes: usize) -> Vec<f32> {
    let mut state = seed;
    let mut out = Vec::new();
    for _ in 0..rows {
        let mut row = Vec::new();
        let mut sum = 0.0f32;
        for _ in 0..classes {
            state = state.wrapping_mul(1664525).wrapping_add(1013904223);
            let x = 1.0 + ((state >> 8) % 1000) as f32;
            sum += x;
            row.push(x);
        }
        for x in row {
            out.push(x / sum);
        }
    }
    out
}

#[test]
fn wide_beam_agrees_with_brute_force() {
    for seed in 1..40u32 {
        let p = rows_of_probabilities(seed, 2, 4);
        let expected = brute_force_two_steps(&p, 4, 0);
        let out = run(&p, &[2], 4, 16, 0);
        assert_eq!(out.Lengths, vec![expected.len() as i32], "seed {}", seed);
        assert_eq!(out.Sequences, expected, "seed {}", seed);
    }
}

#[test]
fn batching_independence() {
    let a = [0.1f32, 0.8, 0.1, 0.8, 0.1, 0.1, 0.1, 0.8, 0.1];
    let b = [0.2f32, 0.1, 0.7, 0.6, 0.3, 0.1];
    // The block of the second item has three rows too; the last is not read.
    let mut both = a.to_vec();
    both.extend_from_slice(&b);
    both.extend_from_slice(&[0.3, 0.3, 0.4]);
    let together = run(&both, &[3, 2], 3, 4, 0);
    let first = run(&a, &[3], 3, 4, 0);
    let second = run(&b, &[2], 3, 4, 0);
    assert_eq!(first.Sequences, vec![1, 1]);
    assert_eq!(second.Sequences, vec![2]);
    assert_eq!(together.Lengths, vec![first.Lengths[0], second.Lengths[0]]);
    assert_eq!(together.Lengths, vec![2, 1]);
    assert_eq!(together.Sequences, vec![1, 1, 2, 0]);
}

fn run_with_lm(
    probabilities: &[f32],
    lengths: &[i32],
    num_classes: i32,
    beam_width: i32,
    blank_idx: i32,
    first: &[f32],
    second: &[f32],
    weight: f32,
    min_prob: f32,
) -> DecoderOutput {
    let predictions = logs(probabilities);
    let first: Vec<Scalar> = first.iter().map(|p| scalar(*p)).collect();
    let second: Vec<Scalar> = second.iter().map(|p| scalar(*p)).collect();
    assert!(input_is_valid(&predictions, lengths, num_classes, beam_width, blank_idx));
    decode_with_lm(
        &predictions,
        lengths,
        num_classes,
        beam_width,
        blank_idx,
        &first,
        &second,
        scalar(weight),
        scalar(min_prob),
        &arithmetic(),
    )
}

#[test]
fn lm_influence() {
    // Equal scores for the labels 1 and 2; the model favours 2 as a first label.
    let p = [0.2f32, 0.4, 0.4];
    let first = [0.1f32, 0.9];
    let second = [0.25f32; 4];
    let without = run_with_lm(&p, &[1], 3, 4, 0, &first, &second, 0.0, 1e-6);
    assert_eq!(without.Sequences, vec![1]);
    let with = run_with_lm(&p, &[1], 3, 4, 0, &first, &second, 1.0, 1e-6);
    assert_eq!(with.Sequences, vec![2]);
    assert_eq!(with.Lengths, vec![1]);
}

#[test]
fn lm_influence_crosses_its_threshold() {
    // ln(0.5) + w ln(0.1) against ln(0.3) + w ln(0.9): equal at w = 0.2325.
    let p = [0.2f32, 0.5, 0.3];
    let first = [0.1f32, 0.9];
    let second = [0.25f32; 4];
    let below = run_with_lm(&p, &[1], 3, 4, 0, &first, &second, 0.22, 1e-6);
    assert_eq!(below.Sequences, vec![1]);
    let above = run_with_lm(&p, &[1], 3, 4, 0, &first, &second, 0.25, 1e-6);
    assert_eq!(above.Sequences, vec![2]);
}

#[test]
fn lm_of_weight_zero_changes_nothing() {
    for seed in 1..20u32 {
        let p = rows_of_probabilities(seed, 4, 3);
        let first = [0.3f32, 0.7];
        let second = [0.9f32, 0.1, 0.2, 0.8];
        let plain = run(&p, &[4], 3, 3, 0);
        let weighted = run_with_lm(&p, &[4], 3, 3, 0, &first, &second, 0.0, 1e-9);
        assert_eq!(plain.Sequences, weighted.Sequences);
        assert_eq!(plain.Lengths, weighted.Lengths);
    }
}

#[test]
fn second_label_follows_the_model() {
    // Label 3 first, then equal scores for the labels 1 and 2.
    let p = [0.01f32, 0.01, 0.01, 0.97, 0.01, 0.49, 0.49, 0.01];
    let first = [0.3f32, 0.3, 0.4];
    // Three labels, three rows of three: the row of label 3 starts at 2 * 3.
    let mut second = [0.5f32; 9];
    second[6] = 0.1;
    second[7] = 0.9;
    let out = run_with_lm(&p, &[2], 4, 8, 0, &first, &second, 1.0, 1e-6);
    assert_eq!(out.Sequences, vec![3, 2]);
    second[6] = 0.9;
    second[7] = 0.1;
    let out = run_with_lm(&p, &[2], 4, 8, 0, &first, &second, 1.0, 1e-6);
    assert_eq!(out.Sequences, vec![3, 1]);
}

#[test]
fn pair_table_of_four_for_three_classes() {
    // Two labels, two rows of two. Label 1 is likely first and label 2 second.
    let p = [0.1f32, 0.6, 0.3, 0.05, 0.05, 0.9];
    let first = [0.5f32, 0.5];
    let flat = [0.5f32, 0.5, 0.5, 0.5];
    let out = run_with_lm(&p, &[2], 3, 4, 0, &first, &flat, 4.0, 1e-6);
    assert_eq!(out.Sequences, vec![2]);
    // After 1 the model favours 2: the second entry of the first row.
    let after_one = [0.001f32, 0.999, 0.5, 0.5];
    let out = run_with_lm(&p, &[2], 3, 4, 0, &first, &after_one, 4.0, 1e-6);
    assert_eq!(out.Sequences, vec![1, 2]);
    // After 2 the model favours 1: the first entry of the second row.
    let p = [0.1f32, 0.3, 0.6, 0.05, 0.9, 0.05];
    let after_two = [0.5f32, 0.5, 0.999, 0.001];
    let out = run_with_lm(&p, &[2], 3, 4, 0, &first, &after_two, 4.0, 1e-6);
    assert_eq!(out.Sequences, vec![2, 1]);
    let after_two = [0.5f32, 0.5, 0.001, 0.999];
    let out = run_with_lm(&p, &[2], 3, 4, 0, &first, &after_two, 4.0, 1e-6);
    assert_eq!(out.Sequences, vec![1]);
}

#[test]
fn determinism() {
    let p = rows_of_probabilities(7, 5, 4);
    let a = run(&p, &[5], 4, 3, 1);
    let b = run(&p, &[5], 4, 3, 1);
    assert_eq!(a.Sequences, b.Sequences);
    assert_eq!(a.Lengths, b.Lengths);
}

#[test]
fn empty_item_gives_empty_sequence() {
    let out = run(&[], &[0], 3, 2, 0);
    assert_eq!(out.Sequences, Vec::<i32>::new());
    assert_eq!(out.Lengths, vec![0]);
}

#[test]
fn empty_batch_gives_empty_output() {
    let out = run(&[], &[], 3, 2, 0);
    assert_eq!(out.Sequences, Vec::<i32>::new());
    assert_eq!(out.Lengths, Vec::<i32>::new());
}

#[test]
fn no_active_candidate_gives_empty_sequence() {
    // Probability zero for every class: nothing stays in the beam.
    let out = run(&[0.0, 0.0, 0.0], &[1], 3, 2, 0);
    assert_eq!(out.Sequences, Vec::<i32>::new());
    assert_eq!(out.Lengths, vec![0]);
}

#[test]
fn rows_are_padded_with_zeros() {
    let long = [0.1f32, 0.8, 0.1, 0.8, 0.1, 0.1, 0.1, 0.1, 0.8];
    let short = [0.9f32, 0.05, 0.05, 0.9, 0.05, 0.05, 0.9, 0.05, 0.05];
    let mut both = short.to_vec();
    both.extend_from_slice(&long);
    let out = run(&both, &[3, 3], 3, 4, 0);
    assert_eq!(out.Lengths, vec![0, 2]);
    assert_eq!(out.Sequences, vec![0, 0, 1, 2]);
}

#[test]
fn blank_in_the_middle_of_the_classes() {
    let out = run(&[0.1, 0.1, 0.8, 0.1, 0.8, 0.1, 0.8, 0.1, 0.1], &[3], 3, 4, 1);
    assert_eq!(out.Sequences, vec![2, 0]);
    assert_eq!(out.Lengths, vec![2]);
}

#[test]
fn decode_internal_without_model_is_decode() {
    let p = rows_of_probabilities(3, 4, 3);
    let predictions = logs(&p);
    let a = decode_internal(&predictions, &[4], 3, 2, 0, None, &arithmetic());
    let b = decode(&predictions, &[4], 3, 2, 0, &arithmetic());
    assert_eq!(a.Sequences, b.Sequences);
    assert_eq!(a.Lengths, b.Lengths);
}

#[test]
fn input_validity() {
    let predictions = logs(&[0.5; 12]);
    assert!(input_is_valid(&predictions, &[2, 1], 3, 1, 0));
    assert!(input_is_valid(&predictions, &[2, 2], 3, 1, 2));
    // beam width below one
    assert!(!input_is_valid(&predictions, &[2, 1], 3, 0, 0));
    // no class
    assert!(!input_is_valid(&predictions, &[2, 1], 0, 1, 0));
    // blank outside the classes
    assert!(!input_is_valid(&predictions, &[2, 1], 3, 1, 3));
    assert!(!input_is_valid(&predictions, &[2, 1], 3, 1, -1));
    // negative length
    assert!(!input_is_valid(&predictions, &[2, -1], 3, 1, 0));
    // buffer shorter than two blocks of three rows
    assert!(!input_is_valid(&predictions, &[3, 1], 3, 1, 0));
    assert!(!input_is_valid(&predictions, &[i32::MAX, i32::MAX], i32::MAX, 1, 0));
}

fn entry(label: i32) -> BeamEntry {
    let mut e = BeamEntry::default();
    e.label = label;
    e
}

#[test]
fn language_model_probability() {
    let first: Vec<Scalar> = [0.25f32, 0.75].iter().map(|p| scalar(*p)).collect();
    let second: Vec<Scalar> = [0.11f32, 0.12, 0.13, 0.14].iter().map(|p| scalar(*p)).collect();
    let lm = LanguageModel {
        first_char_probs: &first,
        second_char_probs: &second,
        weight: scalar(2.0),
        min_prob: scalar(0.125),
    };
    let ar = arithmetic();
    // Classes 0, 1, 2 with the blank at 1: label 0 is at place 0, label 2 at place 1.
    let after_root = lm.get_probability(&entry(1), &entry(2), 1, &ar);
    assert_eq!(num(after_root.0), 2.0 * f32::ln(0.75));
    let after_root = lm.get_probability(&entry(1), &entry(0), 1, &ar);
    assert_eq!(num(after_root.0), 2.0 * f32::ln(0.25));
    // After label 2 the row starts at 1 * 2.
    let pair = lm.get_probability(&entry(2), &entry(0), 1, &ar);
    assert_eq!(num(pair.0), 2.0 * f32::ln(0.13));
    let pair = lm.get_probability(&entry(2), &entry(2), 1, &ar);
    assert_eq!(num(pair.0), 2.0 * f32::ln(0.14));
    // Below the floor the floor is taken.
    let floored = lm.get_probability(&entry(0), &entry(0), 1, &ar);
    assert_eq!(num(floored.0), 2.0 * f32::ln(0.125));
    let floored = lm.get_probability(&entry(0), &entry(2), 1, &ar);
    assert_eq!(num(floored.0), 2.0 * f32::ln(0.125));
}

#[test]
fn first_label_probability_with_a_pair_table_of_four() {
    let first: Vec<Scalar> = [0.5f32, 0.25].iter().map(|p| scalar(*p)).collect();
    let second: Vec<Scalar> = [0.1f32, 0.2, 0.3, 0.4].iter().map(|p| scalar(*p)).collect();
    let lm = LanguageModel {
        first_char_probs: &first,
        second_char_probs: &second,
        weight: scalar(2.0),
        min_prob: scalar(1e-6),
    };
    let r = lm.get_probability(&entry(0), &entry(2), 0, &arithmetic());
    assert_eq!(num(r.0), 2.0 * f32::ln(0.25));
    let r = lm.get_probability(&entry(2), &entry(1), 0, &arithmetic());
    assert_eq!(num(r.0), 2.0 * f32::ln(0.3));
}

#[test]
fn probability_of_the_model_is_never_zero() {
    let first: Vec<Scalar> = [0.0f32, 0.5].iter().map(|p| scalar(*p)).collect();
    let second: Vec<Scalar> = Vec::new();
    let lm = LanguageModel {
        first_char_probs: &first,
        second_char_probs: &second,
        weight: scalar(1.0),
        min_prob: scalar(0.01),
    };
    // Only the first table is read, so the second may be empty.
    let r = lm.get_probability(&entry(0), &entry(1), 0, &arithmetic());
    assert_eq!(num(r.0), f32::ln(0.01));
    assert!(r.is_possible());
}

#[test]
fn logsumexp_stability() {
    let ar = arithmetic();
    let pairs = [(-1.0f32, -2.0f32), (0.0, 0.0), (-100.0, -0.5), (3.0, -3.0), (-1e30, -1e-30)];
    for (a, b) in pairs {
        let sum = num(ar.add(LogSpace(scalar(a)), LogSpace(scalar(b))).0);
        assert!(sum >= a.max(b));
        let alone = ar.add(LogSpace(scalar(a)), LogSpace::neg_infinity());
        assert_eq!(num(alone.0), a);
        let alone = ar.add(LogSpace::neg_infinity(), LogSpace(scalar(b)));
        assert_eq!(num(alone.0), b);
    }
    let product = ar.mul(LogSpace(scalar(-1.5)), LogSpace(scalar(-2.25)));
    assert_eq!(num(product.0), -3.75);
    let weighted = ar.weighted_ln(scalar(0.5), scalar(0.25));
    assert_eq!(num(weighted.0), 0.5 * f32::ln(0.25));
}

#[test]
fn language_model_tables_fit() {
    let table: Vec<Scalar> = vec![scalar(0.5); 20];
    let fits = |first: usize, second: usize, classes: i32| {
        let lm = LanguageModel {
            first_char_probs: &table[..first],
            second_char_probs: &table[..second],
            weight: scalar(1.0),
            min_prob: scalar(0.1),
        };
        lm.tables_fit(classes, 0)
    };
    // One class: the blank alone, and nothing is looked up.
    assert!(fits(0, 0, 1));
    // Two classes: one label, one pair.
    assert!(fits(1, 1, 2));
    assert!(!fits(0, 1, 2));
    assert!(!fits(1, 0, 2));
    // Three classes: two labels, four pairs.
    assert!(fits(2, 4, 3));
    assert!(!fits(2, 3, 3));
    assert!(!fits(1, 4, 3));
    // Four classes: three labels, nine pairs.
    assert!(fits(3, 9, 4));
    assert!(!fits(3, 8, 4));
    assert!(!fits(2, 9, 4));
    // A longer first table makes longer rows: the last pair is at 2 * 4 + 2.
    assert!(fits(4, 11, 4));
    assert!(!fits(4, 10, 4));
}

#[test]
fn narrow_beam_on_fixed_scores() {
    let cases: [(u32, &[i32]); 8] = [
        (100, &[0, 1, 4, 0]),
        (101, &[0, 1, 3]),
        (102, &[1, 3, 4, 1]),
        (103, &[1, 0, 1]),
        (104, &[4, 3, 4]),
        (106, &[0, 4, 1, 4]),
        (107, &[3, 0]),
        (108, &[0, 1, 1]),
    ];
    for (seed, expected) in cases {
        let p = rows_of_probabilities(seed, 6, 5);
        let out = run(&p, &[6], 5, 3, 2);
        assert_eq!(out.Sequences, expected.to_vec(), "seed {}", seed);
        assert_eq!(out.Lengths, vec![expected.len() as i32], "seed {}", seed);
    }
}

#[test]
fn narrow_beam_with_model_on_fixed_scores() {
    let cases: [(u32, &[i32]); 6] = [
        (200, &[4, 4]),
        (201, &[4, 1]),
        (202, &[0, 3, 0]),
        (203, &[4, 1]),
        (204, &[4, 1]),
        (205, &[3, 0]),
    ];
    let first = [0.1f32, 0.2, 0.3, 0.4];
    let second: Vec<f32> = (0..16).map(|i| (((i * 37) % 100 + 1) as f32) / 101.0).collect();
    for (seed, expected) in cases {
        let p = rows_of_probabilities(seed, 6, 5);
        let out = run_with_lm(&p, &[6], 5, 3, 2, &first, &second, 0.7, 1e-4);
        assert_eq!(out.Sequences, expected.to_vec(), "seed {}", seed);
    }
}

#[test]
fn sum_with_probability_zero_is_not_asked_of_the_arithmetic() {
    let strict = Arithmetic {
        log_add_exp: |a: Scalar, b: Scalar| {
            assert!(a != Scalar::neg_infinity() && b != Scalar::neg_infinity());
            scalar(log_add_exp(num(a), num(b)))
        },
        plus: |a: Scalar, b: Scalar| scalar(num(a) + num(b)),
        scaled_ln: |w: Scalar, p: Scalar| scalar(num(w) * f32::ln(num(p))),
    };
    let zero = LogSpace::neg_infinity();
    let x = LogSpace(scalar(-1.25));
    assert_eq!(strict.add(zero, x), x);
    assert_eq!(strict.add(x, zero), x);
    assert_eq!(strict.add(zero, zero), zero);
    assert_eq!(num(strict.add(x, x).0), log_add_exp(-1.25, -1.25));
    for seed in 1..10u32 {
        let p = rows_of_probabilities(seed, 5, 4);
        let predictions = logs(&p);
        let out = decode(&predictions, &[5], 4, 3, 0, &strict);
        let plain = run(&p, &[5], 4, 3, 0);
        assert_eq!(out, plain);
    }
}

#[test]
fn repeats_cost_time_steps() {
    for seed in 1..60u32 {
        let steps = 1 + (seed % 4) as i32;
        let p = rows_of_probabilities(seed, steps as usize, 3);
        let out = run(&p, &[steps], 3, 4, 1);
        let labels = &out.Sequences;
        let repeats = labels.windows(2).filter(|w| w[0] == w[1]).count();
        assert!(labels.len() + repeats <= steps as usize, "seed {}", seed);
    }
    // Two equal labels need a blank between them: three time steps.
    let out = run(&[0.01, 0.99, 0.01, 0.99], &[2], 2, 4, 0);
    assert_eq!(out.Sequences, vec![1]);
    let out = run(&[0.01, 0.99, 0.99, 0.01, 0.01, 0.99], &[3], 2, 4, 0);
    assert_eq!(out.Sequences, vec![1, 1]);
}
