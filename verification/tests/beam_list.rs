use ctc_beam_decoder::beam_list::{BeamEntry, BeamList, BeamProbability, NO_LABEL, NO_PARENT};
use ctc_beam_decoder::log_space::{LogSpace, Scalar};

fn log(x: f32) -> LogSpace {
    LogSpace(Scalar::from_bits(x.to_bits()))
}

fn with_total(x: f32) -> BeamProbability {
    BeamProbability { label: log(x), blank: LogSpace::neg_infinity(), total: log(x) }
}

/// A list with a root and `n` children of it, the child of label `k` with
/// total `totals[k]`, none of them in the beam.
fn star(capacity: usize, totals: &[f32]) -> BeamList {
    let mut list = BeamList::new(capacity);
    list.add_root(0);
    list.clear();
    for (k, t) in totals.iter().enumerate() {
        let c = list.get_child(0, k as i32 + 1);
        list.set_new_p(c, with_total(*t));
    }
    list
}

#[test]
fn default_probability_is_zero_probability() {
    let p = BeamProbability::default();
    assert_eq!(p.label, LogSpace::neg_infinity());
    assert_eq!(p.blank, LogSpace::neg_infinity());
    assert_eq!(p.total, LogSpace::neg_infinity());
}

#[test]
fn default_entry_is_inactive_and_unlinked() {
    let e = BeamEntry::default();
    assert!(!e.is_active());
    assert_eq!(e.label, NO_LABEL);
    assert_eq!(e.parent, NO_PARENT);
    assert_eq!(e.label, i32::MAX);
    assert_eq!(e.parent, usize::MAX);
    assert!(e.children.is_empty());
    assert_eq!(e.old_p, BeamProbability::default());
}

#[test]
fn new_list_is_empty() {
    let list = BeamList::new(3);
    assert_eq!(list.len(), 0);
    assert_eq!(list.size(), 0);
    assert_eq!(list.capacity(), 3);
    assert_eq!(list.clone_heap(), Vec::<usize>::new());
}

#[test]
fn root_is_certainly_blank() {
    let mut list = BeamList::new(2);
    list.add_root(5);
    assert_eq!(list.size(), 1);
    assert_eq!(list.clone_heap(), vec![0]);
    assert_eq!(list.min(), 0);
    let root = list.entry(0);
    assert_eq!(root.label, 5);
    assert_eq!(root.parent, NO_PARENT);
    assert_eq!(root.new_p.label, LogSpace::neg_infinity());
    assert_eq!(root.new_p.blank, LogSpace::zero());
    assert_eq!(root.new_p.total, LogSpace::zero());
    assert_eq!(root.old_p, BeamProbability::default());
    assert!(root.is_active());
    assert_eq!(list.get_seq(0), Vec::<i32>::new());
}

#[test]
fn child_is_made_once() {
    let mut list = BeamList::new(2);
    list.add_root(0);
    let a = list.get_child(0, 7);
    assert_eq!(a, 1);
    assert_eq!(list.size(), 2);
    let again = list.get_child(0, 7);
    assert_eq!(again, a);
    assert_eq!(list.size(), 2);
    let b = list.get_child(0, 8);
    assert_eq!(b, 2);
    let deep = list.get_child(a, 7);
    assert_eq!(deep, 3);
    assert_eq!(list.size(), 4);
    let child = list.entry(a);
    assert_eq!(child.label, 7);
    assert_eq!(child.parent, 0);
    assert!(!child.is_active());
    assert_eq!(child.children.get(&7), Some(&deep));
    assert_eq!(list.entry(0).children.len(), 2);
    // The beam is not touched.
    assert_eq!(list.clone_heap(), vec![0]);
}

#[test]
fn parents_come_before_children() {
    let mut list = BeamList::new(2);
    list.add_root(0);
    let a = list.get_child(0, 1);
    let b = list.get_child(a, 2);
    let c = list.get_child(b, 1);
    let d = list.get_child(0, 2);
    for idx in [a, b, c, d] {
        assert!(list.entry(idx).parent < idx);
        assert!(list.entry(idx).parent < list.size());
    }
    assert_eq!(list.entry(0).parent, NO_PARENT);
}

#[test]
fn sequence_is_the_path_from_the_root() {
    let mut list = BeamList::new(2);
    list.add_root(0);
    let a = list.get_child(0, 3);
    let b = list.get_child(a, 1);
    let c = list.get_child(b, 3);
    let d = list.get_child(a, 2);
    assert_eq!(list.get_seq(a), vec![3]);
    assert_eq!(list.get_seq(b), vec![3, 1]);
    assert_eq!(list.get_seq(c), vec![3, 1, 3]);
    assert_eq!(list.get_seq(d), vec![3, 2]);
}

#[test]
fn deactivate_resets_the_current_probabilities_only() {
    let mut list = BeamList::new(2);
    list.add_root(0);
    let a = list.get_child(0, 1);
    let b = list.get_child(a, 2);
    list.set_old_p(a, with_total(-0.5));
    list.set_new_p(a, with_total(-1.5));
    assert!(list.entry(a).is_active());
    list.deactivate(a);
    let e = list.entry(a);
    assert!(!e.is_active());
    assert_eq!(e.new_p, BeamProbability::default());
    assert_eq!(e.old_p, with_total(-0.5));
    assert_eq!(e.label, 1);
    assert_eq!(e.parent, 0);
    assert_eq!(list.get_child(a, 2), b);
}

#[test]
fn push_below_capacity_evicts_nothing() {
    let mut list = star(3, &[-3.0, -1.0, -2.0]);
    assert_eq!(list.push(1), None);
    assert_eq!(list.push(2), None);
    assert_eq!(list.push(3), None);
    assert_eq!(list.len(), 3);
    assert_eq!(list.min(), 1);
    let mut kept = list.clone_heap();
    kept.sort();
    assert_eq!(kept, vec![1, 2, 3]);
}

#[test]
fn push_moves_the_least_to_the_top() {
    let mut list = star(4, &[-1.0, -2.0, -3.0, -4.0]);
    assert_eq!(list.push(1), None);
    assert_eq!(list.clone_heap(), vec![1]);
    assert_eq!(list.push(2), None);
    assert_eq!(list.clone_heap(), vec![2, 1]);
    assert_eq!(list.push(3), None);
    assert_eq!(list.clone_heap(), vec![3, 1, 2]);
    assert_eq!(list.push(4), None);
    assert_eq!(list.clone_heap(), vec![4, 3, 2, 1]);
    assert_eq!(list.min(), 4);
}

#[test]
fn push_at_capacity_evicts_the_least() {
    let mut list = star(3, &[-3.0, -1.0, -2.0, -0.5, -9.0]);
    list.push(1);
    list.push(2);
    list.push(3);
    assert_eq!(list.push(4), Some(1));
    assert_eq!(list.len(), 3);
    assert_eq!(list.min(), 3);
    // The node at the top leaves, whatever comes.
    assert_eq!(list.push(5), Some(3));
    assert_eq!(list.len(), 3);
    assert_eq!(list.min(), 5);
    let mut kept = list.clone_heap();
    kept.sort();
    assert_eq!(kept, vec![2, 4, 5]);
}

#[test]
fn beam_never_exceeds_its_capacity() {
    let totals: Vec<f32> = (0..20).map(|k| -(((k * 7) % 20) as f32)).collect();
    let mut list = star(5, &totals);
    for idx in 1..=20usize {
        let removed = list.push(idx);
        assert!(list.len() <= 5);
        assert_eq!(removed.is_some(), idx > 5);
    }
    assert_eq!(list.len(), 5);
}

#[test]
fn beam_keeps_the_greatest_of_what_is_admitted() {
    let totals: Vec<f32> = (0..20).map(|k| -(((k * 7) % 20) as f32)).collect();
    let mut list = star(5, &totals);
    for idx in 1..=20usize {
        // A node is offered only if there is room or it is above the top.
        let total = list.entry(idx).new_p.total;
        if list.len() < list.capacity() || total > list.entry(list.min()).new_p.total {
            list.push(idx);
        }
    }
    // The five greatest totals stay: 0, -1, -2, -3, -4.
    let mut kept: Vec<i32> = list
        .clone_heap()
        .iter()
        .map(|i| -f32::from_bits(list.entry(*i).new_p.total.0.to_bits()) as i32)
        .collect();
    kept.sort();
    assert_eq!(kept, vec![0, 1, 2, 3, 4]);
    assert_eq!(f32::from_bits(list.entry(list.min()).new_p.total.0.to_bits()), -4.0);
}

#[test]
fn clear_empties_the_beam_and_keeps_the_arena() {
    let mut list = star(3, &[-3.0, -1.0]);
    list.push(1);
    list.push(2);
    list.clear();
    assert_eq!(list.len(), 0);
    assert_eq!(list.size(), 3);
    assert_eq!(list.get_seq(2), vec![2]);
}

#[test]
fn entries_compare_by_their_current_total() {
    let list = star(3, &[-3.0, -1.0, -3.0]);
    assert!(list.entry(1) < list.entry(2));
    assert!(list.entry(2) > list.entry(3));
    assert!(list.entry(1) == list.entry(3));
    assert!(list.entry(1) <= list.entry(3));
    assert!(list.entry(1) != list.entry(2));
    // The root is certain, and a fresh entry has zero probability.
    assert!(list.entry(0) > list.entry(2));
    assert!(BeamEntry::default() < *list.entry(1));
}
