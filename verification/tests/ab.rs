use mouse_testing::ab::{csv_escape, paired_indices, Condition, Plan, Slot};

fn plan(pairs: usize) -> Plan {
    Plan {
        label_a: "800 Hz".into(),
        label_b: "1000 Hz".into(),
        pairs,
        ..Default::default()
    }
}

#[test]
fn trials_are_interleaved_not_batched() {
    let p = plan(8);
    let seq: Vec<Condition> = (0..p.total_trials()).map(|i| p.condition_at(i)).collect();
    let mut run_len = 1;
    for w in seq.windows(2) {
        run_len = if w[0] == w[1] { run_len + 1 } else { 1 };
        assert!(run_len <= 2, "{run_len} trials of the same setting in a row: {seq:?}");
    }
    let a_count = seq.iter().filter(|c| **c == Condition::A).count();
    assert_eq!(a_count, seq.len() / 2, "the two settings must get equal trials");
}

#[test]
fn each_pair_contains_one_of_each_condition() {
    let p = plan(8);
    for pair in 0..p.pairs {
        let first = p.condition_at(pair * 2);
        let second = p.condition_at(pair * 2 + 1);
        assert_ne!(first, second, "pair {pair} does not contain both conditions");
    }
}

#[test]
fn within_pair_order_is_counterbalanced() {
    let p = plan(8);
    let a_first = (0..p.pairs).filter(|&pair| p.condition_at(pair * 2) == Condition::A).count();
    assert_eq!(
        a_first,
        p.pairs / 2,
        "A went first in {a_first} of {} pairs; the order is not balanced",
        p.pairs
    );
}

#[test]
fn a_plan_needs_two_distinct_labels_and_enough_pairs() {
    let mut p = plan(8);
    assert!(p.ready());
    p.label_b = p.label_a.clone();
    assert!(!p.ready(), "identical labels should not be runnable");
    p.label_b = "1000 Hz".into();
    p.pairs = 2;
    assert!(!p.ready(), "two pairs cannot support a conclusion");
}

#[test]
fn pairing_matches_values_by_pair_not_by_position() {
    let p = plan(3);
    let vals = [1.0f64, 2.0, 30.0, 20.0, 5.0, 6.0];
    let slots: Vec<Slot> = (0..vals.len())
        .map(|i| Slot { pair: i / 2, condition: p.condition_at(i) })
        .collect();
    let pairs = paired_indices(&slots);
    let a: Vec<f64> = pairs.iter().map(|&(ia, _)| vals[ia]).collect();
    let b: Vec<f64> = pairs.iter().map(|&(_, ib)| vals[ib]).collect();
    assert_eq!(a, vec![1.0, 20.0, 5.0]);
    assert_eq!(b, vec![2.0, 30.0, 6.0]);
}

#[test]
fn labels_with_white_space_around_them_are_compared_trimmed() {
    let mut p = plan(3);
    p.label_b = "  800 Hz ".into();
    assert!(!p.ready());
    p.label_b = "   ".into();
    assert!(!p.ready());
}

#[test]
fn a_label_containing_a_comma_is_quoted_for_the_export() {
    assert_eq!(csv_escape("800 Hz, low"), "\"800 Hz, low\"");
    assert_eq!(csv_escape("say \"hi\""), "\"say \"\"hi\"\"\"");
    assert_eq!(csv_escape("two\nlines"), "\"two\nlines\"");
    assert_eq!(csv_escape("1000 Hz"), "1000 Hz");
    assert_eq!(csv_escape(""), "");
}
