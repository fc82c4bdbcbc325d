use afisp_rs::sirus::{
    draw_sample_indices, mask_for_rule, resolve_mtry, sample_feature_subset, validate_inputs,
};
use afisp_rs::{Literal, SplitMix64};

#[test]
fn splitmix_reference_outputs() {
    let mut rng = SplitMix64::new(0);
    assert_eq!(rng.next_u64(), 0xe220a8397b1dcdaf);
    assert_eq!(rng.next_u64(), 0x6e789e6aa1b965f4);
    assert_eq!(rng.next_u64(), 0x06c45d188009454f);
}

#[test]
fn splitmix_same_seed_same_stream() {
    let mut a = SplitMix64::new(7);
    let mut b = SplitMix64::new(7);
    for _ in 0..20 {
        assert_eq!(a.next_u64(), b.next_u64());
    }
    let mut c = SplitMix64::new(7);
    assert_eq!(c.next_u64(), 7191089600892374487);
}

#[test]
fn gen_index_reduces_modulo() {
    let mut rng = SplitMix64::new(7);
    let draws: Vec<usize> = (0..3).map(|_| rng.gen_index(10)).collect();
    assert_eq!(draws, vec![7, 4, 6]);
    let mut one = SplitMix64::new(123);
    assert_eq!(one.gen_index(1), 0);
}

#[test]
fn feature_subset_takes_all_without_drawing() {
    let mut rng = SplitMix64::new(7);
    assert_eq!(sample_feature_subset(&[4, 2, 9], 5, &mut rng), vec![4, 2, 9]);
    assert_eq!(sample_feature_subset(&[4, 2, 9], 3, &mut rng), vec![4, 2, 9]);
    // the generator was not advanced
    assert_eq!(rng.next_u64(), 7191089600892374487);
}

#[test]
fn feature_subset_partial_shuffle() {
    let mut rng = SplitMix64::new(7);
    let picked = sample_feature_subset(&[10, 11, 12, 13, 14], 2, &mut rng);
    assert_eq!(picked, vec![12, 11]);
    let mut rng = SplitMix64::new(99);
    let picked = sample_feature_subset(&[0, 1, 2, 3, 4, 5, 6, 7], 4, &mut rng);
    assert_eq!(picked.len(), 4);
    for (i, a) in picked.iter().enumerate() {
        assert!(*a < 8);
        for b in picked.iter().skip(i + 1) {
            assert_ne!(a, b);
        }
    }
}

#[test]
fn sample_without_replacement_is_distinct() {
    let mut rng = SplitMix64::new(7);
    assert_eq!(draw_sample_indices(10, 3, false, &mut rng), vec![7, 0, 4]);
    let mut rng = SplitMix64::new(42);
    let mut all = draw_sample_indices(6, 6, false, &mut rng);
    assert_eq!(all, vec![1, 2, 4, 3, 0, 5]);
    all.sort();
    assert_eq!(all, vec![0, 1, 2, 3, 4, 5]);
}

#[test]
fn sample_with_replacement_draws_indices() {
    let mut rng = SplitMix64::new(7);
    assert_eq!(draw_sample_indices(10, 3, true, &mut rng), vec![7, 4, 6]);
    let mut rng = SplitMix64::new(1);
    assert!(draw_sample_indices(0, 0, true, &mut rng).is_empty());
}

#[test]
fn mtry_explicit_and_default() {
    assert_eq!(resolve_mtry(Some(3), 10), 3);
    assert_eq!(resolve_mtry(Some(30), 10), 10);
    assert_eq!(resolve_mtry(Some(0), 100), 10);
    assert_eq!(resolve_mtry(None, 0), 0);
    assert_eq!(resolve_mtry(None, 1), 1);
    assert_eq!(resolve_mtry(None, 2), 1);
    assert_eq!(resolve_mtry(None, 3), 2);
    assert_eq!(resolve_mtry(None, 12), 3);
    assert_eq!(resolve_mtry(None, 13), 4);
    assert_eq!(resolve_mtry(None, 56), 7);
    assert_eq!(resolve_mtry(None, 57), 8);
    assert_eq!(resolve_mtry(None, 1000), 32);
}

#[test]
fn mtry_default_matches_float_rounding() {
    for p in 0usize..5000 {
        let expected = ((p as f64).sqrt().round() as usize).max(1).min(p);
        assert_eq!(resolve_mtry(None, p), expected, "p = {}", p);
    }
}

fn names(k: usize) -> Vec<String> {
    (0..k).map(|i| format!("f{}", i)).collect()
}

#[test]
fn validate_inputs_reports_each_problem() {
    let ok = vec![vec![0u8, 1], vec![1, 1]];
    assert_eq!(validate_inputs(&ok, &[0, 1], &names(2)), Ok(()));
    assert_eq!(
        validate_inputs(&[], &[], &names(0)),
        Err("x_binary must be non-empty".to_string())
    );
    assert_eq!(
        validate_inputs(&[vec![], vec![]], &[0, 1], &names(0)),
        Err("x_binary must have at least one feature".to_string())
    );
    assert_eq!(
        validate_inputs(&[vec![0u8, 1], vec![1]], &[0, 1], &names(2)),
        Err("x_binary must be rectangular".to_string())
    );
    assert_eq!(
        validate_inputs(&ok, &[0], &names(2)),
        Err("subset_labels must have the same row count as x_binary".to_string())
    );
    assert_eq!(
        validate_inputs(&ok, &[0, 1], &names(3)),
        Err("feature_names length must match x_binary column count".to_string())
    );
}

#[test]
fn mask_for_rule_selects_matching_rows() {
    let x = vec![vec![1u8, 0, 1], vec![1, 1, 0], vec![0, 0, 1], vec![1, 0, 0], vec![2, 0, 1]];
    let rule = [
        Literal { feature_idx: 0, positive: true },
        Literal { feature_idx: 1, positive: false },
    ];
    let m = mask_for_rule(&x, &rule);
    assert_eq!(m.to_bools(), vec![true, false, false, true, true]);
    assert_eq!(m.count_ones(), 3);
    let reordered = [rule[1].clone(), rule[0].clone()];
    assert_eq!(mask_for_rule(&x, &reordered).to_bools(), m.to_bools());
    assert_eq!(mask_for_rule(&x, &[]).count_ones(), 5);
}

#[test]
fn mask_for_rule_stops_at_first_failing_literal() {
    // the second row is too short for the second literal, but fails the first
    let x = vec![vec![1u8, 1], vec![0u8]];
    let rule = [
        Literal { feature_idx: 0, positive: true },
        Literal { feature_idx: 1, positive: true },
    ];
    assert_eq!(mask_for_rule(&x, &rule).to_bools(), vec![true, false]);
}
