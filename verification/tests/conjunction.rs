use afisp_rs::conjunction::{enumerate_conjunctions, ConjunctionCandidate, LiteralMask};
use afisp_rs::{BitMask, Literal};

fn literal_mask(feature_idx: usize, positive: bool, flags: &[bool]) -> LiteralMask {
    let mask = BitMask::from_bool_iter(flags.len(), flags);
    let support = mask.count_ones();
    LiteralMask { literal: Literal { feature_idx, positive }, mask, support }
}

fn example() -> (Vec<LiteralMask>, BitMask) {
    let literals = vec![
        literal_mask(0, true, &[true, true, false, false]),
        literal_mask(1, true, &[true, false, true, false]),
        literal_mask(0, false, &[false, false, true, true]),
    ];
    let subset = BitMask::from_bool_iter(4, &[true, false, true, false]);
    (literals, subset)
}

fn run(min_support: usize, max_depth: usize) -> Vec<ConjunctionCandidate> {
    let (literals, subset) = example();
    let mut prefix = Vec::new();
    let mut out = Vec::new();
    enumerate_conjunctions(&literals, &subset, min_support, max_depth, None, 0, &mut prefix, &mut out);
    assert!(prefix.is_empty());
    out
}

fn summary(c: &ConjunctionCandidate) -> (Vec<(usize, bool)>, Vec<bool>, usize, usize) {
    (
        c.literals.iter().map(|l| (l.feature_idx, l.positive)).collect(),
        c.mask.to_bools(),
        c.support,
        c.positives,
    )
}

#[test]
fn search_reaches_conjunctions_depth_first() {
    let out: Vec<_> = run(1, 2).iter().map(summary).collect();
    assert_eq!(
        out,
        vec![
            (vec![(0, true)], vec![true, true, false, false], 2, 1),
            (vec![(0, true), (1, true)], vec![true, false, false, false], 1, 1),
            (vec![(1, true)], vec![true, false, true, false], 2, 2),
            (vec![(1, true), (0, false)], vec![false, false, true, false], 1, 1),
            (vec![(0, false)], vec![false, false, true, true], 2, 1),
        ]
    );
}

#[test]
fn search_prunes_small_support() {
    let out: Vec<_> = run(2, 2).iter().map(summary).collect();
    assert_eq!(
        out,
        vec![
            (vec![(0, true)], vec![true, true, false, false], 2, 1),
            (vec![(1, true)], vec![true, false, true, false], 2, 2),
            (vec![(0, false)], vec![false, false, true, true], 2, 1),
        ]
    );
    for c in run(2, 3) {
        assert!(c.support >= 2 && c.positives >= 1);
        assert_eq!(c.mask.count_ones(), c.support);
    }
}

#[test]
fn search_depth_one_and_no_positives() {
    assert_eq!(run(1, 1).len(), 3);
    let literals = vec![literal_mask(0, true, &[true, true, false])];
    let subset = BitMask::from_bool_iter(3, &[false, false, true]);
    let mut prefix = Vec::new();
    let mut out = Vec::new();
    enumerate_conjunctions(&literals, &subset, 1, 3, None, 0, &mut prefix, &mut out);
    assert!(out.is_empty());
}
