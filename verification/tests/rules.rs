use afisp_rs::{render_conjunction, sort_literals, Literal};

fn lit(feature_idx: usize, positive: bool) -> Literal {
    Literal { feature_idx, positive }
}

#[test]
fn sort_orders_by_feature_then_negation_first() {
    let mut lits = vec![lit(3, true), lit(1, true), lit(3, false), lit(0, false), lit(1, false)];
    sort_literals(&mut lits);
    assert_eq!(
        lits,
        vec![lit(0, false), lit(1, false), lit(1, true), lit(3, false), lit(3, true)]
    );
}

#[test]
fn sort_gives_one_key_per_rule() {
    let mut a = vec![lit(2, true), lit(0, false), lit(5, true)];
    let mut b = vec![lit(5, true), lit(2, true), lit(0, false)];
    sort_literals(&mut a);
    sort_literals(&mut b);
    assert_eq!(a, b);
    let before = a.clone();
    sort_literals(&mut a);
    assert_eq!(a, before);
}

#[test]
fn sort_keeps_duplicates_and_handles_empty() {
    let mut lits = vec![lit(1, true), lit(0, true), lit(1, true)];
    sort_literals(&mut lits);
    assert_eq!(lits, vec![lit(0, true), lit(1, true), lit(1, true)]);
    let mut none: Vec<Literal> = Vec::new();
    sort_literals(&mut none);
    assert!(none.is_empty());
}

#[test]
fn render_joins_with_and_and_marks_negations() {
    let names = vec!["age".to_string(), "smoker".to_string(), "bmi".to_string()];
    assert_eq!(
        render_conjunction(&names, &[lit(0, true), lit(1, false)]),
        "age & NOT smoker"
    );
    assert_eq!(render_conjunction(&names, &[lit(2, false)]), "NOT bmi");
    assert_eq!(render_conjunction(&names, &[lit(2, true)]), "bmi");
    assert_eq!(render_conjunction(&names, &[]), "");
    assert_eq!(
        render_conjunction(&names, &[lit(2, true), lit(0, false), lit(1, true)]),
        "bmi & NOT age & smoker"
    );
}
