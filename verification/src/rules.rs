use vstd::prelude::*;

verus! {

/// One condition of a rule: binary feature `feature_idx` is set (`positive`) or clear.
#[derive(Clone, Debug, Eq, PartialEq, Structural, Hash, Ord, PartialOrd)]
pub struct Literal {
    pub feature_idx: usize,
    pub positive: bool,
}

/// The canonical order of literals: by feature, the negated literal first.
pub open spec fn literal_le(a: Literal, b: Literal) -> bool {
    ||| a.feature_idx < b.feature_idx
    ||| a.feature_idx == b.feature_idx && (!a.positive || b.positive)
}

/// The literals stand in canonical order.
pub open spec fn literals_sorted(s: Seq<Literal>) -> bool {
    forall|p: int, q: int| 0 <= p < q < s.len() ==> literal_le(#[trigger] s[p], #[trigger] s[q])
}

/// Put the literals of a rule in canonical order (by feature index, then the
/// negated literal before the positive one), so that equal rules get equal keys.
pub fn sort_literals(literals: &mut Vec<Literal>)
    ensures
        literals_sorted(final(literals)@),
        final(literals)@.to_multiset() == old(literals)@.to_multiset(),
{
    broadcast use {
        vstd::seq_lib::to_multiset_remove,
        vstd::seq_lib::to_multiset_insert,
        vstd::seq_lib::to_multiset_contains,
        vstd::multiset::group_multiset_axioms,
    };

    let n = literals.len();
    let mut i: usize = 1;
    while i < n
        invariant
            literals@.len() == n,
            n == old(literals)@.len(),
            1 <= i,
            n == 0 || i <= n,
            literals_sorted(literals@.take(i as int)) || n == 0,
            literals@.to_multiset() == old(literals)@.to_multiset(),
        decreases n - i,
    {
        let ghost before = literals@;
        let x = literals.remove(i);
        let ghost removed = literals@;
        assert(removed == before.remove(i as int));
        let mut j: usize = i;
        while j > 0 && !lit_le(&literals[j - 1], &x)
            invariant
                literals@ == removed,
                removed.len() == n - 1,
                i < n,
                j <= i,
                literals_sorted(removed.take(i as int)),
                forall|k: int| j <= k < i ==> !literal_le(#[trigger] removed[k], x),
            decreases j,
        {
            j -= 1;
        }
        literals.insert(j, x);
        proof {
            let s = literals@;
            assert(s == removed.insert(j as int, x));
            assert(x == before[i as int]);
            assert(before.contains(x));
            vstd::seq_lib::to_multiset_remove(before, i as int);
            vstd::seq_lib::to_multiset_insert(removed, j as int, x);
            vstd::seq_lib::to_multiset_contains(before, x);
            let m = before.to_multiset();
            assert(m.count(x) > 0);
            assert(s.to_multiset() == m.remove(x).insert(x));
            assert(m.remove(x).insert(x) =~= m);
            assert(removed.take(i as int) =~= before.take(i as int));
            assert forall|p: int, q: int| 0 <= p < q < i + 1 implies literal_le(
                #[trigger] s.take(i as int + 1)[p],
                #[trigger] s.take(i as int + 1)[q],
            ) by {
                if j > 0 {
                    assert(literal_le(removed[j - 1], x));
                }
                if q < j {
                } else if q == j {
                    assert(literal_le(removed[p], removed[j - 1]) || p == j - 1);
                } else if p == j {
                    assert(!literal_le(removed[q - 1], x));
                } else if p < j {
                    assert(!literal_le(removed[q - 1], x));
                    if j > 0 {
                        assert(literal_le(removed[p], removed[j - 1]) || p == j - 1);
                    }
                } else {
                }
            }
        }
        i += 1;
    }
    proof {
        if n > 0 {
            assert(literals@.take(n as int) =~= literals@);
        } else {
            assert(literals@.len() == 0);
        }
    }
}

/// Canonical order is unique: two arrangements in canonical order of the same
/// literals are equal, so a rule gets one key whatever order its literals were
/// collected in.
pub proof fn lemma_sorted_literals_unique(a: Seq<Literal>, b: Seq<Literal>)
    requires
        literals_sorted(a),
        literals_sorted(b),
        a.to_multiset() == b.to_multiset(),
    ensures
        a == b,
    decreases a.len(),
{
    vstd::seq_lib::to_multiset_len(a);
    vstd::seq_lib::to_multiset_len(b);
    if a.len() == 0 {
        assert(a =~= b);
    } else {
        vstd::seq_lib::to_multiset_contains(a, a[0]);
        vstd::seq_lib::to_multiset_contains(b, a[0]);
        vstd::seq_lib::to_multiset_contains(a, b[0]);
        vstd::seq_lib::to_multiset_contains(b, b[0]);
        assert(a.contains(a[0]));
        assert(b.contains(b[0]));
        let k = choose|k: int| 0 <= k < b.len() && b[k] == a[0];
        let m = choose|m: int| 0 <= m < a.len() && a[m] == b[0];
        if k > 0 {
            assert(literal_le(b[0], b[k]));
        }
        if m > 0 {
            assert(literal_le(a[0], a[m]));
        }
        assert(a[0] == b[0]);
        vstd::seq_lib::to_multiset_remove(a, 0);
        vstd::seq_lib::to_multiset_remove(b, 0);
        assert(a.remove(0) =~= a.drop_first());
        assert(b.remove(0) =~= b.drop_first());
        lemma_sorted_literals_unique(a.drop_first(), b.drop_first());
        assert forall|i: int| 0 <= i < a.len() implies a[i] == b[i] by {
            if i > 0 {
                assert(a[i] == a.drop_first()[i - 1]);
                assert(b[i] == b.drop_first()[i - 1]);
            }
        }
        assert(a =~= b);
    }
}

fn lit_le(a: &Literal, b: &Literal) -> (r: bool)
    ensures
        r == literal_le(*a, *b),
{
    a.feature_idx < b.feature_idx || (a.feature_idx == b.feature_idx && (!a.positive
        || b.positive))
}

/// Text of one literal: the feature name, prefixed by `NOT ` when negated.
pub open spec fn literal_text(names: Seq<Seq<char>>, lit: Literal) -> Seq<char> {
    if lit.positive {
        names[lit.feature_idx as int]
    } else {
        "NOT "@ + names[lit.feature_idx as int]
    }
}

/// Text of a conjunction: the literal texts joined by ` & `.
pub open spec fn conjunction_text(names: Seq<Seq<char>>, lits: Seq<Literal>) -> Seq<char>
    decreases lits.len(),
{
    if lits.len() == 0 {
        Seq::empty()
    } else if lits.len() == 1 {
        literal_text(names, lits[0])
    } else {
        conjunction_text(names, lits.drop_last()) + " & "@ + literal_text(names, lits.last())
    }
}

/// A one-literal rule reads as its feature's name, after `NOT ` when negated.
pub proof fn lemma_conjunction_text_single(names: Seq<Seq<char>>, lit: Literal)
    ensures
        conjunction_text(names, seq![lit]) == if lit.positive {
            names[lit.feature_idx as int]
        } else {
            "NOT "@ + names[lit.feature_idx as int]
        },
{
}

/// Rendering is compositional: the text of a rule split in two non-empty parts
/// is the text of the first part, ` & `, and the text of the second, so each
/// literal's text does not depend on its neighbours.
pub proof fn lemma_conjunction_text_join(names: Seq<Seq<char>>, a: Seq<Literal>, b: Seq<Literal>)
    requires
        a.len() > 0,
        b.len() > 0,
    ensures
        conjunction_text(names, a + b) == conjunction_text(names, a) + " & "@ + conjunction_text(
            names,
            b,
        ),
    decreases b.len(),
{
    assert((a + b).drop_last() =~= a + b.drop_last());
    assert((a + b).last() == b.last());
    if b.len() == 1 {
        assert(b.drop_last() =~= Seq::<Literal>::empty());
        assert(a + b.drop_last() =~= a);
        assert(b =~= seq![b[0]]);
    } else {
        lemma_conjunction_text_join(names, a, b.drop_last());
        assert(conjunction_text(names, a + b) =~= conjunction_text(names, a) + " & "@
            + conjunction_text(names, b));
    }
}

/// The views of a list of names.
pub open spec fn name_views(names: Seq<String>) -> Seq<Seq<char>> {
    names.map_values(|s: String| s@)
}

/// Render a conjunction of literals as text, e.g. `age & NOT smoker`.
pub fn render_conjunction(feature_names: &[String], literals: &[Literal]) -> (r: String)
    requires
        forall|k: int| 0 <= k < literals@.len() ==> #[trigger] literals@[k].feature_idx
            < feature_names@.len(),
    ensures
        r@ == conjunction_text(name_views(feature_names@), literals@),
{
    let ghost names = name_views(feature_names@);
    let mut out = String::new();
    let mut i: usize = 0;
    while i < literals.len()
        invariant
            names == name_views(feature_names@),
            i <= literals@.len(),
            forall|k: int| 0 <= k < literals@.len() ==> #[trigger] literals@[k].feature_idx
                < feature_names@.len(),
            out@ == conjunction_text(names, literals@.take(i as int)),
        decreases literals@.len() - i,
    {
        let lit = &literals[i];
        let name = &feature_names[lit.feature_idx];
        if i > 0 {
            out.append(" & ");
        }
        if lit.positive {
            out.append(name.as_str());
        } else {
            out.append("NOT ");
            out.append(name.as_str());
        }
        proof {
            let t = literals@.take(i as int + 1);
            assert(t.drop_last() =~= literals@.take(i as int));
            assert(names[lit.feature_idx as int] == name@);
            if i == 0 {
                assert(literals@.take(0) =~= Seq::<Literal>::empty());
            }
            assert(out@ =~= conjunction_text(names, t));
        }
        i += 1;
    }
    proof {
        assert(literals@.take(literals@.len() as int) =~= literals@);
    }
    out
}

} // verus!
