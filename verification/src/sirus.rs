use vstd::prelude::*;

use crate::bitset::{word_count, BitMask};
use crate::prng::{
    lemma_splitmix_indices_nth, splitmix_advance, splitmix_index, splitmix_indices,
    splitmix_next_state, SplitMix64,
};
use crate::rules::Literal;

verus! {

/// The first problem with the shapes of the rule miner's inputs, if any: `rows`
/// holds the row lengths of the binary matrix.
pub open spec fn input_error(rows: Seq<nat>, n_labels: nat, n_names: nat) -> Option<Seq<char>> {
    if rows.len() == 0 {
        Some("x_binary must be non-empty"@)
    } else if rows[0] == 0 {
        Some("x_binary must have at least one feature"@)
    } else if exists|i: int| 0 <= i < rows.len() && #[trigger] rows[i] != rows[0] {
        Some("x_binary must be rectangular"@)
    } else if n_labels != rows.len() {
        Some("subset_labels must have the same row count as x_binary"@)
    } else if n_names != rows[0] {
        Some("feature_names length must match x_binary column count"@)
    } else {
        None
    }
}

/// Row lengths of a matrix stored row by row.
pub open spec fn row_lengths(x: Seq<Vec<u8>>) -> Seq<nat> {
    x.map_values(|row: Vec<u8>| row@.len())
}

/// Check that the binary matrix is non-empty and rectangular and that the
/// labels and feature names match its shape.
pub fn validate_inputs(
    x_binary: &[Vec<u8>],
    subset_labels: &[u8],
    feature_names: &[String],
) -> (r: Result<(), String>)
    ensures
        match r {
            Ok(()) => input_error(
                row_lengths(x_binary@),
                subset_labels@.len(),
                feature_names@.len(),
            ) is None,
            Err(e) => input_error(
                row_lengths(x_binary@),
                subset_labels@.len(),
                feature_names@.len(),
            ) == Some(e@),
        },
{
    let ghost rows = row_lengths(x_binary@);
    if x_binary.len() == 0 {
        return Err(String::from_str("x_binary must be non-empty"));
    }
    let p = x_binary[0].len();
    if p == 0 {
        return Err(String::from_str("x_binary must have at least one feature"));
    }
    let mut i: usize = 0;
    while i < x_binary.len()
        invariant
            rows == row_lengths(x_binary@),
            rows.len() == x_binary@.len(),
            rows.len() > 0,
            p == rows[0],
            p > 0,
            i <= x_binary@.len(),
            forall|k: int| 0 <= k < i ==> rows[k] == p,
        decreases x_binary@.len() - i,
    {
        if x_binary[i].len() != p {
            proof {
                assert(rows[i as int] != rows[0]);
            }
            return Err(String::from_str("x_binary must be rectangular"));
        }
        i += 1;
    }
    proof {
        assert(!exists|k: int| 0 <= k < rows.len() && #[trigger] rows[k] != rows[0]);
    }
    if subset_labels.len() != x_binary.len() {
        return Err(String::from_str("subset_labels must have the same row count as x_binary"));
    }
    if feature_names.len() != p {
        return Err(String::from_str("feature_names length must match x_binary column count"));
    }
    Ok(())
}

/// A row satisfies a literal when the feature's value is set exactly when the
/// literal is positive.
pub open spec fn literal_holds(row: Seq<u8>, lit: Literal) -> bool {
    (row[lit.feature_idx as int] > 0) == lit.positive
}

/// A row satisfies a rule when it satisfies every literal.
pub open spec fn rule_holds(row: Seq<u8>, lits: Seq<Literal>) -> bool {
    forall|k: int| 0 <= k < lits.len() ==> literal_holds(row, #[trigger] lits[k])
}

/// Checking the literals in order, stopping at the first that fails, reads only
/// features the row has.
pub open spec fn rule_check_in_bounds(row: Seq<u8>, lits: Seq<Literal>) -> bool
    decreases lits.len(),
{
    lits.len() == 0 || (lits[0].feature_idx < row.len() && (literal_holds(row, lits[0])
        ==> rule_check_in_bounds(row, lits.drop_first())))
}

/// Whether a row satisfies a rule does not depend on the order of its literals,
/// so putting them in canonical order keeps the rule's mask.
pub proof fn lemma_rule_holds_reordered(row: Seq<u8>, a: Seq<Literal>, b: Seq<Literal>)
    requires
        a.to_multiset() == b.to_multiset(),
    ensures
        rule_holds(row, a) == rule_holds(row, b),
{
    assert forall|k: int| 0 <= k < b.len() && rule_holds(row, a) implies literal_holds(
        row,
        #[trigger] b[k],
    ) by {
        vstd::seq_lib::to_multiset_contains(b, b[k]);
        vstd::seq_lib::to_multiset_contains(a, b[k]);
        assert(b.contains(b[k]));
    }
    assert forall|k: int| 0 <= k < a.len() && rule_holds(row, b) implies literal_holds(
        row,
        #[trigger] a[k],
    ) by {
        vstd::seq_lib::to_multiset_contains(a, a[k]);
        vstd::seq_lib::to_multiset_contains(b, a[k]);
        assert(a.contains(a[k]));
    }
}

/// What a literal means on a row: the positive literal holds exactly when the
/// feature is set, the negated one exactly when it is clear, so the two hold on
/// complementary rows; a rule of one literal means the same.
pub proof fn lemma_literal_meaning(row: Seq<u8>, f: usize)
    requires
        f < row.len(),
    ensures
        literal_holds(row, Literal { feature_idx: f, positive: true }) == (row[f as int] > 0),
        literal_holds(row, Literal { feature_idx: f, positive: false }) == (row[f as int] == 0),
        literal_holds(row, Literal { feature_idx: f, positive: false }) != literal_holds(
            row,
            Literal { feature_idx: f, positive: true },
        ),
        rule_holds(row, seq![Literal { feature_idx: f, positive: true }]) == (row[f as int] > 0),
        rule_holds(row, seq![Literal { feature_idx: f, positive: false }]) == (row[f as int] == 0),
{
    let p = seq![Literal { feature_idx: f, positive: true }];
    let q = seq![Literal { feature_idx: f, positive: false }];
    assert(p[0] == Literal { feature_idx: f, positive: true });
    assert(q[0] == Literal { feature_idx: f, positive: false });
}

/// A rule made of two parts holds exactly when both parts hold.
pub proof fn lemma_rule_holds_concat(row: Seq<u8>, a: Seq<Literal>, b: Seq<Literal>)
    ensures
        rule_holds(row, a + b) == (rule_holds(row, a) && rule_holds(row, b)),
{
    if rule_holds(row, a) && rule_holds(row, b) {
        assert forall|k: int| 0 <= k < (a + b).len() implies literal_holds(row, #[trigger] (a + b)[k]) by {
            if k < a.len() {
                assert((a + b)[k] == a[k]);
            } else {
                assert((a + b)[k] == b[k - a.len()]);
            }
        }
    }
    if rule_holds(row, a + b) {
        assert forall|k: int| 0 <= k < a.len() implies literal_holds(row, #[trigger] a[k]) by {
            assert((a + b)[k] == a[k]);
        }
        assert forall|k: int| 0 <= k < b.len() implies literal_holds(row, #[trigger] b[k]) by {
            assert((a + b)[k + a.len()] == b[k]);
        }
    }
}

/// Whether `row` satisfies every literal, checked in order.
fn row_matches(row: &Vec<u8>, literals: &[Literal]) -> (r: bool)
    requires
        rule_check_in_bounds(row@, literals@),
    ensures
        r == rule_holds(row@, literals@),
{
    let mut k: usize = 0;
    proof {
        assert(literals@.skip(0) =~= literals@);
    }
    while k < literals.len()
        invariant
            k <= literals@.len(),
            rule_check_in_bounds(row@, literals@.skip(k as int)),
            forall|q: int| 0 <= q < k ==> literal_holds(row@, #[trigger] literals@[q]),
        decreases literals@.len() - k,
    {
        let lit = &literals[k];
        proof {
            assert(literals@.skip(k as int)[0] == literals@[k as int]);
        }
        let value = row[lit.feature_idx] > 0;
        let holds = if lit.positive {
            value
        } else {
            !value
        };
        if !holds {
            return false;
        }
        proof {
            assert(literals@.skip(k as int).drop_first() =~= literals@.skip(k as int + 1));
        }
        k += 1;
    }
    true
}

/// The mask of the rows that satisfy every literal of a rule.
pub fn mask_for_rule(x_binary: &[Vec<u8>], literals: &[Literal]) -> (r: BitMask)
    requires
        x_binary@.len() <= usize::MAX - 63,
        forall|i: int| 0 <= i < x_binary@.len() ==> rule_check_in_bounds(
            #[trigger] x_binary@[i]@,
            literals@,
        ),
    ensures
        r.wf(),
        r@ == Seq::new(x_binary@.len(), |i: int| rule_holds(x_binary@[i]@, literals@)),
        r.tail_clear(),
{
    let n = x_binary.len();
    let mut flags: Vec<bool> = Vec::new();
    let mut i: usize = 0;
    while i < n
        invariant
            n == x_binary@.len(),
            i <= n,
            flags@.len() == i,
            forall|q: int| 0 <= q < n ==> rule_check_in_bounds(
                #[trigger] x_binary@[q]@,
                literals@,
            ),
            forall|q: int| 0 <= q < i ==> #[trigger] flags@[q] == rule_holds(
                x_binary@[q]@,
                literals@,
            ),
        decreases n - i,
    {
        flags.push(row_matches(&x_binary[i], literals));
        i += 1;
    }
    proof {
        assert forall|q: int| 0 <= q < flags@.len() && #[trigger] flags@[q] implies q < word_count(
            n as nat,
        ) * 64 by {
            assert(n <= word_count(n as nat) * 64) by (nonlinear_arith)
                requires
                    word_count(n as nat) == (n + 63) / 64,
            ;
        }
    }
    let r = BitMask::from_bool_iter(n, &flags);
    proof {
        assert(r@ =~= Seq::new(n as nat, |q: int| rule_holds(x_binary@[q]@, literals@)));
    }
    r
}

/// `k` is the integer nearest to the square root of `p` (ties cannot occur).
pub open spec fn is_rounded_sqrt(p: nat, k: nat) -> bool {
    if p == 0 {
        k == 0
    } else {
        k * k - k < p && p <= k * k + k
    }
}

/// The integer nearest to the square root of `p`.
pub open spec fn rounded_sqrt(p: nat) -> nat {
    choose|k: nat| is_rounded_sqrt(p, k)
}

/// At most one integer is nearest to a square root.
pub proof fn lemma_rounded_sqrt_unique(p: nat, a: nat, b: nat)
    requires
        is_rounded_sqrt(p, a),
        is_rounded_sqrt(p, b),
    ensures
        a == b,
{
    if p > 0 {
        if a < b {
            assert(a * a + a <= b * b - b) by (nonlinear_arith)
                requires
                    a < b,
            ;
        }
        if b < a {
            assert(b * b + b <= a * a - a) by (nonlinear_arith)
                requires
                    b < a,
            ;
        }
    }
}

/// The integer nearest to the square root of `p`.
fn nearest_sqrt(p: usize) -> (k: usize)
    ensures
        is_rounded_sqrt(p as nat, k as nat),
        k as nat == rounded_sqrt(p as nat),
        k <= p,
{
    let mut k: usize = 0;
    while k + 1 <= p / (k + 1)
        invariant
            k * k <= p,
            k <= p,
            k < usize::MAX,
        decreases p - k,
    {
        proof {
            assert((k + 1) * (k + 1) <= p) by (nonlinear_arith)
                requires
                    k + 1 <= p as int / (k + 1),
                    k + 1 > 0,
            ;
            assert(k + 1 <= p) by (nonlinear_arith)
                requires
                    (k + 1) * (k + 1) <= p,
            ;
            assert(k + 1 < usize::MAX) by (nonlinear_arith)
                requires
                    (k + 1) * (k + 1) <= p,
                    p <= usize::MAX,
                    usize::MAX > 3,
            ;
        }
        k += 1;
    }
    proof {
        assert(p < (k + 1) * (k + 1)) by (nonlinear_arith)
            requires
                !(k + 1 <= p as int / (k + 1)),
                k + 1 > 0,
        ;
    }
    let kk = k * k;
    let r = if p - kk > k {
        k + 1
    } else {
        k
    };
    proof {
        if p > 0 {
            assert(k > 0) by (nonlinear_arith)
                requires
                    p < (k + 1) * (k + 1),
                    p > 0,
            ;
            if p - kk > k {
                assert((r * r - r < p && p <= r * r + r)) by (nonlinear_arith)
                    requires
                        r == k + 1,
                        p > k * k + k,
                        p < (k + 1) * (k + 1),
                ;
            } else {
                assert((r * r - r < p && p <= r * r + r)) by (nonlinear_arith)
                    requires
                        r == k,
                        k > 0,
                        k * k <= p,
                        p <= k * k + k,
                ;
            }
        }
        assert(is_rounded_sqrt(p as nat, r as nat));
        lemma_rounded_sqrt_unique(p as nat, r as nat, rounded_sqrt(p as nat));
        if p - kk > k {
            assert(k + 1 <= p) by (nonlinear_arith)
                requires
                    p - k * k > k,
                    k * k >= 0,
            ;
        }
    }
    r
}

/// How many features each split considers: the requested count, capped at `p`;
/// when none (or zero) is requested, the nearest integer to the square root of
/// `p`, at least one and at most `p`.
pub fn resolve_mtry(mtry: Option<usize>, p: usize) -> (r: usize)
    ensures
        r == match mtry {
            Some(v) if v > 0 => if v <= p {
                v as nat
            } else {
                p as nat
            },
            _ => if p == 0 {
                0
            } else if rounded_sqrt(p as nat) == 0 {
                1
            } else {
                rounded_sqrt(p as nat)
            },
        },
{
    match mtry {
        Some(v) if v > 0 => {
            if v <= p {
                v
            } else {
                p
            }
        },
        _ => {
            let k = nearest_sqrt(p);
            let k1 = if k < 1 {
                1
            } else {
                k
            };
            if k1 <= p {
                k1
            } else {
                p
            }
        },
    }
}

/// The pool, and the generator state, after the swaps of a partial Fisher-Yates
/// shuffle from position `i` up to `take`: step `i` swaps position `i` with a
/// position drawn from `i..pool.len()`.
pub open spec fn shuffle_steps(pool: Seq<usize>, i: int, take: int, state: u64) -> (Seq<usize>, u64)
    decreases take - i,
{
    if i < 0 || i >= take || i >= pool.len() {
        (pool, state)
    } else {
        let j = i + splitmix_index(state, (pool.len() - i) as usize);
        shuffle_steps(
            pool.update(i, pool[j]).update(j, pool[i]),
            i + 1,
            take,
            splitmix_next_state(state),
        )
    }
}

/// The shuffle takes one draw per step: from position `i` to `take` the
/// generator advances exactly `take - i` steps; the pool keeps its length and
/// the positions before `i` are not touched; and the first step puts at `i`
/// the entry at `i + draw mod (length - i)`, where it stays.
pub proof fn lemma_shuffle_steps_draws(pool: Seq<usize>, i: int, take: int, state: u64)
    requires
        0 <= i <= take <= pool.len(),
        pool.len() <= usize::MAX,
    ensures
        shuffle_steps(pool, i, take, state).1 == splitmix_advance(state, (take - i) as nat),
        shuffle_steps(pool, i, take, state).0.len() == pool.len(),
        forall|k: int| 0 <= k < i ==> #[trigger] shuffle_steps(pool, i, take, state).0[k] == pool[k],
        i < take ==> shuffle_steps(pool, i, take, state).0[i] == pool[i + splitmix_index(
            state,
            (pool.len() - i) as usize,
        )],
    decreases take - i,
{
    if i < take {
        let j = i + splitmix_index(state, (pool.len() - i) as usize);
        let next_pool = pool.update(i, pool[j]).update(j, pool[i]);
        lemma_shuffle_steps_draws(next_pool, i + 1, take, splitmix_next_state(state));
        let out = shuffle_steps(pool, i, take, state).0;
        assert(out == shuffle_steps(next_pool, i + 1, take, splitmix_next_state(state)).0);
        assert(out[i] == next_pool[i]);
        assert forall|k: int| 0 <= k < i implies #[trigger] out[k] == pool[k] by {
            assert(out[k] == next_pool[k]);
        }
        assert(splitmix_advance(state, (take - i) as nat) == splitmix_advance(
            splitmix_next_state(state),
            (take - i - 1) as nat,
        ));
    }
}

/// Swapping two positions keeps the multiset of the sequence.
proof fn lemma_swap_multiset(s: Seq<usize>, i: int, j: int)
    requires
        0 <= i < s.len(),
        0 <= j < s.len(),
    ensures
        s.update(i, s[j]).update(j, s[i]).to_multiset() == s.to_multiset(),
{
    broadcast use vstd::multiset::group_multiset_axioms;

    let t = s.update(i, s[j]);
    vstd::seq_lib::to_multiset_update(s, i, s[j]);
    vstd::seq_lib::to_multiset_update(t, j, s[i]);
    vstd::seq_lib::to_multiset_contains(s, s[i]);
    vstd::seq_lib::to_multiset_contains(s, s[j]);
    assert(s.contains(s[i]));
    assert(s.contains(s[j]));
    if i == j {
        assert(s.update(i, s[j]).update(j, s[i]) =~= s);
    } else {
        assert(t[j] == s[j]);
        assert(t.update(j, s[i]).to_multiset() =~= s.to_multiset());
    }
}

/// Run the first `take` steps of a Fisher-Yates shuffle of `pool` in place.
fn partial_shuffle(pool: &mut Vec<usize>, take: usize, rng: &mut SplitMix64)
    requires
        take <= old(pool)@.len(),
    ensures
        (final(pool)@, final(rng)@) == shuffle_steps(old(pool)@, 0, take as int, old(rng)@),
        final(pool)@.to_multiset() == old(pool)@.to_multiset(),
        final(pool)@.len() == old(pool)@.len(),
{
    let n = pool.len();
    let mut i: usize = 0;
    while i < take
        invariant
            take <= n,
            pool@.len() == n,
            i <= take,
            shuffle_steps(pool@, i as int, take as int, rng@) == shuffle_steps(
                old(pool)@,
                0,
                take as int,
                old(rng)@,
            ),
            pool@.to_multiset() == old(pool)@.to_multiset(),
        decreases take - i,
    {
        let ghost before = pool@;
        let d = rng.gen_index(n - i);
        let j = i + d;
        let a = pool[i];
        let b = pool[j];
        pool.set(i, b);
        pool.set(j, a);
        proof {
            assert(pool@ == before.update(i as int, before[j as int]).update(
                j as int,
                before[i as int],
            ));
            lemma_swap_multiset(before, i as int, j as int);
        }
        i += 1;
    }
}

/// Choose up to `mtry` of the available features: all of them (with no draw)
/// when `mtry` covers them, else the first `mtry` after as many Fisher-Yates
/// steps. No feature is chosen twice unless it is listed twice.
pub fn sample_feature_subset(available: &[usize], mtry: usize, rng: &mut SplitMix64) -> (r: Vec<
    usize,
>)
    ensures
        r@.len() == if mtry < available@.len() {
            mtry as nat
        } else {
            available@.len()
        },
        mtry >= available@.len() ==> r@ == available@ && final(rng)@ == old(rng)@,
        mtry < available@.len() ==> ({
            let (pool, state) = shuffle_steps(available@, 0, mtry as int, old(rng)@);
            r@ == pool.take(mtry as int) && final(rng)@ == state
        }),
        mtry < available@.len() ==> final(rng)@ == splitmix_advance(old(rng)@, mtry as nat),
        0 < mtry < available@.len() ==> r@[0] == available@[splitmix_index(
            old(rng)@,
            available@.len() as usize,
        ) as int],
        r@.to_multiset().subset_of(available@.to_multiset()),
        available@.no_duplicates() ==> r@.no_duplicates(),
{
    let take = if mtry < available.len() {
        mtry
    } else {
        available.len()
    };
    let mut pool: Vec<usize> = Vec::new();
    let mut k: usize = 0;
    while k < available.len()
        invariant
            k <= available@.len(),
            pool@ == available@.take(k as int),
        decreases available@.len() - k,
    {
        pool.push(available[k]);
        proof {
            assert(available@.take(k as int + 1) =~= available@.take(k as int).push(available@[k as int]));
        }
        k += 1;
    }
    proof {
        assert(available@.take(available@.len() as int) =~= available@);
    }
    if take == available.len() {
        proof {
            lemma_prefix_multiset(available@, available@.len() as int);
        }
        return pool;
    }
    partial_shuffle(&mut pool, take, rng);
    let ghost shuffled = pool@;
    pool.truncate(take);
    proof {
        lemma_shuffle_steps_draws(available@, 0, take as int, old(rng)@);
        assert(pool@ =~= shuffled.take(take as int));
        lemma_prefix_multiset(shuffled, take as int);
        if available@.no_duplicates() {
            lemma_no_duplicates_by_multiset(available@, shuffled);
            lemma_no_duplicates_prefix(shuffled, take as int);
        }
    }
    pool
}

/// A prefix of a sequence holds a sub-multiset of it.
proof fn lemma_prefix_multiset(s: Seq<usize>, k: int)
    requires
        0 <= k <= s.len(),
    ensures
        s.take(k).to_multiset().subset_of(s.to_multiset()),
{
    broadcast use vstd::multiset::group_multiset_axioms;

    let tail = s.skip(k);
    assert(s =~= s.take(k) + tail);
    vstd::seq_lib::lemma_multiset_commutative(s.take(k), tail);
}

/// A rearrangement of a sequence without repeats has no repeats.
proof fn lemma_no_duplicates_by_multiset(a: Seq<usize>, b: Seq<usize>)
    requires
        a.no_duplicates(),
        a.to_multiset() == b.to_multiset(),
    ensures
        b.no_duplicates(),
{
    a.lemma_multiset_has_no_duplicates();
    b.lemma_multiset_has_no_duplicates_conv();
}

/// A prefix of a sequence without repeats has no repeats.
proof fn lemma_no_duplicates_prefix(s: Seq<usize>, k: int)
    requires
        0 <= k <= s.len(),
        s.no_duplicates(),
    ensures
        s.take(k).no_duplicates(),
{
}

/// Draw `sample_n` row indices in `0..n`: independently (with replacement) or as
/// the first `sample_n` positions of a Fisher-Yates shuffle of `0..n` (without).
pub fn draw_sample_indices(n: usize, sample_n: usize, replace: bool, rng: &mut SplitMix64) -> (r:
    Vec<usize>)
    requires
        sample_n <= n,
    ensures
        r@.len() == sample_n,
        forall|k: int| 0 <= k < r@.len() ==> #[trigger] r@[k] < n,
        replace ==> r@ == splitmix_indices(old(rng)@, sample_n as nat, n) && final(rng)@
            == splitmix_advance(old(rng)@, sample_n as nat),
        !replace ==> ({
            let (pool, state) = shuffle_steps(
                Seq::new(n as nat, |i: int| i as usize),
                0,
                sample_n as int,
                old(rng)@,
            );
            r@ == pool.take(sample_n as int) && final(rng)@ == state
        }),
        replace ==> forall|k: int|
            0 <= k < sample_n ==> #[trigger] r@[k] == splitmix_index(
                splitmix_advance(old(rng)@, k as nat),
                n,
            ),
        !replace ==> r@.no_duplicates(),
        !replace ==> final(rng)@ == splitmix_advance(old(rng)@, sample_n as nat),
        !replace && sample_n > 0 ==> r@[0] == splitmix_index(old(rng)@, n),
{
    if replace {
        let mut out: Vec<usize> = Vec::new();
        let mut k: usize = 0;
        while k < sample_n
            invariant
                sample_n <= n,
                k <= sample_n,
                out@.len() == k,
                forall|q: int| 0 <= q < out@.len() ==> #[trigger] out@[q] < n,
                out@ + splitmix_indices(rng@, (sample_n - k) as nat, n) == splitmix_indices(
                    old(rng)@,
                    sample_n as nat,
                    n,
                ),
                splitmix_advance(rng@, (sample_n - k) as nat) == splitmix_advance(
                    old(rng)@,
                    sample_n as nat,
                ),
            decreases sample_n - k,
        {
            let ghost s0 = rng@;
            let ghost rest = splitmix_indices(
                splitmix_next_state(s0),
                (sample_n - k - 1) as nat,
                n,
            );
            let idx = rng.gen_index(n);
            proof {
                assert(splitmix_indices(s0, (sample_n - k) as nat, n) == seq![idx] + rest);
                assert(out@.push(idx) + rest =~= out@ + (seq![idx] + rest));
            }
            out.push(idx);
            k += 1;
        }
        proof {
            assert(out@ + splitmix_indices(rng@, 0, n) =~= out@);
            lemma_splitmix_indices_nth(old(rng)@, sample_n as nat, n);
        }
        out
    } else {
        let mut pool: Vec<usize> = Vec::new();
        let mut k: usize = 0;
        while k < n
            invariant
                k <= n,
                pool@ == Seq::new(k as nat, |i: int| i as usize),
            decreases n - k,
        {
            pool.push(k);
            proof {
                assert(pool@ =~= Seq::new(k as nat + 1, |i: int| i as usize));
            }
            k += 1;
        }
        let ghost ids = pool@;
        proof {
            assert forall|p: int, q: int| 0 <= p < ids.len() && 0 <= q < ids.len() && p != q implies ids[p] != ids[q] by {}
        }
        partial_shuffle(&mut pool, sample_n, rng);
        let ghost shuffled = pool@;
        pool.truncate(sample_n);
        proof {
            assert(pool@ =~= shuffled.take(sample_n as int));
            lemma_no_duplicates_by_multiset(ids, shuffled);
            lemma_no_duplicates_prefix(shuffled, sample_n as int);
            lemma_shuffle_steps_draws(ids, 0, sample_n as int, old(rng)@);
            assert forall|q: int| 0 <= q < pool@.len() implies #[trigger] pool@[q] < n by {
                vstd::seq_lib::to_multiset_contains(shuffled, shuffled[q]);
                vstd::seq_lib::to_multiset_contains(ids, shuffled[q]);
                assert(shuffled.contains(shuffled[q]));
            }
        }
        pool
    }
}

} // verus!
