use vstd::prelude::*;

use crate::bitset::{and_bits, count_true, BitMask};
use crate::rules::Literal;

verus! {

/// A literal with the mask of the rows that satisfy it and that mask's support.
pub struct LiteralMask {
    pub literal: Literal,
    pub mask: BitMask,
    pub support: usize,
}

/// A conjunction reached by the search: its literals, the rows that satisfy
/// it, how many rows that is, and how many of them are in the target subset.
pub struct ConjunctionCandidate {
    pub literals: Vec<Literal>,
    pub mask: BitMask,
    pub support: usize,
    pub positives: usize,
}

impl ConjunctionCandidate {
    /// The candidate as plain values: literals, row flags, support, positives.
    pub open spec fn summary(&self) -> (Seq<Literal>, Seq<bool>, nat, nat) {
        (self.literals@, self.mask@, self.support as nat, self.positives as nat)
    }
}

/// The summaries of a list of candidates.
pub open spec fn summaries(cands: Seq<ConjunctionCandidate>) -> Seq<(Seq<Literal>, Seq<bool>, nat, nat)> {
    cands.map_values(|c: ConjunctionCandidate| c.summary())
}

/// Every candidate's mask is well formed, of length `n`, with clear padding.
pub open spec fn masks_ok(cands: Seq<ConjunctionCandidate>, n: nat) -> bool {
    forall|k: int|
        0 <= k < cands.len() ==> {
            &&& (#[trigger] cands[k]).mask.wf()
            &&& cands[k].mask@.len() == n
            &&& cands[k].mask.tail_clear()
        }
}

/// The literals chosen by a list of positions.
pub open spec fn chosen_literals(lits: Seq<LiteralMask>, prefix: Seq<usize>) -> Seq<Literal> {
    prefix.map_values(|j: usize| lits[j as int].literal)
}

/// Some chosen literal is on feature `f`.
pub open spec fn feature_used(lits: Seq<LiteralMask>, prefix: Seq<usize>, f: usize) -> bool {
    exists|k: int| 0 <= k < prefix.len() && lits[#[trigger] prefix[k] as int].literal.feature_idx == f
}

/// The conjunctions a depth-first search reaches when it extends the chosen
/// literals `prefix` (whose rows are `current`, or all rows when nothing is
/// chosen) with each literal from position `idx` on: a literal on a feature
/// already used is skipped, as is an extension with fewer than `min_support`
/// rows or with no row in `subset`; every other extension is reached, then
/// extended further while it has fewer than `max_depth` literals.
pub open spec fn conjunctions_from(
    lits: Seq<LiteralMask>,
    subset: Seq<bool>,
    min_support: nat,
    max_depth: nat,
    current: Option<Seq<bool>>,
    prefix: Seq<usize>,
    idx: int,
) -> Seq<(Seq<Literal>, Seq<bool>, nat, nat)>
    decreases lits.len() - idx,
{
    if idx < 0 || idx >= lits.len() {
        Seq::empty()
    } else {
        let rest = conjunctions_from(lits, subset, min_support, max_depth, current, prefix, idx + 1);
        let lit = lits[idx];
        if feature_used(lits, prefix, lit.literal.feature_idx) {
            rest
        } else {
            let next = match current {
                Some(m) => and_bits(m, lit.mask@),
                None => lit.mask@,
            };
            let support = count_true(next);
            let positives = count_true(and_bits(next, subset));
            if support < min_support || positives == 0 {
                rest
            } else {
                let chosen = prefix.push(idx as usize);
                let deeper = if chosen.len() < max_depth {
                    conjunctions_from(lits, subset, min_support, max_depth, Some(next), chosen, idx + 1)
                } else {
                    Seq::empty()
                };
                seq![(chosen_literals(lits, chosen), next, support, positives)] + deeper + rest
            }
        }
    }
}

/// Every conjunction the search reaches meets the pruning bounds: its support
/// is the number of its rows and at least `min_support`, its positives are the
/// number of its rows in the subset and at least one, and it extends the chosen
/// literals by one to `max_depth` literals (one more than the chosen when they
/// already reach the depth).
pub proof fn lemma_reached_conjunctions(
    lits: Seq<LiteralMask>,
    subset: Seq<bool>,
    min_support: nat,
    max_depth: nat,
    current: Option<Seq<bool>>,
    prefix: Seq<usize>,
    idx: int,
)
    ensures
        forall|k: int|
            0 <= k < conjunctions_from(lits, subset, min_support, max_depth, current, prefix, idx).len()
                ==> {
                let c = #[trigger] conjunctions_from(
                    lits,
                    subset,
                    min_support,
                    max_depth,
                    current,
                    prefix,
                    idx,
                )[k];
                &&& c.2 == count_true(c.1)
                &&& c.2 >= min_support
                &&& c.3 == count_true(and_bits(c.1, subset))
                &&& c.3 > 0
                &&& prefix.len() < c.0.len()
                &&& c.0.len() <= if max_depth > prefix.len() {
                    max_depth
                } else {
                    prefix.len() + 1
                }
            },
    decreases lits.len() - idx,
{
    if 0 <= idx < lits.len() {
        lemma_reached_conjunctions(lits, subset, min_support, max_depth, current, prefix, idx + 1);
        let lit = lits[idx];
        let rest = conjunctions_from(lits, subset, min_support, max_depth, current, prefix, idx + 1);
        let res = conjunctions_from(lits, subset, min_support, max_depth, current, prefix, idx);
        if !feature_used(lits, prefix, lit.literal.feature_idx) {
            let next = match current {
                Some(m) => and_bits(m, lit.mask@),
                None => lit.mask@,
            };
            let support = count_true(next);
            let positives = count_true(and_bits(next, subset));
            if !(support < min_support || positives == 0) {
                let chosen = prefix.push(idx as usize);
                let deeper = if chosen.len() < max_depth {
                    conjunctions_from(lits, subset, min_support, max_depth, Some(next), chosen, idx + 1)
                } else {
                    Seq::empty()
                };
                if chosen.len() < max_depth {
                    lemma_reached_conjunctions(
                        lits,
                        subset,
                        min_support,
                        max_depth,
                        Some(next),
                        chosen,
                        idx + 1,
                    );
                }
                let here = (chosen_literals(lits, chosen), next, support, positives);
                assert(res == seq![here] + deeper + rest);
                assert forall|k: int| 0 <= k < res.len() implies {
                    let c = #[trigger] res[k];
                    &&& c.2 == count_true(c.1)
                    &&& c.2 >= min_support
                    &&& c.3 == count_true(and_bits(c.1, subset))
                    &&& c.3 > 0
                    &&& prefix.len() < c.0.len()
                    &&& c.0.len() <= if max_depth > prefix.len() {
                        max_depth
                    } else {
                        prefix.len() + 1
                    }
                } by {
                    if k == 0 {
                        assert(res[k] == here);
                    } else if k - 1 < deeper.len() {
                        assert(res[k] == deeper[k - 1]);
                    } else {
                        assert(res[k] == rest[k - 1 - deeper.len()]);
                    }
                }
            }
        }
    }
}

/// The search is complete: every extension of the chosen literals by a literal
/// at a position from `idx` on whose feature is unused, whose rows number at
/// least `min_support` and include a row of the subset, is reached, whatever
/// the literals tried before it gave; a literal that fails the bounds prunes
/// only its own extensions.
pub proof fn lemma_conjunctions_complete(
    lits: Seq<LiteralMask>,
    subset: Seq<bool>,
    min_support: nat,
    max_depth: nat,
    current: Option<Seq<bool>>,
    prefix: Seq<usize>,
    idx: int,
    j: int,
)
    requires
        lits.len() <= usize::MAX,
        0 <= idx <= j < lits.len(),
        forall|k: int|
            0 <= k < prefix.len() ==> lits[#[trigger] prefix[k] as int].literal.feature_idx
                != lits[j].literal.feature_idx,
        count_true(
            match current {
                Some(m) => and_bits(m, lits[j].mask@),
                None => lits[j].mask@,
            },
        ) >= min_support,
        count_true(
            and_bits(
                match current {
                    Some(m) => and_bits(m, lits[j].mask@),
                    None => lits[j].mask@,
                },
                subset,
            ),
        ) > 0,
    ensures
        ({
            let next = match current {
                Some(m) => and_bits(m, lits[j].mask@),
                None => lits[j].mask@,
            };
            conjunctions_from(lits, subset, min_support, max_depth, current, prefix, idx).contains(
                (
                    prefix.map_values(|p: usize| lits[p as int].literal).push(lits[j].literal),
                    next,
                    count_true(next),
                    count_true(and_bits(next, subset)),
                ),
            )
        }),
    decreases j - idx,
{
    let next = match current {
        Some(m) => and_bits(m, lits[j].mask@),
        None => lits[j].mask@,
    };
    let target = (
        prefix.map_values(|p: usize| lits[p as int].literal).push(lits[j].literal),
        next,
        count_true(next),
        count_true(and_bits(next, subset)),
    );
    let res = conjunctions_from(lits, subset, min_support, max_depth, current, prefix, idx);
    let rest = conjunctions_from(lits, subset, min_support, max_depth, current, prefix, idx + 1);
    let lit = lits[idx];
    if idx == j {
        assert(!feature_used(lits, prefix, lit.literal.feature_idx));
        let chosen = prefix.push(idx as usize);
        assert(chosen_literals(lits, chosen) =~= target.0);
        assert(res[0] == target);
    } else {
        lemma_conjunctions_complete(lits, subset, min_support, max_depth, current, prefix, idx + 1, j);
        let k = choose|k: int| 0 <= k < rest.len() && rest[k] == target;
        if !feature_used(lits, prefix, lit.literal.feature_idx) {
            let nx = match current {
                Some(m) => and_bits(m, lit.mask@),
                None => lit.mask@,
            };
            if !(count_true(nx) < min_support || count_true(and_bits(nx, subset)) == 0) {
                let chosen = prefix.push(idx as usize);
                let deeper = if chosen.len() < max_depth {
                    conjunctions_from(lits, subset, min_support, max_depth, Some(nx), chosen, idx + 1)
                } else {
                    Seq::empty()
                };
                let here = (chosen_literals(lits, chosen), nx, count_true(nx), count_true(and_bits(nx, subset)));
                assert(res == seq![here] + deeper + rest);
                assert(res[1 + deeper.len() + k] == target);
            }
        }
    }
}

/// The literal masks are well formed, of the subset's length, with clear padding.
pub open spec fn literal_masks_ok(lits: Seq<LiteralMask>, n: nat) -> bool {
    forall|i: int|
        0 <= i < lits.len() ==> {
            &&& (#[trigger] lits[i]).mask.wf()
            &&& lits[i].mask@.len() == n
            &&& lits[i].mask.tail_clear()
        }
}

/// The rows flagged by an optional mask, as plain values.
pub open spec fn mask_flags(m: Option<BitMask>) -> Option<Seq<bool>> {
    match m {
        Some(b) => Some(b@),
        None => None,
    }
}

/// Whether some chosen literal is on feature `f`.
fn uses_feature(literals: &[LiteralMask], prefix: &Vec<usize>, f: usize) -> (r: bool)
    requires
        forall|k: int| 0 <= k < prefix@.len() ==> #[trigger] prefix@[k] < literals@.len(),
    ensures
        r == feature_used(literals@, prefix@, f),
{
    let mut k: usize = 0;
    while k < prefix.len()
        invariant
            k <= prefix@.len(),
            forall|q: int| 0 <= q < prefix@.len() ==> #[trigger] prefix@[q] < literals@.len(),
            forall|q: int| 0 <= q < k ==> literals@[#[trigger] prefix@[q] as int].literal.feature_idx != f,
        decreases prefix@.len() - k,
    {
        if literals[prefix[k]].literal.feature_idx == f {
            return true;
        }
        k += 1;
    }
    false
}

/// The literals at the chosen positions.
fn literals_at(literals: &[LiteralMask], prefix: &Vec<usize>) -> (r: Vec<Literal>)
    requires
        forall|k: int| 0 <= k < prefix@.len() ==> #[trigger] prefix@[k] < literals@.len(),
    ensures
        r@ == chosen_literals(literals@, prefix@),
{
    let mut out: Vec<Literal> = Vec::new();
    let mut k: usize = 0;
    while k < prefix.len()
        invariant
            k <= prefix@.len(),
            forall|q: int| 0 <= q < prefix@.len() ==> #[trigger] prefix@[q] < literals@.len(),
            out@ == chosen_literals(literals@, prefix@.take(k as int)),
        decreases prefix@.len() - k,
    {
        let l = &literals[prefix[k]].literal;
        out.push(Literal { feature_idx: l.feature_idx, positive: l.positive });
        proof {
            assert(chosen_literals(literals@, prefix@.take(k as int + 1)) =~= chosen_literals(
                literals@,
                prefix@.take(k as int),
            ).push(literals@[prefix@[k as int] as int].literal));
        }
        k += 1;
    }
    proof {
        assert(prefix@.take(prefix@.len() as int) =~= prefix@);
    }
    out
}

/// Depth-first search over conjunctions of the literals, extending the chosen
/// literals `prefix` with each literal from `start_idx` on; every conjunction
/// reached is appended to `out` (see `conjunctions_from`).
pub fn enumerate_conjunctions(
    literals: &[LiteralMask],
    subset_mask: &BitMask,
    min_support: usize,
    max_depth: usize,
    current_mask: Option<BitMask>,
    start_idx: usize,
    prefix: &mut Vec<usize>,
    out: &mut Vec<ConjunctionCandidate>,
)
    requires
        subset_mask.wf(),
        subset_mask.tail_clear(),
        literal_masks_ok(literals@, subset_mask@.len()),
        match current_mask {
            Some(m) => m.wf() && m@.len() == subset_mask@.len() && m.tail_clear(),
            None => true,
        },
        forall|k: int| 0 <= k < old(prefix)@.len() ==> #[trigger] old(prefix)@[k] < literals@.len(),
        masks_ok(old(out)@, subset_mask@.len()),
    ensures
        final(prefix)@ == old(prefix)@,
        summaries(final(out)@) == summaries(old(out)@) + conjunctions_from(
            literals@,
            subset_mask@,
            min_support as nat,
            max_depth as nat,
            mask_flags(current_mask),
            old(prefix)@,
            start_idx as int,
        ),
        masks_ok(final(out)@, subset_mask@.len()),
    decreases literals@.len() - start_idx,
{
    let ghost n = subset_mask@.len();
    let ghost cur = mask_flags(current_mask);
    let ghost target = summaries(old(out)@) + conjunctions_from(
        literals@,
        subset_mask@,
        min_support as nat,
        max_depth as nat,
        cur,
        old(prefix)@,
        start_idx as int,
    );
    let mut idx = start_idx;
    if idx > literals.len() {
        proof {
            assert(summaries(out@) =~= target);
        }
        return;
    }
    while idx < literals.len()
        invariant
            subset_mask.wf(),
            subset_mask.tail_clear(),
            n == subset_mask@.len(),
            literal_masks_ok(literals@, n),
            cur == mask_flags(current_mask),
            match current_mask {
                Some(m) => m.wf() && m@.len() == n && m.tail_clear(),
                None => true,
            },
            prefix@ == old(prefix)@,
            forall|k: int| 0 <= k < prefix@.len() ==> #[trigger] prefix@[k] < literals@.len(),
            start_idx <= idx <= literals@.len(),
            masks_ok(out@, n),
            summaries(out@) + conjunctions_from(
                literals@,
                subset_mask@,
                min_support as nat,
                max_depth as nat,
                cur,
                prefix@,
                idx as int,
            ) == target,
        decreases literals@.len() - idx,
    {
        let ghost rest = conjunctions_from(
            literals@,
            subset_mask@,
            min_support as nat,
            max_depth as nat,
            cur,
            prefix@,
            idx as int + 1,
        );
        let literal = &literals[idx];
        proof {
            assert(literal_masks_ok(literals@, n));
            assert(literals@[idx as int].mask.wf());
        }
        if !uses_feature(literals, prefix, literal.literal.feature_idx) {
            let next_mask = match &current_mask {
                Some(mask) => mask.and(&literal.mask),
                None => literal.mask.duplicate(),
            };
            let support = next_mask.count_ones();
            if support >= min_support {
                let positives = next_mask.and_count(subset_mask);
                if positives != 0 {
                    let ghost before = out@;
                    let ghost next = next_mask@;
                    prefix.push(idx);
                    let chosen = literals_at(literals, prefix);
                    let stored = next_mask.duplicate();
                    out.push(ConjunctionCandidate { literals: chosen, mask: stored, support, positives });
                    let ghost after_here = out@;
                    proof {
                        assert(summaries(after_here) =~= summaries(before).push(
                            (chosen_literals(literals@, prefix@), next, support as nat, positives as nat),
                        ));
                        assert forall|k: int| 0 <= k < prefix@.len() implies #[trigger] prefix@[k] < literals@.len() by {
                            if k < prefix@.len() - 1 {
                                assert(prefix@[k] == old(prefix)@[k]);
                            }
                        }
                    }
                    if prefix.len() < max_depth {
                        enumerate_conjunctions(
                            literals,
                            subset_mask,
                            min_support,
                            max_depth,
                            Some(next_mask),
                            idx + 1,
                            prefix,
                            out,
                        );
                    }
                    prefix.pop();
                    proof {
                        let chosen_p = old(prefix)@.push(idx as usize);
                        let deeper = if chosen_p.len() < max_depth {
                            conjunctions_from(
                                literals@,
                                subset_mask@,
                                min_support as nat,
                                max_depth as nat,
                                Some(next),
                                chosen_p,
                                idx + 1,
                            )
                        } else {
                            Seq::empty()
                        };
                        assert(summaries(out@) =~= summaries(before) + seq![
                            (chosen_literals(literals@, chosen_p), next, support as nat, positives as nat),
                        ] + deeper);
                        assert(prefix@ =~= old(prefix)@);
                    }
                }
            }
        }
        idx += 1;
    }
    proof {
        assert(summaries(out@) =~= target);
    }
}

} // verus!
