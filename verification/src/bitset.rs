use vstd::prelude::*;

verus! {

broadcast use vstd::std_specs::bits::group_bits_axioms;

/// Bit `i` (least significant first) of a 64-bit word.
pub open spec fn word_bit(w: u64, i: u64) -> bool {
    (w >> i) & 1u64 == 1u64
}

/// The bits of a sequence of words: bit `i` lives in word `i / 64` at position `i % 64`.
pub open spec fn bits_of(ws: Seq<u64>) -> Seq<bool> {
    Seq::new(ws.len() * 64, |i: int| word_bit(ws[i / 64], (i % 64) as u64))
}

/// The 64 bits of one word, least significant first.
pub open spec fn word_bits(w: u64) -> Seq<bool> {
    Seq::new(64, |j: int| word_bit(w, j as u64))
}

/// Number of set flags in a sequence.
pub open spec fn count_true(s: Seq<bool>) -> nat
    decreases s.len(),
{
    if s.len() == 0 {
        0
    } else {
        count_true(s.drop_last()) + if s.last() {
            1nat
        } else {
            0nat
        }
    }
}

/// Pointwise conjunction of two flag sequences of equal length.
pub open spec fn and_bits(a: Seq<bool>, b: Seq<bool>) -> Seq<bool> {
    Seq::new(a.len(), |i: int| a[i] && b[i])
}

/// Pointwise negation of a flag sequence.
pub open spec fn not_bits(a: Seq<bool>) -> Seq<bool> {
    Seq::new(a.len(), |i: int| !a[i])
}

/// Positions of the set flags, in increasing order.
pub open spec fn true_positions(s: Seq<bool>) -> Seq<usize>
    decreases s.len(),
{
    if s.len() == 0 {
        Seq::empty()
    } else {
        let rest = true_positions(s.drop_last());
        if s.last() {
            rest.push((s.len() - 1) as usize)
        } else {
            rest
        }
    }
}

/// Number of 64-bit words needed to hold `len` bits.
pub open spec fn word_count(len: nat) -> nat {
    (len + 63) / 64
}

/// A fixed-length set of row flags packed into 64-bit words.
#[derive(Clone, Debug, Eq, PartialEq)]
pub struct BitMask {
    len: usize,
    words: Vec<u64>,
}

impl View for BitMask {
    type V = Seq<bool>;

    /// The `len` logical flags of the mask.
    closed spec fn view(&self) -> Seq<bool> {
        self.raw().take(self.len as int)
    }
}

impl BitMask {
    /// Every stored bit, including the padding bits of the last word.
    pub closed spec fn raw(&self) -> Seq<bool> {
        bits_of(self.words@)
    }

    /// The word vector has exactly the words the length needs, and every stored
    /// bit position fits in a `usize`.
    pub closed spec fn wf(&self) -> bool {
        &&& self.words@.len() == word_count(self.len as nat)
        &&& self.len + 63 <= usize::MAX
    }

    /// The padding bits past the logical length are all clear.
    pub open spec fn tail_clear(&self) -> bool {
        forall|i: int| self@.len() <= i < self.raw().len() ==> !#[trigger] self.raw()[i]
    }

    /// A well-formed mask stores its flags in whole words: the stored bits are the
    /// flags followed by fewer than 64 padding bits, and their count fits a `usize`.
    pub proof fn lemma_shape(&self)
        requires
            self.wf(),
        ensures
            self.raw().len() == word_count(self@.len()) * 64,
            self@.len() <= self.raw().len() < self@.len() + 64,
            self.raw().len() <= usize::MAX,
            self@.len() <= usize::MAX - 63,
            self@ == self.raw().take(self@.len() as int),
    {
        assert(word_count(self.len as nat) * 64 <= self.len + 63) by (nonlinear_arith)
            requires
                word_count(self.len as nat) == (self.len + 63) / 64,
        ;
        assert(word_count(self.len as nat) * 64 >= self.len) by (nonlinear_arith)
            requires
                word_count(self.len as nat) == (self.len + 63) / 64,
        ;
    }

    /// A mask of `len` clear flags.
    pub fn new_zeros(len: usize) -> (r: Self)
        requires
            len <= usize::MAX - 63,
        ensures
            r.wf(),
            r@ == Seq::new(len as nat, |i: int| false),
            r.raw() == Seq::new(r.raw().len(), |i: int| false),
            r.tail_clear(),
    {
        let n_words = len / 64 + if len % 64 != 0 { 1 } else { 0 };
        let r = BitMask { len, words: vec![0u64; n_words] };
        proof {
            assert forall|i: int| 0 <= i < r.raw().len() implies !#[trigger] r.raw()[i] by {
                let b = (i % 64) as u64;
                assert((0u64 >> b) & 1u64 == 0u64) by (bit_vector);
            }
            r.lemma_shape();
            assert(r@ =~= Seq::new(len as nat, |i: int| false));
            assert(r.raw() =~= Seq::new(r.raw().len(), |i: int| false));
        }
        r
    }

    /// Flag `idx`; any stored bit may be read, padding bits included.
    pub fn get(&self, idx: usize) -> (b: bool)
        requires
            self.wf(),
            idx < self.raw().len(),
        ensures
            b == self.raw()[idx as int],
            idx < self@.len() ==> b == self@[idx as int],
    {
        proof {
            self.lemma_shape();
        }
        let word = idx / 64;
        let bit = (idx % 64) as u64;
        ((self.words[word] >> bit) & 1u64) == 1u64
    }

    /// Set or clear flag `idx`; any stored bit may be written, padding bits included.
    pub fn set(&mut self, idx: usize, value: bool)
        requires
            old(self).wf(),
            idx < old(self).raw().len(),
        ensures
            final(self).wf(),
            final(self)@.len() == old(self)@.len(),
            final(self).raw() == old(self).raw().update(idx as int, value),
            idx < old(self)@.len() ==> final(self)@ == old(self)@.update(idx as int, value),
            idx < old(self)@.len() && old(self).tail_clear() ==> final(self).tail_clear(),
    {
        proof {
            self.lemma_shape();
            lemma_bit_position(self.words@.len() as int, idx as int);
        }
        let word = idx / 64;
        let bit = (idx % 64) as u64;
        let old_word = self.words[word];
        let new_word = if value {
            old_word | (1u64 << bit)
        } else {
            old_word & !(1u64 << bit)
        };
        self.words.set(word, new_word);
        proof {
            let r0 = old(self).raw();
            let r1 = self.raw();
            assert forall|i: int| 0 <= i < r1.len() implies r1[i] == r0.update(
                idx as int,
                value,
            )[i] by {
                lemma_bit_position(self.words@.len() as int, i);
                lemma_word_bit_ops(old_word, 0, bit, (i % 64) as u64);
            }
            assert(r1 =~= r0.update(idx as int, value));
            self.lemma_shape();
            if idx < old(self)@.len() {
                assert(self@ =~= old(self)@.update(idx as int, value));
            }
        }
    }

    /// The mask of `len` flags whose flag `i` is `flags[i]`; entries of `flags` past
    /// the stored bits must be clear.
    pub fn from_bool_iter(len: usize, flags: &[bool]) -> (r: Self)
        requires
            len <= usize::MAX - 63,
            forall|i: int| 0 <= i < flags@.len() && #[trigger] flags@[i] ==> i < word_count(
                len as nat,
            ) * 64,
        ensures
            r.wf(),
            r@.len() == len,
            r.raw() == Seq::new(r.raw().len(), |i: int| i < flags@.len() && flags@[i]),
            r@ == Seq::new(len as nat, |i: int| i < flags@.len() && flags@[i]),
            flags@.len() <= len ==> r.tail_clear(),
    {
        let mut mask = Self::new_zeros(len);
        proof {
            mask.lemma_shape();
        }
        let ghost cap = mask.raw().len();
        let mut idx: usize = 0;
        while idx < flags.len()
            invariant
                mask.wf(),
                mask@.len() == len,
                mask.raw().len() == cap,
                cap == word_count(len as nat) * 64,
                idx <= flags@.len(),
                forall|i: int| 0 <= i < flags@.len() && #[trigger] flags@[i] ==> i < cap,
                mask.raw() == Seq::new(cap, |i: int| i < idx && flags@[i]),
            decreases flags@.len() - idx,
        {
            if flags[idx] {
                mask.set(idx, true);
            }
            proof {
                assert(mask.raw() =~= Seq::new(cap, |i: int| i < idx + 1 && flags@[i]));
            }
            idx += 1;
        }
        proof {
            mask.lemma_shape();
            assert(mask.raw() =~= Seq::new(cap, |i: int| i < flags@.len() && flags@[i]));
            assert(mask@ =~= Seq::new(len as nat, |i: int| i < flags@.len() && flags@[i]));
        }
        mask
    }

    /// A copy of the mask.
    pub fn duplicate(&self) -> (r: Self)
        requires
            self.wf(),
        ensures
            r.wf(),
            r@ == self@,
            r.raw() == self.raw(),
            r.tail_clear() == self.tail_clear(),
    {
        let n = self.words.len();
        let mut words: Vec<u64> = Vec::new();
        let mut i: usize = 0;
        while i < n
            invariant
                n == self.words@.len(),
                i <= n,
                words@ == self.words@.take(i as int),
            decreases n - i,
        {
            words.push(self.words[i]);
            proof {
                assert(self.words@.take(i as int + 1) =~= self.words@.take(i as int).push(
                    self.words@[i as int],
                ));
            }
            i += 1;
        }
        proof {
            assert(self.words@.take(n as int) =~= self.words@);
        }
        let r = BitMask { len: self.len, words };
        proof {
            assert(r.raw() =~= self.raw());
            assert(r@ =~= self@);
        }
        r
    }

    /// Flagwise conjunction of two masks of the same length.
    pub fn and(&self, other: &Self) -> (r: Self)
        requires
            self.wf(),
            other.wf(),
            self@.len() == other@.len(),
        ensures
            r.wf(),
            r.raw() == and_bits(self.raw(), other.raw()),
            r@ == and_bits(self@, other@),
            self.tail_clear() || other.tail_clear() ==> r.tail_clear(),
    {
        proof {
            self.lemma_shape();
            other.lemma_shape();
        }
        let n = self.words.len();
        let mut words: Vec<u64> = Vec::new();
        let mut i: usize = 0;
        while i < n
            invariant
                n == self.words@.len(),
                n == other.words@.len(),
                i <= n,
                words@.len() == i,
                forall|k: int| 0 <= k < i ==> #[trigger] words@[k] == self.words@[k]
                    & other.words@[k],
            decreases n - i,
        {
            words.push(self.words[i] & other.words[i]);
            i += 1;
        }
        let r = BitMask { len: self.len, words };
        proof {
            let ra = self.raw();
            let rb = other.raw();
            assert forall|k: int| 0 <= k < r.raw().len() implies r.raw()[k] == (ra[k]
                && rb[k]) by {
                lemma_bit_position(n as int, k);
                lemma_word_bit_ops(
                    self.words@[k / 64],
                    other.words@[k / 64],
                    0,
                    (k % 64) as u64,
                );
            }
            assert(r.raw() =~= and_bits(ra, rb));
            r.lemma_shape();
            assert(r@ =~= and_bits(self@, other@));
        }
        r
    }

    /// Number of stored bits set, padding bits included.
    pub fn count_ones(&self) -> (r: usize)
        requires
            self.wf(),
        ensures
            r == count_true(self.raw()),
            self.tail_clear() ==> r == count_true(self@),
    {
        proof {
            self.lemma_shape();
        }
        let r = count_word_ones(&self.words);
        proof {
            self.lemma_tail_count();
        }
        r
    }

    /// Number of flags set in both masks (the support of their conjunction).
    pub fn and_count(&self, other: &Self) -> (r: usize)
        requires
            self.wf(),
            other.wf(),
            self@.len() == other@.len(),
        ensures
            r == count_true(and_bits(self.raw(), other.raw())),
            self.tail_clear() || other.tail_clear() ==> r == count_true(
                and_bits(self@, other@),
            ),
    {
        proof {
            self.lemma_shape();
            other.lemma_shape();
        }
        let n = self.words.len();
        let ghost both = Seq::new(n as nat, |k: int| self.words@[k] & other.words@[k]);
        let mut total: usize = 0;
        let mut i: usize = 0;
        while i < n
            invariant
                n == self.words@.len(),
                n == other.words@.len(),
                n * 64 <= usize::MAX,
                both == Seq::new(n as nat, |k: int| self.words@[k] & other.words@[k]),
                i <= n,
                total == count_true(bits_of(both.take(i as int))),
            decreases n - i,
        {
            let c = word_ones(self.words[i] & other.words[i]);
            proof {
                lemma_bits_of_take(both, i as int);
                lemma_count_true_concat(bits_of(both.take(i as int)), word_bits(both[i as int]));
                lemma_count_true_bound(bits_of(both.take(i as int + 1)));
                assert(bits_of(both.take(i as int + 1)).len() == (i + 1) * 64);
                assert((i + 1) * 64 <= n * 64) by (nonlinear_arith)
                    requires
                        i < n,
                ;
            }
            total = total + c as usize;
            i += 1;
        }
        proof {
            let ra = self.raw();
            let rb = other.raw();
            let rz = and_bits(ra, rb);
            assert(both.take(n as int) =~= both);
            assert forall|k: int| 0 <= k < rz.len() implies bits_of(both)[k] == rz[k] by {
                lemma_bit_position(n as int, k);
                lemma_word_bit_ops(self.words@[k / 64], other.words@[k / 64], 0, (k % 64) as u64);
            }
            assert(bits_of(both) =~= rz);
            if self.tail_clear() || other.tail_clear() {
                lemma_count_true_prefix(rz, self.len as int);
                assert(rz.take(self.len as int) =~= and_bits(self@, other@));
            }
        }
        total
    }

    /// Flagwise complement; padding bits come out clear.
    pub fn not(&self) -> (r: Self)
        requires
            self.wf(),
        ensures
            r.wf(),
            r@ == not_bits(self@),
            r.tail_clear(),
    {
        proof {
            self.lemma_shape();
        }
        let n = self.words.len();
        let mut words: Vec<u64> = Vec::new();
        let mut i: usize = 0;
        while i < n
            invariant
                n == self.words@.len(),
                i <= n,
                words@.len() == i,
                forall|k: int| 0 <= k < i ==> #[trigger] words@[k] == !self.words@[k],
            decreases n - i,
        {
            words.push(!self.words[i]);
            i += 1;
        }
        let mut out = BitMask { len: self.len, words };
        proof {
            assert forall|k: int| 0 <= k < out.raw().len() implies out.raw()[k] == !self.raw()[k] by {
                lemma_bit_position(n as int, k);
                lemma_word_bit_ops(self.words@[k / 64], 0, 0, (k % 64) as u64);
            }
        }
        out.clear_excess_bits();
        proof {
            out.lemma_shape();
            assert(out@ =~= not_bits(self@));
        }
        out
    }

    /// The flags as booleans.
    pub fn to_bools(&self) -> (r: Vec<bool>)
        requires
            self.wf(),
        ensures
            r@ == self@,
    {
        proof {
            self.lemma_shape();
        }
        let mut out: Vec<bool> = Vec::new();
        let mut i: usize = 0;
        while i < self.len
            invariant
                self.wf(),
                i <= self.len,
                out@.len() == i,
                self@.len() == self.len,
                forall|k: int| 0 <= k < i ==> #[trigger] out@[k] == self@[k],
            decreases self.len - i,
        {
            out.push(self.get(i));
            i += 1;
        }
        proof {
            assert(out@ =~= self@);
        }
        out
    }

    /// Positions of the set flags, in increasing order; padding bits are skipped.
    pub fn indices(&self) -> (r: Vec<usize>)
        requires
            self.wf(),
        ensures
            r@ == true_positions(self@),
    {
        proof {
            self.lemma_shape();
        }
        let mut out: Vec<usize> = Vec::with_capacity(self.count_ones());
        let n = self.words.len();
        let len = self.len;
        let ghost raw = self.raw();
        let mut word_idx: usize = 0;
        proof {
            assert(raw.take(0) =~= Seq::<bool>::empty());
        }
        while word_idx < n
            invariant
                self.wf(),
                raw == self.raw(),
                n == self.words@.len(),
                len == self.len,
                raw.len() == n * 64,
                n * 64 < len + 64,
                len <= n * 64,
                n * 64 <= usize::MAX,
                word_idx <= n,
                out@ == true_positions(raw.take(min_int(word_idx * 64, len as int))),
            decreases n - word_idx,
        {
            assert(word_idx * 64 < len) by (nonlinear_arith)
                requires
                    word_idx < n,
                    n * 64 < len + 64,
            ;
            assert(word_idx * 64 + 64 <= n * 64) by (nonlinear_arith)
                requires
                    word_idx < n,
            ;
            let base = word_idx * 64;
            let orig = self.words[word_idx];
            proof {
                assert forall|j: int| 0 <= j < 64 implies #[trigger] raw[base + j] == word_bit(
                    orig,
                    j as u64,
                ) by {
                    lemma_word_slot(word_idx as int, j);
                }
            }
            let mut w = orig;
            let ghost mut c: int = 0;
            while w != 0
                invariant
                    raw.len() == n * 64,
                    base == word_idx * 64,
                    base < len,
                    base + 64 <= n * 64,
                    n * 64 <= usize::MAX,
                    0 <= c <= 64,
                    forall|j: int| 0 <= j < 64 ==> #[trigger] raw[base + j] == word_bit(
                        orig,
                        j as u64,
                    ),
                    forall|j: u64| j < 64 ==> #[trigger] word_bit(w, j) == (j >= c && word_bit(
                        orig,
                        j,
                    )),
                    out@ == true_positions(raw.take(min_int(base + c, len as int))),
                decreases 64 - c,
            {
                let tz = w.trailing_zeros();
                proof {
                    lemma_clear_lowest(w, tz as u64);
                    if tz < c {
                        assert(word_bit(w, tz as u64));
                    }
                    assert forall|i: int|
                        min_int(base + c, len as int) <= i < min_int(
                            base + tz,
                            len as int,
                        ) implies !#[trigger] raw[i] by {
                        let j = i - base;
                        assert(!word_bit(w, j as u64));
                        assert(raw[base + j] == word_bit(orig, j as u64));
                    }
                    lemma_true_positions_skip(raw, min_int(base + c, len as int), min_int(base + tz, len as int));
                }
                let tzu = tz as usize;
                if tzu < len - base {
                    proof {
                        assert(word_bit(w, tz as u64));
                        lemma_true_positions_step(raw, base + tz);
                    }
                    out.push(base + tzu);
                } else {
                    proof {
                        assert(min_int(base + tz + 1, len as int) == min_int(base + tz, len as int));
                    }
                }
                let prev = w;
                w = prev & (prev - 1);
                proof {
                    assert forall|j: u64| j < 64 implies #[trigger] word_bit(w, j) == (j >= tz + 1
                        && word_bit(orig, j)) by {
                        lemma_clear_lowest_bit(prev, tz as u64, j);
                    }
                    c = tz + 1;
                }
            }
            proof {
                assert forall|i: int|
                    min_int(base + c, len as int) <= i < min_int(
                        base + 64,
                        len as int,
                    ) implies !#[trigger] raw[i] by {
                    let j = i - base;
                    lemma_word_bit_ops(0, 0, 0, j as u64);
                    assert(!word_bit(w, j as u64));
                    assert(raw[base + j] == word_bit(orig, j as u64));
                }
                lemma_true_positions_skip(raw, min_int(base + c, len as int), min_int(base + 64, len as int));
            }
            word_idx += 1;
        }
        proof {
            assert(min_int(n * 64, len as int) == len);
            assert(raw.take(len as int) =~= self@);
        }
        out
    }

    /// Clear the padding bits of the last word.
    fn clear_excess_bits(&mut self)
        requires
            old(self).wf(),
        ensures
            final(self).wf(),
            final(self).len == old(self).len,
            final(self).raw() == Seq::new(
                old(self).raw().len(),
                |i: int| i < old(self).len && old(self).raw()[i],
            ),
    {
        proof {
            self.lemma_shape();
        }
        let excess = self.words.len() * 64 - self.len;
        if excess > 0 {
            let keep = (64 - excess) as u64;
            let mask = if keep == 64 {
                u64::MAX
            } else {
                proof {
                    lemma_word_bit_ops(0, 0, keep, 0);
                }
                (1u64 << keep) - 1u64
            };
            let k = self.words.len() - 1;
            let last = self.words[k];
            self.words.set(k, last & mask);
            proof {
                let r0 = old(self).raw();
                let r1 = self.raw();
                let n = self.words@.len() as int;
                assert forall|i: int| 0 <= i < r1.len() implies r1[i] == (i < old(self).len
                    && r0[i]) by {
                    lemma_bit_position(n, i);
                    lemma_word_bit_ops(last, 0, keep, (i % 64) as u64);
                    if i / 64 == k {
                        assert(i < old(self).len <==> i % 64 < keep);
                    } else {
                        assert(i / 64 < k);
                        assert(i < old(self).len);
                    }
                }
                assert(r1 =~= Seq::new(r0.len(), |i: int| i < old(self).len && r0[i]));
            }
        } else {
            proof {
                let r0 = old(self).raw();
                assert(r0 =~= Seq::new(r0.len(), |i: int| i < old(self).len && r0[i]));
            }
        }
    }

    /// With clear padding, the count over the stored bits is the count over the flags.
    proof fn lemma_tail_count(&self)
        requires
            self.wf(),
        ensures
            self.tail_clear() ==> count_true(self.raw()) == count_true(self@),
    {
        self.lemma_shape();
        if self.tail_clear() {
            lemma_count_true_prefix(self.raw(), self.len as int);
        }
    }
}

/// Counting set flags distributes over concatenation.
pub proof fn lemma_count_true_concat(a: Seq<bool>, b: Seq<bool>)
    ensures
        count_true(a + b) == count_true(a) + count_true(b),
    decreases b.len(),
{
    if b.len() > 0 {
        lemma_count_true_concat(a, b.drop_last());
        assert((a + b).drop_last() =~= a + b.drop_last());
    } else {
        assert(a + b =~= a);
    }
}

/// A sequence has at most as many set flags as entries.
pub proof fn lemma_count_true_bound(s: Seq<bool>)
    ensures
        count_true(s) <= s.len(),
    decreases s.len(),
{
    if s.len() > 0 {
        lemma_count_true_bound(s.drop_last());
    }
}

/// The bit identities the mask operations rest on.
proof fn lemma_word_bit_ops(w: u64, v: u64, b: u64, j: u64)
    requires
        b < 64,
        j < 64,
    ensures
        word_bit(w | (1u64 << b), j) == (j == b || word_bit(w, j)),
        word_bit(w & !(1u64 << b), j) == (j != b && word_bit(w, j)),
        word_bit(w & v, j) == (word_bit(w, j) && word_bit(v, j)),
        word_bit(!w, j) == !word_bit(w, j),
        b > 0 ==> (1u64 << b) >= 1u64,
        b > 0 ==> word_bit(w & (((1u64 << b) - 1u64) as u64), j) == (j < b && word_bit(w, j)),
        !word_bit(0u64, j),
{
    assert(((w | (1u64 << b)) >> j) & 1u64 == 1u64 <==> (j == b || (w >> j) & 1u64 == 1u64))
        by (bit_vector)
        requires
            b < 64,
            j < 64,
    ;
    assert(((w & !(1u64 << b)) >> j) & 1u64 == 1u64 <==> (j != b && (w >> j) & 1u64 == 1u64))
        by (bit_vector)
        requires
            b < 64,
            j < 64,
    ;
    assert(((w & v) >> j) & 1u64 == 1u64 <==> ((w >> j) & 1u64 == 1u64 && (v >> j) & 1u64
        == 1u64)) by (bit_vector);
    assert(((!w) >> j) & 1u64 == 1u64 <==> !((w >> j) & 1u64 == 1u64)) by (bit_vector)
        requires
            j < 64,
    ;
    assert(b > 0 ==> (1u64 << b) >= 1u64) by (bit_vector)
        requires
            b < 64,
    ;
    assert(b > 0 ==> (((w & (((1u64 << b) - 1u64) as u64)) >> j) & 1u64 == 1u64 <==> (j < b && (w >> j)
        & 1u64 == 1u64))) by (bit_vector)
        requires
            b < 64,
            j < 64,
    ;
    assert((0u64 >> j) & 1u64 == 0u64) by (bit_vector);
}

/// Position `i` of the bits of `ws` lies in word `i / 64`, at offset `i % 64`.
proof fn lemma_bit_position(n: int, i: int)
    requires
        0 <= i < n * 64,
    ensures
        0 <= i / 64 < n,
        0 <= i % 64 < 64,
        i == (i / 64) * 64 + i % 64,
{
    assert(0 <= i / 64 < n) by (nonlinear_arith)
        requires
            0 <= i < n * 64,
    ;
}

/// The bits of the first `k + 1` words extend those of the first `k` by word `k`.
proof fn lemma_bits_of_take(ws: Seq<u64>, k: int)
    requires
        0 <= k < ws.len(),
    ensures
        bits_of(ws.take(k + 1)) =~= bits_of(ws.take(k)) + word_bits(ws[k]),
{
    let a = bits_of(ws.take(k + 1));
    let b = bits_of(ws.take(k)) + word_bits(ws[k]);
    assert forall|i: int| 0 <= i < a.len() implies a[i] == b[i] by {
        lemma_bit_position(k + 1, i);
        if i < k * 64 {
            lemma_bit_position(k, i);
        } else {
            assert(i / 64 == k) by (nonlinear_arith)
                requires
                    k * 64 <= i < (k + 1) * 64,
            ;
        }
    }
    assert(a.len() == b.len()) by (nonlinear_arith)
        requires
            a.len() == (k + 1) * 64,
            b.len() == k * 64 + 64,
    ;
}

/// A sequence of clear flags counts zero.
pub proof fn lemma_count_true_all_false(s: Seq<bool>)
    requires
        forall|i: int| 0 <= i < s.len() ==> !#[trigger] s[i],
    ensures
        count_true(s) == 0,
    decreases s.len(),
{
    if s.len() > 0 {
        lemma_count_true_all_false(s.drop_last());
    }
}

/// A sequence whose flags from `k` on are clear counts as its first `k` flags.
pub proof fn lemma_count_true_prefix(s: Seq<bool>, k: int)
    requires
        0 <= k <= s.len(),
        forall|i: int| k <= i < s.len() ==> !#[trigger] s[i],
    ensures
        count_true(s) == count_true(s.take(k)),
{
    let tail = s.skip(k);
    assert(s =~= s.take(k) + tail);
    lemma_count_true_concat(s.take(k), tail);
    lemma_count_true_all_false(tail);
}

/// Total number of set bits over a word vector.
fn count_word_ones(words: &Vec<u64>) -> (r: usize)
    requires
        words@.len() * 64 <= usize::MAX,
    ensures
        r == count_true(bits_of(words@)),
{
    let n = words.len();
    let mut total: usize = 0;
    let mut i: usize = 0;
    while i < n
        invariant
            n == words@.len(),
            n * 64 <= usize::MAX,
            i <= n,
            total == count_true(bits_of(words@.take(i as int))),
        decreases n - i,
    {
        let c = word_ones(words[i]);
        proof {
            lemma_bits_of_take(words@, i as int);
            lemma_count_true_concat(bits_of(words@.take(i as int)), word_bits(words@[i as int]));
            lemma_count_true_bound(bits_of(words@.take(i as int + 1)));
            assert(bits_of(words@.take(i as int + 1)).len() == (i + 1) * 64);
            assert((i + 1) * 64 <= n * 64) by (nonlinear_arith)
                requires
                    i < n,
            ;
        }
        total = total + c as usize;
        i += 1;
    }
    proof {
        assert(words@.take(n as int) =~= words@);
    }
    total
}

pub open spec fn min_int(a: int, b: int) -> int {
    if a <= b {
        a
    } else {
        b
    }
}

/// Bit `j` of word `k` sits at position `64 * k + j`.
proof fn lemma_word_slot(k: int, j: int)
    requires
        0 <= k,
        0 <= j < 64,
    ensures
        (k * 64 + j) / 64 == k,
        (k * 64 + j) % 64 == j,
{
    assert((k * 64 + j) / 64 == k) by (nonlinear_arith)
        requires
            0 <= k,
            0 <= j < 64,
    ;
    assert((k * 64 + j) % 64 == j) by (nonlinear_arith)
        requires
            0 <= k,
            0 <= j < 64,
    ;
}

/// Clearing the lowest set bit `t` of `w` with `w & (w - 1)` keeps every other bit.
proof fn lemma_clear_lowest_bit(w: u64, t: u64, j: u64)
    requires
        w != 0,
        t < 64,
        j < 64,
        (w >> t) & 1u64 == 1u64,
        w << ((64 - t) as u64) == 0,
    ensures
        word_bit(w & ((w - 1) as u64), j) == (j != t && word_bit(w, j)),
{
    assert(((w & ((w - 1) as u64)) >> j) & 1u64 == 1u64 <==> (j != t && (w >> j) & 1u64 == 1u64))
        by (bit_vector)
        requires
            w != 0,
            t < 64,
            j < 64,
            (w >> t) & 1u64 == 1u64,
            w << ((64 - t) as u64) == 0,
    ;
}

/// What `trailing_zeros` says of a nonzero word, in terms of `word_bit`.
proof fn lemma_clear_lowest(w: u64, t: u64)
    requires
        w != 0,
        t == vstd::std_specs::bits::u64_trailing_zeros(w),
    ensures
        t < 64,
        word_bit(w, t),
        forall|j: u64| j < t ==> !#[trigger] word_bit(w, j),
        w << ((64 - t) as u64) == 0,
{
    assert forall|j: u64| j < t implies !#[trigger] word_bit(w, j) by {
        assert((w >> j) & 1u64 == 0u64);
    }
}

/// One more flag adds its position when it is set.
proof fn lemma_true_positions_step(s: Seq<bool>, k: int)
    requires
        0 <= k < s.len(),
    ensures
        true_positions(s.take(k + 1)) == if s[k] {
            true_positions(s.take(k)).push(k as usize)
        } else {
            true_positions(s.take(k))
        },
{
    assert(s.take(k + 1).drop_last() =~= s.take(k));
}

/// Clear flags between `a` and `b` add no positions.
pub proof fn lemma_true_positions_skip(s: Seq<bool>, a: int, b: int)
    requires
        0 <= a <= b <= s.len(),
        forall|i: int| a <= i < b ==> !#[trigger] s[i],
    ensures
        true_positions(s.take(b)) == true_positions(s.take(a)),
    decreases b - a,
{
    if b > a {
        lemma_true_positions_skip(s, a, b - 1);
        lemma_true_positions_step(s, b - 1);
    }
}

/// The positions listed for a flag sequence are exactly its set flags: strictly
/// increasing, each in range and set, every set flag listed, and as many as
/// there are set flags.
pub proof fn lemma_true_positions_exact(s: Seq<bool>)
    requires
        s.len() <= usize::MAX,
    ensures
        true_positions(s).len() == count_true(s),
        forall|p: int, q: int|
            0 <= p < q < true_positions(s).len() ==> #[trigger] true_positions(s)[p]
                < #[trigger] true_positions(s)[q],
        forall|p: int|
            0 <= p < true_positions(s).len() ==> #[trigger] true_positions(s)[p] < s.len()
                && s[true_positions(s)[p] as int],
        forall|i: int| 0 <= i < s.len() && #[trigger] s[i] ==> true_positions(s).contains(i as usize),
    decreases s.len(),
{
    if s.len() > 0 {
        let d = s.drop_last();
        lemma_true_positions_exact(d);
        let t = true_positions(s);
        let td = true_positions(d);
        assert forall|i: int| 0 <= i < s.len() && #[trigger] s[i] implies t.contains(i as usize) by {
            if i < s.len() - 1 {
                assert(d[i] == s[i]);
                let k = choose|k: int| 0 <= k < td.len() && td[k] == i as usize;
                assert(t[k] == td[k]);
            } else {
                assert(t[t.len() - 1] == i as usize);
            }
        }
    }
}

/// Complementing a mask splits its flags: set flags and complement flags add up
/// to the length.
pub proof fn lemma_count_complement(s: Seq<bool>)
    ensures
        count_true(s) + count_true(not_bits(s)) == s.len(),
    decreases s.len(),
{
    if s.len() > 0 {
        lemma_count_complement(s.drop_last());
        assert(not_bits(s).drop_last() =~= not_bits(s.drop_last()));
    }
}

/// Complementing twice gives the mask back.
pub proof fn lemma_not_involutive(s: Seq<bool>)
    ensures
        not_bits(not_bits(s)) == s,
{
    assert(not_bits(not_bits(s)) =~= s);
}

/// A mask and its complement share no flag.
pub proof fn lemma_and_not_disjoint(s: Seq<bool>)
    ensures
        count_true(and_bits(s, not_bits(s))) == 0,
{
    lemma_count_true_all_false(and_bits(s, not_bits(s)));
}

/// Conjunction is commutative and idempotent.
pub proof fn lemma_and_algebra(a: Seq<bool>, b: Seq<bool>)
    requires
        a.len() == b.len(),
    ensures
        and_bits(a, b) == and_bits(b, a),
        and_bits(a, a) == a,
{
    assert(and_bits(a, b) =~= and_bits(b, a));
    assert(and_bits(a, a) =~= a);
}

/// The support of a conjunction is at most the support of either side, which
/// is what lets a conjunction search stop extending a rule once its support is
/// too small.
pub proof fn lemma_and_support_monotone(a: Seq<bool>, b: Seq<bool>)
    requires
        a.len() == b.len(),
    ensures
        count_true(and_bits(a, b)) <= count_true(a),
        count_true(and_bits(a, b)) <= count_true(b),
    decreases a.len(),
{
    if a.len() > 0 {
        lemma_and_support_monotone(a.drop_last(), b.drop_last());
        assert(and_bits(a, b).drop_last() =~= and_bits(a.drop_last(), b.drop_last()));
    }
}

/// Calls std's `u64::count_ones`, whose documented result is the number of ones
/// in the binary representation: the contract takes it as the count of set bits
/// in `word_bits(w)`.
#[verifier::external_body]
fn word_ones(w: u64) -> (r: u32)
    ensures
        r as nat == count_true(word_bits(w)),
{
    w.count_ones()
}

} // verus!
