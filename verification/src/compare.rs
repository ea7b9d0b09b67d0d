use vstd::prelude::*;

verus! {

/// Where the random draw stands relative to the bias when the two are too
/// close to call at the current precision: the difference `rand - bias` is
/// exactly minus one, zero, or plus one.
#[derive(Clone, Copy, Debug, PartialEq, Eq, Structural)]
pub enum Diff {
    Below,
    Even,
    Above,
}

/// The difference a `Diff` stands for.
pub open spec fn diff_val(d: Diff) -> int {
    match d {
        Diff::Below => -1,
        Diff::Even => 0,
        Diff::Above => 1,
    }
}

/// The outcome of one bias comparison round: either the bit is settled, or
/// the outcome depends on bits finer than the precision examined so far and
/// the comparison must escalate, carrying where the draw stands.
#[derive(Clone, Copy, Debug, PartialEq, Eq, Structural)]
pub enum BitDecision {
    Decided(u64),
    NeedMorePrecision(Diff),
}

/// Compares one uniform random word against the 64-bit bias for a bit
/// position.  The bit is one exactly when the draw falls strictly below the
/// bias; a draw within one of the bias is left undecided, since bits beyond
/// the examined 64 could swing the comparison either way.
pub fn comp_exp_bit(bias: u64, rand_bits: u64) -> (r: BitDecision)
    ensures
        rand_bits + 1 < bias ==> r == BitDecision::Decided(1u64),
        rand_bits > bias + 1 ==> r == BitDecision::Decided(0u64),
        rand_bits + 1 == bias ==> r == BitDecision::NeedMorePrecision(Diff::Below),
        rand_bits == bias ==> r == BitDecision::NeedMorePrecision(Diff::Even),
        rand_bits == bias + 1 ==> r == BitDecision::NeedMorePrecision(Diff::Above),
{
    if rand_bits < bias {
        if bias - rand_bits <= 1 {
            BitDecision::NeedMorePrecision(Diff::Below)
        } else {
            BitDecision::Decided(1)
        }
    } else if rand_bits > bias {
        if rand_bits - bias <= 1 {
            BitDecision::NeedMorePrecision(Diff::Above)
        } else {
            BitDecision::Decided(0)
        }
    } else {
        BitDecision::NeedMorePrecision(Diff::Even)
    }
}

/// One escalation round.  Both the random value and the bias gain 64 fresh
/// low-order bits (`rand_word`, `bias_word`); with the old difference `d` in
/// `{-1, 0, +1}`, the new difference is `d * 2^64 + rand_word - bias_word`,
/// and the round decides the bit exactly when that lies outside `[-1, 1]`.
pub fn extend_bit_decision(d: Diff, rand_word: u64, bias_word: u64) -> (r: BitDecision)
    ensures
        diff_val(d) * 0x1_0000_0000_0000_0000 + rand_word - bias_word < -1 ==> r
            == BitDecision::Decided(1u64),
        diff_val(d) * 0x1_0000_0000_0000_0000 + rand_word - bias_word > 1 ==> r
            == BitDecision::Decided(0u64),
        diff_val(d) * 0x1_0000_0000_0000_0000 + rand_word - bias_word == -1 ==> r
            == BitDecision::NeedMorePrecision(Diff::Below),
        diff_val(d) * 0x1_0000_0000_0000_0000 + rand_word - bias_word == 0 ==> r
            == BitDecision::NeedMorePrecision(Diff::Even),
        diff_val(d) * 0x1_0000_0000_0000_0000 + rand_word - bias_word == 1 ==> r
            == BitDecision::NeedMorePrecision(Diff::Above),
{
    match d {
        Diff::Even => comp_exp_bit(bias_word, rand_word),
        Diff::Above => {
            if rand_word == 0 && bias_word == u64::MAX {
                BitDecision::NeedMorePrecision(Diff::Above)
            } else {
                BitDecision::Decided(0)
            }
        },
        Diff::Below => {
            if rand_word == u64::MAX && bias_word == 0 {
                BitDecision::NeedMorePrecision(Diff::Below)
            } else {
                BitDecision::Decided(1)
            }
        },
    }
}

/// The integer a big-endian sequence of 64-bit words stands for.
pub open spec fn words_value(s: Seq<u64>) -> int
    decreases s.len(),
{
    if s.len() == 0 {
        0
    } else {
        words_value(s.drop_last()) * 0x1_0000_0000_0000_0000 + s.last()
    }
}

/// A single word stands for itself.
pub proof fn lemma_words_value_singleton(s: Seq<u64>)
    requires
        s.len() == 1,
    ensures
        words_value(s) == s[0],
{
    assert(s.drop_last().len() == 0);
    assert(words_value(s.drop_last()) == 0);
}

/// Appending one low-order word multiplies the value by 2^64 and adds the
/// word.
pub proof fn lemma_words_value_push(s: Seq<u64>, w: u64)
    ensures
        words_value(s.push(w)) == words_value(s) * 0x1_0000_0000_0000_0000 + w,
{
    assert(s.push(w).drop_last() =~= s);
    assert(s.push(w).last() == w);
}

/// The value of a word sequence is a nonnegative number below
/// `2^(64 * len)`: the words are exactly a fixed-point fraction's digits.
pub proof fn lemma_words_value_bound(s: Seq<u64>)
    ensures
        0 <= words_value(s) < vstd::arithmetic::power2::pow2((64 * s.len()) as nat),
    decreases s.len(),
{
    vstd::arithmetic::power2::lemma2_to64();
    if s.len() == 0 {
    } else {
        lemma_words_value_bound(s.drop_last());
        vstd::arithmetic::power2::lemma_pow2_adds((64 * (s.len() - 1)) as nat, 64);
        let prev = words_value(s.drop_last());
        let cap = vstd::arithmetic::power2::pow2((64 * (s.len() - 1)) as nat);
        assert(prev * 0x1_0000_0000_0000_0000 + s.last() < cap * 0x1_0000_0000_0000_0000)
            by (nonlinear_arith)
            requires
                0 <= prev < cap,
                s.last() < 0x1_0000_0000_0000_0000,
        ;
    }
}

/// A word sequence splits at any point: the leading words carry their value
/// scaled past the trailing words.
pub proof fn lemma_words_value_split(s: Seq<u64>, k: int)
    requires
        0 <= k <= s.len(),
    ensures
        words_value(s) == words_value(s.take(k)) * vstd::arithmetic::power2::pow2(
            (64 * (s.len() - k)) as nat,
        ) + words_value(s.skip(k)),
    decreases s.len() - k,
{
    vstd::arithmetic::power2::lemma2_to64();
    if k == s.len() {
        assert(s.take(k) =~= s);
        assert(s.skip(k) =~= Seq::<u64>::empty());
        assert(words_value(s.skip(k)) == 0);
        assert(vstd::arithmetic::power2::pow2((64 * (s.len() - k)) as nat) == 1);
        assert(words_value(s.take(k)) * 1 == words_value(s));
    } else {
        lemma_words_value_split(s.drop_last(), k);
        assert(s.drop_last().take(k) =~= s.take(k));
        assert(s.skip(k).drop_last() =~= s.drop_last().skip(k));
        assert(s.skip(k).len() == s.len() - k);
        assert(s.skip(k).last() == s.last());
        vstd::arithmetic::power2::lemma_pow2_adds((64 * (s.len() - 1 - k)) as nat, 64);
        let c: int = 0x1_0000_0000_0000_0000;
        let t = words_value(s.take(k));
        let p1 = vstd::arithmetic::power2::pow2((64 * (s.len() - 1 - k)) as nat);
        let rest = words_value(s.drop_last().skip(k));
        assert(words_value(s) == words_value(s.drop_last()) * c + s.last());
        assert(words_value(s.drop_last()) == t * p1 + rest);
        assert(words_value(s.skip(k)) == rest * c + s.last());
        assert((t * p1 + rest) * c == (t * p1) * c + rest * c) by (nonlinear_arith);
        assert((t * p1) * c == t * (p1 * c)) by (nonlinear_arith);
        assert(p1 * c == vstd::arithmetic::power2::pow2((64 * (s.len() - k)) as nat));
        assert(words_value(s) == (t * p1 + rest) * c + s.last());
        assert(words_value(s) == t * (p1 * c) + (rest * c + s.last()));
    }
}

/// Once a leading stretch of words differs by more than one, no trailing
/// words can bring the full values back within one: the coarse comparison
/// decides the full one.
pub proof fn lemma_prefix_decides(ra: Seq<u64>, bs: Seq<u64>, k: int)
    requires
        ra.len() == bs.len(),
        0 <= k <= ra.len(),
    ensures
        words_value(ra.take(k)) - words_value(bs.take(k)) > 1 ==> words_value(ra) - words_value(
            bs,
        ) > 1,
        words_value(ra.take(k)) - words_value(bs.take(k)) < -1 ==> words_value(ra) - words_value(
            bs,
        ) < -1,
{
    lemma_words_value_split(ra, k);
    lemma_words_value_split(bs, k);
    lemma_words_value_bound(ra.skip(k));
    lemma_words_value_bound(bs.skip(k));
    let d = words_value(ra.take(k)) - words_value(bs.take(k));
    let p = vstd::arithmetic::power2::pow2((64 * (ra.len() - k)) as nat);
    vstd::arithmetic::power2::lemma_pow2_pos((64 * (ra.len() - k)) as nat);
    let tr = words_value(ra.take(k));
    let tb = words_value(bs.take(k));
    assert((tr - tb) * p == tr * p - tb * p) by (nonlinear_arith);
    if d > 1 {
        assert(d * p >= 2 * p) by (nonlinear_arith)
            requires
                d >= 2,
                p >= 1,
        ;
    }
    if d < -1 {
        assert(d * p <= -2 * p) by (nonlinear_arith)
            requires
                d <= -2,
                p >= 1,
        ;
    }
}

/// Compares two equal-length word vectors in full: the result classifies
/// the difference of the values they stand for, deciding the bit exactly
/// when that difference lies outside `[-1, 1]`, and otherwise reporting
/// where the random value stands.  This is the comparison one escalation
/// round makes, over everything drawn and computed so far, so no round
/// depends on any consistency between bias computations of different
/// widths.
pub fn decide_words(rand_words: &Vec<u64>, bias_words: &Vec<u64>) -> (r: BitDecision)
    requires
        rand_words.len() == bias_words.len(),
    ensures
        words_value(rand_words@) - words_value(bias_words@) < -1 ==> r == BitDecision::Decided(
            1u64,
        ),
        words_value(rand_words@) - words_value(bias_words@) > 1 ==> r == BitDecision::Decided(
            0u64,
        ),
        words_value(rand_words@) - words_value(bias_words@) == -1 ==> r
            == BitDecision::NeedMorePrecision(Diff::Below),
        words_value(rand_words@) - words_value(bias_words@) == 0 ==> r
            == BitDecision::NeedMorePrecision(Diff::Even),
        words_value(rand_words@) - words_value(bias_words@) == 1 ==> r
            == BitDecision::NeedMorePrecision(Diff::Above),
{
    let ghost ra = rand_words@;
    let ghost bs = bias_words@;
    proof {
        assert(ra.take(0) =~= Seq::<u64>::empty());
        assert(bs.take(0) =~= Seq::<u64>::empty());
    }
    let mut d = Diff::Even;
    let mut i: usize = 0;
    while i < rand_words.len()
        invariant
            rand_words@ == ra,
            bias_words@ == bs,
            ra.len() == bs.len(),
            i <= ra.len(),
            diff_val(d) == words_value(ra.take(i as int)) - words_value(bs.take(i as int)),
        decreases ra.len() - i,
    {
        let a = rand_words[i];
        let b = bias_words[i];
        proof {
            assert(ra.take(i as int + 1) =~= ra.take(i as int).push(ra[i as int]));
            assert(bs.take(i as int + 1) =~= bs.take(i as int).push(bs[i as int]));
            lemma_words_value_push(ra.take(i as int), a);
            lemma_words_value_push(bs.take(i as int), b);
        }
        match extend_bit_decision(d, a, b) {
            BitDecision::Decided(bit) => {
                proof {
                    lemma_prefix_decides(ra, bs, i as int + 1);
                }
                return BitDecision::Decided(bit);
            },
            BitDecision::NeedMorePrecision(next) => {
                d = next;
            },
        }
        i = i + 1;
    }
    proof {
        assert(ra.take(ra.len() as int) =~= ra);
        assert(bs.take(bs.len() as int) =~= bs);
    }
    BitDecision::NeedMorePrecision(d)
}

} // verus!
