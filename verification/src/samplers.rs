use vstd::prelude::*;

use vstd::arithmetic::power2::pow2;

use crate::bias::{bias_nat_spec, exponential_bias, MAX_BIAS_WORDS};
use crate::compare::{
    comp_exp_bit, decide_words, lemma_words_value_singleton, words_value, BitDecision,
};
use crate::params::{SamplerError, Scale, MIN_PRECISION};
use crate::rng::random_word;

verus! {

/// Whether table position `idx` uses the complement (sign-bit) convention.
pub open spec fn position_neg(idx: int) -> bool {
    idx == 0
}

/// The power-of-two exponent table position `idx` targets.
pub open spec fn position_pow2(precision: i32, idx: int) -> int {
    if idx == 0 {
        -(precision as int)
    } else {
        63 - idx - precision as int
    }
}

/// The 64-bit bias word stored at table position `idx`: the leading word of
/// the bias expansion of the sign bit at position zero, and of the
/// exponential-tail bit with exponent `63 - idx - precision` elsewhere.
pub open spec fn table_word(scale: Scale, precision: i32, idx: int) -> nat {
    bias_nat_spec(position_neg(idx), scale.mant, scale.exp2 as int, position_pow2(precision, idx), 1)
        % pow2(64)
}

/// The value the bias words of width `n` stand for in an escalation round:
/// exactly the `64 * n` leading bias bits the bias utility returns.
pub open spec fn bias_words_value(neg: bool, scale: Scale, pow2_exp: int, n: nat) -> int {
    (bias_nat_spec(neg, scale.mant, scale.exp2 as int, pow2_exp, n) % pow2((64 * n) as nat)) as int
}

/// The drawn words force the bit: at the final width the accumulated random
/// value differs from the recomputed bias by more than one — below it for a
/// one, above it for a zero — while at every earlier width the comparison
/// stayed inside the indifference region, which is why those rounds went
/// on.
pub open spec fn escalation_decides(
    neg: bool,
    scale: Scale,
    pow2_exp: int,
    ws: Seq<u64>,
    bit: u64,
) -> bool {
    &&& 2 <= ws.len() <= MAX_BIAS_WORDS
    &&& forall|j: int|
        2 <= j < ws.len() ==> -1 <= words_value(#[trigger] ws.take(j)) - bias_words_value(
            neg,
            scale,
            pow2_exp,
            j as nat,
        ) <= 1
    &&& ({
        let d = words_value(ws) - bias_words_value(neg, scale, pow2_exp, ws.len() as nat);
        (d < -1 && bit == 1) || (d > 1 && bit == 0)
    })
}

/// Every width up to the cap stayed inside the indifference region: the
/// persistent tie that the internal fault reports.
pub open spec fn escalation_exhausted(neg: bool, scale: Scale, pow2_exp: int, ws: Seq<u64>) -> bool {
    &&& ws.len() == MAX_BIAS_WORDS
    &&& forall|j: int|
        2 <= j <= ws.len() ==> -1 <= words_value(#[trigger] ws.take(j)) - bias_words_value(
            neg,
            scale,
            pow2_exp,
            j as nat,
        ) <= 1
}

/// A leading word two or more away from the bias's leading word decides the
/// two-word comparison the same way for every trailing word.
proof fn lemma_far_first_word(ws: Seq<u64>, b: int)
    requires
        ws.len() >= 2,
    ensures
        ws[0] + 2 <= b / 0x1_0000_0000_0000_0000 ==> words_value(ws.take(2)) - b < -1,
        ws[0] >= b / 0x1_0000_0000_0000_0000 + 2 ==> words_value(ws.take(2)) - b > 1,
{
    let c: int = 0x1_0000_0000_0000_0000;
    vstd::arithmetic::div_mod::lemma_fundamental_div_mod(b, c);
    vstd::arithmetic::div_mod::lemma_mod_bound(b, c);
    assert(ws.take(2).drop_last() =~= ws.take(1));
    assert(ws.take(1).len() == 1);
    lemma_words_value_singleton(ws.take(1));
    assert(words_value(ws.take(2)) == ws[0] * c + ws[1]);
    let q = b / c;
    if ws[0] + 2 <= q {
        assert(ws[0] * c <= (q - 2) * c) by (nonlinear_arith)
            requires
                ws[0] <= q - 2,
                c > 0,
        ;
        assert((q - 2) * c == q * c - 2 * c) by (nonlinear_arith);
    }
    if ws[0] >= q + 2 {
        assert(ws[0] * c >= (q + 2) * c) by (nonlinear_arith)
            requires
                ws[0] >= q + 2,
                c > 0,
        ;
        assert((q + 2) * c == q * c + 2 * c) by (nonlinear_arith);
    }
}

/// The magnitude word the per-position bits before `upto` assemble: the bit
/// of position `j` carries weight `2^(63 - j)`; position zero is the sign
/// bit and carries none.
pub open spec fn magnitude_value_upto(bits: Seq<u64>, upto: int) -> int
    decreases upto,
{
    if upto <= 1 {
        0
    } else {
        magnitude_value_upto(bits, upto - 1) + bits[upto - 1] * pow2((64 - upto) as nat)
    }
}

/// The full 63-bit magnitude the drawn bits assemble.
pub open spec fn magnitude_value(bits: Seq<u64>) -> int {
    magnitude_value_upto(bits, 64)
}

/// The assembled magnitude reads only the positions before `upto`.
proof fn lemma_magnitude_prefix(s1: Seq<u64>, s2: Seq<u64>, upto: int)
    requires
        forall|j: int| 1 <= j < upto ==> s1[j] == s2[j],
    ensures
        magnitude_value_upto(s1, upto) == magnitude_value_upto(s2, upto),
    decreases upto,
{
    if upto > 1 {
        lemma_magnitude_prefix(s1, s2, upto - 1);
    }
}

/// Bits of weight `2^(63 - j)` with `j >= 1` assemble to less than `2^63`:
/// the magnitude never reaches the sign position.
proof fn lemma_magnitude_bound(bits: Seq<u64>, upto: int)
    requires
        1 <= upto <= 64,
        forall|j: int| 1 <= j < upto ==> bits[j] <= 1,
    ensures
        0 <= magnitude_value_upto(bits, upto) <= pow2(63) - pow2((64 - upto) as nat),
    decreases upto,
{
    if upto > 1 {
        lemma_magnitude_bound(bits, upto - 1);
        vstd::arithmetic::power2::lemma_pow2_adds((64 - upto) as nat, 1);
        vstd::arithmetic::power2::lemma2_to64();
        vstd::arithmetic::power2::lemma2_to64_rest();
        let p = pow2((64 - upto) as nat);
        assert(bits[upto - 1] * p <= 1 * p) by (nonlinear_arith)
            requires
                bits[upto - 1] <= 1,
                p >= 0,
        ;
    }
}

/// Position `i` of one draw is coherent: its recorded bit is a bit, and it
/// is exactly what the position's drawn words force against the table.
pub open spec fn position_decided(
    table: BiasTable,
    bits: Seq<u64>,
    draws: Seq<Seq<u64>>,
    i: int,
) -> bool {
    &&& bits[i] == 0 || bits[i] == 1
    &&& table_bit_decided(table, i, draws[i], bits[i])
}

/// What one full Laplace draw records, and what it forces: `bits` holds
/// the 64 per-position bits, sign (mix) bit first, and `draws` every word
/// drawn per position.  Each bit is exactly what its position's drawn words
/// force against the bias table, and the sample is the two's-complement
/// combination of the sign bit with the magnitude those bits assemble.
pub open spec fn laplace_draw_ok(
    table: BiasTable,
    bits: Seq<u64>,
    draws: Seq<Seq<u64>>,
    v: i64,
) -> bool {
    &&& bits.len() == 64
    &&& draws.len() == 64
    &&& bits[0] <= 1
    &&& 0 <= magnitude_value(bits) < 0x8000_0000_0000_0000
    &&& (bits[0] == 1 ==> v == magnitude_value(bits))
    &&& (bits[0] == 0 ==> v == -magnitude_value(bits) - 1)
    &&& forall|i: int| 0 <= i < 64 ==> #[trigger] position_decided(table, bits, draws, i)
}

/// Packaging lemma: the individually established facts of one draw are
/// exactly the draw characterization.
proof fn lemma_laplace_draw_ok(table: BiasTable, bits: Seq<u64>, draws: Seq<Seq<u64>>, v: i64)
    requires
        bits.len() == 64,
        draws.len() == 64,
        bits[0] <= 1,
        0 <= magnitude_value(bits) < 0x8000_0000_0000_0000,
        bits[0] == 1 ==> v == magnitude_value(bits),
        bits[0] == 0 ==> v == -magnitude_value(bits) - 1,
        forall|i: int| 0 <= i < 64 ==> #[trigger] position_decided(table, bits, draws, i),
    ensures
        laplace_draw_ok(table, bits, draws, v),
{
}

/// The per-bit biases for one `(scale, precision)` pair, precomputed once and
/// reused across many samples.  Entry 0 is the 64-bit bias of the sign (mix)
/// bit, in the complement convention at exponent `-precision`; entry `idx`
/// for `1 <= idx < 64` is the 64-bit bias of the exponential-tail bit with
/// power-of-two exponent `63 - idx - precision`.
pub struct BiasTable {
    pub scale: Scale,
    pub precision: i32,
    pub words: Vec<u64>,
}

impl BiasTable {
    /// A positive scale, a precision that keeps every per-bit exponent
    /// representable, and per sample bit the leading 64 bias bits of that
    /// bit's position.
    pub open spec fn wf(self) -> bool {
        &&& self.scale.wf()
        &&& self.precision >= MIN_PRECISION
        &&& self.words.len() == 64
        &&& forall|idx: int|
            0 <= idx < 64 ==> self.words[idx] == table_word(self.scale, self.precision, idx)
    }
}

/// Builds the 64-entry bias table for one `(scale, precision)` pair: the
/// leading 64 bias bits of the sign bit, then of each exponential-tail bit.
/// Rejects a precision so low that some per-bit exponent would leave the
/// 32-bit range.
pub fn fp_laplace_bit_biases(scale: &Scale, precision: i32) -> (r: Result<BiasTable, SamplerError>)
    requires
        scale.wf(),
    ensures
        precision >= MIN_PRECISION <==> r is Ok,
        r matches Ok(t) ==> t.wf() && t.scale == *scale && t.precision == precision,
        r matches Err(e) ==> e == SamplerError::InvalidPrecision,
{
    if precision < MIN_PRECISION {
        return Err(SamplerError::InvalidPrecision);
    }
    let mut words: Vec<u64> = Vec::new();
    let mix = exponential_bias(true, scale, -precision, 1);
    proof {
        lemma_words_value_singleton(mix@);
    }
    words.push(mix[0]);
    let mut idx: usize = 1;
    while idx < 64
        invariant
            scale.wf(),
            precision >= MIN_PRECISION,
            1 <= idx <= 64,
            words.len() == idx,
            forall|j: int| 0 <= j < idx ==> words[j] == table_word(*scale, precision, j),
        decreases 64 - idx,
    {
        let bit_pow2: i32 = (63 - idx as i32) - precision;
        let w = exponential_bias(false, scale, bit_pow2, 1);
        proof {
            lemma_words_value_singleton(w@);
        }
        words.push(w[0]);
        idx = idx + 1;
    }
    Ok(BiasTable { scale: *scale, precision, words })
}

/// Resolves one bit whose first comparison round was too close to call,
/// starting from the 64 random bits that round drew.  Each round recomputes
/// the bias one 64-bit word finer, draws 64 fresh random bits, and compares
/// the full accumulated random value against the full recomputed bias, so
/// no round assumes any consistency between bias computations of different
/// widths.  A tie surviving `MAX_BIAS_WORDS` rounds cannot arise from a
/// correctly computed bias (each round survives with probability about
/// 2^-64); it is reported as the internal fault the design reserves for it,
/// never resolved by a default bit.
pub fn sample_exact_exponential_bit(neg: bool, scale: &Scale, pow2_exp: i32, rand_bits: u64) -> (r:
    (Result<u64, SamplerError>, Ghost<Seq<u64>>))
    requires
        scale.wf(),
    ensures
        r.1@.len() >= 1 && r.1@[0] == rand_bits,
        r.0 matches Ok(bit) ==> (bit == 0 || bit == 1) && escalation_decides(
            neg,
            *scale,
            pow2_exp as int,
            r.1@,
            bit,
        ),
        r.0 matches Err(e) ==> e == SamplerError::InternalFault && escalation_exhausted(
            neg,
            *scale,
            pow2_exp as int,
            r.1@,
        ),
        rand_bits + 2 <= bias_words_value(neg, *scale, pow2_exp as int, 2)
            / 0x1_0000_0000_0000_0000 ==> r.0 == Ok::<u64, SamplerError>(1u64),
        rand_bits >= bias_words_value(neg, *scale, pow2_exp as int, 2) / 0x1_0000_0000_0000_0000
            + 2 ==> r.0 == Ok::<u64, SamplerError>(0u64),
{
    let mut rand_words: Vec<u64> = Vec::new();
    rand_words.push(rand_bits);
    let mut depth: usize = 1;
    while depth < MAX_BIAS_WORDS
        invariant
            scale.wf(),
            1 <= depth <= MAX_BIAS_WORDS,
            rand_words.len() == depth,
            rand_words@[0] == rand_bits,
            forall|j: int|
                2 <= j <= depth ==> -1 <= words_value(#[trigger] rand_words@.take(j)) - bias_words_value(
                    neg,
                    *scale,
                    pow2_exp as int,
                    j as nat,
                ) <= 1,
        decreases MAX_BIAS_WORDS - depth,
    {
        let bias_words = exponential_bias(neg, scale, pow2_exp, depth + 1);
        let ghost prev = rand_words@;
        rand_words.push(random_word());
        proof {
            assert(rand_words@.take(depth + 1) =~= rand_words@);
            assert(words_value(bias_words@) == bias_words_value(
                neg,
                *scale,
                pow2_exp as int,
                (depth + 1) as nat,
            ));
        }
        match decide_words(&rand_words, &bias_words) {
            BitDecision::Decided(bit) => {
                proof {
                    assert forall|j: int| 2 <= j < rand_words@.len() implies -1 <= words_value(
                        #[trigger] rand_words@.take(j),
                    ) - bias_words_value(neg, *scale, pow2_exp as int, j as nat) <= 1 by {
                        assert(rand_words@.take(j) =~= prev.take(j));
                    }
                    lemma_far_first_word(
                        rand_words@,
                        bias_words_value(neg, *scale, pow2_exp as int, 2),
                    );
                    if depth == 1 {
                        assert(rand_words@.take(2) =~= rand_words@);
                    } else {
                        assert(rand_words@.take(2) =~= prev.take(2));
                    }
                    assert(escalation_decides(neg, *scale, pow2_exp as int, rand_words@, bit));
                }
                return (Ok(bit), Ghost(rand_words@));
            },
            BitDecision::NeedMorePrecision(_) => {
                proof {
                    assert forall|j: int| 2 <= j <= depth + 1 implies -1 <= words_value(
                        #[trigger] rand_words@.take(j),
                    ) - bias_words_value(neg, *scale, pow2_exp as int, j as nat) <= 1 by {
                        if j <= depth {
                            assert(rand_words@.take(j) =~= prev.take(j));
                        } else {
                            assert(rand_words@.take(j) =~= rand_words@);
                        }
                    }
                }
            },
        }
        depth = depth + 1;
    }
    proof {
        lemma_far_first_word(rand_words@, bias_words_value(neg, *scale, pow2_exp as int, 2));
        assert(escalation_exhausted(neg, *scale, pow2_exp as int, rand_words@));
    }
    (Err(SamplerError::InternalFault), Ghost(rand_words@))
}

/// Which bit the words drawn for one table position force: either the
/// single drawn word lay more than one from the table's 64-bit bias and
/// decided alone — one exactly when it fell below the bias — or it fell
/// within one of the bias and the escalation decided over the full drawn
/// words.
pub open spec fn table_bit_decided(table: BiasTable, idx: int, ws: Seq<u64>, bit: u64) -> bool {
    let tw = table_word(table.scale, table.precision, idx) as int;
    ||| (ws.len() == 1 && ((ws[0] + 1 < tw && bit == 1) || (ws[0] > tw + 1 && bit == 0)))
    ||| (-1 <= ws[0] - tw <= 1 && escalation_decides(
        position_neg(idx),
        table.scale,
        position_pow2(table.precision, idx),
        ws,
        bit,
    ))
}

/// Samples the bit at table position `idx`: one fresh random word against the
/// table's 64-bit bias, escalating to the exact comparison when the draw
/// lands within one of the bias.  The ghost result holds every word drawn
/// for this position, and the returned bit is exactly what those words
/// force; the fault comes only out of an exhausted escalation.
fn sample_table_bit(table: &BiasTable, idx: usize) -> (r: (
    Result<u64, SamplerError>,
    Ghost<Seq<u64>>,
))
    requires
        table.wf(),
        idx < 64,
    ensures
        r.1@.len() >= 1,
        r.0 matches Ok(bit) ==> (bit == 0 || bit == 1) && table_bit_decided(
            *table,
            idx as int,
            r.1@,
            bit,
        ),
        r.0 matches Err(e) ==> e == SamplerError::InternalFault && (-1 <= r.1@[0] - table_word(
            table.scale,
            table.precision,
            idx as int,
        ) <= 1) && escalation_exhausted(
            position_neg(idx as int),
            table.scale,
            position_pow2(table.precision, idx as int),
            r.1@,
        ),
{
    let rand_bits = random_word();
    match comp_exp_bit(table.words[idx], rand_bits) {
        BitDecision::Decided(bit) => {
            let ghost ws: Seq<u64> = seq![rand_bits];
            (Ok(bit), Ghost(ws))
        },
        BitDecision::NeedMorePrecision(_) => {
            if idx == 0 {
                sample_exact_exponential_bit(true, &table.scale, -table.precision, rand_bits)
            } else {
                let pow2: i32 = (63 - idx as i32) - table.precision;
                sample_exact_exponential_bit(false, &table.scale, pow2, rand_bits)
            }
        },
    }
}

/// Combines the sign (mix) bit with the 63 exponential-tail bits through the
/// two's-complement identity `(mix - 1) XOR bits`: a set mix bit returns the
/// magnitude unchanged, a clear one returns its bitwise complement
/// `-bits - 1`, so sign and magnitude merge without any floating-point step.
pub fn assemble_laplace(mix_bit: u64, exponential_bits: u64) -> (r: i64)
    requires
        mix_bit <= 1,
        exponential_bits < 0x8000_0000_0000_0000,
    ensures
        mix_bit == 1 ==> r == exponential_bits,
        mix_bit == 0 ==> r == -(exponential_bits as int) - 1,
{
    let e: i64 = exponential_bits as i64;
    let m: i64 = mix_bit as i64;
    let r = (m - 1) ^ e;
    proof {
        assert(mix_bit == 1 ==> m - 1 == 0i64);
        assert(mix_bit == 0 ==> m - 1 == -1i64);
        assert(0i64 ^ e == e) by (bit_vector);
        assert((-1i64) ^ e == -e - 1) by (bit_vector);
        assert(exponential_bits < 0x8000_0000_0000_0000 ==> exponential_bits as i64
            == exponential_bits) by (bit_vector);
    }
    r
}

/// Draws one sample of the discretized Laplace distribution for the table's
/// `(scale, precision)` pair: a signed 64-bit fixed-point value on the grid
/// of spacing `2^-precision`, built from one sign bit and 63 per-bit biased
/// comparisons, each escalated to exactly the precision its decision needs.
/// The ghost results carry the 64 drawn per-position bits (sign bit first)
/// and every word drawn for each position: each bit is exactly what its
/// position's drawn words force against the bias table, and the sample is
/// the two's-complement combination of the sign bit with the magnitude the
/// bits assemble (`laplace_draw_ok`).  The one error is the internal tie
/// fault, never a substituted value.
pub fn fixed_point_laplace(table: &BiasTable) -> (r: (
    Result<i64, SamplerError>,
    Ghost<Seq<u64>>,
    Ghost<Seq<Seq<u64>>>,
))
    requires
        table.wf(),
    ensures
        r.0 matches Err(e) ==> e == SamplerError::InternalFault,
        r.0 matches Ok(v) ==> laplace_draw_ok(*table, r.1@, r.2@, v),
{
    let ghost no_bits: Seq<u64> = Seq::empty();
    let ghost no_draws: Seq<Seq<u64>> = Seq::empty();
    let (mix_result, mix_draw) = sample_table_bit(table, 0);
    let mix_bit = match mix_result {
        Ok(b) => b,
        Err(e) => {
            return (Err(e), Ghost(no_bits), Ghost(no_draws));
        },
    };
    let ghost mut bits: Seq<u64> = seq![mix_bit];
    let ghost mut draws: Seq<Seq<u64>> = seq![mix_draw@];
    let mut exponential_bits: u64 = 0;
    let mut idx: usize = 1;
    proof {
        vstd::arithmetic::power2::lemma2_to64();
        vstd::arithmetic::power2::lemma2_to64_rest();
    }
    while idx < 64
        invariant
            table.wf(),
            1 <= idx <= 64,
            mix_bit <= 1,
            bits.len() == idx,
            draws.len() == idx,
            bits[0] == mix_bit,
            forall|i: int| 0 <= i < idx ==> #[trigger] position_decided(*table, bits, draws, i),
            exponential_bits < 0x8000_0000_0000_0000,
            exponential_bits == magnitude_value_upto(bits, idx as int),
        decreases 64 - idx,
    {
        let (bit_result, bit_draw) = sample_table_bit(table, idx);
        let bit = match bit_result {
            Ok(b) => b,
            Err(e) => {
                return (Err(e), Ghost(no_bits), Ghost(no_draws));
            },
        };
        let shift: u64 = 63 - idx as u64;
        proof {
            vstd::arithmetic::power2::lemma2_to64();
        vstd::arithmetic::power2::lemma2_to64_rest();
            vstd::arithmetic::power2::lemma_pow2_strictly_increases(shift as nat, 63);
            vstd::arithmetic::power2::lemma_pow2_pos(shift as nat);
            let p = pow2(shift as nat);
            assert(bit * p <= 1 * p) by (nonlinear_arith)
                requires
                    bit <= 1,
                    p >= 0,
            ;
            vstd::bits::lemma_u64_shl_is_mul(bit, shift);
            vstd::arithmetic::power2::lemma_pow2_adds(shift as nat, 1);
            assert forall|j: int| 1 <= j < idx as int implies bits[j] <= 1 by {
                assert(position_decided(*table, bits, draws, j));
            }
            lemma_magnitude_bound(bits, idx as int);
            assert((shift as nat) + 1 == (64 - idx) as nat);
            assert(pow2((64 - idx) as nat) == p * 2);
            assert((bit << shift) == bit * p);
            assert(exponential_bits + bit * p < 0x8000_0000_0000_0000);
        }
        let ghost prev_bits = bits;
        let ghost prev_draws = draws;
        exponential_bits = exponential_bits + (bit << shift);
        proof {
            bits = bits.push(bit);
            draws = draws.push(bit_draw@);
            lemma_magnitude_prefix(bits, prev_bits, idx as int);
            assert(magnitude_value_upto(bits, idx as int + 1) == magnitude_value_upto(
                bits,
                idx as int,
            ) + bits[idx as int] * pow2((64 - (idx as int + 1)) as nat));
            assert(bits[idx as int] == bit);
            assert((64 - (idx as int + 1)) as nat == shift as nat);
            assert forall|i: int|
                0 <= i < idx as int + 1 implies #[trigger] position_decided(
                *table,
                bits,
                draws,
                i,
            ) by {
                if i < idx as int {
                    assert(position_decided(*table, prev_bits, prev_draws, i));
                    assert(draws[i] == prev_draws[i]);
                    assert(bits[i] == prev_bits[i]);
                } else {
                    assert(draws[i] == bit_draw@);
                    assert(bits[i] == bit);
                }
            }
        }
        idx = idx + 1;
    }
    let v = assemble_laplace(mix_bit, exponential_bits);
    proof {
        assert(idx == 64);
        assert(exponential_bits == magnitude_value(bits));
        assert forall|i: int|
            0 <= i < 64 implies #[trigger] position_decided(*table, bits, draws, i) by {
            assert(0 <= i < idx);
        }
        lemma_laplace_draw_ok(*table, bits, draws, v);
    }
    (Ok(v), Ghost(bits), Ghost(draws))
}

/// The batch entry point: builds the bias table once, then draws `num`
/// independent samples with it.  An unacceptable precision is rejected
/// before any sampling; after that the only error is the internal tie
/// fault, and a full vector is owed otherwise.
pub fn fixed_point_laplace_batch(scale: &Scale, num: usize, precision: i32) -> (r: Result<
    Vec<i64>,
    SamplerError,
>)
    requires
        scale.wf(),
    ensures
        precision < MIN_PRECISION ==> r == Err::<Vec<i64>, SamplerError>(
            SamplerError::InvalidPrecision,
        ),
        precision >= MIN_PRECISION ==> (r matches Err(e) ==> e == SamplerError::InternalFault),
        precision >= MIN_PRECISION && num == 0 ==> r is Ok,
        r matches Ok(v) ==> v.len() == num && precision >= MIN_PRECISION,
{
    let table = match fp_laplace_bit_biases(scale, precision) {
        Ok(t) => t,
        Err(e) => {
            return Err(e);
        },
    };
    let mut out: Vec<i64> = Vec::new();
    let mut i: usize = 0;
    while i < num
        invariant
            table.wf(),
            precision >= MIN_PRECISION,
            i <= num,
            out.len() == i,
        decreases num - i,
    {
        let (s, _, _) = fixed_point_laplace(&table);
        match s {
            Ok(v) => {
                out.push(v);
            },
            Err(e) => {
                return Err(e);
            },
        }
        i = i + 1;
    }
    Ok(out)
}

/// The 53-bit significand the double-precision uniform sampler builds from
/// one random word: the word's top 53 bits with the implicit leading one made
/// explicit, so the result always lies in `[2^52, 2^53)`.
pub fn double_uniform_significand(word: u64) -> (r: u64)
    ensures
        r == (word >> 11) | 0x10_0000_0000_0000u64,
        0x10_0000_0000_0000 <= r < 0x20_0000_0000_0000,
{
    let r = (word >> 11) | (1u64 << 52);
    proof {
        assert(1u64 << 52 == 0x10_0000_0000_0000u64) by (bit_vector);
        assert(0x10_0000_0000_0000u64 <= ((word >> 11) | 0x10_0000_0000_0000u64)
            < 0x20_0000_0000_0000) by (bit_vector);
    }
    r
}

} // verus!
