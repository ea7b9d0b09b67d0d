use vstd::prelude::*;

use vstd::arithmetic::div_mod::{
    lemma_div_by_multiple, lemma_div_is_ordered, lemma_div_is_ordered_by_denominator,
    lemma_small_mod,
};
use vstd::arithmetic::mul::lemma_mul_inequality;
use vstd::arithmetic::power2::{lemma2_to64, lemma_pow2_adds, lemma_pow2_pos, pow2};

use crate::compare::{lemma_words_value_push, words_value};
use crate::params::Scale;

verus! {

/// The natural number a `BigUint` stands for.
pub uninterp spec fn big_nat(b: num_bigint::BigUint) -> nat;

#[verifier::external_type_specification]
#[verifier::external_body]
pub struct ExBigUint(num_bigint::BigUint);

/// Relies on `num_bigint::BigUint::from::<u64>`: the exact value.
#[verifier::external_body]
fn big_from_u64(w: u64) -> (r: num_bigint::BigUint)
    ensures
        big_nat(r) == w,
{
    num_bigint::BigUint::from(w)
}

/// Relies on `Add` for `&BigUint`: exact unbounded addition.
#[verifier::external_body]
fn big_add(a: &num_bigint::BigUint, b: &num_bigint::BigUint) -> (r: num_bigint::BigUint)
    ensures
        big_nat(r) == big_nat(*a) + big_nat(*b),
{
    a + b
}

/// Relies on `Sub` for `&BigUint`: exact subtraction; it panics on
/// underflow, so the smaller operand is required to not exceed the larger.
#[verifier::external_body]
fn big_sub(a: &num_bigint::BigUint, b: &num_bigint::BigUint) -> (r: num_bigint::BigUint)
    requires
        big_nat(*b) <= big_nat(*a),
    ensures
        big_nat(r) == big_nat(*a) - big_nat(*b),
{
    a - b
}

/// Relies on `Mul` for `&BigUint`: exact unbounded multiplication.
#[verifier::external_body]
fn big_mul(a: &num_bigint::BigUint, b: &num_bigint::BigUint) -> (r: num_bigint::BigUint)
    ensures
        big_nat(r) == big_nat(*a) * big_nat(*b),
{
    a * b
}

/// Relies on `Div` for `&BigUint`: Euclidean division, rounding toward
/// zero; it panics on a zero divisor, so the divisor is required positive.
#[verifier::external_body]
fn big_div(a: &num_bigint::BigUint, b: &num_bigint::BigUint) -> (r: num_bigint::BigUint)
    requires
        big_nat(*b) >= 1,
    ensures
        big_nat(r) == big_nat(*a) / big_nat(*b),
{
    a / b
}

/// Relies on `Shl<usize>` for `&BigUint`: an exact multiplication by a
/// power of two.
#[verifier::external_body]
fn big_shl(a: &num_bigint::BigUint, k: usize) -> (r: num_bigint::BigUint)
    ensures
        big_nat(r) == big_nat(*a) * pow2(k as nat),
{
    a << k
}

/// Relies on `Shr<usize>` for `&BigUint`: a flooring division by a power
/// of two.
#[verifier::external_body]
fn big_shr(a: &num_bigint::BigUint, k: usize) -> (r: num_bigint::BigUint)
    ensures
        big_nat(r) == big_nat(*a) / pow2(k as nat),
{
    a >> k
}

/// Relies on `BigUint::bits`: the bit length, which is zero exactly for the
/// value zero.
#[verifier::external_body]
fn big_is_zero(a: &num_bigint::BigUint) -> (r: bool)
    ensures
        r <==> big_nat(*a) == 0,
{
    a.bits() == 0
}

/// Relies on `BigUint::to_u64_digits`: the 64-bit digits of the value,
/// least significant first.  Returns the low `num_words` digits reordered
/// most significant first, so the result reads as the value reduced modulo
/// `2^(64 * num_words)`.
#[verifier::external_body]
fn big_low_words(a: &num_bigint::BigUint, num_words: usize) -> (r: Vec<u64>)
    ensures
        r@.len() == num_words,
        words_value(r@) == big_nat(*a) % pow2((64 * num_words) as nat),
{
    let d = a.to_u64_digits();
    let mut out: Vec<u64> = Vec::new();
    for i in 0..num_words {
        out.push(d.get(num_words - 1 - i).copied().unwrap_or(0));
    }
    out
}

/// How many 64-bit words of bias precision a single request may ask for: a
/// machine limit keeping the working precision, and with it every big-integer
/// allocation, modest.  A tie surviving this many 64-bit refinement rounds
/// would have probability below 2^-4000000.
pub const MAX_BIAS_WORDS: usize = 65536;

/// Dividing a term by the working scale and a positive counter never grows
/// it: with `y <= p`, `p >= 1` and `k >= 1`, `((a * y) / p) / k <= a`.
proof fn lemma_term_shrinks(a: nat, y: nat, p: nat, k: nat)
    requires
        y <= p,
        p >= 1,
        k >= 1,
    ensures
        ((a * y) / p) / k <= a,
{
    lemma_mul_inequality(y as int, p as int, a as int);
    lemma_div_is_ordered((a * y) as int, (a * p) as int, p as int);
    lemma_div_by_multiple(a as int, p as int);
    lemma_div_is_ordered_by_denominator(((a * y) / p) as int, 1int, k as int);
}

/// The pairwise Taylor recursion for `exp(-y)` in fixed point: `sum` and `t`
/// carry the partial sum and the last consumed term, scaled by `p = 2^f`,
/// and each step subtracts the next odd-indexed term and adds the next
/// even-indexed one, so the running value never leaves the naturals.
pub open spec fn taylor_step(y: nat, p: nat, sum: nat, t: nat, k: nat, kmax: nat) -> nat
    decreases kmax + 2 - k,
{
    if k >= kmax || t == 0 {
        sum
    } else {
        let t1 = ((t * y) / p) / k;
        let t2 = ((t1 * y) / p) / (k + 1);
        taylor_step(y, p, (sum - t1 + t2) as nat, t2, k + 2, kmax)
    }
}

/// The value the fixed-point Taylor evaluation of `2^f * exp(-y_fp / 2^f)`
/// computes.
pub open spec fn taylor_exp_neg_spec(y: nat, f: nat) -> nat {
    taylor_step(y, pow2(f), pow2(f), pow2(f), 1, 2 * f + 64)
}

/// Fixed-point `exp(-y)` on `[0, 1]` by the alternating Taylor series: for
/// `y = y_fp / 2^f` the result approximates `2^f * exp(-y)`, consuming terms
/// in pairs so every intermediate value stays a natural number.  The result
/// is exactly the value of the Taylor recursion and never exceeds `2^f`.
fn taylor_exp_neg(y_fp: &num_bigint::BigUint, f: usize) -> (r: num_bigint::BigUint)
    requires
        big_nat(*y_fp) <= pow2(f as nat),
        f <= 0x4000_0000,
    ensures
        big_nat(r) <= pow2(f as nat),
        big_nat(r) == taylor_exp_neg_spec(big_nat(*y_fp), f as nat),
{
    proof {
        lemma_pow2_pos(f as nat);
    }
    let mut sum = big_shl(&big_from_u64(1), f);
    let mut t = big_shl(&big_from_u64(1), f);
    let mut k: u64 = 1;
    let kmax: u64 = 2 * (f as u64) + 64;
    let mut done = false;
    let ghost y = big_nat(*y_fp);
    let ghost p = pow2(f as nat);
    let ghost result = taylor_step(y, p, p, p, 1, kmax as nat);
    while k < kmax && !done
        invariant
            big_nat(*y_fp) == y,
            y <= p,
            p == pow2(f as nat),
            p >= 1,
            big_nat(sum) <= p,
            big_nat(t) <= big_nat(sum),
            1 <= k <= kmax + 1,
            kmax == 2 * (f as u64) + 64,
            f <= 0x4000_0000,
            result == taylor_step(y, p, p, p, 1, kmax as nat),
            done ==> big_nat(t) == 0,
            taylor_step(y, p, big_nat(sum), big_nat(t), k as nat, kmax as nat) == result,
        decreases kmax + 2 - k, (if done { 0int } else { 1int }),
    {
        if big_is_zero(&t) {
            done = true;
        } else {
            let num1 = big_mul(&t, y_fp);
            let s1 = big_shr(&num1, f);
            let t1 = big_div(&s1, &big_from_u64(k));
            proof {
                lemma_term_shrinks(big_nat(t), y, p, k as nat);
            }
            let num2 = big_mul(&t1, y_fp);
            let s2 = big_shr(&num2, f);
            let t2 = big_div(&s2, &big_from_u64(k + 1));
            proof {
                lemma_term_shrinks(big_nat(t1), y, p, (k + 1) as nat);
            }
            let partial = big_sub(&sum, &t1);
            proof {
                assert(taylor_step(y, p, big_nat(sum), big_nat(t), k as nat, kmax as nat)
                    == taylor_step(
                    y,
                    p,
                    (big_nat(sum) - big_nat(t1) + big_nat(t2)) as nat,
                    big_nat(t2),
                    k as nat + 2,
                    kmax as nat,
                ));
            }
            sum = big_add(&partial, &t2);
            t = t2;
            k = k + 2;
        }
    }
    proof {
        assert(taylor_step(y, p, big_nat(sum), big_nat(t), k as nat, kmax as nat) == big_nat(sum));
    }
    sum
}

/// The value of `e` rounds of fixed-point squaring `u <- u^2 / p`.
pub open spec fn square_steps(u: nat, p: nat, e: nat) -> nat
    decreases e,
{
    if e == 0 {
        u
    } else {
        square_steps((u * u) / p, p, (e - 1) as nat)
    }
}

/// Repeated fixed-point squaring: applies `u <- u^2 / 2^f` a bounded number
/// of times, computing `exp(-y)^(2^e)` from `exp(-y)`.  The result is
/// exactly the value of the squaring recursion, and a value at most `2^f`
/// stays at most `2^f`.
fn square_chain(u0: num_bigint::BigUint, f: usize, e: u64) -> (r: num_bigint::BigUint)
    requires
        big_nat(u0) <= pow2(f as nat),
    ensures
        big_nat(r) <= pow2(f as nat),
        big_nat(r) == square_steps(big_nat(u0), pow2(f as nat), e as nat),
{
    proof {
        lemma_pow2_pos(f as nat);
    }
    let ghost start = big_nat(u0);
    let mut u = u0;
    let mut i: u64 = 0;
    while i < e
        invariant
            big_nat(u) <= pow2(f as nat),
            pow2(f as nat) >= 1,
            i <= e,
            square_steps(big_nat(u), pow2(f as nat), (e - i) as nat) == square_steps(
                start,
                pow2(f as nat),
                e as nat,
            ),
        decreases e - i,
    {
        let sq = big_mul(&u, &u);
        let next = big_shr(&sq, f);
        proof {
            let p = pow2(f as nat);
            lemma_mul_inequality(big_nat(u) as int, p as int, big_nat(u) as int);
            lemma_mul_inequality(big_nat(u) as int, p as int, p as int);
            lemma_div_is_ordered((big_nat(u) * big_nat(u)) as int, (p * p) as int, p as int);
            lemma_div_by_multiple(p as int, p as int);
            assert(square_steps(big_nat(u), p, (e - i) as nat) == square_steps(
                big_nat(next),
                p,
                (e - i - 1) as nat,
            ));
        }
        u = next;
        i = i + 1;
    }
    u
}

/// The fixed-point value standing for `exp(-2^pow2_exp / (mant * 2^exp2))`
/// scaled by `2^f`: zero once the argument is too large to matter at this
/// precision, otherwise the Taylor evaluation of `exp` on a reduced
/// argument, squared once per power of two of the argument.
pub open spec fn bias_u_spec(mant: u64, exp2: int, pow2_exp: int, f: nat) -> nat {
    let e = pow2_exp - exp2;
    if e >= 96 {
        0
    } else if e >= 1 {
        square_steps(taylor_exp_neg_spec(pow2(f) / (mant as nat), f), pow2(f), e as nat)
    } else {
        let sh = -e;
        let y = if sh > f {
            0
        } else {
            pow2(f) / ((mant as nat) * pow2(sh as nat))
        };
        taylor_exp_neg_spec(y, f)
    }
}

/// The bias `1 / (1 + exp(2^pow2_exp / s))` as computed in fixed point with
/// `64 * num_words` result bits and 192 guard bits: one flooring division
/// of the scaled exponential, saturating just below one when the complement
/// form meets a vanished exponential.
pub open spec fn bias_nat_spec(
    neg: bool,
    mant: u64,
    exp2: int,
    pow2_exp: int,
    num_words: nat,
) -> nat {
    let n = 64 * num_words;
    let f = n + 192;
    let u = bias_u_spec(mant, exp2, pow2_exp, f);
    if neg && u == 0 {
        (pow2(n) - 1) as nat
    } else if neg {
        pow2(f + n) / (pow2(f) + u)
    } else {
        (u * pow2(n)) / (pow2(f) + u)
    }
}

/// The bias computation utility: `bias(scale, pow2, num_bits)` of the
/// design, with the scale passed exactly as `mant * 2^exp2`, the sign
/// carried by `neg`, and the width counted in 64-bit words.  Returns, most
/// significant word first, the leading `64 * num_words` bits of
/// `1 / (1 + exp(2^pow2 / s))` where `s` is the signed scale: for a
/// positive scale the probability that the exponential-tail bit with weight
/// `2^pow2` is one, and with `neg` set the complement form used for the
/// sign (mix) bit.  Pure and deterministic, returning exactly the value of
/// the fixed-point evaluation scheme `bias_nat_spec`.  The 192 guard bits
/// of working precision keep a longer request consistent with a shorter one
/// throughout the tested range; the escalating comparison does not rely on
/// that, since it recompares in full at each width.
pub fn exponential_bias(neg: bool, scale: &Scale, pow2_exp: i32, num_words: usize) -> (r: Vec<u64>)
    requires
        scale.wf(),
        num_words <= MAX_BIAS_WORDS,
    ensures
        r@.len() == num_words,
        words_value(r@) == bias_nat_spec(
            neg,
            scale.mant,
            scale.exp2 as int,
            pow2_exp as int,
            num_words as nat,
        ) % pow2((64 * num_words) as nat),
{
    let n_bits: usize = 64 * num_words;
    let f: usize = n_bits + 192;
    proof {
        lemma_pow2_pos(f as nat);
    }
    // The argument of the exponential is x = 2^e / mant up to sign.
    let e: i64 = pow2_exp as i64 - scale.exp2 as i64;
    let u: num_bigint::BigUint = if e >= 96 {
        // x >= 2^96 / 2^64 = 2^32 makes exp(-x) vanish at this precision.
        big_from_u64(0)
    } else if e >= 1 {
        // exp(-2^e / m) = exp(-1/m) squared e times.
        let one_fp = big_shl(&big_from_u64(1), f);
        let m = big_from_u64(scale.mant);
        let y_fp = big_div(&one_fp, &m);
        proof {
            lemma_div_is_ordered_by_denominator(big_nat(one_fp) as int, 1int, big_nat(m) as int);
        }
        let u1 = taylor_exp_neg(&y_fp, f);
        let sq = square_chain(u1, f, e as u64);
        proof {
            assert((e as u64) as nat == (pow2_exp as int - scale.exp2 as int) as nat);
        }
        sq
    } else {
        // y = 2^e / m with e <= 0: y_fp = 2^f / (m * 2^-e), zero once the
        // shift exceeds the working precision.
        let shift_amt: i64 = 0 - e;
        let y_fp = if shift_amt > f as i64 {
            big_from_u64(0)
        } else {
            let one_fp = big_shl(&big_from_u64(1), f);
            let m2 = big_shl(&big_from_u64(scale.mant), shift_amt as usize);
            proof {
                lemma_pow2_pos(shift_amt as nat);
                let pw = vstd::arithmetic::power2::pow2(shift_amt as nat);
                assert(big_nat(m2) >= 1) by (nonlinear_arith)
                    requires
                        big_nat(m2) == scale.mant * pw,
                        scale.mant >= 1,
                        pw >= 1,
                ;
            }
            let y = big_div(&one_fp, &m2);
            proof {
                lemma_div_is_ordered_by_denominator(
                    big_nat(one_fp) as int,
                    1int,
                    big_nat(m2) as int,
                );
            }
            y
        };
        taylor_exp_neg(&y_fp, f)
    };
    proof {
        assert(big_nat(u) == bias_u_spec(scale.mant, scale.exp2 as int, pow2_exp as int, f as nat));
    }
    if neg && big_is_zero(&u) {
        // The bias rounds up against one: every returned bit is set, the
        // truncation of the largest representable value below one.
        proof {
            lemma2_to64();
        }
        let mut out: Vec<u64> = Vec::new();
        while out.len() < num_words
            invariant
                out.len() <= num_words,
                words_value(out@) == pow2((64 * out@.len()) as nat) - 1,
            decreases num_words - out.len(),
        {
            let ghost prev = out@;
            out.push(u64::MAX);
            proof {
                lemma_words_value_push(prev, u64::MAX);
                lemma_pow2_adds((64 * prev.len()) as nat, 64);
                lemma2_to64();
                let a = pow2((64 * prev.len()) as nat);
                assert((a - 1) * 0x1_0000_0000_0000_0000 + 0xffff_ffff_ffff_ffff == a
                    * 0x1_0000_0000_0000_0000 - 1) by (nonlinear_arith);
            }
        }
        proof {
            lemma_pow2_pos((64 * num_words) as nat);
            lemma_small_mod((pow2((64 * num_words) as nat) - 1) as nat, pow2(
                (64 * num_words) as nat,
            ));
        }
        return out;
    }
    let one_fp = big_shl(&big_from_u64(1), f);
    let denom = big_add(&one_fp, &u);
    let numer = if neg {
        big_shl(&big_from_u64(1), f + n_bits)
    } else {
        big_shl(&u, n_bits)
    };
    let b = big_div(&numer, &denom);
    proof {
        assert(big_nat(b) == bias_nat_spec(
            neg,
            scale.mant,
            scale.exp2 as int,
            pow2_exp as int,
            num_words as nat,
        ));
    }
    big_low_words(&b, num_words)
}

} // verus!
