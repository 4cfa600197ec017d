//! Time-decayed usage scores.
//!
//! A score is stored in decay-inverted form: the stored value, decayed by the
//! time elapsed since the catalog's fixed reference time, is what it is worth
//! now. Elapsed time and the half-life are whole seconds. The factor
//! `2^(elapsed / half_life)` is taken as `2^q * (h + r) / h`, where
//! `q = elapsed / h` and `r = elapsed % h`: exact at whole multiples of the
//! half-life and linear in between. Divisions round down; a stored value that
//! would exceed `u64::MAX` saturates there.
use vstd::arithmetic::div_mod::*;
use vstd::arithmetic::mul::*;
use vstd::prelude::*;

verus! {

/// Two to the power `n`.
pub open spec fn pow2(n: nat) -> nat
    decreases n,
{
    if n == 0 {
        1
    } else {
        2 * pow2((n - 1) as nat)
    }
}

/// What a stored score `raw` is worth `elapsed` seconds after the reference time.
pub open spec fn decayed_spec(raw: u64, elapsed: u64, half_life: u64) -> nat
    recommends
        half_life > 0,
{
    ((raw as nat * half_life as nat) / ((half_life + elapsed % half_life) as nat)) / pow2(
        (elapsed / half_life) as nat,
    )
}

/// The stored form of a present-day value `n`, before saturation.
pub open spec fn undecay_exact(n: u64, elapsed: u64, half_life: u64) -> nat
    recommends
        half_life > 0,
{
    (n as nat + (n as nat * (elapsed % half_life) as nat) / half_life as nat) * pow2(
        (elapsed / half_life) as nat,
    )
}

/// The stored form of a present-day value `n`, saturated at `u64::MAX`.
pub open spec fn undecay_spec(n: u64, elapsed: u64, half_life: u64) -> u64
    recommends
        half_life > 0,
{
    if undecay_exact(n, elapsed, half_life) <= u64::MAX {
        undecay_exact(n, elapsed, half_life) as u64
    } else {
        u64::MAX
    }
}

/// The present-day value after adding `weight`, saturated at `u64::MAX`.
pub open spec fn boosted_spec(raw: u64, weight: u64, elapsed: u64, half_life: u64) -> u64 {
    if decayed_spec(raw, elapsed, half_life) + weight <= u64::MAX {
        (decayed_spec(raw, elapsed, half_life) + weight) as u64
    } else {
        u64::MAX
    }
}

/// The stored score after one reinforcement by `weight`.
pub open spec fn reinforced_spec(raw: u64, weight: u64, elapsed: u64, half_life: u64) -> u64 {
    undecay_spec(boosted_spec(raw, weight, elapsed, half_life), elapsed, half_life)
}

proof fn lemma_pow2_positive(n: nat)
    ensures
        pow2(n) >= 1,
    decreases n,
{
    if n > 0 {
        lemma_pow2_positive((n - 1) as nat);
    }
}

proof fn lemma_pow2_monotonic(a: nat, b: nat)
    requires
        a <= b,
    ensures
        pow2(a) <= pow2(b),
    decreases b,
{
    if a < b {
        lemma_pow2_monotonic(a, (b - 1) as nat);
        lemma_pow2_positive((b - 1) as nat);
    }
}

/// Dividing by `2^(i+1)` is halving the quotient by `2^i`.
proof fn lemma_div_pow2_step(x: nat, i: nat)
    ensures
        x / pow2(i + 1) == (x / pow2(i)) / 2,
{
    lemma_pow2_positive(i);
    assert(pow2(i + 1) == pow2(i) * 2);
    lemma_div_denominator(x as int, pow2(i) as int, 2);
}

/// `a <= b / d` whenever `a * d <= b`.
proof fn lemma_div_lower_bound(a: int, b: int, d: int)
    requires
        d > 0,
        b >= 0,
        a * d <= b,
    ensures
        a <= b / d,
{
    lemma_fundamental_div_mod(b, d);
    lemma_mod_pos_bound(b, d);
    let qt = b / d;
    let rm = b % d;
    assert(a <= qt) by (nonlinear_arith)
        requires
            b == d * qt + rm,
            0 <= rm < d,
            a * d <= b,
            d > 0,
    ;
}

/// Decaying the stored form of a present-day value `x` gives back at least `x - 1`.
proof fn lemma_decay_of_undecay(x: u64, elapsed: u64, half_life: u64)
    requires
        half_life > 0,
        undecay_exact(x, elapsed, half_life) <= u64::MAX,
    ensures
        decayed_spec(undecay_exact(x, elapsed, half_life) as u64, elapsed, half_life) + 1 >= x,
{
    let h = half_life as int;
    let r = (elapsed % half_life) as int;
    let p = pow2((elapsed / half_life) as nat) as int;
    lemma_pow2_positive((elapsed / half_life) as nat);
    let xr = x as int * r;
    let f = xr / h;
    lemma_fundamental_div_mod(xr, h);
    lemma_mod_pos_bound(xr, h);
    assert(xr >= 0) by (nonlinear_arith)
        requires
            x >= 0,
            r >= 0,
            xr == x as int * r,
    ;
    let u = x as int + f;
    assert(f >= 0) by {
        lemma_div_pos_is_pos(xr, h);
    }
    // u * h exceeds (x - 1) * (h + r)
    assert(u * h >= (x as int - 1) * (h + r)) by (nonlinear_arith)
        requires
            xr == h * f + xr % h,
            0 <= xr % h < h,
            u == x as int + f,
            xr == x as int * r,
            r >= 0,
            h > 0,
    ;
    let m = (u * h) / (h + r);
    assert(u * h >= 0) by (nonlinear_arith)
        requires
            u >= 0,
            h > 0,
    ;
    lemma_div_lower_bound(x as int - 1, u * h, h + r);
    // m * p * (h + r) <= u * p * h
    lemma_fundamental_div_mod(u * h, h + r);
    lemma_mod_pos_bound(u * h, h + r);
    assert(m * p * (h + r) <= u * p * h) by (nonlinear_arith)
        requires
            u * h == (h + r) * m + (u * h) % (h + r),
            (u * h) % (h + r) >= 0,
            p >= 1,
    ;
    assert(u * p * h >= 0) by (nonlinear_arith)
        requires
            u >= 0,
            h > 0,
            p >= 1,
    ;
    lemma_div_lower_bound(m * p, u * p * h, h + r);
    let y = (u * p * h) / (h + r);
    lemma_div_is_ordered(m * p, y, p);
    lemma_div_multiples_vanish(m, p);
    assert(undecay_exact(x, elapsed, half_life) == u * p);
    assert((u * p) * h == u * p * h);
    assert(decayed_spec(undecay_exact(x, elapsed, half_life) as u64, elapsed, half_life) == y / p);
}

/// Reinforcing by a weight of at least two units strictly raises what the
/// score is worth at that moment, as long as the stored value does not
/// saturate.
pub proof fn lemma_reinforce_increases(raw: u64, weight: u64, elapsed: u64, half_life: u64)
    requires
        half_life > 0,
        weight >= 2,
        decayed_spec(raw, elapsed, half_life) + weight <= u64::MAX,
        undecay_exact(boosted_spec(raw, weight, elapsed, half_life), elapsed, half_life)
            <= u64::MAX,
    ensures
        decayed_spec(reinforced_spec(raw, weight, elapsed, half_life), elapsed, half_life)
            > decayed_spec(raw, elapsed, half_life),
{
    lemma_decay_of_undecay(boosted_spec(raw, weight, elapsed, half_life), elapsed, half_life);
}

/// Without reinforcement, a score one half-life on is worth half (rounded
/// down) of what it is worth at the reference time; exactly half when the
/// stored value is even.
pub proof fn lemma_half_life_halves(raw: u64, half_life: u64)
    requires
        half_life > 0,
    ensures
        decayed_spec(raw, half_life, half_life) == decayed_spec(raw, 0, half_life) / 2,
        raw % 2 == 0 ==> 2 * decayed_spec(raw, half_life, half_life) == decayed_spec(
            raw,
            0,
            half_life,
        ),
{
    let h = half_life as int;
    lemma_mod_self_0(h);
    lemma_div_basics(h);
    lemma_small_mod(0, half_life as nat);
    lemma_div_multiples_vanish(raw as int, h);
    assert(pow2(0) == 1);
    assert(pow2(1) == 2 * pow2(0));
    assert(decayed_spec(raw, 0, half_life) == raw);
    assert(decayed_spec(raw, half_life, half_life) == raw / 2);
}

/// The stored score `raw`, worth what it is `elapsed` seconds after the reference time.
pub fn decayed_score(raw: u64, elapsed: u64, half_life: u64) -> (r: u64)
    requires
        half_life > 0,
    ensures
        r == decayed_spec(raw, elapsed, half_life),
        r <= raw,
{
    let q: u64 = elapsed / half_life;
    let rem: u64 = elapsed % half_life;
    proof {
        assert(raw as int * half_life as int <= u64::MAX as int * u64::MAX as int) by (nonlinear_arith)
            requires
                raw <= u64::MAX,
                half_life <= u64::MAX,
        ;
    }
    let a: u128 = raw as u128 * half_life as u128;
    let b: u128 = half_life as u128 + rem as u128;
    let t0: u128 = a / b;
    proof {
        assert(a == raw as nat * half_life as nat);
        assert(t0 <= raw) by {
            lemma_div_is_ordered_by_denominator(a as int, half_life as int, b as int);
            lemma_div_multiples_vanish(raw as int, half_life as int);
        }
    }
    let mut t: u128 = t0;
    let mut i: u64 = 0;
    assert(pow2(0) == 1);
    while i < q && t > 0
        invariant
            i <= q,
            t == t0 as nat / pow2(i as nat),
            t0 <= raw,
        decreases t,
    {
        proof {
            lemma_div_pow2_step(t0 as nat, i as nat);
        }
        t = t / 2;
        i = i + 1;
    }
    proof {
        lemma_pow2_positive(i as nat);
        lemma_pow2_positive(q as nat);
        if t == 0 {
            lemma_pow2_monotonic(i as nat, q as nat);
            lemma_div_is_ordered_by_denominator(t0 as int, pow2(i as nat) as int, pow2(q as nat) as int);
        }
        lemma_div_is_ordered_by_denominator(t0 as int, 1, pow2(q as nat) as int);
    }
    t as u64
}

/// The stored form of the present-day value `n`, saturated at `u64::MAX`.
pub fn undecay(n: u64, elapsed: u64, half_life: u64) -> (r: u64)
    requires
        half_life > 0,
    ensures
        r == undecay_spec(n, elapsed, half_life),
{
    let q: u64 = elapsed / half_life;
    let rem: u64 = elapsed % half_life;
    proof {
        assert(n as int * rem as int <= u64::MAX as int * u64::MAX as int) by (nonlinear_arith)
            requires
                n <= u64::MAX,
                rem <= u64::MAX,
        ;
    }
    let nr: u128 = n as u128 * rem as u128;
    let s0: u128 = n as u128 + nr / half_life as u128;
    proof {
        assert((n as int * rem as int) / half_life as int <= n) by {
            lemma_mul_inequality(rem as int, half_life as int, n as int);
            lemma_mul_is_commutative(n as int, rem as int);
            lemma_mul_is_commutative(n as int, half_life as int);
            lemma_div_is_ordered(n as int * rem as int, n as int * half_life as int, half_life as int);
            lemma_div_multiples_vanish(n as int, half_life as int);
        }
    }
    if s0 == 0 {
        proof {
            lemma_mul_basics(pow2(q as nat) as int);
        }
        return 0;
    }
    assert(undecay_exact(n, elapsed, half_life) == s0 * pow2(q as nat));
    let mut v: u128 = s0;
    let mut i: u64 = 0;
    assert(pow2(0) == 1);
    while i < q
        invariant
            i <= q,
            0 < s0,
            undecay_exact(n, elapsed, half_life) == s0 * pow2(q as nat),
            v == s0 * pow2(i as nat),
            v <= 2 * (u64::MAX as nat) + 2,
        decreases q - i,
    {
        if v > u64::MAX as u128 {
            proof {
                lemma_pow2_monotonic(i as nat, q as nat);
                let pi = pow2(i as nat);
                let pq = pow2(q as nat);
                assert(s0 * pq >= s0 * pi) by (nonlinear_arith)
                    requires
                        pi <= pq,
                        s0 > 0,
                ;
            }
            return u64::MAX;
        }
        proof {
            lemma_mul_is_associative(s0 as int, pow2(i as nat) as int, 2);
        }
        v = v * 2;
        i = i + 1;
    }
    if v > u64::MAX as u128 {
        u64::MAX
    } else {
        v as u64
    }
}

/// The stored score `raw` after one reinforcement by `weight`.
pub fn reinforce(raw: u64, weight: u64, elapsed: u64, half_life: u64) -> (r: u64)
    requires
        half_life > 0,
    ensures
        r == reinforced_spec(raw, weight, elapsed, half_life),
{
    let now = decayed_score(raw, elapsed, half_life);
    let boosted = now.saturating_add(weight);
    undecay(boosted, elapsed, half_life)
}

} // verus!
