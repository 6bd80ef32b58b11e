//! "Nice" tick steps: 1, 2 or 5 times a power of ten.
use vstd::prelude::*;

verus! {

pub open spec fn pow10(k: nat) -> nat
    decreases k,
{
    if k == 0 {
        1
    } else {
        10 * pow10((k - 1) as nat)
    }
}

/// The largest power of ten that is at most `n` (for `n >= 1`), that is
/// `10^floor(log10(n))`.
pub open spec fn magnitude(n: nat) -> nat
    decreases n,
{
    if n < 10 {
        1
    } else {
        10 * magnitude(n / 10)
    }
}

/// Snaps the mantissa `step / p` to 1, 2, 5 or 10 at the thresholds
/// 1.5, 3.5 and 7.5, and scales back by `p`.
pub open spec fn snap(step: nat, p: nat) -> nat {
    if 2 * step < 3 * p {
        p
    } else if 2 * step < 7 * p {
        2 * p
    } else if 2 * step < 15 * p {
        5 * p
    } else {
        10 * p
    }
}

pub open spec fn nice_step_spec(step: nat) -> nat {
    snap(step, magnitude(step))
}

proof fn lemma_magnitude_bounds(n: nat)
    requires
        n >= 1,
    ensures
        magnitude(n) <= n < 10 * magnitude(n),
    decreases n,
{
    if n >= 10 {
        lemma_magnitude_bounds(n / 10);
    }
}

proof fn lemma_magnitude_is_pow10(n: nat)
    ensures
        exists|k: nat| magnitude(n) == #[trigger] pow10(k),
    decreases n,
{
    if n < 10 {
        assert(magnitude(n) == pow10(0));
    } else {
        lemma_magnitude_is_pow10(n / 10);
        let k = choose|k: nat| magnitude(n / 10) == #[trigger] pow10(k);
        assert(magnitude(n) == pow10(k + 1));
    }
}

proof fn lemma_pow10_pos(k: nat)
    ensures
        pow10(k) >= 1,
    decreases k,
{
    if k > 0 {
        lemma_pow10_pos((k - 1) as nat);
    }
}

/// `m * 10^k` has magnitude `10^k` for a single digit `m`.
proof fn lemma_magnitude_of_scaled(m: nat, k: nat)
    requires
        1 <= m < 10,
    ensures
        magnitude(m * pow10(k)) == pow10(k),
    decreases k,
{
    if k == 0 {
        assert(pow10(0) == 1);
        assert(m * pow10(k) == m);
    } else {
        let j = (k - 1) as nat;
        lemma_pow10_pos(j);
        lemma_magnitude_of_scaled(m, j);
        let x = m * pow10(j);
        assert(m * pow10(k) == 10 * x) by (nonlinear_arith)
            requires
                pow10(k) == 10 * pow10(j),
                x == m * pow10(j),
        ;
        assert(x >= 1) by (nonlinear_arith)
            requires
                x == m * pow10(j),
                m >= 1,
                pow10(j) >= 1,
        ;
        assert((10 * x) / 10 == x);
        assert(magnitude(m * pow10(k)) == 10 * magnitude(x));
    }
}

/// Rounds a step up or down to the nearest step of the form 1, 2 or 5 times
/// a power of ten: the mantissa `step / 10^floor(log10(step))` snaps to 1
/// below 1.5, to 2 below 3.5, to 5 below 7.5 and to 10 otherwise.
pub fn nice_step(step: u64) -> (r: u128)
    requires
        step >= 1,
    ensures
        r == nice_step_spec(step as nat),
        1 <= r <= 10 * step,
{
    proof {
        lemma_magnitude_bounds(step as nat);
    }
    let mut n: u64 = step;
    let mut p: u64 = 1;
    while n >= 10
        invariant
            n >= 1,
            p >= 1,
            p * n <= step,
            p * magnitude(n as nat) == magnitude(step as nat),
        decreases n,
    {
        let ghost old_n = n;
        let ghost old_p = p;
        assert(10 * p <= p * n) by (nonlinear_arith)
            requires
                n >= 10,
                p >= 1,
        ;
        assert(magnitude(n as nat) == 10 * magnitude((n / 10) as nat));
        n = n / 10;
        p = p * 10;
        assert(p * n <= step) by (nonlinear_arith)
            requires
                p == old_p * 10,
                n == old_n / 10,
                old_p * old_n <= step,
                old_p >= 1,
        ;
        assert(p * magnitude(n as nat) == old_p * magnitude(old_n as nat)) by (nonlinear_arith)
            requires
                p == old_p * 10,
                magnitude(old_n as nat) == 10 * magnitude(n as nat),
        ;
    }
    assert(magnitude(n as nat) == 1);
    assert(p == magnitude(step as nat)) by (nonlinear_arith)
        requires
            p * magnitude(n as nat) == magnitude(step as nat),
            magnitude(n as nat) == 1,
    ;
    let s = step as u128;
    let q = p as u128;
    if 2 * s < 3 * q {
        q
    } else if 2 * s < 7 * q {
        2 * q
    } else if 2 * s < 15 * q {
        5 * q
    } else {
        10 * q
    }
}

/// A nice step is 1, 2 or 5 times its own power of ten:
/// `nice_step(s) / 10^floor(log10(nice_step(s)))` is 1, 2 or 5 (a mantissa of 10
/// is 1 at the next power).
pub proof fn lemma_nice_step_is_round(step: nat)
    requires
        step >= 1,
    ensures
        ({
            let r = nice_step_spec(step);
            r == magnitude(r) || r == 2 * magnitude(r) || r == 5 * magnitude(r)
        }),
        exists|k: nat|
            #![trigger pow10(k)]
            nice_step_spec(step) == pow10(k) || nice_step_spec(step) == 2 * pow10(k)
                || nice_step_spec(step) == 5 * pow10(k),
{
    lemma_magnitude_is_pow10(step);
    let k = choose|k: nat| magnitude(step) == #[trigger] pow10(k);
    let p = pow10(k);
    let r = nice_step_spec(step);
    if 2 * step < 3 * p {
        lemma_magnitude_of_scaled(1, k);
        assert(1 * p == p);
    } else if 2 * step < 7 * p {
        lemma_magnitude_of_scaled(2, k);
    } else if 2 * step < 15 * p {
        lemma_magnitude_of_scaled(5, k);
    } else {
        lemma_magnitude_of_scaled(1, k + 1);
        assert(r == pow10(k + 1));
        assert(1 * pow10(k + 1) == pow10(k + 1));
    }
}

/// `nice_step` leaves the steps 1, 2, 5 and 10 times a power of ten unchanged.
pub proof fn lemma_nice_step_idempotent(m: nat, k: nat)
    requires
        m == 1 || m == 2 || m == 5 || m == 10,
    ensures
        nice_step_spec(m * pow10(k)) == m * pow10(k),
{
    lemma_pow10_pos(k);
    let p = pow10(k);
    if m == 10 {
        lemma_magnitude_of_scaled(1, k + 1);
        assert(1 * pow10(k + 1) == pow10(k + 1));
        assert(m * p == pow10(k + 1));
    } else {
        lemma_magnitude_of_scaled(m, k);
    }
}

} // verus!
