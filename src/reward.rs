use vstd::prelude::*;

verus! {

/// Combo bases are written in tenths: 15 stands for 1.5x.
pub const COMBO_SCALE: u64 = 10;

/// The longest streak a run can reach.
pub const MAX_STREAK: u64 = 10;

pub open spec fn pow(b: nat, e: nat) -> nat
    decreases e,
{
    if e == 0 {
        1
    } else {
        b * pow(b, (e - 1) as nat)
    }
}

/// `ceil((base / 10) ^ (streak - 1))`, the whole-number multiplier of a streak.
pub open spec fn combo_multiplier(base: nat, streak: nat) -> nat {
    let n = (streak - 1) as nat;
    ((pow(base, n) + pow(COMBO_SCALE as nat, n) - 1) / (pow(COMBO_SCALE as nat, n) as int)) as nat
}

/// The cash a head pays at the given streak: coin value times the multiplier.
pub open spec fn reward_spec(coin_value: nat, combo_base: nat, streak: nat) -> nat {
    coin_value * combo_multiplier(combo_base, streak)
}

pub proof fn lemma_pow_positive(b: nat, e: nat)
    requires
        b >= 1,
    ensures
        pow(b, e) >= 1,
    decreases e,
{
    if e > 0 {
        lemma_pow_positive(b, (e - 1) as nat);
        assert(b * pow(b, (e - 1) as nat) >= 1) by (nonlinear_arith)
            requires b >= 1, pow(b, (e - 1) as nat) >= 1;
    }
}

pub proof fn lemma_pow_monotone(b: nat, k: nat, n: nat)
    requires
        b >= 1,
        k <= n,
    ensures
        pow(b, k) <= pow(b, n),
    decreases n - k,
{
    if k < n {
        lemma_pow_monotone(b, k, (n - 1) as nat);
        lemma_pow_positive(b, (n - 1) as nat);
        let p = pow(b, (n - 1) as nat);
        assert(p <= b * p) by (nonlinear_arith)
            requires b >= 1, p >= 1;
    }
}

/// The multiplier of `streak` at `combo_base`; `None` exactly when
/// `combo_base ^ (streak - 1)` does not fit in a `u64`.
pub fn combo_mult(combo_base: u64, streak: u64) -> (r: Option<u64>)
    requires
        1 <= streak <= MAX_STREAK,
    ensures
        r is Some <==> pow(combo_base as nat, (streak - 1) as nat) <= u64::MAX,
        r is Some ==> r->0 == combo_multiplier(combo_base as nat, streak as nat),
{
    let n = streak - 1;
    let mut num: u64 = 1;
    let mut den: u64 = 1;
    let mut i: u64 = 0;
    while i < n
        invariant
            n == streak - 1,
            n < MAX_STREAK,
            i <= n,
            num == pow(combo_base as nat, i as nat),
            den == pow(COMBO_SCALE as nat, i as nat),
            1 <= den <= 1_000_000_000,
        decreases n - i,
    {
        proof {
            lemma_pow_monotone(COMBO_SCALE as nat, (i + 1) as nat, 9);
            reveal_with_fuel(pow, 10);
            assert(pow(COMBO_SCALE as nat, 9) == 1_000_000_000);
        }
        match num.checked_mul(combo_base) {
            Some(next) => {
                num = next;
            },
            None => {
                proof {
                    assert(combo_base >= 1) by (nonlinear_arith)
                        requires num * combo_base > u64::MAX;
                    assert(pow(combo_base as nat, (i + 1) as nat) == combo_base * num);
                    lemma_pow_monotone(combo_base as nat, (i + 1) as nat, n as nat);
                }
                return None;
            },
        }
        assert(pow(COMBO_SCALE as nat, (i + 1) as nat) == COMBO_SCALE * den);
        den = den * COMBO_SCALE;
        i = i + 1;
    }
    proof {
        if combo_base == 0 && n > 0 {
            assert(pow(combo_base as nat, n as nat) == 0);
        }
    }
    let q = num / den;
    proof {
        let a = num as int;
        let d = den as int;
        let qi = q as int;
        assert(a % d != 0 ==> qi < u64::MAX) by (nonlinear_arith)
            requires d >= 1, qi == a / d, a <= u64::MAX, a >= 0;
    }
    let m = if num % den == 0 { q } else { q + 1 };
    proof {
        let a = num as int;
        let d = den as int;
        let qi = q as int;
        let mi = m as int;
        assert(d >= 1);
        assert(mi == (a + d - 1) / d) by (nonlinear_arith)
            requires d >= 1, qi == a / d, mi == (if a % d == 0 { qi } else { qi + 1 }), a >= 0;
    }
    Some(m)
}

/// The cash a head pays: `coin_value * ceil((combo_base / 10) ^ (streak - 1))`.
/// The ceiling is taken before the product.
pub fn reward(coin_value: u64, combo_base: u64, streak: u64) -> (r: u64)
    requires
        1 <= streak <= MAX_STREAK,
        pow(combo_base as nat, (streak - 1) as nat) <= u64::MAX,
        reward_spec(coin_value as nat, combo_base as nat, streak as nat) <= u64::MAX,
    ensures
        r == reward_spec(coin_value as nat, combo_base as nat, streak as nat),
{
    let m = combo_mult(combo_base, streak).unwrap();
    coin_value * m
}

} // verus!
