use vstd::prelude::*;

verus! {

/// The unit of search statistics: a win is worth `VALUE_SCALE`.
pub const VALUE_SCALE: u64 = 1048576;

/// ln 2, as a fraction.
pub const LN2_NUM: u64 = 693147;
pub const LN2_DEN: u64 = 1000000;

/// The exploration constant 0.75, as a fraction.
pub const EXPLORE_NUM: u64 = 3;
pub const EXPLORE_DEN: u64 = 4;

/// The depth discount 0.975, as a fraction.
pub const DISCOUNT_NUM: u64 = 39;
pub const DISCOUNT_DEN: u64 = 40;

pub open spec fn two_pow(k: nat) -> nat
    decreases k,
{
    if k == 0 {
        1
    } else {
        2 * two_pow((k - 1) as nat)
    }
}

pub open spec fn floor_log2(n: nat) -> nat
    decreases n,
{
    if n < 2 {
        0
    } else {
        1 + floor_log2(n / 2)
    }
}

proof fn lemma_floor_log2(n: nat, k: nat)
    requires
        two_pow(k) <= n < 2 * two_pow(k),
    ensures
        floor_log2(n) == k,
    decreases k,
{
    if k > 0 {
        let p = two_pow((k - 1) as nat);
        assert(p <= n / 2 < 2 * p) by (nonlinear_arith)
            requires
                2 * p <= n < 4 * p,
        ;
        lemma_floor_log2(n / 2, (k - 1) as nat);
    }
}

proof fn lemma_two_pow_64()
    ensures
        two_pow(64) == 0x1_0000_0000_0000_0000,
{
    reveal_with_fuel(two_pow, 65);
}

/// The natural logarithm of `n` in units of `1 / VALUE_SCALE`: the binary
/// logarithm, interpolated linearly between powers of two, times ln 2.
/// Within an octave `log2(1 + f) >= f`, and the gap peaks at `f = 1/ln 2 - 1`
/// with about 0.0861, so the result lies below ln n by at most about 0.0597
/// (plus rounding down); it is exact at powers of two.
pub open spec fn ln_fixed_spec(n: nat) -> nat {
    let k = floor_log2(n) as int;
    let p = two_pow(floor_log2(n)) as int;
    let scale = VALUE_SCALE as int;
    ((k * scale + ((n - p) * scale) / p) * (LN2_NUM as int) / (LN2_DEN as int)) as nat
}

/// See `ln_fixed_spec`.
pub fn ln_fixed(n: u64) -> (r: u64)
    requires
        n >= 1,
    ensures
        r as nat == ln_fixed_spec(n as nat),
        r <= 64 * VALUE_SCALE,
{
    let mut p: u64 = 1;
    let mut k: u64 = 0;
    while p <= n / 2
        invariant
            1 <= p <= n,
            p as nat == two_pow(k as nat),
            k < 64,
            p >= 1,
            two_pow(k as nat) >= k + 1,
        decreases n - p,
    {
        p = p * 2;
        k = k + 1;
        proof {
            if k == 64 {
                lemma_two_pow_64();
            }
        }
    }
    proof {
        assert(n < 2 * p) by (nonlinear_arith)
            requires
                n / 2 < p,
        ;
        lemma_floor_log2(n as nat, k as nat);
    }
    let frac: u128 = ((n - p) as u128 * VALUE_SCALE as u128) / p as u128;
    assert(frac < VALUE_SCALE) by (nonlinear_arith)
        requires
            frac as int == ((n - p) as int * 1048576) / (p as int),
            n < 2 * p,
            p >= 1,
    ;
    let log2 = k as u128 * VALUE_SCALE as u128 + frac;
    let r = log2 * LN2_NUM as u128 / LN2_DEN as u128;
    assert(r <= 64 * VALUE_SCALE) by (nonlinear_arith)
        requires
            r as int == (log2 as int) * 693147 / 1000000,
            log2 < 64 * 1048576,
    ;
    r as u64
}

/// `r` is the integer square root of `x`.
pub open spec fn is_isqrt(r: nat, x: nat) -> bool {
    r * r <= x < (r + 1) * (r + 1)
}

pub open spec fn isqrt_spec(x: nat) -> nat {
    choose|r: nat| is_isqrt(r, x)
}

proof fn lemma_isqrt_unique(r: nat, x: nat)
    requires
        is_isqrt(r, x),
    ensures
        isqrt_spec(x) == r,
{
    let s = isqrt_spec(x);
    assert(is_isqrt(s, x));
    if s < r {
        assert((s + 1) * (s + 1) <= r * r) by (nonlinear_arith)
            requires
                s + 1 <= r,
        ;
    } else if r < s {
        assert((r + 1) * (r + 1) <= s * s) by (nonlinear_arith)
            requires
                r + 1 <= s,
        ;
    }
}

/// The integer square root.
pub fn isqrt(x: u64) -> (r: u64)
    ensures
        r as nat == isqrt_spec(x as nat),
        r < 0x1_0000_0000,
{
    let mut lo: u64 = 0;
    let mut hi: u64 = 0x1_0000_0000;
    assert(x < 0x1_0000_0000u64 as nat * 0x1_0000_0000u64 as nat);
    while hi - lo > 1
        invariant
            lo < hi <= 0x1_0000_0000,
            lo * lo <= x,
            x < hi * hi,
        decreases hi - lo,
    {
        let mid = lo + (hi - lo) / 2;
        assert((mid as u128) * (mid as u128) <= 0x1_0000_0000_0000_0000u128) by (nonlinear_arith)
            requires
                mid <= 0x1_0000_0000u64,
        ;
        if (mid as u128) * (mid as u128) <= x as u128 {
            lo = mid;
        } else {
            hi = mid;
        }
    }
    proof {
        assert(hi == lo + 1);
        lemma_isqrt_unique(lo as nat, x as nat);
    }
    lo
}

/// `w / n` rounded toward zero.
pub open spec fn trunc_div(w: int, n: nat) -> int {
    if w >= 0 {
        w / (n as int)
    } else {
        -((-w) / (n as int))
    }
}

/// The exploration bonus `C * sqrt(2 ln(parent) / child)`, in units of
/// `1 / VALUE_SCALE`.
pub open spec fn explore_spec(parent: nat, child: nat) -> nat {
    let x = (2 * ln_fixed_spec(parent) * (VALUE_SCALE as int) / (child as int)) as nat;
    ((EXPLORE_NUM as int) * isqrt_spec(x) / (EXPLORE_DEN as int)) as nat
}

/// The selection score of a child: the mover's mean result plus the
/// exploration bonus, in units of `1 / VALUE_SCALE`. `sign` is +1 when the
/// first player moves and -1 otherwise.
pub open spec fn ucb_spec(parent: nat, child: nat, wins: int, sign: int) -> int {
    sign * trunc_div(wins, child) + explore_spec(parent, child)
}

/// See `ucb_spec`.
pub fn ucb_score(parent: u64, child: u64, wins: i64, first_to_move: bool) -> (r: i128)
    requires
        parent >= 1,
        child >= 1,
    ensures
        r == ucb_spec(parent as nat, child as nat, wins as int, if first_to_move { 1 } else { -1 }),
{
    let ln = ln_fixed(parent);
    let num: u64 = 2 * ln * VALUE_SCALE;
    let root = isqrt(num / child);
    let explore: u64 = EXPLORE_NUM * root / EXPLORE_DEN;
    let mean: i128 = if wins >= 0 {
        (wins as u64 / child) as i128
    } else {
        -(((-(wins as i128)) as u128 / child as u128) as i128)
    };
    let r: i128 = if first_to_move {
        mean + explore as i128
    } else {
        -mean + explore as i128
    };
    r
}

/// The weight of a result at the next depth: `w * 0.975`, rounded down.
pub fn discount(w: u64) -> (r: u64)
    ensures
        r as int == (w as int) * (DISCOUNT_NUM as int) / (DISCOUNT_DEN as int),
        r <= w,
{
    assert((w as u128) * 39 <= 0xffff_ffff_ffff_ffffu128 * 39) by (nonlinear_arith);
    let q: u128 = w as u128 * DISCOUNT_NUM as u128 / DISCOUNT_DEN as u128;
    assert(q <= w) by (nonlinear_arith)
        requires
            q as int == (w as int) * 39 / 40,
    ;
    q as u64
}

} // verus!
