//! Integer arithmetic used by constant folding and fraction reduction.
use vstd::prelude::*;
use vstd::arithmetic::div_mod::{lemma_fundamental_div_mod, lemma_mod_multiples_basic, lemma_div_multiples_vanish};

verus! {

/// `a` raised to the `n`-th power.
pub open spec fn power(a: int, n: nat) -> int
    decreases n,
{
    if n == 0 {
        1
    } else {
        a * power(a, (n - 1) as nat)
    }
}

/// Whether `v` is a value of `i32`.
pub open spec fn fits(v: int) -> bool {
    i32::MIN <= v <= i32::MAX
}

/// `a^n` when it is a value of `i32`.
pub open spec fn int_pow(a: i32, n: nat) -> Option<i32> {
    if fits(power(a as int, n)) {
        Some(power(a as int, n) as i32)
    } else {
        None
    }
}

/// Whether `m` divides both `a` and `b`, by Rust's remainder.
pub open spec fn common_factor(m: i32, a: i32, b: i32) -> bool {
    a.checked_rem(m) == Some(0i32) && b.checked_rem(m) == Some(0i32)
}

/// The greatest `m` in `2..=hi` that divides both `a` and `b`, or `0` if none does.
pub open spec fn greatest_common_factor(a: i32, b: i32, hi: int) -> int
    decreases hi,
{
    if hi < 2 {
        0
    } else if common_factor(hi as i32, a, b) {
        hi
    } else {
        greatest_common_factor(a, b, hi - 1)
    }
}

pub(crate) proof fn lemma_power_grows(a: int, k: nat, m: nat)
    requires
        a * a >= 4,
        k < m,
    ensures
        power(a, m) * power(a, m) >= 4 * (power(a, k) * power(a, k)),
    decreases m - k,
{
    let p = power(a, (m - 1) as nat);
    assert(power(a, m) == a * p);
    assert((a * p) * (a * p) >= 4 * (p * p)) by (nonlinear_arith)
        requires
            a * a >= 4,
    ;
    if k < m - 1 {
        lemma_power_grows(a, k, (m - 1) as nat);
        let q = power(a, k);
        assert(q * q >= 0) by (nonlinear_arith);
    }
}

proof fn lemma_square_bound(y: int)
    ensures
        fits(y) ==> y * y <= 0x4000_0000_0000_0000,
        !fits(y) ==> y * y >= 0x4000_0000_0000_0000,
{
    if fits(y) {
        assert(y * y <= 0x4000_0000_0000_0000) by (nonlinear_arith)
            requires
                -0x8000_0000 <= y <= 0x8000_0000,
        ;
    } else if y > 0 {
        assert(y * y >= 0x4000_0000_0000_0000) by (nonlinear_arith)
            requires
                y >= 0x8000_0000,
        ;
    } else {
        assert(y * y >= 0x4000_0000_0000_0000) by (nonlinear_arith)
            requires
                y <= -0x8000_0000,
        ;
    }
}

pub(crate) proof fn lemma_power_unit(a: int, n: nat)
    requires
        -1 <= a <= 1,
    ensures
        -1 <= power(a, n) <= 1,
        a == 1 ==> power(a, n) == 1,
        a == 0 && n > 0 ==> power(a, n) == 0,
    decreases n,
{
    if n > 0 {
        lemma_power_unit(a, (n - 1) as nat);
        let p = power(a, (n - 1) as nat);
        assert(-1 <= a * p <= 1) by (nonlinear_arith)
            requires
                -1 <= a <= 1,
                -1 <= p <= 1,
        ;
    }
}

/// `a^n` when it fits in `i32`; `None` when it does not.
pub fn checked_pow(a: i32, n: u32) -> (r: Option<i32>)
    ensures
        r == int_pow(a, n as nat),
{
    if -1 <= a && a <= 1 {
        proof {
            lemma_power_unit(a as int, n as nat);
        }
        if a == 1 || n == 0 {
            return Some(1);
        }
        if a == 0 {
            return Some(0);
        }
        let mut acc: i32 = 1;
        let mut i: u32 = 0;
        while i < n
            invariant
                i <= n,
                a == -1,
                acc as int == power(a as int, i as nat),
                acc == 1 || acc == -1,
            decreases n - i,
        {
            acc = -acc;
            i = i + 1;
        }
        return Some(acc);
    }
    let mut acc: i32 = 1;
    let mut i: u32 = 0;
    while i < n
        invariant
            i <= n,
            a >= 2 || a <= -2,
            acc as int == power(a as int, i as nat),
        decreases n - i,
    {
        match acc.checked_mul(a) {
            Some(next) => {
                acc = next;
                i = i + 1;
            },
            None => {
                proof {
                    let k = (i + 1) as nat;
                    assert(power(a as int, k) == a * power(a as int, i as nat));
                    assert(!fits(power(a as int, k)));
                    if k < n {
                        assert((a as int) * (a as int) >= 4) by (nonlinear_arith)
                            requires
                                a >= 2 || a <= -2,
                        ;
                        lemma_power_grows(a as int, k, n as nat);
                        lemma_square_bound(power(a as int, k));
                        lemma_square_bound(power(a as int, n as nat));
                    }
                }
                return None;
            },
        }
    }
    Some(acc)
}

/// The greatest common factor of `a` and `b` in `2..=b`, searched downward
/// from `b`; `0` when there is none.
pub fn greatest_common_factor_of(a: i32, b: i32) -> (r: i32)
    requires
        b > 1,
    ensures
        r as int == greatest_common_factor(a, b, b as int),
{
    let mut m: i32 = b;
    while m >= 2
        invariant
            m <= b,
            greatest_common_factor(a, b, b as int) == greatest_common_factor(a, b, m as int),
        decreases m,
    {
        let da = a.checked_rem(m);
        let db = b.checked_rem(m);
        if da == Some(0i32) && db == Some(0i32) {
            return m;
        }
        m = m - 1;
    }
    0
}


/// Where `d` divides `x` exactly, Rust's remainder is zero and Rust's
/// quotient is the exact one.
pub proof fn lemma_exact_division(x: i32, d: i32)
    requires
        d != 0,
        (x as int) % (d as int) == 0,
        fits(x as int / d as int),
    ensures
        x.checked_rem(d) == Some(0i32),
        x.checked_div(d) == Some((x as int / d as int) as i32),
{
    let xi = x as int;
    let di = d as int;
    let q = xi / di;
    lemma_fundamental_div_mod(xi, di);
    assert(xi == di * q);
    if di == -1 {
        assert(q == -xi);
        assert(x != i32::MIN);
    }
    if xi > 0 && di > 0 {
        lemma_mod_multiples_basic(q, di);
        assert(q * di == di * q) by (nonlinear_arith);
    } else if xi < 0 && di < 0 {
        assert(-xi == q * (-di)) by (nonlinear_arith)
            requires
                xi == di * q,
        ;
        lemma_mod_multiples_basic(q, -di);
        lemma_div_multiples_vanish(q, -di);
        assert((-di) * q == q * (-di)) by (nonlinear_arith);
    } else if xi < 0 {
        assert(-xi == (-q) * di) by (nonlinear_arith)
            requires
                xi == di * q,
        ;
        lemma_mod_multiples_basic(-q, di);
        lemma_div_multiples_vanish(-q, di);
        assert(di * (-q) == (-q) * di) by (nonlinear_arith);
    } else if xi > 0 {
        assert(xi == (-q) * (-di)) by (nonlinear_arith)
            requires
                xi == di * q,
        ;
        lemma_mod_multiples_basic(-q, -di);
        lemma_div_multiples_vanish(-q, -di);
        assert((-di) * (-q) == (-q) * (-di)) by (nonlinear_arith);
    } else {
        assert(q == 0) by (nonlinear_arith)
            requires
                xi == di * q,
                xi == 0,
                di != 0,
        ;
    }
}


/// `m` divides `x`.
pub open spec fn divides(m: int, x: int) -> bool {
    exists|k: int| x == #[trigger] (k * m)
}

/// Rust's remainder is zero exactly where the divisor divides; the quotient
/// is then exact.
pub proof fn lemma_rem_zero(x: i32, y: i32)
    requires
        y != 0,
        !(x == i32::MIN && y == -1),
    ensures
        (x.checked_rem(y) == Some(0i32)) == divides(y as int, x as int),
        x.checked_rem(y) == Some(0i32) ==> x.checked_div(y) is Some && x as int == (x.checked_div(
            y,
        )->Some_0 as int) * (y as int),
{
    let xi = x as int;
    let yi = y as int;
    let sx: int = if xi >= 0 { 1 } else { -1 };
    let sy: int = if yi >= 0 { 1 } else { -1 };
    let ax: int = if xi >= 0 { xi } else { -xi };
    let ay: int = if yi >= 0 { yi } else { -yi };
    assert(ax == sx * xi && ay == sy * yi) by {
        if xi >= 0 {
        } else {
        }
        if yi >= 0 {
        } else {
        }
    }
    assert(ax >= 0 && ay >= 1);
    lemma_fundamental_div_mod(ax, ay);
    let qa = ax / ay;
    let ra = ax % ay;
    assert(0 <= ra < ay);
    assert(ax == ay * qa + ra);
    assert(qa >= 0) by (nonlinear_arith)
        requires
            ax == ay * qa + ra,
            0 <= ra < ay,
            ax >= 0,
    ;
    assert(qa <= ax) by (nonlinear_arith)
        requires
            ax == ay * qa + ra,
            0 <= ra,
            ay >= 1,
            qa >= 0,
    ;
    if ra == 0 {
        let k = sx * sy * qa;
        assert(xi == k * yi) by (nonlinear_arith)
            requires
                ax == ay * qa,
                ax == sx * xi,
                ay == sy * yi,
                sx == 1 || sx == -1,
                sy == 1 || sy == -1,
                k == sx * sy * qa,
        ;
    } else {
        if divides(yi, xi) {
            let k = choose|k: int| xi == #[trigger] (k * yi);
            let sk: int = if k >= 0 { 1 } else { -1 };
            let ak: int = if k >= 0 { k } else { -k };
            assert(ak == sk * k) by {
                if k >= 0 {
                } else {
                }
            }
            assert(ax == ak * ay) by (nonlinear_arith)
                requires
                    xi == k * yi,
                    ax == sx * xi,
                    ay == sy * yi,
                    ak == sk * k,
                    sx == 1 || sx == -1,
                    sy == 1 || sy == -1,
                    sk == 1 || sk == -1,
                    ax >= 0,
                    ay >= 1,
                    ak >= 0,
            ;
            lemma_mod_multiples_basic(ak, ay);
        }
    }
}

/// Where `greatest_common_factor(a, b, hi)` is `g`, nothing in `g + 1..=hi`
/// divides both, and `g`, if at least 2, does.
pub proof fn lemma_greatest_common_factor(a: i32, b: i32, hi: int, k: int)
    requires
        hi <= i32::MAX,
        greatest_common_factor(a, b, hi) < k <= hi,
        2 <= k,
    ensures
        !common_factor(k as i32, a, b),
    decreases hi,
{
    if hi > k && !common_factor(hi as i32, a, b) {
        lemma_greatest_common_factor(a, b, hi - 1, k);
    }
}

pub proof fn lemma_greatest_common_factor_divides(a: i32, b: i32, hi: int)
    requires
        hi <= i32::MAX,
        greatest_common_factor(a, b, hi) >= 2,
    ensures
        common_factor(greatest_common_factor(a, b, hi) as i32, a, b),
        greatest_common_factor(a, b, hi) <= hi,
    decreases hi,
{
    if hi >= 2 && !common_factor(hi as i32, a, b) {
        lemma_greatest_common_factor_divides(a, b, hi - 1);
    }
}

} // verus!
