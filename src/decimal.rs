//! Exact arithmetic on decimal literals.
use vstd::prelude::*;
use crate::expr::{Decimal, OpType};
use crate::token::{canonical, canonicalize};

verus! {

/// Whether `v` and `-v` are both values of `i64`.
pub open spec fn fits64(v: int) -> bool {
    -i64::MAX <= v <= i64::MAX
}

/// `d * 10^k`, where every partial product fits (so, as the magnitudes grow,
/// where the result fits).
pub open spec fn scale_up(d: int, k: nat) -> Option<int>
    decreases k,
{
    if k == 0 {
        if fits64(d) { Some(d) } else { None }
    } else {
        match scale_up(d, (k - 1) as nat) {
            Some(x) => if fits64(x * 10) { Some(x * 10) } else { None },
            None => None,
        }
    }
}

/// `v / 10^s` in canonical form, for either sign of `v`.
pub open spec fn signed_canonical(v: int, s: nat) -> Decimal {
    if v < 0 {
        let c = canonical((-v) as nat, s);
        Decimal { digits: (-c.digits) as i64, scale: c.scale }
    } else {
        canonical(v as nat, s)
    }
}

/// Exact sum, difference or product of two decimals, where the digits fit in
/// `i64`; quotients and powers are not folded.
pub open spec fn fold_dec(a: Decimal, o: OpType, b: Decimal) -> Option<Decimal> {
    let s: nat = if a.scale >= b.scale { a.scale as nat } else { b.scale as nat };
    match o {
        OpType::Add | OpType::Sub => match (
            scale_up(a.digits as int, (s - a.scale) as nat),
            scale_up(b.digits as int, (s - b.scale) as nat),
        ) {
            (Some(x), Some(y)) => {
                let v = if o == OpType::Add { x + y } else { x - y };
                if fits64(v) { Some(signed_canonical(v, s)) } else { None }
            },
            _ => None,
        },
        OpType::Mul => {
            let v = a.digits * b.digits;
            if fits64(v) && a.scale + b.scale <= u32::MAX {
                Some(signed_canonical(v, (a.scale + b.scale) as nat))
            } else {
                None
            }
        },
        _ => None,
    }
}

proof fn lemma_scale_up_zero(k: nat)
    ensures
        scale_up(0, k) == Some(0int),
    decreases k,
{
    if k > 0 {
        lemma_scale_up_zero((k - 1) as nat);
    }
}

proof fn lemma_scale_up_none(d: int, i: nat, k: nat)
    requires
        i <= k,
        scale_up(d, i) is None,
    ensures
        scale_up(d, k) is None,
    decreases k,
{
    if i < k {
        lemma_scale_up_none(d, i, (k - 1) as nat);
    }
}

proof fn lemma_canonical_bound(v: nat, s: nat)
    requires
        v <= i64::MAX,
    ensures
        0 <= canonical(v, s).digits <= v,
    decreases s,
{
    if s > 0 && v % 10 == 0 {
        lemma_canonical_bound(v / 10, (s - 1) as nat);
    }
}

fn scale_up_exec(d: i64, k: u32) -> (r: Option<i64>)
    ensures
        match scale_up(d as int, k as nat) {
            Some(x) => r is Some && r->Some_0 as int == x,
            None => r is None,
        },
{
    if d == 0 {
        proof {
            lemma_scale_up_zero(k as nat);
        }
        return Some(0);
    }
    if d == i64::MIN {
        proof {
            lemma_scale_up_none(d as int, 0, k as nat);
        }
        return None;
    }
    let mut x: i64 = d;
    let mut i: u32 = 0;
    while i < k
        invariant
            i <= k,
            scale_up(d as int, i as nat) == Some(x as int),
        decreases k - i,
    {
        match x.checked_mul(10) {
            Some(y) => {
                if y == i64::MIN {
                    proof {
                        lemma_scale_up_none(d as int, (i + 1) as nat, k as nat);
                    }
                    return None;
                }
                x = y;
            },
            None => {
                proof {
                    lemma_scale_up_none(d as int, (i + 1) as nat, k as nat);
                }
                return None;
            },
        }
        i = i + 1;
    }
    Some(x)
}

fn signed_canonicalize(v: i64, s: u32) -> (r: Decimal)
    requires
        fits64(v as int),
    ensures
        r == signed_canonical(v as int, s as nat),
{
    if v < 0 {
        let c = canonicalize((-v) as u64, s as usize);
        proof {
            lemma_canonical_bound((-v) as nat, s as nat);
        }
        Decimal { digits: -c.digits, scale: c.scale }
    } else {
        canonicalize(v as u64, s as usize)
    }
}

/// `fold_dec` on literals.
pub fn fold_decimals(a: Decimal, o: OpType, b: Decimal) -> (r: Option<Decimal>)
    ensures
        r == fold_dec(a, o, b),
{
    let s: u32 = if a.scale >= b.scale { a.scale } else { b.scale };
    match o {
        OpType::Add | OpType::Sub => {
            let x = match scale_up_exec(a.digits, s - a.scale) {
                Some(x) => x,
                None => {
                    return None;
                },
            };
            let y = match scale_up_exec(b.digits, s - b.scale) {
                Some(y) => y,
                None => {
                    return None;
                },
            };
            let v = match o {
                OpType::Add => x.checked_add(y),
                _ => x.checked_sub(y),
            };
            match v {
                Some(v) => if v == i64::MIN {
                    None
                } else {
                    Some(signed_canonicalize(v, s))
                },
                None => None,
            }
        },
        OpType::Mul => {
            let v = match a.digits.checked_mul(b.digits) {
                Some(v) => v,
                None => {
                    return None;
                },
            };
            if v == i64::MIN {
                return None;
            }
            match a.scale.checked_add(b.scale) {
                Some(t) => Some(signed_canonicalize(v, t)),
                None => None,
            }
        },
        _ => None,
    }
}

} // verus!
