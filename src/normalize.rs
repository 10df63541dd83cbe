//! The rewrite engine: post-order normalization by an ordered rule catalog.
use vstd::prelude::*;
use crate::arith::{
    power, fits, int_pow, common_factor, greatest_common_factor, checked_pow, greatest_common_factor_of,
    divides, lemma_exact_division, lemma_rem_zero, lemma_greatest_common_factor,
    lemma_greatest_common_factor_divides, lemma_power_grows, lemma_power_unit,
};
use crate::decimal::{fold_dec, fold_decimals};
use crate::expr::{Decimal, Expr, OpType, Tree, views, lemma_views_push, lemma_views_take};
use crate::substitute::subst;

verus! {

/// How many times in a row a restructuring rule may hand its result back to
/// the engine; this bounds the work done on any input.
pub const REWRITE_BUDGET: u32 = 64;

/// The outcome of one rule on a node whose operands are already normalized.
pub enum Step {
    /// The node's final replacement.
    Done(Tree),
    /// A restructured node that is normalized again.
    Again(Tree),
}

pub open spec fn op_t(a: Tree, o: OpType, b: Tree) -> Tree {
    Tree::Op(Box::new(a), o, Box::new(b))
}

/// An integer literal of value `v`.
pub open spec fn is_int(t: Tree, v: int) -> bool {
    t matches Tree::Int(i) && i == v
}

/// The literal one, integer or decimal.
pub open spec fn is_one(t: Tree) -> bool {
    is_int(t, 1) || (t matches Tree::Flt(d) && d.digits as int == power(10, d.scale as nat))
}

/// The literal zero, integer or decimal.
pub open spec fn is_zero(t: Tree) -> bool {
    is_int(t, 0) || (t matches Tree::Flt(d) && d.digits == 0)
}

/// Constant folding of two integer literals, where the result is exact and
/// fits in `i32`. A negative power becomes `1 / a^|b|`.
pub open spec fn fold(a: i32, o: OpType, b: i32) -> Option<Tree> {
    match o {
        OpType::Add => if fits(a + b) { Some(Tree::Int((a + b) as i32)) } else { None },
        OpType::Sub => if fits(a - b) { Some(Tree::Int((a - b) as i32)) } else { None },
        OpType::Mul => if fits(a * b) { Some(Tree::Int((a * b) as i32)) } else { None },
        OpType::Div => if a.checked_rem(b) == Some(0i32) {
            match a.checked_div(b) {
                Some(q) => Some(Tree::Int(q)),
                None => None,
            }
        } else {
            None
        },
        OpType::Pow => if b >= 0 {
            match int_pow(a, b as nat) {
                Some(p) => Some(Tree::Int(p)),
                None => None,
            }
        } else {
            match int_pow(a, (-b) as nat) {
                Some(p) => Some(op_t(Tree::Int(1), OpType::Div, Tree::Int(p))),
                None => None,
            }
        },
    }
}

/// `(x*y)*c` or `c*(x*y)` for an integer `c`: the integer factor among `x`,
/// `y` absorbs `c`. `node` is returned unchanged where neither factor is an
/// integer or the product overflows.
pub open spec fn absorb(x: Tree, y: Tree, c: i32, node: Tree) -> Step {
    if x is Int && fits(x->Int_0 * c) {
        Step::Again(op_t(Tree::Int((x->Int_0 * c) as i32), OpType::Mul, y))
    } else if !(x is Int) && y is Int && fits(y->Int_0 * c) {
        Step::Again(op_t(x, OpType::Mul, Tree::Int((y->Int_0 * c) as i32)))
    } else {
        Step::Done(node)
    }
}

pub open spec fn rewrite_mul(a: Tree, b: Tree) -> Step {
    let node = op_t(a, OpType::Mul, b);
    if a == b {
        Step::Again(op_t(a, OpType::Pow, Tree::Int(2)))
    } else if is_one(b) {
        Step::Done(a)
    } else if is_one(a) {
        Step::Done(b)
    } else if is_zero(a) || is_zero(b) {
        Step::Done(Tree::Int(0))
    } else if a matches Tree::Op(_, OpType::Div, _) {
        Step::Again(op_t(op_t(*a->Op_0, OpType::Mul, b), OpType::Div, *a->Op_2))
    } else if b matches Tree::Op(_, OpType::Div, _) {
        Step::Again(op_t(op_t(a, OpType::Mul, *b->Op_0), OpType::Div, *b->Op_2))
    } else if a matches Tree::Op(_, OpType::Mul, _) && b is Int {
        absorb(*a->Op_0, *a->Op_2, b->Int_0, node)
    } else if b matches Tree::Op(_, OpType::Mul, _) && a is Int {
        absorb(*b->Op_0, *b->Op_2, a->Int_0, node)
    } else {
        Step::Done(node)
    }
}

/// Cancellation of a factor shared, structurally, by the two sides of a
/// quotient; `None` where the two sides share none.
pub open spec fn cancel(a: Tree, b: Tree) -> Option<Tree> {
    let am = a matches Tree::Op(_, OpType::Mul, _);
    let bm = b matches Tree::Op(_, OpType::Mul, _);
    if am && *a->Op_0 == b {
        Some(*a->Op_2)
    } else if am && *a->Op_2 == b {
        Some(*a->Op_0)
    } else if bm && a == *b->Op_0 {
        Some(op_t(Tree::Int(1), OpType::Div, *b->Op_2))
    } else if bm && a == *b->Op_2 {
        Some(op_t(Tree::Int(1), OpType::Div, *b->Op_0))
    } else if am && bm && *a->Op_0 == *b->Op_0 {
        Some(op_t(*a->Op_2, OpType::Div, *b->Op_2))
    } else if am && bm && *a->Op_0 == *b->Op_2 {
        Some(op_t(*a->Op_2, OpType::Div, *b->Op_0))
    } else if am && bm && *a->Op_2 == *b->Op_0 {
        Some(op_t(*a->Op_0, OpType::Div, *b->Op_2))
    } else if am && bm && *a->Op_2 == *b->Op_2 {
        Some(op_t(*a->Op_0, OpType::Div, *b->Op_0))
    } else {
        None
    }
}

/// Reduction of `n/d` by the greatest common factor of the two, where
/// `d` is a multiple of `n` (to `1/(d/n)`) or `d > 1`.
pub open spec fn reduce_fraction(n: i32, d: i32) -> Tree {
    let node = op_t(Tree::Int(n), OpType::Div, Tree::Int(d));
    if n != 0 && d != 0 && d.checked_rem(n) == Some(0i32) {
        match d.checked_div(n) {
            Some(q) => op_t(Tree::Int(1), OpType::Div, Tree::Int(q)),
            None => node,
        }
    } else if d > 1 {
        let g = greatest_common_factor(n, d, d as int);
        match (n.checked_div(g as i32), d.checked_div(g as i32)) {
            (Some(p), Some(q)) if 2 <= g < d => op_t(Tree::Int(p), OpType::Div, Tree::Int(q)),
            _ => node,
        }
    } else {
        node
    }
}

pub open spec fn rewrite_div(a: Tree, b: Tree) -> Step {
    if a == b && !is_zero(b) {
        Step::Done(Tree::Int(1))
    } else if is_one(b) {
        Step::Done(a)
    } else if is_zero(a) && !is_zero(b) {
        Step::Done(Tree::Int(0))
    } else if a is Int && b is Int {
        Step::Done(reduce_fraction(a->Int_0, b->Int_0))
    } else {
        match cancel(a, b) {
            Some(r) => Step::Again(r),
            None => Step::Done(op_t(a, OpType::Div, b)),
        }
    }
}

pub open spec fn rewrite_pow(a: Tree, b: Tree) -> Step {
    if is_one(b) {
        Step::Done(a)
    } else if is_zero(b) {
        Step::Done(Tree::Int(1))
    } else if a matches Tree::Op(_, OpType::Pow, _) {
        Step::Again(op_t(*a->Op_0, OpType::Pow, op_t(*a->Op_2, OpType::Mul, b)))
    } else if a matches Tree::Op(_, OpType::Div, _) {
        Step::Again(op_t(op_t(*a->Op_0, OpType::Pow, b), OpType::Div, op_t(*a->Op_2, OpType::Pow, b)))
    } else if a matches Tree::Op(_, OpType::Mul, _) {
        Step::Again(op_t(op_t(*a->Op_0, OpType::Pow, b), OpType::Mul, op_t(*a->Op_2, OpType::Pow, b)))
    } else {
        Step::Done(op_t(a, OpType::Pow, b))
    }
}

/// The first rule of the catalog that applies to `a o b`, whose operands are
/// normalized; a node that no rule matches is left as it is. Integer
/// literals fold (a negative power to a quotient, which is normalized in
/// turn); decimal literals fold exactly under `+`, `-` and `*`.
pub open spec fn rewrite(a: Tree, o: OpType, b: Tree) -> Step {
    if a is Int && b is Int && fold(a->Int_0, o, b->Int_0) is Some {
        if o == OpType::Pow && b->Int_0 < 0 {
            Step::Again(fold(a->Int_0, o, b->Int_0)->Some_0)
        } else {
            Step::Done(fold(a->Int_0, o, b->Int_0)->Some_0)
        }
    } else if a is Flt && b is Flt && fold_dec(a->Flt_0, o, b->Flt_0) is Some {
        Step::Done(Tree::Flt(fold_dec(a->Flt_0, o, b->Flt_0)->Some_0))
    } else {
        match o {
            OpType::Mul => rewrite_mul(a, b),
            OpType::Div => rewrite_div(a, b),
            OpType::Pow => rewrite_pow(a, b),
            _ => Step::Done(op_t(a, o, b)),
        }
    }
}

/// Normalization: children first, then the rule catalog at the node.
/// `fuel` bounds how often a restructured node is normalized again.
pub open spec fn norm(t: Tree, fuel: nat) -> Tree
    decreases fuel, t,
{
    match t {
        Tree::Rel(a, r, b) => Tree::Rel(Box::new(norm(*a, fuel)), r, Box::new(norm(*b, fuel))),
        Tree::Fn(n, args) => Tree::Fn(n, norm_all(args, fuel)),
        Tree::Op(a, o, b) => match rewrite(norm(*a, fuel), o, norm(*b, fuel)) {
            Step::Done(r) => r,
            Step::Again(r) => if fuel == 0 { r } else { norm(r, (fuel - 1) as nat) },
        },
        Tree::Where(body, s, v) => {
            let inst = subst(*body, s, norm(*v, fuel));
            if fuel == 0 { inst } else { norm(inst, (fuel - 1) as nat) }
        },
        _ => t,
    }
}

/// `norm` on each element.
pub open spec fn norm_all(args: Seq<Tree>, fuel: nat) -> Seq<Tree>
    decreases fuel, args,
{
    if args.len() == 0 {
        Seq::empty()
    } else {
        norm_all(args.drop_last(), fuel).push(norm(args.last(), fuel))
    }
}

/// The normal form the engine computes.
pub open spec fn normal_form(t: Tree) -> Tree {
    norm(t, REWRITE_BUDGET as nat)
}


/// The step a rewrite function hands back: its node, and whether the node
/// is normalized again.
pub open spec fn step_of(r: (Expr, bool)) -> Step {
    if r.1 {
        Step::Again(r.0@)
    } else {
        Step::Done(r.0@)
    }
}

proof fn lemma_norm_all_push(args: Seq<Tree>, t: Tree, fuel: nat)
    ensures
        norm_all(args.push(t), fuel) == norm_all(args, fuel).push(norm(t, fuel)),
{
    assert(args.push(t).drop_last() =~= args);
}

fn is_int_lit(e: &Expr, v: i32) -> (r: bool)
    ensures
        r == is_int(e@, v as int),
{
    match e {
        Expr::Int(i) => *i == v,
        _ => false,
    }
}

proof fn lemma_power_positive(a: int, n: nat)
    requires
        a > 0,
    ensures
        power(a, n) > 0,
    decreases n,
{
    if n > 0 {
        lemma_power_positive(a, (n - 1) as nat);
        let p = power(a, (n - 1) as nat);
        assert(a * p > 0) by (nonlinear_arith)
            requires
                a > 0,
                p > 0,
        ;
    }
}

/// Whether `digits == 10^scale`.
fn is_unit_decimal(d: Decimal) -> (r: bool)
    ensures
        r == (d.digits as int == power(10, d.scale as nat)),
{
    if d.digits < 0 {
        proof {
            lemma_power_positive(10, d.scale as nat);
        }
        return false;
    }
    let mut x: u64 = d.digits as u64;
    let mut s: u32 = d.scale;
    while s > 0
        invariant
            (d.digits as int == power(10, d.scale as nat)) == (x as int == power(10, s as nat)),
        decreases s,
    {
        let ghost p = power(10, (s - 1) as nat);
        assert(power(10, s as nat) == 10 * p);
        if x % 10 != 0 {
            assert((10 * p) % 10 == 0) by (nonlinear_arith);
            return false;
        }
        let q = x / 10;
        assert(x == 10 * q);
        assert((10 * q == 10 * p) == (q == p)) by (nonlinear_arith);
        x = q;
        s = s - 1;
    }
    x == 1
}

fn is_one_lit(e: &Expr) -> (r: bool)
    ensures
        r == is_one(e@),
{
    match e {
        Expr::Int(i) => *i == 1,
        Expr::Flt(d) => is_unit_decimal(*d),
        _ => false,
    }
}

fn is_zero_lit(e: &Expr) -> (r: bool)
    ensures
        r == is_zero(e@),
{
    match e {
        Expr::Int(i) => *i == 0,
        Expr::Flt(d) => d.digits == 0,
        _ => false,
    }
}

fn fold_ints(a: i32, o: OpType, b: i32) -> (r: Option<Expr>)
    ensures
        match fold(a, o, b) {
            Some(t) => r is Some && r->Some_0@ == t,
            None => r is None,
        },
{
    match o {
        OpType::Add => match a.checked_add(b) {
            Some(v) => Some(Expr::Int(v)),
            None => None,
        },
        OpType::Sub => match a.checked_sub(b) {
            Some(v) => Some(Expr::Int(v)),
            None => None,
        },
        OpType::Mul => match a.checked_mul(b) {
            Some(v) => Some(Expr::Int(v)),
            None => None,
        },
        OpType::Div => match a.checked_rem(b) {
            Some(z) => if z == 0 {
                match a.checked_div(b) {
                    Some(q) => Some(Expr::Int(q)),
                    None => None,
                }
            } else {
                None
            },
            None => None,
        },
        OpType::Pow => if b >= 0 {
            match checked_pow(a, b as u32) {
                Some(p) => Some(Expr::Int(p)),
                None => None,
            }
        } else {
            let n: u32 = if b == i32::MIN { 0x8000_0000u32 } else { (-b) as u32 };
            match checked_pow(a, n) {
                Some(p) => Some(Expr::op(Expr::Int(1), OpType::Div, Expr::Int(p))),
                None => None,
            }
        },
    }
}

fn absorb_exec(x: &Expr, y: &Expr, c: i32, node: Expr) -> (r: (Expr, bool))
    ensures
        step_of(r) == absorb(x@, y@, c, node@),
{
    match x {
        Expr::Int(k) => {
            return match k.checked_mul(c) {
                Some(p) => (Expr::op(Expr::Int(p), OpType::Mul, y.copy()), true),
                None => (node, false),
            };
        },
        _ => {},
    }
    match y {
        Expr::Int(k) => match k.checked_mul(c) {
            Some(p) => (Expr::op(x.copy(), OpType::Mul, Expr::Int(p)), true),
            None => (node, false),
        },
        _ => (node, false),
    }
}

fn rewrite_mul_exec(a: &Expr, b: &Expr) -> (r: (Expr, bool))
    ensures
        step_of(r) == rewrite_mul(a@, b@),
{
    if a.same(b) {
        return (Expr::op(a.copy(), OpType::Pow, Expr::Int(2)), true);
    }
    if is_one_lit(b) {
        return (a.copy(), false);
    }
    if is_one_lit(a) {
        return (b.copy(), false);
    }
    if is_zero_lit(a) || is_zero_lit(b) {
        return (Expr::Int(0), false);
    }
    match a {
        Expr::Op(x, OpType::Div, y) => {
            return (Expr::op(Expr::op(x.copy(), OpType::Mul, b.copy()), OpType::Div, y.copy()), true);
        },
        _ => {},
    }
    match b {
        Expr::Op(x, OpType::Div, y) => {
            return (Expr::op(Expr::op(a.copy(), OpType::Mul, x.copy()), OpType::Div, y.copy()), true);
        },
        _ => {},
    }
    match (a, b) {
        (Expr::Op(x, OpType::Mul, y), Expr::Int(c)) => {
            return absorb_exec(x, y, *c, Expr::op(a.copy(), OpType::Mul, b.copy()));
        },
        (Expr::Int(c), Expr::Op(x, OpType::Mul, y)) => {
            return absorb_exec(x, y, *c, Expr::op(a.copy(), OpType::Mul, b.copy()));
        },
        _ => {},
    }
    (Expr::op(a.copy(), OpType::Mul, b.copy()), false)
}

fn cancel_exec(a: &Expr, b: &Expr) -> (r: Option<Expr>)
    ensures
        match cancel(a@, b@) {
            Some(t) => r is Some && r->Some_0@ == t,
            None => r is None,
        },
{
    match a {
        Expr::Op(x, OpType::Mul, y) => {
            if x.same(b) {
                return Some(y.copy());
            }
            if y.same(b) {
                return Some(x.copy());
            }
        },
        _ => {},
    }
    match b {
        Expr::Op(x, OpType::Mul, y) => {
            if a.same(x) {
                return Some(Expr::op(Expr::Int(1), OpType::Div, y.copy()));
            }
            if a.same(y) {
                return Some(Expr::op(Expr::Int(1), OpType::Div, x.copy()));
            }
        },
        _ => {},
    }
    match (a, b) {
        (Expr::Op(p, OpType::Mul, q), Expr::Op(u, OpType::Mul, v)) => {
            if p.same(u) {
                return Some(Expr::op(q.copy(), OpType::Div, v.copy()));
            }
            if p.same(v) {
                return Some(Expr::op(q.copy(), OpType::Div, u.copy()));
            }
            if q.same(u) {
                return Some(Expr::op(p.copy(), OpType::Div, v.copy()));
            }
            if q.same(v) {
                return Some(Expr::op(p.copy(), OpType::Div, u.copy()));
            }
        },
        _ => {},
    }
    None
}

fn reduce_fraction_exec(n: i32, d: i32) -> (r: Expr)
    ensures
        r@ == reduce_fraction(n, d),
{
    if n != 0 && d != 0 {
        match d.checked_rem(n) {
            Some(z) => if z == 0 {
                return match d.checked_div(n) {
                    Some(q) => Expr::op(Expr::Int(1), OpType::Div, Expr::Int(q)),
                    None => Expr::op(Expr::Int(n), OpType::Div, Expr::Int(d)),
                };
            },
            None => {},
        }
    }
    if d > 1 {
        let g = greatest_common_factor_of(n, d);
        if 2 <= g && g < d {
            match (n.checked_div(g), d.checked_div(g)) {
                (Some(p), Some(q)) => {
                    return Expr::op(Expr::Int(p), OpType::Div, Expr::Int(q));
                },
                _ => {},
            }
        }
    }
    Expr::op(Expr::Int(n), OpType::Div, Expr::Int(d))
}

fn rewrite_div_exec(a: &Expr, b: &Expr) -> (r: (Expr, bool))
    ensures
        step_of(r) == rewrite_div(a@, b@),
{
    if a.same(b) && !is_zero_lit(b) {
        return (Expr::Int(1), false);
    }
    if is_one_lit(b) {
        return (a.copy(), false);
    }
    if is_zero_lit(a) && !is_zero_lit(b) {
        return (Expr::Int(0), false);
    }
    match (a, b) {
        (Expr::Int(n), Expr::Int(d)) => (reduce_fraction_exec(*n, *d), false),
        _ => match cancel_exec(a, b) {
            Some(r) => (r, true),
            None => (Expr::op(a.copy(), OpType::Div, b.copy()), false),
        },
    }
}

fn rewrite_pow_exec(a: &Expr, b: &Expr) -> (r: (Expr, bool))
    ensures
        step_of(r) == rewrite_pow(a@, b@),
{
    if is_one_lit(b) {
        return (a.copy(), false);
    }
    if is_zero_lit(b) {
        return (Expr::Int(1), false);
    }
    match a {
        Expr::Op(x, OpType::Pow, y) => (
            Expr::op(x.copy(), OpType::Pow, Expr::op(y.copy(), OpType::Mul, b.copy())),
            true,
        ),
        Expr::Op(x, OpType::Div, y) => (
            Expr::op(
                Expr::op(x.copy(), OpType::Pow, b.copy()),
                OpType::Div,
                Expr::op(y.copy(), OpType::Pow, b.copy()),
            ),
            true,
        ),
        Expr::Op(x, OpType::Mul, y) => (
            Expr::op(
                Expr::op(x.copy(), OpType::Pow, b.copy()),
                OpType::Mul,
                Expr::op(y.copy(), OpType::Pow, b.copy()),
            ),
            true,
        ),
        _ => (Expr::op(a.copy(), OpType::Pow, b.copy()), false),
    }
}

fn rewrite_exec(a: &Expr, o: OpType, b: &Expr) -> (r: (Expr, bool))
    ensures
        step_of(r) == rewrite(a@, o, b@),
{
    match (a, b) {
        (Expr::Int(x), Expr::Int(y)) => match fold_ints(*x, o, *y) {
            Some(v) => {
                let again = match o {
                    OpType::Pow => *y < 0,
                    _ => false,
                };
                return (v, again);
            },
            None => {},
        },
        (Expr::Flt(x), Expr::Flt(y)) => match fold_decimals(*x, o, *y) {
            Some(v) => {
                return (Expr::Flt(v), false);
            },
            None => {},
        },
        _ => {},
    }
    match o {
        OpType::Mul => rewrite_mul_exec(a, b),
        OpType::Div => rewrite_div_exec(a, b),
        OpType::Pow => rewrite_pow_exec(a, b),
        _ => (Expr::op(a.copy(), o, b.copy()), false),
    }
}

/// `e` normalized, where a restructured node may be normalized again at
/// most `fuel` times in a row.
pub fn normalized(e: &Expr, fuel: u32) -> (r: Expr)
    ensures
        r@ == norm(e@, fuel as nat),
    decreases fuel, e,
{
    match e {
        Expr::Rel(a, r, b) => Expr::rel(normalized(a, fuel), *r, normalized(b, fuel)),
        Expr::Fn(n, args) => {
            let mut out: Vec<Expr> = Vec::new();
            let mut i: usize = 0;
            while i < args.len()
                invariant
                    i <= args.len(),
                    views(out@) == norm_all(views(args@.take(i as int)), fuel as nat),
                    decreases_to!(*e => *args),
                decreases args.len() - i,
            {
                proof {
                    assert(decreases_to!(*args => args[i as int]));
                }
                let c = normalized(&args[i], fuel);
                proof {
                    lemma_views_push(out@, c);
                    lemma_views_take(args@, i as int);
                    lemma_norm_all_push(views(args@.take(i as int)), args@[i as int]@, fuel as nat);
                }
                out.push(c);
                i = i + 1;
            }
            assert(args@.take(i as int) =~= args@);
            Expr::Fn(n.clone(), out)
        },
        Expr::Op(a, o, b) => {
            let x = normalized(a, fuel);
            let y = normalized(b, fuel);
            let (r, again) = rewrite_exec(&x, *o, &y);
            if again && fuel > 0 {
                normalized(&r, fuel - 1)
            } else {
                r
            }
        },
        Expr::Where(body, s, v) => {
            let value = normalized(v, fuel);
            let inst = body.substituted(s.as_str(), &value);
            if fuel > 0 {
                normalized(&inst, fuel - 1)
            } else {
                inst
            }
        },
        _ => e.copy(),
    }
}

impl Expr {
    /// Rewrites `self` into its normal form. A restructured node is
    /// normalized again at most `REWRITE_BUDGET` times in a row; where that
    /// budget runs out, the partly reduced tree is kept as it stands, with no
    /// error (`settles` says when it does not run out, and `law_idempotent`
    /// that the result is then a normal form).
    pub fn normalize(&mut self)
        ensures
            final(self)@ == normal_form(old(self)@),
    {
        let r = normalized(self, REWRITE_BUDGET);
        *self = r;
    }
}


/// Numeric soundness of division: for integer literals `a` and `b` where `b`
/// divides `a` and the quotient is an `i32`, `a/b` normalizes to that quotient.
pub proof fn law_exact_division(a: i32, b: i32)
    requires
        b != 0,
        (a as int) % (b as int) == 0,
        fits(a as int / b as int),
    ensures
        normal_form(op_t(Tree::Int(a), OpType::Div, Tree::Int(b))) == Tree::Int(
            (a as int / b as int) as i32,
        ),
{
    lemma_exact_division(a, b);
    assert(norm(Tree::Int(a), REWRITE_BUDGET as nat) == Tree::Int(a));
    assert(norm(Tree::Int(b), REWRITE_BUDGET as nat) == Tree::Int(b));
}


/// `n/d` as a tree.
pub open spec fn fraction(n: i32, d: i32) -> Tree {
    op_t(Tree::Int(n), OpType::Div, Tree::Int(d))
}

/// `1/q`, for `q` zero or of magnitude at least 2, is a normal form.
proof fn lemma_one_over_stable(q: i32)
    requires
        q == 0 || q >= 2 || q <= -2,
    ensures
        rewrite(Tree::Int(1), OpType::Div, Tree::Int(q)) == Step::Done(fraction(1, q)),
{
    if q != 0 {
        lemma_rem_zero(1, q);
        if divides(q as int, 1) {
            let k = choose|k: int| 1 == #[trigger] (k * (q as int));
            assert(false) by (nonlinear_arith)
                requires
                    1 == k * (q as int),
                    q >= 2 || q <= -2,
            ;
        }
        assert((q as int) == (q as int) * 1);
        lemma_rem_zero(q, 1);
    }
}

/// A fraction `1/q` left by reduction is a normal form.
proof fn lemma_unit_fraction_stable(n: i32, d: i32, q: i32)
    requires
        fold(n, OpType::Div, d) is None,
        n != 0,
        d != 0,
        d.checked_rem(n) == Some(0i32),
        d.checked_div(n) == Some(q),
    ensures
        rewrite(Tree::Int(1), OpType::Div, Tree::Int(q)) == Step::Done(fraction(1, q)),
{
    lemma_rem_zero(d, n);
    assert(d as int == (q as int) * (n as int));
    assert(q != 0) by (nonlinear_arith)
        requires
            d as int == (q as int) * (n as int),
            d != 0,
    ;
    if q == 1 {
        assert(n as int == 1 * (n as int));
        assert(d == n) by (nonlinear_arith)
            requires
                d as int == (q as int) * (n as int),
                q == 1,
        ;
        lemma_rem_zero(n, d);
        assert(false);
    }
    if q == -1 {
        assert(n as int == (-1) * (d as int)) by (nonlinear_arith)
            requires
                d as int == (q as int) * (n as int),
                q == -1,
        ;
        lemma_rem_zero(n, d);
        assert(false);
    }
    lemma_one_over_stable(q);
}

/// A fraction reduced by the greatest common factor is a normal form.
proof fn lemma_reduced_fraction_stable(n: i32, d: i32, g: i32, p: i32, q: i32)
    requires
        fold(n, OpType::Div, d) is None,
        !(n != 0 && d != 0 && d.checked_rem(n) == Some(0i32)),
        d > 1,
        g as int == greatest_common_factor(n, d, d as int),
        2 <= g < d,
        n.checked_div(g) == Some(p),
        d.checked_div(g) == Some(q),
    ensures
        rewrite(Tree::Int(p), OpType::Div, Tree::Int(q)) == Step::Done(fraction(p, q)),
{
    lemma_greatest_common_factor_divides(n, d, d as int);
    lemma_rem_zero(n, g);
    lemma_rem_zero(d, g);
    let (ni, di, gi, pi, qi) = (n as int, d as int, g as int, p as int, q as int);
    assert(ni == pi * gi && di == qi * gi);
    assert(qi > 1) by (nonlinear_arith)
        requires
            di == qi * gi,
            di > gi,
            gi >= 2,
    ;
    if n == 0 {
        assert(ni == 0 * di);
        lemma_rem_zero(n, d);
        assert(false);
    }
    assert(p != 0);
    lemma_rem_zero(p, q);
    if divides(qi, pi) {
        let k = choose|k: int| pi == #[trigger] (k * qi);
        assert(ni == k * di) by (nonlinear_arith)
            requires
                pi == k * qi,
                ni == pi * gi,
                di == qi * gi,
        ;
        lemma_rem_zero(n, d);
        assert(false);
    }
    lemma_rem_zero(q, p);
    if divides(pi, qi) {
        let k = choose|k: int| qi == #[trigger] (k * pi);
        assert(di == k * ni) by (nonlinear_arith)
            requires
                qi == k * pi,
                ni == pi * gi,
                di == qi * gi,
        ;
        lemma_rem_zero(d, n);
        assert(false);
    }
    if p == q {
        assert(pi == 1 * qi);
        assert(false);
    }
    let g2 = greatest_common_factor(p, q, qi);
    if 2 <= g2 < qi {
        lemma_greatest_common_factor_divides(p, q, qi);
        lemma_rem_zero(p, g2 as i32);
        lemma_rem_zero(q, g2 as i32);
        let p2 = p.checked_div(g2 as i32)->Some_0 as int;
        let q2 = q.checked_div(g2 as i32)->Some_0 as int;
        assert(pi == p2 * g2 && qi == q2 * g2);
        let big = gi * g2;
        assert(gi < big <= di) by (nonlinear_arith)
            requires
                big == gi * g2,
                qi == q2 * g2,
                di == qi * gi,
                g2 >= 2,
                gi >= 2,
                qi > 1,
        ;
        assert(ni == p2 * big && di == q2 * big) by (nonlinear_arith)
            requires
                big == gi * g2,
                pi == p2 * g2,
                qi == q2 * g2,
                ni == pi * gi,
                di == qi * gi,
        ;
        lemma_rem_zero(n, big as i32);
        lemma_rem_zero(d, big as i32);
        lemma_greatest_common_factor(n, d, di, big);
        assert(false);
    }
}

/// A tree that no rule of the catalog matches, anywhere: every operator
/// node is left as it is by `rewrite`, and no `Where` node remains.
pub open spec fn is_normal(t: Tree) -> bool
    decreases t,
{
    match t {
        Tree::Rel(a, _, b) => is_normal(*a) && is_normal(*b),
        Tree::Fn(_, args) => all_normal(args),
        Tree::Op(a, o, b) => is_normal(*a) && is_normal(*b) && rewrite(*a, o, *b) == Step::Done(t),
        Tree::Where(_, _, _) => false,
        _ => true,
    }
}

pub open spec fn all_normal(args: Seq<Tree>) -> bool
    decreases args,
{
    args.len() == 0 || (all_normal(args.drop_last()) && is_normal(args.last()))
}

/// Whether normalizing `t` with `fuel` never runs out of budget: every
/// restructured node and every substituted `Where` body is reached with
/// budget left to normalize it.
pub open spec fn settles(t: Tree, fuel: nat) -> bool
    decreases fuel, t,
{
    match t {
        Tree::Rel(a, _, b) => settles(*a, fuel) && settles(*b, fuel),
        Tree::Fn(_, args) => all_settle(args, fuel),
        Tree::Op(a, o, b) => settles(*a, fuel) && settles(*b, fuel) && match rewrite(
            norm(*a, fuel),
            o,
            norm(*b, fuel),
        ) {
            Step::Done(_) => true,
            Step::Again(r) => fuel > 0 && settles(r, (fuel - 1) as nat),
        },
        Tree::Where(body, s, v) => settles(*v, fuel) && fuel > 0 && settles(
            subst(*body, s, norm(*v, fuel)),
            (fuel - 1) as nat,
        ),
        _ => true,
    }
}

pub open spec fn all_settle(args: Seq<Tree>, fuel: nat) -> bool
    decreases fuel, args,
{
    args.len() == 0 || (all_settle(args.drop_last(), fuel) && settles(args.last(), fuel))
}

/// What a rule leaves in place, from normal operands, is normal.
proof fn lemma_done_is_normal(a: Tree, o: OpType, b: Tree)
    requires
        is_normal(a),
        is_normal(b),
        rewrite(a, o, b) is Done,
    ensures
        is_normal(rewrite(a, o, b)->Done_0),
{
    let r = rewrite(a, o, b)->Done_0;
    if r == op_t(a, o, b) {
        assert(is_normal(op_t(a, o, b)));
    } else if r is Int || r is Flt {
        assert(is_normal(r));
    } else if r != op_t(a, o, b) && !(r is Int) && r != a && r != b {
        // Only the fraction reductions remain.
        assert(o == OpType::Div && a is Int && b is Int);
        let (n, d) = (a->Int_0, b->Int_0);
        assert(fold(n, OpType::Div, d) is None);
        if n != 0 && d != 0 && d.checked_rem(n) == Some(0i32) {
            let q = d.checked_div(n)->Some_0;
            lemma_unit_fraction_stable(n, d, q);
            assert(r == fraction(1, q));
            assert(is_normal(Tree::Int(1)) && is_normal(Tree::Int(q)));
            assert(is_normal(fraction(1, q)));
        } else {
            let g = greatest_common_factor(n, d, d as int);
            let p = n.checked_div(g as i32)->Some_0;
            let q = d.checked_div(g as i32)->Some_0;
            lemma_reduced_fraction_stable(n, d, g as i32, p, q);
            assert(r == fraction(p, q));
            assert(is_normal(Tree::Int(p)) && is_normal(Tree::Int(q)));
            assert(is_normal(fraction(p, q)));
        }
    }
}

proof fn lemma_norm_all_index(args: Seq<Tree>, fuel: nat)
    ensures
        norm_all(args, fuel).len() == args.len(),
    decreases args.len(),
{
    if args.len() > 0 {
        lemma_norm_all_index(args.drop_last(), fuel);
    }
}

/// With budget enough, normalization ends in a normal form.
proof fn lemma_settled_is_normal(t: Tree, fuel: nat)
    requires
        settles(t, fuel),
    ensures
        is_normal(norm(t, fuel)),
    decreases fuel, t, 0nat,
{
    match t {
        Tree::Rel(a, _, b) => {
            lemma_settled_is_normal(*a, fuel);
            lemma_settled_is_normal(*b, fuel);
        },
        Tree::Fn(_, args) => {
            lemma_all_settled_are_normal(args, fuel);
        },
        Tree::Op(a, o, b) => {
            lemma_settled_is_normal(*a, fuel);
            lemma_settled_is_normal(*b, fuel);
            match rewrite(norm(*a, fuel), o, norm(*b, fuel)) {
                Step::Done(_) => {
                    lemma_done_is_normal(norm(*a, fuel), o, norm(*b, fuel));
                },
                Step::Again(r) => {
                    lemma_settled_is_normal(r, (fuel - 1) as nat);
                },
            }
        },
        Tree::Where(body, s, v) => {
            lemma_settled_is_normal(subst(*body, s, norm(*v, fuel)), (fuel - 1) as nat);
        },
        _ => {},
    }
}

proof fn lemma_all_settled_are_normal(args: Seq<Tree>, fuel: nat)
    requires
        all_settle(args, fuel),
    ensures
        all_normal(norm_all(args, fuel)),
    decreases fuel, args, 1nat,
{
    if args.len() > 0 {
        lemma_all_settled_are_normal(args.drop_last(), fuel);
        lemma_settled_is_normal(args.last(), fuel);
        let n = norm_all(args, fuel);
        lemma_norm_all_index(args, fuel);
        assert(n.drop_last() =~= norm_all(args.drop_last(), fuel));
    }
}

/// Normalization leaves a normal form as it is, whatever the budget.
proof fn lemma_normal_is_fixed(t: Tree, fuel: nat)
    requires
        is_normal(t),
    ensures
        norm(t, fuel) == t,
    decreases t,
{
    match t {
        Tree::Rel(a, _, b) => {
            lemma_normal_is_fixed(*a, fuel);
            lemma_normal_is_fixed(*b, fuel);
        },
        Tree::Fn(_, args) => {
            lemma_normal_all_fixed(args, fuel);
        },
        Tree::Op(a, _, b) => {
            lemma_normal_is_fixed(*a, fuel);
            lemma_normal_is_fixed(*b, fuel);
        },
        _ => {},
    }
}

proof fn lemma_normal_all_fixed(args: Seq<Tree>, fuel: nat)
    requires
        all_normal(args),
    ensures
        norm_all(args, fuel) == args,
    decreases args,
{
    if args.len() > 0 {
        lemma_normal_all_fixed(args.drop_last(), fuel);
        lemma_normal_is_fixed(args.last(), fuel);
        assert(args.drop_last().push(args.last()) =~= args);
    }
}

/// More budget changes nothing where the budget already sufficed.
proof fn lemma_more_fuel(t: Tree, fuel: nat)
    requires
        settles(t, fuel),
    ensures
        norm(t, fuel + 1) == norm(t, fuel),
    decreases fuel, t, 0nat,
{
    match t {
        Tree::Rel(a, _, b) => {
            lemma_more_fuel(*a, fuel);
            lemma_more_fuel(*b, fuel);
        },
        Tree::Fn(_, args) => {
            lemma_all_more_fuel(args, fuel);
        },
        Tree::Op(a, o, b) => {
            lemma_more_fuel(*a, fuel);
            lemma_more_fuel(*b, fuel);
            match rewrite(norm(*a, fuel), o, norm(*b, fuel)) {
                Step::Done(_) => {},
                Step::Again(r) => {
                    lemma_more_fuel(r, (fuel - 1) as nat);
                },
            }
        },
        Tree::Where(body, s, v) => {
            lemma_more_fuel(*v, fuel);
            lemma_more_fuel(subst(*body, s, norm(*v, fuel)), (fuel - 1) as nat);
        },
        _ => {},
    }
}

proof fn lemma_all_more_fuel(args: Seq<Tree>, fuel: nat)
    requires
        all_settle(args, fuel),
    ensures
        norm_all(args, fuel + 1) == norm_all(args, fuel),
    decreases fuel, args, 1nat,
{
    if args.len() > 0 {
        lemma_all_more_fuel(args.drop_last(), fuel);
        lemma_more_fuel(args.last(), fuel);
    }
}

/// Where-elimination: `body | s = v` normalizes to what the body normalizes
/// to once the normalized value is substituted for every `Var(s)`; where the
/// budget suffices, the result is a normal form, so no `Where` node is left.
pub proof fn law_where(body: Tree, s: Seq<char>, v: Tree)
    requires
        settles(subst(body, s, normal_form(v)), (REWRITE_BUDGET - 1) as nat),
    ensures
        normal_form(Tree::Where(Box::new(body), s, Box::new(v))) == normal_form(
            subst(body, s, normal_form(v)),
        ),
        is_normal(normal_form(Tree::Where(Box::new(body), s, Box::new(v)))),
{
    let inst = subst(body, s, normal_form(v));
    lemma_more_fuel(inst, (REWRITE_BUDGET - 1) as nat);
    lemma_settled_is_normal(inst, (REWRITE_BUDGET - 1) as nat);
}

/// The tree that `2*(3+1*x)` parses to.
pub open spec fn two_times_three_plus_x() -> Tree {
    op_t(
        Tree::Int(2),
        OpType::Mul,
        op_t(Tree::Int(3), OpType::Add, op_t(Tree::Int(1), OpType::Mul, Tree::Var(seq!['x']))),
    )
}

/// `2*(3+1*x)` normalizes to `2*(3+x)`, a normal form, and for every integer
/// `k` whose result fits, substituting `k` for `x` evaluates it to `6 + 2k`.
pub proof fn law_two_times_three_plus_x(k: i32)
    requires
        fits(6 + 2 * k),
    ensures
        normal_form(two_times_three_plus_x()) == op_t(
            Tree::Int(2),
            OpType::Mul,
            op_t(Tree::Int(3), OpType::Add, Tree::Var(seq!['x'])),
        ),
        is_normal(normal_form(two_times_three_plus_x())),
        normal_form(subst(normal_form(two_times_three_plus_x()), seq!['x'], Tree::Int(k))) == Tree::Int(
            (6 + 2 * k) as i32,
        ),
{
    let f = REWRITE_BUDGET as nat;
    let x = Tree::Var(seq!['x']);
    let one_x = op_t(Tree::Int(1), OpType::Mul, x);
    assert(norm(Tree::Int(1), f) == Tree::Int(1));
    assert(norm(x, f) == x);
    assert(norm(one_x, f) == x);
    let sum = op_t(Tree::Int(3), OpType::Add, one_x);
    assert(norm(Tree::Int(3), f) == Tree::Int(3));
    assert(norm(sum, f) == op_t(Tree::Int(3), OpType::Add, x));
    assert(norm(Tree::Int(2), f) == Tree::Int(2));
    let r = op_t(Tree::Int(2), OpType::Mul, op_t(Tree::Int(3), OpType::Add, x));
    assert(normal_form(two_times_three_plus_x()) == r);
    assert(is_normal(Tree::Int(3)) && is_normal(x) && is_normal(Tree::Int(2)));
    assert(is_normal(op_t(Tree::Int(3), OpType::Add, x)));
    assert(is_normal(r));
    let inst = subst(r, seq!['x'], Tree::Int(k));
    assert(subst(x, seq!['x'], Tree::Int(k)) == Tree::Int(k));
    assert(subst(Tree::Int(3), seq!['x'], Tree::Int(k)) == Tree::Int(3));
    assert(subst(Tree::Int(2), seq!['x'], Tree::Int(k)) == Tree::Int(2));
    assert(subst(op_t(Tree::Int(3), OpType::Add, x), seq!['x'], Tree::Int(k)) == op_t(
        Tree::Int(3),
        OpType::Add,
        Tree::Int(k),
    ));
    assert(inst == op_t(Tree::Int(2), OpType::Mul, op_t(Tree::Int(3), OpType::Add, Tree::Int(k))));
    assert(norm(Tree::Int(k), f) == Tree::Int(k));
    assert(norm(op_t(Tree::Int(3), OpType::Add, Tree::Int(k)), f) == Tree::Int((3 + k) as i32));
}

/// Idempotence: where the rewrite budget is not used up, the engine ends in
/// a normal form (no rule matches anywhere), so normalizing the result again
/// leaves it as it is.
pub proof fn law_idempotent(t: Tree)
    requires
        settles(t, REWRITE_BUDGET as nat),
    ensures
        is_normal(normal_form(t)),
        normal_form(normal_form(t)) == normal_form(t),
{
    lemma_settled_is_normal(t, REWRITE_BUDGET as nat);
    lemma_normal_is_fixed(normal_form(t), REWRITE_BUDGET as nat);
}

} // verus!
