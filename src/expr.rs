//! The expression tree and its mathematical model.
use vstd::prelude::*;

verus! {

/// A number with a fractional part, held exactly: its value is
/// `digits / 10^scale`. Literals are kept canonical: no trailing zero digit
/// behind the point (`scale == 0 || digits % 10 != 0`).
#[derive(Clone, Copy, Debug, PartialEq, Eq, Structural)]
pub struct Decimal {
    pub digits: i64,
    pub scale: u32,
}

/// The arithmetic operators of an expression node.
#[derive(Clone, Copy, Debug, PartialEq, Eq, Structural)]
pub enum OpType {
    Add,
    Sub,
    Mul,
    Div,
    Pow,
}

/// The relations of an expression node.
#[derive(Clone, Copy, Debug, PartialEq, Eq, Structural)]
pub enum Rl {
    Eq,
    Lt,
    Gt,
    Leq,
    Geq,
    Neq,
}

/// An expression tree. Every node owns its children.
#[derive(Debug, PartialEq)]
pub enum Expr {
    Int(i32),
    Flt(Decimal),
    Var(String),
    Rel(Box<Expr>, Rl, Box<Expr>),
    Fn(String, Vec<Expr>),
    Op(Box<Expr>, OpType, Box<Expr>),
    /// `body | symbol = value`
    Where(Box<Expr>, String, Box<Expr>),
    Leaf,
}

/// The mathematical model of an [`Expr`]: names become character sequences and
/// argument lists become sequences, so that `==` on terms is structural equality.
pub enum Tree {
    Int(i32),
    Flt(Decimal),
    Var(Seq<char>),
    Rel(Box<Tree>, Rl, Box<Tree>),
    Fn(Seq<char>, Seq<Tree>),
    Op(Box<Tree>, OpType, Box<Tree>),
    Where(Box<Tree>, Seq<char>, Box<Tree>),
    Leaf,
}

/// The models of a sequence of expressions, element by element.
pub open spec fn views(args: Seq<Expr>) -> Seq<Tree>
    decreases args,
{
    if args.len() == 0 {
        Seq::empty()
    } else {
        views(args.drop_last()).push(args.last().view())
    }
}

impl Expr {
    pub open spec fn view(&self) -> Tree
        decreases self,
    {
        match self {
            Expr::Int(i) => Tree::Int(*i),
            Expr::Flt(d) => Tree::Flt(*d),
            Expr::Var(s) => Tree::Var(s@),
            Expr::Rel(a, r, b) => Tree::Rel(Box::new(a.view()), *r, Box::new(b.view())),
            Expr::Fn(n, args) => Tree::Fn(n@, views(args@)),
            Expr::Op(a, o, b) => Tree::Op(Box::new(a.view()), *o, Box::new(b.view())),
            Expr::Where(a, s, b) => Tree::Where(Box::new(a.view()), s@, Box::new(b.view())),
            Expr::Leaf => Tree::Leaf,
        }
    }
}


pub proof fn lemma_views_push(s: Seq<Expr>, e: Expr)
    ensures
        views(s.push(e)) == views(s).push(e@),
{
    assert(s.push(e).drop_last() =~= s);
}

pub proof fn lemma_views_take(args: Seq<Expr>, i: int)
    requires
        0 <= i < args.len(),
    ensures
        views(args.take(i + 1)) == views(args.take(i)).push(args[i]@),
{
    lemma_views_push(args.take(i), args[i]);
    assert(args.take(i).push(args[i]) =~= args.take(i + 1));
}

pub proof fn lemma_views_index(s: Seq<Expr>)
    ensures
        views(s).len() == s.len(),
        forall|i: int| 0 <= i < s.len() ==> #[trigger] views(s)[i] == s[i]@,
    decreases s.len(),
{
    if s.len() > 0 {
        lemma_views_index(s.drop_last());
    }
}

impl Expr {
    /// `a o b`
    pub fn op(a: Expr, o: OpType, b: Expr) -> (r: Expr)
        ensures
            r@ == Tree::Op(Box::new(a@), o, Box::new(b@)),
    {
        Expr::Op(Box::new(a), o, Box::new(b))
    }

    /// `a r b`
    pub fn rel(a: Expr, r: Rl, b: Expr) -> (e: Expr)
        ensures
            e@ == Tree::Rel(Box::new(a@), r, Box::new(b@)),
    {
        Expr::Rel(Box::new(a), r, Box::new(b))
    }

    /// `co * (n/d)^p`
    pub fn unit(co: Expr, n: Expr, d: Expr, p: Expr) -> (r: Expr)
        ensures
            r@ == Tree::Op(
                Box::new(co@),
                OpType::Mul,
                Box::new(
                    Tree::Op(
                        Box::new(Tree::Op(Box::new(n@), OpType::Div, Box::new(d@))),
                        OpType::Pow,
                        Box::new(p@),
                    ),
                ),
            ),
    {
        Expr::op(co, OpType::Mul, Expr::op(Expr::op(n, OpType::Div, d), OpType::Pow, p))
    }

    /// A deep copy.
    pub fn copy(&self) -> (r: Expr)
        ensures
            r@ == self@,
        decreases self,
    {
        match self {
            Expr::Int(i) => Expr::Int(*i),
            Expr::Flt(d) => Expr::Flt(*d),
            Expr::Var(s) => Expr::Var(s.clone()),
            Expr::Rel(a, r, b) => Expr::Rel(Box::new(a.copy()), *r, Box::new(b.copy())),
            Expr::Fn(n, args) => {
                let mut out: Vec<Expr> = Vec::new();
                let mut i: usize = 0;
                assert(decreases_to!(*self => *args));
                while i < args.len()
                    invariant
                        i <= args.len(),
                        views(out@) == views(args@.take(i as int)),
                        *self == Expr::Fn(*n, *args),
                        decreases_to!(*self => *args),
                    decreases args.len() - i,
                {
                    proof {
                        assert(decreases_to!(*args => args[i as int]));
                    }
                    let c = args[i].copy();
                    proof {
                        lemma_views_push(out@, c);
                        lemma_views_push(args@.take(i as int), args@[i as int]);
                        assert(args@.take(i as int).push(args@[i as int]) =~= args@.take(i + 1));
                    }
                    out.push(c);
                    i = i + 1;
                }
                assert(args@.take(i as int) =~= args@);
                Expr::Fn(n.clone(), out)
            },
            Expr::Op(a, o, b) => Expr::Op(Box::new(a.copy()), *o, Box::new(b.copy())),
            Expr::Where(a, s, b) => Expr::Where(Box::new(a.copy()), s.clone(), Box::new(b.copy())),
            Expr::Leaf => Expr::Leaf,
        }
    }

    /// Structural equality: same variant, equal names and numbers, and
    /// recursively equal children.
    pub fn same(&self, other: &Expr) -> (r: bool)
        ensures
            r == (self@ == other@),
        decreases self,
    {
        match (self, other) {
            (Expr::Int(a), Expr::Int(b)) => *a == *b,
            (Expr::Flt(a), Expr::Flt(b)) => *a == *b,
            (Expr::Var(a), Expr::Var(b)) => *a == *b,
            (Expr::Rel(a, r, b), Expr::Rel(c, q, d)) => *r == *q && a.same(c) && b.same(d),
            (Expr::Op(a, o, b), Expr::Op(c, p, d)) => *o == *p && a.same(c) && b.same(d),
            (Expr::Where(a, s, b), Expr::Where(c, t, d)) => *s == *t && a.same(c) && b.same(d),
            (Expr::Leaf, Expr::Leaf) => true,
            (Expr::Fn(n, xs), Expr::Fn(m, ys)) => {
                proof {
                    lemma_views_index(xs@);
                    lemma_views_index(ys@);
                }
                if *n != *m || xs.len() != ys.len() {
                    return false;
                }
                let mut i: usize = 0;
                while i < xs.len()
                    invariant
                        i <= xs.len() == ys.len(),
                        views(xs@).len() == xs.len(),
                        views(ys@).len() == ys.len(),
                        forall|j: int| 0 <= j < xs.len() ==> #[trigger] views(xs@)[j] == xs@[j]@,
                        forall|j: int| 0 <= j < ys.len() ==> #[trigger] views(ys@)[j] == ys@[j]@,
                        forall|j: int| 0 <= j < i ==> xs@[j]@ == ys@[j]@,
                        *self == Expr::Fn(*n, *xs),
                        *other == Expr::Fn(*m, *ys),
                    decreases xs.len() - i,
                {
                    proof {
                        assert(decreases_to!(*xs => xs[i as int]));
                    }
                    if !xs[i].same(&ys[i]) {
                        assert(views(xs@)[i as int] != views(ys@)[i as int]);
                        assert(self@ != other@);
                        return false;
                    }
                    i = i + 1;
                }
                assert(views(xs@) =~= views(ys@));
                true
            },
            _ => false,
        }
    }
}

} // verus!
