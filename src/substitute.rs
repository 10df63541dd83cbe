//! Substitution of a value for every occurrence of a variable.
use vstd::prelude::*;
use crate::expr::{Expr, Tree, views, lemma_views_push, lemma_views_take};

verus! {

/// `t` with every `Var(s)` replaced by `v`. Plain structural replacement:
/// names bound by a nested `Where` are replaced too.
pub open spec fn subst(t: Tree, s: Seq<char>, v: Tree) -> Tree
    decreases t,
{
    match t {
        Tree::Var(x) => if x == s { v } else { t },
        Tree::Rel(a, r, b) => Tree::Rel(Box::new(subst(*a, s, v)), r, Box::new(subst(*b, s, v))),
        Tree::Fn(n, args) => Tree::Fn(n, subst_all(args, s, v)),
        Tree::Op(a, o, b) => Tree::Op(Box::new(subst(*a, s, v)), o, Box::new(subst(*b, s, v))),
        Tree::Where(a, x, b) => Tree::Where(Box::new(subst(*a, s, v)), x, Box::new(subst(*b, s, v))),
        _ => t,
    }
}

/// `subst` on each element.
pub open spec fn subst_all(args: Seq<Tree>, s: Seq<char>, v: Tree) -> Seq<Tree>
    decreases args,
{
    if args.len() == 0 {
        Seq::empty()
    } else {
        subst_all(args.drop_last(), s, v).push(subst(args.last(), s, v))
    }
}

proof fn lemma_subst_all_push(args: Seq<Tree>, t: Tree, s: Seq<char>, v: Tree)
    ensures
        subst_all(args.push(t), s, v) == subst_all(args, s, v).push(subst(t, s, v)),
{
    assert(args.push(t).drop_last() =~= args);
}

impl Expr {
    /// A copy of `self` with every variable named `given` replaced by `value`.
    pub fn substituted(&self, given: &str, value: &Expr) -> (r: Expr)
        ensures
            r@ == subst(self@, given@, value@),
        decreases self,
    {
        match self {
            Expr::Var(x) => {
                let g: String = given.to_owned();
                if *x == g {
                    value.copy()
                } else {
                    Expr::Var(x.clone())
                }
            },
            Expr::Rel(a, r, b) => Expr::Rel(
                Box::new(a.substituted(given, value)),
                *r,
                Box::new(b.substituted(given, value)),
            ),
            Expr::Fn(n, args) => {
                let mut out: Vec<Expr> = Vec::new();
                let mut i: usize = 0;
                while i < args.len()
                    invariant
                        i <= args.len(),
                        views(out@) == subst_all(views(args@.take(i as int)), given@, value@),
                        decreases_to!(*self => *args),
                    decreases args.len() - i,
                {
                    proof {
                        assert(decreases_to!(*args => args[i as int]));
                    }
                    let c = args[i].substituted(given, value);
                    proof {
                        lemma_views_push(out@, c);
                        lemma_views_take(args@, i as int);
                        lemma_subst_all_push(views(args@.take(i as int)), args@[i as int]@, given@, value@);
                    }
                    out.push(c);
                    i = i + 1;
                }
                assert(args@.take(i as int) =~= args@);
                Expr::Fn(n.clone(), out)
            },
            Expr::Op(a, o, b) => Expr::Op(
                Box::new(a.substituted(given, value)),
                *o,
                Box::new(b.substituted(given, value)),
            ),
            Expr::Where(a, x, b) => Expr::Where(
                Box::new(a.substituted(given, value)),
                x.clone(),
                Box::new(b.substituted(given, value)),
            ),
            Expr::Int(i) => Expr::Int(*i),
            Expr::Flt(d) => Expr::Flt(*d),
            Expr::Leaf => Expr::Leaf,
        }
    }

    /// Replaces, in place, every variable named `given` by `value`.
    pub fn and_where(&mut self, given: &str, value: &Expr)
        ensures
            final(self)@ == subst(old(self)@, given@, value@),
    {
        let r = self.substituted(given, value);
        *self = r;
    }
}

} // verus!
