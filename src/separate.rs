//! Splitting token runs around operators, in precedence order, and dropping
//! blank tokens.
use vstd::prelude::*;
use crate::token::{Op, Token, Lex, lexes, lemma_lexes_push, lemma_lexes_index, lemma_lexes_subrange};

verus! {

/// A class of separating tokens.
#[derive(Clone, Copy, Debug, PartialEq, Eq, Structural)]
pub enum Sep {
    /// `;`
    Statement,
    /// `|`
    Predicate,
    /// any relation
    Relation,
    /// `,`
    Comma,
    Operator(Op),
}

pub open spec fn in_sep(t: Lex, k: Sep) -> bool {
    match k {
        Sep::Statement => t is Term,
        Sep::Predicate => t is Pred,
        Sep::Relation => t is Rel,
        Sep::Comma => t is Comma,
        Sep::Operator(o) => t == Lex::Op(o),
    }
}

/// The first index at or after `i` of a token of class `k`, or `ts.len()`.
pub open spec fn find_sep(ts: Seq<Lex>, k: Sep, i: int) -> int
    decreases ts.len() - i,
{
    if i >= ts.len() {
        ts.len() as int
    } else if in_sep(ts[i], k) {
        i
    } else {
        find_sep(ts, k, i + 1)
    }
}

/// Around the first token of class `k`, where tokens follow it: what precedes
/// it becomes a group, and what follows it, split the same way, another.
pub open spec fn split_first(ts: Seq<Lex>, k: Sep) -> Seq<Lex>
    decreases ts.len(),
{
    let i = find_sep(ts, k, 0);
    if 0 <= i && i + 1 < ts.len() {
        seq![
            Lex::Group('(', ')', ts.take(i)),
            ts[i],
            Lex::Group('(', ')', split_first(ts.subrange(i + 1, ts.len() as int), k)),
        ]
    } else {
        ts
    }
}

/// Separation by class `k`, inside every group first, then at this level.
pub open spec fn sep_each(ts: Seq<Lex>, k: Sep) -> Seq<Lex>
    decreases ts,
{
    if ts.len() == 0 {
        Seq::empty()
    } else {
        sep_each(ts.drop_last(), k).push(sep_tok(ts.last(), k))
    }
}

pub open spec fn sep_tok(t: Lex, k: Sep) -> Lex
    decreases t,
{
    match t {
        Lex::Group(a, b, xs) => Lex::Group(a, b, split_first(sep_each(xs, k), k)),
        _ => t,
    }
}

pub open spec fn sep_kind(ts: Seq<Lex>, k: Sep) -> Seq<Lex> {
    split_first(sep_each(ts, k), k)
}

/// The classes, from the loosest binding to the tightest.
pub open spec fn separation_order() -> Seq<Sep> {
    seq![
        Sep::Statement,
        Sep::Predicate,
        Sep::Relation,
        Sep::Comma,
        Sep::Operator(Op::Add),
        Sep::Operator(Op::Sub),
        Sep::Operator(Op::Mod),
        Sep::Operator(Op::Mul),
        Sep::Operator(Op::Div),
        Sep::Operator(Op::Pow),
    ]
}

/// Separation by each class of `ks` in turn.
pub open spec fn separate_by(ts: Seq<Lex>, ks: Seq<Sep>) -> Seq<Lex>
    decreases ks.len(),
{
    if ks.len() == 0 {
        ts
    } else {
        separate_by(sep_kind(ts, ks[0]), ks.subrange(1, ks.len() as int))
    }
}

pub open spec fn separated(ts: Seq<Lex>) -> Seq<Lex> {
    separate_by(ts, separation_order())
}

/// A token that stands for nothing: a `Leaf`, or a group of such tokens.
pub open spec fn blank(t: Lex) -> bool
    decreases t,
{
    match t {
        Lex::Leaf => true,
        Lex::Group(_, _, xs) => all_blank(xs),
        _ => false,
    }
}

pub open spec fn all_blank(ts: Seq<Lex>) -> bool
    decreases ts,
{
    ts.len() == 0 || (all_blank(ts.drop_last()) && blank(ts.last()))
}

/// `ts` with blank tokens dropped at every level.
pub open spec fn prune(ts: Seq<Lex>) -> Seq<Lex>
    decreases ts,
{
    if ts.len() == 0 {
        Seq::empty()
    } else if blank(ts.last()) {
        prune(ts.drop_last())
    } else {
        prune(ts.drop_last()).push(prune_tok(ts.last()))
    }
}

pub open spec fn prune_tok(t: Lex) -> Lex
    decreases t,
{
    match t {
        Lex::Group(a, b, xs) => Lex::Group(a, b, prune(xs)),
        _ => t,
    }
}

fn is_sep(t: &Token, k: Sep) -> (r: bool)
    ensures
        r == in_sep(t@, k),
{
    match (t, k) {
        (Token::Term, Sep::Statement) => true,
        (Token::Pred, Sep::Predicate) => true,
        (Token::Rel(_), Sep::Relation) => true,
        (Token::Comma, Sep::Comma) => true,
        (Token::Op(a), Sep::Operator(b)) => *a == b,
        _ => false,
    }
}

/// `split_first` on tokens.
fn split_tokens(tokens: Vec<Token>, k: Sep) -> (r: Vec<Token>)
    ensures
        lexes(r@) == split_first(lexes(tokens@), k),
    decreases tokens.len(),
{
    let mut ts = tokens;
    let ghost l = lexes(ts@);
    proof {
        lemma_lexes_index(ts@);
    }
    let mut i: usize = 0;
    while i < ts.len() && !is_sep(&ts[i], k)
        invariant
            i <= ts.len(),
            l == lexes(ts@),
            l.len() == ts.len(),
            forall|x: int| 0 <= x < ts.len() ==> #[trigger] l[x] == ts@[x]@,
            find_sep(l, k, 0) == find_sep(l, k, i as int),
        decreases ts.len() - i,
    {
        i = i + 1;
    }
    if ts.len() - i <= 1 {
        return ts;
    }
    let ghost before = ts@;
    let rest = ts.split_off(i + 1);
    let sep = ts.pop().unwrap();
    proof {
        assert(ts@ =~= before.take(i as int));
        assert(rest@ =~= before.subrange(i + 1, before.len() as int));
        lemma_lexes_subrange(before, 0, i as int);
        lemma_lexes_subrange(before, i + 1, before.len() as int);
        assert(l.take(i as int) =~= l.subrange(0, i as int));
        assert(before.take(i as int) =~= before.subrange(0, i as int));
    }
    let tail = split_tokens(rest, k);
    let mut out: Vec<Token> = Vec::new();
    let g1 = Token::Group('(', ')', ts);
    let g2 = Token::Group('(', ')', tail);
    proof {
        lemma_lexes_push(out@, g1);
        lemma_lexes_push(out@.push(g1), sep);
        lemma_lexes_push(out@.push(g1).push(sep), g2);
    }
    out.push(g1);
    out.push(sep);
    out.push(g2);
    assert(lexes(out@) =~= split_first(l, k));
    out
}

proof fn lemma_sep_each_push(ts: Seq<Lex>, t: Lex, k: Sep)
    ensures
        sep_each(ts.push(t), k) == sep_each(ts, k).push(sep_tok(t, k)),
{
    assert(ts.push(t).drop_last() =~= ts);
}

/// `sep_each` on tokens.
fn sep_tokens(ts: &Vec<Token>, k: Sep) -> (r: Vec<Token>)
    ensures
        lexes(r@) == sep_each(lexes(ts@), k),
    decreases ts,
{
    let mut out: Vec<Token> = Vec::new();
    let mut i: usize = 0;
    while i < ts.len()
        invariant
            i <= ts.len(),
            lexes(out@) == sep_each(lexes(ts@.take(i as int)), k),
            decreases_to!(*ts => ts@),
        decreases ts.len() - i,
    {
        proof {
            assert(decreases_to!(*ts => ts[i as int]));
        }
        let t = sep_token(&ts[i], k);
        proof {
            lemma_lexes_push(out@, t);
            lemma_lexes_push(ts@.take(i as int), ts@[i as int]);
            assert(ts@.take(i as int).push(ts@[i as int]) =~= ts@.take(i + 1));
            lemma_sep_each_push(lexes(ts@.take(i as int)), ts@[i as int]@, k);
        }
        out.push(t);
        i = i + 1;
    }
    assert(ts@.take(i as int) =~= ts@);
    out
}

fn sep_token(t: &Token, k: Sep) -> (r: Token)
    ensures
        r@ == sep_tok(t@, k),
    decreases t,
{
    match t {
        Token::Group(a, b, xs) => Token::Group(*a, *b, split_tokens(sep_tokens(xs, k), k)),
        _ => t.copy(),
    }
}

/// The separator classes in precedence order.
fn order() -> (r: Vec<Sep>)
    ensures
        r@ == separation_order(),
{
    let mut v: Vec<Sep> = Vec::new();
    v.push(Sep::Statement);
    v.push(Sep::Predicate);
    v.push(Sep::Relation);
    v.push(Sep::Comma);
    v.push(Sep::Operator(Op::Add));
    v.push(Sep::Operator(Op::Sub));
    v.push(Sep::Operator(Op::Mod));
    v.push(Sep::Operator(Op::Mul));
    v.push(Sep::Operator(Op::Div));
    v.push(Sep::Operator(Op::Pow));
    assert(v@ =~= separation_order());
    v
}

/// Splits the tokens by each separator class, loosest first, into a
/// right-nested tree of groups.
pub fn separate(ts: Vec<Token>) -> (r: Vec<Token>)
    ensures
        lexes(r@) == separated(lexes(ts@)),
{
    let ks = order();
    assert(ks@.subrange(0, ks.len() as int) =~= ks@);
    let mut cur = ts;
    let mut i: usize = 0;
    while i < ks.len()
        invariant
            i <= ks.len(),
            ks@ == separation_order(),
            separate_by(lexes(cur@), ks@.subrange(i as int, ks.len() as int)) == separated(lexes(ts@)),
        decreases ks.len() - i,
    {
        proof {
            assert(ks@.subrange(i as int, ks.len() as int).subrange(1, ks.len() - i) =~= ks@.subrange(
                i + 1,
                ks.len() as int,
            ));
        }
        let next = split_tokens(sep_tokens(&cur, ks[i]), ks[i]);
        cur = next;
        i = i + 1;
    }
    cur
}

/// Whether a token stands for nothing.
fn is_blank(t: &Token) -> (r: bool)
    ensures
        r == blank(t@),
    decreases t,
{
    match t {
        Token::Leaf => true,
        Token::Group(_, _, xs) => {
            let mut i: usize = 0;
            while i < xs.len()
                invariant
                    i <= xs.len(),
                    all_blank(lexes(xs@.take(i as int))),
                    decreases_to!(*t => *xs),
                    blank(t@) == all_blank(lexes(xs@)),
                decreases xs.len() - i,
            {
                proof {
                    assert(decreases_to!(*xs => xs[i as int]));
                    lemma_lexes_push(xs@.take(i as int), xs@[i as int]);
                    assert(xs@.take(i as int).push(xs@[i as int]) =~= xs@.take(i + 1));
                    assert(lexes(xs@.take(i + 1)).drop_last() =~= lexes(xs@.take(i as int)));
                }
                if !is_blank(&xs[i]) {
                    proof {
                        lemma_lexes_index(xs@);
                        lemma_lexes_subrange(xs@, 0, i + 1);
                        assert(xs@.take(i + 1) =~= xs@.subrange(0, i + 1));
                        assert(lexes(xs@).take(i + 1) =~= lexes(xs@).subrange(0, i + 1));
                        if all_blank(lexes(xs@)) {
                            lemma_all_blank_prefix(lexes(xs@), i + 1);
                        }
                    }
                    return false;
                }
                i = i + 1;
            }
            assert(xs@.take(i as int) =~= xs@);
            true
        },
        _ => false,
    }
}

proof fn lemma_all_blank_prefix(ts: Seq<Lex>, i: int)
    requires
        0 <= i <= ts.len(),
        all_blank(ts),
    ensures
        all_blank(ts.take(i)),
    decreases ts.len() - i,
{
    if i < ts.len() {
        lemma_all_blank_prefix(ts, i + 1);
        assert(ts.take(i + 1).drop_last() =~= ts.take(i));
    } else {
        assert(ts.take(i) =~= ts);
    }
}

proof fn lemma_prune_push(ts: Seq<Lex>, t: Lex)
    ensures
        prune(ts.push(t)) == if blank(t) { prune(ts) } else { prune(ts).push(prune_tok(t)) },
{
    assert(ts.push(t).drop_last() =~= ts);
}

/// Drops blank tokens at every level.
pub fn prune_tokens(ts: &Vec<Token>) -> (r: Vec<Token>)
    ensures
        lexes(r@) == prune(lexes(ts@)),
    decreases ts,
{
    let mut out: Vec<Token> = Vec::new();
    let mut i: usize = 0;
    while i < ts.len()
        invariant
            i <= ts.len(),
            lexes(out@) == prune(lexes(ts@.take(i as int))),
            decreases_to!(*ts => ts@),
        decreases ts.len() - i,
    {
        proof {
            assert(decreases_to!(*ts => ts[i as int]));
            lemma_lexes_push(ts@.take(i as int), ts@[i as int]);
            assert(ts@.take(i as int).push(ts@[i as int]) =~= ts@.take(i + 1));
            lemma_prune_push(lexes(ts@.take(i as int)), ts@[i as int]@);
        }
        if !is_blank(&ts[i]) {
            let t = prune_token(&ts[i]);
            proof {
                lemma_lexes_push(out@, t);
            }
            out.push(t);
        }
        i = i + 1;
    }
    assert(ts@.take(i as int) =~= ts@);
    out
}

fn prune_token(t: &Token) -> (r: Token)
    ensures
        r@ == prune_tok(t@),
    decreases t,
{
    match t {
        Token::Group(a, b, xs) => Token::Group(*a, *b, prune_tokens(xs)),
        _ => t.copy(),
    }
}

} // verus!
