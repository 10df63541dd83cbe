//! Building an expression tree from a grouped, separated token tree.
use vstd::prelude::*;
use crate::expr::{Expr, OpType, Rl, Tree, views, lemma_views_push};
use crate::normalize::op_t;
use crate::token::{Number, Op, Rel, Token, Lex, lexes, lemma_lexes_index};

verus! {

/// Why a token tree has no expression.
#[derive(Clone, Copy, Debug, PartialEq, Eq, Structural)]
pub enum SyntaxError {
    UnexpectedOperator,
    UnexpectedRelation,
    UnexpectedBracket,
    UnexpectedPredicate,
    UnexpectedComma,
    UnexpectedTerminator,
    /// A prefix sign or negation, which has no expression form.
    UnarySign,
    /// Two adjacent tokens that form no expression.
    InvalidPair,
    /// Three tokens that form no expression.
    InvalidTrio,
    /// More than three tokens at one level.
    TooManyTokens,
    /// A `|` clause that is not `symbol = value`.
    InvalidWhere,
}

pub open spec fn op_type(o: Op) -> Option<OpType> {
    match o {
        Op::Add => Some(OpType::Add),
        Op::Sub => Some(OpType::Sub),
        Op::Mul => Some(OpType::Mul),
        Op::Div => Some(OpType::Div),
        Op::Pow => Some(OpType::Pow),
        Op::Mod => None,
    }
}

pub open spec fn rel_type(r: Rel) -> Option<Rl> {
    match r {
        Rel::Eq => Some(Rl::Eq),
        Rel::Le => Some(Rl::Lt),
        Rel::Leq => Some(Rl::Leq),
        Rel::Ge => Some(Rl::Gt),
        Rel::Geq => Some(Rl::Geq),
        Rel::Neg => None,
    }
}

pub open spec fn number_tree(n: Number) -> Tree {
    match n {
        Number::Int(i) => Tree::Int(i),
        Number::Dec(d) => Tree::Flt(d),
    }
}

/// `x * y` where `y` was built.
pub open spec fn times(x: Tree, y: Result<Tree, SyntaxError>) -> Result<Tree, SyntaxError> {
    match y {
        Ok(t) => Ok(op_t(x, OpType::Mul, t)),
        Err(e) => Err(e),
    }
}

/// `x k y` for a node kind `k` where both sides were built, the left first.
pub open spec fn both(x: Result<Tree, SyntaxError>, y: Result<Tree, SyntaxError>) -> Result<(Tree, Tree), SyntaxError> {
    match x {
        Err(e) => Err(e),
        Ok(a) => match y {
            Err(e) => Err(e),
            Ok(b) => Ok((a, b)),
        },
    }
}

/// `body | clause`, where the clause is `symbol = value`, or such a clause
/// followed by further clauses.
pub open spec fn where_of(body: Tree, clause: Tree) -> Result<Tree, SyntaxError>
    decreases clause,
{
    match clause {
        Tree::Rel(l, Rl::Eq, v) => match *l {
            Tree::Var(s) => Ok(Tree::Where(Box::new(body), s, v)),
            _ => Err(SyntaxError::InvalidWhere),
        },
        Tree::Where(inner, s, v) => match where_of(body, *inner) {
            Ok(w) => Ok(Tree::Where(Box::new(w), s, v)),
            Err(e) => Err(e),
        },
        _ => Err(SyntaxError::InvalidWhere),
    }
}

/// The expression of a token run, by its length.
pub open spec fn construct(ts: Seq<Lex>) -> Result<Tree, SyntaxError>
    decreases ts, 2nat,
{
    if ts.len() == 0 {
        Ok(Tree::Leaf)
    } else if ts.len() == 1 {
        single(ts[0])
    } else if ts.len() == 2 {
        duo(ts, 0)
    } else if ts.len() == 3 {
        trio(ts)
    } else {
        Err(SyntaxError::TooManyTokens)
    }
}

/// The expression of one token.
pub open spec fn single(t: Lex) -> Result<Tree, SyntaxError>
    decreases t, 2nat,
{
    match t {
        Lex::Sym(s) => Ok(Tree::Var(s)),
        Lex::Num(n) => Ok(number_tree(n)),
        Lex::Leaf => Ok(Tree::Leaf),
        Lex::Group(_, _, xs) => construct(xs),
        Lex::Op(_) => Err(SyntaxError::UnexpectedOperator),
        Lex::Rel(_) => Err(SyntaxError::UnexpectedRelation),
        Lex::Open(_) => Err(SyntaxError::UnexpectedBracket),
        Lex::Close(_) => Err(SyntaxError::UnexpectedBracket),
        Lex::Pred => Err(SyntaxError::UnexpectedPredicate),
        Lex::Comma => Err(SyntaxError::UnexpectedComma),
        Lex::Term => Err(SyntaxError::UnexpectedTerminator),
    }
}

/// Whether `t` is a round-bracketed group with a comma at its top level.
pub open spec fn is_arg_list(t: Lex) -> bool {
    t is Group && t->Group_0 == '(' && t->Group_1 == ')' && t->Group_2.contains(Lex::Comma)
}

/// The expression of the pair `ts[i], ts[i + 1]`: a prefix sign is refused;
/// a symbol before an argument list is a call; otherwise two operands next to
/// each other are multiplied.
pub open spec fn duo(ts: Seq<Lex>, i: int) -> Result<Tree, SyntaxError>
    decreases ts, 0nat,
{
    if 0 <= i && i + 1 < ts.len() {
        let a = ts[i];
        let b = ts[i + 1];
        if a == Lex::Op(Op::Sub) || a == Lex::Op(Op::Add) || a == Lex::Rel(Rel::Neg) {
            Err(SyntaxError::UnarySign)
        } else if a is Sym && is_arg_list(b) {
            match fn_args(b->Group_2) {
                Ok(args) => Ok(Tree::Fn(a->Sym_0, args)),
                Err(e) => Err(e),
            }
        } else if a is Sym {
            times(Tree::Var(a->Sym_0), single(b))
        } else if b is Sym {
            times(Tree::Var(b->Sym_0), single(a))
        } else if a is Num {
            times(number_tree(a->Num_0), single(b))
        } else if b is Num {
            times(number_tree(b->Num_0), single(a))
        } else if a is Group && b is Group {
            match both(single(a), single(b)) {
                Ok(p) => Ok(op_t(p.0, OpType::Mul, p.1)),
                Err(e) => Err(e),
            }
        } else {
            Err(SyntaxError::InvalidPair)
        }
    } else {
        Err(SyntaxError::InvalidPair)
    }
}

/// The expression of three tokens: a group in the middle multiplies; an
/// operator, relation or `|` in the middle joins the two sides.
pub open spec fn trio(ts: Seq<Lex>) -> Result<Tree, SyntaxError>
    decreases ts, 1nat,
{
    if ts.len() == 3 {
        let m = ts[1];
        if m is Group {
            match both(single(ts[0]), duo(ts, 1)) {
                Ok(p) => Ok(op_t(p.0, OpType::Mul, p.1)),
                Err(e) => Err(e),
            }
        } else if m is Op && op_type(m->Op_0) is Some {
            match both(single(ts[0]), single(ts[2])) {
                Ok(p) => Ok(op_t(p.0, op_type(m->Op_0)->Some_0, p.1)),
                Err(e) => Err(e),
            }
        } else if m is Rel && rel_type(m->Rel_0) is Some {
            match both(single(ts[0]), single(ts[2])) {
                Ok(p) => Ok(Tree::Rel(Box::new(p.0), rel_type(m->Rel_0)->Some_0, Box::new(p.1))),
                Err(e) => Err(e),
            }
        } else if m is Pred {
            match both(single(ts[0]), single(ts[2])) {
                Ok(p) => where_of(p.0, p.1),
                Err(e) => Err(e),
            }
        } else {
            Err(SyntaxError::InvalidTrio)
        }
    } else {
        Err(SyntaxError::InvalidTrio)
    }
}

/// The arguments of a call: the right-nested comma splits `a , (b , (c ...))`
/// flattened in order.
pub open spec fn fn_args(xs: Seq<Lex>) -> Result<Seq<Tree>, SyntaxError>
    decreases xs, 3nat,
{
    if xs.len() == 3 && xs[1] is Comma {
        match single(xs[0]) {
            Err(e) => Err(e),
            Ok(first) => {
                let r = xs[2];
                if r is Group && r->Group_2.len() == 3 && r->Group_2[1] is Comma {
                    match fn_args(r->Group_2) {
                        Ok(rest) => Ok(seq![first] + rest),
                        Err(e) => Err(e),
                    }
                } else {
                    match single(r) {
                        Ok(last) => Ok(seq![first, last]),
                        Err(e) => Err(e),
                    }
                }
            },
        }
    } else {
        match construct(xs) {
            Ok(t) => Ok(seq![t]),
            Err(e) => Err(e),
        }
    }
}


/// `r` is what `s` describes: the same expression, or the same error.
pub open spec fn built(r: Result<Expr, SyntaxError>, s: Result<Tree, SyntaxError>) -> bool {
    match s {
        Ok(t) => r is Ok && r->Ok_0@ == t,
        Err(e) => r is Err && r->Err_0 == e,
    }
}

fn number_expr(n: Number) -> (r: Expr)
    ensures
        r@ == number_tree(n),
{
    match n {
        Number::Int(i) => Expr::Int(i),
        Number::Dec(d) => Expr::Flt(d),
    }
}

fn where_exec(body: Expr, clause: Expr) -> (r: Result<Expr, SyntaxError>)
    ensures
        built(r, where_of(body@, clause@)),
    decreases clause,
{
    let ghost c0 = clause@;
    match clause {
        Expr::Rel(l, k, v) => {
            let lhs: Expr = *l;
            assert(c0 == Tree::Rel(Box::new(lhs@), k, Box::new(v@)));
            match k {
                Rl::Eq => {},
                _ => {
                    return Err(SyntaxError::InvalidWhere);
                },
            }
            match lhs {
                Expr::Var(s) => Ok(Expr::Where(Box::new(body), s, v)),
                _ => Err(SyntaxError::InvalidWhere),
            }
        },
        Expr::Where(inner, s, v) => match where_exec(body, *inner) {
            Ok(w) => Ok(Expr::Where(Box::new(w), s, v)),
            Err(e) => Err(e),
        },
        _ => Err(SyntaxError::InvalidWhere),
    }
}

fn times_exec(x: Expr, y: Result<Expr, SyntaxError>) -> (r: Result<Expr, SyntaxError>)
    ensures
        forall|s: Result<Tree, SyntaxError>| built(y, s) ==> built(r, times(x@, s)),
{
    match y {
        Ok(t) => Ok(Expr::op(x, OpType::Mul, t)),
        Err(e) => Err(e),
    }
}

/// The expression of a token run.
pub fn construct_tokens(ts: &Vec<Token>) -> (r: Result<Expr, SyntaxError>)
    ensures
        built(r, construct(lexes(ts@))),
    decreases ts, 2nat,
{
    proof {
        lemma_lexes_index(ts@);
    }
    if ts.len() == 0 {
        Ok(Expr::Leaf)
    } else if ts.len() == 1 {
        proof {
            assert(decreases_to!(*ts => ts[0]));
        }
        single_token(&ts[0])
    } else if ts.len() == 2 {
        duo_tokens(ts, 0)
    } else if ts.len() == 3 {
        trio_tokens(ts)
    } else {
        Err(SyntaxError::TooManyTokens)
    }
}

fn single_token(t: &Token) -> (r: Result<Expr, SyntaxError>)
    ensures
        built(r, single(t@)),
    decreases t, 2nat,
{
    match t {
        Token::Sym(s) => Ok(Expr::Var(s.clone())),
        Token::Num(n) => Ok(number_expr(*n)),
        Token::Leaf => Ok(Expr::Leaf),
        Token::Group(_, _, xs) => construct_tokens(xs),
        Token::Op(_) => Err(SyntaxError::UnexpectedOperator),
        Token::Rel(_) => Err(SyntaxError::UnexpectedRelation),
        Token::Open(_) => Err(SyntaxError::UnexpectedBracket),
        Token::Close(_) => Err(SyntaxError::UnexpectedBracket),
        Token::Pred => Err(SyntaxError::UnexpectedPredicate),
        Token::Comma => Err(SyntaxError::UnexpectedComma),
        Token::Term => Err(SyntaxError::UnexpectedTerminator),
    }
}

fn arg_list(t: &Token) -> (r: bool)
    ensures
        r == is_arg_list(t@),
{
    match t {
        Token::Group(o, c, xs) => {
            if *o != '(' || *c != ')' {
                return false;
            }
            proof {
                lemma_lexes_index(xs@);
            }
            let mut i: usize = 0;
            while i < xs.len()
                invariant
                    i <= xs.len(),
                    lexes(xs@).len() == xs.len(),
                    forall|j: int| 0 <= j < xs.len() ==> #[trigger] lexes(xs@)[j] == xs@[j]@,
                    forall|j: int| 0 <= j < i ==> lexes(xs@)[j] != Lex::Comma,
                    t@ == Lex::Group('(', ')', lexes(xs@)),
                decreases xs.len() - i,
            {
                match &xs[i] {
                    Token::Comma => {
                        assert(lexes(xs@)[i as int] == Lex::Comma);
                        return true;
                    },
                    _ => {},
                }
                i = i + 1;
            }
            false
        },
        _ => false,
    }
}

fn is_unary(t: &Token) -> (r: bool)
    ensures
        r == (t@ == Lex::Op(Op::Sub) || t@ == Lex::Op(Op::Add) || t@ == Lex::Rel(Rel::Neg)),
{
    match t {
        Token::Op(Op::Sub) => true,
        Token::Op(Op::Add) => true,
        Token::Rel(Rel::Neg) => true,
        _ => false,
    }
}

fn duo_tokens(ts: &Vec<Token>, i: usize) -> (r: Result<Expr, SyntaxError>)
    requires
        i + 1 < ts.len(),
    ensures
        built(r, duo(lexes(ts@), i as int)),
    decreases ts, 0nat,
{
    proof {
        lemma_lexes_index(ts@);
        assert(decreases_to!(*ts => ts[i as int]));
        assert(decreases_to!(*ts => ts[i + 1]));
    }
    let a = &ts[i];
    let b = &ts[i + 1];
    if is_unary(a) {
        return Err(SyntaxError::UnarySign);
    }
    match a {
        Token::Sym(s) => {
            if arg_list(b) {
                match b {
                    Token::Group(_, _, xs) => {
                        return match fn_args_tokens(xs) {
                            Ok(args) => Ok(Expr::Fn(s.clone(), args)),
                            Err(e) => Err(e),
                        };
                    },
                    _ => {},
                }
            }
            return times_exec(Expr::Var(s.clone()), single_token(b));
        },
        _ => {},
    }
    match b {
        Token::Sym(s) => {
            return times_exec(Expr::Var(s.clone()), single_token(a));
        },
        _ => {},
    }
    match a {
        Token::Num(n) => {
            return times_exec(number_expr(*n), single_token(b));
        },
        _ => {},
    }
    match b {
        Token::Num(n) => {
            return times_exec(number_expr(*n), single_token(a));
        },
        _ => {},
    }
    match (a, b) {
        (Token::Group(_, _, _), Token::Group(_, _, _)) => {
            let x = single_token(a)?;
            let y = single_token(b)?;
            Ok(Expr::op(x, OpType::Mul, y))
        },
        _ => Err(SyntaxError::InvalidPair),
    }
}

fn op_type_exec(o: Op) -> (r: Option<OpType>)
    ensures
        r == op_type(o),
{
    match o {
        Op::Add => Some(OpType::Add),
        Op::Sub => Some(OpType::Sub),
        Op::Mul => Some(OpType::Mul),
        Op::Div => Some(OpType::Div),
        Op::Pow => Some(OpType::Pow),
        Op::Mod => None,
    }
}

fn rel_type_exec(r: Rel) -> (o: Option<Rl>)
    ensures
        o == rel_type(r),
{
    match r {
        Rel::Eq => Some(Rl::Eq),
        Rel::Le => Some(Rl::Lt),
        Rel::Leq => Some(Rl::Leq),
        Rel::Ge => Some(Rl::Gt),
        Rel::Geq => Some(Rl::Geq),
        Rel::Neg => None,
    }
}

fn trio_tokens(ts: &Vec<Token>) -> (r: Result<Expr, SyntaxError>)
    requires
        ts.len() == 3,
    ensures
        built(r, trio(lexes(ts@))),
    decreases ts, 1nat,
{
    proof {
        lemma_lexes_index(ts@);
        assert(decreases_to!(*ts => ts[0]));
        assert(decreases_to!(*ts => ts[2]));
    }
    match &ts[1] {
        Token::Group(_, _, _) => {
            let x = single_token(&ts[0])?;
            let y = duo_tokens(ts, 1)?;
            return Ok(Expr::op(x, OpType::Mul, y));
        },
        Token::Op(o) => {
            match op_type_exec(*o) {
                Some(k) => {
                    let x = single_token(&ts[0])?;
                    let y = single_token(&ts[2])?;
                    return Ok(Expr::op(x, k, y));
                },
                None => {},
            }
        },
        Token::Rel(q) => {
            match rel_type_exec(*q) {
                Some(k) => {
                    let x = single_token(&ts[0])?;
                    let y = single_token(&ts[2])?;
                    return Ok(Expr::rel(x, k, y));
                },
                None => {},
            }
        },
        Token::Pred => {
            let x = single_token(&ts[0])?;
            let y = single_token(&ts[2])?;
            return where_exec(x, y);
        },
        _ => {},
    }
    Err(SyntaxError::InvalidTrio)
}

/// Whether `ts` is three tokens with a comma in the middle.
fn comma_split(ts: &Vec<Token>) -> (b: bool)
    ensures
        b == (lexes(ts@).len() == 3 && lexes(ts@)[1] is Comma),
{
    proof {
        lemma_lexes_index(ts@);
    }
    if ts.len() != 3 {
        return false;
    }
    match &ts[1] {
        Token::Comma => true,
        _ => false,
    }
}

fn fn_args_tokens(xs: &Vec<Token>) -> (r: Result<Vec<Expr>, SyntaxError>)
    ensures
        match fn_args(lexes(xs@)) {
            Ok(a) => r is Ok && views(r->Ok_0@) == a,
            Err(e) => r is Err && r->Err_0 == e,
        },
    decreases xs, 3nat,
{
    proof {
        lemma_lexes_index(xs@);
    }
    if !comma_split(xs) {
        let t = match construct_tokens(xs) {
            Ok(t) => t,
            Err(e) => {
                return Err(e);
            },
        };
        let mut v: Vec<Expr> = Vec::new();
        proof {
            lemma_views_push(v@, t);
        }
        v.push(t);
        assert(views(v@) =~= seq![t@]);
        return Ok(v);
    }
    proof {
        assert(decreases_to!(*xs => xs[0]));
        assert(decreases_to!(*xs => xs[2]));
    }
    let first = match single_token(&xs[0]) {
        Ok(t) => t,
        Err(e) => {
            return Err(e);
        },
    };
    let nested = match &xs[2] {
        Token::Group(_, _, inner) => comma_split(inner),
        _ => false,
    };
    if nested {
        match &xs[2] {
            Token::Group(_, _, inner) => {
                let mut rest = match fn_args_tokens(inner) {
                    Ok(v) => v,
                    Err(e) => {
                        return Err(e);
                    },
                };
                let ghost old_rest = rest@;
                rest.insert(0, first);
                proof {
                    crate::expr::lemma_views_index(rest@);
                    crate::expr::lemma_views_index(old_rest);
                    assert(rest@ =~= seq![first].add(old_rest));
                }
                assert(views(rest@) =~= seq![first@] + views(old_rest));
                return Ok(rest);
            },
            _ => {},
        }
    }
    let last = match single_token(&xs[2]) {
        Ok(t) => t,
        Err(e) => {
            return Err(e);
        },
    };
    let mut v: Vec<Expr> = Vec::new();
    proof {
        lemma_views_push(v@, first);
        lemma_views_push(v@.push(first), last);
    }
    v.push(first);
    v.push(last);
    assert(views(v@) =~= seq![first@, last@]);
    Ok(v)
}

} // verus!
