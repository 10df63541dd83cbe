//! Collapsing matching brackets into `Group` tokens.
use vstd::prelude::*;
use crate::token::{Token, Lex, lexes, lemma_lexes_push, lemma_lexes_index, lemma_lexes_subrange, lemma_lexes_concat};

verus! {

broadcast use vstd::seq::group_seq_axioms;

/// The first index at or after `i` where `ts` holds `t`, or `ts.len()`.
pub open spec fn find(ts: Seq<Lex>, t: Lex, i: int) -> int
    decreases ts.len() - i,
{
    if i >= ts.len() {
        ts.len() as int
    } else if ts[i] == t {
        i
    } else {
        find(ts, t, i + 1)
    }
}

/// The last index before `k` where `ts` holds `t`, or `-1`.
pub open spec fn find_back(ts: Seq<Lex>, t: Lex, k: int) -> int
    decreases k,
{
    if k <= 0 {
        -1
    } else if ts[k - 1] == t {
        k - 1
    } else {
        find_back(ts, t, k - 1)
    }
}

/// At one level: while a `Close(c)` remains, the first one and the nearest
/// `Open(o)` before it collapse, with what lies between, into one
/// `Group(o, c, ..)`. A `Close(c)` with no `Open(o)` before it, or an
/// `Open(o)` left over, is a mismatched delimiter: its character is the error.
/// `n` bounds the number of collapses; since each one shortens the sequence,
/// `ts.len()` is always enough (see `splice`).
pub open spec fn collapse(ts: Seq<Lex>, o: char, c: char, n: nat) -> Result<Seq<Lex>, char>
    decreases n,
{
    let k = find(ts, Lex::Close(c), 0);
    if k >= ts.len() {
        if find(ts, Lex::Open(o), 0) < ts.len() {
            Err(o)
        } else {
            Ok(ts)
        }
    } else {
        let j = find_back(ts, Lex::Open(o), k);
        if 0 <= j < k {
            if n == 0 {
                Ok(ts)
            } else {
                collapse(
                    ts.take(j) + seq![Lex::Group(o, c, ts.subrange(j + 1, k))] + ts.skip(k + 1),
                    o,
                    c,
                    (n - 1) as nat,
                )
            }
        } else {
            Err(c)
        }
    }
}

/// Bracket collapsing at one level.
pub open spec fn splice(ts: Seq<Lex>, o: char, c: char) -> Result<Seq<Lex>, char> {
    collapse(ts, o, c, ts.len())
}

/// Bracket grouping for one bracket kind, inside every group first, then at this level.
pub open spec fn group_each(ts: Seq<Lex>, o: char, c: char) -> Result<Seq<Lex>, char>
    decreases ts,
{
    if ts.len() == 0 {
        Ok(Seq::empty())
    } else {
        match group_each(ts.drop_last(), o, c) {
            Err(e) => Err(e),
            Ok(front) => match group_tok(ts.last(), o, c) {
                Err(e) => Err(e),
                Ok(t) => Ok(front.push(t)),
            },
        }
    }
}

pub open spec fn group_tok(t: Lex, o: char, c: char) -> Result<Lex, char>
    decreases t,
{
    match t {
        Lex::Group(a, b, xs) => match group_each(xs, o, c) {
            Err(e) => Err(e),
            Ok(ys) => match splice(ys, o, c) {
                Err(e) => Err(e),
                Ok(zs) => Ok(Lex::Group(a, b, zs)),
            },
        },
        _ => Ok(t),
    }
}

/// Grouping for one bracket kind over a whole sequence.
pub open spec fn group_kind(ts: Seq<Lex>, o: char, c: char) -> Result<Seq<Lex>, char> {
    match group_each(ts, o, c) {
        Err(e) => Err(e),
        Ok(ys) => splice(ys, o, c),
    }
}

/// Grouping of round, then square, then curly brackets.
pub open spec fn grouped(ts: Seq<Lex>) -> Result<Seq<Lex>, char> {
    match group_kind(ts, '(', ')') {
        Err(e) => Err(e),
        Ok(a) => match group_kind(a, '[', ']') {
            Err(e) => Err(e),
            Ok(b) => group_kind(b, '{', '}'),
        },
    }
}

fn is_tok(t: &Token, open: bool, ch: char) -> (r: bool)
    ensures
        r == (t@ == if open { Lex::Open(ch) } else { Lex::Close(ch) }),
{
    match t {
        Token::Open(x) => open && *x == ch,
        Token::Close(x) => !open && *x == ch,
        _ => false,
    }
}

/// `splice` at one level.
fn splice_level(tokens: Vec<Token>, o: char, c: char) -> (r: Result<Vec<Token>, char>)
    ensures
        match splice(lexes(tokens@), o, c) {
            Ok(xs) => r is Ok && lexes(r->Ok_0@) == xs,
            Err(e) => r is Err && r->Err_0 == e,
        },
{
    let mut ts = tokens;
    let ghost goal = splice(lexes(ts@), o, c);
    let ghost mut n: nat = ts.len() as nat;
    proof {
        lemma_lexes_index(ts@);
    }
    loop
        invariant
            collapse(lexes(ts@), o, c, n) == goal,
            goal == splice(lexes(tokens@), o, c),
            ts.len() <= n,
        decreases ts.len(),
    {
        proof {
            lemma_lexes_index(ts@);
        }
        let ghost l = lexes(ts@);
        let mut k: usize = 0;
        while k < ts.len() && !is_tok(&ts[k], false, c)
            invariant
                k <= ts.len(),
                l == lexes(ts@),
                l.len() == ts.len(),
                forall|i: int| 0 <= i < ts.len() ==> #[trigger] l[i] == ts@[i]@,
                find(l, Lex::Close(c), 0) == find(l, Lex::Close(c), k as int),
            decreases ts.len() - k,
        {
            k = k + 1;
        }
        if k == ts.len() {
            let mut i: usize = 0;
            while i < ts.len() && !is_tok(&ts[i], true, o)
                invariant
                    i <= ts.len(),
                    l == lexes(ts@),
                    l.len() == ts.len(),
                    forall|x: int| 0 <= x < ts.len() ==> #[trigger] l[x] == ts@[x]@,
                    find(l, Lex::Open(o), 0) == find(l, Lex::Open(o), i as int),
                decreases ts.len() - i,
            {
                i = i + 1;
            }
            if i < ts.len() {
                return Err(o);
            }
            return Ok(ts);
        }
        let mut j: usize = k;
        while j > 0 && !is_tok(&ts[j - 1], true, o)
            invariant
                j <= k < ts.len(),
                l == lexes(ts@),
                l.len() == ts.len(),
                forall|x: int| 0 <= x < ts.len() ==> #[trigger] l[x] == ts@[x]@,
                find_back(l, Lex::Open(o), k as int) == find_back(l, Lex::Open(o), j as int),
            decreases j,
        {
            j = j - 1;
        }
        if j == 0 {
            return Err(c);
        }
        let j = j - 1;
        let ghost before = ts@;
        let mut tail = ts.split_off(k + 1);
        ts.pop();
        let mid = ts.split_off(j + 1);
        ts.pop();
        proof {
            assert(ts@ =~= before.take(j as int));
            assert(mid@ =~= before.subrange(j + 1, k as int));
            assert(tail@ =~= before.skip(k + 1));
            lemma_lexes_subrange(before, 0, j as int);
            lemma_lexes_subrange(before, j + 1, k as int);
            lemma_lexes_subrange(before, k + 1, before.len() as int);
        }
        let g = Token::Group(o, c, mid);
        proof {
            lemma_lexes_push(ts@, g);
            lemma_lexes_concat(ts@.push(g), tail@);
            assert(l.take(j as int) =~= l.subrange(0, j as int));
            assert(l.skip(k + 1) =~= l.subrange(k + 1, l.len() as int));
            assert(before.take(j as int) =~= before.subrange(0, j as int));
            assert(before.skip(k + 1) =~= before.subrange(k + 1, before.len() as int));
            assert(lexes(ts@.push(g) + tail@) =~= l.take(j as int) + seq![
                Lex::Group(o, c, l.subrange(j + 1, k as int)),
            ] + l.skip(k + 1));
        }
        ts.push(g);
        ts.append(&mut tail);
        proof {
            n = (n - 1) as nat;
        }
    }
}


proof fn lemma_group_each_err(xs: Seq<Lex>, i: int, o: char, c: char)
    requires
        0 <= i <= xs.len(),
        group_each(xs.take(i), o, c) is Err,
    ensures
        group_each(xs, o, c) == group_each(xs.take(i), o, c),
    decreases xs.len() - i,
{
    if i < xs.len() {
        assert(xs.take(i + 1).drop_last() =~= xs.take(i));
        lemma_group_each_err(xs, i + 1, o, c);
    } else {
        assert(xs.take(i) =~= xs);
    }
}

/// `group_each` on tokens.
fn group_tokens(ts: &Vec<Token>, o: char, c: char) -> (r: Result<Vec<Token>, char>)
    ensures
        match group_each(lexes(ts@), o, c) {
            Ok(xs) => r is Ok && lexes(r->Ok_0@) == xs,
            Err(e) => r is Err && r->Err_0 == e,
        },
    decreases ts,
{
    let ghost l = lexes(ts@);
    proof {
        lemma_lexes_index(ts@);
    }
    let mut out: Vec<Token> = Vec::new();
    let mut i: usize = 0;
    assert(l.take(0) =~= Seq::<Lex>::empty());
    while i < ts.len()
        invariant
            i <= ts.len(),
            l == lexes(ts@),
            l.len() == ts.len(),
            forall|x: int| 0 <= x < ts.len() ==> #[trigger] l[x] == ts@[x]@,
            group_each(l.take(i as int), o, c) == Ok::<Seq<Lex>, char>(lexes(out@)),
            decreases_to!(*ts => ts@),
        decreases ts.len() - i,
    {
        proof {
            assert(decreases_to!(*ts => ts[i as int]));
            assert(l.take(i + 1).drop_last() =~= l.take(i as int));
            assert(l.take(i + 1).last() == ts@[i as int]@);
        }
        match group_token(&ts[i], o, c) {
            Ok(t) => {
                proof {
                    lemma_lexes_push(out@, t);
                }
                out.push(t);
            },
            Err(e) => {
                proof {
                    lemma_group_each_err(l, i + 1, o, c);
                }
                return Err(e);
            },
        }
        i = i + 1;
    }
    assert(l.take(i as int) =~= l);
    Ok(out)
}

/// `group_tok` on a token.
fn group_token(t: &Token, o: char, c: char) -> (r: Result<Token, char>)
    ensures
        match group_tok(t@, o, c) {
            Ok(x) => r is Ok && r->Ok_0@ == x,
            Err(e) => r is Err && r->Err_0 == e,
        },
    decreases t,
{
    match t {
        Token::Group(a, b, xs) => match group_tokens(xs, o, c) {
            Err(e) => Err(e),
            Ok(ys) => match splice_level(ys, o, c) {
                Err(e) => Err(e),
                Ok(zs) => Ok(Token::Group(*a, *b, zs)),
            },
        },
        _ => Ok(t.copy()),
    }
}

/// Grouping for one bracket kind.
fn group_kind_tokens(ts: &Vec<Token>, o: char, c: char) -> (r: Result<Vec<Token>, char>)
    ensures
        match group_kind(lexes(ts@), o, c) {
            Ok(xs) => r is Ok && lexes(r->Ok_0@) == xs,
            Err(e) => r is Err && r->Err_0 == e,
        },
{
    match group_tokens(ts, o, c) {
        Err(e) => Err(e),
        Ok(ys) => splice_level(ys, o, c),
    }
}

/// Collapses matching round, then square, then curly brackets into groups;
/// the error is the character of a bracket left unmatched.
pub fn group(ts: &Vec<Token>) -> (r: Result<Vec<Token>, char>)
    ensures
        match grouped(lexes(ts@)) {
            Ok(xs) => r is Ok && lexes(r->Ok_0@) == xs,
            Err(e) => r is Err && r->Err_0 == e,
        },
{
    let a = group_kind_tokens(ts, '(', ')')?;
    let b = group_kind_tokens(&a, '[', ']')?;
    group_kind_tokens(&b, '{', '}')
}

} // verus!
