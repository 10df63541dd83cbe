//! Tokens and the tokenizer.
use vstd::prelude::*;
use crate::expr::Decimal;

verus! {

/// The operators of the token alphabet.
#[derive(Clone, Copy, Debug, PartialEq, Eq, Structural)]
pub enum Op {
    Add,
    Sub,
    Mul,
    Div,
    Pow,
    Mod,
}

/// The relations of the token alphabet; `Neg` is `!`.
#[derive(Clone, Copy, Debug, PartialEq, Eq, Structural)]
pub enum Rel {
    Eq,
    Le,
    Leq,
    Ge,
    Geq,
    Neg,
}

/// A numeric literal: an integer when written without a point and within
/// `i32`, otherwise an exact decimal.
#[derive(Clone, Copy, Debug, PartialEq, Eq, Structural)]
pub enum Number {
    Int(i32),
    Dec(Decimal),
}

/// A token. `Group` holds a bracketed, or implicitly wrapped, run of tokens.
#[derive(Debug, PartialEq)]
pub enum Token {
    Sym(String),
    Num(Number),
    Op(Op),
    Rel(Rel),
    Open(char),
    Close(char),
    Pred,
    Comma,
    Leaf,
    Term,
    Group(char, char, Vec<Token>),
}

/// The mathematical model of a [`Token`].
pub enum Lex {
    Sym(Seq<char>),
    Num(Number),
    Op(Op),
    Rel(Rel),
    Open(char),
    Close(char),
    Pred,
    Comma,
    Leaf,
    Term,
    Group(char, char, Seq<Lex>),
}

/// The models of a sequence of tokens.
pub open spec fn lexes(ts: Seq<Token>) -> Seq<Lex>
    decreases ts,
{
    if ts.len() == 0 {
        Seq::empty()
    } else {
        lexes(ts.drop_last()).push(ts.last().view())
    }
}

impl Token {
    pub open spec fn view(&self) -> Lex
        decreases self,
    {
        match self {
            Token::Sym(s) => Lex::Sym(s@),
            Token::Num(n) => Lex::Num(*n),
            Token::Op(o) => Lex::Op(*o),
            Token::Rel(r) => Lex::Rel(*r),
            Token::Open(c) => Lex::Open(*c),
            Token::Close(c) => Lex::Close(*c),
            Token::Pred => Lex::Pred,
            Token::Comma => Lex::Comma,
            Token::Leaf => Lex::Leaf,
            Token::Term => Lex::Term,
            Token::Group(o, c, ts) => Lex::Group(*o, *c, lexes(ts@)),
        }
    }
}

pub proof fn lemma_lexes_push(s: Seq<Token>, t: Token)
    ensures
        lexes(s.push(t)) == lexes(s).push(t@),
{
    assert(s.push(t).drop_last() =~= s);
}

pub proof fn lemma_lexes_index(s: Seq<Token>)
    ensures
        lexes(s).len() == s.len(),
        forall|i: int| 0 <= i < s.len() ==> #[trigger] lexes(s)[i] == s[i]@,
    decreases s.len(),
{
    if s.len() > 0 {
        lemma_lexes_index(s.drop_last());
    }
}

pub proof fn lemma_lexes_subrange(s: Seq<Token>, i: int, j: int)
    requires
        0 <= i <= j <= s.len(),
    ensures
        lexes(s.subrange(i, j)) == lexes(s).subrange(i, j),
{
    lemma_lexes_index(s);
    lemma_lexes_index(s.subrange(i, j));
    assert(lexes(s.subrange(i, j)) =~= lexes(s).subrange(i, j));
}

pub proof fn lemma_lexes_concat(s: Seq<Token>, t: Seq<Token>)
    ensures
        lexes(s + t) == lexes(s) + lexes(t),
{
    lemma_lexes_index(s);
    lemma_lexes_index(t);
    lemma_lexes_index(s + t);
    assert(lexes(s + t) =~= lexes(s) + lexes(t));
}

/// The token a character stands for where it is structural.
pub open spec fn structural(c: char) -> Option<Lex> {
    if c == '+' {
        Some(Lex::Op(Op::Add))
    } else if c == '-' {
        Some(Lex::Op(Op::Sub))
    } else if c == '*' {
        Some(Lex::Op(Op::Mul))
    } else if c == '/' {
        Some(Lex::Op(Op::Div))
    } else if c == '^' {
        Some(Lex::Op(Op::Pow))
    } else if c == '%' {
        Some(Lex::Op(Op::Mod))
    } else if c == '=' {
        Some(Lex::Rel(Rel::Eq))
    } else if c == '>' {
        Some(Lex::Rel(Rel::Ge))
    } else if c == '<' {
        Some(Lex::Rel(Rel::Le))
    } else if c == '!' {
        Some(Lex::Rel(Rel::Neg))
    } else if c == '(' || c == '[' || c == '{' {
        Some(Lex::Open(c))
    } else if c == ')' || c == ']' || c == '}' {
        Some(Lex::Close(c))
    } else if c == '|' {
        Some(Lex::Pred)
    } else if c == ',' {
        Some(Lex::Comma)
    } else if c == ';' {
        Some(Lex::Term)
    } else {
        None
    }
}

/// The token for `c` where `c` is structural.
pub fn structural_token(c: char) -> (r: Option<Token>)
    ensures
        r is Some == structural(c) is Some,
        r is Some ==> r->Some_0@ == structural(c)->Some_0,
{
    if c == '+' {
        Some(Token::Op(Op::Add))
    } else if c == '-' {
        Some(Token::Op(Op::Sub))
    } else if c == '*' {
        Some(Token::Op(Op::Mul))
    } else if c == '/' {
        Some(Token::Op(Op::Div))
    } else if c == '^' {
        Some(Token::Op(Op::Pow))
    } else if c == '%' {
        Some(Token::Op(Op::Mod))
    } else if c == '=' {
        Some(Token::Rel(Rel::Eq))
    } else if c == '>' {
        Some(Token::Rel(Rel::Ge))
    } else if c == '<' {
        Some(Token::Rel(Rel::Le))
    } else if c == '!' {
        Some(Token::Rel(Rel::Neg))
    } else if c == '(' || c == '[' || c == '{' {
        Some(Token::Open(c))
    } else if c == ')' || c == ']' || c == '}' {
        Some(Token::Close(c))
    } else if c == '|' {
        Some(Token::Pred)
    } else if c == ',' {
        Some(Token::Comma)
    } else if c == ';' {
        Some(Token::Term)
    } else {
        None
    }
}

/// ASCII white space.
pub open spec fn is_space(c: char) -> bool {
    c == ' ' || c == '\t' || c == '\n' || c == '\r' || c == '\x0B' || c == '\x0C'
}

pub open spec fn is_digit(c: char) -> bool {
    '0' <= c <= '9'
}

/// The number of points in `w`.
pub open spec fn dots(w: Seq<char>) -> nat
    decreases w.len(),
{
    if w.len() == 0 {
        0
    } else {
        dots(w.drop_last()) + if w.last() == '.' { 1nat } else { 0nat }
    }
}

/// The value of the digits of `w`, points left out.
pub open spec fn digits_value(w: Seq<char>) -> nat
    decreases w.len(),
{
    if w.len() == 0 {
        0
    } else if w.last() == '.' {
        digits_value(w.drop_last())
    } else {
        (digits_value(w.drop_last()) * 10 + (w.last() as int - '0' as int)) as nat
    }
}

/// The number of characters after the last point of `w` (all of `w` without one).
pub open spec fn trailing(w: Seq<char>) -> nat
    decreases w.len(),
{
    if w.len() == 0 || w.last() == '.' {
        0
    } else {
        trailing(w.drop_last()) + 1
    }
}

/// A decimal numeral: digits and at most one point, with at least one digit.
pub open spec fn numeral(w: Seq<char>) -> bool {
    &&& forall|i: int| 0 <= i < w.len() ==> is_digit(#[trigger] w[i]) || w[i] == '.'
    &&& dots(w) <= 1
    &&& dots(w) < w.len()
}

/// `v / 10^s` with the trailing zero digits of the fraction taken off.
pub open spec fn canonical(v: nat, s: nat) -> Decimal
    decreases s,
{
    if s > 0 && v % 10 == 0 {
        canonical(v / 10, (s - 1) as nat)
    } else {
        Decimal { digits: v as i64, scale: s as u32 }
    }
}

/// The number that `w` writes, where `w` is a numeral whose digits fit in `i64`.
pub open spec fn number(w: Seq<char>) -> Option<Number> {
    if !numeral(w) {
        None
    } else if dots(w) == 0 && digits_value(w) <= i32::MAX {
        Some(Number::Int(digits_value(w) as i32))
    } else if digits_value(w) <= i64::MAX {
        Some(Number::Dec(canonical(digits_value(w), if dots(w) == 0 { 0 } else { trailing(w) })))
    } else {
        None
    }
}

/// The literal token for a trimmed run of characters: `Leaf` when empty, a
/// number when it is a numeral, else a symbol.
pub open spec fn literal(w: Seq<char>) -> Lex {
    if w.len() == 0 {
        Lex::Leaf
    } else {
        match number(w) {
            Some(n) => Lex::Num(n),
            None => Lex::Sym(w),
        }
    }
}

/// The first index in `lo..hi` that is not white space, or `hi`.
pub open spec fn trim_lo(s: Seq<char>, lo: int, hi: int) -> int
    decreases hi - lo,
{
    if lo < hi && is_space(s[lo]) {
        trim_lo(s, lo + 1, hi)
    } else {
        lo
    }
}

/// One past the last index in `lo..hi` that is not white space, or `lo`.
pub open spec fn trim_hi(s: Seq<char>, lo: int, hi: int) -> int
    decreases hi - lo,
{
    if lo < hi && is_space(s[hi - 1]) {
        trim_hi(s, lo, hi - 1)
    } else {
        hi
    }
}

/// The characters of `s[lo..hi]`, white space trimmed at both ends.
pub open spec fn trimmed(s: Seq<char>, lo: int, hi: int) -> Seq<char> {
    let a = trim_lo(s, lo, hi);
    s.subrange(a, trim_hi(s, a, hi))
}

/// The tokens of `s` from index `i` on, where the current literal run began
/// at `start`: each structural character flushes the run as a literal, then
/// stands for itself. A run after the last structural character is dropped.
pub open spec fn scan(s: Seq<char>, start: int, i: int) -> Seq<Lex>
    decreases s.len() - i,
{
    if i >= s.len() {
        Seq::empty()
    } else if structural(s[i]) is Some {
        seq![literal(trimmed(s, start, i)), structural(s[i])->Some_0] + scan(s, i + 1, i + 1)
    } else {
        scan(s, start, i + 1)
    }
}

/// The text the tokenizer reads: the input inside an outermost `(...)`.
pub open spec fn wrapped(text: Seq<char>) -> Seq<char> {
    seq!['('] + text + seq![')']
}


fn is_space_char(c: char) -> (r: bool)
    ensures
        r == is_space(c),
{
    c == ' ' || c == '\t' || c == '\n' || c == '\r' || c == '\x0B' || c == '\x0C'
}

/// The bounds of `s[lo..hi]` with white space trimmed at both ends.
pub(crate) fn trim_range(s: &str, lo: usize, hi: usize) -> (r: (usize, usize))
    requires
        lo <= hi <= s@.len(),
    ensures
        r.0 == trim_lo(s@, lo as int, hi as int),
        r.1 == trim_hi(s@, r.0 as int, hi as int),
        lo <= r.0 <= r.1 <= hi,
{
    let mut a: usize = lo;
    while a < hi && is_space_char(s.get_char(a))
        invariant
            lo <= a <= hi <= s@.len(),
            trim_lo(s@, lo as int, hi as int) == trim_lo(s@, a as int, hi as int),
        decreases hi - a,
    {
        a = a + 1;
    }
    let mut b: usize = hi;
    while a < b && is_space_char(s.get_char(b - 1))
        invariant
            a <= b <= hi <= s@.len(),
            trim_hi(s@, a as int, hi as int) == trim_hi(s@, a as int, b as int),
        decreases b - a,
    {
        b = b - 1;
    }
    (a, b)
}

proof fn lemma_push_last(w: Seq<char>, c: char)
    ensures
        w.push(c).drop_last() == w,
        w.push(c).last() == c,
{
    assert(w.push(c).drop_last() =~= w);
}

proof fn lemma_dots_grow(s: Seq<char>, lo: int, j: int, hi: int)
    requires
        0 <= lo <= j <= hi <= s.len(),
    ensures
        dots(s.subrange(lo, j)) <= dots(s.subrange(lo, hi)),
    decreases hi - j,
{
    if j < hi {
        lemma_dots_grow(s, lo, j, hi - 1);
        assert(s.subrange(lo, hi).drop_last() =~= s.subrange(lo, hi - 1));
    }
}

proof fn lemma_digits_grow(s: Seq<char>, lo: int, j: int, hi: int)
    requires
        0 <= lo <= j <= hi <= s.len(),
        forall|k: int| lo <= k < hi ==> is_digit(#[trigger] s[k]) || s[k] == '.',
    ensures
        digits_value(s.subrange(lo, j)) <= digits_value(s.subrange(lo, hi)),
    decreases hi - j,
{
    if j < hi {
        lemma_digits_grow(s, lo, j, hi - 1);
        assert(s.subrange(lo, hi).drop_last() =~= s.subrange(lo, hi - 1));
        assert(s.subrange(lo, hi).last() == s[hi - 1]);
    }
}

/// `v / 10^s` with trailing zero digits of the fraction removed.
pub(crate) fn canonicalize(v: u64, s: usize) -> (r: Decimal)
    requires
        v <= i64::MAX,
    ensures
        r == canonical(v as nat, s as nat),
{
    let mut x: u64 = v;
    let mut k: usize = s;
    while k > 0 && x % 10 == 0
        invariant
            canonical(v as nat, s as nat) == canonical(x as nat, k as nat),
            x <= v,
        decreases k,
    {
        x = x / 10;
        k = k - 1;
    }
    Decimal { digits: x as i64, scale: k as u32 }
}

/// The number that `s[lo..hi]` writes, if it is a numeral.
fn parse_number(s: &str, lo: usize, hi: usize) -> (r: Option<Number>)
    requires
        lo <= hi <= s@.len(),
    ensures
        r == number(s@.subrange(lo as int, hi as int)),
{
    let ghost full = s@.subrange(lo as int, hi as int);
    let mut v: u64 = 0;
    let mut nd: usize = 0;
    let mut after: usize = 0;
    let mut j: usize = lo;
    while j < hi
        invariant
            lo <= j <= hi <= s@.len(),
            full == s@.subrange(lo as int, hi as int),
            v as nat == digits_value(s@.subrange(lo as int, j as int)),
            nd as nat == dots(s@.subrange(lo as int, j as int)),
            after as nat == trailing(s@.subrange(lo as int, j as int)),
            nd <= 1,
            after <= j - lo,
            forall|k: int| lo <= k < j ==> is_digit(#[trigger] s@[k]) || s@[k] == '.',
        decreases hi - j,
    {
        let c = s.get_char(j);
        let ghost w = s@.subrange(lo as int, j as int);
        proof {
            assert(s@.subrange(lo as int, j + 1) =~= w.push(c));
            lemma_push_last(w, c);
            lemma_dots_grow(s@, lo as int, j + 1, hi as int);
            if numeral(full) {
                assert forall|k: int| lo <= k < hi implies is_digit(#[trigger] s@[k]) || s@[k] == '.' by {
                    assert(full[k - lo] == s@[k]);
                }
                lemma_digits_grow(s@, lo as int, j + 1, hi as int);
            }
        }
        if '0' <= c && c <= '9' {
            let d = (c as u32 - '0' as u32) as u64;
            match v.checked_mul(10) {
                Some(t) => match t.checked_add(d) {
                    Some(u) => {
                        v = u;
                    },
                    None => {
                        return None;
                    },
                },
                None => {
                    return None;
                },
            }
            after = after + 1;
        } else if c == '.' {
            if nd == 1 {
                return None;
            }
            nd = nd + 1;
            after = 0;
        } else {
            assert(full[j - lo] == c);
            return None;
        }
        j = j + 1;
    }
    assert(s@.subrange(lo as int, j as int) == full);
    if nd >= hi - lo {
        return None;
    }
    if nd == 0 && v <= 0x7fff_ffff {
        return Some(Number::Int(v as i32));
    }
    if v > 0x7fff_ffff_ffff_ffff {
        return None;
    }
    let scale: usize = if nd == 0 { 0 } else { after };
    Some(Number::Dec(canonicalize(v, scale)))
}

/// Whether `s` is a numeral.
pub fn is_numeral(s: &str) -> (r: bool)
    ensures
        r == numeral(s@),
{
    let n = s.unicode_len();
    let mut nd: usize = 0;
    let mut j: usize = 0;
    while j < n
        invariant
            j <= n == s@.len(),
            nd as nat == dots(s@.subrange(0, j as int)),
            nd <= 1,
            forall|k: int| 0 <= k < j ==> is_digit(#[trigger] s@[k]) || s@[k] == '.',
        decreases n - j,
    {
        let c = s.get_char(j);
        proof {
            assert(s@.subrange(0, j + 1) =~= s@.subrange(0, j as int).push(c));
            lemma_push_last(s@.subrange(0, j as int), c);
            lemma_dots_grow(s@, 0, j + 1, n as int);
            assert(s@.subrange(0, n as int) =~= s@);
        }
        if c == '.' {
            if nd == 1 {
                return false;
            }
            nd = nd + 1;
        } else if !('0' <= c && c <= '9') {
            return false;
        }
        j = j + 1;
    }
    assert(s@.subrange(0, j as int) =~= s@);
    nd < n
}

/// The literal token for `s[lo..hi]`.
fn literal_token(s: &str, lo: usize, hi: usize) -> (r: Token)
    requires
        lo <= hi <= s@.len(),
    ensures
        r@ == literal(s@.subrange(lo as int, hi as int)),
{
    if lo == hi {
        return Token::Leaf;
    }
    match parse_number(s, lo, hi) {
        Some(n) => Token::Num(n),
        None => Token::Sym(s.substring_char(lo, hi).to_owned()),
    }
}

/// The tokens of `text`, read inside an outermost `(...)`.
pub fn tokenize(text: &str) -> (r: Vec<Token>)
    ensures
        lexes(r@) == scan(wrapped(text@), 0, 0),
{
    let mut w = String::from_str("(");
    w.append(text);
    w.append(")");
    proof {
        reveal_strlit("(");
        reveal_strlit(")");
        assert(w@ =~= wrapped(text@));
    }
    let s = w.as_str();
    let n = s.unicode_len();
    let mut out: Vec<Token> = Vec::new();
    let mut start: usize = 0;
    let mut i: usize = 0;
    while i < n
        invariant
            n == s@.len(),
            s@ == wrapped(text@),
            start <= i <= n,
            lexes(out@) + scan(s@, start as int, i as int) == scan(s@, 0, 0),
        decreases n - i,
    {
        let c = s.get_char(i);
        match structural_token(c) {
            Some(t) => {
                let (lo, hi) = trim_range(s, start, i);
                let lit = literal_token(s, lo, hi);
                proof {
                    lemma_lexes_push(out@, lit);
                    lemma_lexes_push(out@.push(lit), t);
                    assert(lexes(out@.push(lit).push(t)) + scan(s@, i + 1, i + 1) =~= lexes(out@)
                        + scan(s@, start as int, i as int));
                }
                out.push(lit);
                out.push(t);
                start = i + 1;
            },
            None => {},
        }
        i = i + 1;
    }
    assert(lexes(out@) + scan(s@, start as int, i as int) =~= lexes(out@));
    out
}


impl Token {
    /// A deep copy.
    pub fn copy(&self) -> (r: Token)
        ensures
            r@ == self@,
        decreases self,
    {
        match self {
            Token::Sym(s) => Token::Sym(s.clone()),
            Token::Num(n) => Token::Num(*n),
            Token::Op(o) => Token::Op(*o),
            Token::Rel(r) => Token::Rel(*r),
            Token::Open(c) => Token::Open(*c),
            Token::Close(c) => Token::Close(*c),
            Token::Pred => Token::Pred,
            Token::Comma => Token::Comma,
            Token::Leaf => Token::Leaf,
            Token::Term => Token::Term,
            Token::Group(o, c, ts) => Token::Group(*o, *c, copy_tokens(ts)),
        }
    }
}

/// A deep copy of each token.
pub fn copy_tokens(ts: &Vec<Token>) -> (r: Vec<Token>)
    ensures
        lexes(r@) == lexes(ts@),
    decreases ts,
{
    let mut out: Vec<Token> = Vec::new();
    let mut i: usize = 0;
    while i < ts.len()
        invariant
            i <= ts.len(),
            lexes(out@) == lexes(ts@.take(i as int)),
        decreases ts.len() - i,
    {
        proof {
            assert(decreases_to!(*ts => ts[i as int]));
        }
        let c = ts[i].copy();
        proof {
            lemma_lexes_push(out@, c);
            lemma_lexes_push(ts@.take(i as int), ts@[i as int]);
            assert(ts@.take(i as int).push(ts@[i as int]) =~= ts@.take(i + 1));
        }
        out.push(c);
        i = i + 1;
    }
    assert(ts@.take(i as int) =~= ts@);
    out
}

} // verus!
