//! The parse operation: text to expression tree, or a diagnostic log.
use vstd::prelude::*;
use crate::construct::{SyntaxError, construct, construct_tokens};
use crate::expr::{Expr, Tree};
use crate::group::{grouped, group};
use crate::separate::{separated, prune, separate, prune_tokens};
use crate::token::{
    Token, Lex, lexes, lemma_lexes_index, scan, wrapped, trimmed, numeral, is_numeral, tokenize,
    copy_tokens, trim_range,
};

verus! {

/// Why a text has no expression.
#[derive(Clone, Copy, Debug, PartialEq, Eq, Structural)]
pub enum Failure {
    /// A bracket with no partner; the character is the bracket's.
    Delimiter(char),
    Syntax(SyntaxError),
    /// A numeral whose digits do not fit in an `i64`.
    OversizedNumeral,
}

/// One entry of the diagnostic log of a failed parse.
#[derive(Debug, PartialEq)]
pub enum Log {
    /// The text as received.
    Received(String),
    /// The tokens after one stage of the pipeline.
    Tokenized(Vec<Token>),
    MismatchedDelimiter(char),
    Conversion(SyntaxError),
    /// The numeral that is too long to hold.
    OversizedNumeral(String),
}

/// The tokens of a text: trimmed, wrapped in `(...)`, and scanned.
pub open spec fn tokens_of(text: Seq<char>) -> Seq<Lex> {
    scan(wrapped(trimmed(text, 0, text.len() as int)), 0, 0)
}

/// The whole pipeline: tokenize, group brackets, separate by precedence,
/// drop blank tokens, build the expression.
/// Whether a symbol among `ts` is written as a numeral: its digits were too
/// many to hold as a number.
pub open spec fn oversized(ts: Seq<Lex>) -> bool {
    exists|i: int| 0 <= i < ts.len() && #[trigger] ts[i] is Sym && numeral(ts[i]->Sym_0)
}

pub open spec fn parsed(text: Seq<char>) -> Result<Tree, Failure> {
    if oversized(tokens_of(text)) {
        Err(Failure::OversizedNumeral)
    } else {
        pipeline(text)
    }
}

/// Grouping, separation, pruning and construction of the tokens of `text`.
pub open spec fn pipeline(text: Seq<char>) -> Result<Tree, Failure> {
    match grouped(tokens_of(text)) {
        Err(c) => Err(Failure::Delimiter(c)),
        Ok(g) => match construct(prune(separated(g))) {
            Ok(t) => Ok(t),
            Err(e) => Err(Failure::Syntax(e)),
        },
    }
}

/// Whether a log entry reports the failure `f`.
pub open spec fn reports(entry: Log, f: Failure) -> bool {
    match f {
        Failure::Delimiter(c) => entry == Log::MismatchedDelimiter(c),
        Failure::Syntax(e) => entry == Log::Conversion(e),
        Failure::OversizedNumeral => entry is OversizedNumeral,
    }
}

/// `log` with `last` appended.
fn ending(log: Vec<Log>, last: Log) -> (r: Vec<Log>)
    ensures
        r@.len() > 0,
        r@.last() == last,
{
    let mut log = log;
    log.push(last);
    log
}

/// Parses one statement. On failure the log holds the text, the tokens after
/// each stage reached, and, last, the reason.
pub fn parse(text: &str) -> (r: Result<Expr, Vec<Log>>)
    ensures
        match parsed(text@) {
            Ok(t) => r is Ok && r->Ok_0@ == t,
            Err(f) => r is Err && r->Err_0@.len() > 0 && reports(r->Err_0@.last(), f),
        },
{
    let n = text.unicode_len();
    let (lo, hi) = trim_range(text, 0, n);
    let body = text.substring_char(lo, hi);
    let tokens = tokenize(body);
    assert(body@ == trimmed(text@, 0, text@.len() as int));
    assert(lexes(tokens@) == tokens_of(text@));
    let mut log: Vec<Log> = Vec::new();
    log.push(Log::Received(text.to_owned()));
    log.push(Log::Tokenized(copy_tokens(&tokens)));
    proof {
        lemma_lexes_index(tokens@);
    }
    let mut i: usize = 0;
    while i < tokens.len()
        invariant
            i <= tokens.len(),
            lexes(tokens@) == tokens_of(text@),
            lexes(tokens@).len() == tokens.len(),
            forall|j: int| 0 <= j < tokens.len() ==> #[trigger] lexes(tokens@)[j] == tokens@[j]@,
            forall|j: int|
                0 <= j < i ==> !(#[trigger] lexes(tokens@)[j] is Sym && numeral(lexes(tokens@)[j]->Sym_0)),
        decreases tokens.len() - i,
    {
        match &tokens[i] {
            Token::Sym(s) => {
                if is_numeral(s.as_str()) {
                    assert(lexes(tokens@)[i as int] is Sym);
                    return Err(ending(log, Log::OversizedNumeral(s.clone())));
                }
            },
            _ => {},
        }
        i = i + 1;
    }
    match group(&tokens) {
        Err(c) => {
            Err(ending(log, Log::MismatchedDelimiter(c)))
        },
        Ok(g) => {
            log.push(Log::Tokenized(copy_tokens(&g)));
            let sep = separate(g);
            log.push(Log::Tokenized(copy_tokens(&sep)));
            let pruned = prune_tokens(&sep);
            assert(lexes(pruned@) == prune(separated(grouped(tokens_of(text@))->Ok_0)));
            match construct_tokens(&pruned) {
                Ok(e) => Ok(e),
                Err(err) => {
                    Err(ending(log, Log::Conversion(err)))
                },
            }
        },
    }
}

} // verus!
