//! A document: a sequence of statements, one expression each.
use vstd::prelude::*;
use crate::expr::{Expr, Tree, views, lemma_views_push};
use crate::normalize::{normal_form, normalized, REWRITE_BUDGET};
use crate::parse::{Failure, Log, parse, parsed, reports};

verus! {

pub struct Document {
    pub contents: Vec<Expr>,
}

/// Whether `c` ends a statement.
pub open spec fn is_statement_end(c: char) -> bool {
    c == '\n' || c == ';'
}

/// The statements of `s` from index `i` on, the current one having begun at
/// `start`: every newline or `;` ends one, and the text after the last ends
/// the last (so an empty text is one empty statement).
pub open spec fn statements_from(s: Seq<char>, start: int, i: int) -> Seq<Seq<char>>
    decreases s.len() - i,
{
    if i >= s.len() {
        seq![s.subrange(start, s.len() as int)]
    } else if is_statement_end(s[i]) {
        seq![s.subrange(start, i)] + statements_from(s, i + 1, i + 1)
    } else {
        statements_from(s, start, i + 1)
    }
}

pub open spec fn statements(s: Seq<char>) -> Seq<Seq<char>> {
    statements_from(s, 0, 0)
}

/// Parsing each statement in turn; the first failure is the result.
pub open spec fn parse_all(ss: Seq<Seq<char>>) -> Result<Seq<Tree>, Failure>
    decreases ss.len(),
{
    if ss.len() == 0 {
        Ok(Seq::empty())
    } else {
        match parse_all(ss.drop_last()) {
            Err(f) => Err(f),
            Ok(ts) => match parsed(ss.last()) {
                Err(f) => Err(f),
                Ok(t) => Ok(ts.push(t)),
            },
        }
    }
}

proof fn lemma_parse_all_err(ss: Seq<Seq<char>>, i: int)
    requires
        0 <= i <= ss.len(),
        parse_all(ss.take(i)) is Err,
    ensures
        parse_all(ss) == parse_all(ss.take(i)),
    decreases ss.len() - i,
{
    if i < ss.len() {
        assert(ss.take(i + 1).drop_last() =~= ss.take(i));
        lemma_parse_all_err(ss, i + 1);
    } else {
        assert(ss.take(i) =~= ss);
    }
}

impl Default for Document {
    fn default() -> (r: Document)
        ensures
            r.contents@.len() == 0,
    {
        Document { contents: Vec::new() }
    }
}

impl Document {
    pub fn new(contents: Vec<Expr>) -> (r: Document)
        ensures
            r.contents == contents,
    {
        Document { contents }
    }

    /// Normalizes every statement.
    pub fn normalize(&mut self)
        ensures
            final(self).contents.len() == old(self).contents.len(),
            forall|i: int|
                0 <= i < old(self).contents.len() ==> #[trigger] final(self).contents@[i]@
                    == normal_form(old(self).contents@[i]@),
    {
        let mut out: Vec<Expr> = Vec::new();
        let mut i: usize = 0;
        while i < self.contents.len()
            invariant
                i <= self.contents.len(),
                out.len() == i,
                forall|j: int| 0 <= j < i ==> #[trigger] out@[j]@ == normal_form(self.contents@[j]@),
            decreases self.contents.len() - i,
        {
            let e = normalized(&self.contents[i], REWRITE_BUDGET);
            out.push(e);
            i = i + 1;
        }
        self.contents = out;
    }

    /// Parses a text of statements separated by newlines or `;`. On failure
    /// the log is that of the first statement that fails.
    pub fn from_str(value: &str) -> (r: Result<Document, Vec<Log>>)
        ensures
            match parse_all(statements(value@)) {
                Ok(ts) => r is Ok && views(r->Ok_0.contents@) == ts,
                Err(f) => r is Err && r->Err_0@.len() > 0 && reports(r->Err_0@.last(), f),
            },
    {
        let n = value.unicode_len();
        let ghost ss = statements(value@);
        let mut out: Vec<Expr> = Vec::new();
        let mut start: usize = 0;
        let mut i: usize = 0;
        assert(ss.take(0) =~= Seq::<Seq<char>>::empty());
        assert(ss.subrange(0, ss.len() as int) =~= ss);
        while i < n
            invariant
                n == value@.len(),
                start <= i <= n,
                ss == statements(value@),
                out.len() <= ss.len(),
                parse_all(ss.take(out.len() as int)) == Ok::<Seq<Tree>, Failure>(views(out@)),
                ss.subrange(out.len() as int, ss.len() as int) == statements_from(value@, start as int, i as int),
            decreases n - i,
        {
            let c = value.get_char(i);
            if c == '\n' || c == ';' {
                let k = out.len();
                proof {
                    let rest = ss.subrange(k as int, ss.len() as int);
                    assert(rest[0] == value@.subrange(start as int, i as int));
                    assert(rest.subrange(1, rest.len() as int) =~= ss.subrange(k + 1, ss.len() as int));
                    assert(ss.take(k + 1).drop_last() =~= ss.take(k as int));
                    assert(ss.take(k + 1).last() == ss[k as int]);
                }
                match parse(value.substring_char(start, i)) {
                    Ok(e) => {
                        proof {
                            lemma_views_push(out@, e);
                        }
                        out.push(e);
                    },
                    Err(log) => {
                        proof {
                            lemma_parse_all_err(ss, k + 1);
                        }
                        return Err(log);
                    },
                }
                start = i + 1;
            }
            i = i + 1;
        }
        let k = out.len();
        proof {
            let rest = ss.subrange(k as int, ss.len() as int);
            assert(rest =~= seq![value@.subrange(start as int, n as int)]);
            assert(k + 1 == ss.len());
            assert(ss.take(k + 1) =~= ss);
            assert(ss.drop_last() =~= ss.take(k as int));
            assert(ss.last() == rest[0]);
        }
        match parse(value.substring_char(start, n)) {
            Ok(e) => {
                proof {
                    lemma_views_push(out@, e);
                }
                out.push(e);
                Ok(Document { contents: out })
            },
            Err(log) => Err(log),
        }
    }
}

} // verus!
