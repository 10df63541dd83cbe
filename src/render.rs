//! Plain-text and LaTeX symbols of the connectives that join operands.
use vstd::prelude::*;
use crate::expr::{Decimal, Expr, OpType, Rl, Tree, views, lemma_views_index};
use crate::document::Document;
use crate::token::Op;

verus! {

/// A named function, as the connective of a call.
pub struct Fc {
    pub name: String,
}

/// What joins the operands of a node: an operator, a relation or a function.
pub enum Co {
    Op(OpType),
    Rl(Rl),
    Fc(Fc),
}

/// The token operator of an expression operator.
pub open spec fn token_op(o: OpType) -> Op {
    match o {
        OpType::Add => Op::Add,
        OpType::Sub => Op::Sub,
        OpType::Mul => Op::Mul,
        OpType::Div => Op::Div,
        OpType::Pow => Op::Pow,
    }
}

pub open spec fn op_plain(o: Op) -> Seq<char> {
    match o {
        Op::Add => "+"@,
        Op::Sub => "-"@,
        Op::Mul => "*"@,
        Op::Div => "/"@,
        Op::Pow => "^"@,
        Op::Mod => "%"@,
    }
}

pub open spec fn op_latex(o: Op) -> Seq<char> {
    match o {
        Op::Add => "+"@,
        Op::Sub => "-"@,
        Op::Mul => "\\cdot"@,
        Op::Div => "\\div"@,
        Op::Pow => "^"@,
        Op::Mod => "\\bmod"@,
    }
}

pub open spec fn rl_plain(r: Rl) -> Seq<char> {
    match r {
        Rl::Eq => "="@,
        Rl::Lt => "<"@,
        Rl::Gt => ">"@,
        Rl::Leq => "<="@,
        Rl::Geq => ">="@,
        Rl::Neq => "!="@,
    }
}

pub open spec fn rl_latex(r: Rl) -> Seq<char> {
    match r {
        Rl::Eq => "="@,
        Rl::Lt => "<"@,
        Rl::Gt => ">"@,
        Rl::Leq => "\\leq"@,
        Rl::Geq => "\\geq"@,
        Rl::Neq => "\\neq"@,
    }
}

pub open spec fn fc_latex(name: Seq<char>) -> Seq<char> {
    "\\operatorname{"@ + name + "}"@
}

pub open spec fn co_plain(c: Co) -> Seq<char> {
    match c {
        Co::Op(o) => op_plain(token_op(o)),
        Co::Rl(r) => rl_plain(r),
        Co::Fc(f) => f.name@,
    }
}

pub open spec fn co_latex(c: Co) -> Seq<char> {
    match c {
        Co::Op(o) => op_latex(token_op(o)),
        Co::Rl(r) => rl_latex(r),
        Co::Fc(f) => fc_latex(f.name@),
    }
}

impl OpType {
    pub fn token(&self) -> (r: Op)
        ensures
            r == token_op(*self),
    {
        match self {
            OpType::Add => Op::Add,
            OpType::Sub => Op::Sub,
            OpType::Mul => Op::Mul,
            OpType::Div => Op::Div,
            OpType::Pow => Op::Pow,
        }
    }
}

impl Op {
    pub fn render_plain(&self) -> (r: String)
        ensures
            r@ == op_plain(*self),
    {
        match self {
            Op::Add => String::from_str("+"),
            Op::Sub => String::from_str("-"),
            Op::Mul => String::from_str("*"),
            Op::Div => String::from_str("/"),
            Op::Pow => String::from_str("^"),
            Op::Mod => String::from_str("%"),
        }
    }

    pub fn render_latex(&self) -> (r: String)
        ensures
            r@ == op_latex(*self),
    {
        match self {
            Op::Add => String::from_str("+"),
            Op::Sub => String::from_str("-"),
            Op::Mul => String::from_str("\\cdot"),
            Op::Div => String::from_str("\\div"),
            Op::Pow => String::from_str("^"),
            Op::Mod => String::from_str("\\bmod"),
        }
    }
}

impl Rl {
    pub fn render_plain(&self) -> (r: String)
        ensures
            r@ == rl_plain(*self),
    {
        match self {
            Rl::Eq => String::from_str("="),
            Rl::Lt => String::from_str("<"),
            Rl::Gt => String::from_str(">"),
            Rl::Leq => String::from_str("<="),
            Rl::Geq => String::from_str(">="),
            Rl::Neq => String::from_str("!="),
        }
    }

    pub fn render_latex(&self) -> (r: String)
        ensures
            r@ == rl_latex(*self),
    {
        match self {
            Rl::Eq => String::from_str("="),
            Rl::Lt => String::from_str("<"),
            Rl::Gt => String::from_str(">"),
            Rl::Leq => String::from_str("\\leq"),
            Rl::Geq => String::from_str("\\geq"),
            Rl::Neq => String::from_str("\\neq"),
        }
    }
}

impl Fc {
    pub fn render_plain(&self) -> (r: String)
        ensures
            r@ == self.name@,
    {
        self.name.clone()
    }

    pub fn render_latex(&self) -> (r: String)
        ensures
            r@ == fc_latex(self.name@),
    {
        let mut s = String::from_str("\\operatorname{");
        s.append(self.name.as_str());
        s.append("}");
        s
    }
}

impl Co {
    pub fn render_plain(&self) -> (r: String)
        ensures
            r@ == co_plain(*self),
    {
        match self {
            Co::Op(o) => o.token().render_plain(),
            Co::Rl(r) => r.render_plain(),
            Co::Fc(f) => f.render_plain(),
        }
    }

    pub fn render_latex(&self) -> (r: String)
        ensures
            r@ == co_latex(*self),
    {
        match self {
            Co::Op(o) => o.token().render_latex(),
            Co::Rl(r) => r.render_latex(),
            Co::Fc(f) => f.render_latex(),
        }
    }
}

impl Expr {
    /// The connective of an operator, relation or call node.
    pub fn connective(&self) -> (r: Option<Co>)
        ensures
            match *self {
                Expr::Op(_, o, _) => r == Some(Co::Op(o)),
                Expr::Rel(_, q, _) => r == Some(Co::Rl(q)),
                Expr::Fn(n, _) => r is Some && r->Some_0 is Fc && r->Some_0->Fc_0.name@ == n@,
                _ => r is None,
            },
    {
        match self {
            Expr::Op(_, o, _) => Some(Co::Op(*o)),
            Expr::Rel(_, q, _) => Some(Co::Rl(*q)),
            Expr::Fn(n, _) => Some(Co::Fc(Fc { name: n.clone() })),
            _ => None,
        }
    }
}


pub open spec fn digit_char(d: int) -> char {
    ('0' as int + d) as char
}

/// The decimal digits of `n`.
pub open spec fn nat_text(n: nat) -> Seq<char>
    decreases n,
{
    if n < 10 {
        seq![digit_char(n as int)]
    } else {
        nat_text(n / 10).push(digit_char((n % 10) as int))
    }
}

pub open spec fn int_text(v: int) -> Seq<char> {
    if v < 0 {
        seq!['-'] + nat_text((-v) as nat)
    } else {
        nat_text(v as nat)
    }
}

/// `t` with zeros in front up to length `n`.
pub open spec fn zeros_then(t: Seq<char>, n: nat) -> Seq<char>
    decreases n - t.len(),
{
    if t.len() >= n {
        t
    } else {
        zeros_then(seq!['0'] + t, n)
    }
}

/// `digits / 10^scale` written out, with `scale` digits after the point.
pub open spec fn decimal_text(d: Decimal) -> Seq<char> {
    let t = zeros_then(nat_text(if d.digits < 0 { (-d.digits) as nat } else { d.digits as nat }), (d.scale + 1) as nat);
    let k = t.len() - d.scale;
    let body = if d.scale == 0 { t } else { t.take(k) + seq!['.'] + t.skip(k) };
    if d.digits < 0 { seq!['-'] + body } else { body }
}

pub open spec fn is_atom(t: Tree) -> bool {
    t is Int || t is Flt || t is Var
}

/// The plain-text form of an expression: a variable in braces (`{x}`), a
/// call as `\f(a, b)`, `a + b` and `a - b` with spaces, `a*b`, `a/b`, `a^b`
/// without, compound operands of those in parentheses, a `Where` as
/// `a | x = v`, and a `Leaf` as a backquote.
pub open spec fn plain(t: Tree) -> Seq<char>
    decreases t, 0nat,
{
    match t {
        Tree::Int(i) => int_text(i as int),
        Tree::Flt(d) => decimal_text(d),
        Tree::Var(s) => "{"@ + s + "}"@,
        Tree::Rel(a, r, b) => plain(*a) + " "@ + rl_plain(r) + " "@ + plain(*b),
        Tree::Fn(n, args) => "\\"@ + n + "("@ + join(args) + ")"@,
        Tree::Op(a, o, b) => if o == OpType::Add || o == OpType::Sub {
            plain(*a) + " "@ + op_plain(token_op(o)) + " "@ + plain(*b)
        } else {
            operand(*a) + op_plain(token_op(o)) + operand(*b)
        },
        Tree::Where(a, s, b) => plain(*a) + " | "@ + s + " = "@ + plain(*b),
        Tree::Leaf => "`"@,
    }
}

pub open spec fn operand(t: Tree) -> Seq<char>
    decreases t, 1nat,
{
    if is_atom(t) { plain(t) } else { "("@ + plain(t) + ")"@ }
}

/// The arguments of a call, separated by `, `.
pub open spec fn join(args: Seq<Tree>) -> Seq<char>
    decreases args, 0nat,
{
    if args.len() == 0 {
        Seq::empty()
    } else if args.len() == 1 {
        plain(args[0])
    } else {
        join(args.drop_last()) + ", "@ + plain(args.last())
    }
}

fn digit_str(d: u64) -> (r: String)
    requires
        d < 10,
    ensures
        r@ == seq![digit_char(d as int)],
{
    proof {
        reveal_strlit("0");
        reveal_strlit("1");
        reveal_strlit("2");
        reveal_strlit("3");
        reveal_strlit("4");
        reveal_strlit("5");
        reveal_strlit("6");
        reveal_strlit("7");
        reveal_strlit("8");
        reveal_strlit("9");
    }
    let r = if d == 0 {
        String::from_str("0")
    } else if d == 1 {
        String::from_str("1")
    } else if d == 2 {
        String::from_str("2")
    } else if d == 3 {
        String::from_str("3")
    } else if d == 4 {
        String::from_str("4")
    } else if d == 5 {
        String::from_str("5")
    } else if d == 6 {
        String::from_str("6")
    } else if d == 7 {
        String::from_str("7")
    } else if d == 8 {
        String::from_str("8")
    } else {
        String::from_str("9")
    };
    assert(r@ =~= seq![digit_char(d as int)]);
    r
}

/// The decimal digits of `n`.
pub fn nat_string(n: u64) -> (r: String)
    ensures
        r@ == nat_text(n as nat),
    decreases n,
{
    if n < 10 {
        digit_str(n)
    } else {
        let mut s = nat_string(n / 10);
        let d = digit_str(n % 10);
        s.append(d.as_str());
        assert(s@ =~= nat_text((n / 10) as nat).push(digit_char((n % 10) as int)));
        s
    }
}

fn int_string(v: i32) -> (r: String)
    ensures
        r@ == int_text(v as int),
{
    if v < 0 {
        let m: u64 = (-(v as i64)) as u64;
        let mut s = String::from_str("-");
        let t = nat_string(m);
        s.append(t.as_str());
        proof {
            reveal_strlit("-");
        }
        assert(s@ =~= seq!['-'] + nat_text((-v) as nat));
        s
    } else {
        nat_string(v as u64)
    }
}

fn decimal_string(d: Decimal) -> (r: String)
    ensures
        r@ == decimal_text(d),
{
    let m: u64 = if d.digits < 0 { ((-(d.digits + 1)) as u64) + 1 } else { d.digits as u64 };
    let mut t = nat_string(m);
    let goal: u64 = d.scale as u64 + 1;
    let ghost n = (d.scale + 1) as nat;
    while (t.unicode_len() as u64) < goal
        invariant
            goal == n,
            zeros_then(t@, n) == zeros_then(nat_text(m as nat), n),
        decreases n - t@.len(),
    {
        proof {
            reveal_strlit("0");
        }
        let mut z = String::from_str("0");
        z.append(t.as_str());
        assert(z@ =~= seq!['0'] + t@);
        t = z;
    }
    assert(zeros_then(t@, n) == t@);
    let len = t.unicode_len();
    let k: usize = len - d.scale as usize;
    let mut body: String;
    if d.scale == 0 {
        body = t;
    } else {
        let s = t.as_str();
        body = s.substring_char(0, k).to_owned();
        body.append(".");
        body.append(s.substring_char(k, len));
        proof {
            reveal_strlit(".");
        }
        assert(body@ =~= t@.take(k as int) + seq!['.'] + t@.skip(k as int));
    }
    if d.digits < 0 {
        let mut r = String::from_str("-");
        r.append(body.as_str());
        proof {
            reveal_strlit("-");
        }
        assert(r@ =~= seq!['-'] + body@);
        r
    } else {
        body
    }
}

fn is_atom_expr(e: &Expr) -> (r: bool)
    ensures
        r == is_atom(e@),
{
    match e {
        Expr::Int(_) => true,
        Expr::Flt(_) => true,
        Expr::Var(_) => true,
        _ => false,
    }
}

impl Expr {
    /// The plain-text form of the expression.
    pub fn render_plain(&self) -> (r: String)
        ensures
            r@ == plain(self@),
        decreases self, 0nat,
    {
        match self {
            Expr::Int(i) => int_string(*i),
            Expr::Flt(d) => decimal_string(*d),
            Expr::Var(x) => {
                let mut s = String::from_str("{");
                s.append(x.as_str());
                s.append("}");
                s
            },
            Expr::Rel(a, q, b) => {
                let mut s = a.render_plain();
                s.append(" ");
                s.append(q.render_plain().as_str());
                s.append(" ");
                s.append(b.render_plain().as_str());
                s
            },
            Expr::Fn(n, args) => {
                let mut s = String::from_str("\\");
                s.append(n.as_str());
                s.append("(");
                let ghost head = s@;
                proof {
                    lemma_views_index(args@);
                }
                let mut i: usize = 0;
                while i < args.len()
                    invariant
                        i <= args.len(),
                        s@ == head + join(views(args@).take(i as int)),
                        views(args@).len() == args.len(),
                        forall|j: int| 0 <= j < args.len() ==> #[trigger] views(args@)[j] == args@[j]@,
                        decreases_to!(*self => *args),
                    decreases args.len() - i,
                {
                    proof {
                        assert(decreases_to!(*args => args[i as int]));
                        let vs = views(args@);
                        assert(vs.take(i + 1).drop_last() =~= vs.take(i as int));
                        assert(vs.take(i + 1).last() == vs[i as int]);
                        if i == 0 {
                            assert(vs.take(1)[0] == vs[0]);
                        }
                    }
                    if i > 0 {
                        s.append(", ");
                    }
                    let item = args[i].render_plain();
                    s.append(item.as_str());
                    i = i + 1;
                }
                s.append(")");
                assert(views(args@).take(i as int) =~= views(args@));
                s
            },
            Expr::Op(a, o, b) => {
                if *o == OpType::Add || *o == OpType::Sub {
                    let mut s = a.render_plain();
                    s.append(" ");
                    s.append(o.token().render_plain().as_str());
                    s.append(" ");
                    s.append(b.render_plain().as_str());
                    s
                } else {
                    let mut s = a.render_operand();
                    s.append(o.token().render_plain().as_str());
                    s.append(b.render_operand().as_str());
                    s
                }
            },
            Expr::Where(a, x, b) => {
                let mut s = a.render_plain();
                s.append(" | ");
                s.append(x.as_str());
                s.append(" = ");
                s.append(b.render_plain().as_str());
                s
            },
            Expr::Leaf => String::from_str("`"),
        }
    }

    fn render_operand(&self) -> (r: String)
        ensures
            r@ == operand(self@),
        decreases self, 1nat,
    {
        if is_atom_expr(self) {
            self.render_plain()
        } else {
            let mut s = String::from_str("(");
            s.append(self.render_plain().as_str());
            s.append(")");
            s
        }
    }
}


/// One line per statement, each `> ` and its plain text.
pub open spec fn lines(ts: Seq<Tree>) -> Seq<char>
    decreases ts.len(),
{
    if ts.len() == 0 {
        Seq::empty()
    } else {
        lines(ts.drop_last()) + "> "@ + plain(ts.last()) + "\n"@
    }
}

impl Document {
    /// `Document:` and a line per statement.
    pub fn render_plain(&self) -> (r: String)
        ensures
            r@ == "Document:\n"@ + lines(views(self.contents@)),
    {
        let mut s = String::from_str("Document:\n");
        proof {
            lemma_views_index(self.contents@);
        }
        let mut i: usize = 0;
        while i < self.contents.len()
            invariant
                i <= self.contents.len(),
                s@ == "Document:\n"@ + lines(views(self.contents@).take(i as int)),
                views(self.contents@).len() == self.contents.len(),
                forall|j: int|
                    0 <= j < self.contents.len() ==> #[trigger] views(self.contents@)[j]
                        == self.contents@[j]@,
            decreases self.contents.len() - i,
        {
            proof {
                let vs = views(self.contents@);
                assert(vs.take(i + 1).drop_last() =~= vs.take(i as int));
                assert(vs.take(i + 1).last() == vs[i as int]);
            }
            s.append("> ");
            let line = self.contents[i].render_plain();
            s.append(line.as_str());
            s.append("\n");
            i = i + 1;
        }
        assert(views(self.contents@).take(i as int) =~= views(self.contents@));
        s
    }
}

} // verus!
