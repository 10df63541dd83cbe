use calculator::construct::{construct_tokens, SyntaxError};
use calculator::document::Document;
use calculator::expr::{Decimal, Expr, OpType, Rl};
use calculator::parse::{parse, Log};
use calculator::render::{Co, Fc};
use calculator::token::{tokenize, Number, Op, Rel, Token};

fn num(v: i32) -> Expr {
    Expr::Int(v)
}

fn var(s: &str) -> Expr {
    Expr::Var(s.to_string())
}

fn op(a: Expr, o: OpType, b: Expr) -> Expr {
    Expr::op(a, o, b)
}

fn parsed_normal(text: &str) -> Expr {
    let mut e = parse(text).unwrap();
    e.normalize();
    e
}

fn failure(text: &str) -> Log {
    let log = parse(text).unwrap_err();
    assert!(log.len() > 0);
    assert_eq!(log[0], Log::Received(text.to_string()));
    log.into_iter().last().unwrap()
}

#[test]
fn start() {
    assert_eq!(parse("").unwrap(), Expr::Leaf);
    assert_eq!(parse("1").unwrap(), num(1));
    assert_eq!(parse("1.1").unwrap(), Expr::Flt(Decimal { digits: 11, scale: 1 }));
    assert_eq!(failure("-1.1"), Log::Conversion(SyntaxError::UnarySign));
    assert_eq!(parse("x").unwrap(), var("x"));
    assert_eq!(parsed_normal("1+1"), num(2));
    assert_eq!(
        parsed_normal("1+1.1"),
        op(num(1), OpType::Add, Expr::Flt(Decimal { digits: 11, scale: 1 }))
    );
    assert_eq!(parsed_normal("1+x"), op(num(1), OpType::Add, var("x")));
    assert_eq!(parsed_normal("1-1"), num(0));
    assert_eq!(parse("1+1+1-1*2").unwrap(), op(
        num(1),
        OpType::Add,
        op(num(1), OpType::Add, op(num(1), OpType::Sub, op(num(1), OpType::Mul, num(2)))),
    ));
    assert_eq!(parsed_normal("1+1+1-1*2"), num(1));
    assert!(parse("1.0+2.43").is_ok());
    assert_eq!(parsed_normal("2*(3+1*x)"), op(num(2), OpType::Mul, op(num(3), OpType::Add, var("x"))));
    assert_eq!(parsed_normal("x*(((x^2)/x)^1)"), op(var("x"), OpType::Pow, num(2)));
    assert!(parse("x(((x^2)/x)^1)4").is_ok());
    assert_eq!(parse("ln(0)").unwrap(), op(var("ln"), OpType::Mul, num(0)));
    assert_eq!(failure("+ 1 2"), Log::Conversion(SyntaxError::UnarySign));
    assert_eq!(parsed_normal("x*((6/14)^2) | x = 5 + 7"), op(num(108), OpType::Div, num(49)));
    assert_eq!(failure("[1,2]*x*((6/14)^2) | x = 5 + 7*y | y = 2"), Log::Conversion(SyntaxError::InvalidTrio));
    let f = parse("f(2*((3/x)^1), y*((5/10)^1), z*((3/z)^1), w)").unwrap();
    match f {
        Expr::Fn(name, args) => {
            assert_eq!(name, "f");
            assert_eq!(args.len(), 4);
            assert_eq!(args[3], var("w"));
        },
        _ => panic!("not a call"),
    }
}

#[test]
fn parser() {
    let input = "
        1+1
        1+1-1*2
        1.0+2.43
        2*(3+1*x)
        x*(((x^2)/x)^1)
        x(((x^2)/x)^1)4
        f(2*((3/x)^1), y*((5/10)^1), z*((3/z)^1))
        x*((6/14)^2) | x = 5 + 7
        ";
    let mut doc = Document::from_str(input).unwrap();
    assert_eq!(doc.contents.len(), 10);
    doc.normalize();
    assert_eq!(doc.contents[0], Expr::Leaf);
    assert_eq!(doc.contents[1], num(2));
    assert_eq!(doc.contents[8], op(num(108), OpType::Div, num(49)));
    assert_eq!(doc.contents[9], Expr::Leaf);
}

#[test]
fn parse_then_normalize_literals() {
    assert_eq!(parsed_normal("1+1"), num(2));
    let once = parsed_normal("2*(3+1*x)");
    let mut twice = once.copy();
    twice.normalize();
    assert_eq!(once, twice);
}

#[test]
fn malformed_input_is_rejected() {
    assert!(parse("+1 2").is_err());
    assert_eq!(failure("+1 2"), Log::Conversion(SyntaxError::UnarySign));
}

#[test]
fn syntax_errors() {
    assert_eq!(failure("a(+)"), Log::Conversion(SyntaxError::UnexpectedOperator));
    assert_eq!(failure("a(<)"), Log::Conversion(SyntaxError::UnexpectedRelation));
    assert_eq!(failure("a(|)"), Log::Conversion(SyntaxError::UnexpectedPredicate));
    assert_eq!(failure("a(,)"), Log::Conversion(SyntaxError::UnexpectedComma));
    assert_eq!(failure("a(;)"), Log::Conversion(SyntaxError::UnexpectedTerminator));
    assert_eq!(failure("x+"), Log::Conversion(SyntaxError::InvalidPair));
    assert_eq!(failure("x%y"), Log::Conversion(SyntaxError::InvalidTrio));
    assert_eq!(failure("(a)(b)(c)(d)"), Log::Conversion(SyntaxError::TooManyTokens));
    assert_eq!(failure("x | y"), Log::Conversion(SyntaxError::InvalidWhere));
    assert_eq!(construct_tokens(&vec![Token::Open('(')]), Err(SyntaxError::UnexpectedBracket));
}

#[test]
fn mismatched_delimiters() {
    assert_eq!(failure("(x"), Log::MismatchedDelimiter('('));
    assert_eq!(failure("x)"), Log::MismatchedDelimiter(')'));
    assert_eq!(failure("[x"), Log::MismatchedDelimiter('['));
}

#[test]
fn relations_and_clauses() {
    assert_eq!(parse("x = 2").unwrap(), Expr::rel(var("x"), Rl::Eq, num(2)));
    assert_eq!(parse("x < 2").unwrap(), Expr::rel(var("x"), Rl::Lt, num(2)));
    assert_eq!(parse("x > 2").unwrap(), Expr::rel(var("x"), Rl::Gt, num(2)));
    assert_eq!(parsed_normal("x*y | x = 2 | y = 3"), num(6));
    assert_eq!(parse("f(x, y)").unwrap(), Expr::Fn("f".to_string(), vec![var("x"), var("y")]));
    assert_eq!(parse("2x").unwrap(), var("2x"));
    assert_eq!(parse("2(x)").unwrap(), op(num(2), OpType::Mul, var("x")));
}

#[test]
fn subtraction_nests_to_the_right() {
    assert_eq!(parse("a-b-c").unwrap(), op(var("a"), OpType::Sub, op(var("b"), OpType::Sub, var("c"))));
}

#[test]
fn tokenizer() {
    assert_eq!(tokenize("1+x"), vec![
        Token::Leaf,
        Token::Open('('),
        Token::Num(Number::Int(1)),
        Token::Op(Op::Add),
        Token::Sym("x".to_string()),
        Token::Close(')'),
    ]);
    assert_eq!(tokenize(" 2.50 <y"), vec![
        Token::Leaf,
        Token::Open('('),
        Token::Num(Number::Dec(Decimal { digits: 25, scale: 1 })),
        Token::Rel(Rel::Le),
        Token::Sym("y".to_string()),
        Token::Close(')'),
    ]);
    assert_eq!(tokenize("3000000000")[2], Token::Num(Number::Dec(Decimal { digits: 3000000000, scale: 0 })));
    assert_eq!(tokenize("1.2.3")[2], Token::Sym("1.2.3".to_string()));
    assert_eq!(tokenize(".")[2], Token::Sym(".".to_string()));
}

#[test]
fn ex() {
    assert_eq!(Op::Mul.render_plain(), "*");
    assert_eq!(Op::Mod.render_latex(), "\\bmod");
    assert_eq!(Rl::Leq.render_plain(), "<=");
    assert_eq!(Rl::Neq.render_latex(), "\\neq");
    let f = Fc { name: "sin".to_string() };
    assert_eq!(f.render_plain(), "sin");
    assert_eq!(f.render_latex(), "\\operatorname{sin}");
    assert_eq!(Co::Op(OpType::Div).render_plain(), "/");
    assert_eq!(Co::Rl(Rl::Geq).render_latex(), "\\geq");
    assert_eq!(Co::Fc(Fc { name: "f".to_string() }).render_plain(), "f");
    match parse("g(x, 1)").unwrap().connective() {
        Some(Co::Fc(f)) => assert_eq!(f.name, "g"),
        _ => panic!("not a call"),
    }
}

#[test]
fn rendering() {
    let e = parse("x*((6/14)^2) | x = 5 + 7").unwrap();
    assert_eq!(e.render_plain(), "{x}*((6/14)^2) | x = 5 + 7");
    assert_eq!(parse("f(x, 1) = y - 2").unwrap().render_plain(), "\\f({x}, 1) = {y} - 2");
    assert_eq!(op(num(2), OpType::Mul, var("x")).render_plain(), "2*{x}");
    assert_eq!(op(var("x"), OpType::Add, num(1)).render_plain(), "{x} + 1");
    assert_eq!(op(op(var("x"), OpType::Add, num(1)), OpType::Mul, num(2)).render_plain(), "({x} + 1)*2");
    assert_eq!(Expr::rel(var("x"), Rl::Eq, num(1)).render_plain(), "{x} = 1");
    let w = Expr::Where(Box::new(var("x")), "x".to_string(), Box::new(num(5)));
    assert_eq!(w.render_plain(), "{x} | x = 5");
    assert_eq!(Expr::Flt(Decimal { digits: -305, scale: 1 }).render_plain(), "-30.5");
    assert_eq!(Expr::Flt(Decimal { digits: 5, scale: 3 }).render_plain(), "0.005");
    assert_eq!(Expr::Flt(Decimal { digits: 12, scale: 0 }).render_plain(), "12");
    assert_eq!(num(-4).render_plain(), "-4");
    assert_eq!(num(i32::MIN).render_plain(), "-2147483648");
    assert_eq!(Expr::Leaf.render_plain(), "`");
    let doc = Document::new(vec![num(2), var("x")]);
    assert_eq!(doc.render_plain(), "Document:\n> 2\n> {x}\n");
}

#[test]
fn oversized_numerals_are_refused() {
    let text = "123456789012345678901234 + 1";
    assert_eq!(failure(text), Log::OversizedNumeral("123456789012345678901234".to_string()));
    assert!(parse("9223372036854775807.5").is_err());
    assert_eq!(parse("922337203685477580.7").unwrap(), Expr::Flt(Decimal { digits: 9223372036854775807, scale: 1 }));
}

#[test]
fn decimal_literals_fold_exactly() {
    assert_eq!(parsed_normal("1.0+2.43"), Expr::Flt(Decimal { digits: 343, scale: 2 }));
    assert_eq!(parsed_normal("0.5*0.2"), Expr::Flt(Decimal { digits: 1, scale: 1 }));
    assert_eq!(parsed_normal("1.5-1.5"), Expr::Flt(Decimal { digits: 0, scale: 0 }));
    assert_eq!(parsed_normal("0.1-2.25"), Expr::Flt(Decimal { digits: -215, scale: 2 }));
    assert_eq!(
        parsed_normal("2.5/0.5"),
        op(Expr::Flt(Decimal { digits: 25, scale: 1 }), OpType::Div, Expr::Flt(Decimal { digits: 5, scale: 1 }))
    );
}

#[test]
fn distributed_product_evaluates_as_six_plus_two_x() {
    let r = parsed_normal("2*(3+1*x)");
    for k in -5..6 {
        let mut e = r.copy();
        e.and_where("x", &num(k));
        e.normalize();
        assert_eq!(e, num(6 + 2 * k));
    }
}
