use calculator::document::Document;
use calculator::expr::{Decimal, Expr, OpType, Rl};

fn num(v: i32) -> Expr {
    Expr::Int(v)
}

fn var(s: &str) -> Expr {
    Expr::Var(s.to_string())
}

fn op(a: Expr, o: OpType, b: Expr) -> Expr {
    Expr::op(a, o, b)
}

fn norm(e: Expr) -> Expr {
    let mut e = e;
    e.normalize();
    e
}

#[test]
fn fraction_reduction() {
    assert_eq!(norm(op(num(6), OpType::Div, num(14))), op(num(3), OpType::Div, num(7)));
    assert_eq!(norm(op(num(7), OpType::Div, num(14))), op(num(1), OpType::Div, num(2)));
    assert_eq!(norm(op(num(-6), OpType::Div, num(14))), op(num(-3), OpType::Div, num(7)));
    assert_eq!(norm(op(num(3), OpType::Div, num(7))), op(num(3), OpType::Div, num(7)));
}

#[test]
fn identity_laws() {
    assert_eq!(norm(op(var("x"), OpType::Mul, num(1))), var("x"));
    assert_eq!(norm(op(var("x"), OpType::Mul, num(0))), num(0));
    assert_eq!(norm(op(var("x"), OpType::Pow, num(0))), num(1));
    assert_eq!(norm(op(var("x"), OpType::Pow, num(1))), var("x"));
    assert_eq!(norm(op(var("x"), OpType::Div, var("x"))), num(1));
    assert_eq!(norm(op(num(1), OpType::Mul, var("x"))), var("x"));
    assert_eq!(norm(op(var("x"), OpType::Div, num(1))), var("x"));
    assert_eq!(norm(op(num(0), OpType::Div, var("x"))), num(0));
    let one = Expr::Flt(Decimal { digits: 1, scale: 0 });
    assert_eq!(norm(op(var("x"), OpType::Mul, one)), var("x"));
}

#[test]
fn division_by_literal_zero_stays() {
    assert_eq!(norm(op(num(5), OpType::Div, num(0))), op(num(5), OpType::Div, num(0)));
    assert_eq!(norm(op(num(0), OpType::Div, num(0))), op(num(0), OpType::Div, num(0)));
    assert_eq!(norm(op(var("x"), OpType::Div, num(0))), op(var("x"), OpType::Div, num(0)));
}

#[test]
fn cancellation() {
    let e = op(op(var("x"), OpType::Mul, num(3)), OpType::Div, op(var("x"), OpType::Mul, num(5)));
    assert_eq!(norm(e), op(num(3), OpType::Div, num(5)));
}

#[test]
fn power_flattening() {
    let e = op(op(var("x"), OpType::Pow, num(2)), OpType::Pow, num(3));
    assert_eq!(norm(e), op(var("x"), OpType::Pow, num(6)));
}

#[test]
fn distribution() {
    let e = op(op(var("x"), OpType::Div, var("y")), OpType::Pow, num(2));
    let want = op(op(var("x"), OpType::Pow, num(2)), OpType::Div, op(var("y"), OpType::Pow, num(2)));
    assert_eq!(norm(e), want);
    let e = op(op(var("a"), OpType::Mul, var("b")), OpType::Pow, num(2));
    let want = op(op(var("a"), OpType::Pow, num(2)), OpType::Mul, op(var("b"), OpType::Pow, num(2)));
    assert_eq!(norm(e), want);
}

#[test]
fn where_substitution() {
    let body = Expr::unit(var("x"), num(6), num(14), num(2));
    let e = Expr::Where(Box::new(body), "x".to_string(), Box::new(op(num(5), OpType::Add, num(7))));
    assert_eq!(norm(e), op(num(108), OpType::Div, num(49)));
}

#[test]
fn exact_division_folds() {
    assert_eq!(norm(op(num(12), OpType::Div, num(4))), num(3));
    assert_eq!(norm(op(num(-12), OpType::Div, num(4))), num(-3));
    assert_eq!(norm(op(num(12), OpType::Div, num(-4))), num(-3));
    assert_eq!(norm(op(num(0), OpType::Div, num(5))), num(0));
    assert_eq!(norm(op(num(i32::MIN), OpType::Div, num(1))), num(i32::MIN));
}

#[test]
fn constant_folding() {
    assert_eq!(norm(op(num(2), OpType::Add, num(3))), num(5));
    assert_eq!(norm(op(num(2), OpType::Sub, num(3))), num(-1));
    assert_eq!(norm(op(num(4), OpType::Mul, num(3))), num(12));
    assert_eq!(norm(op(num(2), OpType::Pow, num(10))), num(1024));
    assert_eq!(norm(op(num(-2), OpType::Pow, num(31))), num(i32::MIN));
    assert_eq!(norm(op(num(2), OpType::Pow, num(-2))), op(num(1), OpType::Div, num(4)));
    assert_eq!(norm(op(num(7), OpType::Pow, num(0))), num(1));
}

#[test]
fn overflow_is_not_folded() {
    let e = op(num(i32::MAX), OpType::Add, num(1));
    assert_eq!(norm(e), op(num(i32::MAX), OpType::Add, num(1)));
    let e = op(num(2), OpType::Pow, num(31));
    assert_eq!(norm(e), op(num(2), OpType::Pow, num(31)));
}

#[test]
fn square_and_scalar_absorption() {
    assert_eq!(norm(op(var("x"), OpType::Mul, var("x"))), op(var("x"), OpType::Pow, num(2)));
    let e = op(op(num(2), OpType::Mul, var("x")), OpType::Mul, num(3));
    assert_eq!(norm(e), op(num(6), OpType::Mul, var("x")));
    let e = op(op(var("x"), OpType::Mul, var("y")), OpType::Mul, num(3));
    assert_eq!(norm(e), op(op(var("x"), OpType::Mul, var("y")), OpType::Mul, num(3)));
}

#[test]
fn normalizing_twice_changes_nothing() {
    let samples = vec![
        op(num(6), OpType::Div, num(14)),
        Expr::unit(var("x"), num(14), num(6), num(2)),
        op(op(var("x"), OpType::Div, var("y")), OpType::Pow, num(2)),
        Expr::rel(var("f"), Rl::Eq, op(var("x"), OpType::Mul, num(1))),
    ];
    for e in samples {
        let once = norm(e);
        let twice = norm(once.copy());
        assert_eq!(once, twice);
    }
}

#[test]
fn substitution_replaces_every_occurrence() {
    let mut e = op(var("x"), OpType::Add, Expr::Fn("f".to_string(), vec![var("x"), var("y")]));
    e.and_where("x", &num(4));
    assert_eq!(e, op(num(4), OpType::Add, Expr::Fn("f".to_string(), vec![num(4), var("y")])));
}

#[test]
fn document() {
    let mut doc = Document::new(vec![
        num(3),
        num(-4),
        Expr::Flt(Decimal { digits: 12, scale: 1 }),
        Expr::Flt(Decimal { digits: -305, scale: 1 }),
        var("x"),
        Expr::unit(num(1), num(1), num(1), num(1)),
        Expr::unit(num(1), var("x"), num(2), num(1)),
        Expr::unit(num(1), num(4), num(2), num(1)),
        Expr::unit(num(1), num(3), num(2), num(1)),
        Expr::unit(
            op(var("x"), OpType::Mul, num(3)),
            num(6),
            op(num(2), OpType::Add, num(5)),
            num(2),
        ),
        Expr::unit(num(0), num(4), num(2), num(1)),
        Expr::unit(num(2), var("x"), var("x"), num(1)),
        Expr::unit(var("x"), var("x"), num(1), num(1)),
        Expr::unit(var("x"), num(0), num(25), num(1)),
        Expr::unit(var("x"), num(57), num(25), num(0)),
        Expr::unit(var("x"), num(14), num(6), num(2)),
        Expr::unit(var("x"), op(var("x"), OpType::Pow, num(2)), var("x"), num(1)),
        op(
            Expr::unit(num(1), op(var("x"), OpType::Pow, num(2)), num(1), num(2)),
            OpType::Pow,
            num(2),
        ),
        Expr::Fn("sin".to_string(), vec![Expr::unit(num(2), num(3), var("x"), num(1))]),
        Expr::Fn(
            "f".to_string(),
            vec![
                Expr::unit(num(2), num(3), var("x"), num(1)),
                Expr::unit(var("y"), num(5), num(10), num(1)),
                Expr::unit(var("z"), num(3), var("z"), num(1)),
            ],
        ),
        Expr::rel(
            Expr::Fn("f".to_string(), vec![var("x"), var("y"), var("z")]),
            Rl::Eq,
            Expr::unit(var("x"), var("y"), var("z"), num(2)),
        ),
        Expr::unit(var("x"), num(6), num(14), num(2)),
        op(num(7), OpType::Div, num(14)),
        Expr::Where(
            Box::new(Expr::unit(var("x"), num(6), num(14), num(2))),
            "x".to_string(),
            Box::new(op(num(5), OpType::Add, num(7))),
        ),
    ]);
    doc.normalize();
    let c = &doc.contents;
    assert_eq!(c.len(), 24);
    assert_eq!(c[0], num(3));
    assert_eq!(c[1], num(-4));
    assert_eq!(c[4], var("x"));
    assert_eq!(c[5], num(1));
    assert_eq!(c[6], op(var("x"), OpType::Div, num(2)));
    assert_eq!(c[7], num(2));
    assert_eq!(c[8], op(num(3), OpType::Div, num(2)));
    assert_eq!(c[10], num(0));
    assert_eq!(c[11], num(2));
    assert_eq!(c[12], op(var("x"), OpType::Pow, num(2)));
    assert_eq!(c[13], num(0));
    assert_eq!(c[14], var("x"));
    assert_eq!(c[22], op(num(1), OpType::Div, num(2)));
    assert_eq!(c[23], op(num(108), OpType::Div, num(49)));
}

#[test]
fn restructured_results_are_normalized_again() {
    let sq = || op(var("x"), OpType::Pow, num(2));
    let once = norm(op(sq(), OpType::Mul, sq()));
    assert_eq!(once, op(var("x"), OpType::Pow, num(4)));
    assert_eq!(norm(once.copy()), once);
    assert_eq!(norm(op(num(1), OpType::Pow, num(-2))), num(1));
    assert_eq!(norm(op(num(-1), OpType::Pow, num(-1))), num(-1));
    let e = op(op(var("x"), OpType::Mul, num(4)), OpType::Div, op(var("x"), OpType::Mul, num(2)));
    assert_eq!(norm(e), num(2));
    let e = op(op(var("x"), OpType::Mul, num(6)), OpType::Div, op(var("x"), OpType::Mul, num(4)));
    assert_eq!(norm(e), op(num(3), OpType::Div, num(2)));
}

#[test]
fn integer_nodes_settle_in_one_pass() {
    let samples = vec![
        op(num(i32::MAX), OpType::Mul, num(i32::MAX)),
        op(num(3), OpType::Pow, num(-2)),
        op(num(0), OpType::Pow, num(-1)),
        op(num(12), OpType::Div, num(-18)),
        op(num(-4), OpType::Div, num(8)),
        op(num(65536), OpType::Pow, num(2)),
    ];
    for e in samples {
        let once = norm(e);
        assert_eq!(norm(once.copy()), once);
    }
    assert_eq!(norm(op(num(i32::MAX), OpType::Mul, num(i32::MAX))), op(num(i32::MAX), OpType::Pow, num(2)));
    assert_eq!(norm(op(num(3), OpType::Pow, num(-2))), op(num(1), OpType::Div, num(9)));
    assert_eq!(norm(op(num(12), OpType::Div, num(-18))), op(num(12), OpType::Div, num(-18)));
}

#[test]
fn where_elimination_matches_substituting_first() {
    let body = || op(var("x"), OpType::Mul, op(var("x"), OpType::Add, var("y")));
    let value = || op(num(3), OpType::Mul, num(4));
    let w = norm(Expr::Where(Box::new(body()), "x".to_string(), Box::new(value())));
    let mut direct = body();
    direct.and_where("x", &norm(value()));
    assert_eq!(w, norm(direct));
    assert_eq!(w, op(num(12), OpType::Mul, op(num(12), OpType::Add, var("y"))));
}
