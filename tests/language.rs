use novarc::eval::{evaluate, evaluate_with_limit};
use novarc::lexer::tokenize;
use novarc::parser::parse;
use novarc::syntax::{EvalError, Expr, SyntaxError, SyntaxErrorKind, TokKind, Value};

fn number(v: &Value) -> f64 {
    match v {
        Value::Lit(d) => d.parse().unwrap(),
        Value::Neg(a) => -number(a),
        Value::Add(a, b) => number(a) + number(b),
        Value::Sub(a, b) => number(a) - number(b),
        Value::Mul(a, b) => number(a) * number(b),
        Value::Div(a, b) => number(a) / number(b),
    }
}

fn run(src: &str) -> Result<f64, EvalError> {
    let e = parse(src).unwrap();
    evaluate(&e).map(|v| number(&v))
}

fn parse_error(src: &str) -> SyntaxError {
    let errs = parse(src).unwrap_err();
    assert_eq!(errs.len(), 1);
    errs[0]
}

#[test]
fn same_source_same_tree() {
    let a = parse("let a = 1; fn f x y = x * (y - a); f(2, 3,) / -a").unwrap();
    let b = parse("let a = 1; fn f x y = x * (y - a); f(2, 3,) / -a").unwrap();
    assert_eq!(format!("{:?}", a), format!("{:?}", b));
}

#[test]
fn precedence_and_associativity() {
    assert_eq!(run("1 + 2 * 3"), Ok(7.0));
    assert_eq!(run("(1 + 2) * 3"), Ok(9.0));
    assert_eq!(run("8 / 4 / 2"), Ok(1.0));
    assert_eq!(run("2 - 3 - 4"), Ok(-5.0));
    assert_eq!(run("--3"), Ok(3.0));
    assert_eq!(run("-2 * 3 + 10 / 4"), Ok(-3.5));
}

#[test]
fn arithmetic_value_keeps_the_tree() {
    let e = parse("1 - 2 * 3").unwrap();
    let v = evaluate(&e).unwrap();
    assert_eq!(
        format!("{:?}", v),
        "Sub(Lit(\"1\"), Mul(Lit(\"2\"), Lit(\"3\")))"
    );
}

#[test]
fn division_by_zero_is_not_an_error() {
    assert_eq!(run("1 / 0"), Ok(f64::INFINITY));
    assert!(run("0 / 0").unwrap().is_nan());
}

#[test]
fn shadowing() {
    assert_eq!(run("let x = 1; let x = 2; x"), Ok(2.0));
}

#[test]
fn scope_release() {
    assert_eq!(run("let x = 1; x"), Ok(1.0));
    assert_eq!(run("x"), Err(EvalError::UnboundVariable("x".to_string())));
    assert_eq!(
        run("fn f a = a; f(1) + a"),
        Err(EvalError::UnboundVariable("a".to_string()))
    );
}

#[test]
fn recursion_finds_itself() {
    let e = parse("fn f n = f(n); f(0)").unwrap();
    assert_eq!(evaluate_with_limit(&e, 16), Err(EvalError::RecursionLimitExceeded));
}

#[test]
fn call_depth_limit() {
    let e = parse("fn f n = n + 1; fn g n = f(n) * 2; g(3)").unwrap();
    assert_eq!(evaluate_with_limit(&e, 1).map(|_| ()), Err(EvalError::RecursionLimitExceeded));
    assert_eq!(evaluate_with_limit(&e, 2).map(|v| number(&v)), Ok(8.0));
}

#[test]
fn arity_check() {
    assert_eq!(
        run("fn add a b = a+b; add(1)"),
        Err(EvalError::ArityMismatch("add".to_string(), 2, 1))
    );
}

#[test]
fn undefined_function() {
    assert_eq!(run("g(1)"), Err(EvalError::UndefinedFunction("g".to_string())));
    assert_eq!(
        run("fn f x = x; let y = f(1); fn h = y; h() + f"),
        Err(EvalError::UnboundVariable("f".to_string()))
    );
}

#[test]
fn first_argument_error_wins() {
    assert_eq!(
        run("fn f a b = a; f(p, q)"),
        Err(EvalError::UnboundVariable("p".to_string()))
    );
}

#[test]
fn dynamic_scope() {
    assert_eq!(run("let x = 5; fn f y = x+y; f(1)"), Ok(6.0));
}

#[test]
fn functions_and_lets_chain() {
    assert_eq!(run("let a = 1; let b = 2; a+b"), Ok(3.0));
    assert_eq!(run("fn sq x = x * x; fn sum a b = sq(a) + sq(b); sum(3, 4)"), Ok(25.0));
    assert_eq!(run("fn two = 2; two() * 21"), Ok(42.0));
    let e = parse("let a = 1; let b = 2; a+b").unwrap();
    match e {
        Expr::Let { name, then, .. } => {
            assert_eq!(name, "a");
            assert!(matches!(*then, Expr::Let { .. }));
        }
        _ => panic!("expected a let"),
    }
}

#[test]
fn unmatched_paren() {
    let err = parse_error("1 + (2");
    assert_eq!(err.kind, SyntaxErrorKind::ExpectedRParen);
    assert_eq!((err.start, err.end), (6, 6));
}

#[test]
fn trailing_comma_in_call() {
    let a = parse("f(1,2,)").unwrap();
    let b = parse("f(1,2)").unwrap();
    assert_eq!(a, b);
    assert!(parse("f(1,,2)").is_err());
    assert!(parse("f(,)").is_err());
}

#[test]
fn syntax_errors() {
    let err = parse_error("1 $ 2");
    assert_eq!((err.kind, err.start, err.end), (SyntaxErrorKind::UnexpectedChar, 2, 3));
    let err = parse_error("let let = 1; 2");
    assert_eq!((err.kind, err.start, err.end), (SyntaxErrorKind::ExpectedName, 4, 7));
    let err = parse_error("let x 1; x");
    assert_eq!((err.kind, err.start, err.end), (SyntaxErrorKind::ExpectedEquals, 6, 7));
    let err = parse_error("let x = 1 x");
    assert_eq!((err.kind, err.start, err.end), (SyntaxErrorKind::ExpectedSemi, 10, 11));
    let err = parse_error("f(1 2)");
    assert_eq!((err.kind, err.start, err.end), (SyntaxErrorKind::ExpectedCommaOrRParen, 4, 5));
    let err = parse_error("1 2");
    assert_eq!((err.kind, err.start, err.end), (SyntaxErrorKind::ExpectedEnd, 2, 3));
    let err = parse_error("");
    assert_eq!((err.kind, err.start, err.end), (SyntaxErrorKind::ExpectedExpr, 0, 0));
    let err = parse_error("1 + fn");
    assert_eq!((err.kind, err.start, err.end), (SyntaxErrorKind::ExpectedExpr, 4, 6));
    let err = parse_error("let x = 1;");
    assert_eq!((err.kind, err.start, err.end), (SyntaxErrorKind::ExpectedExpr, 10, 10));
}

#[test]
fn whitespace_is_insignificant() {
    assert_eq!(run("  let\tx=2 ;\n x*x "), Ok(4.0));
}

#[test]
fn tokens_and_spans() {
    let ts = tokenize("let x1=12;fn").unwrap();
    let kinds: Vec<&TokKind> = ts.iter().map(|t| &t.kind).collect();
    assert_eq!(
        kinds,
        vec![
            &TokKind::Let,
            &TokKind::Ident("x1".to_string()),
            &TokKind::Equals,
            &TokKind::Num("12".to_string()),
            &TokKind::Semi,
            &TokKind::Fn,
        ]
    );
    let spans: Vec<(usize, usize)> = ts.iter().map(|t| (t.start, t.end)).collect();
    assert_eq!(spans, vec![(0, 3), (4, 6), (6, 7), (7, 9), (9, 10), (10, 12)]);
    let ts = tokenize("letx fnx _a").unwrap();
    assert_eq!(ts[0].kind, TokKind::Ident("letx".to_string()));
    assert_eq!(ts[1].kind, TokKind::Ident("fnx".to_string()));
    assert_eq!(ts[2].kind, TokKind::Ident("_a".to_string()));
}

#[test]
fn large_literal() {
    assert_eq!(run("123456789012345678901234567890"), Ok(1.2345678901234568e29));
}

#[test]
fn unicode_whitespace_between_tokens() {
    assert_eq!(run("let\u{a0}x = 2;\u{2003}x\u{3000}*\u{b}x\u{c}"), Ok(4.0));
}

#[test]
fn spaced_parens_parse_alike() {
    let a = parse("let x = (1); x").unwrap();
    let b = parse("let x =(1);x").unwrap();
    assert_eq!(a, b);
}

#[test]
fn decimal_point_is_rejected() {
    let err = parse_error("1.5");
    assert_eq!((err.kind, err.start, err.end), (SyntaxErrorKind::UnexpectedChar, 1, 2));
}

#[test]
fn grouping_of_operators() {
    let a = parse("1 - 2 + 3").unwrap();
    let b = parse("(1 - 2) + 3").unwrap();
    assert_eq!(a, b);
    let c = parse("-1 * --2").unwrap();
    let d = parse("(-1) * (-(-2))").unwrap();
    assert_eq!(c, d);
    let e = parse("1 + 2 * 3").unwrap();
    let f = parse("1 + (2 * 3)").unwrap();
    assert_eq!(e, f);
}
