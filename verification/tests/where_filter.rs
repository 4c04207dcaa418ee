use mdq::dataview::query::where_filter::{get_ident, BinaryOp, Expr, Literal, UnaryOp, WhereFilter};
use mdq::json::Json;

fn parsed(input: &str) -> WhereFilter {
    let (_, f) = WhereFilter::parse(input).unwrap();
    f
}

fn num(n: i64) -> Expr {
    Expr::Literal(Literal::Int(n))
}

fn ident(name: &str) -> Expr {
    Expr::Identifier(name.to_string())
}

fn bin(left: Expr, op: BinaryOp, right: Expr) -> Expr {
    Expr::BinaryOp { left: Box::new(left), op, right: Box::new(right) }
}

fn call(name: &str, args: Vec<Expr>) -> Expr {
    Expr::FunctionCall { name: name.to_string(), args }
}

fn not(e: Expr) -> Expr {
    Expr::UnaryOp { op: UnaryOp::Not, expr: Box::new(e) }
}

#[test]
fn literal_number() {
    assert_eq!(parsed("42"), WhereFilter::new(num(42)));
}

#[test]
fn literal_float() {
    assert_eq!(parsed("3.14"), WhereFilter::new(Expr::Literal(Literal::Float("3.14".to_string()))));
}

#[test]
fn literal_string() {
    assert_eq!(parsed("\"hello\""), WhereFilter::new(Expr::Literal(Literal::Str("hello".to_string()))));
}

#[test]
fn literal_bool_true() {
    assert_eq!(parsed("true"), WhereFilter::new(Expr::Literal(Literal::Bool(true))));
}

#[test]
fn literal_bool_false() {
    assert_eq!(parsed("false"), WhereFilter::new(Expr::Literal(Literal::Bool(false))));
}

#[test]
fn literal_null() {
    assert_eq!(parsed("null"), WhereFilter::new(Expr::Literal(Literal::Null)));
}

#[test]
fn identifier() {
    assert_eq!(parsed("file.ctime"), WhereFilter::new(ident("file.ctime")));
}

#[test]
fn unary_not() {
    assert_eq!(parsed("!completed"), WhereFilter::new(not(ident("completed"))));
}

#[test]
fn simple_binary() {
    assert_eq!(parsed("1 = 1"), WhereFilter::new(bin(num(1), BinaryOp::Eq, num(1))));
}

#[test]
fn basic_ident() {
    assert_eq!(parsed("data = 1"), WhereFilter::new(bin(ident("data"), BinaryOp::Eq, num(1))));
}

#[test]
fn arithmetic_binary() {
    assert_eq!(parsed("3 + 5"), WhereFilter::new(bin(num(3), BinaryOp::Add, num(5))));
}

#[test]
fn simple_function() {
    assert_eq!(
        parsed("date(\"today\")"),
        WhereFilter::new(call("date", vec![Expr::Literal(Literal::Str("today".to_string()))]))
    );
}

#[test]
fn nested_functions() {
    assert_eq!(
        parsed("f(g(1, 2), h(3))"),
        WhereFilter::new(call("f", vec![call("g", vec![num(1), num(2)]), call("h", vec![num(3)])]))
    );
}

#[test]
fn negative_number() {
    assert_eq!(parsed("-42"), WhereFilter::new(num(-42)));
}

#[test]
fn decimal_add() {
    assert_eq!(
        parsed("1.5 + 2.25"),
        WhereFilter::new(bin(
            Expr::Literal(Literal::Float("1.5".to_string())),
            BinaryOp::Add,
            Expr::Literal(Literal::Float("2.25".to_string())),
        ))
    );
}

#[test]
fn nested_parens() {
    assert_eq!(
        parsed("(1 + 2) * (3 + 4)"),
        WhereFilter::new(bin(
            bin(num(1), BinaryOp::Add, num(2)),
            BinaryOp::Mul,
            bin(num(3), BinaryOp::Add, num(4)),
        ))
    );
}

#[test]
fn multi_arg_function() {
    assert_eq!(
        parsed("sum(1, max(2, 3), 4)"),
        WhereFilter::new(call("sum", vec![num(1), call("max", vec![num(2), num(3)]), num(4)]))
    );
}

#[test]
fn not_with_parens() {
    assert_eq!(parsed("!(a = 1)"), WhereFilter::new(not(bin(ident("a"), BinaryOp::Eq, num(1)))));
}

#[test]
fn negative_subtraction() {
    assert_eq!(parsed("-5 - -10"), WhereFilter::new(bin(num(-5), BinaryOp::Sub, num(-10))));
}

#[test]
fn complex_example() {
    assert_eq!(
        parsed("!completed AND file.ctime <= (date(\"today\") - dur(\"1month\"))"),
        WhereFilter::new(bin(
            not(ident("completed")),
            BinaryOp::And,
            bin(
                ident("file.ctime"),
                BinaryOp::Lte,
                bin(
                    call("date", vec![Expr::Literal(Literal::Str("today".to_string()))]),
                    BinaryOp::Sub,
                    call("dur", vec![Expr::Literal(Literal::Str("1month".to_string()))]),
                ),
            ),
        ))
    );
}

#[test]
fn boolean_chain() {
    assert_eq!(
        parsed("true OR false AND !flag"),
        WhereFilter::new(bin(
            Expr::Literal(Literal::Bool(true)),
            BinaryOp::Or,
            bin(Expr::Literal(Literal::Bool(false)), BinaryOp::And, not(ident("flag"))),
        ))
    );
}

#[test]
fn function_boolean() {
    assert_eq!(
        parsed("is_done(task) = true"),
        WhereFilter::new(bin(
            call("is_done", vec![ident("task")]),
            BinaryOp::Eq,
            Expr::Literal(Literal::Bool(true)),
        ))
    );
}

#[test]
fn and_or_mix() {
    assert_eq!(
        parsed("x = 1 AND y = 2 OR z = 3"),
        WhereFilter::new(bin(
            bin(ident("x"), BinaryOp::Eq, num(1)),
            BinaryOp::And,
            bin(ident("y"), BinaryOp::Eq, num(2)),
        ))
    );
}

// Comparisons bind tighter than AND; an OR takes the rest of the
// expression; an AND chain is not continued by OR.
#[test]
fn operator_precedence() {
    assert_eq!(
        parsed("a = 1 AND b = 2"),
        WhereFilter::new(bin(
            bin(ident("a"), BinaryOp::Eq, num(1)),
            BinaryOp::And,
            bin(ident("b"), BinaryOp::Eq, num(2)),
        ))
    );
    let (rest, f) = WhereFilter::parse("a OR b AND c OR d").unwrap();
    assert_eq!(
        f,
        WhereFilter::new(bin(ident("a"), BinaryOp::Or, bin(ident("b"), BinaryOp::And, ident("c"))))
    );
    assert_eq!(rest, " OR d");
    assert_eq!(
        parsed("a OR b OR c"),
        WhereFilter::new(bin(ident("a"), BinaryOp::Or, bin(ident("b"), BinaryOp::Or, ident("c"))))
    );
    assert_eq!(
        parsed("1 + 2 * 3 - 4 / 2"),
        WhereFilter::new(bin(
            bin(num(1), BinaryOp::Add, bin(num(2), BinaryOp::Mul, num(3))),
            BinaryOp::Sub,
            bin(num(4), BinaryOp::Div, num(2)),
        ))
    );
    assert_eq!(
        parsed("a < 1 = b"),
        WhereFilter::new(bin(bin(ident("a"), BinaryOp::Lt, num(1)), BinaryOp::Eq, ident("b")))
    );
}

#[test]
fn parse_leaves_the_rest() {
    let (rest, f) = WhereFilter::parse("a = 1 SORT b").unwrap();
    assert_eq!(f, WhereFilter::new(bin(ident("a"), BinaryOp::Eq, num(1))));
    assert_eq!(rest, " SORT b");
}

#[test]
fn parse_fails_on_nothing() {
    assert!(WhereFilter::parse("").is_err());
    assert!(WhereFilter::parse("   ").is_err());
}

#[test]
fn ident_lookup() {
    let doc = Json::Object(vec![
        ("a".to_string(), Json::Number("1".to_string())),
        ("b".to_string(), Json::Str("x".to_string())),
    ]);
    assert_eq!(get_ident("b", &doc), Some(Json::Str("x".to_string())));
    assert_eq!(get_ident("c", &doc), None);
    assert_eq!(get_ident("a", &Json::Null), None);
}

#[test]
fn unicode_names() {
    assert_eq!(parsed("données = 1"), WhereFilter::new(bin(ident("données"), BinaryOp::Eq, num(1))));
    assert_eq!(parsed("durée(x)"), WhereFilter::new(call("durée", vec![ident("x")])));
    assert_eq!(parsed("x_1 + été2"), WhereFilter::new(bin(ident("x_1"), BinaryOp::Add, ident("été2"))));
}

#[test]
fn dangling_operator_fails() {
    assert!(WhereFilter::parse("a =").is_err());
    assert!(WhereFilter::parse("a = )").is_err());
}
