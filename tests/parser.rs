use kaleidoscope::ast::{Expr, Number, Op};
use kaleidoscope::parser::{parse_expr, parse_program, ParseError, ParseErrorKind};

fn num(negative: bool, digits: &str, exponent: i128) -> Expr {
    Expr::Float(Number { negative, digits: digits.as_bytes().to_vec(), exponent })
}

fn var(name: &str) -> Expr {
    Expr::Var(name.to_string())
}

fn bin(op: Op, l: Expr, r: Expr) -> Expr {
    Expr::BinOp(op, Box::new(l), Box::new(r))
}

#[test]
fn parse_expr_test() {
    // Parse basic numbers and var references
    assert_eq!(parse_expr("1.1"), Ok((num(false, "11", -1), 3)));
    assert_eq!(parse_expr("2.7"), Ok((num(false, "27", -1), 3)));
    assert_eq!(parse_expr("hello"), Ok((var("hello"), 5)));
    assert_eq!(parse_expr("foobar"), Ok((var("foobar"), 6)));

    // Parse a basic program
    assert_eq!(parse_program("foobar;1.3"), Ok(vec![var("foobar"), num(false, "13", -1)]));

    // Errors with basic parsing: the error points at the unparsed rest
    let text = "1five";
    let err = parse_program(text).unwrap_err();
    assert_eq!(err, ParseError { position: 1, kind: ParseErrorKind::TrailingInput });
    assert_eq!(&text[err.position..], "five");
    let text = "five 1";
    let err = parse_program(text).unwrap_err();
    assert_eq!(err, ParseError { position: 4, kind: ParseErrorKind::TrailingInput });
    assert_eq!(&text[err.position..], " 1");

    // Parse basic arithmetic
    assert_eq!(parse_program("five+1.4"), Ok(vec![bin(Op::Plus, var("five"), num(false, "14", -1))]));
    assert_eq!(parse_program("five + 1.4"), Ok(vec![bin(Op::Plus, var("five"), num(false, "14", -1))]));
    assert_eq!(parse_program("6 * 7"), Ok(vec![bin(Op::Multiply, num(false, "6", 0), num(false, "7", 0))]));

    // Parse arithmetic with precedence
    assert_eq!(
        parse_program("5 + 6 * 7"),
        Ok(vec![bin(Op::Plus, num(false, "5", 0), bin(Op::Multiply, num(false, "6", 0), num(false, "7", 0)))])
    );

    // Parse arithmetic with parenthetical
    assert_eq!(
        parse_program("5 * (6 + 7)"),
        Ok(vec![bin(Op::Multiply, num(false, "5", 0), bin(Op::Plus, num(false, "6", 0), num(false, "7", 0)))])
    );

    // Parse call
    assert_eq!(parse_program("foobar()"), Ok(vec![Expr::Call("foobar".to_string(), vec![])]));
    assert_eq!(
        parse_program("foobar(1, 2)"),
        Ok(vec![Expr::Call("foobar".to_string(), vec![num(false, "1", 0), num(false, "2", 0)])])
    );
    assert_eq!(
        parse_program("foobar(1, 2, 3+4)"),
        Ok(vec![Expr::Call(
            "foobar".to_string(),
            vec![num(false, "1", 0), num(false, "2", 0), bin(Op::Plus, num(false, "3", 0), num(false, "4", 0))]
        )])
    );
    assert_eq!(
        parse_program("foobar(1, 2, 3+4, baz() )"),
        Ok(vec![Expr::Call(
            "foobar".to_string(),
            vec![
                num(false, "1", 0),
                num(false, "2", 0),
                bin(Op::Plus, num(false, "3", 0), num(false, "4", 0)),
                Expr::Call("baz".to_string(), vec![])
            ]
        )])
    );

    // Parse function definitions: the body is one inner expression, and
    // braces are not part of the language
    let body = Expr::Call(
        "baz".to_string(),
        vec![bin(Op::Plus, bin(Op::Plus, var("term1"), var("term2")), var("term3"))],
    );
    assert_eq!(
        parse_program("def foobar(term1 term2 term3) baz(term1 + term2 + term3)"),
        Ok(vec![Expr::Function(
            "foobar".to_string(),
            vec!["term1".to_string(), "term2".to_string(), "term3".to_string()],
            Box::new(body)
        )])
    );
    assert!(parse_program("def foobar(term1 term2 term3) { baz(term1 + term2 + term3) }").is_err());

    // extern
    assert_eq!(
        parse_program("extern foobar(param1 param2 param3)"),
        Ok(vec![Expr::Extern(
            "foobar".to_string(),
            vec!["param1".to_string(), "param2".to_string(), "param3".to_string()]
        )])
    );
}

#[test]
fn subtraction_groups_to_the_left() {
    assert_eq!(
        parse_program("a - b - c"),
        Ok(vec![bin(Op::Minus, bin(Op::Minus, var("a"), var("b")), var("c"))])
    );
}

#[test]
fn comparison_binds_looser_than_sum() {
    assert_eq!(
        parse_program("a < b + 1"),
        Ok(vec![bin(Op::LessThan, var("a"), bin(Op::Plus, var("b"), num(false, "1", 0)))])
    );
    assert_eq!(
        parse_program("a | b > c"),
        Ok(vec![bin(Op::BitwiseOr, var("a"), bin(Op::GreaterThan, var("b"), var("c")))])
    );
}

#[test]
fn extern_with_three_parameters() {
    assert_eq!(
        parse_program("extern foo(a b c)"),
        Ok(vec![Expr::Extern("foo".to_string(), vec!["a".to_string(), "b".to_string(), "c".to_string()])])
    );
}

#[test]
fn malformed_declarations_fail() {
    assert!(parse_program("extern foo(a b").is_err());
    assert!(parse_program("def foo(a) ").is_err());
    assert!(parse_program("def (a) a").is_err());
    assert!(parse_program("extern foo(a, b)").is_err());
}

#[test]
fn empty_text_expects_a_declaration() {
    assert_eq!(
        parse_program(""),
        Err(ParseError { position: 0, kind: ParseErrorKind::ExpectedDeclaration })
    );
    assert_eq!(
        parse_program("  # only a comment (\n  ;"),
        Err(ParseError { position: 23, kind: ParseErrorKind::ExpectedDeclaration })
    );
}

#[test]
fn conditional_and_loop_forms() {
    assert_eq!(
        parse_program("if x < 1 then 2 else 3"),
        Ok(vec![Expr::IfExpr(
            Box::new(bin(Op::LessThan, var("x"), num(false, "1", 0))),
            Box::new(num(false, "2", 0)),
            Box::new(num(false, "3", 0))
        )])
    );
    assert_eq!(
        parse_program("for i = 1, i < 4, 1 in f(i)"),
        Ok(vec![Expr::ForInExpr(
            "i".to_string(),
            Box::new(num(false, "1", 0)),
            Box::new(bin(Op::LessThan, var("i"), num(false, "4", 0))),
            Box::new(num(false, "1", 0)),
            Box::new(Expr::Call("f".to_string(), vec![var("i")]))
        )])
    );
}

#[test]
fn sequence_pairs_two_expressions() {
    assert_eq!(
        parse_program("a : b"),
        Ok(vec![Expr::Sequence(Box::new(var("a")), Box::new(var("b")))])
    );
}

#[test]
fn separators_comments_and_trailing_semicolons() {
    assert_eq!(
        parse_program("# leading\nextern f(x) ; # between\n def g(y) f(y);;\n"),
        Ok(vec![
            Expr::Extern("f".to_string(), vec!["x".to_string()]),
            Expr::Function(
                "g".to_string(),
                vec!["y".to_string()],
                Box::new(Expr::Call("f".to_string(), vec![var("y")]))
            )
        ])
    );
}

#[test]
fn number_literals_are_exact_decimals() {
    assert_eq!(parse_expr("1e3"), Ok((num(false, "1", 3), 3)));
    assert_eq!(parse_expr("2.50"), Ok((num(false, "25", -1), 4)));
    assert_eq!(parse_expr(".5"), Ok((num(false, "5", -1), 2)));
    assert_eq!(parse_expr("-3"), Ok((num(true, "3", 0), 2)));
    assert_eq!(parse_expr("100"), Ok((num(false, "1", 2), 3)));
    assert_eq!(parse_expr("0.0"), Ok((num(false, "", 0), 3)));
    assert_eq!(parse_expr("12.5E-2"), Ok((num(false, "125", -3), 7)));
    assert_eq!(parse_expr("7."), Ok((num(false, "7", 0), 2)));
}

#[test]
fn long_literal_keeps_every_digit() {
    assert_eq!(
        parse_program("def main() 3.14159265358979323846"),
        Ok(vec![Expr::Function(
            "main".to_string(),
            vec![],
            Box::new(num(false, "314159265358979323846", -20))
        )])
    );
    assert_eq!(
        parse_expr("100000000000000000000000"),
        Ok((num(false, "1", 23), 24))
    );
}

#[test]
fn missing_closing_parenthesis_is_reported_where_it_was_expected() {
    assert_eq!(
        parse_program("f(1, 2"),
        Err(ParseError { position: 6, kind: ParseErrorKind::ExpectedClosingParenthesis })
    );
    assert_eq!(
        parse_program("def g(x) (x + 1"),
        Err(ParseError { position: 15, kind: ParseErrorKind::ExpectedClosingParenthesis })
    );
}

#[test]
fn stray_closing_parenthesis_is_reported_where_it_stands() {
    assert_eq!(
        parse_program("f(1)) + 2"),
        Err(ParseError { position: 4, kind: ParseErrorKind::UnmatchedClosingParenthesis })
    );
}
