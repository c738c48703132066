use kaleidoscope::ast::{Expr, Number, Op};
use kaleidoscope::parser::parse_program;
use kaleidoscope::printer::print_program;

fn num(negative: bool, digits: &str, exponent: i128) -> Expr {
    Expr::Float(Number { negative, digits: digits.as_bytes().to_vec(), exponent })
}

fn var(name: &str) -> Expr {
    Expr::Var(name.to_string())
}

fn bin(op: Op, l: Expr, r: Expr) -> Expr {
    Expr::BinOp(op, Box::new(l), Box::new(r))
}

#[test]
fn canonical_text_of_an_expression() {
    let p = vec![bin(Op::Plus, num(false, "5", 0), bin(Op::Multiply, num(false, "6", 0), num(false, "7", 0)))];
    assert_eq!(print_program(&p), "((5e0) + ((6e0) * (7e0)))");
}

#[test]
fn canonical_text_of_declarations() {
    let p = vec![
        Expr::Extern("printd".to_string(), vec!["x".to_string()]),
        Expr::Function(
            "f".to_string(),
            vec!["a".to_string(), "b".to_string()],
            Box::new(Expr::Call("printd".to_string(), vec![var("a"), num(true, "25", -1)])),
        ),
    ];
    assert_eq!(print_program(&p), "extern printd(x); def f(a b) (printd((a), (-25e-1)))");
}

#[test]
fn reparsing_the_canonical_text_gives_the_program() {
    let p = vec![
        Expr::Extern("putchard".to_string(), vec!["c".to_string()]),
        Expr::Extern("none".to_string(), vec![]),
        Expr::Function(
            "main".to_string(),
            vec![],
            Box::new(Expr::Sequence(
                Box::new(Expr::ForInExpr(
                    "i".to_string(),
                    Box::new(num(false, "1", 0)),
                    Box::new(bin(Op::LessThan, var("i"), num(false, "4", 0))),
                    Box::new(num(false, "", 0)),
                    Box::new(Expr::Call("putchard".to_string(), vec![num(false, "42", 0)])),
                )),
                Box::new(Expr::IfExpr(
                    Box::new(bin(Op::GreaterThan, var("iffy"), num(true, "1", 3))),
                    Box::new(bin(Op::Minus, bin(Op::Minus, var("a"), var("b")), var("c"))),
                    Box::new(bin(Op::BitwiseOr, var("x"), bin(Op::Divide, var("y"), num(false, "7", -2)))),
                )),
            )),
        ),
        bin(Op::BitwiseAnd, var("for"), Expr::Call("g".to_string(), vec![])),
    ];
    let text = print_program(&p);
    assert_eq!(parse_program(&text), Ok(p));
}
