use opt_eqsat::ast::BinaryOp::{Add, LT};
use opt_eqsat::ast::ExprAST::{Binary, Number, Variable};
use opt_eqsat::ast::StmtAST::{Assign, Block, IfElse, Return, While};
use opt_eqsat::ast::{BinaryOp, ExprAST, FuncAST, StmtAST, UnaryOp};
use opt_eqsat::grammar::{ParseError, ProgramParser};

#[test]
fn parse1() {
    let program = r#"
fn test1(x) return x;
"#;
    let parsed = ProgramParser::new().parse(&program).unwrap();
    assert_eq!(
        parsed,
        vec![FuncAST {
            name: "test1".into(),
            params: vec!["x".into()],
            body: StmtAST::Return(ExprAST::Variable("x".into()))
        }]
    );
}

#[test]
fn parse2() {
    let program = r#"
fn test2(x, y) { while x < 7 { x = x + 1; } if y < x { return y; } return x + 9; }
"#;
    let parsed = ProgramParser::new().parse(&program).unwrap();
    assert_eq!(
        parsed,
        vec![FuncAST {
            name: "test2".into(),
            params: vec!["x".into(), "y".into()],
            body: Block(vec![
                While(
                    Binary(LT, Box::new(Variable("x".into())), Box::new(Number(7))),
                    Box::new(Block(vec![Assign(
                        "x".into(),
                        Binary(Add, Box::new(Variable("x".into())), Box::new(Number(1)))
                    )]))
                ),
                IfElse(
                    Binary(
                        LT,
                        Box::new(Variable("y".into())),
                        Box::new(Variable("x".into()))
                    ),
                    Box::new(Block(vec![Return(Variable("y".into()))])),
                    Box::new(Block(vec![]))
                ),
                Return(Binary(
                    Add,
                    Box::new(Variable("x".into())),
                    Box::new(Number(9))
                ))
            ])
        }]
    );
}

#[test]
fn parse_rejects_non_ascii() {
    let result = ProgramParser::new().parse("fn t\u{e9}st(x) { return x; }");
    assert_eq!(result, Err(ParseError::NonAscii));
}

#[test]
fn parse_rejects_bad_syntax() {
    let parser = ProgramParser::new();
    assert_eq!(parser.parse("fn test(x { return x; }"), Err(ParseError::Syntax));
    assert_eq!(parser.parse("fn test(x) { return x }"), Err(ParseError::Syntax));
    assert_eq!(parser.parse("fn test(x) { return 99999999999999999999; }"), Err(ParseError::Syntax));
    assert_eq!(parser.parse("fn if(x) { return x; }"), Err(ParseError::Syntax));
}

#[test]
fn parse_empty_and_many() {
    let parser = ProgramParser::new();
    assert_eq!(parser.parse("  \n"), Ok(vec![]));
    let parsed = parser.parse("fn a() return 1; fn b(x,) { }").unwrap();
    assert_eq!(parsed.len(), 2);
    assert_eq!(parsed[1].params, vec!["x".to_string()]);
    assert_eq!(parsed[1].body, Block(vec![]));
}

#[test]
fn parse_precedence_and_unary() {
    let parsed = ProgramParser::new()
        .parse("fn t(a, b) return -a + b * 2 < !b;")
        .unwrap();
    assert_eq!(
        parsed[0].body,
        Return(Binary(
            LT,
            Box::new(Binary(
                Add,
                Box::new(ExprAST::Unary(UnaryOp::Neg, Box::new(Variable("a".into())))),
                Box::new(Binary(BinaryOp::Mul, Box::new(Variable("b".into())), Box::new(Number(2))))
            )),
            Box::new(ExprAST::Unary(UnaryOp::Not, Box::new(Variable("b".into()))))
        ))
    );
}

#[test]
fn parse_if_without_else() {
    let parsed = ProgramParser::new().parse("fn t(a) { if a { a = 1; } return a; }").unwrap();
    assert_eq!(
        parsed[0].body,
        Block(vec![
            IfElse(
                Variable("a".into()),
                Box::new(Block(vec![Assign("a".into(), Number(1))])),
                Box::new(Block(vec![]))
            ),
            Return(Variable("a".into()))
        ])
    );
}

#[test]
fn print_functions() {
    let parser = ProgramParser::new();
    let parsed = parser.parse("fn test1(x) return x;").unwrap();
    assert_eq!(parsed[0].to_string(), "fn test1(x) return x;");
    let parsed = parser
        .parse("fn test2(x, y) { while x < 7 { x = x + 1; } if y < x { return y; } return x + 9; }")
        .unwrap();
    assert_eq!(
        parsed[0].to_string(),
        "fn test2(x, y) { while (x < 7) { { x = (x + 1); } } if (y < x) { { return y; } } else { { } } return (x + 9); }"
    );
    let f = FuncAST { name: "f".into(), params: vec![], body: Block(vec![]) };
    assert_eq!(f.to_string(), "fn f() { }");
}

#[test]
fn print_expressions() {
    assert_eq!(Number(-5).to_string(), "-5");
    assert_eq!(Number(i64::MIN).to_string(), "-9223372036854775808");
    assert_eq!(Number(1234567).to_string(), "1234567");
    assert_eq!(
        ExprAST::Unary(UnaryOp::Not, Box::new(Variable("a".into()))).to_string(),
        "!a"
    );
    assert_eq!(
        Binary(BinaryOp::GE, Box::new(Number(0)), Box::new(ExprAST::Unary(UnaryOp::Neg, Box::new(Number(3))))).to_string(),
        "(0 >= -3)"
    );
    let ops = [
        (BinaryOp::Add, "+"),
        (BinaryOp::Sub, "-"),
        (BinaryOp::Mul, "*"),
        (BinaryOp::EE, "=="),
        (BinaryOp::NE, "!="),
        (BinaryOp::LT, "<"),
        (BinaryOp::LE, "<="),
        (BinaryOp::GT, ">"),
        (BinaryOp::GE, ">="),
    ];
    for (op, text) in ops {
        assert_eq!(op.to_string(), text);
    }
    assert_eq!(UnaryOp::Neg.to_string(), "-");
    assert_eq!(UnaryOp::Not.to_string(), "!");
}

#[test]
fn print_statements() {
    let s = IfElse(Number(1), Box::new(Assign("x".into(), Number(2))), Box::new(Return(Number(3))));
    assert_eq!(s.to_string(), "if 1 { x = 2; } else { return 3; }");
    let w = While(Variable("c".into()), Box::new(Block(vec![Return(Number(0))])));
    assert_eq!(w.to_string(), "while c { { return 0; } }");
}
