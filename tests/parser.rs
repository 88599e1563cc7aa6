use edust::ast::{BinOp, Expr, Program, Statement, UnaryOp};
use edust::lexer::Lexer;
use edust::parser::{ParseError, ParseErrorKind, Parser};
use edust::token::TokenType;

fn parse(src: &str) -> Result<Program, ParseError> {
    let mut lexer = Lexer::new(src);
    let tokens = lexer.tokenize().unwrap();
    let mut parser = Parser::new(tokens);
    parser.parse()
}

fn op(o: BinOp) -> &'static str {
    match o {
        BinOp::Add => "+",
        BinOp::Sub => "-",
        BinOp::Mul => "*",
        BinOp::Div => "/",
        BinOp::Mod => "%",
        BinOp::Lt => "<",
        BinOp::Le => "<=",
        BinOp::Gt => ">",
        BinOp::Ge => ">=",
        BinOp::Eq => "==",
        BinOp::Ne => "!=",
        BinOp::And => "&&",
        BinOp::Or => "||",
    }
}

fn show(e: &Expr) -> String {
    match e {
        Expr::Number(n) => n.to_string(),
        Expr::Variable(v) => v.clone(),
        Expr::Binary { op: o, left, right } => {
            format!("({} {} {})", show(left), op(*o), show(right))
        }
        Expr::Unary { op: UnaryOp::Neg, operand } => format!("(-{})", show(operand)),
        Expr::Unary { op: UnaryOp::Not, operand } => format!("(!{})", show(operand)),
        Expr::Call { name, args } => {
            let a: Vec<String> = args.iter().map(show).collect();
            format!("{}({})", name, a.join(", "))
        }
    }
}

/// The expression of `return <src>;` in a one-function program.
fn expr_of(src: &str) -> String {
    let p = parse(&format!("func main() {{ return {}; }}", src)).unwrap();
    match &p.functions[0].body.statements[0] {
        Statement::Return { value } => show(value),
        other => panic!("unexpected statement {:?}", other),
    }
}

#[test]
fn multiplication_binds_tighter_than_addition() {
    assert_eq!(expr_of("1 + 2 * 3"), "(1 + (2 * 3))");
}

#[test]
fn and_binds_tighter_than_or() {
    assert_eq!(expr_of("a || b && c"), "(a || (b && c))");
}

#[test]
fn unary_minus_binds_tighter_than_multiplication() {
    assert_eq!(expr_of("-a * b"), "((-a) * b)");
    assert_eq!(expr_of("!-a"), "(!(-a))");
}

#[test]
fn precedence_ladder() {
    assert_eq!(
        expr_of("a || b && c == d < e + f * g"),
        "(a || (b && (c == (d < (e + (f * g))))))"
    );
    assert_eq!(expr_of("(1 + 2) * 3"), "((1 + 2) * 3)");
}

#[test]
fn binary_operators_associate_to_the_left() {
    assert_eq!(expr_of("a - b - c"), "((a - b) - c)");
    assert_eq!(expr_of("a / b / c"), "((a / b) / c)");
    assert_eq!(expr_of("a % b % c"), "((a % b) % c)");
    assert_eq!(expr_of("a && b && c"), "((a && b) && c)");
    assert_eq!(expr_of("a || b || c"), "((a || b) || c)");
}

#[test]
fn calls_and_arguments() {
    assert_eq!(expr_of("f(1, g(), x + 1)"), "f(1, g(), (x + 1))");
}

#[test]
fn statements_of_every_kind() {
    let p = parse(
        "func add(a, b) { return a + b; }
         func main() { let x = 1; x = add(x, 2); if x > 2 { print(x); } else { x = 0; }
                       while x < 10 { x = x + 1; } x; return x; }",
    )
    .unwrap();
    assert_eq!(p.functions.len(), 2);
    assert_eq!(p.functions[0].name, "add");
    assert_eq!(p.functions[0].params, vec!["a".to_string(), "b".to_string()]);
    let body = &p.functions[1].body.statements;
    assert_eq!(body.len(), 6);
    assert!(matches!(body[0], Statement::VarDecl { .. }));
    assert!(matches!(body[1], Statement::Assignment { .. }));
    assert!(matches!(body[2], Statement::If { else_block: Some(_), .. }));
    assert!(matches!(body[3], Statement::While { .. }));
    assert!(matches!(body[4], Statement::ExprStmt { .. }));
    assert!(matches!(body[5], Statement::Return { .. }));
}

#[test]
fn empty_program_parses() {
    assert_eq!(parse("").unwrap().functions.len(), 0);
}

#[test]
fn missing_semicolon_is_reported_at_the_next_token() {
    let e = parse("func main() {\n  return 1\n}").unwrap_err();
    assert_eq!(e.kind, ParseErrorKind::Expected(TokenType::Semicolon));
    assert_eq!((e.line, e.column), (3, 1));
}

#[test]
fn trailing_comma_in_parameters_is_refused() {
    let e = parse("func f(a,) { }").unwrap_err();
    assert_eq!(e.kind, ParseErrorKind::ExpectedParameterName);
    assert_eq!((e.line, e.column), (1, 10));
}

#[test]
fn other_parse_errors() {
    assert_eq!(parse("func (").unwrap_err().kind, ParseErrorKind::ExpectedFunctionName);
    assert_eq!(
        parse("func main() { let = 1; }").unwrap_err().kind,
        ParseErrorKind::ExpectedVariableName
    );
    assert_eq!(
        parse("func main() { return ; }").unwrap_err().kind,
        ParseErrorKind::ExpectedExpression
    );
    assert_eq!(
        parse("let x = 1;").unwrap_err().kind,
        ParseErrorKind::Expected(TokenType::Func)
    );
    assert_eq!(
        parse("func main() { return 1;").unwrap_err().kind,
        ParseErrorKind::Expected(TokenType::RBrace)
    );
}
