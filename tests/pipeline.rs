use edust::lexer::LexError;
use edust::parser::ParseErrorKind;
use edust::semantic::SemanticError;
use edust::token::TokenType;
use edust::{analyze_source, compile_only, CompileError};

#[test]
fn scenario_programs_are_accepted() {
    let sources = [
        "func main() { let x = 42; return x; }",
        "func main() { let a = 10; let b = 20; let c = a + b * 2; return c; }",
        "func main() { let x = 5; if x > 3 { return 1; } else { return 0; } }",
        "func main() { let i = 0; let sum = 0; while i < 5 { sum = sum + i; i = i + 1; } return sum; }",
        "func add(a,b) { return a + b; } func main() { return add(10,20); }",
        "func main() { let a = 1; let b = 0; if a && !b { if a || b { return 1; } } return 0; }",
    ];
    for s in sources.iter() {
        assert_eq!(compile_only(s), Ok(()), "{}", s);
    }
}

#[test]
fn analyze_source_returns_the_program() {
    let p = analyze_source("func add(a,b) { return a + b; } func main() { return add(10,20); }")
        .unwrap();
    assert_eq!(p.functions.len(), 2);
    assert_eq!(p.functions[1].name, "main");
}

#[test]
fn each_stage_reports_its_own_error() {
    assert_eq!(
        compile_only("func main() { return 1 @ 2; }"),
        Err(CompileError::Lex(LexError::UnexpectedChar { ch: '@', line: 1, column: 24 }))
    );
    match compile_only("func main() { return (1; }") {
        Err(CompileError::Parse(e)) => {
            assert_eq!(e.kind, ParseErrorKind::Expected(TokenType::RParen));
            assert_eq!((e.line, e.column), (1, 24));
        }
        other => panic!("unexpected {:?}", other),
    }
    assert_eq!(
        compile_only("func f() { return 0; }"),
        Err(CompileError::Semantic(SemanticError::NoMain))
    );
}

#[test]
fn compile_only_plans_every_function() {
    assert_eq!(
        compile_only("func f(a) { let b = a; if b { return 1; } return 2; } func main() { return f(3); }"),
        Ok(())
    );
}
