use edust::lexer::Lexer;
use edust::parser::Parser;
use edust::semantic::{SemanticAnalyzer, SemanticError};

fn check(src: &str) -> Result<(), SemanticError> {
    let mut lexer = Lexer::new(src);
    let tokens = lexer.tokenize().unwrap();
    let mut parser = Parser::new(tokens);
    let program = parser.parse().unwrap();
    let mut analyzer = SemanticAnalyzer::new();
    analyzer.analyze(&program)
}

#[test]
fn well_formed_program_is_accepted() {
    assert_eq!(
        check("func add(a, b) { return a + b; } func main() { return add(10, 20); }"),
        Ok(())
    );
}

#[test]
fn redeclaration_in_same_block_is_refused() {
    assert_eq!(
        check("func main() { let x = 1; let x = 2; return x; }"),
        Err(SemanticError::AlreadyDeclared("x".to_string()))
    );
}

#[test]
fn shadowing_in_nested_blocks_is_accepted() {
    assert_eq!(
        check(
            "func main() { let x = 1; if x { let x = 2; } else { let x = 3; }
                           while x < 3 { let x = 4; } return x; }"
        ),
        Ok(())
    );
}

#[test]
fn inner_declaration_ends_with_its_block() {
    assert_eq!(
        check("func main() { if 1 { let y = 2; } return y; }"),
        Err(SemanticError::UndefinedVariable("y".to_string()))
    );
}

#[test]
fn parameter_clashing_with_local_is_refused() {
    assert_eq!(
        check("func f(a) { let a = 1; return a; } func main() { return f(1); }"),
        Err(SemanticError::AlreadyDeclared("a".to_string()))
    );
}

#[test]
fn program_without_main_is_refused() {
    assert_eq!(check("func f() { return 1; }"), Err(SemanticError::NoMain));
    assert_eq!(check(""), Err(SemanticError::NoMain));
}

#[test]
fn main_with_parameters_is_refused() {
    assert_eq!(
        check("func main(a) { return a; }"),
        Err(SemanticError::MainHasParameters)
    );
}

#[test]
fn duplicate_function_is_refused() {
    assert_eq!(
        check("func f() { return 1; } func main() { return 0; } func f() { return 2; }"),
        Err(SemanticError::DuplicateFunction("f".to_string()))
    );
}

#[test]
fn duplicate_parameter_is_refused() {
    assert_eq!(
        check("func f(a, a) { return a; } func main() { return 0; }"),
        Err(SemanticError::DuplicateParameter("a".to_string()))
    );
}

#[test]
fn undefined_function_is_refused() {
    assert_eq!(
        check("func main() { return g(1); }"),
        Err(SemanticError::UndefinedFunction("g".to_string()))
    );
}

#[test]
fn wrong_number_of_arguments_is_refused() {
    assert_eq!(
        check("func f(a, b) { return a; } func main() { return f(1); }"),
        Err(SemanticError::ArityMismatch { name: "f".to_string(), expected: 2, got: 1 })
    );
}

#[test]
fn print_takes_exactly_one_argument() {
    assert_eq!(
        check("func main() { print(1, 2); return 0; }"),
        Err(SemanticError::PrintArity)
    );
    assert_eq!(check("func main() { return 1 + print(2); }"), Ok(()));
}

#[test]
fn undefined_variable_is_refused() {
    assert_eq!(
        check("func main() { x = 1; return 0; }"),
        Err(SemanticError::UndefinedVariable("x".to_string()))
    );
    assert_eq!(
        check("func main() { return z; }"),
        Err(SemanticError::UndefinedVariable("z".to_string()))
    );
}

#[test]
fn analyzer_can_be_reused() {
    let mut lexer = Lexer::new("func main() { return 0; }");
    let mut parser = Parser::new(lexer.tokenize().unwrap());
    let program = parser.parse().unwrap();
    let mut analyzer = SemanticAnalyzer::new();
    assert_eq!(analyzer.analyze(&program), Ok(()));
    assert_eq!(analyzer.analyze(&program), Ok(()));
}
