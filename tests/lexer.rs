use edust::lexer::{LexError, Lexer};
use edust::token::TokenType;

fn kinds(src: &str) -> Vec<TokenType> {
    let mut lexer = Lexer::new(src);
    lexer.tokenize().unwrap().into_iter().map(|t| t.typ).collect()
}

#[test]
fn test_basic_tokens() {
    let input = "func main() { let x = 42; }";
    let mut lexer = Lexer::new(input);
    let tokens = lexer.tokenize().unwrap();

    assert!(matches!(tokens[0].typ, TokenType::Func));
    assert!(matches!(tokens[1].typ, TokenType::Ident(_)));
    assert!(matches!(tokens[2].typ, TokenType::LParen));
}

#[test]
fn test_operators() {
    let input = "+ - * / % < <= > >= == != && || !";
    let mut lexer = Lexer::new(input);
    let tokens = lexer.tokenize().unwrap();

    assert!(matches!(tokens[0].typ, TokenType::Plus));
    assert!(matches!(tokens[1].typ, TokenType::Minus));
    assert!(matches!(tokens[2].typ, TokenType::Star));
}

#[test]
fn all_operators_in_order() {
    let k = kinds("+ - * / % < <= > >= == != && || ! =");
    assert_eq!(
        k,
        vec![
            TokenType::Plus,
            TokenType::Minus,
            TokenType::Star,
            TokenType::Slash,
            TokenType::Percent,
            TokenType::Lt,
            TokenType::Le,
            TokenType::Gt,
            TokenType::Ge,
            TokenType::Eq,
            TokenType::Ne,
            TokenType::And,
            TokenType::Or,
            TokenType::Bang,
            TokenType::Assign,
            TokenType::Eof,
        ]
    );
}

#[test]
fn empty_source_is_one_end_token() {
    let mut lexer = Lexer::new("");
    let tokens = lexer.tokenize().unwrap();
    assert_eq!(tokens.len(), 1);
    assert_eq!(tokens[0].typ, TokenType::Eof);
    assert_eq!((tokens[0].line, tokens[0].column), (1, 1));
}

#[test]
fn exactly_one_end_token_at_the_end() {
    let k = kinds("func f(a, b) { while a < b { a = a + 1; } return a; }\n");
    let ends = k.iter().filter(|t| **t == TokenType::Eof).count();
    assert_eq!(ends, 1);
    assert_eq!(*k.last().unwrap(), TokenType::Eof);
}

#[test]
fn keywords_and_identifiers() {
    let k = kinds("func let if else while return funcs _x1 lets");
    assert_eq!(
        k,
        vec![
            TokenType::Func,
            TokenType::Let,
            TokenType::If,
            TokenType::Else,
            TokenType::While,
            TokenType::Return,
            TokenType::Ident("funcs".to_string()),
            TokenType::Ident("_x1".to_string()),
            TokenType::Ident("lets".to_string()),
            TokenType::Eof,
        ]
    );
}

#[test]
fn numbers_and_positions() {
    let mut lexer = Lexer::new("let x\n  = 9223372036854775807;");
    let tokens = lexer.tokenize().unwrap();
    assert_eq!(tokens[3].typ, TokenType::Number(i64::MAX));
    assert_eq!((tokens[0].line, tokens[0].column), (1, 1));
    assert_eq!((tokens[1].line, tokens[1].column), (1, 5));
    assert_eq!((tokens[2].line, tokens[2].column), (2, 3));
    assert_eq!((tokens[3].line, tokens[3].column), (2, 5));
    assert_eq!((tokens[4].line, tokens[4].column), (2, 24));
}

#[test]
fn number_overflow_is_an_error() {
    let mut lexer = Lexer::new("x = 9223372036854775808;");
    assert_eq!(
        lexer.tokenize().unwrap_err(),
        LexError::InvalidNumber { line: 1, column: 5 }
    );
}

#[test]
fn invalid_character_reports_its_position() {
    let mut lexer = Lexer::new("let a = 1;\n  let b = a # 2;");
    assert_eq!(
        lexer.tokenize().unwrap_err(),
        LexError::UnexpectedChar { ch: '#', line: 2, column: 13 }
    );
}

#[test]
fn lone_ampersand_and_bar_are_errors() {
    let mut lexer = Lexer::new("a & b");
    assert_eq!(
        lexer.tokenize().unwrap_err(),
        LexError::UnexpectedChar { ch: '&', line: 1, column: 3 }
    );
    let mut lexer = Lexer::new("\ta | b");
    assert_eq!(
        lexer.tokenize().unwrap_err(),
        LexError::UnexpectedChar { ch: '|', line: 1, column: 4 }
    );
}
