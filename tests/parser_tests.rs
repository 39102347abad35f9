use langlib::expr::Expr;
use langlib::lexer::Lexer;
use langlib::parser::Parser;
use langlib::stmt::{Assignment, Stmt};
use langlib::token::{BinOp, Token};

#[test]
fn test_helpers() {
    let s = "let a = (1 + 1) + 2 - 432; let b = 3;";
    let mut lexer = Lexer::new(s);

    let mut parser = Parser::new(lexer.tokenize().unwrap());

    let fourth = parser.at(4);

    assert!(fourth.is_ok());

    let fourth = fourth.unwrap();

    assert_eq!(fourth, Token::Int(1));
    assert_eq!(parser.curr(), Token::Keyword("let".to_owned()));

    parser.adv();

    assert_eq!(parser.prev(), Token::Keyword("let".to_owned()));

    (1..(parser.len() - 1)).for_each(|_| {
        parser.adv();
    });

    assert!(parser.is_at_end());

    assert_eq!(parser.pos(), parser.len() - 1);
}

#[test]
fn match_rule_success() {
    let a = "let x = 5;";
    let mut lexer = Lexer::new(a);

    let mut parser = Parser::new(lexer.tokenize().unwrap());

    let rules = [
        Token::Keyword("let".to_owned()),
        Token::Ident("x".to_owned()),
        Token::AssignmentSign,
        Token::Int(5),
        Token::Semi,
    ];

    assert!(parser.match_rule(&rules));
}

#[test]
fn match_rule_fail() {
    let a = "let = 5;";
    let mut lexer = Lexer::new(a);

    let mut parser = Parser::new(lexer.tokenize().unwrap());

    let rules = [
        Token::Keyword("let".to_owned()),
        Token::Ident("x".to_owned()),
        Token::AssignmentSign,
        Token::Int(0),
        Token::Semi,
    ];

    assert!(!parser.match_rule(&rules));
}

#[test]
fn matches_success() {
    let pm = [Token::Op(BinOp::Add), Token::Op(BinOp::Sub)];

    let a = "+ -3";
    let mut lexer = Lexer::new(a);

    let mut parser = Parser::new(lexer.tokenize().unwrap());

    assert_eq!(parser.matches(&pm), Some(Token::Op(BinOp::Add)));
    assert_eq!(parser.matches(&pm), Some(Token::Op(BinOp::Sub)));
    assert_eq!(parser.matches(&pm), None)
}

#[test]
fn test_compare_nums_success() {
    let s = "(3 + 15) / 2 == 9";
    let mut lexer = Lexer::new(s);

    let mut parser = Parser::new(lexer.tokenize().unwrap());

    let result = parser.compare();
    assert!(result.is_ok());

    let result = result.unwrap();

    assert!(result.eval().is_ok());

    let result = result.eval().unwrap();
    assert_eq!(result, Expr::Bool(true));
}

#[test]
fn test_compare_nums_fail() {
    let s = "(3 + 15) / 2 == 20";
    let mut lexer = Lexer::new(s);

    let mut parser = Parser::new(lexer.tokenize().unwrap());

    let result = parser.compare();
    assert!(result.is_ok());

    let result = result.unwrap().eval();
    assert!(result.is_ok());

    let result = result.unwrap();
    assert_eq!(result, Expr::Bool(false));
}

#[test]
fn test_compare_strs_success() {
    let s = " \"This is a string\" == \"This is a string\"";
    let mut lexer = Lexer::new(s);

    let mut parser = Parser::new(lexer.tokenize().unwrap());

    let result = parser.compare();
    assert!(result.is_ok());

    let result = result.unwrap().eval();

    assert!(result.is_ok());

    let result = result.unwrap();

    assert_eq!(result, Expr::Bool(true));
}

#[test]
fn test_compare_strs_fail() {
    let s = " \"This is a string\" == \"This is another string\"";

    println!("================================================");

    let mut lexer = Lexer::new(s);

    let mut parser = Parser::new(lexer.tokenize().unwrap());

    let result = parser.compare();
    assert!(result.is_ok());

    let result = result.unwrap().eval();

    assert!(result.is_ok());

    let result = result.unwrap();
    assert_eq!(result, Expr::Bool(false));
}

#[test]
pub fn compare_bools_success() {
    let s = "true == true";
    let mut lexer = Lexer::new(s);

    let mut parser = Parser::new(lexer.tokenize().unwrap());

    let result = parser.compare();
    assert!(result.is_ok());

    let result = result.unwrap().eval();

    assert!(result.is_ok());

    let result = result.unwrap();

    assert_eq!(result, Expr::Bool(true));
}

#[test]
pub fn compare_bools_fail() {
    let s = "true == false";
    let mut lexer = Lexer::new(s);

    let mut parser = Parser::new(lexer.tokenize().unwrap());

    let result = parser.compare();
    assert!(result.is_ok());

    let result = result.unwrap().eval();

    assert!(result.is_ok());

    let result = result.unwrap();

    assert_eq!(result, Expr::Bool(false));
}

#[test]
pub fn test_unary_negation() {
    let s = "let x = !(true == false);";

    let mut lexer = Lexer::new(s);

    let binding_stmt = Parser::new(lexer.tokenize().unwrap()).stmt();

    assert!(binding_stmt.is_ok());

    let binding_stmt = binding_stmt.unwrap();

    assert_eq!(
        binding_stmt,
        Stmt::Assignment(Assignment {
            ident: "x".to_owned(),
            val: Expr::Bool(true)
        })
    );
}

#[test]
pub fn test_unary_negation_but_with_strings() {
    let s = "let x = !(\"this is a string.\" == \"this is another string.\");";

    let mut lexer = Lexer::new(s);

    let binding_stmt = Parser::new(lexer.tokenize().unwrap()).stmt();

    assert!(binding_stmt.is_ok());

    let binding_stmt = binding_stmt.unwrap();

    assert_eq!(
        binding_stmt,
        Stmt::Assignment(Assignment {
            ident: "x".to_owned(),
            val: Expr::Bool(true)
        })
    );
}
