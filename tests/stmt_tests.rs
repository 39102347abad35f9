use langlib::expr::Expr;
use langlib::stmt::{Assignment, Stmt};
use langlib::token::{Op, Token};

#[test]
fn successful_let_stmt() {
    let tokens = vec![
        Token::Keyword("let".to_owned()),
        Token::Ident("coolVariable".to_owned()),
        Token::AssignmentSign,
        Token::LeftBracket,
        Token::Int(1),
        Token::Op(Op::Add),
        Token::Int(1),
        Token::RightBracket,
        Token::Semi,
    ];

    let binding = Stmt::from_tokens(&tokens);

    assert!(binding.is_ok());

    let binding = binding.unwrap();

    assert_eq!(
        binding,
        Stmt::Assignment(Assignment {
            ident: "coolVariable".to_owned(),
            val: Expr::Num(2)
        })
    )
}

#[test]
fn bad_let_stmt() {
    let tokens = vec![
        Token::Keyword("let".to_owned()),
        Token::Ident("coolVariable".to_owned()),
        Token::AssignmentSign,
        Token::LeftBracket,
        Token::Int(1),
        Token::Op(Op::Add),
        Token::Int(1),
        Token::RightBracket,
        Token::Semi,
    ];

    let binding = Stmt::from_tokens(&tokens);

    assert!(binding.is_ok());

    let binding = binding.unwrap();

    assert_ne!(
        binding,
        Stmt::Assignment(Assignment {
            ident: "coolVariable".to_owned(),
            val: Expr::Num(3)
        })
    )
}
