use langlib::expr::{coerce_to_boolean, coerce_to_integer, BinExpr, Expr, ExprError};
use langlib::lexer::{tokenize, LexError};
use langlib::parser::{Parser, ParserError};
use langlib::stmt::{Assignment, Stmt, StmtErr};
use langlib::token::{BinOp, Token, TokenKind, UnOp};

fn eval_source(s: &str) -> Result<Expr, ParserError> {
    let mut parser = Parser::new(tokenize(s).unwrap());
    let tree = parser.compare()?;
    tree.eval().map_err(ParserError::ExprError)
}

fn bin(lhs: Expr, rhs: Expr, op: BinOp) -> Expr {
    Expr::Bin(BinExpr::new(Box::new(lhs), Box::new(rhs), op))
}

#[test]
fn arithmetic_respects_precedence() {
    assert_eq!(eval_source("2 + 3 * 4"), Ok(Expr::Num(14)));
    assert_eq!(eval_source("(2 + 3) * 4"), Ok(Expr::Num(20)));
    assert_eq!(eval_source("10 - 4 - 3"), Ok(Expr::Num(3)));
    assert_eq!(eval_source("100 / 10 / 5"), Ok(Expr::Num(2)));
    assert_eq!(eval_source("7 / 2"), Ok(Expr::Num(3)));
}

#[test]
fn division_truncates_toward_zero() {
    let e = bin(Expr::Num(-7), Expr::Num(2), BinOp::Div);
    assert_eq!(e.eval(), Ok(Expr::Num(-3)));
    let e = bin(Expr::Num(7), Expr::Num(-2), BinOp::Div);
    assert_eq!(e.eval(), Ok(Expr::Num(-3)));
}

#[test]
fn division_by_zero_fails() {
    assert_eq!(eval_source("1 / 0"), Err(ParserError::ExprError(ExprError::DivisionByZero)));
}

#[test]
fn overflow_fails() {
    assert_eq!(
        eval_source("2147483647 + 1"),
        Err(ParserError::ExprError(ExprError::FailedBinEvaluation))
    );
    let e = bin(Expr::Num(i32::MIN), Expr::Num(-1), BinOp::Div);
    assert_eq!(e.eval(), Err(ExprError::FailedBinEvaluation));
}

#[test]
fn comparisons_on_integers() {
    assert_eq!(eval_source("3 >= 3"), Ok(Expr::Bool(true)));
    assert_eq!(eval_source("3 > 3"), Ok(Expr::Bool(false)));
    assert_eq!(eval_source("2 < 3"), Ok(Expr::Bool(true)));
    assert_eq!(eval_source("4 <= 3"), Ok(Expr::Bool(false)));
    assert_eq!(eval_source("4 != 3"), Ok(Expr::Bool(true)));
    assert_eq!(
        eval_source("\"a\" < 3"),
        Err(ParserError::ExprError(ExprError::FailedConversion))
    );
}

#[test]
fn equality_across_kinds() {
    let e = bin(Expr::Num(1), Expr::Str("1".to_owned()), BinOp::EqSign);
    assert_eq!(e.eval(), Ok(Expr::Bool(false)));
    let e = bin(Expr::Null, Expr::Bool(false), BinOp::NeqSign);
    assert_eq!(e.eval(), Ok(Expr::Bool(true)));
    assert_eq!(eval_source("null == null"), Ok(Expr::Bool(true)));
}

#[test]
fn boolean_coercion_table() {
    assert_eq!(coerce_to_boolean(&Expr::Num(0)), Some(false));
    assert_eq!(coerce_to_boolean(&Expr::Num(5)), Some(true));
    assert_eq!(coerce_to_boolean(&Expr::Num(-5)), Some(false));
    assert_eq!(coerce_to_boolean(&Expr::Str(String::new())), Some(false));
    assert_eq!(coerce_to_boolean(&Expr::Str("x".to_owned())), Some(true));
    assert_eq!(coerce_to_boolean(&Expr::Null), Some(false));
    assert_eq!(coerce_to_boolean(&Expr::Var("x".to_owned())), None);
    assert_eq!(coerce_to_integer(&Expr::Num(4)), Some(4));
    assert_eq!(coerce_to_integer(&Expr::Bool(true)), None);
}

#[test]
fn logical_operators_coerce() {
    let e = bin(Expr::Num(1), Expr::Str(String::new()), BinOp::And);
    assert_eq!(e.eval(), Ok(Expr::Bool(false)));
    let e = bin(Expr::Null, Expr::Str("a".to_owned()), BinOp::Or);
    assert_eq!(e.eval(), Ok(Expr::Bool(true)));
}

#[test]
fn negation_and_double_negation() {
    assert_eq!(eval_source("!!5"), Ok(Expr::Bool(true)));
    assert_eq!(eval_source("!!0"), Ok(Expr::Bool(false)));
    assert_eq!(eval_source("!\"\""), Ok(Expr::Bool(true)));
    let e = Expr::Unary(UnOp::Bang, Box::new(Expr::Null));
    assert_eq!(e.eval(), Ok(Expr::Bool(true)));
}

#[test]
fn variables_do_not_evaluate() {
    assert_eq!(Expr::Var("a".to_owned()).eval(), Err(ExprError::FailedConversion));
    let stmt = Stmt::from_tokens(&tokenize("a + 1").unwrap()).unwrap();
    assert_eq!(
        stmt,
        Stmt::ExprStatement(bin(Expr::Var("a".to_owned()), Expr::Num(1), BinOp::Add))
    );
}

#[test]
fn two_statements_in_order() {
    let mut parser = Parser::new(tokenize("let a = 1; let b = 2;").unwrap());
    let stmts = parser.get_statements().unwrap();
    assert_eq!(
        stmts,
        vec![
            Stmt::Assignment(Assignment { ident: "a".to_owned(), val: Expr::Num(1) }),
            Stmt::Assignment(Assignment { ident: "b".to_owned(), val: Expr::Num(2) }),
        ]
    );
}

#[test]
fn empty_statement_fails() {
    let mut parser = Parser::new(tokenize("let a = 1;;").unwrap());
    assert_eq!(parser.get_statements(), Err(ParserError::EmptyMatch));
    let mut parser = Parser::new(tokenize(";").unwrap());
    assert_eq!(parser.get_statements(), Err(ParserError::EmptyMatch));
}

#[test]
fn string_comparison_assignment() {
    let s = "let x = \"this is a string.\" == \"this is another string.\";";
    let mut parser = Parser::new(tokenize(s).unwrap());
    let stmts = parser.get_statements().unwrap();
    assert_eq!(stmts.len(), 1);
    match &stmts[0] {
        Stmt::Assignment(a) => {
            assert_eq!(a.ident, "x");
            assert_eq!(a.val.eval(), Ok(Expr::Bool(false)));
        }
        other => panic!("unexpected statement {other:?}"),
    }
}

#[test]
fn bracketed_division_compares() {
    assert_eq!(eval_source("(3 + 15) / 2 == 9"), Ok(Expr::Bool(true)));
}

#[test]
fn negated_assignment() {
    let mut parser = Parser::new(tokenize("let x = !(true == false);").unwrap());
    let stmts = parser.get_statements().unwrap();
    assert_eq!(
        stmts,
        vec![Stmt::Assignment(Assignment { ident: "x".to_owned(), val: Expr::Bool(true) })]
    );
}

#[test]
fn let_without_name_fails() {
    let mut parser = Parser::new(tokenize("let = 5;").unwrap());
    assert_eq!(parser.get_statements(), Err(ParserError::Expected(TokenKind::Ident)));
}

#[test]
fn statement_errors() {
    let mut parser = Parser::new(tokenize("let x =;").unwrap());
    assert_eq!(parser.get_statements(), Err(ParserError::InvalidLetStatement));
    let mut parser = Parser::new(tokenize("let x 5 1;").unwrap());
    assert_eq!(parser.get_statements(), Err(ParserError::Expected(TokenKind::AssignmentSign)));
    let tokens = vec![Token::Keyword("while".to_owned()), Token::Int(1)];
    assert_eq!(
        Stmt::from_tokens(&tokens),
        Err(ParserError::StmtErr(StmtErr::UnknownKeyword))
    );
    assert_eq!(Stmt::from_tokens(&[]), Err(ParserError::EmptyMatch));
}

#[test]
fn expression_errors() {
    assert_eq!(eval_source("(1 + 2"), Err(ParserError::Expected(TokenKind::RightBracket)));
    assert_eq!(eval_source(") 1"), Err(ParserError::UnexpectedToken(TokenKind::RightBracket)));
    assert_eq!(eval_source("1 +"), Err(ParserError::InvalidTokenIndex));
}

#[test]
fn lexer_tokens() {
    assert_eq!(
        tokenize("let x1 = (a >= 10) != !true; print null").unwrap(),
        vec![
            Token::Keyword("let".to_owned()),
            Token::Ident("x1".to_owned()),
            Token::AssignmentSign,
            Token::LeftBracket,
            Token::Ident("a".to_owned()),
            Token::Op(BinOp::GreaterEqSign),
            Token::Int(10),
            Token::RightBracket,
            Token::Op(BinOp::NeqSign),
            Token::UnaryOp(UnOp::Bang),
            Token::Bool(true),
            Token::Semi,
            Token::Keyword("print".to_owned()),
            Token::Null,
        ]
    );
    assert_eq!(
        tokenize("a && b || \"s t\" <= 2 - 1 * 3 / 4 < 5").unwrap(),
        vec![
            Token::Ident("a".to_owned()),
            Token::Op(BinOp::And),
            Token::Ident("b".to_owned()),
            Token::Op(BinOp::Or),
            Token::Str("s t".to_owned()),
            Token::Op(BinOp::LessEqSign),
            Token::Int(2),
            Token::Op(BinOp::Sub),
            Token::Int(1),
            Token::Op(BinOp::Mul),
            Token::Int(3),
            Token::Op(BinOp::Div),
            Token::Int(4),
            Token::Op(BinOp::LessSign),
            Token::Int(5),
        ]
    );
    assert_eq!(tokenize("  \t\n"), Ok(vec![]));
}

#[test]
fn lexer_errors() {
    assert_eq!(tokenize("1 @ 2"), Err(LexError::IllegalCharacter));
    assert_eq!(tokenize("a & b"), Err(LexError::IllegalCharacter));
    assert_eq!(tokenize("\"abc"), Err(LexError::UnterminatedString));
    assert_eq!(tokenize("2147483648"), Err(LexError::IntegerOverflow));
    assert_eq!(tokenize("2147483647"), Ok(vec![Token::Int(i32::MAX)]));
}

#[test]
fn print_statement() {
    let mut parser = Parser::new(tokenize("print \"hi\";").unwrap());
    let stmts = parser.get_statements().unwrap();
    assert_eq!(stmts, vec![Stmt::Print("hi".to_owned())]);
    assert_eq!(stmts[0].execute(), Ok(None));
    let mut parser = Parser::new(tokenize("print 3;").unwrap());
    assert_eq!(parser.get_statements(), Err(ParserError::Expected(TokenKind::Str)));
}

#[test]
fn execute_statements() {
    let stmt = Stmt::from_tokens(&tokenize("1 + 2").unwrap()).unwrap();
    assert_eq!(stmt.execute(), Ok(Some(Expr::Num(3))));
    let stmt = Stmt::from_tokens(&tokenize("let a = 1").unwrap()).unwrap();
    assert_eq!(
        stmt.execute(),
        Err(ParserError::StmtErr(StmtErr::UnsupportedStatement))
    );
}

#[test]
fn value_text() {
    assert_eq!(Expr::Num(-42).to_text(), Some("-42".to_owned()));
    assert_eq!(Expr::Num(i32::MIN).to_text(), Some("-2147483648".to_owned()));
    assert_eq!(Expr::Num(907).to_text(), Some("907".to_owned()));
    assert_eq!(Expr::Str("a b".to_owned()).to_text(), Some("\"a b\"".to_owned()));
    assert_eq!(Expr::Bool(false).to_text(), Some("false".to_owned()));
    assert_eq!(Expr::Null.to_text(), Some("null".to_owned()));
    assert_eq!(Expr::Var("v".to_owned()).to_text(), None);
}

#[test]
fn parser_cursor_primitives() {
    let mut parser = Parser::new(tokenize("1 + 2").unwrap());
    assert_eq!(parser.at(3), Err(ParserError::InvalidTokenIndex));
    assert!(parser.match_rule(&[Token::Int(0), Token::Op(BinOp::Add)]));
    assert_eq!(parser.pos(), 2);
    assert!(!parser.match_rule(&[Token::Ident("x".to_owned())]));
    assert_eq!(parser.pos(), 2);
    assert!(parser.is_at_end());
    assert_eq!(parser.curr().kind(), TokenKind::Int);
}

#[test]
fn rendered_tokens_scan_back() {
    let tokens = vec![
        Token::Keyword("let".to_owned()),
        Token::Ident("x".to_owned()),
        Token::AssignmentSign,
        Token::LeftBracket,
        Token::Int(12),
        Token::Op(BinOp::Add),
        Token::Str("hi there".to_owned()),
        Token::RightBracket,
        Token::Op(BinOp::GreaterEqSign),
        Token::UnaryOp(UnOp::Bang),
        Token::Null,
        Token::Op(BinOp::Or),
        Token::Bool(false),
        Token::Semi,
    ];
    let text = "let x = ( 12 + \"hi there\" ) >= ! null || false ; ";
    let scanned = tokenize(text).unwrap();
    assert_eq!(scanned, tokens);
    let kinds: Vec<TokenKind> = scanned.iter().map(|t| t.kind()).collect();
    let expected: Vec<TokenKind> = tokens.iter().map(|t| t.kind()).collect();
    assert_eq!(kinds, expected);
}

#[test]
fn empty_rule_matches_past_the_end() {
    let mut parser = Parser::new(vec![]);
    parser.adv();
    assert!(parser.match_rule(&[]));
    assert_eq!(parser.pos(), 1);
    let mut parser = Parser::new(tokenize("1").unwrap());
    assert!(!parser.match_rule(&[Token::Int(0), Token::Int(0)]));
    assert_eq!(parser.pos(), 0);
}

#[test]
fn leftover_tokens_fail() {
    assert_eq!(
        Stmt::from_tokens(&tokenize("1 )").unwrap()),
        Err(ParserError::UnexpectedToken(TokenKind::RightBracket))
    );
    assert_eq!(
        Stmt::from_tokens(&tokenize("true && false").unwrap()),
        Err(ParserError::UnexpectedToken(TokenKind::Op))
    );
    let mut parser = Parser::new(tokenize("let a = 1 2; print \"x\" 3;").unwrap());
    assert_eq!(parser.get_statements(), Err(ParserError::UnexpectedToken(TokenKind::Int)));
    let mut parser = Parser::new(tokenize("print \"x\" 3;").unwrap());
    assert_eq!(parser.get_statements(), Err(ParserError::UnexpectedToken(TokenKind::Int)));
    assert_eq!(
        Stmt::from_tokens(&tokenize("1 + 2;").unwrap()),
        Ok(Stmt::ExprStatement(Expr::Num(3)))
    );
}

#[test]
fn bracketed_arithmetic_statement() {
    assert_eq!(
        Stmt::from_tokens(&tokenize("((7 - 1) / (2 * (1 + 1)))").unwrap()),
        Ok(Stmt::ExprStatement(Expr::Num(1)))
    );
}

#[test]
fn execute_hands_back_unevaluated_expressions() {
    let stmt = Stmt::from_tokens(&tokenize("a + 1").unwrap()).unwrap();
    assert_eq!(
        stmt.execute(),
        Ok(Some(bin(Expr::Var("a".to_owned()), Expr::Num(1), BinOp::Add)))
    );
    let stmt = Stmt::from_tokens(&tokenize("1 / 0").unwrap()).unwrap();
    assert_eq!(
        stmt.execute(),
        Ok(Some(bin(Expr::Num(1), Expr::Num(0), BinOp::Div)))
    );
}

#[test]
fn clones_are_equal() {
    let e = Expr::Unary(UnOp::Bang, Box::new(bin(Expr::Str("s".to_owned()), Expr::Null, BinOp::EqSign)));
    assert_eq!(e.clone(), e);
    let s = Stmt::Assignment(Assignment { ident: "x".to_owned(), val: e.clone() });
    assert_eq!(s.clone(), s);
}

fn token_text(t: &Token) -> String {
    match t {
        Token::Int(n) => n.to_string(),
        Token::Str(s) => format!("\"{s}\""),
        Token::Ident(s) | Token::Keyword(s) => s.clone(),
        Token::Bool(b) => b.to_string(),
        Token::Null => "null".to_owned(),
        Token::Op(op) => match op {
            BinOp::Add => "+",
            BinOp::Sub => "-",
            BinOp::Mul => "*",
            BinOp::Div => "/",
            BinOp::EqSign => "==",
            BinOp::NeqSign => "!=",
            BinOp::GreaterSign => ">",
            BinOp::LessSign => "<",
            BinOp::GreaterEqSign => ">=",
            BinOp::LessEqSign => "<=",
            BinOp::And => "&&",
            BinOp::Or => "||",
        }
        .to_owned(),
        Token::UnaryOp(_) => "!".to_owned(),
        Token::AssignmentSign => "=".to_owned(),
        Token::Semi => ";".to_owned(),
        Token::LeftBracket => "(".to_owned(),
        Token::RightBracket => ")".to_owned(),
    }
}

#[test]
fn joined_token_text_scans_back() {
    let src = "let x=(12+\"a b\")>=!null||false;print\"hi\";y<=3";
    let ts = tokenize(src).unwrap();
    let joined: Vec<String> = ts.iter().map(token_text).collect();
    let ts2 = tokenize(&joined.join(" ")).unwrap();
    assert_eq!(ts2, ts);
    let mut p = Parser::new(ts);
    let mut p2 = Parser::new(ts2);
    assert_eq!(p2.get_statements(), p.get_statements());
}
