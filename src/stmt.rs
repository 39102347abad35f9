use vstd::prelude::*;

use crate::expr::Expr;
use crate::parser::{ParserError, expr_at, parse_expr};
use crate::token::{Token, TokenKind, kind_of};

verus! {

/// A statement of the language.
#[derive(Debug, Clone, PartialEq, Eq)]
pub enum Stmt {
    Assignment(Assignment),
    Print(String),
    ExprStatement(Expr),
}

/// A `let` binding of a name to a value.
#[derive(Debug, Clone, PartialEq, Eq)]
pub struct Assignment {
    pub ident: String,
    pub val: Expr,
}

/// Failures of statement classification and execution.
#[derive(Debug, Clone, Copy, PartialEq, Eq, Structural)]
pub enum StmtErr {
    /// A statement could not be read as the kind it claims to be.
    FailedConversion,
    /// A statement that starts with a keyword that opens no statement.
    UnknownKeyword,
    /// A statement whose execution needs a variable environment.
    UnsupportedStatement,
}

/// The statement that the tokens `s` of one statement form. A `let`
/// statement is `let`, a name, `=` and an expression (a misplaced name or
/// `=` is reported before a missing expression); a `print` statement
/// is `print` and a string literal; anything else not led by a keyword is an
/// expression. The expression (or the string of a print) must reach the end
/// of the slice or a terminator; a token left over is unexpected.
pub open spec fn stmt_of(s: Seq<Token>) -> Result<Stmt, ParserError> {
    if s.len() == 0 {
        Err(ParserError::EmptyMatch)
    } else {
        match s[0] {
            Token::Keyword(k) => if k@ == "let"@ {
                if s.len() >= 2 && !(s[1] is Ident) {
                    Err(ParserError::Expected(TokenKind::Ident))
                } else if s.len() >= 3 && !(s[2] is AssignmentSign) {
                    Err(ParserError::Expected(TokenKind::AssignmentSign))
                } else if s.len() < 4 {
                    Err(ParserError::InvalidLetStatement)
                } else {
                    match parse_expr(s, 3) {
                        Ok((e, q)) => if ends_at(s, q) {
                            Ok(Stmt::Assignment(Assignment { ident: s[1]->Ident_0, val: e }))
                        } else {
                            Err(ParserError::UnexpectedToken(kind_of(s[q])))
                        },
                        Err(err) => Err(err),
                    }
                }
            } else if k@ == "print"@ {
                if s.len() >= 2 && s[1] is Str && !ends_at(s, 2) {
                    Err(ParserError::UnexpectedToken(kind_of(s[2])))
                } else if s.len() >= 2 && s[1] is Str {
                    Ok(Stmt::Print(s[1]->Str_0))
                } else {
                    Err(ParserError::Expected(TokenKind::Str))
                }
            } else {
                Err(ParserError::StmtErr(StmtErr::UnknownKeyword))
            },
            _ => match parse_expr(s, 0) {
                Ok((e, q)) => if ends_at(s, q) {
                    Ok(Stmt::ExprStatement(e))
                } else {
                    Err(ParserError::UnexpectedToken(kind_of(s[q])))
                },
                Err(err) => Err(err),
            },
        }
    }
}

/// Whether a statement's tokens end at `q`: at the end of the slice or at a
/// terminator.
pub open spec fn ends_at(s: Seq<Token>, q: int) -> bool {
    q >= s.len() || s[q] is Semi
}

/// What executing a statement yields: the expression of an expression
/// statement (already folded to its value where it evaluates), nothing for a
/// print (its text is written by the caller); an assignment is refused.
pub open spec fn execution_of(s: Stmt) -> Result<Option<Expr>, ParserError> {
    match s {
        Stmt::Assignment(_) => Err(ParserError::StmtErr(StmtErr::UnsupportedStatement)),
        Stmt::Print(_) => Ok(None),
        Stmt::ExprStatement(e) => Ok(Some(e)),
    }
}

pub(crate) fn is_word(k: &String, w: &str) -> (r: bool)
    ensures
        r == (k@ == w@),
{
    let n = k.as_str().unicode_len();
    if n != w.unicode_len() {
        return false;
    }
    let mut i: usize = 0;
    while i < n
        invariant
            n == k@.len(),
            n == w@.len(),
            i <= n,
            forall|j: int| 0 <= j < i ==> k@[j] == w@[j],
        decreases n - i,
    {
        if k.as_str().get_char(i) != w.get_char(i) {
            return false;
        }
        i = i + 1;
    }
    assert(k@ =~= w@);
    true
}

/// The failure for tokens left over at `q`, if any.
fn end_error(tokens: &[Token], q: usize) -> (r: Option<ParserError>)
    ensures
        ends_at(tokens@, q as int) ==> r is None,
        !ends_at(tokens@, q as int) ==> r == Some(ParserError::UnexpectedToken(kind_of(tokens@[q as int]))),
{
    if q >= tokens.len() || tokens[q].kind() == TokenKind::Semi {
        None
    } else {
        Some(ParserError::UnexpectedToken(tokens[q].kind()))
    }
}

impl Stmt {
    /// Classifies the tokens of one statement and parses its expression.
    pub fn from_tokens(tokens: &[Token]) -> (r: Result<Stmt, ParserError>)
        ensures
            r == stmt_of(tokens@),
    {
        if tokens.len() == 0 {
            return Err(ParserError::EmptyMatch);
        }
        match &tokens[0] {
            Token::Keyword(keyword) => {
                if is_word(keyword, "let") {
                    if tokens.len() >= 2 && tokens[1].kind() != TokenKind::Ident {
                        return Err(ParserError::Expected(TokenKind::Ident));
                    }
                    if tokens.len() >= 3 && tokens[2].kind() != TokenKind::AssignmentSign {
                        return Err(ParserError::Expected(TokenKind::AssignmentSign));
                    }
                    if tokens.len() < 4 {
                        return Err(ParserError::InvalidLetStatement);
                    }
                    let ident = match &tokens[1] {
                        Token::Ident(ident) => ident.clone(),
                        _ => return Err(ParserError::Expected(TokenKind::Ident)),
                    };
                    match expr_at(tokens, 3) {
                        Ok((val, q)) => match end_error(tokens, q) {
                            Some(err) => Err(err),
                            None => Ok(Stmt::Assignment(Assignment { ident, val })),
                        },
                        Err(err) => Err(err),
                    }
                } else if is_word(keyword, "print") {
                    if tokens.len() >= 2 {
                        if let Token::Str(text) = &tokens[1] {
                            return match end_error(tokens, 2) {
                                Some(err) => Err(err),
                                None => Ok(Stmt::Print(text.clone())),
                            };
                        }
                    }
                    Err(ParserError::Expected(TokenKind::Str))
                } else {
                    Err(ParserError::StmtErr(StmtErr::UnknownKeyword))
                }
            },
            _ => match expr_at(tokens, 0) {
                Ok((e, q)) => match end_error(tokens, q) {
                    Some(err) => Err(err),
                    None => Ok(Stmt::ExprStatement(e)),
                },
                Err(err) => Err(err),
            },
        }
    }

    /// Executes the statement: an expression statement gives its expression,
    /// a print gives nothing, an assignment is refused.
    pub fn execute(&self) -> (r: Result<Option<Expr>, ParserError>)
        ensures
            r == execution_of(*self),
    {
        match self {
            Stmt::Assignment(_) => Err(ParserError::StmtErr(StmtErr::UnsupportedStatement)),
            Stmt::Print(_) => Ok(None),
            Stmt::ExprStatement(e) => Ok(Some(e.clone())),
        }
    }
}

} // verus!
