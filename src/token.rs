use vstd::prelude::*;

verus! {

/// Binary operators of the language.
#[derive(Debug, Clone, Copy, PartialEq, Eq, Structural)]
pub enum BinOp {
    Add,
    Sub,
    Mul,
    Div,
    EqSign,
    NeqSign,
    GreaterSign,
    LessSign,
    GreaterEqSign,
    LessEqSign,
    And,
    Or,
}

/// The operator carried by an operator token.
pub type Op = BinOp;

/// Unary operators of the language.
#[derive(Debug, Clone, Copy, PartialEq, Eq, Structural)]
pub enum UnOp {
    Bang,
}

/// The shape of a token, without its payload.
#[derive(Debug, Clone, Copy, PartialEq, Eq, Structural)]
pub enum TokenKind {
    Int,
    Str,
    Ident,
    Keyword,
    Bool,
    Null,
    Op,
    UnaryOp,
    AssignmentSign,
    Semi,
    LeftBracket,
    RightBracket,
}

/// A lexical unit of the language.
#[derive(Debug, Clone, PartialEq, Eq)]
pub enum Token {
    Int(i32),
    Str(String),
    Ident(String),
    Keyword(String),
    Bool(bool),
    Null,
    Op(BinOp),
    UnaryOp(UnOp),
    AssignmentSign,
    Semi,
    LeftBracket,
    RightBracket,
}

/// A token with its text payload seen as a sequence of characters.
pub enum TokenView {
    Int(i32),
    Str(Seq<char>),
    Ident(Seq<char>),
    Keyword(Seq<char>),
    Bool(bool),
    Null,
    Op(BinOp),
    UnaryOp(UnOp),
    AssignmentSign,
    Semi,
    LeftBracket,
    RightBracket,
}

impl View for Token {
    type V = TokenView;

    open spec fn view(&self) -> TokenView {
        match self {
            Token::Int(n) => TokenView::Int(*n),
            Token::Str(s) => TokenView::Str(s@),
            Token::Ident(s) => TokenView::Ident(s@),
            Token::Keyword(s) => TokenView::Keyword(s@),
            Token::Bool(b) => TokenView::Bool(*b),
            Token::Null => TokenView::Null,
            Token::Op(op) => TokenView::Op(*op),
            Token::UnaryOp(op) => TokenView::UnaryOp(*op),
            Token::AssignmentSign => TokenView::AssignmentSign,
            Token::Semi => TokenView::Semi,
            Token::LeftBracket => TokenView::LeftBracket,
            Token::RightBracket => TokenView::RightBracket,
        }
    }
}

/// The shape of a token.
pub open spec fn kind_of(t: Token) -> TokenKind {
    match t {
        Token::Int(_) => TokenKind::Int,
        Token::Str(_) => TokenKind::Str,
        Token::Ident(_) => TokenKind::Ident,
        Token::Keyword(_) => TokenKind::Keyword,
        Token::Bool(_) => TokenKind::Bool,
        Token::Null => TokenKind::Null,
        Token::Op(_) => TokenKind::Op,
        Token::UnaryOp(_) => TokenKind::UnaryOp,
        Token::AssignmentSign => TokenKind::AssignmentSign,
        Token::Semi => TokenKind::Semi,
        Token::LeftBracket => TokenKind::LeftBracket,
        Token::RightBracket => TokenKind::RightBracket,
    }
}

impl Token {
    /// The shape of this token.
    pub fn kind(&self) -> (r: TokenKind)
        ensures
            r == kind_of(*self),
    {
        match self {
            Token::Int(_) => TokenKind::Int,
            Token::Str(_) => TokenKind::Str,
            Token::Ident(_) => TokenKind::Ident,
            Token::Keyword(_) => TokenKind::Keyword,
            Token::Bool(_) => TokenKind::Bool,
            Token::Null => TokenKind::Null,
            Token::Op(_) => TokenKind::Op,
            Token::UnaryOp(_) => TokenKind::UnaryOp,
            Token::AssignmentSign => TokenKind::AssignmentSign,
            Token::Semi => TokenKind::Semi,
            Token::LeftBracket => TokenKind::LeftBracket,
            Token::RightBracket => TokenKind::RightBracket,
        }
    }

    /// Whether two tokens are equal, comparing text payloads by content.
    pub fn same_as(&self, other: &Token) -> (r: bool)
        ensures
            r == (self@ == other@),
    {
        match (self, other) {
            (Token::Int(a), Token::Int(b)) => *a == *b,
            (Token::Str(a), Token::Str(b)) => *a == *b,
            (Token::Ident(a), Token::Ident(b)) => *a == *b,
            (Token::Keyword(a), Token::Keyword(b)) => *a == *b,
            (Token::Bool(a), Token::Bool(b)) => *a == *b,
            (Token::Null, Token::Null) => true,
            (Token::Op(a), Token::Op(b)) => *a == *b,
            (Token::UnaryOp(a), Token::UnaryOp(b)) => *a == *b,
            (Token::AssignmentSign, Token::AssignmentSign) => true,
            (Token::Semi, Token::Semi) => true,
            (Token::LeftBracket, Token::LeftBracket) => true,
            (Token::RightBracket, Token::RightBracket) => true,
            _ => false,
        }
    }

    /// A copy of this token.
    pub fn duplicate(&self) -> (r: Token)
        ensures
            r == *self,
    {
        match self {
            Token::Int(n) => Token::Int(*n),
            Token::Str(s) => Token::Str(s.clone()),
            Token::Ident(s) => Token::Ident(s.clone()),
            Token::Keyword(s) => Token::Keyword(s.clone()),
            Token::Bool(b) => Token::Bool(*b),
            Token::Null => Token::Null,
            Token::Op(op) => Token::Op(*op),
            Token::UnaryOp(op) => Token::UnaryOp(*op),
            Token::AssignmentSign => Token::AssignmentSign,
            Token::Semi => Token::Semi,
            Token::LeftBracket => Token::LeftBracket,
            Token::RightBracket => Token::RightBracket,
        }
    }
}

} // verus!
