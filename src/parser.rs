use vstd::prelude::*;

use crate::expr::{
    arith_defined, arith_value, eval_of, is_arith_tree, lemma_arith_eval, BinExpr, Expr, ExprError,
};
use crate::stmt::{Stmt, stmt_of};
use crate::token::{BinOp, Token, TokenKind, UnOp, kind_of};

verus! {

/// Failures of parsing.
#[derive(Debug, Clone, Copy, PartialEq, Eq, Structural)]
pub enum ParserError {
    /// A token was asked for past the end of the stream.
    InvalidTokenIndex,
    /// A statement with no tokens.
    EmptyMatch,
    /// A `let` statement too short to hold a name, `=` and a value.
    InvalidLetStatement,
    /// A token of the given shape was required here.
    Expected(TokenKind),
    /// A token of the given shape cannot start an operand.
    UnexpectedToken(TokenKind),
    /// A statement-level failure.
    StmtErr(crate::stmt::StmtErr),
    /// An evaluation failure.
    ExprError(ExprError),
}

/// The token at position `p`, if there is one.
pub open spec fn tok(t: Seq<Token>, p: int) -> Option<Token> {
    if 0 <= p < t.len() {
        Some(t[p])
    } else {
        None
    }
}

/// Binding tier of a binary operator: comparisons bind loosest, then
/// `+ -`, then `* /`. Logical operators have no tier in the grammar.
pub open spec fn tier_of(op: BinOp) -> int {
    match op {
        BinOp::Add | BinOp::Sub => 1,
        BinOp::Mul | BinOp::Div => 2,
        BinOp::And | BinOp::Or => 3,
        _ => 0,
    }
}

/// The operator of tier `k` at position `p`, if that token is one.
pub open spec fn op_at(t: Seq<Token>, p: int, k: int) -> Option<BinOp> {
    match tok(t, p) {
        Some(Token::Op(op)) => if tier_of(op) == k {
            Some(op)
        } else {
            None
        },
        _ => None,
    }
}

/// Parses the binary tier `k` (0: comparisons, 1: additive, 2: multiplicative)
/// at `p`, left-associative; gives the tree and the position after it.
pub open spec fn parse_binary(t: Seq<Token>, p: int, k: int) -> Result<(Expr, int), ParserError>
    decreases t.len() - p, 3 * (3 - k) + 2,
{
    if !(0 <= k <= 2) {
        Err(ParserError::InvalidTokenIndex)
    } else {
        match parse_operand(t, p, k) {
            Err(e) => Err(e),
            Ok((lhs, q)) => if p < q <= t.len() {
                binary_rest(t, lhs, q, k)
            } else {
                Err(ParserError::InvalidTokenIndex)
            },
        }
    }
}

/// An operand of tier `k`: the next tier, or a unary expression under the last.
pub open spec fn parse_operand(t: Seq<Token>, p: int, k: int) -> Result<(Expr, int), ParserError>
    decreases t.len() - p, 3 * (3 - k) + 1,
{
    if !(0 <= k <= 2) {
        Err(ParserError::InvalidTokenIndex)
    } else if k == 2 {
        parse_unary(t, p)
    } else {
        parse_binary(t, p, k + 1)
    }
}

/// Continues tier `k` after a left operand `lhs` that ends at `p`.
pub open spec fn binary_rest(t: Seq<Token>, lhs: Expr, p: int, k: int) -> Result<(Expr, int), ParserError>
    decreases t.len() - p, 3 * (3 - k) + 2,
{
    if !(0 <= k <= 2) {
        Err(ParserError::InvalidTokenIndex)
    } else {
        match op_at(t, p, k) {
            None => Ok((lhs, p)),
            Some(op) => match parse_operand(t, p + 1, k) {
                Err(e) => Err(e),
                Ok((rhs, q)) => if p < q <= t.len() {
                    binary_rest(t, Expr::Bin(BinExpr { lhs: Box::new(lhs), rhs: Box::new(rhs), op }), q, k)
                } else {
                    Err(ParserError::InvalidTokenIndex)
                },
            },
        }
    }
}

/// Parses prefix `!` operators and then a primary.
pub open spec fn parse_unary(t: Seq<Token>, p: int) -> Result<(Expr, int), ParserError>
    decreases t.len() - p, 1int,
{
    match tok(t, p) {
        Some(Token::UnaryOp(op)) => match parse_unary(t, p + 1) {
            Err(e) => Err(e),
            Ok((e, q)) => Ok((Expr::Unary(op, Box::new(e)), q)),
        },
        _ => parse_primary(t, p),
    }
}

/// Parses a literal, a variable or a bracketed expression.
pub open spec fn parse_primary(t: Seq<Token>, p: int) -> Result<(Expr, int), ParserError>
    decreases t.len() - p, 0int,
{
    match tok(t, p) {
        None => Err(ParserError::InvalidTokenIndex),
        Some(Token::Int(n)) => Ok((Expr::Num(n), p + 1)),
        Some(Token::Str(s)) => Ok((Expr::Str(s), p + 1)),
        Some(Token::Ident(s)) => Ok((Expr::Var(s), p + 1)),
        Some(Token::Bool(b)) => Ok((Expr::Bool(b), p + 1)),
        Some(Token::Null) => Ok((Expr::Null, p + 1)),
        Some(Token::LeftBracket) => match parse_binary(t, p + 1, 0) {
            Err(e) => Err(e),
            Ok((e, q)) => if tok(t, q) == Some(Token::RightBracket) {
                Ok((e, q + 1))
            } else {
                Err(ParserError::Expected(TokenKind::RightBracket))
            },
        },
        Some(other) => Err(ParserError::UnexpectedToken(kind_of(other))),
    }
}

/// Constant folding: a tree that evaluates becomes its value; one that
/// does not (it reads a variable, say) stays as it is.
pub open spec fn fold(e: Expr) -> Expr {
    match eval_of(e) {
        Ok(v) => v,
        Err(_) => e,
    }
}

/// Parses a whole expression at `p` and folds it.
pub open spec fn parse_expr(t: Seq<Token>, p: int) -> Result<(Expr, int), ParserError> {
    match parse_binary(t, p, 0) {
        Err(e) => Err(e),
        Ok((e, q)) => Ok((fold(e), q)),
    }
}

/// `r` is the executable form of the spec result `s`.
pub open spec fn same_result<T>(r: Result<(T, usize), ParserError>, s: Result<(T, int), ParserError>) -> bool {
    match s {
        Ok((e, q)) => r is Ok && r->Ok_0.0 == e && r->Ok_0.1 == q,
        Err(err) => r == Err::<(T, usize), ParserError>(err),
    }
}

fn op_in_tier(t: &[Token], p: usize, k: u8) -> (r: Option<BinOp>)
    ensures
        r == op_at(t@, p as int, k as int),
        r is Some ==> p < t@.len(),
{
    if p >= t.len() {
        return None;
    }
    match &t[p] {
        Token::Op(op) => {
            let tier: u8 = match op {
                BinOp::Add | BinOp::Sub => 1,
                BinOp::Mul | BinOp::Div => 2,
                BinOp::And | BinOp::Or => 3,
                _ => 0,
            };
            if tier == k {
                Some(*op)
            } else {
                None
            }
        },
        _ => None,
    }
}

fn binary_at(t: &[Token], p: usize, k: u8) -> (r: Result<(Expr, usize), ParserError>)
    requires
        k <= 2,
    ensures
        same_result(r, parse_binary(t@, p as int, k as int)),
        r is Ok ==> p < r->Ok_0.1 <= t@.len(),
    decreases t@.len() - p, 3 * (3 - k) + 2,
{
    let (mut lhs, mut cur) = match operand_at(t, p, k) {
        Err(e) => return Err(e),
        Ok(x) => x,
    };
    let len = t.len();
    loop
        invariant
            k <= 2,
            len == t@.len(),
            p < cur <= t@.len(),
            parse_binary(t@, p as int, k as int) == binary_rest(t@, lhs, cur as int, k as int),
        decreases t@.len() - cur,
    {
        let op = match op_in_tier(t, cur, k) {
            None => return Ok((lhs, cur)),
            Some(op) => op,
        };
        let (rhs, q) = match operand_at(t, cur + 1, k) {
            Err(e) => return Err(e),
            Ok(x) => x,
        };
        lhs = Expr::Bin(BinExpr::new(Box::new(lhs), Box::new(rhs), op));
        cur = q;
    }
}

fn operand_at(t: &[Token], p: usize, k: u8) -> (r: Result<(Expr, usize), ParserError>)
    requires
        k <= 2,
    ensures
        same_result(r, parse_operand(t@, p as int, k as int)),
        r is Ok ==> p < r->Ok_0.1 <= t@.len(),
    decreases t@.len() - p, 3 * (3 - k) + 1,
{
    if k == 2 {
        unary_at(t, p)
    } else {
        binary_at(t, p, k + 1)
    }
}

fn unary_at(t: &[Token], p: usize) -> (r: Result<(Expr, usize), ParserError>)
    ensures
        same_result(r, parse_unary(t@, p as int)),
        r is Ok ==> p < r->Ok_0.1 <= t@.len(),
    decreases t@.len() - p, 1int,
{
    if p < t.len() {
        if let Token::UnaryOp(op) = &t[p] {
            return match unary_at(t, p + 1) {
                Err(e) => Err(e),
                Ok((e, q)) => Ok((Expr::Unary(*op, Box::new(e)), q)),
            };
        }
    }
    primary_at(t, p)
}

fn primary_at(t: &[Token], p: usize) -> (r: Result<(Expr, usize), ParserError>)
    ensures
        same_result(r, parse_primary(t@, p as int)),
        r is Ok ==> p < r->Ok_0.1 <= t@.len(),
    decreases t@.len() - p, 0int,
{
    if p >= t.len() {
        return Err(ParserError::InvalidTokenIndex);
    }
    match &t[p] {
        Token::Int(n) => Ok((Expr::Num(*n), p + 1)),
        Token::Str(s) => Ok((Expr::Str(s.clone()), p + 1)),
        Token::Ident(s) => Ok((Expr::Var(s.clone()), p + 1)),
        Token::Bool(b) => Ok((Expr::Bool(*b), p + 1)),
        Token::Null => Ok((Expr::Null, p + 1)),
        Token::LeftBracket => match binary_at(t, p + 1, 0) {
            Err(e) => Err(e),
            Ok((e, q)) => {
                if q < t.len() && t[q].kind() == TokenKind::RightBracket {
                    Ok((e, q + 1))
                } else {
                    Err(ParserError::Expected(TokenKind::RightBracket))
                }
            },
        },
        other => Err(ParserError::UnexpectedToken(other.kind())),
    }
}

/// Parses an expression at position `p` of `t` and folds it to a value
/// where it evaluates.
pub fn expr_at(t: &[Token], p: usize) -> (r: Result<(Expr, usize), ParserError>)
    ensures
        same_result(r, parse_expr(t@, p as int)),
        r is Ok ==> p < r->Ok_0.1 <= t@.len(),
{
    match binary_at(t, p, 0) {
        Err(e) => Err(e),
        Ok((e, q)) => match e.eval() {
            Ok(v) => Ok((v, q)),
            Err(_) => Ok((e, q)),
        },
    }
}


proof fn lemma_int_unary(t: Seq<Token>, p: int, n: i32)
    requires
        0 <= p < t.len(),
        t[p] == Token::Int(n),
    ensures
        parse_unary(t, p) == Ok::<(Expr, int), ParserError>((Expr::Num(n), p + 1)),
{
    assert(parse_primary(t, p) == Ok::<(Expr, int), ParserError>((Expr::Num(n), p + 1)));
}

/// A lone integer at `p` parses, at every tier from `k` down, to its number
/// when the token after it is no operator of tier `k` or tighter.
proof fn lemma_int_operand(t: Seq<Token>, p: int, k: int, n: i32)
    requires
        0 <= p < t.len(),
        t[p] == Token::Int(n),
        0 <= k <= 2,
        forall|j: int| k <= j <= 2 ==> #[trigger] op_at(t, p + 1, j) is None,
    ensures
        parse_binary(t, p, k) == Ok::<(Expr, int), ParserError>((Expr::Num(n), p + 1)),
    decreases 3 - k,
{
    lemma_int_unary(t, p, n);
    if k < 2 {
        lemma_int_operand(t, p, k + 1, n);
    }
    assert(op_at(t, p + 1, k) is None);
    assert(parse_operand(t, p, k) == Ok::<(Expr, int), ParserError>((Expr::Num(n), p + 1)));
    assert(binary_rest(t, Expr::Num(n), p + 1, k) == Ok::<(Expr, int), ParserError>((Expr::Num(n), p + 1)));
}

/// A binary node over two subtrees.
pub open spec fn bin_node(l: Expr, op: BinOp, r: Expr) -> Expr {
    Expr::Bin(BinExpr { lhs: Box::new(l), rhs: Box::new(r), op })
}

/// `*` and `/` bind tighter than `+` and `-`, whichever comes first, and a
/// bracketed sum is one operand of a product.
pub proof fn lemma_precedence(a: i32, b: i32, c: i32, lo: BinOp, hi: BinOp)
    requires
        tier_of(lo) == 1,
        tier_of(hi) == 2,
    ensures
        parse_binary(seq![Token::Int(a), Token::Op(lo), Token::Int(b), Token::Op(hi), Token::Int(c)], 0, 0)
            == Ok::<(Expr, int), ParserError>((bin_node(Expr::Num(a), lo, bin_node(Expr::Num(b), hi, Expr::Num(c))), 5)),
        parse_binary(seq![Token::Int(a), Token::Op(hi), Token::Int(b), Token::Op(lo), Token::Int(c)], 0, 0)
            == Ok::<(Expr, int), ParserError>((bin_node(bin_node(Expr::Num(a), hi, Expr::Num(b)), lo, Expr::Num(c)), 5)),
        parse_binary(
            seq![Token::LeftBracket, Token::Int(a), Token::Op(lo), Token::Int(b), Token::RightBracket, Token::Op(hi), Token::Int(c)],
            0,
            0,
        ) == Ok::<(Expr, int), ParserError>((bin_node(bin_node(Expr::Num(a), lo, Expr::Num(b)), hi, Expr::Num(c)), 7)),
{
    let t1 = seq![Token::Int(a), Token::Op(lo), Token::Int(b), Token::Op(hi), Token::Int(c)];
    lemma_int_operand(t1, 0, 2, a);
    lemma_int_unary(t1, 2, b);
    lemma_int_unary(t1, 4, c);
    let r1 = bin_node(Expr::Num(b), hi, Expr::Num(c));
    assert(binary_rest(t1, r1, 5, 2) == Ok::<(Expr, int), ParserError>((r1, 5)));
    assert(parse_operand(t1, 4, 2) == Ok::<(Expr, int), ParserError>((Expr::Num(c), 5)));
    assert(binary_rest(t1, Expr::Num(b), 3, 2) == Ok::<(Expr, int), ParserError>((r1, 5)));
    assert(parse_operand(t1, 2, 2) == Ok::<(Expr, int), ParserError>((Expr::Num(b), 3)));
    assert(parse_binary(t1, 2, 2) == Ok::<(Expr, int), ParserError>((r1, 5)));
    assert(parse_operand(t1, 2, 1) == Ok::<(Expr, int), ParserError>((r1, 5)));
    let x1 = bin_node(Expr::Num(a), lo, r1);
    assert(binary_rest(t1, x1, 5, 1) == Ok::<(Expr, int), ParserError>((x1, 5)));
    assert(binary_rest(t1, Expr::Num(a), 1, 1) == Ok::<(Expr, int), ParserError>((x1, 5)));
    assert(parse_operand(t1, 0, 1) == Ok::<(Expr, int), ParserError>((Expr::Num(a), 1)));
    assert(parse_binary(t1, 0, 1) == Ok::<(Expr, int), ParserError>((x1, 5)));
    assert(parse_operand(t1, 0, 0) == Ok::<(Expr, int), ParserError>((x1, 5)));
    assert(binary_rest(t1, x1, 5, 0) == Ok::<(Expr, int), ParserError>((x1, 5)));

    let t2 = seq![Token::Int(a), Token::Op(hi), Token::Int(b), Token::Op(lo), Token::Int(c)];
    lemma_int_unary(t2, 0, a);
    lemma_int_unary(t2, 2, b);
    assert(parse_operand(t2, 0, 2) == Ok::<(Expr, int), ParserError>((Expr::Num(a), 1)));
    assert(parse_operand(t2, 2, 2) == Ok::<(Expr, int), ParserError>((Expr::Num(b), 3)));
    let l2 = bin_node(Expr::Num(a), hi, Expr::Num(b));
    assert(binary_rest(t2, l2, 3, 2) == Ok::<(Expr, int), ParserError>((l2, 3)));
    assert(binary_rest(t2, Expr::Num(a), 1, 2) == Ok::<(Expr, int), ParserError>((l2, 3)));
    assert(parse_binary(t2, 0, 2) == Ok::<(Expr, int), ParserError>((l2, 3)));
    assert(parse_operand(t2, 0, 1) == Ok::<(Expr, int), ParserError>((l2, 3)));
    lemma_int_operand(t2, 4, 2, c);
    assert(parse_operand(t2, 4, 1) == Ok::<(Expr, int), ParserError>((Expr::Num(c), 5)));
    let x2 = bin_node(l2, lo, Expr::Num(c));
    assert(binary_rest(t2, x2, 5, 1) == Ok::<(Expr, int), ParserError>((x2, 5)));
    assert(binary_rest(t2, l2, 3, 1) == Ok::<(Expr, int), ParserError>((x2, 5)));
    assert(parse_binary(t2, 0, 1) == Ok::<(Expr, int), ParserError>((x2, 5)));
    assert(parse_operand(t2, 0, 0) == Ok::<(Expr, int), ParserError>((x2, 5)));
    assert(binary_rest(t2, x2, 5, 0) == Ok::<(Expr, int), ParserError>((x2, 5)));

    let t3 = seq![Token::LeftBracket, Token::Int(a), Token::Op(lo), Token::Int(b), Token::RightBracket, Token::Op(hi), Token::Int(c)];
    lemma_int_operand(t3, 1, 2, a);
    lemma_int_operand(t3, 3, 2, b);
    assert(parse_operand(t3, 1, 1) == Ok::<(Expr, int), ParserError>((Expr::Num(a), 2)));
    assert(parse_operand(t3, 3, 1) == Ok::<(Expr, int), ParserError>((Expr::Num(b), 4)));
    let s3 = bin_node(Expr::Num(a), lo, Expr::Num(b));
    assert(binary_rest(t3, s3, 4, 1) == Ok::<(Expr, int), ParserError>((s3, 4)));
    assert(binary_rest(t3, Expr::Num(a), 2, 1) == Ok::<(Expr, int), ParserError>((s3, 4)));
    assert(parse_binary(t3, 1, 1) == Ok::<(Expr, int), ParserError>((s3, 4)));
    assert(parse_operand(t3, 1, 0) == Ok::<(Expr, int), ParserError>((s3, 4)));
    assert(binary_rest(t3, s3, 4, 0) == Ok::<(Expr, int), ParserError>((s3, 4)));
    assert(parse_binary(t3, 1, 0) == Ok::<(Expr, int), ParserError>((s3, 4)));
    assert(parse_primary(t3, 0) == Ok::<(Expr, int), ParserError>((s3, 5)));
    assert(parse_unary(t3, 0) == Ok::<(Expr, int), ParserError>((s3, 5)));
    assert(parse_operand(t3, 0, 2) == Ok::<(Expr, int), ParserError>((s3, 5)));
    lemma_int_unary(t3, 6, c);
    assert(parse_operand(t3, 6, 2) == Ok::<(Expr, int), ParserError>((Expr::Num(c), 7)));
    let x3 = bin_node(s3, hi, Expr::Num(c));
    assert(binary_rest(t3, x3, 7, 2) == Ok::<(Expr, int), ParserError>((x3, 7)));
    assert(binary_rest(t3, s3, 5, 2) == Ok::<(Expr, int), ParserError>((x3, 7)));
    assert(parse_binary(t3, 0, 2) == Ok::<(Expr, int), ParserError>((x3, 7)));
    assert(parse_operand(t3, 0, 1) == Ok::<(Expr, int), ParserError>((x3, 7)));
    assert(binary_rest(t3, x3, 7, 1) == Ok::<(Expr, int), ParserError>((x3, 7)));
    assert(parse_binary(t3, 0, 1) == Ok::<(Expr, int), ParserError>((x3, 7)));
    assert(parse_operand(t3, 0, 0) == Ok::<(Expr, int), ParserError>((x3, 7)));
    assert(binary_rest(t3, x3, 7, 0) == Ok::<(Expr, int), ParserError>((x3, 7)));
}

/// Tokens of an arithmetic tree, each binary node in brackets.
pub open spec fn arith_tokens(e: Expr) -> Seq<Token>
    decreases e,
{
    match e {
        Expr::Num(n) => seq![Token::Int(n)],
        Expr::Bin(b) => seq![Token::LeftBracket] + arith_tokens(*b.lhs) + seq![Token::Op(b.op)]
            + arith_tokens(*b.rhs) + seq![Token::RightBracket],
        _ => Seq::empty(),
    }
}

/// A primary that is not led by `!` is an operand at every tier from `k`
/// down, when no operator of those tiers follows it.
proof fn lemma_primary_operand(t: Seq<Token>, p: int, k: int, x: Expr, q: int)
    requires
        0 <= p < q <= t.len(),
        !(t[p] is UnaryOp),
        parse_primary(t, p) == Ok::<(Expr, int), ParserError>((x, q)),
        0 <= k <= 2,
        forall|j: int| k <= j <= 2 ==> #[trigger] op_at(t, q, j) is None,
    ensures
        parse_binary(t, p, k) == Ok::<(Expr, int), ParserError>((x, q)),
    decreases 3 - k,
{
    assert(parse_unary(t, p) == Ok::<(Expr, int), ParserError>((x, q)));
    if k < 2 {
        lemma_primary_operand(t, p, k + 1, x, q);
    }
    assert(op_at(t, q, k) is None);
    assert(parse_operand(t, p, k) == Ok::<(Expr, int), ParserError>((x, q)));
    assert(binary_rest(t, x, q, k) == Ok::<(Expr, int), ParserError>((x, q)));
}

/// The bracketed tokens of an arithmetic tree, found at `p`, parse as one
/// primary giving back the tree.
proof fn lemma_arith_primary(t: Seq<Token>, p: int, e: Expr)
    requires
        is_arith_tree(e),
        0 <= p,
        p + arith_tokens(e).len() <= t.len(),
        t.subrange(p, p + arith_tokens(e).len()) == arith_tokens(e),
    ensures
        arith_tokens(e).len() > 0,
        t[p] is Int || t[p] is LeftBracket,
        parse_primary(t, p) == Ok::<(Expr, int), ParserError>((e, p + arith_tokens(e).len())),
    decreases e,
{
    let a = arith_tokens(e);
    assert(t[p] == t.subrange(p, p + a.len())[0]);
    if let Expr::Bin(b) = e {
        let l = *b.lhs;
        let r = *b.rhs;
        let la = arith_tokens(l);
        let ra = arith_tokens(r);
        let op = b.op;
        let m = p + 1 + la.len();
        let c = m + 1 + ra.len();
        assert(a == seq![Token::LeftBracket] + la + seq![Token::Op(op)] + ra + seq![Token::RightBracket]);
        assert(a.len() == la.len() + ra.len() + 3);
        assert forall|k: int| 0 <= k < a.len() implies t[p + k] == #[trigger] a[k] by {
            assert(t[p + k] == t.subrange(p, p + a.len())[k]);
        }
        assert(t.subrange(p + 1, m) =~= la) by {
            assert forall|k: int| 0 <= k < la.len() implies t.subrange(p + 1, m)[k] == la[k] by {
                assert(a[1 + k] == la[k]);
                assert(t[p + (1 + k)] == a[1 + k]);
            }
        }
        assert(t.subrange(m + 1, c) =~= ra) by {
            assert forall|k: int| 0 <= k < ra.len() implies t.subrange(m + 1, c)[k] == ra[k] by {
                assert(a[la.len() + 2 + k] == ra[k]);
                assert(t[p + (la.len() + 2 + k)] == a[la.len() + 2 + k]);
            }
        }
        assert(a[la.len() + 1int] == Token::Op(op));
        assert(t[p + (la.len() + 1int)] == a[la.len() + 1int]);
        assert(t[m] == Token::Op(op));
        assert(a[a.len() - 1] == Token::RightBracket);
        assert(t[p + (a.len() - 1)] == a[a.len() - 1]);
        assert(t[c] == Token::RightBracket);
        lemma_arith_primary(t, p + 1, l);
        lemma_arith_primary(t, m + 1, r);
        let x = bin_node(l, op, r);
        assert(x == e);
        assert(op_at(t, c, 0) is None && op_at(t, c, 1) is None && op_at(t, c, 2) is None);
        if tier_of(op) == 2 {
            assert(parse_unary(t, p + 1) == Ok::<(Expr, int), ParserError>((l, m)));
            assert(parse_operand(t, p + 1, 2) == Ok::<(Expr, int), ParserError>((l, m)));
            assert(parse_unary(t, m + 1) == Ok::<(Expr, int), ParserError>((r, c)));
            assert(parse_operand(t, m + 1, 2) == Ok::<(Expr, int), ParserError>((r, c)));
            assert(binary_rest(t, x, c, 2) == Ok::<(Expr, int), ParserError>((x, c)));
            assert(binary_rest(t, l, m, 2) == Ok::<(Expr, int), ParserError>((x, c)));
            assert(parse_binary(t, p + 1, 2) == Ok::<(Expr, int), ParserError>((x, c)));
        } else {
            assert(op_at(t, m, 2) is None);
            lemma_primary_operand(t, p + 1, 2, l, m);
            lemma_primary_operand(t, m + 1, 2, r, c);
            assert(parse_operand(t, p + 1, 1) == Ok::<(Expr, int), ParserError>((l, m)));
            assert(parse_operand(t, m + 1, 1) == Ok::<(Expr, int), ParserError>((r, c)));
            assert(binary_rest(t, x, c, 1) == Ok::<(Expr, int), ParserError>((x, c)));
            assert(binary_rest(t, l, m, 1) == Ok::<(Expr, int), ParserError>((x, c)));
        }
        assert(binary_rest(t, x, c, 1) == Ok::<(Expr, int), ParserError>((x, c)));
        assert(parse_binary(t, p + 1, 1) == Ok::<(Expr, int), ParserError>((x, c)));
        assert(parse_operand(t, p + 1, 0) == Ok::<(Expr, int), ParserError>((x, c)));
        assert(binary_rest(t, x, c, 0) == Ok::<(Expr, int), ParserError>((x, c)));
        assert(parse_binary(t, p + 1, 0) == Ok::<(Expr, int), ParserError>((x, c)));
    }
}

/// The tokens of an arithmetic tree, with every operation in brackets, form
/// an expression statement whose value is that of ordinary integer
/// arithmetic with truncating division, wherever that arithmetic stays
/// defined and in the range of `i32`.
pub proof fn lemma_arith_statement(e: Expr)
    requires
        is_arith_tree(e),
        arith_defined(e),
    ensures
        stmt_of(arith_tokens(e)) == Ok::<Stmt, ParserError>(Stmt::ExprStatement(Expr::Num(arith_value(e) as i32))),
{
    let t = arith_tokens(e);
    assert(t.subrange(0, t.len() as int) =~= t);
    lemma_arith_primary(t, 0, e);
    lemma_primary_operand(t, 0, 0, e, t.len() as int);
    lemma_arith_eval(e);
    assert(parse_expr(t, 0) == Ok::<(Expr, int), ParserError>((Expr::Num(arith_value(e) as i32), t.len() as int)));
}

/// Number of tokens from `p` up to the next terminator or the end.
pub open spec fn run_len(t: Seq<Token>, p: int) -> int
    decreases t.len() - p,
{
    if p < 0 || p >= t.len() || t[p] is Semi {
        0
    } else {
        1 + run_len(t, p + 1)
    }
}

/// The statement whose tokens start at `p`, and the position after its
/// terminator (or the end).
pub open spec fn stmt_at(t: Seq<Token>, p: int) -> Result<(Stmt, int), ParserError> {
    let n = run_len(t, p);
    if n == 0 {
        Err(ParserError::EmptyMatch)
    } else {
        match stmt_of(t.subrange(p, p + n)) {
            Err(e) => Err(e),
            Ok(s) => Ok((s, if p + n < t.len() { p + n + 1 } else { p + n })),
        }
    }
}

/// The statements from `p` to the end, in order; the first failure aborts.
/// At least one statement is read, so an empty stream is an empty statement.
pub open spec fn statements_from(t: Seq<Token>, p: int) -> Result<Seq<Stmt>, ParserError>
    decreases t.len() - p,
{
    match stmt_at(t, p) {
        Err(e) => Err(e),
        Ok((s, q)) => if q >= t.len() {
            Ok(seq![s])
        } else if p < q {
            match statements_from(t, q) {
                Err(e) => Err(e),
                Ok(rest) => Ok(seq![s] + rest),
            }
        } else {
            Err(ParserError::EmptyMatch)
        },
    }
}

/// Whether a rule slot accepts a token: an `Int` or `Ident` slot accepts any
/// token of that kind, any other slot only an equal token.
pub open spec fn slot_accepts(rule: Token, t: Token) -> bool {
    match rule {
        Token::Int(_) => t is Int,
        Token::Ident(_) => t is Ident,
        _ => rule@ == t@,
    }
}

/// Whether every slot of `rules` accepts the token at its offset from `c`.
/// An empty rule matches anywhere, even past the end.
pub open spec fn rule_matches(t: Seq<Token>, c: int, rules: Seq<Token>) -> bool {
    (rules.len() == 0 || c + rules.len() <= t.len()) && forall|i: int|
        0 <= i < rules.len() ==> slot_accepts(#[trigger] rules[i], t[c + i])
}

/// A cursor over a token stream.
pub struct Parser {
    tokens: Vec<Token>,
    cursor: usize,
}

impl View for Parser {
    type V = (Seq<Token>, int);

    closed spec fn view(&self) -> (Seq<Token>, int) {
        (self.tokens@, self.cursor as int)
    }
}

impl Parser {
    pub fn new(tokens: Vec<Token>) -> (r: Self)
        ensures
            r@ == (tokens@, 0int),
    {
        Parser { tokens, cursor: 0 }
    }

    /// Parses all statements from the cursor to the end.
    pub fn get_statements(&mut self) -> (r: Result<Vec<Stmt>, ParserError>)
        ensures
            final(self)@.0 == old(self)@.0,
            match statements_from(old(self)@.0, old(self)@.1) {
                Ok(ss) => r is Ok && r->Ok_0@ == ss,
                Err(e) => r == Err::<Vec<Stmt>, ParserError>(e),
            },
    {
        let ghost t = self.tokens@;
        let ghost start = self.cursor as int;
        let mut stmts: Vec<Stmt> = Vec::new();
        let len = self.tokens.len();
        loop
            invariant
                self.tokens@ == t,
                t == old(self)@.0,
                start == old(self)@.1,
                len == t.len(),
                statements_from(t, start) == match statements_from(t, self.cursor as int) {
                    Ok(rest) => Ok(stmts@ + rest),
                    Err(e) => Err::<Seq<Stmt>, ParserError>(e),
                },
            decreases len - self.cursor,
        {
            let before = self.cursor;
            let s = match self.stmt() {
                Err(e) => return Err(e),
                Ok(s) => s,
            };
            proof {
                let ghost ss = stmts@;
                assert(ss.push(s) =~= ss + seq![s]);
                if (self.cursor as int) < t.len() {
                    if let Ok(rest) = statements_from(t, self.cursor as int) {
                        assert(ss + (seq![s] + rest) =~= ss.push(s) + rest);
                    }
                }
            }
            stmts.push(s);
            if self.cursor >= len {
                return Ok(stmts);
            }
        }
    }

    /// Parses one statement at the cursor and moves past its terminator.
    pub fn stmt(&mut self) -> (r: Result<Stmt, ParserError>)
        ensures
            final(self)@.0 == old(self)@.0,
            match stmt_at(old(self)@.0, old(self)@.1) {
                Ok((s, q)) => r == Ok::<Stmt, ParserError>(s) && final(self)@.1 == q,
                Err(e) => r == Err::<Stmt, ParserError>(e),
            },
            r is Ok ==> old(self)@.1 < final(self)@.1 <= old(self)@.0.len(),
    {
        let len = self.tokens.len();
        if self.cursor > len {
            return Err(ParserError::EmptyMatch);
        }
        let rest = vstd::slice::slice_subrange(self.tokens.as_slice(), self.cursor, len);
        let ghost t = self.tokens@;
        let ghost p = self.cursor as int;
        proof {
            lemma_run_len_shift(t, p, 0);
            lemma_run_len_bounds(t, p);
        }
        let n = match Parser::take_while(rest) {
            Err(e) => return Err(e),
            Ok(n) => n,
        };
        let run = vstd::slice::slice_subrange(self.tokens.as_slice(), self.cursor, self.cursor + n);
        let s = match Stmt::from_tokens(run) {
            Err(e) => return Err(e),
            Ok(s) => s,
        };
        self.cursor = self.cursor + n;
        if self.cursor < len {
            self.cursor = self.cursor + 1;
        }
        Ok(s)
    }

    /// Parses a comparison-level expression at the cursor, without folding.
    pub fn compare(&mut self) -> (r: Result<Expr, ParserError>)
        ensures
            final(self)@.0 == old(self)@.0,
            match parse_binary(old(self)@.0, old(self)@.1, 0) {
                Ok((e, q)) => r == Ok::<Expr, ParserError>(e) && final(self)@.1 == q,
                Err(err) => r == Err::<Expr, ParserError>(err),
            },
    {
        match binary_at(self.tokens.as_slice(), self.cursor, 0) {
            Err(e) => Err(e),
            Ok((e, q)) => {
                self.cursor = q;
                Ok(e)
            },
        }
    }

    /// Parses an expression at the cursor and folds it to a value where it
    /// evaluates.
    pub fn expr(&mut self) -> (r: Result<Expr, ParserError>)
        ensures
            final(self)@.0 == old(self)@.0,
            match parse_expr(old(self)@.0, old(self)@.1) {
                Ok((e, q)) => r == Ok::<Expr, ParserError>(e) && final(self)@.1 == q,
                Err(err) => r == Err::<Expr, ParserError>(err),
            },
    {
        match expr_at(self.tokens.as_slice(), self.cursor) {
            Err(e) => Err(e),
            Ok((e, q)) => {
                self.cursor = q;
                Ok(e)
            },
        }
    }

    /// Consumes the current token if it equals one of `possible_tokens`,
    /// trying them in order, and returns the candidate that matched.
    pub fn matches(&mut self, possible_tokens: &[Token]) -> (r: Option<Token>)
        ensures
            final(self)@.0 == old(self)@.0,
            match r {
                Some(tk) => old(self)@.1 < old(self)@.0.len()
                    && final(self)@.1 == old(self)@.1 + 1
                    && exists|i: int| 0 <= i < possible_tokens@.len()
                        && possible_tokens@[i] == tk
                        && tk@ == old(self)@.0[old(self)@.1]@
                        && forall|j: int| 0 <= j < i ==> possible_tokens@[j]@ != tk@,
                None => final(self)@.1 == old(self)@.1
                    && (old(self)@.1 < old(self)@.0.len() ==> forall|j: int|
                        0 <= j < possible_tokens@.len() ==> possible_tokens@[j]@
                            != old(self)@.0[old(self)@.1]@),
            },
    {
        let len = self.tokens.len();
        if self.cursor >= len {
            return None;
        }
        let mut i: usize = 0;
        while i < possible_tokens.len()
            invariant
                self@ == old(self)@,
                len == self.tokens@.len(),
                self.cursor < len,
                i <= possible_tokens@.len(),
                forall|j: int| 0 <= j < i ==> possible_tokens@[j]@ != self.tokens@[self.cursor as int]@,
            decreases possible_tokens@.len() - i,
        {
            if possible_tokens[i].same_as(&self.tokens[self.cursor]) {
                let found = possible_tokens[i].duplicate();
                self.cursor = self.cursor + 1;
                return Some(found);
            }
            i = i + 1;
        }
        None
    }

    /// Consumes a fixed sequence of tokens, slot by slot, or nothing at all.
    pub fn match_rule(&mut self, rules: &[Token]) -> (r: bool)
        ensures
            final(self)@.0 == old(self)@.0,
            r == rule_matches(old(self)@.0, old(self)@.1, rules@),
            r ==> final(self)@.1 == old(self)@.1 + rules@.len(),
            !r ==> final(self)@.1 == old(self)@.1,
    {
        let start = self.cursor;
        let len = self.tokens.len();
        if rules.len() == 0 {
            return true;
        }
        if start > len || rules.len() > len - start {
            return false;
        }
        let mut i: usize = 0;
        while i < rules.len()
            invariant
                self@ == old(self)@,
                len == self.tokens@.len(),
                start + rules@.len() <= len,
                self.cursor == start,
                i <= rules@.len(),
                forall|j: int| 0 <= j < i ==> slot_accepts(rules@[j], self.tokens@[start + j]),
            decreases rules@.len() - i,
        {
            let actual = &self.tokens[start + i];
            let ok = match &rules[i] {
                Token::Int(_) => actual.kind() == TokenKind::Int,
                Token::Ident(_) => actual.kind() == TokenKind::Ident,
                rule => rule.same_as(actual),
            };
            if !ok {
                return false;
            }
            i = i + 1;
        }
        self.cursor = start + rules.len();
        true
    }

    /// The cursor.
    pub fn pos(&self) -> (r: usize)
        ensures
            r == self@.1,
    {
        self.cursor
    }

    /// Moves the cursor one token on.
    pub fn adv(&mut self)
        requires
            old(self)@.1 < usize::MAX,
        ensures
            final(self)@ == (old(self)@.0, old(self)@.1 + 1),
    {
        self.cursor = self.cursor + 1;
    }

    /// The token before the cursor.
    pub fn prev(&self) -> (r: Token)
        requires
            0 < self@.1 <= self@.0.len(),
        ensures
            r == self@.0[self@.1 - 1],
    {
        self.tokens[self.cursor - 1].duplicate()
    }

    /// The token at the cursor.
    pub fn curr(&self) -> (r: Token)
        requires
            self@.1 < self@.0.len(),
        ensures
            r == self@.0[self@.1],
    {
        self.tokens[self.cursor].duplicate()
    }

    /// The token at index `i`, or `InvalidTokenIndex` past the end.
    pub fn at(&self, i: usize) -> (r: Result<Token, ParserError>)
        ensures
            i < self@.0.len() ==> r == Ok::<Token, ParserError>(self@.0[i as int]),
            i >= self@.0.len() ==> r == Err::<Token, ParserError>(ParserError::InvalidTokenIndex),
    {
        if i >= self.tokens.len() {
            return Err(ParserError::InvalidTokenIndex);
        }
        Ok(self.tokens[i].duplicate())
    }

    /// Number of tokens in the stream.
    pub fn len(&self) -> (r: usize)
        ensures
            r == self@.0.len(),
    {
        self.tokens.len()
    }

    /// Whether the cursor is on the last token or past it.
    pub fn is_at_end(&self) -> (r: bool)
        ensures
            r == (self@.1 + 1 >= self@.0.len()),
    {
        self.cursor >= self.tokens.len() || self.tokens.len() - self.cursor <= 1
    }

    /// Length of the run of tokens before the first terminator; a run of
    /// length zero is `EmptyMatch`.
    fn take_while(tokens: &[Token]) -> (r: Result<usize, ParserError>)
        ensures
            run_len(tokens@, 0) == 0 ==> r == Err::<usize, ParserError>(ParserError::EmptyMatch),
            run_len(tokens@, 0) > 0 ==> r == Ok::<usize, ParserError>(run_len(tokens@, 0) as usize),
    {
        let len = tokens.len();
        let mut j: usize = 0;
        while j < len && tokens[j].kind() != TokenKind::Semi
            invariant
                len == tokens@.len(),
                j <= len,
                run_len(tokens@, 0) == j + run_len(tokens@, j as int),
            decreases len - j,
        {
            j = j + 1;
        }
        if j == 0 {
            Err(ParserError::EmptyMatch)
        } else {
            Ok(j)
        }
    }
}

proof fn lemma_run_len_bounds(t: Seq<Token>, p: int)
    ensures
        0 <= run_len(t, p),
        0 <= p <= t.len() ==> p + run_len(t, p) <= t.len(),
        0 <= p ==> (p + run_len(t, p) < t.len() ==> t[p + run_len(t, p)] is Semi),
    decreases t.len() - p,
{
    if !(p < 0 || p >= t.len() || t[p] is Semi) {
        lemma_run_len_bounds(t, p + 1);
    }
}

/// The run length at `p + d` in `t` is the run length at `d` in the suffix from `p`.
proof fn lemma_run_len_shift(t: Seq<Token>, p: int, d: int)
    requires
        0 <= p <= t.len(),
        0 <= d,
    ensures
        run_len(t.subrange(p, t.len() as int), d) == run_len(t, p + d),
    decreases t.len() - p - d,
{
    if !(p + d >= t.len() || t[p + d] is Semi) {
        lemma_run_len_shift(t, p, d + 1);
    }
}

} // verus!
