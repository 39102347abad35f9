use vstd::prelude::*;

use crate::token::{BinOp, UnOp};

verus! {

/// An expression tree; its `Num`, `Str`, `Bool` and `Null` variants also
/// stand for evaluated values.
#[derive(Debug, PartialEq, Eq)]
pub enum Expr {
    Num(i32),
    Str(String),
    Var(String),
    Bool(bool),
    Bin(BinExpr),
    Unary(UnOp, Box<Expr>),
    Null,
}

/// A binary expression, owning both operands.
#[derive(Debug, PartialEq, Eq)]
pub struct BinExpr {
    pub lhs: Box<Expr>,
    pub rhs: Box<Expr>,
    pub op: BinOp,
}

/// Failures of evaluation.
#[derive(Debug, Clone, Copy, PartialEq, Eq, Structural)]
pub enum ExprError {
    /// An operand could not be coerced to the integer or boolean an operator needs.
    FailedConversion,
    /// Integer arithmetic left the range of `i32`.
    FailedBinEvaluation,
    /// The operand of a unary operator has no boolean reading.
    InvalidUnaryOperation,
    /// Two values could not be compared.
    InvalidComparision,
    /// An integer division by zero.
    DivisionByZero,
}

/// Whether an expression is in value form.
pub open spec fn is_value(e: Expr) -> bool {
    match e {
        Expr::Num(_) | Expr::Str(_) | Expr::Bool(_) | Expr::Null => true,
        _ => false,
    }
}

/// The integer reading of a value: only numbers have one.
pub open spec fn coerce_int(e: Expr) -> Option<i32> {
    match e {
        Expr::Num(n) => Some(n),
        _ => None,
    }
}

/// The boolean reading of a value: a positive number, a non-empty string,
/// `true`; nothing for a tree that is not a value.
pub open spec fn coerce_bool(e: Expr) -> Option<bool> {
    match e {
        Expr::Bool(b) => Some(b),
        Expr::Num(n) => Some(n > 0),
        Expr::Str(s) => Some(s@.len() > 0),
        Expr::Null => Some(false),
        _ => None,
    }
}

/// Structural equality of two values, strings compared by content.
pub open spec fn values_equal(a: Expr, b: Expr) -> bool {
    match (a, b) {
        (Expr::Num(x), Expr::Num(y)) => x == y,
        (Expr::Str(x), Expr::Str(y)) => x@ == y@,
        (Expr::Bool(x), Expr::Bool(y)) => x == y,
        (Expr::Null, Expr::Null) => true,
        _ => false,
    }
}

/// Integer result of an arithmetic operator, or why there is none.
pub open spec fn arith(op: BinOp, a: i32, b: i32) -> Result<i32, ExprError> {
    let r: int = match op {
        BinOp::Add => a + b,
        BinOp::Sub => a - b,
        BinOp::Mul => a * b,
        _ => if b == 0 { 0 } else { trunc_div(a as int, b as int) },
    };
    if op == BinOp::Div && b == 0 {
        Err(ExprError::DivisionByZero)
    } else if i32::MIN <= r <= i32::MAX {
        Ok(r as i32)
    } else {
        Err(ExprError::FailedBinEvaluation)
    }
}

/// Integer division rounding toward zero.
pub open spec fn trunc_div(a: int, b: int) -> int {
    let q = (if a >= 0 { a } else { -a }) / (if b >= 0 { b } else { -b });
    if (a >= 0) == (b >= 0) { q } else { -q }
}

/// Result of a comparison operator on two integers.
pub open spec fn compare_ints(op: BinOp, a: i32, b: i32) -> bool {
    match op {
        BinOp::GreaterSign => a > b,
        BinOp::LessSign => a < b,
        BinOp::GreaterEqSign => a >= b,
        _ => a <= b,
    }
}

pub open spec fn is_arith_op(op: BinOp) -> bool {
    op == BinOp::Add || op == BinOp::Sub || op == BinOp::Mul || op == BinOp::Div
}

pub open spec fn is_order_op(op: BinOp) -> bool {
    op == BinOp::GreaterSign || op == BinOp::LessSign || op == BinOp::GreaterEqSign
        || op == BinOp::LessEqSign
}

/// Both operands read as integers: the left one is evaluated and coerced
/// before the right one.
pub open spec fn int_operands(l: Result<Expr, ExprError>, r: Result<Expr, ExprError>) -> Result<(i32, i32), ExprError> {
    match l {
        Err(e) => Err(e),
        Ok(lv) => match coerce_int(lv) {
            None => Err(ExprError::FailedConversion),
            Some(a) => match r {
                Err(e) => Err(e),
                Ok(rv) => match coerce_int(rv) {
                    None => Err(ExprError::FailedConversion),
                    Some(b) => Ok((a, b)),
                },
            },
        },
    }
}

/// Both operands read as booleans, in the same order.
pub open spec fn bool_operands(l: Result<Expr, ExprError>, r: Result<Expr, ExprError>) -> Result<(bool, bool), ExprError> {
    match l {
        Err(e) => Err(e),
        Ok(lv) => match coerce_bool(lv) {
            None => Err(ExprError::FailedConversion),
            Some(a) => match r {
                Err(e) => Err(e),
                Ok(rv) => match coerce_bool(rv) {
                    None => Err(ExprError::FailedConversion),
                    Some(b) => Ok((a, b)),
                },
            },
        },
    }
}

/// What a binary operator gives on the evaluation results of its operands.
pub open spec fn apply_bin(op: BinOp, l: Result<Expr, ExprError>, r: Result<Expr, ExprError>) -> Result<Expr, ExprError> {
    if is_arith_op(op) {
        match int_operands(l, r) {
            Err(e) => Err(e),
            Ok((a, b)) => match arith(op, a, b) {
                Err(e) => Err(e),
                Ok(n) => Ok(Expr::Num(n)),
            },
        }
    } else if is_order_op(op) {
        match int_operands(l, r) {
            Err(e) => Err(e),
            Ok((a, b)) => Ok(Expr::Bool(compare_ints(op, a, b))),
        }
    } else if op == BinOp::And || op == BinOp::Or {
        match bool_operands(l, r) {
            Err(e) => Err(e),
            Ok((a, b)) => Ok(Expr::Bool(if op == BinOp::And { a && b } else { a || b })),
        }
    } else {
        match l {
            Err(e) => Err(e),
            Ok(lv) => match r {
                Err(e) => Err(e),
                Ok(rv) => Ok(Expr::Bool(
                    if op == BinOp::EqSign { values_equal(lv, rv) } else { !values_equal(lv, rv) },
                )),
            },
        }
    }
}

/// The value of an expression tree. Variables have no value here: reading
/// one fails.
pub open spec fn eval_of(e: Expr) -> Result<Expr, ExprError>
    decreases e,
{
    match e {
        Expr::Var(_) => Err(ExprError::FailedConversion),
        Expr::Unary(_, inner) => match eval_of(*inner) {
            Err(err) => Err(err),
            Ok(v) => match coerce_bool(v) {
                None => Err(ExprError::InvalidUnaryOperation),
                Some(b) => Ok(Expr::Bool(!b)),
            },
        },
        Expr::Bin(b) => apply_bin(b.op, eval_of(*b.lhs), eval_of(*b.rhs)),
        _ => Ok(e),
    }
}


/// The integer reading of a value.
pub fn coerce_to_integer(e: &Expr) -> (r: Option<i32>)
    ensures
        r == coerce_int(*e),
{
    match e {
        Expr::Num(n) => Some(*n),
        _ => None,
    }
}

/// The boolean reading of a value.
pub fn coerce_to_boolean(e: &Expr) -> (r: Option<bool>)
    ensures
        r == coerce_bool(*e),
{
    match e {
        Expr::Bool(b) => Some(*b),
        Expr::Num(n) => Some(*n > 0),
        Expr::Str(s) => Some(s.unicode_len() > 0),
        Expr::Null => Some(false),
        _ => None,
    }
}

/// Structural equality of two values.
pub fn values_eq(a: &Expr, b: &Expr) -> (r: bool)
    ensures
        r == values_equal(*a, *b),
{
    match (a, b) {
        (Expr::Num(x), Expr::Num(y)) => *x == *y,
        (Expr::Str(x), Expr::Str(y)) => *x == *y,
        (Expr::Bool(x), Expr::Bool(y)) => *x == *y,
        (Expr::Null, Expr::Null) => true,
        _ => false,
    }
}

fn arith_exec(op: BinOp, a: i32, b: i32) -> (r: Result<i32, ExprError>)
    requires
        is_arith_op(op),
    ensures
        r == arith(op, a, b),
{
    match op {
        BinOp::Add => match a.checked_add(b) {
            Some(n) => Ok(n),
            None => Err(ExprError::FailedBinEvaluation),
        },
        BinOp::Sub => match a.checked_sub(b) {
            Some(n) => Ok(n),
            None => Err(ExprError::FailedBinEvaluation),
        },
        BinOp::Mul => match a.checked_mul(b) {
            Some(n) => Ok(n),
            None => Err(ExprError::FailedBinEvaluation),
        },
        _ => {
            if b == 0 {
                Err(ExprError::DivisionByZero)
            } else {
                let x: i64 = if a >= 0 { a as i64 } else { -(a as i64) };
                let y: i64 = if b >= 0 { b as i64 } else { -(b as i64) };
                let q: i64 = x / y;
                let n: i64 = if (a >= 0) == (b >= 0) { q } else { -q };
                if n < i32::MIN as i64 || n > i32::MAX as i64 {
                    Err(ExprError::FailedBinEvaluation)
                } else {
                    Ok(n as i32)
                }
            }
        },
    }
}

/// A deep copy of an expression tree.
pub fn copy_expr(e: &Expr) -> (r: Expr)
    ensures
        r == *e,
    decreases e,
{
    match e {
        Expr::Num(n) => Expr::Num(*n),
        Expr::Str(s) => Expr::Str(s.clone()),
        Expr::Var(s) => Expr::Var(s.clone()),
        Expr::Bool(b) => Expr::Bool(*b),
        Expr::Bin(b) => Expr::Bin(
            BinExpr { lhs: Box::new(copy_expr(&b.lhs)), rhs: Box::new(copy_expr(&b.rhs)), op: b.op },
        ),
        Expr::Unary(op, inner) => Expr::Unary(*op, Box::new(copy_expr(inner))),
        Expr::Null => Expr::Null,
    }
}

impl Clone for Expr {
    fn clone(&self) -> (r: Self)
        ensures
            r == *self,
    {
        copy_expr(self)
    }
}

impl Clone for BinExpr {
    fn clone(&self) -> (r: Self)
        ensures
            r == *self,
    {
        BinExpr { lhs: Box::new(copy_expr(&self.lhs)), rhs: Box::new(copy_expr(&self.rhs)), op: self.op }
    }
}

impl Expr {
    /// Evaluates the expression to a value.
    pub fn eval(&self) -> (r: Result<Expr, ExprError>)
        ensures
            r == eval_of(*self),
            r is Ok ==> is_value(r->Ok_0),
        decreases self,
    {
        match self {
            Expr::Num(n) => Ok(Expr::Num(*n)),
            Expr::Str(s) => Ok(Expr::Str(s.clone())),
            Expr::Bool(b) => Ok(Expr::Bool(*b)),
            Expr::Null => Ok(Expr::Null),
            Expr::Var(_) => Err(ExprError::FailedConversion),
            Expr::Unary(_, inner) => match inner.eval() {
                Err(err) => Err(err),
                Ok(v) => match coerce_to_boolean(&v) {
                    None => Err(ExprError::InvalidUnaryOperation),
                    Some(b) => Ok(Expr::Bool(!b)),
                },
            },
            Expr::Bin(b) => b.eval_ref(),
        }
    }
}

impl BinExpr {
    pub fn new(lhs: Box<Expr>, rhs: Box<Expr>, op: BinOp) -> (r: Self)
        ensures
            r.lhs == lhs,
            r.rhs == rhs,
            r.op == op,
    {
        BinExpr { lhs, rhs, op }
    }

    /// Evaluates both operands and reads them as integers.
    fn try_into_nums(&self) -> (r: Result<(i32, i32), ExprError>)
        ensures
            r == int_operands(eval_of(*self.lhs), eval_of(*self.rhs)),
        decreases self, 0int,
    {
        let l = match self.lhs.eval() {
            Err(e) => return Err(e),
            Ok(v) => v,
        };
        let a = match coerce_to_integer(&l) {
            None => return Err(ExprError::FailedConversion),
            Some(a) => a,
        };
        let r = match self.rhs.eval() {
            Err(e) => return Err(e),
            Ok(v) => v,
        };
        match coerce_to_integer(&r) {
            None => Err(ExprError::FailedConversion),
            Some(b) => Ok((a, b)),
        }
    }

    /// Evaluates both operands and reads them as booleans.
    fn try_into_bools(&self) -> (r: Result<(bool, bool), ExprError>)
        ensures
            r == bool_operands(eval_of(*self.lhs), eval_of(*self.rhs)),
        decreases self, 0int,
    {
        let l = match self.lhs.eval() {
            Err(e) => return Err(e),
            Ok(v) => v,
        };
        let a = match coerce_to_boolean(&l) {
            None => return Err(ExprError::FailedConversion),
            Some(a) => a,
        };
        let r = match self.rhs.eval() {
            Err(e) => return Err(e),
            Ok(v) => v,
        };
        match coerce_to_boolean(&r) {
            None => Err(ExprError::FailedConversion),
            Some(b) => Ok((a, b)),
        }
    }

    fn eval_ref(&self) -> (r: Result<Expr, ExprError>)
        ensures
            r == apply_bin(self.op, eval_of(*self.lhs), eval_of(*self.rhs)),
            r is Ok ==> is_value(r->Ok_0),
        decreases self, 1int,
    {
        match self.op {
            BinOp::Add | BinOp::Sub | BinOp::Mul | BinOp::Div => match self.try_into_nums() {
                Err(e) => Err(e),
                Ok((a, b)) => match arith_exec(self.op, a, b) {
                    Err(e) => Err(e),
                    Ok(n) => Ok(Expr::Num(n)),
                },
            },
            BinOp::GreaterSign | BinOp::LessSign | BinOp::GreaterEqSign | BinOp::LessEqSign => {
                match self.try_into_nums() {
                    Err(e) => Err(e),
                    Ok((a, b)) => {
                        let v = match self.op {
                            BinOp::GreaterSign => a > b,
                            BinOp::LessSign => a < b,
                            BinOp::GreaterEqSign => a >= b,
                            _ => a <= b,
                        };
                        Ok(Expr::Bool(v))
                    },
                }
            },
            BinOp::And | BinOp::Or => match self.try_into_bools() {
                Err(e) => Err(e),
                Ok((a, b)) => Ok(Expr::Bool(if self.op == BinOp::And { a && b } else { a || b })),
            },
            BinOp::EqSign | BinOp::NeqSign => {
                let l = match self.lhs.eval() {
                    Err(e) => return Err(e),
                    Ok(v) => v,
                };
                let r = match self.rhs.eval() {
                    Err(e) => return Err(e),
                    Ok(v) => v,
                };
                let same = values_eq(&l, &r);
                Ok(Expr::Bool(if self.op == BinOp::EqSign { same } else { !same }))
            },
        }
    }

    /// Evaluates the expression, consuming it.
    pub fn eval(self) -> (r: Result<Expr, ExprError>)
        ensures
            r == apply_bin(self.op, eval_of(*self.lhs), eval_of(*self.rhs)),
            r is Ok ==> is_value(r->Ok_0),
    {
        self.eval_ref()
    }
}


/// Whether `e` is built from integer literals and `+ - * /` alone.
pub open spec fn is_arith_tree(e: Expr) -> bool
    decreases e,
{
    match e {
        Expr::Num(_) => true,
        Expr::Bin(b) => is_arith_op(b.op) && is_arith_tree(*b.lhs) && is_arith_tree(*b.rhs),
        _ => false,
    }
}

/// The value of an arithmetic tree in unbounded integers, division
/// truncating toward zero.
pub open spec fn arith_value(e: Expr) -> int
    decreases e,
{
    match e {
        Expr::Num(n) => n as int,
        Expr::Bin(b) => {
            let l = arith_value(*b.lhs);
            let r = arith_value(*b.rhs);
            match b.op {
                BinOp::Add => l + r,
                BinOp::Sub => l - r,
                BinOp::Mul => l * r,
                _ => if r == 0 { 0 } else { trunc_div(l, r) },
            }
        },
        _ => 0,
    }
}

/// Every division in the tree has a non-zero divisor and every intermediate
/// value fits an `i32`.
pub open spec fn arith_defined(e: Expr) -> bool
    decreases e,
{
    match e {
        Expr::Num(_) => true,
        Expr::Bin(b) => arith_defined(*b.lhs) && arith_defined(*b.rhs) && (b.op == BinOp::Div
            ==> arith_value(*b.rhs) != 0) && i32::MIN <= arith_value(e) <= i32::MAX,
        _ => true,
    }
}

/// An arithmetic tree evaluates to its value in ordinary integer arithmetic
/// with truncating division, wherever that arithmetic stays defined and in
/// the range of `i32`.
pub proof fn lemma_arith_eval(e: Expr)
    requires
        is_arith_tree(e),
        arith_defined(e),
    ensures
        eval_of(e) == Ok::<Expr, ExprError>(Expr::Num(arith_value(e) as i32)),
    decreases e,
{
    if let Expr::Bin(b) = e {
        lemma_arith_eval(*b.lhs);
        lemma_arith_eval(*b.rhs);
        lemma_arith_in_range(*b.lhs);
        lemma_arith_in_range(*b.rhs);
        let x = arith_value(*b.lhs) as i32;
        let y = arith_value(*b.rhs) as i32;
        assert(x as int == arith_value(*b.lhs));
        assert(y as int == arith_value(*b.rhs));
        assert(int_operands(eval_of(*b.lhs), eval_of(*b.rhs)) == Ok::<(i32, i32), ExprError>((x, y)));
        assert(arith(b.op, x, y) == Ok::<i32, ExprError>(arith_value(e) as i32));
    }
}

proof fn lemma_arith_in_range(e: Expr)
    requires
        is_arith_tree(e),
        arith_defined(e),
    ensures
        i32::MIN <= arith_value(e) <= i32::MAX,
{
}

/// Evaluation yields a value whenever it succeeds.
pub proof fn lemma_eval_is_value(e: Expr)
    ensures
        eval_of(e) is Ok ==> is_value(eval_of(e)->Ok_0),
    decreases e,
{
    match e {
        Expr::Unary(_, inner) => lemma_eval_is_value(*inner),
        Expr::Bin(b) => {
            lemma_eval_is_value(*b.lhs);
            lemma_eval_is_value(*b.rhs);
        },
        _ => {},
    }
}

/// `==` and `!=` are defined on every pair of values, of the same kind or
/// not, and never fail.
pub proof fn lemma_equality_total(a: Expr, b: Expr)
    requires
        is_value(a),
        is_value(b),
    ensures
        eval_of(Expr::Bin(BinExpr { lhs: Box::new(a), rhs: Box::new(b), op: BinOp::EqSign }))
            == Ok::<Expr, ExprError>(Expr::Bool(values_equal(a, b))),
        eval_of(Expr::Bin(BinExpr { lhs: Box::new(a), rhs: Box::new(b), op: BinOp::NeqSign }))
            == Ok::<Expr, ExprError>(Expr::Bool(!values_equal(a, b))),
        (a is Num && b is Str) ==> !values_equal(a, b),
{
    assert(eval_of(a) == Ok::<Expr, ExprError>(a));
    assert(eval_of(b) == Ok::<Expr, ExprError>(b));
}

/// The boolean reading: zero is false, a positive number true, a string is
/// true exactly when it is non-empty, `null` is false.
pub proof fn lemma_bool_coercion(n: i32, s: String)
    ensures
        coerce_bool(Expr::Num(0)) == Some(false),
        n > 0 ==> coerce_bool(Expr::Num(n)) == Some(true),
        coerce_bool(Expr::Str(s)) == Some(s@.len() > 0),
        s@.len() == 0 ==> coerce_bool(Expr::Str(s)) == Some(false),
        coerce_bool(Expr::Null) == Some(false),
        coerce_bool(Expr::Bool(true)) == Some(true),
        coerce_bool(Expr::Bool(false)) == Some(false),
{
}

/// `!` gives the negation of the boolean reading of its operand's value, and
/// `!!x` gives that reading itself.
pub proof fn lemma_double_negation(x: Expr)
    requires
        eval_of(x) is Ok,
    ensures
        coerce_bool(eval_of(x)->Ok_0) is Some,
        eval_of(Expr::Unary(UnOp::Bang, Box::new(x))) == Ok::<Expr, ExprError>(
            Expr::Bool(!coerce_bool(eval_of(x)->Ok_0)->Some_0),
        ),
        eval_of(Expr::Unary(UnOp::Bang, Box::new(Expr::Unary(UnOp::Bang, Box::new(x))))) == Ok::<
            Expr,
            ExprError,
        >(Expr::Bool(coerce_bool(eval_of(x)->Ok_0)->Some_0)),
{
    lemma_eval_is_value(x);
}


/// The character of a decimal digit.
pub open spec fn digit_char(d: nat) -> char {
    if d == 0 { '0' } else if d == 1 { '1' } else if d == 2 { '2' } else if d == 3 { '3' }
    else if d == 4 { '4' } else if d == 5 { '5' } else if d == 6 { '6' } else if d == 7 { '7' }
    else if d == 8 { '8' } else { '9' }
}

/// Decimal digits of a natural number, most significant first.
pub open spec fn digits_of(n: nat) -> Seq<char>
    decreases n,
{
    if n < 10 {
        seq![digit_char(n)]
    } else {
        digits_of(n / 10) + seq![digit_char(n % 10)]
    }
}

/// Decimal text of an integer, with a leading `-` when negative.
pub open spec fn decimal_of(n: int) -> Seq<char> {
    if n < 0 {
        seq!['-'] + digits_of((-n) as nat)
    } else {
        digits_of(n as nat)
    }
}

/// Display text of a value: numbers and booleans bare, strings quoted,
/// `null` as the word; a tree that is not a value has none.
pub open spec fn text_of(e: Expr) -> Option<Seq<char>> {
    match e {
        Expr::Num(n) => Some(decimal_of(n as int)),
        Expr::Str(s) => Some(seq!['"'] + s@ + seq!['"']),
        Expr::Bool(b) => Some(if b { "true"@ } else { "false"@ }),
        Expr::Null => Some("null"@),
        _ => None,
    }
}

fn digit_str(d: u64) -> (r: &'static str)
    requires
        d < 10,
    ensures
        r@ == seq![digit_char(d as nat)],
{
    let r = match d {
        0 => "0",
        1 => "1",
        2 => "2",
        3 => "3",
        4 => "4",
        5 => "5",
        6 => "6",
        7 => "7",
        8 => "8",
        _ => "9",
    };
    proof {
        reveal_strlit("0");
        reveal_strlit("1");
        reveal_strlit("2");
        reveal_strlit("3");
        reveal_strlit("4");
        reveal_strlit("5");
        reveal_strlit("6");
        reveal_strlit("7");
        reveal_strlit("8");
        reveal_strlit("9");
    }
    assert(r@ =~= seq![digit_char(d as nat)]);
    r
}

fn write_digits(n: u64) -> (r: String)
    ensures
        r@ == digits_of(n as nat),
    decreases n,
{
    if n < 10 {
        String::from_str(digit_str(n))
    } else {
        let head = write_digits(n / 10);
        head.concat(digit_str(n % 10))
    }
}

impl Expr {
    /// Display text of a value, or `None` for a tree that is not a value.
    pub fn to_text(&self) -> (r: Option<String>)
        ensures
            match text_of(*self) {
                Some(t) => r is Some && r->Some_0@ == t,
                None => r is None,
            },
    {
        match self {
            Expr::Num(n) => {
                if *n < 0 {
                    let m: i64 = -(*n as i64);
                    let digits = write_digits(m as u64);
                    let minus = String::from_str("-");
                    proof {
                        reveal_strlit("-");
                    }
                    assert(minus@ =~= seq!['-']);
                    assert((m as u64) as nat == (-(*n as int)) as nat);
                    assert(minus@ + digits@ == decimal_of(*n as int));
                    Some(minus.concat(digits.as_str()))
                } else {
                    assert((*n as u64) as nat == *n as nat);
                    Some(write_digits(*n as u64))
                }
            },
            Expr::Str(s) => {
                let quoted = String::from_str("\"").concat(s.as_str());
                proof {
                    reveal_strlit("\"");
                }
                assert("\""@ =~= seq!['"']);
                Some(quoted.concat("\""))
            },
            Expr::Bool(b) => Some(String::from_str(if *b { "true" } else { "false" })),
            Expr::Null => Some(String::from_str("null")),
            _ => None,
        }
    }
}

} // verus!
