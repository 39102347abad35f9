use vstd::prelude::*;

use crate::expr::{digit_char, digits_of};
use crate::stmt::is_word;
use crate::token::{BinOp, Token, TokenView, UnOp};

verus! {

/// Failures of tokenization.
#[derive(Debug, Clone, Copy, PartialEq, Eq, Structural)]
pub enum LexError {
    /// A character that starts no token.
    IllegalCharacter,
    /// A string literal with no closing quote.
    UnterminatedString,
    /// An integer literal above `i32::MAX`.
    IntegerOverflow,
}

pub open spec fn is_space(c: char) -> bool {
    c == ' ' || c == '\t' || c == '\n' || c == '\r'
}

pub open spec fn is_digit(c: char) -> bool {
    '0' <= c <= '9'
}

pub open spec fn is_alpha(c: char) -> bool {
    ('a' <= c <= 'z') || ('A' <= c <= 'Z')
}

pub open spec fn is_word_char(c: char) -> bool {
    is_alpha(c) || is_digit(c) || c == '_'
}

/// End of the run of digits that starts at `i`.
pub open spec fn digits_end(s: Seq<char>, i: int) -> int
    decreases s.len() - i,
{
    if 0 <= i < s.len() && is_digit(s[i]) {
        digits_end(s, i + 1)
    } else {
        i
    }
}

/// End of the run of word characters that starts at `i`.
pub open spec fn word_end(s: Seq<char>, i: int) -> int
    decreases s.len() - i,
{
    if 0 <= i < s.len() && is_word_char(s[i]) {
        word_end(s, i + 1)
    } else {
        i
    }
}

/// Position of the first `"` at or after `i`, or the length.
pub open spec fn quote_end(s: Seq<char>, i: int) -> int
    decreases s.len() - i,
{
    if 0 <= i < s.len() && s[i] != '"' {
        quote_end(s, i + 1)
    } else {
        i
    }
}

/// Decimal value of the digits `s[i..j]`.
pub open spec fn digits_value(s: Seq<char>, i: int, j: int) -> int
    decreases j - i,
{
    if j <= i {
        0
    } else {
        digits_value(s, i, j - 1) * 10 + (s[j - 1] as int - '0' as int)
    }
}

/// The token a word stands for: a keyword, a literal or an identifier.
pub open spec fn word_token(w: Seq<char>) -> TokenView {
    if w == "let"@ || w == "print"@ {
        TokenView::Keyword(w)
    } else if w == "true"@ {
        TokenView::Bool(true)
    } else if w == "false"@ {
        TokenView::Bool(false)
    } else if w == "null"@ {
        TokenView::Null
    } else {
        TokenView::Ident(w)
    }
}

/// An operator of one character, or of two where the next one is `second`.
pub open spec fn pair(s: Seq<char>, i: int, second: char, two: TokenView, one: TokenView) -> (Option<TokenView>, int) {
    if i + 1 < s.len() && s[i + 1] == second {
        (Some(two), i + 2)
    } else {
        (Some(one), i + 1)
    }
}

/// One step of the scan at `i < s.len()`: a token (or none, for white space)
/// and the position after it.
pub open spec fn step(s: Seq<char>, i: int) -> Result<(Option<TokenView>, int), LexError> {
    let c = s[i];
    if is_space(c) {
        Ok((None, i + 1))
    } else if is_digit(c) {
        let j = digits_end(s, i);
        let v = digits_value(s, i, j);
        if v > i32::MAX {
            Err(LexError::IntegerOverflow)
        } else {
            Ok((Some(TokenView::Int(v as i32)), j))
        }
    } else if c == '"' {
        let j = quote_end(s, i + 1);
        if j >= s.len() {
            Err(LexError::UnterminatedString)
        } else {
            Ok((Some(TokenView::Str(s.subrange(i + 1, j))), j + 1))
        }
    } else if is_alpha(c) {
        let j = word_end(s, i);
        Ok((Some(word_token(s.subrange(i, j))), j))
    } else if c == '=' {
        Ok(pair(s, i, '=', TokenView::Op(BinOp::EqSign), TokenView::AssignmentSign))
    } else if c == '!' {
        Ok(pair(s, i, '=', TokenView::Op(BinOp::NeqSign), TokenView::UnaryOp(UnOp::Bang)))
    } else if c == '>' {
        Ok(pair(s, i, '=', TokenView::Op(BinOp::GreaterEqSign), TokenView::Op(BinOp::GreaterSign)))
    } else if c == '<' {
        Ok(pair(s, i, '=', TokenView::Op(BinOp::LessEqSign), TokenView::Op(BinOp::LessSign)))
    } else if c == '&' && i + 1 < s.len() && s[i + 1] == '&' {
        Ok((Some(TokenView::Op(BinOp::And)), i + 2))
    } else if c == '|' && i + 1 < s.len() && s[i + 1] == '|' {
        Ok((Some(TokenView::Op(BinOp::Or)), i + 2))
    } else if c == '+' {
        Ok((Some(TokenView::Op(BinOp::Add)), i + 1))
    } else if c == '-' {
        Ok((Some(TokenView::Op(BinOp::Sub)), i + 1))
    } else if c == '*' {
        Ok((Some(TokenView::Op(BinOp::Mul)), i + 1))
    } else if c == '/' {
        Ok((Some(TokenView::Op(BinOp::Div)), i + 1))
    } else if c == ';' {
        Ok((Some(TokenView::Semi), i + 1))
    } else if c == '(' {
        Ok((Some(TokenView::LeftBracket), i + 1))
    } else if c == ')' {
        Ok((Some(TokenView::RightBracket), i + 1))
    } else {
        Err(LexError::IllegalCharacter)
    }
}

/// The tokens of `s` from position `i`, left to right; the first failure
/// stops the scan.
pub open spec fn lex(s: Seq<char>, i: int) -> Result<Seq<TokenView>, LexError>
    decreases s.len() - i,
{
    if i < 0 || i >= s.len() {
        Ok(Seq::empty())
    } else {
        match step(s, i) {
            Err(e) => Err(e),
            Ok((t, j)) => if i < j <= s.len() {
                match lex(s, j) {
                    Err(e) => Err(e),
                    Ok(rest) => match t {
                        Some(tv) => Ok(seq![tv] + rest),
                        None => Ok(rest),
                    },
                }
            } else {
                Err(LexError::IllegalCharacter)
            },
        }
    }
}

/// The views of a token sequence.
pub open spec fn views(ts: Seq<Token>) -> Seq<TokenView> {
    ts.map_values(|t: Token| t@)
}


spec fn prepend(v: Seq<TokenView>, r: Result<Seq<TokenView>, LexError>) -> Result<Seq<TokenView>, LexError> {
    match r {
        Ok(rest) => Ok(v + rest),
        Err(e) => Err(e),
    }
}

spec fn opt_view(t: Option<Token>) -> Option<TokenView> {
    match t {
        Some(t) => Some(t@),
        None => None,
    }
}

fn char_is_digit(c: char) -> (r: bool)
    ensures
        r == is_digit(c),
{
    '0' <= c && c <= '9'
}

fn char_is_alpha(c: char) -> (r: bool)
    ensures
        r == is_alpha(c),
{
    ('a' <= c && c <= 'z') || ('A' <= c && c <= 'Z')
}

fn is_word_char_exec(c: char) -> (r: bool)
    ensures
        r == is_word_char(c),
{
    char_is_alpha(c) || char_is_digit(c) || c == '_'
}

/// Scans a run of digits at `i`: its end, and its value where it fits an `i32`.
fn scan_digits(src: &str, len: usize, i: usize) -> (r: (usize, Option<i32>))
    requires
        i < len == src@.len(),
    ensures
        r.0 == digits_end(src@, i as int),
        digits_value(src@, i as int, r.0 as int) > i32::MAX ==> r.1 is None,
        digits_value(src@, i as int, r.0 as int) <= i32::MAX ==> r.1 == Some(
            digits_value(src@, i as int, r.0 as int) as i32,
        ),
{
    let ghost s = src@;
    let mut j: usize = i;
    let mut acc: i64 = 0;
    let mut over = false;
    while j < len && char_is_digit(src.get_char(j))
        invariant
            len == s.len(),
            s == src@,
            i <= j <= len,
            digits_end(s, i as int) == digits_end(s, j as int),
            digits_value(s, i as int, j as int) >= 0,
            over == (digits_value(s, i as int, j as int) > i32::MAX),
            !over ==> acc == digits_value(s, i as int, j as int),
        decreases len - j,
    {
        let c = src.get_char(j);
        let d: i64 = (c as u32 - '0' as u32) as i64;
        let ghost before = digits_value(s, i as int, j as int);
        assert(digits_value(s, i as int, j + 1) == before * 10 + d);
        if !over {
            acc = acc * 10 + d;
            over = acc > i32::MAX as i64;
        } else {
            assert(before * 10 + d > i32::MAX) by (nonlinear_arith)
                requires
                    before > i32::MAX,
                    d >= 0,
            ;
        }
        j = j + 1;
    }
    if over {
        (j, None)
    } else {
        (j, Some(acc as i32))
    }
}

/// End of the run of word characters at `i`.
fn scan_word(src: &str, len: usize, i: usize) -> (r: usize)
    requires
        i <= len == src@.len(),
    ensures
        r == word_end(src@, i as int),
        i <= r <= len,
{
    let mut j: usize = i;
    while j < len && is_word_char_exec(src.get_char(j))
        invariant
            len == src@.len(),
            i <= j <= len,
            word_end(src@, i as int) == word_end(src@, j as int),
        decreases len - j,
    {
        j = j + 1;
    }
    j
}

/// Position of the first quote at or after `i`, or the length.
fn scan_quote(src: &str, len: usize, i: usize) -> (r: usize)
    requires
        i <= len == src@.len(),
    ensures
        r == quote_end(src@, i as int),
        i <= r <= len,
{
    let mut j: usize = i;
    while j < len && src.get_char(j) != '"'
        invariant
            len == src@.len(),
            i <= j <= len,
            quote_end(src@, i as int) == quote_end(src@, j as int),
        decreases len - j,
    {
        j = j + 1;
    }
    j
}

/// The token that the word `w` stands for.
fn word_to_token(w: String) -> (r: Token)
    ensures
        r@ == word_token(w@),
{
    if is_word(&w, "let") || is_word(&w, "print") {
        Token::Keyword(w)
    } else if is_word(&w, "true") {
        Token::Bool(true)
    } else if is_word(&w, "false") {
        Token::Bool(false)
    } else if is_word(&w, "null") {
        Token::Null
    } else {
        Token::Ident(w)
    }
}

/// One step of the scan at `i`.
fn next_token(src: &str, len: usize, i: usize) -> (r: Result<(Option<Token>, usize), LexError>)
    requires
        i < len == src@.len(),
    ensures
        match step(src@, i as int) {
            Ok((t, j)) => r is Ok && opt_view(r->Ok_0.0) == t && r->Ok_0.1 == j,
            Err(e) => r == Err::<(Option<Token>, usize), LexError>(e),
        },
        r is Ok ==> i < r->Ok_0.1 <= len,
{
    let c = src.get_char(i);
    let next: Option<char> = if i + 1 < len { Some(src.get_char(i + 1)) } else { None };
    if c == ' ' || c == '\t' || c == '\n' || c == '\r' {
        Ok((None, i + 1))
    } else if char_is_digit(c) {
        let (j, v) = scan_digits(src, len, i);
        proof {
            lemma_digits_end(src@, i as int);
        }
        match v {
            None => Err(LexError::IntegerOverflow),
            Some(n) => Ok((Some(Token::Int(n)), j)),
        }
    } else if c == '"' {
        let j = scan_quote(src, len, i + 1);
        if j >= len {
            Err(LexError::UnterminatedString)
        } else {
            let text = String::from_str(src.substring_char(i + 1, j));
            Ok((Some(Token::Str(text)), j + 1))
        }
    } else if char_is_alpha(c) {
        let j = scan_word(src, len, i);
        proof {
            lemma_word_end(src@, i as int);
        }
        let w = String::from_str(src.substring_char(i, j));
        Ok((Some(word_to_token(w)), j))
    } else if c == '=' {
        if next == Some('=') {
            Ok((Some(Token::Op(BinOp::EqSign)), i + 2))
        } else {
            Ok((Some(Token::AssignmentSign), i + 1))
        }
    } else if c == '!' {
        if next == Some('=') {
            Ok((Some(Token::Op(BinOp::NeqSign)), i + 2))
        } else {
            Ok((Some(Token::UnaryOp(UnOp::Bang)), i + 1))
        }
    } else if c == '>' {
        if next == Some('=') {
            Ok((Some(Token::Op(BinOp::GreaterEqSign)), i + 2))
        } else {
            Ok((Some(Token::Op(BinOp::GreaterSign)), i + 1))
        }
    } else if c == '<' {
        if next == Some('=') {
            Ok((Some(Token::Op(BinOp::LessEqSign)), i + 2))
        } else {
            Ok((Some(Token::Op(BinOp::LessSign)), i + 1))
        }
    } else if c == '&' && next == Some('&') {
        Ok((Some(Token::Op(BinOp::And)), i + 2))
    } else if c == '|' && next == Some('|') {
        Ok((Some(Token::Op(BinOp::Or)), i + 2))
    } else if c == '+' {
        Ok((Some(Token::Op(BinOp::Add)), i + 1))
    } else if c == '-' {
        Ok((Some(Token::Op(BinOp::Sub)), i + 1))
    } else if c == '*' {
        Ok((Some(Token::Op(BinOp::Mul)), i + 1))
    } else if c == '/' {
        Ok((Some(Token::Op(BinOp::Div)), i + 1))
    } else if c == ';' {
        Ok((Some(Token::Semi), i + 1))
    } else if c == '(' {
        Ok((Some(Token::LeftBracket), i + 1))
    } else if c == ')' {
        Ok((Some(Token::RightBracket), i + 1))
    } else {
        Err(LexError::IllegalCharacter)
    }
}

proof fn lemma_digits_end(s: Seq<char>, i: int)
    requires
        0 <= i < s.len(),
        is_digit(s[i]),
    ensures
        i < digits_end(s, i) <= s.len(),
    decreases s.len() - i,
{
    if i + 1 < s.len() && is_digit(s[i + 1]) {
        lemma_digits_end(s, i + 1);
    } else {
        assert(digits_end(s, i + 1) == i + 1);
    }
}

proof fn lemma_word_end(s: Seq<char>, i: int)
    requires
        0 <= i < s.len(),
        is_word_char(s[i]),
    ensures
        i < word_end(s, i) <= s.len(),
    decreases s.len() - i,
{
    if i + 1 < s.len() && is_word_char(s[i + 1]) {
        lemma_word_end(s, i + 1);
    } else {
        assert(word_end(s, i + 1) == i + 1);
    }
}

/// Splits source text into tokens.
pub fn tokenize(source: &str) -> (r: Result<Vec<Token>, LexError>)
    ensures
        match lex(source@, 0) {
            Ok(ts) => r is Ok && views(r->Ok_0@) == ts,
            Err(e) => r == Err::<Vec<Token>, LexError>(e),
        },
{
    let len = source.unicode_len();
    let mut tokens: Vec<Token> = Vec::new();
    let mut i: usize = 0;
    proof {
        assert(views(tokens@) =~= Seq::<TokenView>::empty());
        assert(prepend(views(tokens@), lex(source@, 0)) == lex(source@, 0)) by {
            match lex(source@, 0) {
                Ok(rest) => {
                    assert(Seq::<TokenView>::empty() + rest =~= rest);
                },
                Err(_) => {},
            }
        }
    }
    while i < len
        invariant
            len == source@.len(),
            i <= len,
            lex(source@, 0) == prepend(views(tokens@), lex(source@, i as int)),
        decreases len - i,
    {
        match next_token(source, len, i) {
            Err(e) => return Err(e),
            Ok((None, j)) => {
                i = j;
            },
            Ok((Some(t), j)) => {
                proof {
                    let ghost v = views(tokens@);
                    assert(views(tokens@.push(t)) =~= v.push(t@));
                    match lex(source@, j as int) {
                        Ok(rest) => {
                            assert(v + (seq![t@] + rest) =~= v.push(t@) + rest);
                        },
                        Err(_) => {},
                    }
                }
                tokens.push(t);
                i = j;
            },
        }
    }
    proof {
        assert(views(tokens@) + Seq::<TokenView>::empty() =~= views(tokens@));
    }
    Ok(tokens)
}

/// A tokenizer over one source text.
pub struct Lexer {
    source: String,
}

impl Lexer {
    pub fn new(source: &str) -> (r: Lexer)
        ensures
            r.view() == source@,
    {
        Lexer { source: String::from_str(source) }
    }

    /// Splits the source into tokens.
    pub fn tokenize(&mut self) -> (r: Result<Vec<Token>, LexError>)
        ensures
            final(self).view() == old(self).view(),
            match lex(old(self).view(), 0) {
                Ok(ts) => r is Ok && views(r->Ok_0@) == ts,
                Err(e) => r == Err::<Vec<Token>, LexError>(e),
            },
    {
        tokenize(self.source.as_str())
    }
}

impl View for Lexer {
    type V = Seq<char>;

    closed spec fn view(&self) -> Seq<char> {
        self.source@
    }
}


/// Source text of an operator.
pub open spec fn op_text(op: BinOp) -> Seq<char> {
    match op {
        BinOp::Add => seq!['+'],
        BinOp::Sub => seq!['-'],
        BinOp::Mul => seq!['*'],
        BinOp::Div => seq!['/'],
        BinOp::EqSign => seq!['=', '='],
        BinOp::NeqSign => seq!['!', '='],
        BinOp::GreaterSign => seq!['>'],
        BinOp::LessSign => seq!['<'],
        BinOp::GreaterEqSign => seq!['>', '='],
        BinOp::LessEqSign => seq!['<', '='],
        BinOp::And => seq!['&', '&'],
        BinOp::Or => seq!['|', '|'],
    }
}

/// Words that never scan as identifiers.
pub open spec fn is_reserved(w: Seq<char>) -> bool {
    w == "let"@ || w == "print"@ || w == "true"@ || w == "false"@ || w == "null"@
}

/// Source text of a token.
pub open spec fn token_text(t: TokenView) -> Seq<char> {
    match t {
        TokenView::Int(n) => digits_of(n as nat),
        TokenView::Str(s) => seq!['"'] + s + seq!['"'],
        TokenView::Ident(w) => w,
        TokenView::Keyword(w) => w,
        TokenView::Bool(b) => if b { "true"@ } else { "false"@ },
        TokenView::Null => "null"@,
        TokenView::Op(op) => op_text(op),
        TokenView::UnaryOp(_) => seq!['!'],
        TokenView::AssignmentSign => seq!['='],
        TokenView::Semi => seq![';'],
        TokenView::LeftBracket => seq!['('],
        TokenView::RightBracket => seq![')'],
    }
}

/// Tokens whose text scans back to them: integers without sign, strings
/// without quotes, identifiers that are words and not reserved, and the
/// keywords `let` and `print`.
pub open spec fn renderable(t: TokenView) -> bool {
    match t {
        TokenView::Int(n) => n >= 0,
        TokenView::Str(s) => forall|k: int| 0 <= k < s.len() ==> s[k] != '"',
        TokenView::Ident(w) => w.len() > 0 && is_alpha(w[0]) && (forall|k: int|
            0 <= k < w.len() ==> is_word_char(w[k])) && !is_reserved(w),
        TokenView::Keyword(w) => w == "let"@ || w == "print"@,
        _ => true,
    }
}

/// Source text of a token sequence: the tokens' texts joined by single
/// spaces.
pub open spec fn join(ts: Seq<TokenView>) -> Seq<char>
    decreases ts.len(),
{
    if ts.len() == 0 {
        Seq::empty()
    } else if ts.len() == 1 {
        token_text(ts[0])
    } else {
        token_text(ts[0]) + seq![' '] + join(ts.drop_first())
    }
}

proof fn lemma_digits_shape(n: nat)
    ensures
        digits_of(n).len() > 0,
        forall|k: int| 0 <= k < digits_of(n).len() ==> is_digit(#[trigger] digits_of(n)[k]),
    decreases n,
{
    if n >= 10 {
        lemma_digits_shape(n / 10);
    }
}

proof fn lemma_digits_run(s: Seq<char>, i: int, j: int)
    requires
        0 <= i <= j <= s.len(),
        forall|k: int| i <= k < j ==> is_digit(#[trigger] s[k]),
        j < s.len() ==> !is_digit(s[j]),
    ensures
        digits_end(s, i) == j,
    decreases j - i,
{
    if i < j {
        lemma_digits_run(s, i + 1, j);
    }
}

proof fn lemma_word_run(s: Seq<char>, i: int, j: int)
    requires
        0 <= i <= j <= s.len(),
        forall|k: int| i <= k < j ==> is_word_char(#[trigger] s[k]),
        j < s.len() ==> !is_word_char(s[j]),
    ensures
        word_end(s, i) == j,
    decreases j - i,
{
    if i < j {
        lemma_word_run(s, i + 1, j);
    }
}

proof fn lemma_quote_run(s: Seq<char>, i: int, j: int)
    requires
        0 <= i <= j < s.len(),
        forall|k: int| i <= k < j ==> #[trigger] s[k] != '"',
        s[j] == '"',
    ensures
        quote_end(s, i) == j,
    decreases j - i,
{
    if i < j {
        lemma_quote_run(s, i + 1, j);
    }
}

proof fn lemma_digits_value(s: Seq<char>, i: int, n: nat)
    requires
        0 <= i,
        i + digits_of(n).len() <= s.len(),
        s.subrange(i, i + digits_of(n).len()) == digits_of(n),
    ensures
        digits_value(s, i, i + digits_of(n).len()) == n,
    decreases n,
{
    let d = digits_of(n);
    let j = i + d.len();
    assert(s[j - 1] == d[d.len() - 1]);
    if n >= 10 {
        let h = digits_of(n / 10);
        assert(d == h + seq![digit_char(n % 10)]);
        assert(s.subrange(i, i + h.len()) =~= h) by {
            assert forall|k: int| 0 <= k < h.len() implies s.subrange(i, i + h.len())[k] == h[k] by {
                assert(s[i + k] == d[k]);
            }
        }
        lemma_digits_value(s, i, n / 10);
        assert(digit_char(n % 10) as int - '0' as int == n % 10);
    } else {
        assert(digits_value(s, i, i) == 0);
        assert(digit_char(n) as int - '0' as int == n);
    }
}

proof fn lemma_step_token(s: Seq<char>, i: int, u: TokenView)
    requires
        renderable(u),
        0 <= i,
        i + token_text(u).len() <= s.len(),
        s.subrange(i, i + token_text(u).len()) == token_text(u),
        i + token_text(u).len() < s.len() ==> s[i + token_text(u).len()] == ' ',
    ensures
        token_text(u).len() > 0,
        step(s, i) == Ok::<(Option<TokenView>, int), LexError>((Some(u), i + token_text(u).len())),
{
    reveal_strlit("let");
    reveal_strlit("print");
    reveal_strlit("true");
    reveal_strlit("false");
    reveal_strlit("null");
    let t = token_text(u);
    let m = t.len() as int;
    assert forall|k: int| 0 <= k < m implies s[i + k] == #[trigger] t[k] by {
        assert(s.subrange(i, i + m)[k] == t[k]);
    }
    match u {
        TokenView::Int(n) => {
            lemma_digits_shape(n as nat);
            assert(s[i] == t[0]);
            assert forall|k: int| i <= k < i + m implies is_digit(#[trigger] s[k]) by {
                assert(s[i + (k - i)] == t[k - i]);
            }
            lemma_digits_run(s, i, i + m);
            lemma_digits_value(s, i, n as nat);
        },
        TokenView::Str(text) => {
            assert(s[i] == t[0]);
            assert(s[i + m - 1] == t[m - 1]);
            assert forall|k: int| i + 1 <= k < i + m - 1 implies #[trigger] s[k] != '"' by {
                assert(s[i + (k - i)] == t[k - i]);
                assert(t[k - i] == text[k - i - 1]);
            }
            lemma_quote_run(s, i + 1, i + m - 1);
            assert(s.subrange(i + 1, i + m - 1) =~= text) by {
                assert forall|k: int| 0 <= k < text.len() implies s.subrange(i + 1, i + m - 1)[k] == text[k] by {
                    assert(s[i + (k + 1)] == t[k + 1]);
                }
            }
        },
        TokenView::Ident(_) | TokenView::Keyword(_) | TokenView::Bool(_) | TokenView::Null => {
            assert(m > 0);
            assert(s[i] == t[0]);
            assert(is_alpha(t[0]));
            assert forall|k: int| i <= k < i + m implies is_word_char(#[trigger] s[k]) by {
                assert(s[i + (k - i)] == t[k - i]);
            }
            lemma_word_run(s, i, i + m);
            assert(s.subrange(i, i + m) == t);
        },
        TokenView::Op(op) => {
            assert(s[i] == t[0]);
            if m > 1 {
                assert(s[i + 1] == t[1]);
            }
        },
        _ => {
            assert(s[i] == t[0]);
        },
    }
}

proof fn lemma_lex_suffix(s: Seq<char>, i: int, us: Seq<TokenView>)
    requires
        0 <= i <= s.len(),
        s.subrange(i, s.len() as int) == join(us),
        forall|k: int| 0 <= k < us.len() ==> renderable(#[trigger] us[k]),
    ensures
        lex(s, i) == Ok::<Seq<TokenView>, LexError>(us),
    decreases us.len(),
{
    if us.len() == 0 {
        assert(s.subrange(i, s.len() as int).len() == 0);
        assert(us =~= Seq::<TokenView>::empty());
    } else {
        let u = us[0];
        let t = token_text(u);
        let m = t.len() as int;
        let rest = us.drop_first();
        let r = s.subrange(i, s.len() as int);
        if us.len() == 1 {
            assert(r == t);
            assert(s.subrange(i, i + m) =~= t) by {
                assert forall|k: int| 0 <= k < m implies s.subrange(i, i + m)[k] == t[k] by {
                    assert(r[k] == s[i + k]);
                }
            }
            lemma_step_token(s, i, u);
            assert(lex(s, i + m) == Ok::<Seq<TokenView>, LexError>(Seq::empty()));
            assert(seq![u] + Seq::<TokenView>::empty() =~= us);
            assert(lex(s, i) == Ok::<Seq<TokenView>, LexError>(us));
        } else {
            assert(r == t + seq![' '] + join(rest));
            assert(s.subrange(i, i + m) =~= t) by {
                assert forall|k: int| 0 <= k < m implies s.subrange(i, i + m)[k] == t[k] by {
                    assert(r[k] == s[i + k]);
                }
            }
            assert(r[m] == ' ');
            assert(s[i + m] == ' ');
            lemma_step_token(s, i, u);
            assert(s.subrange(i + m + 1, s.len() as int) =~= join(rest)) by {
                assert forall|k: int| 0 <= k < join(rest).len() implies s.subrange(
                    i + m + 1,
                    s.len() as int,
                )[k] == join(rest)[k] by {
                    assert(r[m + 1 + k] == s[i + m + 1 + k]);
                }
            }
            assert forall|k: int| 0 <= k < rest.len() implies renderable(#[trigger] rest[k]) by {
                assert(rest[k] == us[k + 1]);
            }
            lemma_lex_suffix(s, i + m + 1, rest);
            assert(step(s, i + m) == Ok::<(Option<TokenView>, int), LexError>((None, i + m + 1)));
            assert(lex(s, i + m) == lex(s, i + m + 1));
            assert(seq![u] + rest =~= us);
            assert(lex(s, i) == Ok::<Seq<TokenView>, LexError>(seq![u] + rest));
        }
    }
}

/// Scanning the texts of renderable tokens, joined by single spaces, gives
/// back the same tokens.
pub proof fn lemma_round_trip(ts: Seq<TokenView>)
    requires
        forall|k: int| 0 <= k < ts.len() ==> renderable(#[trigger] ts[k]),
    ensures
        lex(join(ts), 0) == Ok::<Seq<TokenView>, LexError>(ts),
{
    let s = join(ts);
    assert(s.subrange(0, s.len() as int) =~= s);
    lemma_lex_suffix(s, 0, ts);
}


proof fn lemma_digits_run_chars(s: Seq<char>, i: int)
    requires
        0 <= i,
    ensures
        i <= digits_end(s, i),
        forall|k: int| i <= k < digits_end(s, i) ==> is_digit(#[trigger] s[k]),
    decreases s.len() - i,
{
    if 0 <= i < s.len() && is_digit(s[i]) {
        lemma_digits_run_chars(s, i + 1);
    }
}

proof fn lemma_digits_value_nonneg(s: Seq<char>, i: int, j: int)
    requires
        0 <= i,
        j <= s.len(),
        forall|k: int| i <= k < j ==> is_digit(#[trigger] s[k]),
    ensures
        digits_value(s, i, j) >= 0,
    decreases j - i,
{
    if j > i {
        lemma_digits_value_nonneg(s, i, j - 1);
        assert(is_digit(s[j - 1]));
    }
}

proof fn lemma_word_run_chars(s: Seq<char>, i: int)
    requires
        0 <= i,
    ensures
        i <= word_end(s, i),
        forall|k: int| i <= k < word_end(s, i) ==> is_word_char(#[trigger] s[k]),
    decreases s.len() - i,
{
    if 0 <= i < s.len() && is_word_char(s[i]) {
        lemma_word_run_chars(s, i + 1);
    }
}

proof fn lemma_quote_run_chars(s: Seq<char>, i: int)
    requires
        0 <= i,
    ensures
        i <= quote_end(s, i),
        forall|k: int| i <= k < quote_end(s, i) ==> #[trigger] s[k] != '"',
    decreases s.len() - i,
{
    if 0 <= i < s.len() && s[i] != '"' {
        lemma_quote_run_chars(s, i + 1);
    }
}

proof fn lemma_step_renderable(s: Seq<char>, i: int)
    requires
        0 <= i < s.len(),
    ensures
        step(s, i) is Ok && step(s, i)->Ok_0.0 is Some ==> renderable(step(s, i)->Ok_0.0->Some_0),
{
    let c = s[i];
    if is_space(c) {
    } else if is_digit(c) {
        lemma_digits_run_chars(s, i);
        lemma_digits_end(s, i);
        lemma_digits_value_nonneg(s, i, digits_end(s, i));
    } else if c == '"' {
        lemma_quote_run_chars(s, i + 1);
        let j = quote_end(s, i + 1);
        if j < s.len() {
            let w = s.subrange(i + 1, j);
            assert forall|k: int| 0 <= k < w.len() implies w[k] != '"' by {
                assert(w[k] == s[i + 1 + k]);
            }
        }
    } else if is_alpha(c) {
        lemma_word_run_chars(s, i);
        lemma_word_end(s, i);
        let j = word_end(s, i);
        let w = s.subrange(i, j);
        assert(w[0] == s[i]);
        assert forall|k: int| 0 <= k < w.len() implies is_word_char(w[k]) by {
            assert(w[k] == s[i + k]);
        }
    }
}

proof fn lemma_lex_renderable(s: Seq<char>, i: int)
    ensures
        lex(s, i) is Ok ==> forall|k: int|
            0 <= k < lex(s, i)->Ok_0.len() ==> renderable(#[trigger] lex(s, i)->Ok_0[k]),
    decreases s.len() - i,
{
    if 0 <= i < s.len() {
        lemma_step_renderable(s, i);
        if let Ok((t, j)) = step(s, i) {
            if i < j <= s.len() {
                lemma_lex_renderable(s, j);
                if let (Ok(rest), Some(tv)) = (lex(s, j), t) {
                    let all = seq![tv] + rest;
                    assert forall|k: int| 0 <= k < all.len() implies renderable(#[trigger] all[k]) by {
                        if k > 0 {
                            assert(all[k] == rest[k - 1]);
                        }
                    }
                }
            }
        }
    }
}

/// Whatever `tokenize` returns for a source scans back to the same tokens
/// from their texts joined by single spaces: the same tokens, so the same
/// kinds at every position.
pub proof fn lemma_tokens_round_trip(source: Seq<char>)
    requires
        lex(source, 0) is Ok,
    ensures
        lex(join(lex(source, 0)->Ok_0), 0) == lex(source, 0),
{
    lemma_lex_renderable(source, 0);
    lemma_round_trip(lex(source, 0)->Ok_0);
}

} // verus!
