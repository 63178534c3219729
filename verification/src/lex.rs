//! Tokenizer for the Godot text-resource variant syntax.
//!
//! It follows `VariantParser::get_token` in Godot's
//! `core/variant/variant_parser.cpp`: the same single-character tokens, the
//! same string escapes, the same number shapes, and `;` line comments. Source
//! text is handled as a sequence of characters; positions count characters.
use std::ops::Range;

use vstd::prelude::*;

use crate::error::{error_at, ParseError, ParseErrorKind};
use crate::text::{chars_of, string_of};

verus! {

/// A token kind.
#[derive(Debug, PartialEq, Eq)]
pub enum Tok {
    LBrace,
    RBrace,
    LBracket,
    RBracket,
    LParen,
    RParen,
    Colon,
    Comma,
    Period,
    Equal,
    /// `#rrggbb` / `#rrggbbaa` colour literal, stored without the `#`.
    Color(String),
    /// A quoted string. `name` is true for the `&"..."` / `@"..."` StringName form.
    Str { value: String, name: bool },
    /// A number, stored as its exact source text.
    Num(String),
    Ident(String),
    Eof,
}

/// The mathematical content of a token kind.
pub enum TokView {
    LBrace,
    RBrace,
    LBracket,
    RBracket,
    LParen,
    RParen,
    Colon,
    Comma,
    Period,
    Equal,
    Color(Seq<char>),
    Str { value: Seq<char>, name: bool },
    Num(Seq<char>),
    Ident(Seq<char>),
    Eof,
}

impl View for Tok {
    type V = TokView;

    open spec fn view(&self) -> TokView {
        match self {
            Tok::LBrace => TokView::LBrace,
            Tok::RBrace => TokView::RBrace,
            Tok::LBracket => TokView::LBracket,
            Tok::RBracket => TokView::RBracket,
            Tok::LParen => TokView::LParen,
            Tok::RParen => TokView::RParen,
            Tok::Colon => TokView::Colon,
            Tok::Comma => TokView::Comma,
            Tok::Period => TokView::Period,
            Tok::Equal => TokView::Equal,
            Tok::Color(s) => TokView::Color(s@),
            Tok::Str { value, name } => TokView::Str { value: value@, name: *name },
            Tok::Num(s) => TokView::Num(s@),
            Tok::Ident(s) => TokView::Ident(s@),
            Tok::Eof => TokView::Eof,
        }
    }
}

/// A token and the characters of the source it covers.
#[derive(Debug, PartialEq, Eq)]
pub struct Token {
    pub tok: Tok,
    pub span: Range<usize>,
}

// ---------------------------------------------------------------------------
// Character classes.

pub open spec fn is_trivia(c: char) -> bool {
    (c as u32) <= 32
}

pub open spec fn is_digit(c: char) -> bool {
    '0' <= c && c <= '9'
}

pub open spec fn is_alpha(c: char) -> bool {
    ('a' <= c && c <= 'z') || ('A' <= c && c <= 'Z')
}

pub open spec fn is_hex(c: char) -> bool {
    is_digit(c) || ('a' <= c && c <= 'f') || ('A' <= c && c <= 'F')
}

pub open spec fn is_ident_char(c: char) -> bool {
    is_alpha(c) || is_digit(c) || c == '_'
}

pub open spec fn hex_value(c: char) -> int {
    if is_digit(c) {
        c as u32 - '0' as u32
    } else if 'a' <= c && c <= 'f' {
        c as u32 - 'a' as u32 + 10
    } else {
        c as u32 - 'A' as u32 + 10
    }
}

fn exec_is_digit(c: char) -> (r: bool)
    ensures
        r == is_digit(c),
{
    '0' <= c && c <= '9'
}

fn exec_is_alpha(c: char) -> (r: bool)
    ensures
        r == is_alpha(c),
{
    ('a' <= c && c <= 'z') || ('A' <= c && c <= 'Z')
}

fn exec_is_hex(c: char) -> (r: bool)
    ensures
        r == is_hex(c),
{
    exec_is_digit(c) || ('a' <= c && c <= 'f') || ('A' <= c && c <= 'F')
}

fn exec_is_ident_char(c: char) -> (r: bool)
    ensures
        r == is_ident_char(c),
{
    exec_is_alpha(c) || exec_is_digit(c) || c == '_'
}

// ---------------------------------------------------------------------------
// The lexical grammar, as spec functions over the source characters.

/// Position just past a `;` comment whose body starts at `p`: after the line
/// feed that ends it, or the end of input.
pub open spec fn comment_end(s: Seq<char>, p: int) -> int
    decreases s.len() - p,
{
    if p >= s.len() {
        s.len() as int
    } else if s[p] == '\n' {
        p + 1
    } else {
        comment_end(s, p + 1)
    }
}

pub proof fn lemma_comment_end(s: Seq<char>, p: int)
    requires
        0 <= p <= s.len(),
    ensures
        p <= comment_end(s, p),
        comment_end(s, p) <= s.len(),
        p < s.len() ==> p < comment_end(s, p),
    decreases s.len() - p,
{
    if p < s.len() && s[p] != '\n' {
        lemma_comment_end(s, p + 1);
    }
}

/// Where the next token starts: whitespace, control characters and `;`
/// comments from `p` on are skipped.
pub open spec fn trivia_end(s: Seq<char>, p: int) -> int
    decreases s.len() - p,
{
    if p < 0 || p >= s.len() {
        p
    } else if is_trivia(s[p]) {
        trivia_end(s, p + 1)
    } else if s[p] == ';' {
        proof {
            lemma_comment_end(s, p + 1);
        }
        trivia_end(s, comment_end(s, p + 1))
    } else {
        p
    }
}

pub proof fn lemma_trivia_end(s: Seq<char>, p: int)
    requires
        0 <= p,
    ensures
        p <= trivia_end(s, p),
        p <= s.len() ==> trivia_end(s, p) <= s.len(),
        trivia_end(s, p) < s.len() ==> !is_trivia(s[trivia_end(s, p)]) && s[trivia_end(s, p)]
            != ';',
        trivia_end(s, trivia_end(s, p)) == trivia_end(s, p),
    decreases s.len() - p,
{
    if p < s.len() {
        if is_trivia(s[p]) {
            lemma_trivia_end(s, p + 1);
        } else if s[p] == ';' {
            lemma_comment_end(s, p + 1);
            lemma_trivia_end(s, comment_end(s, p + 1));
        }
    }
}

/// First position at or after `p` that does not hold an identifier character.
pub open spec fn ident_end(s: Seq<char>, p: int) -> int
    decreases s.len() - p,
{
    if p < 0 || p >= s.len() || !is_ident_char(s[p]) {
        p
    } else {
        ident_end(s, p + 1)
    }
}

/// First position at or after `p` that does not hold a decimal digit.
pub open spec fn digits_end(s: Seq<char>, p: int) -> int
    decreases s.len() - p,
{
    if p < 0 || p >= s.len() || !is_digit(s[p]) {
        p
    } else {
        digits_end(s, p + 1)
    }
}

/// First position at or after `p` that does not hold a hex digit.
pub open spec fn hex_end(s: Seq<char>, p: int) -> int
    decreases s.len() - p,
{
    if p < 0 || p >= s.len() || !is_hex(s[p]) {
        p
    } else {
        hex_end(s, p + 1)
    }
}

pub proof fn lemma_run_ends(s: Seq<char>, p: int)
    requires
        0 <= p <= s.len(),
    ensures
        p <= ident_end(s, p) <= s.len(),
        p <= digits_end(s, p) <= s.len(),
        p <= hex_end(s, p) <= s.len(),
        forall|i: int| p <= i < ident_end(s, p) ==> is_ident_char(#[trigger] s[i]),
        forall|i: int| p <= i < digits_end(s, p) ==> is_digit(#[trigger] s[i]),
        forall|i: int| p <= i < hex_end(s, p) ==> is_hex(#[trigger] s[i]),
    decreases s.len() - p,
{
    if p < s.len() {
        lemma_run_ends(s, p + 1);
    }
}

/// Whether `c` may follow `e`/`E` in an exponent.
pub open spec fn is_sign(c: char) -> bool {
    c == '-' || c == '+'
}

/// End of a number starting at `start`: an optional `-`, digits, an optional
/// `.` and digits, and an optional exponent that is only taken when at least
/// one digit follows `e`, `e+` or `e-`.
pub open spec fn number_end(s: Seq<char>, start: int) -> int {
    let p0 = if start < s.len() && s[start] == '-' { start + 1 } else { start };
    let p1 = digits_end(s, p0);
    let p2 = if p1 < s.len() && s[p1] == '.' { digits_end(s, p1 + 1) } else { p1 };
    if p2 < s.len() && (s[p2] == 'e' || s[p2] == 'E') {
        let q = if p2 + 1 < s.len() && is_sign(s[p2 + 1]) { p2 + 2 } else { p2 + 1 };
        if q < s.len() && is_digit(s[q]) {
            digits_end(s, q)
        } else {
            p2
        }
    } else {
        p2
    }
}

/// The value of `n` hex digits starting at `q`, accumulated onto `acc`.
pub open spec fn hex_digits(s: Seq<char>, q: int, n: nat, acc: int, start: int) -> Result<
    int,
    (ParseErrorKind, int),
>
    decreases n,
{
    if n == 0 {
        Ok(acc)
    } else if q >= s.len() {
        Err((ParseErrorKind::UnterminatedString, start))
    } else if !is_hex(s[q]) {
        Err((ParseErrorKind::MalformedHexEscape, q))
    } else {
        hex_digits(s, q + 1, (n - 1) as nat, acc * 16 + hex_value(s[q]), start)
    }
}

pub proof fn lemma_hex_digits_end(s: Seq<char>, q: int, n: nat, acc: int, start: int)
    requires
        0 <= q <= s.len(),
    ensures
        hex_digits(s, q, n, acc, start) is Ok ==> q + n <= s.len(),
    decreases n,
{
    if n > 0 && q < s.len() && is_hex(s[q]) {
        lemma_hex_digits_end(s, q + 1, (n - 1) as nat, acc * 16 + hex_value(s[q]), start);
    }
}

/// The code an escape whose backslash is at `p` stands for, and the position
/// just past the escape.
pub open spec fn escape_code(s: Seq<char>, p: int, start: int) -> Result<
    (int, int),
    (ParseErrorKind, int),
> {
    let esc = s[p + 1];
    let n: nat = if esc == 'U' { 6 } else { 4 };
    if esc == 'u' || esc == 'U' {
        match hex_digits(s, p + 2, n, 0, start) {
            Ok(v) => Ok((v, p + 2 + n)),
            Err(e) => Err(e),
        }
    } else {
        Ok((simple_escape(esc), p + 2))
    }
}

pub proof fn lemma_escape_code(s: Seq<char>, p: int, start: int)
    requires
        0 <= p,
        p + 1 < s.len(),
    ensures
        escape_code(s, p, start) matches Ok((v, next)) ==> p < next <= s.len() && 0 <= v,
{
    let esc = s[p + 1];
    let n: nat = if esc == 'U' { 6 } else { 4 };
    lemma_hex_digits_end(s, p + 2, n, 0, start);
    lemma_hex_digits_nonneg(s, p + 2, n, 0, start);
    assert(simple_escape(esc) >= 0);
}

pub proof fn lemma_hex_digits_nonneg(s: Seq<char>, q: int, n: nat, acc: int, start: int)
    requires
        0 <= acc,
    ensures
        hex_digits(s, q, n, acc, start) matches Ok(v) ==> 0 <= v,
    decreases n,
{
    if n > 0 && q < s.len() && is_hex(s[q]) {
        lemma_hex_digits_nonneg(s, q + 1, (n - 1) as nat, acc * 16 + hex_value(s[q]), start);
    }
}

/// The character whose scalar value is `v`.
pub open spec fn char_of(v: int) -> char {
    choose|c: char| #[trigger] scalar_value(c) == v
}

/// The scalar value of a character.
pub open spec fn scalar_value(c: char) -> int {
    c as u32 as int
}

pub proof fn lemma_char_of(c: char, v: int)
    requires
        c as u32 == v,
    ensures
        char_of(v) == c,
{
    assert(scalar_value(c) == v);
    let d = char_of(v);
    assert(scalar_value(d) == v);
}

pub open spec fn is_high_surrogate(v: int) -> bool {
    0xD800 <= v && v <= 0xDBFF
}

pub open spec fn is_low_surrogate(v: int) -> bool {
    0xDC00 <= v && v <= 0xDFFF
}

pub open spec fn is_scalar(v: int) -> bool {
    (0 <= v && v < 0xD800) || (0xE000 <= v && v <= 0x10FFFF)
}

/// The code a simple escape `\c` stands for.
pub open spec fn simple_escape(c: char) -> int {
    if c == 'b' {
        8
    } else if c == 't' {
        9
    } else if c == 'n' {
        10
    } else if c == 'f' {
        12
    } else if c == 'r' {
        13
    } else {
        c as u32 as int
    }
}

/// Decodes a string body from `p` (just past the opening quote), given the
/// pending UTF-16 lead surrogate and what was decoded so far. On success, the
/// decoded text and the position just past the closing quote; on failure, the
/// error and where it is reported. `start` is where the string token began.
pub open spec fn string_body(
    s: Seq<char>,
    p: int,
    start: int,
    lead: Option<int>,
    acc: Seq<char>,
) -> Result<(Seq<char>, int), (ParseErrorKind, int)>
    decreases s.len() - p,
{
    if p < 0 || p >= s.len() {
        Err((ParseErrorKind::UnterminatedString, start))
    } else if s[p] == '"' {
        if lead is Some {
            Err((ParseErrorKind::UnpairedSurrogate, start))
        } else {
            Ok((acc, p + 1))
        }
    } else if s[p] != '\\' {
        if lead is Some {
            Err((ParseErrorKind::UnpairedSurrogate, start))
        } else {
            string_body(s, p + 1, start, None, acc.push(s[p]))
        }
    } else if p + 1 >= s.len() {
        Err((ParseErrorKind::UnterminatedString, start))
    } else {
        let decoded = escape_code(s, p, start);
        proof {
            lemma_escape_code(s, p, start);
        }
        match decoded {
            Err(e) => Err(e),
            Ok((res, next)) => {
                if is_high_surrogate(res) {
                    if lead is Some {
                        Err((ParseErrorKind::UnpairedSurrogate, start))
                    } else {
                        string_body(s, next, start, Some(res), acc)
                    }
                } else if is_low_surrogate(res) {
                    match lead {
                        None => Err((ParseErrorKind::UnpairedSurrogate, start)),
                        Some(hi) => {
                            let code = (hi - 0xD800) * 0x400 + (res - 0xDC00) + 0x10000;
                            string_body(s, next, start, None, acc.push(char_of(code)))
                        },
                    }
                } else if lead is Some {
                    Err((ParseErrorKind::UnpairedSurrogate, start))
                } else if !is_scalar(res) {
                    Err((ParseErrorKind::UnpairedSurrogate, start))
                } else {
                    string_body(s, next, start, None, acc.push(char_of(res)))
                }
            },
        }
    }
}

/// The token that starts at or after `p`: its kind, and its start and end
/// positions; or the error and where it is reported.
#[verifier::opaque]
pub open spec fn lex_at(s: Seq<char>, p: int) -> Result<(TokView, int, int), (ParseErrorKind, int)> {
    let start = trivia_end(s, p);
    if start >= s.len() {
        Ok((TokView::Eof, start, start))
    } else {
        let c = s[start];
        if c == '{' {
            Ok((TokView::LBrace, start, start + 1))
        } else if c == '}' {
            Ok((TokView::RBrace, start, start + 1))
        } else if c == '[' {
            Ok((TokView::LBracket, start, start + 1))
        } else if c == ']' {
            Ok((TokView::RBracket, start, start + 1))
        } else if c == '(' {
            Ok((TokView::LParen, start, start + 1))
        } else if c == ')' {
            Ok((TokView::RParen, start, start + 1))
        } else if c == ':' {
            Ok((TokView::Colon, start, start + 1))
        } else if c == ',' {
            Ok((TokView::Comma, start, start + 1))
        } else if c == '.' {
            Ok((TokView::Period, start, start + 1))
        } else if c == '=' {
            Ok((TokView::Equal, start, start + 1))
        } else if c == '#' {
            let e = hex_end(s, start + 1);
            Ok((TokView::Color(s.subrange(start + 1, e)), start, e))
        } else if c == '&' || c == '@' {
            if start + 1 < s.len() && s[start + 1] == '"' {
                match string_body(s, start + 2, start, None, seq![]) {
                    Ok((v, e)) => Ok((TokView::Str { value: v, name: true }, start, e)),
                    Err(x) => Err(x),
                }
            } else {
                Err((ParseErrorKind::ExpectedQuoteAfterAmpersand, start))
            }
        } else if c == '"' {
            match string_body(s, start + 1, start, None, seq![]) {
                Ok((v, e)) => Ok((TokView::Str { value: v, name: false }, start, e)),
                Err(x) => Err(x),
            }
        } else if c == '-' {
            if start + 1 < s.len() && is_digit(s[start + 1]) {
                let e = number_end(s, start);
                Ok((TokView::Num(s.subrange(start, e)), start, e))
            } else if start + 1 < s.len() && (is_alpha(s[start + 1]) || s[start + 1] == '_') {
                let e = ident_end(s, start + 1);
                Ok((TokView::Ident(s.subrange(start, e)), start, e))
            } else {
                Err((ParseErrorKind::UnexpectedCharacter('-'), start))
            }
        } else if is_digit(c) {
            let e = number_end(s, start);
            Ok((TokView::Num(s.subrange(start, e)), start, e))
        } else if is_alpha(c) || c == '_' {
            let e = ident_end(s, start + 1);
            Ok((TokView::Ident(s.subrange(start, e)), start, e))
        } else {
            Err((ParseErrorKind::UnexpectedCharacter(c), start))
        }
    }
}

/// `lex_at` as the lexer reports it: a token, or a located error.
pub open spec fn token_matches(s: Seq<char>, p: int, r: Result<Token, ParseError>) -> bool {
    match lex_at(s, p) {
        Ok((t, a, b)) => r matches Ok(tok) && tok.tok@ == t && tok.span.start == a && tok.span.end
            == b,
        Err((k, at)) => r == Err::<Token, ParseError>(error_at(s, at, k)),
    }
}

/// Every successfully lexed token lies inside the input and, except at the end
/// of input, covers at least one character.
pub proof fn lemma_lex_at_bounds(s: Seq<char>, p: int)
    requires
        0 <= p <= s.len(),
    ensures
        lex_at(s, p) matches Ok((t, a, b)) ==> {
            &&& p <= a <= b <= s.len()
            &&& a == trivia_end(s, p)
            &&& (t is Eof <==> a == b)
            &&& (t is Eof <==> a == s.len())
        },
{
    reveal(lex_at);
    lemma_trivia_end(s, p);
    let start = trivia_end(s, p);
    if start < s.len() {
        lemma_run_ends(s, start + 1);
        lemma_run_ends(s, start);
        let c = s[start];
        if c == '&' || c == '@' {
            if start + 1 < s.len() && s[start + 1] == '"' {
                lemma_string_body_end(s, start + 2, start, None, seq![]);
            }
        } else if c == '"' {
            lemma_string_body_end(s, start + 1, start, None, seq![]);
        } else if (c == '-' && start + 1 < s.len() && is_digit(s[start + 1])) || is_digit(c) {
            lemma_number_end(s, start);
        }
    }
}

/// What the source holds where a token was found: an identifier is its own
/// text, and each punctuation token is its one character.
pub proof fn lemma_lex_at_text(s: Seq<char>, p: int)
    requires
        0 <= p <= s.len(),
    ensures
        lex_at(s, p) matches Ok((t, a, e)) ==> {
            &&& (t matches TokView::Ident(x) ==> x == s.subrange(a, e))
            &&& (t is LBracket ==> e == a + 1 && s[a] == '[')
            &&& (t is RBracket ==> e == a + 1 && s[a] == ']')
            &&& (t is Equal ==> e == a + 1 && s[a] == '=')
            &&& (t is Period ==> e == a + 1 && s[a] == '.')
            &&& (t is Colon ==> e == a + 1 && s[a] == ':')
            &&& (t matches TokView::Str { .. } ==> s[a] == '"' || s[a] == '&' || s[a] == '@')
        },
        trivia_end(s, p) < s.len() && s[trivia_end(s, p)] == '[' ==> lex_at(s, p) matches Ok(
            (TokView::LBracket, _, _),
        ),
        trivia_end(s, p) < s.len() && s[trivia_end(s, p)] == '"' ==> match lex_at(s, p) {
            Ok((t, _, _)) => t matches TokView::Str { name, .. } && !name,
            Err(_) => true,
        },
{
    reveal(lex_at);
}

/// A position holding neither trivia nor a comment is where the next token starts.
pub proof fn lemma_trivia_end_at(s: Seq<char>, p: int)
    requires
        0 <= p < s.len(),
        !is_trivia(s[p]),
        s[p] != ';',
    ensures
        trivia_end(s, p) == p,
{
}

/// Trivia in front of a token does not change which token is found.
pub proof fn lemma_lex_at_trivia(s: Seq<char>, p: int)
    requires
        0 <= p <= s.len(),
    ensures
        lex_at(s, trivia_end(s, p)) == lex_at(s, p),
{
    reveal(lex_at);
    lemma_trivia_end(s, p);
}

pub proof fn lemma_number_end(s: Seq<char>, start: int)
    requires
        0 <= start < s.len(),
        s[start] == '-' ==> start + 1 < s.len() && is_digit(s[start + 1]),
        s[start] != '-' ==> is_digit(s[start]),
    ensures
        start < number_end(s, start) <= s.len(),
{
    let p0 = if start < s.len() && s[start] == '-' { start + 1 } else { start };
    lemma_run_ends(s, p0);
    lemma_run_ends(s, p0 + 1);
    let p1 = digits_end(s, p0);
    if p1 < s.len() && s[p1] == '.' {
        lemma_run_ends(s, p1 + 1);
    }
    let p2 = if p1 < s.len() && s[p1] == '.' { digits_end(s, p1 + 1) } else { p1 };
    if p2 < s.len() && (s[p2] == 'e' || s[p2] == 'E') {
        let q = if p2 + 1 < s.len() && is_sign(s[p2 + 1]) { p2 + 2 } else { p2 + 1 };
        if q < s.len() && is_digit(s[q]) {
            lemma_run_ends(s, q);
        }
    }
}

pub proof fn lemma_string_body_end(
    s: Seq<char>,
    p: int,
    start: int,
    lead: Option<int>,
    acc: Seq<char>,
)
    requires
        0 <= p,
    ensures
        string_body(s, p, start, lead, acc) matches Ok((_, e)) ==> p < e <= s.len(),
    decreases s.len() - p,
{
    if p >= 0 && p < s.len() && s[p] != '"' {
        if s[p] != '\\' {
            lemma_string_body_end(s, p + 1, start, None, acc.push(s[p]));
        } else if p + 1 < s.len() {
            lemma_escape_code(s, p, start);
            match escape_code(s, p, start) {
                Ok((res, next)) => {
                    if is_low_surrogate(res) {
                        if let Some(hi) = lead {
                            let code = (hi - 0xD800) * 0x400 + (res - 0xDC00) + 0x10000;
                            lemma_string_body_end(s, next, start, None, acc.push(char_of(code)));
                        }
                    }
                    lemma_string_body_end(s, next, start, Some(res), acc);
                    lemma_string_body_end(s, next, start, None, acc.push(char_of(res)));
                },
                Err(_) => {},
            }
        }
    }
}

// ---------------------------------------------------------------------------
// The lexer.

/// A tokenizer over one source text.
pub struct Lexer {
    src: Vec<char>,
    pos: usize,
}

impl Lexer {
    /// The source characters.
    pub closed spec fn text(&self) -> Seq<char> {
        self.src@
    }

    /// The position the next token is looked for from.
    pub closed spec fn at(&self) -> int {
        self.pos as int
    }

    pub fn new(src: &str) -> (l: Lexer)
        ensures
            l.text() == src@,
            l.at() == 0,
    {
        Lexer { src: chars_of(src), pos: 0 }
    }

    /// A lexer over the given characters.
    pub fn from_chars(src: Vec<char>) -> (l: Lexer)
        ensures
            l.text() == src@,
            l.at() == 0,
    {
        Lexer { src, pos: 0 }
    }

    pub fn src(&self) -> (s: &[char])
        ensures
            s@ == self.text(),
    {
        self.src.as_slice()
    }

    pub fn pos(&self) -> (p: usize)
        ensures
            p == self.at(),
    {
        self.pos
    }

    /// Sets the position the lexer resumes from.
    pub fn set_pos(&mut self, pos: usize)
        ensures
            final(self).text() == old(self).text(),
            final(self).at() == pos,
    {
        self.pos = pos;
    }

    fn err(&self, at: usize, kind: ParseErrorKind) -> (e: ParseError)
        ensures
            e == error_at(self.text(), at as int, kind),
    {
        ParseError::new(self.src.as_slice(), at, kind)
    }

    /// Skips whitespace, control characters and `;` line comments.
    pub fn skip_trivia(&mut self)
        ensures
            final(self).text() == old(self).text(),
            final(self).at() == trivia_end(old(self).text(), old(self).at()),
    {
        let ghost s = self.src@;
        loop
            invariant
                self.src@ == s,
                s == old(self).text(),
                trivia_end(s, self.pos as int) == trivia_end(s, old(self).at()),
            decreases s.len() - self.pos,
        {
            if self.pos >= self.src.len() {
                return;
            }
            let c = self.src[self.pos];
            if (c as u32) <= 32 {
                assert(is_trivia(s[self.pos as int]));
                assert(trivia_end(s, self.pos as int) == trivia_end(s, self.pos + 1));
                self.pos += 1;
            } else if c == ';' {
                let ghost q = self.pos + 1;
                proof {
                    lemma_comment_end(s, q as int);
                }
                self.pos += 1;
                while self.pos < self.src.len()
                    invariant_except_break
                        comment_end(s, self.pos as int) == comment_end(s, q as int),
                    invariant
                        self.src@ == s,
                        s == old(self).text(),
                        q <= self.pos <= s.len(),
                    ensures
                        self.pos == comment_end(s, q as int),
                    decreases s.len() - self.pos,
                {
                    let b = self.src[self.pos];
                    self.pos += 1;
                    if b == '\n' {
                        break;
                    }
                }
            } else {
                return;
            }
        }
    }

    /// Consumes the rest of an identifier and returns the text from `start`.
    fn lex_ident_body(&mut self, start: usize) -> (r: String)
        requires
            start <= old(self).at() <= old(self).text().len(),
        ensures
            final(self).text() == old(self).text(),
            final(self).at() == ident_end(old(self).text(), old(self).at()),
            r@ == old(self).text().subrange(start as int, final(self).at()),
    {
        let ghost s = self.src@;
        proof {
            lemma_run_ends(s, self.pos as int);
        }
        while self.pos < self.src.len() && exec_is_ident_char(self.src[self.pos])
            invariant
                self.src@ == s,
                old(self).at() <= self.pos <= s.len(),
                ident_end(s, self.pos as int) == ident_end(s, old(self).at()),
            decreases s.len() - self.pos,
        {
            self.pos += 1;
        }
        string_of(self.src.as_slice(), start, self.pos)
    }

    fn skip_digits(&mut self)
        requires
            old(self).at() <= old(self).text().len(),
        ensures
            final(self).text() == old(self).text(),
            final(self).at() == digits_end(old(self).text(), old(self).at()),
    {
        let ghost s = self.src@;
        while self.pos < self.src.len() && exec_is_digit(self.src[self.pos])
            invariant
                self.src@ == s,
                old(self).at() <= self.pos <= s.len(),
                digits_end(s, self.pos as int) == digits_end(s, old(self).at()),
            decreases s.len() - self.pos,
        {
            self.pos += 1;
        }
    }

    /// Reads a number starting at the current position, which holds a digit
    /// or a `-` followed by a digit.
    fn lex_number(&mut self) -> (r: String)
        requires
            old(self).at() < old(self).text().len(),
        ensures
            final(self).text() == old(self).text(),
            final(self).at() == number_end(old(self).text(), old(self).at()),
            r@ == old(self).text().subrange(old(self).at(), final(self).at()),
    {
        let ghost s = self.src@;
        let start = self.pos;
        if self.pos < self.src.len() && self.src[self.pos] == '-' {
            self.pos += 1;
        }
        proof {
            lemma_run_ends(s, self.pos as int);
        }
        self.skip_digits();
        if self.pos < self.src.len() && self.src[self.pos] == '.' {
            self.pos += 1;
            proof {
                lemma_run_ends(s, self.pos as int);
            }
            self.skip_digits();
        }
        if self.pos < self.src.len() && (self.src[self.pos] == 'e' || self.src[self.pos] == 'E') {
            let save = self.pos;
            self.pos += 1;
            if self.pos < self.src.len() && (self.src[self.pos] == '-' || self.src[self.pos]
                == '+') {
                self.pos += 1;
            }
            if self.pos < self.src.len() && exec_is_digit(self.src[self.pos]) {
                proof {
                    lemma_run_ends(s, self.pos as int);
                }
                self.skip_digits();
            } else {
                self.pos = save;
            }
        }
        proof {
            lemma_run_ends(s, start as int);
        }
        string_of(self.src.as_slice(), start, self.pos)
    }

    /// Reads `n` hex digits of a `\u` / `\U` escape.
    fn lex_hex(&mut self, n: usize, start: usize) -> (r: Result<u32, ParseError>)
        requires
            n == 4 || n == 6,
            old(self).at() <= old(self).text().len(),
        ensures
            final(self).text() == old(self).text(),
            match hex_digits(old(self).text(), old(self).at(), n as nat, 0, start as int) {
                Ok(v) => r == Ok::<u32, ParseError>(v as u32) && v < 0x1000000 && final(self).at()
                    == old(self).at() + n,
                Err((k, at)) => r == Err::<u32, ParseError>(error_at(old(self).text(), at, k)),
            },
    {
        let ghost s = self.src@;
        let mut v: u32 = 0;
        let mut k: usize = 0;
        while k < n
            invariant
                self.src@ == s,
                s == old(self).text(),
                k <= n,
                n == 4 || n == 6,
                self.pos == old(self).at() + k,
                self.pos <= s.len(),
                v < pow16(k as nat),
                hex_digits(s, old(self).at(), n as nat, 0, start as int) == hex_digits(
                    s,
                    self.pos as int,
                    (n - k) as nat,
                    v as int,
                    start as int,
                ),
            decreases n - k,
        {
            if self.pos >= self.src.len() {
                return Err(self.err(start, ParseErrorKind::UnterminatedString));
            }
            let h = self.src[self.pos];
            if !exec_is_hex(h) {
                return Err(self.err(self.pos, ParseErrorKind::MalformedHexEscape));
            }
            let d: u32 = if exec_is_digit(h) {
                (h as u32) - ('0' as u32)
            } else if 'a' <= h && h <= 'f' {
                (h as u32) - ('a' as u32) + 10
            } else {
                (h as u32) - ('A' as u32) + 10
            };
            assert(d as int == hex_value(h));
            proof {
                lemma_pow16_bound(k as nat);
            }
            v = v * 16 + d;
            self.pos += 1;
            k += 1;
        }
        proof {
            lemma_pow16_bound(6);
            lemma_pow16_mono(k as nat, 6);
        }
        Ok(v)
    }

    /// Reads one escape whose backslash is at the current position.
    fn lex_escape(&mut self, start: usize) -> (r: Result<u32, ParseError>)
        requires
            old(self).at() + 1 < old(self).text().len(),
        ensures
            final(self).text() == old(self).text(),
            match escape_code(old(self).text(), old(self).at(), start as int) {
                Ok((v, next)) => r == Ok::<u32, ParseError>(v as u32) && v <= u32::MAX
                    && final(self).at() == next,
                Err((k, at)) => r == Err::<u32, ParseError>(error_at(old(self).text(), at, k)),
            },
    {
        let len = self.src.len();
        assert(self.pos + 1 < len);
        let esc = self.src[self.pos + 1];
        if esc == 'u' || esc == 'U' {
            let n: usize = if esc == 'U' { 6 } else { 4 };
            self.pos = self.pos + 2;
            self.lex_hex(n, start)
        } else {
            self.pos = self.pos + 2;
            let code: u32 = if esc == 'b' {
                8
            } else if esc == 't' {
                9
            } else if esc == 'n' {
                10
            } else if esc == 'f' {
                12
            } else if esc == 'r' {
                13
            } else {
                esc as u32
            };
            assert(code as int == simple_escape(esc));
            Ok(code)
        }
    }

    /// Reads a string body, with the position just past the opening quote.
    fn lex_string_body(&mut self, start: usize) -> (r: Result<String, ParseError>)
        requires
            old(self).at() <= old(self).text().len(),
        ensures
            final(self).text() == old(self).text(),
            match string_body(old(self).text(), old(self).at(), start as int, None, seq![]) {
                Ok((v, e)) => r matches Ok(out) && out@ == v && final(self).at() == e,
                Err((k, at)) => r == Err::<String, ParseError>(error_at(old(self).text(), at, k)),
            },
    {
        let ghost s = self.src@;
        let ghost goal = string_body(s, self.pos as int, start as int, None, seq![]);
        let mut out = String::new();
        let mut lead: Option<u32> = None;
        loop
            invariant
                self.src@ == s,
                s == old(self).text(),
                goal == string_body(old(self).text(), old(self).at(), start as int, None, seq![]),
                self.pos <= s.len(),
                goal == string_body(
                    s,
                    self.pos as int,
                    start as int,
                    match lead {
                        Some(v) => Some(v as int),
                        None => None::<int>,
                    },
                    out@,
                ),
                lead matches Some(v) ==> is_high_surrogate(v as int),
            decreases s.len() - self.pos,
        {
            if self.pos >= self.src.len() {
                return Err(self.err(start, ParseErrorKind::UnterminatedString));
            }
            let c = self.src[self.pos];
            if c == '"' {
                if lead.is_some() {
                    return Err(self.err(start, ParseErrorKind::UnpairedSurrogate));
                }
                self.pos += 1;
                return Ok(out);
            }
            if c != '\\' {
                if lead.is_some() {
                    return Err(self.err(start, ParseErrorKind::UnpairedSurrogate));
                }
                out.push(c);
                self.pos += 1;
                continue;
            }
            if self.pos + 1 >= self.src.len() {
                return Err(self.err(start, ParseErrorKind::UnterminatedString));
            }
            let ghost p = self.pos as int;
            proof {
                lemma_escape_code(s, p, start as int);
            }
            let res = match self.lex_escape(start) {
                Ok(v) => v,
                Err(e) => return Err(e),
            };
            assert(escape_code(s, p, start as int) == Ok::<(int, int), (ParseErrorKind, int)>((res as int, self.pos as int)));
            if 0xD800 <= res && res <= 0xDBFF {
                if lead.is_some() {
                    return Err(self.err(start, ParseErrorKind::UnpairedSurrogate));
                }
                lead = Some(res);
                continue;
            } else if 0xDC00 <= res && res <= 0xDFFF {
                let hi = match lead {
                    Some(h) => h,
                    None => return Err(self.err(start, ParseErrorKind::UnpairedSurrogate)),
                };
                lead = None;
                let code: u32 = (hi - 0xD800) * 0x400 + (res - 0xDC00) + 0x10000;
                match char::from_u32(code) {
                    Some(ch) => {
                        proof {
                            lemma_char_of(ch, code as int);
                        }
                        out.push(ch);
                    },
                    None => return Err(self.err(start, ParseErrorKind::UnpairedSurrogate)),
                }
            } else {
                if lead.is_some() {
                    return Err(self.err(start, ParseErrorKind::UnpairedSurrogate));
                }
                match char::from_u32(res) {
                    Some(ch) => {
                        proof {
                            lemma_char_of(ch, res as int);
                        }
                        out.push(ch);
                    },
                    None => return Err(self.err(start, ParseErrorKind::UnpairedSurrogate)),
                }
            }
        }
    }

    /// Reads the next token.
    pub fn next_token(&mut self) -> (r: Result<Token, ParseError>)
        requires
            old(self).at() <= old(self).text().len(),
        ensures
            final(self).text() == old(self).text(),
            token_matches(old(self).text(), old(self).at(), r),
            r matches Ok(t) ==> final(self).at() == t.span.end,
            r matches Ok(t) ==> old(self).at() <= t.span.start <= t.span.end <= old(self).text().len(),
    {
        reveal(lex_at);
        let ghost s = self.src@;
        proof {
            lemma_trivia_end(s, self.pos as int);
            lemma_lex_at_bounds(s, self.pos as int);
        }
        self.skip_trivia();
        let start = self.pos;
        if self.pos >= self.src.len() {
            return Ok(Token { tok: Tok::Eof, span: start..start });
        }
        let c = self.src[self.pos];
        self.pos += 1;
        proof {
            lemma_run_ends(s, self.pos as int);
        }
        let tok = if c == '{' {
            Tok::LBrace
        } else if c == '}' {
            Tok::RBrace
        } else if c == '[' {
            Tok::LBracket
        } else if c == ']' {
            Tok::RBracket
        } else if c == '(' {
            Tok::LParen
        } else if c == ')' {
            Tok::RParen
        } else if c == ':' {
            Tok::Colon
        } else if c == ',' {
            Tok::Comma
        } else if c == '.' {
            Tok::Period
        } else if c == '=' {
            Tok::Equal
        } else if c == '#' {
            let hex_start = self.pos;
            while self.pos < self.src.len() && exec_is_hex(self.src[self.pos])
                invariant
                    self.src@ == s,
                    hex_start <= self.pos <= s.len(),
                    hex_end(s, self.pos as int) == hex_end(s, hex_start as int),
                decreases s.len() - self.pos,
            {
                self.pos += 1;
            }
            Tok::Color(string_of(self.src.as_slice(), hex_start, self.pos))
        } else if c == '&' || c == '@' {
            if self.pos >= self.src.len() || self.src[self.pos] != '"' {
                return Err(self.err(start, ParseErrorKind::ExpectedQuoteAfterAmpersand));
            }
            self.pos += 1;
            match self.lex_string_body(start) {
                Ok(value) => Tok::Str { value, name: true },
                Err(e) => return Err(e),
            }
        } else if c == '"' {
            match self.lex_string_body(start) {
                Ok(value) => Tok::Str { value, name: false },
                Err(e) => return Err(e),
            }
        } else if c == '-' {
            if self.pos < self.src.len() && exec_is_digit(self.src[self.pos]) {
                self.pos = start;
                Tok::Num(self.lex_number())
            } else if self.pos < self.src.len() && (exec_is_alpha(self.src[self.pos])
                || self.src[self.pos] == '_') {
                Tok::Ident(self.lex_ident_body(start))
            } else {
                return Err(self.err(start, ParseErrorKind::UnexpectedCharacter('-')));
            }
        } else if exec_is_digit(c) {
            self.pos = start;
            Tok::Num(self.lex_number())
        } else if exec_is_alpha(c) || c == '_' {
            Tok::Ident(self.lex_ident_body(start))
        } else {
            return Err(self.err(start, ParseErrorKind::UnexpectedCharacter(c)));
        };
        Ok(Token { tok, span: start..self.pos })
    }
}

/// How an error message names a kind of token.
pub open spec fn tok_name(t: TokView) -> Seq<char> {
    match t {
        TokView::LBrace => "'{'"@,
        TokView::RBrace => "'}'"@,
        TokView::LBracket => "'['"@,
        TokView::RBracket => "']'"@,
        TokView::LParen => "'('"@,
        TokView::RParen => "')'"@,
        TokView::Colon => "':'"@,
        TokView::Comma => "','"@,
        TokView::Period => "'.'"@,
        TokView::Equal => "'='"@,
        TokView::Color(_) => "a colour literal"@,
        TokView::Str { .. } => "a string"@,
        TokView::Num(_) => "a number"@,
        TokView::Ident(_) => "an identifier"@,
        TokView::Eof => "end of file"@,
    }
}

impl Tok {
    /// How an error message names this kind of token.
    pub fn describe(&self) -> (s: &'static str)
        ensures
            s@ == tok_name(self@),
    {
        match self {
            Tok::LBrace => "'{'",
            Tok::RBrace => "'}'",
            Tok::LBracket => "'['",
            Tok::RBracket => "']'",
            Tok::LParen => "'('",
            Tok::RParen => "')'",
            Tok::Colon => "':'",
            Tok::Comma => "','",
            Tok::Period => "'.'",
            Tok::Equal => "'='",
            Tok::Color(_) => "a colour literal",
            Tok::Str { .. } => "a string",
            Tok::Num(_) => "a number",
            Tok::Ident(_) => "an identifier",
            Tok::Eof => "end of file",
        }
    }

    /// A copy of this token kind.
    pub fn duplicate(&self) -> (t: Tok)
        ensures
            t == *self,
    {
        match self {
            Tok::LBrace => Tok::LBrace,
            Tok::RBrace => Tok::RBrace,
            Tok::LBracket => Tok::LBracket,
            Tok::RBracket => Tok::RBracket,
            Tok::LParen => Tok::LParen,
            Tok::RParen => Tok::RParen,
            Tok::Colon => Tok::Colon,
            Tok::Comma => Tok::Comma,
            Tok::Period => Tok::Period,
            Tok::Equal => Tok::Equal,
            Tok::Color(c) => Tok::Color(c.clone()),
            Tok::Str { value, name } => Tok::Str { value: value.clone(), name: *name },
            Tok::Num(n) => Tok::Num(n.clone()),
            Tok::Ident(i) => Tok::Ident(i.clone()),
            Tok::Eof => Tok::Eof,
        }
    }
}

/// Whether two token kinds are the same variant, whatever their payloads.
pub open spec fn same_variant(a: TokView, b: TokView) -> bool {
    match (a, b) {
        (TokView::LBrace, TokView::LBrace) => true,
        (TokView::RBrace, TokView::RBrace) => true,
        (TokView::LBracket, TokView::LBracket) => true,
        (TokView::RBracket, TokView::RBracket) => true,
        (TokView::LParen, TokView::LParen) => true,
        (TokView::RParen, TokView::RParen) => true,
        (TokView::Colon, TokView::Colon) => true,
        (TokView::Comma, TokView::Comma) => true,
        (TokView::Period, TokView::Period) => true,
        (TokView::Equal, TokView::Equal) => true,
        (TokView::Color(_), TokView::Color(_)) => true,
        (TokView::Str { .. }, TokView::Str { .. }) => true,
        (TokView::Num(_), TokView::Num(_)) => true,
        (TokView::Ident(_), TokView::Ident(_)) => true,
        (TokView::Eof, TokView::Eof) => true,
        _ => false,
    }
}

fn exec_same_variant(a: &Tok, b: &Tok) -> (r: bool)
    ensures
        r == same_variant(a@, b@),
{
    match (a, b) {
        (Tok::LBrace, Tok::LBrace) => true,
        (Tok::RBrace, Tok::RBrace) => true,
        (Tok::LBracket, Tok::LBracket) => true,
        (Tok::RBracket, Tok::RBracket) => true,
        (Tok::LParen, Tok::LParen) => true,
        (Tok::RParen, Tok::RParen) => true,
        (Tok::Colon, Tok::Colon) => true,
        (Tok::Comma, Tok::Comma) => true,
        (Tok::Period, Tok::Period) => true,
        (Tok::Equal, Tok::Equal) => true,
        (Tok::Color(_), Tok::Color(_)) => true,
        (Tok::Str { .. }, Tok::Str { .. }) => true,
        (Tok::Num(_), Tok::Num(_)) => true,
        (Tok::Ident(_), Tok::Ident(_)) => true,
        (Tok::Eof, Tok::Eof) => true,
        _ => false,
    }
}

/// A copy of a token.
pub fn duplicate_token(t: &Token) -> (r: Token)
    ensures
        r == *t,
{
    Token { tok: t.tok.duplicate(), span: t.span.start..t.span.end }
}

/// The deepest a value may nest. Godot's own writer never comes near it, and
/// it keeps a hostile file from exhausting the stack.
pub const MAX_DEPTH: usize = 128;

/// One-token-lookahead cursor over a [`Lexer`], plus the bookkeeping the
/// document parser needs to slice raw source text back out.
///
/// Abstractly a cursor is a position in the text (`at`): the next token is the
/// one `lex_at` finds there. A peeked token is only a cache of it.
pub struct Cursor {
    lex: Lexer,
    peeked: Option<Token>,
    peek_from: usize,
    last_end: usize,
    depth: usize,
}

impl Cursor {
    pub closed spec fn text(&self) -> Seq<char> {
        self.lex.text()
    }

    /// Where the next token is looked for from.
    pub closed spec fn at(&self) -> int {
        if self.peeked is Some {
            self.peek_from as int
        } else {
            self.lex.at()
        }
    }

    /// Just past the most recently consumed token.
    pub closed spec fn last(&self) -> int {
        self.last_end as int
    }

    /// How deeply nested the value being parsed is.
    pub closed spec fn depth(&self) -> nat {
        self.depth as nat
    }

    pub closed spec fn wf(&self) -> bool {
        &&& self.at() <= self.text().len()
        &&& self.last_end <= self.text().len()
        &&& self.depth <= MAX_DEPTH
        &&& self.peeked matches Some(t) ==> {
            &&& token_matches(self.text(), self.peek_from as int, Ok(t))
            &&& self.lex.at() == t.span.end
            &&& self.peek_from <= self.lex.at()
        }
    }

    /// The positions of a well-formed cursor lie inside its text.
    pub proof fn lemma_wf(&self)
        requires
            self.wf(),
        ensures
            0 <= self.at() <= self.text().len(),
            0 <= self.last() <= self.text().len(),
            self.depth() <= MAX_DEPTH,
    {
    }

    pub fn new(src: &str) -> (c: Cursor)
        ensures
            c.wf(),
            c.text() == src@,
            c.at() == 0,
            c.last() == 0,
            c.depth() == 0,
    {
        Cursor { lex: Lexer::new(src), peeked: None, peek_from: 0, last_end: 0, depth: 0 }
    }

    /// A cursor over the given characters.
    pub fn from_chars(src: Vec<char>) -> (c: Cursor)
        ensures
            c.wf(),
            c.text() == src@,
            c.at() == 0,
            c.last() == 0,
            c.depth() == 0,
    {
        Cursor { lex: Lexer::from_chars(src), peeked: None, peek_from: 0, last_end: 0, depth: 0 }
    }

    pub fn src(&self) -> (s: &[char])
        ensures
            s@ == self.text(),
    {
        self.lex.src()
    }

    /// Consumes the next token.
    pub fn next(&mut self) -> (r: Result<Token, ParseError>)
        requires
            old(self).wf(),
        ensures
            final(self).wf(),
            final(self).text() == old(self).text(),
            final(self).depth() == old(self).depth(),
            token_matches(old(self).text(), old(self).at(), r),
            r matches Ok(t) ==> final(self).at() == t.span.end && final(self).last()
                == t.span.end,
    {
        let t = match self.peeked.take() {
            Some(t) => t,
            None => {
                proof {
                    lemma_lex_at_bounds(self.lex.text(), self.lex.at());
                }
                match self.lex.next_token() {
                    Ok(t) => t,
                    Err(e) => {
                        self.lex.set_pos(0);
                        return Err(e);
                    },
                }
            },
        };
        proof {
            lemma_lex_at_bounds(self.lex.text(), old(self).at());
        }
        self.last_end = t.span.end;
        Ok(t)
    }

    /// The next token, without consuming it.
    pub fn peek(&mut self) -> (r: Result<Token, ParseError>)
        requires
            old(self).wf(),
        ensures
            final(self).wf(),
            final(self).text() == old(self).text(),
            final(self).depth() == old(self).depth(),
            token_matches(old(self).text(), old(self).at(), r),
            r is Ok ==> final(self).at() == old(self).at() && final(self).last() == old(self).last(),
    {
        if self.peeked.is_none() {
            let from = self.lex.pos();
            proof {
                lemma_lex_at_bounds(self.lex.text(), self.lex.at());
            }
            match self.lex.next_token() {
                Ok(t) => {
                    self.peeked = Some(t);
                    self.peek_from = from;
                },
                Err(e) => {
                    self.lex.set_pos(0);
                    return Err(e);
                },
            }
        }
        match &self.peeked {
            Some(t) => Ok(duplicate_token(t)),
            None => {
                assert(false);
                Err(ParseError::new(self.lex.src(), 0, ParseErrorKind::TrailingGarbage))
            },
        }
    }

    /// Just past the most recently consumed token.
    pub fn end(&self) -> (e: usize)
        ensures
            e == self.last(),
    {
        self.last_end
    }

    /// Where the next token begins.
    pub fn next_start(&mut self) -> (r: Result<usize, ParseError>)
        requires
            old(self).wf(),
        ensures
            final(self).wf(),
            final(self).text() == old(self).text(),
            final(self).depth() == old(self).depth(),
            match lex_at(old(self).text(), old(self).at()) {
                Ok((_, a, _)) => r == Ok::<usize, ParseError>(a as usize) && final(self).at()
                    == old(self).at() && final(self).last() == old(self).last(),
                Err(_) => r is Err,
            },
    {
        let t = self.peek()?;
        Ok(t.span.start)
    }

    /// Where the first character that is not trivia is, without tokenizing it.
    /// Unlike [`Cursor::next_start`] this cannot fail on a malformed token.
    pub fn skip_trivia_pos(&mut self) -> (p: usize)
        requires
            old(self).wf(),
        ensures
            final(self).wf(),
            final(self).text() == old(self).text(),
            final(self).depth() == old(self).depth(),
            final(self).last() == old(self).last(),
            p == trivia_end(old(self).text(), old(self).at()),
            lex_at(final(self).text(), final(self).at()) == lex_at(old(self).text(), old(self).at()),
            final(self).at() <= p,
    {
        proof {
            lemma_trivia_end(self.lex.text(), self.at());
            lemma_trivia_end(self.lex.text(), trivia_end(self.lex.text(), self.at()));
        }
        if let Some(t) = &self.peeked {
            proof {
                lemma_lex_at_bounds(self.lex.text(), self.peek_from as int);
            }
            return t.span.start;
        }
        proof {
            lemma_lex_at_trivia(self.lex.text(), self.lex.at());
        }
        self.lex.skip_trivia();
        self.lex.pos()
    }

    /// Rewinds to just past the last consumed token, discarding any lookahead.
    pub fn reset_to_end(&mut self)
        requires
            old(self).wf(),
        ensures
            final(self).wf(),
            final(self).text() == old(self).text(),
            final(self).depth() == old(self).depth(),
            final(self).last() == old(self).last(),
            final(self).at() == old(self).last(),
    {
        self.peeked = None;
        self.lex.set_pos(self.last_end);
    }

    /// Restarts tokenizing at `pos`, discarding any lookahead.
    pub fn seek(&mut self, pos: usize)
        requires
            old(self).wf(),
            pos <= old(self).text().len(),
        ensures
            final(self).wf(),
            final(self).text() == old(self).text(),
            final(self).depth() == old(self).depth(),
            final(self).last() == pos,
            final(self).at() == pos,
    {
        self.peeked = None;
        self.last_end = pos;
        self.lex.set_pos(pos);
    }

    /// The error `kind`, located at `at`.
    pub fn error(&self, at: usize, kind: ParseErrorKind) -> (e: ParseError)
        ensures
            e == error_at(self.text(), at as int, kind),
    {
        ParseError::new(self.lex.src(), at, kind)
    }

    /// Consumes the next token, which has to be of the same variant as `want`.
    pub fn expect(&mut self, want: &Tok, what: &'static str) -> (r: Result<Token, ParseError>)
        requires
            old(self).wf(),
        ensures
            final(self).wf(),
            final(self).text() == old(self).text(),
            final(self).depth() == old(self).depth(),
            match lex_at(old(self).text(), old(self).at()) {
                Ok((t, a, e)) => if same_variant(t, want@) {
                    r matches Ok(tok) && tok.tok@ == t && tok.span.start == a && tok.span.end == e
                        && final(self).at() == e && final(self).last() == e
                } else {
                    r is Err
                },
                Err(_) => r is Err,
            },
    {
        let tok = self.next()?;
        if exec_same_variant(&tok.tok, want) {
            Ok(tok)
        } else {
            Err(
                self.error(
                    tok.span.start,
                    ParseErrorKind::Expected(what, tok.tok.describe().to_owned()),
                ),
            )
        }
    }

    /// Enters one more level of nesting, failing past [`MAX_DEPTH`].
    pub fn enter(&mut self) -> (r: Result<(), ParseError>)
        requires
            old(self).wf(),
        ensures
            final(self).wf(),
            final(self).text() == old(self).text(),
            final(self).at() == old(self).at(),
            final(self).last() == old(self).last(),
            old(self).depth() < MAX_DEPTH ==> r is Ok && final(self).depth() == old(self).depth()
                + 1,
            old(self).depth() >= MAX_DEPTH ==> r is Err,
    {
        if self.depth >= MAX_DEPTH {
            return Err(self.error(self.last_end, ParseErrorKind::ValueTooDeep(MAX_DEPTH)));
        }
        self.depth += 1;
        Ok(())
    }

    /// Leaves one level of nesting.
    pub fn leave(&mut self)
        requires
            old(self).wf(),
            old(self).depth() > 0,
        ensures
            final(self).wf(),
            final(self).text() == old(self).text(),
            final(self).at() == old(self).at(),
            final(self).last() == old(self).last(),
            final(self).depth() == old(self).depth() - 1,
    {
        self.depth -= 1;
    }
}

pub open spec fn pow16(k: nat) -> int
    decreases k,
{
    if k == 0 {
        1
    } else {
        16 * pow16((k - 1) as nat)
    }
}

pub proof fn lemma_pow16_bound(k: nat)
    requires
        k <= 6,
    ensures
        pow16(k) <= 0x1000000,
        pow16(k) > 0,
{
    assert(pow16(0) == 1);
    assert(pow16(1) == 16);
    assert(pow16(2) == 256);
    assert(pow16(3) == 4096);
    assert(pow16(4) == 65536);
    assert(pow16(5) == 1048576);
    assert(pow16(6) == 0x1000000);
    lemma_pow16_mono(k, 6);
    lemma_pow16_pos(k);
}

pub proof fn lemma_pow16_mono(a: nat, b: nat)
    requires
        a <= b,
    ensures
        pow16(a) <= pow16(b),
    decreases b,
{
    if a < b {
        lemma_pow16_mono(a, (b - 1) as nat);
        assert(pow16(b) == 16 * pow16((b - 1) as nat));
        lemma_pow16_pos((b - 1) as nat);
    }
}

pub proof fn lemma_pow16_pos(k: nat)
    ensures
        pow16(k) > 0,
    decreases k,
{
    if k > 0 {
        lemma_pow16_pos((k - 1) as nat);
    }
}

} // verus!
