//! Parse errors carrying a line and column into the offending source.
use vstd::prelude::*;

use crate::text::{decimal, decimal_text, push_str};

verus! {

/// What went wrong while parsing.
#[derive(Debug, Clone, PartialEq, Eq)]
pub enum ParseErrorKind {
    ExpectedQuoteAfterAmpersand,
    UnterminatedString,
    UnpairedSurrogate,
    MalformedHexEscape,
    MalformedNumber,
    UnexpectedCharacter(char),
    Expected(&'static str, String),
    UnknownSection(String),
    MissingField(&'static str, &'static str),
    PropertyOutsideSection,
    NotAGodotTextResource,
    TrailingGarbage,
    ValueTooDeep(usize),
}

/// A parse error: the kind, and the 1-based line and column of the character
/// it was found at. The column counts the UTF-8 bytes before that character
/// on its line, as an editor that works in bytes shows it.
#[derive(Debug, Clone, PartialEq, Eq)]
pub struct ParseError {
    pub line: usize,
    pub column: usize,
    pub kind: ParseErrorKind,
}

/// Number of line feeds among the first `n` characters of `s`.
pub open spec fn newlines_before(s: Seq<char>, n: int) -> nat
    decreases n,
{
    if n <= 0 {
        0
    } else {
        newlines_before(s, n - 1) + if s[n - 1] == '\n' { 1nat } else { 0nat }
    }
}

/// Index of the last line feed among the first `n` characters, or -1.
pub open spec fn last_newline_before(s: Seq<char>, n: int) -> int
    decreases n,
{
    if n <= 0 {
        -1
    } else if s[n - 1] == '\n' {
        n - 1
    } else {
        last_newline_before(s, n - 1)
    }
}

/// How many bytes UTF-8 spends on `c`.
pub open spec fn utf8_len(c: char) -> nat {
    let v = c as u32;
    if v < 0x80 {
        1
    } else if v < 0x800 {
        2
    } else if v < 0x10000 {
        3
    } else {
        4
    }
}

/// The UTF-8 bytes of the characters of `s` from `from` up to `to`.
pub open spec fn bytes_between(s: Seq<char>, from: int, to: int) -> nat
    decreases to - from,
{
    if to <= from {
        0
    } else {
        bytes_between(s, from, to - 1) + utf8_len(s[to - 1])
    }
}

/// The error that `kind` found at character `offset` of `s` is reported as:
/// the line, and the column in UTF-8 bytes. Offsets past the end are clamped
/// to the end.
pub open spec fn error_at(s: Seq<char>, offset: int, kind: ParseErrorKind) -> ParseError {
    let at = if offset > s.len() { s.len() as int } else { offset };
    ParseError {
        line: saturating(newlines_before(s, at) + 1int),
        column: saturating(1int + bytes_between(s, last_newline_before(s, at) + 1, at)),
        kind,
    }
}

fn utf8_width(c: char) -> (n: usize)
    ensures
        n == utf8_len(c),
{
    let v = c as u32;
    if v < 0x80 {
        1
    } else if v < 0x800 {
        2
    } else if v < 0x10000 {
        3
    } else {
        4
    }
}

/// `n` as a `usize`, or `usize::MAX` when it does not fit.
pub open spec fn saturating(n: int) -> usize {
    if n > usize::MAX {
        usize::MAX
    } else {
        n as usize
    }
}

proof fn lemma_newlines_bounded(s: Seq<char>, n: int)
    requires
        0 <= n <= s.len(),
    ensures
        newlines_before(s, n) <= n,
        -1 <= last_newline_before(s, n) < n,
    decreases n,
{
    if n > 0 {
        lemma_newlines_bounded(s, n - 1);
    }
}

impl ParseError {
    /// The error `kind`, located at character `offset` of `src`.
    pub fn new(src: &[char], offset: usize, kind: ParseErrorKind) -> (e: ParseError)
        ensures
            e == error_at(src@, offset as int, kind),
    {
        let at = if offset > src.len() { src.len() } else { offset };
        let mut line: usize = 1;
        let mut last: usize = 0;
        let mut seen_newline = false;
        let mut i: usize = 0;
        while i < at
            invariant
                0 <= i <= at <= src@.len(),
                line == saturating(newlines_before(src@, i as int) + 1int),
                seen_newline == (last_newline_before(src@, i as int) >= 0),
                seen_newline ==> last == last_newline_before(src@, i as int),
            decreases at - i,
        {
            proof {
                lemma_newlines_bounded(src@, i as int);
            }
            if src[i] == '\n' {
                line = line.saturating_add(1);
                last = i;
                seen_newline = true;
            }
            i += 1;
        }
        proof {
            lemma_newlines_bounded(src@, at as int);
        }
        let start = if seen_newline { last + 1 } else { 0 };
        let ghost from = last_newline_before(src@, at as int) + 1;
        let mut column: usize = 1;
        let mut j = start;
        proof {
            assert(start as int == from);
        }
        while j < at
            invariant
                start <= j <= at <= src@.len(),
                start as int == from,
                column == saturating(1int + bytes_between(src@, from, j as int)),
            decreases at - j,
        {
            let w = utf8_width(src[j]);
            column = column.saturating_add(w);
            j += 1;
        }
        ParseError { line, column, kind }
    }

    /// The error as a person reads it: `line L, column C: what`.
    pub fn message(&self) -> (s: String)
        ensures
            s@ == "line "@ + decimal(self.line as nat) + ", column "@ + decimal(self.column as nat)
                + ": "@ + self.kind.describe_spec(),
    {
        let mut s = "line ".to_owned();
        let l = decimal_text(self.line);
        push_str(&mut s, l.as_str());
        push_str(&mut s, ", column ");
        let c = decimal_text(self.column);
        push_str(&mut s, c.as_str());
        push_str(&mut s, ": ");
        let k = self.kind.describe();
        push_str(&mut s, k.as_str());
        s
    }
}

/// A character inside single quotes, as messages show one.
pub open spec fn quoted_char(c: char) -> Seq<char> {
    seq!['\'', c, '\'']
}

impl ParseErrorKind {
    /// What the message after the location says.
    pub open spec fn describe_spec(&self) -> Seq<char> {
        match self {
            ParseErrorKind::ExpectedQuoteAfterAmpersand => "expected '\"' after '&'"@,
            ParseErrorKind::UnterminatedString => "unterminated string"@,
            ParseErrorKind::UnpairedSurrogate => "invalid UTF-16 escape sequence: unpaired surrogate"@,
            ParseErrorKind::MalformedHexEscape => "malformed hex escape in string"@,
            ParseErrorKind::MalformedNumber => "malformed number literal"@,
            ParseErrorKind::UnexpectedCharacter(c) => "unexpected character "@ + quoted_char(*c),
            ParseErrorKind::Expected(what, got) => "expected "@ + what@ + ", found "@ + got@,
            ParseErrorKind::UnknownSection(tag) => "unknown section tag ["@ + tag@ + "]"@,
            ParseErrorKind::MissingField(tag, field) => "["@ + tag@ + "] is missing the required '"@
                + field@ + "' field"@,
            ParseErrorKind::PropertyOutsideSection => "property assignment before any section header"@,
            ParseErrorKind::NotAGodotTextResource => "file does not start with [gd_scene] or [gd_resource]"@,
            ParseErrorKind::TrailingGarbage => "unexpected trailing content"@,
            ParseErrorKind::ValueTooDeep(limit) => "value nested more than "@ + decimal(*limit as nat)
                + " levels deep"@,
        }
    }

    /// The description of this kind of error.
    pub fn describe(&self) -> (s: String)
        ensures
            s@ == self.describe_spec(),
    {
        match self {
            ParseErrorKind::ExpectedQuoteAfterAmpersand => "expected '\"' after '&'".to_owned(),
            ParseErrorKind::UnterminatedString => "unterminated string".to_owned(),
            ParseErrorKind::UnpairedSurrogate => "invalid UTF-16 escape sequence: unpaired surrogate".to_owned(),
            ParseErrorKind::MalformedHexEscape => "malformed hex escape in string".to_owned(),
            ParseErrorKind::MalformedNumber => "malformed number literal".to_owned(),
            ParseErrorKind::UnexpectedCharacter(c) => {
                let mut s = "unexpected character ".to_owned();
                s.push('\'');
                s.push(*c);
                s.push('\'');
                s
            },
            ParseErrorKind::Expected(what, got) => {
                let mut s = "expected ".to_owned();
                push_str(&mut s, what);
                push_str(&mut s, ", found ");
                push_str(&mut s, got.as_str());
                s
            },
            ParseErrorKind::UnknownSection(tag) => {
                let mut s = "unknown section tag [".to_owned();
                push_str(&mut s, tag.as_str());
                push_str(&mut s, "]");
                s
            },
            ParseErrorKind::MissingField(tag, field) => {
                let mut s = "[".to_owned();
                push_str(&mut s, tag);
                push_str(&mut s, "] is missing the required '");
                push_str(&mut s, field);
                push_str(&mut s, "' field");
                s
            },
            ParseErrorKind::PropertyOutsideSection => "property assignment before any section header".to_owned(),
            ParseErrorKind::NotAGodotTextResource => "file does not start with [gd_scene] or [gd_resource]".to_owned(),
            ParseErrorKind::TrailingGarbage => "unexpected trailing content".to_owned(),
            ParseErrorKind::ValueTooDeep(limit) => {
                let mut s = "value nested more than ".to_owned();
                let n = decimal_text(*limit);
                push_str(&mut s, n.as_str());
                push_str(&mut s, " levels deep");
                s
            },
        }
    }
}

} // verus!
