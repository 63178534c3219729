//! Entry points for fuzzing the two places that read untrusted text: the
//! tokenizer and the parsers. What a fuzzer looks for here (a panic, a loop
//! that never ends, a span outside the input, a document that does not replay
//! its text) is ruled out by the proofs of these functions and of what they
//! call; their results let a harness check the same on concrete inputs.
use vstd::prelude::*;

use crate::doc::doc_text;
use crate::lex::{lemma_lex_at_bounds, lex_at, token_matches, Cursor, Lexer, Tok, TokView};
use crate::value::Pointers;

verus! {

/// How many tokens the tokenizer reads from `p` before the end of the input
/// or the first error.
pub open spec fn tokens_from(s: Seq<char>, p: int) -> nat
    decreases s.len() - p,
{
    if p < 0 || p > s.len() {
        0
    } else {
        match lex_at(s, p) {
            Ok((TokView::Eof, _, _)) => 0,
            Ok((_, _, e)) => if p < e <= s.len() {
                1 + tokens_from(s, e)
            } else {
                0
            },
            Err(_) => 0,
        }
    }
}

/// Runs the tokenizer over `src` to the end of the input or to the first
/// error, and gives how many tokens it read before stopping. Every token lies
/// inside the input and covers at least one character, so this ends.
pub fn tokenize(src: &str) -> (n: usize)
    ensures
        n == tokens_from(src@, 0),
        n <= src@.len(),
{
    let mut lexer = Lexer::new(src);
    let ghost s = src@;
    let mut n: usize = 0;
    loop
        invariant
            lexer.text() == s,
            s == src@,
            0 <= lexer.at() <= s.len(),
            n <= lexer.at(),
            n + tokens_from(s, lexer.at()) == tokens_from(s, 0),
        decreases s.len() - lexer.at(),
    {
        let ghost p = lexer.at();
        proof {
            lemma_lex_at_bounds(s, p);
        }
        match lexer.next_token() {
            Ok(token) => {
                if matches!(token.tok, Tok::Eof) {
                    return n;
                }
                n += 1;
            },
            Err(_) => return n,
        }
    }
}

/// Parses one variant literal from `src`, and gives its canonical text and
/// the references and node paths it recorded, where it parsed. The canonical
/// form is total, so a value that parses can always be compared in a merge,
/// and every recorded span lies inside the input.
pub fn parse_value(src: &str) -> (r: Option<(String, Pointers)>)
    ensures
        r is Some == (crate::value::grammar_value(src@, 0, 0) is Some),
        r matches Some((text, ptrs)) ==> {
            &&& crate::value::grammar_value(src@, 0, 0) matches Some((v, _))
            &&& text@ == crate::canon::canon(v, seq![], seq![], seq![])
            &&& ptrs.spans_within((0, 0), 0, src@.len() as int)
        },
{
    let mut cursor = Cursor::new(src);
    let mut ptrs = Pointers::new();
    let r = crate::value::parse_value(&mut cursor, &mut ptrs);
    match r {
        Ok(v) => {
            let none: Vec<(String, String)> = Vec::new();
            let nums = crate::canon::NumberForms::none();
            let text = v.canonical(&none, &none, &nums);
            proof {
                assert(crate::canon::table_view(none@) =~= Seq::<(Seq<char>, Seq<char>)>::empty());
                assert(nums.table() =~= Seq::<(Seq<char>, Seq<char>)>::empty());
                cursor.lemma_wf();
                let q = crate::value::grammar_value(src@, 0, 0)->Some_0.1;
                assert(q <= src@.len());
                assert forall|i: int| 0 <= i < ptrs.refs@.len() implies 0 <= #[trigger] ptrs.refs@[i].span.start
                    <= ptrs.refs@[i].span.end <= src@.len() by {}
                assert forall|i: int| 0 <= i < ptrs.paths@.len() implies 0 <= #[trigger] ptrs.paths@[i].span.start
                    <= ptrs.paths@[i].span.end <= src@.len() by {}
            }
            Some((text, ptrs))
        },
        Err(_) => None,
    }
}

/// Parses a whole document and gives whether it parsed and re-serialised to
/// exactly the text it came from, which every document that parses does.
pub fn parse_document(src: &str) -> (ok: bool)
    ensures
        ok == crate::doc::accepts(src@),
        ok ==> exists|d: crate::doc::Document| doc_text(d) == src@ && d.wf(),
{
    match crate::doc::parse_document(src) {
        Ok(doc) => {
            let text = doc.to_source();
            proof {
                assert(doc_text(doc) == src@);
            }
            crate::text::str_eq(text.as_str(), src)
        },
        Err(_) => false,
    }
}

} // verus!
