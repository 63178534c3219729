//! One rule for showing a scene value to a person.
//!
//! Scene values run to thousands of characters, a whole tile map on one line,
//! and a report that prints one whole is unreadable. A report that cuts one
//! inside a token is wrong the other way: `SubResource("RectangleShape2D_g...`
//! can be neither read nor copied. So every value a report shows goes through
//! [`shown`], which bounds it and never cuts inside a quoted string: an id is
//! short and comes out whole, and a long string is replaced by `"..."` with a
//! count of what was left out, keeping the type around it.
use vstd::prelude::*;

use crate::doc::is_white_space;
use crate::text::{chars_of, decimal, decimal_text, digit_char, push_chars, push_str};

verus! {

broadcast use vstd::string::group_string_axioms;

/// Longest rendering of one value, in characters. Every renderer goes through
/// [`shown`], so this bounds any value it prints.
pub const MAX_SHOWN: usize = 120;

/// Where a long value is cut. What can follow is an id-sized string, or
/// `"..."` and a short tail, and then the elision note; together they fit in
/// the rest of [`MAX_SHOWN`].
pub const HEAD: usize = 48;

/// A string no longer than this that the cut lands in is kept whole rather
/// than replaced. Godot's longest ids, such as
/// `AnimationNodeStateMachineTransition_gdm10`, are a few characters shorter.
pub const ID_LENGTH: usize = 42;

/// How much may follow a replaced string and still be shown, such as `)`.
pub const TAIL: usize = 8;

/// Joining the white-space separated words of a text with single spaces, one
/// character at a time: the text so far, and whether a space is owed before
/// the next word.
pub open spec fn flat_state(s: Seq<char>) -> (Seq<char>, bool)
    decreases s.len(),
{
    if s.len() == 0 {
        (seq![], false)
    } else {
        let (out, pending) = flat_state(s.drop_last());
        let c = s.last();
        if is_white_space(c) {
            (out, out.len() > 0)
        } else if pending {
            (out.push(' ').push(c), false)
        } else {
            (out.push(c), false)
        }
    }
}

/// The words of `s`, as `split_whitespace` finds them, joined with one space.
pub open spec fn flatten(s: Seq<char>) -> Seq<char> {
    flat_state(s).0
}

fn flatten_exec(value: &str) -> (r: Vec<char>)
    ensures
        r@ == flatten(value@),
{
    let cs = chars_of(value);
    let mut out: Vec<char> = Vec::new();
    let mut pending = false;
    let mut i: usize = 0;
    while i < cs.len()
        invariant
            i <= cs@.len(),
            cs@ == value@,
            (out@, pending) == flat_state(cs@.take(i as int)),
        decreases cs@.len() - i,
    {
        proof {
            assert(cs@.take(i + 1).drop_last() =~= cs@.take(i as int));
        }
        let c = cs[i];
        if crate::doc::exec_is_white_space(c) {
            pending = out.len() > 0;
        } else {
            if pending {
                out.push(' ');
            }
            out.push(c);
            pending = false;
        }
        i += 1;
    }
    proof {
        assert(cs@.take(i as int) =~= cs@);
    }
    out
}

/// Scanning the first `n` characters for quotes: where the string the scan is
/// inside of opened, if it is inside one, and whether the last character was
/// an escaping backslash.
pub open spec fn open_state(c: Seq<char>, n: int) -> (Option<int>, bool)
    decreases n,
{
    if n <= 0 {
        (None, false)
    } else {
        let (open, escaped) = open_state(c, n - 1);
        let x = c[n - 1];
        if escaped {
            (open, false)
        } else if x == '\\' && open is Some {
            (open, true)
        } else if x == '"' {
            (if open is Some {
                None
            } else {
                Some(n - 1)
            }, false)
        } else {
            (open, false)
        }
    }
}

/// Index of the quote closing the string opened at `open`, or the length when
/// the string never closes: the first unescaped `"` from `from` on.
pub open spec fn closing_from(c: Seq<char>, from: int, escaped: bool) -> int
    decreases c.len() - from,
{
    if from >= c.len() {
        c.len() as int
    } else if escaped {
        closing_from(c, from + 1, false)
    } else if c[from] == '\\' {
        closing_from(c, from + 1, true)
    } else if c[from] == '"' {
        from
    } else {
        closing_from(c, from + 1, false)
    }
}

proof fn lemma_closing_from(c: Seq<char>, from: int, escaped: bool)
    requires
        0 <= from,
    ensures
        from <= closing_from(c, from, escaped) <= c.len() || (from > c.len() && closing_from(c, from, escaped)
            == c.len()),
        closing_from(c, from, escaped) < c.len() ==> c[closing_from(c, from, escaped)] == '"',
    decreases c.len() - from,
{
    if from < c.len() {
        if escaped || c[from] == '\\' || c[from] != '"' {
            lemma_closing_from(c, from + 1, !escaped && c[from] == '\\');
            lemma_closing_from(c, from + 1, false);
        }
    }
}

/// Index of the quote closing the string opened at `open`, or the length when
/// the string never closes.
fn closing_quote(chars: &Vec<char>, open: usize) -> (r: usize)
    requires
        open < chars@.len(),
    ensures
        r == closing_from(chars@, open + 1, false),
        open < r <= chars@.len(),
{
    let n = chars.len();
    let mut escaped = false;
    let mut i = open + 1;
    proof {
        lemma_closing_from(chars@, open + 1, false);
    }
    while i < n
        invariant
            n == chars@.len(),
            open < i <= n,
            closing_from(chars@, open + 1, false) == closing_from(chars@, i as int, escaped),
        decreases n - i,
    {
        let c = chars[i];
        if escaped {
            escaped = false;
        } else if c == '\\' {
            escaped = true;
        } else if c == '"' {
            return i;
        }
        i += 1;
    }
    n
}

/// Where a cut outside any string goes: after the last space in the second
/// quarter of the head, so a number is not split either.
pub open spec fn space_boundary(c: Seq<char>, k: int) -> int
    decreases k,
{
    if k <= 0 {
        HEAD as int
    } else if c[(HEAD / 2) as int + k - 1] == ' ' {
        (HEAD / 2) as int + k
    } else {
        space_boundary(c, k - 1)
    }
}

/// `c[..cut]` followed by an ellipsis and a count of what was left out.
pub open spec fn elided_spec(c: Seq<char>, cut: int) -> Seq<char> {
    c.subrange(0, cut) + "... ("@ + decimal((c.len() - cut) as nat) + " chars elided)"@
}

/// How many of the (at most two) characters after the closing quote close
/// brackets.
pub open spec fn closing_brackets(c: Seq<char>, from: int) -> int {
    if from < c.len() && (c[from] == ')' || c[from] == ']') {
        if from + 1 < c.len() && (c[from + 1] == ')' || c[from + 1] == ']') {
            2
        } else {
            1
        }
    } else {
        0
    }
}

/// A value as a report shows it, given its flattened characters.
pub open spec fn shown_spec(c: Seq<char>) -> Seq<char> {
    if c.len() <= MAX_SHOWN {
        c
    } else {
        match open_state(c, HEAD as int).0 {
            None => elided_spec(c, space_boundary(c, (HEAD / 2) as int)),
            Some(open) => {
                let close = closing_from(c, open + 1, false);
                if close - open - 1 <= ID_LENGTH && close < c.len() {
                    // Keep the id, and the bracket or two closing the call around it.
                    elided_spec(c, close + 1 + closing_brackets(c, close + 1))
                } else {
                    let after = if close + 1 < c.len() {
                        close + 1
                    } else {
                        c.len() as int
                    };
                    let rest = c.len() - after;
                    if rest <= TAIL {
                        let n = (if close < c.len() {
                            close
                        } else {
                            c.len() as int
                        }) - open - 1;
                        c.subrange(0, open) + "\"...\""@ + c.subrange(after, c.len() as int) + " ("@ + decimal(
                            n as nat,
                        ) + " chars elided)"@
                    } else {
                        c.subrange(0, open) + "\"...\"... ("@ + decimal((c.len() - open) as nat)
                            + " chars elided)"@
                    }
                }
            },
        }
    }
}

fn elided(chars: &Vec<char>, cut: usize) -> (r: String)
    requires
        cut <= chars@.len(),
    ensures
        r@ == elided_spec(chars@, cut as int),
{
    let mut out = String::new();
    push_chars(&mut out, chars.as_slice(), 0, cut);
    push_str(&mut out, "... (");
    let n = decimal_text(chars.len() - cut);
    push_str(&mut out, n.as_str());
    push_str(&mut out, " chars elided)");
    out
}

proof fn lemma_open_state(c: Seq<char>, n: int)
    requires
        0 <= n,
    ensures
        open_state(c, n).0 matches Some(o) ==> 0 <= o < n,
    decreases n,
{
    if n > 0 {
        lemma_open_state(c, n - 1);
    }
}

proof fn lemma_space_boundary(c: Seq<char>, k: int)
    requires
        0 <= k <= (HEAD / 2) as int,
    ensures
        (HEAD / 2) as int <= space_boundary(c, k) <= HEAD as int,
    decreases k,
{
    if k > 0 {
        lemma_space_boundary(c, k - 1);
    }
}

/// Renders one value for a report, on one line (see
/// [`lemma_shown_is_one_line`]) and within [`MAX_SHOWN`] characters (see
/// [`lemma_shown_bounded`] for the one case where the note of what was cut
/// cannot fit).
pub fn shown(value: &str) -> (r: String)
    ensures
        r@ == shown_spec(flatten(value@)),
{
    let chars = flatten_exec(value);
    let n = chars.len();
    if n <= MAX_SHOWN {
        let mut out = String::new();
        push_chars(&mut out, chars.as_slice(), 0, n);
        proof {
            assert(chars@.subrange(0, n as int) =~= chars@);
        }
        return out;
    }
    // Is the cut inside a quoted string? Then where does that string start?
    let mut open: Option<usize> = None;
    let mut escaped = false;
    let mut i: usize = 0;
    while i < HEAD
        invariant
            i <= HEAD,
            HEAD < n,
            n == chars@.len(),
            (match open {
                Some(o) => Some(o as int),
                None => None::<int>,
            }, escaped) == open_state(chars@, i as int),
        decreases HEAD - i,
    {
        let c = chars[i];
        if escaped {
            escaped = false;
        } else if c == '\\' && open.is_some() {
            escaped = true;
        } else if c == '"' {
            open = if open.is_some() {
                None
            } else {
                Some(i)
            };
        }
        i += 1;
    }
    proof {
        lemma_open_state(chars@, HEAD as int);
    }
    let open = match open {
        Some(o) => o,
        None => {
            // Not in a string: cut after the last space before HEAD.
            let mut k: usize = HEAD / 2;
            proof {
                lemma_space_boundary(chars@, k as int);
            }
            while k > 0 && chars[HEAD / 2 + k - 1] != ' '
                invariant
                    k <= HEAD / 2,
                    n == chars@.len(),
                    HEAD < n,
                    space_boundary(chars@, (HEAD / 2) as int) == space_boundary(chars@, k as int),
                decreases k,
            {
                k -= 1;
            }
            let boundary = if k > 0 {
                HEAD / 2 + k
            } else {
                HEAD
            };
            return elided(&chars, boundary);
        },
    };
    let close = closing_quote(&chars, open);
    if close - open - 1 <= ID_LENGTH && close < n {
        // Keep the id, and the bracket or two closing the call around it.
        let mut brackets: usize = 0;
        if close + 1 < n && (chars[close + 1] == ')' || chars[close + 1] == ']') {
            brackets = 1;
            if close + 2 < n && (chars[close + 2] == ')' || chars[close + 2] == ']') {
                brackets = 2;
            }
        }
        return elided(&chars, close + 1 + brackets);
    }
    let after = if close < n - 1 {
        close + 1
    } else {
        n
    };
    let rest = n - after;
    let mut out = String::new();
    push_chars(&mut out, chars.as_slice(), 0, open);
    if rest <= TAIL {
        let count = (if close < n {
            close
        } else {
            n
        }) - open - 1;
        push_str(&mut out, "\"...\"");
        push_chars(&mut out, chars.as_slice(), after, n);
        push_str(&mut out, " (");
        let digits = decimal_text(count);
        push_str(&mut out, digits.as_str());
        push_str(&mut out, " chars elided)");
        return out;
    }
    push_str(&mut out, "\"...\"... (");
    let digits = decimal_text(n - open);
    push_str(&mut out, digits.as_str());
    push_str(&mut out, " chars elided)");
    out
}

/// Ten to the power `k`.
pub open spec fn ten_to(k: nat) -> nat
    decreases k,
{
    if k == 0 {
        1
    } else {
        10 * ten_to((k - 1) as nat)
    }
}

/// A number below ten to the `k` has at most `k` digits.
proof fn lemma_decimal_len(n: nat, k: nat)
    requires
        k >= 1,
        n < ten_to(k),
    ensures
        1 <= decimal(n).len() <= k,
    decreases n,
{
    if n >= 10 {
        assert(k >= 2) by {
            if k == 1 {
                assert(ten_to(1) == 10 * ten_to(0));
            }
        }
        let t = ten_to((k - 1) as nat);
        assert(ten_to(k) == 10 * t);
        assert(n / 10 < t) by (nonlinear_arith)
            requires
                n < 10 * t,
        ;
        lemma_decimal_len(n / 10, (k - 1) as nat);
        assert(decimal(n).len() == decimal(n / 10).len() + 1);
    }
}

/// Any count a machine can hold has at most twenty digits.
proof fn lemma_count_digits(n: nat)
    requires
        n <= usize::MAX,
    ensures
        1 <= decimal(n).len() <= 20,
{
    assert(ten_to(20) == 100_000_000_000_000_000_000nat) by {
        reveal_with_fuel(ten_to, 21);
    }
    lemma_decimal_len(n, 20);
}

/// Where the cut goes when it lands in a string short enough to be kept whole
/// as an id: after the closing quote and the bracket or two that follow it.
pub open spec fn id_cut(c: Seq<char>) -> Option<int> {
    if c.len() <= MAX_SHOWN {
        None
    } else {
        match open_state(c, HEAD as int).0 {
            Some(open) => {
                let close = closing_from(c, open + 1, false);
                if close - open - 1 <= ID_LENGTH && close < c.len() {
                    Some(close + 1 + closing_brackets(c, close + 1))
                } else {
                    None
                }
            },
            None => None,
        }
    }
}

/// What a report shows of a value is never longer than [`MAX_SHOWN`], for
/// every length a string can have, except where the cut keeps an id and the
/// count of the characters left out after it has too many digits to fit in
/// what remains of the line (more than eight when the id ends as late as it
/// can).
pub proof fn lemma_shown_bounded(c: Seq<char>)
    requires
        c.len() <= usize::MAX,
        id_cut(c) matches Some(cut) ==> cut + 19 + decimal((c.len() - cut) as nat).len() <= MAX_SHOWN,
    ensures
        shown_spec(c).len() <= MAX_SHOWN,
{
    reveal_strlit("... (");
    reveal_strlit(" chars elided)");
    reveal_strlit("\"...\"");
    reveal_strlit(" (");
    reveal_strlit("\"...\"... (");
    if c.len() > MAX_SHOWN {
        lemma_open_state(c, HEAD as int);
        match open_state(c, HEAD as int).0 {
            None => {
                lemma_space_boundary(c, (HEAD / 2) as int);
                let cut = space_boundary(c, (HEAD / 2) as int);
                lemma_count_digits((c.len() - cut) as nat);
            },
            Some(open) => {
                lemma_closing_from(c, open + 1, false);
                let close = closing_from(c, open + 1, false);
                if close - open - 1 <= ID_LENGTH && close < c.len() {
                    let cut = close + 1 + closing_brackets(c, close + 1);
                    assert(id_cut(c) == Some(cut));
                } else {
                    let n = (if close < c.len() {
                        close
                    } else {
                        c.len() as int
                    }) - open - 1;
                    lemma_count_digits(n as nat);
                    lemma_count_digits((c.len() - open) as nat);
                }
            },
        }
    }
}

proof fn lemma_flat_state_no_space(s: Seq<char>)
    ensures
        forall|i: int| 0 <= i < flat_state(s).0.len() ==> !is_white_space(#[trigger] flat_state(s).0[i])
            || flat_state(s).0[i] == ' ',
        forall|i: int| 0 <= i < flat_state(s).0.len() ==> #[trigger] flat_state(s).0[i] != '\n',
    decreases s.len(),
{
    if s.len() > 0 {
        lemma_flat_state_no_space(s.drop_last());
        let (out, pending) = flat_state(s.drop_last());
        let c = s.last();
        assert(is_white_space('\n'));
        if !is_white_space(c) {
            assert(c != '\n');
            if pending {
                assert forall|i: int| 0 <= i < out.push(' ').push(c).len() implies #[trigger] out.push(' ').push(c)[i]
                    != '\n' by {
                    if i < out.len() {
                        assert(out.push(' ').push(c)[i] == out[i]);
                    }
                }
            } else {
                assert forall|i: int| 0 <= i < out.push(c).len() implies #[trigger] out.push(c)[i] != '\n' by {
                    if i < out.len() {
                        assert(out.push(c)[i] == out[i]);
                    }
                }
            }
        }
    }
}

proof fn lemma_decimal_digits(n: nat)
    ensures
        forall|i: int| 0 <= i < decimal(n).len() ==> #[trigger] decimal(n)[i] != '\n',
    decreases n,
{
    if n >= 10 {
        lemma_decimal_digits(n / 10);
        assert forall|i: int| 0 <= i < decimal(n).len() implies #[trigger] decimal(n)[i] != '\n' by {
            if i < decimal(n / 10).len() {
                assert(decimal(n)[i] == decimal(n / 10)[i]);
            } else {
                assert(decimal(n)[i] == digit_char(n % 10));
            }
        }
    }
}

/// No line feed in `s`.
pub open spec fn one_line(s: Seq<char>) -> bool {
    forall|i: int| 0 <= i < s.len() ==> #[trigger] s[i] != '\n'
}

proof fn lemma_one_line_cat(a: Seq<char>, b: Seq<char>)
    requires
        one_line(a),
        one_line(b),
    ensures
        one_line(a + b),
{
    assert forall|i: int| 0 <= i < (a + b).len() implies #[trigger] (a + b)[i] != '\n' by {
        if i < a.len() {
            assert((a + b)[i] == a[i]);
        } else {
            assert((a + b)[i] == b[i - a.len()]);
        }
    }
}

proof fn lemma_one_line_sub(a: Seq<char>, x: int, y: int)
    requires
        one_line(a),
        0 <= x <= y <= a.len(),
    ensures
        one_line(a.subrange(x, y)),
{
    assert forall|i: int| 0 <= i < a.subrange(x, y).len() implies #[trigger] a.subrange(x, y)[i] != '\n' by {
        assert(a.subrange(x, y)[i] == a[x + i]);
    }
}

/// What a report shows of a value is one line: the value is flattened onto
/// one line first, and what is cut from it is replaced by text without a
/// line feed.
pub proof fn lemma_shown_is_one_line(value: Seq<char>)
    ensures
        one_line(shown_spec(flatten(value))),
{
    reveal_strlit("... (");
    reveal_strlit(" chars elided)");
    reveal_strlit("\"...\"");
    reveal_strlit(" (");
    reveal_strlit("\"...\"... (");
    lemma_flat_state_no_space(value);
    let c = flatten(value);
    assert(one_line(c));
    let l1 = "... ("@;
    let l2 = " chars elided)"@;
    let l3 = "\"...\""@;
    let l4 = " ("@;
    let l5 = "\"...\"... ("@;
    assert(one_line(l1) && one_line(l2) && one_line(l3) && one_line(l4) && one_line(l5));
    if c.len() > MAX_SHOWN {
        lemma_open_state(c, HEAD as int);
        match open_state(c, HEAD as int).0 {
            None => {
                lemma_space_boundary(c, (HEAD / 2) as int);
                let cut = space_boundary(c, (HEAD / 2) as int);
                let d = decimal((c.len() - cut) as nat);
                lemma_decimal_digits((c.len() - cut) as nat);
                lemma_one_line_sub(c, 0, cut);
                lemma_one_line_cat(c.subrange(0, cut), l1);
                lemma_one_line_cat(c.subrange(0, cut) + l1, d);
                lemma_one_line_cat(c.subrange(0, cut) + l1 + d, l2);
            },
            Some(open) => {
                lemma_closing_from(c, open + 1, false);
                let close = closing_from(c, open + 1, false);
                if close - open - 1 <= ID_LENGTH && close < c.len() {
                    let cut = close + 1 + closing_brackets(c, close + 1);
                    let d = decimal((c.len() - cut) as nat);
                    lemma_decimal_digits((c.len() - cut) as nat);
                    lemma_one_line_sub(c, 0, cut);
                    lemma_one_line_cat(c.subrange(0, cut), l1);
                    lemma_one_line_cat(c.subrange(0, cut) + l1, d);
                    lemma_one_line_cat(c.subrange(0, cut) + l1 + d, l2);
                } else {
                    let after = if close + 1 < c.len() {
                        close + 1
                    } else {
                        c.len() as int
                    };
                    let rest = c.len() - after;
                    if rest <= TAIL {
                        let n = (if close < c.len() {
                            close
                        } else {
                            c.len() as int
                        }) - open - 1;
                        let d = decimal(n as nat);
                        lemma_decimal_digits(n as nat);
                        lemma_one_line_sub(c, 0, open);
                        lemma_one_line_sub(c, after, c.len() as int);
                        lemma_one_line_cat(c.subrange(0, open), l3);
                        lemma_one_line_cat(c.subrange(0, open) + l3, c.subrange(after, c.len() as int));
                        lemma_one_line_cat(c.subrange(0, open) + l3 + c.subrange(after, c.len() as int), l4);
                        lemma_one_line_cat(c.subrange(0, open) + l3 + c.subrange(after, c.len() as int) + l4, d);
                        lemma_one_line_cat(
                            c.subrange(0, open) + l3 + c.subrange(after, c.len() as int) + l4 + d,
                            l2,
                        );
                    } else {
                        let d = decimal((c.len() - open) as nat);
                        lemma_decimal_digits((c.len() - open) as nat);
                        lemma_one_line_sub(c, 0, open);
                        lemma_one_line_cat(c.subrange(0, open), l5);
                        lemma_one_line_cat(c.subrange(0, open) + l5, d);
                        lemma_one_line_cat(c.subrange(0, open) + l5 + d, l2);
                    }
                }
            },
        }
    }
}

/// A value too long to show whole ends with a note of how much was left out.
pub proof fn lemma_long_shown_notes_the_cut(c: Seq<char>)
    requires
        c.len() > MAX_SHOWN,
    ensures
        shown_spec(c).len() >= 14,
        shown_spec(c).subrange(shown_spec(c).len() - 14, shown_spec(c).len() as int) == " chars elided)"@,
{
    reveal_strlit(" chars elided)");
    let t = shown_spec(c);
    let l2 = " chars elided)"@;
    assert(l2.len() == 14);
    let pre = t.subrange(0, t.len() - 14);
    assert(t.len() >= 14);
    assert(t.subrange(t.len() - 14, t.len() as int) =~= l2);
}

/// A value that fits is shown whole, flattened onto one line.
pub proof fn lemma_short_shown_whole(c: Seq<char>)
    requires
        c.len() <= MAX_SHOWN,
    ensures
        shown_spec(c) == c,
{
}


/// Longest value, in characters, a change line prints whole.
pub const MAX_ELIDED: usize = 72;

/// A value as a one-line change description shows it: its words joined by
/// single spaces, cut to `MAX_ELIDED` characters with `...` when longer.
pub open spec fn elide_spec(value: Seq<char>) -> Seq<char> {
    let flat = flatten(value);
    if flat.len() <= MAX_ELIDED {
        flat
    } else {
        flat.take(MAX_ELIDED - 3) + "..."@
    }
}

/// Scene values can be enormous (a whole tile map on one line); shows enough
/// of one to recognise the change and no more.
pub fn elide(value: &str) -> (r: String)
    ensures
        r@ == elide_spec(value@),
{
    let flat = flatten_exec(value);
    let mut out = String::new();
    if flat.len() <= MAX_ELIDED {
        push_chars(&mut out, &flat, 0, flat.len());
        proof {
            assert(flat@.subrange(0, flat@.len() as int) =~= flat@);
        }
    } else {
        push_chars(&mut out, &flat, 0, MAX_ELIDED - 3);
        push_str(&mut out, "...");
        proof {
            assert(flat@.subrange(0, MAX_ELIDED - 3) =~= flat@.take(MAX_ELIDED - 3));
        }
    }
    out
}

/// A change line never shows more than [`MAX_ELIDED`] characters of a value:
/// a value that fits is shown whole, on one line; a longer one keeps its
/// first characters and ends in `...`.
pub proof fn lemma_elide_bounded(value: Seq<char>)
    ensures
        elide_spec(value).len() <= MAX_ELIDED,
        flatten(value).len() <= MAX_ELIDED ==> elide_spec(value) == flatten(value),
        flatten(value).len() > MAX_ELIDED ==> {
            &&& elide_spec(value).len() == MAX_ELIDED
            &&& elide_spec(value).take(MAX_ELIDED - 3) == flatten(value).take(MAX_ELIDED - 3)
            &&& elide_spec(value).skip(MAX_ELIDED - 3) == "..."@
        },
{
    reveal_strlit("...");
    let f = flatten(value);
    if f.len() > MAX_ELIDED {
        let e = elide_spec(value);
        assert(e.take(MAX_ELIDED - 3) =~= f.take(MAX_ELIDED - 3));
        assert(e.skip(MAX_ELIDED - 3) =~= "..."@);
    }
}

} // verus!
