//! Text fallback for files that cannot be merged semantically.
//!
//! The safety contract is that a merge never does worse than git would. When
//! git's own `merge-file` cannot be run, this minimal three-way line merge
//! stands in for it: a side that did not change yields the other side, and
//! anything else is one conflict holding both sides whole.
use vstd::prelude::*;

use crate::text::{chars_of, push_str, str_eq};

verus! {

broadcast use vstd::string::group_string_axioms;

/// The result of a text merge.
#[derive(Debug)]
pub struct Fallback {
    pub text: String,
    /// Number of conflicted hunks; zero means the merge was clean.
    pub conflicts: usize,
}

/// For each change of the line diff `similar` computes from `old` to `new`
/// with its default settings (Myers, no deadline), whether it changes a line
/// (a deletion or an insertion) rather than keeping one.
pub uninterp spec fn line_changes(old: Seq<char>, new: Seq<char>) -> Seq<bool>;

/// `similar::TextDiff::from_lines(old, new).iter_all_changes()`, each change
/// reduced to whether its tag is not `ChangeTag::Equal`. The diff depends on
/// the two texts alone (no deadline is configured), so its result is named;
/// nothing more is claimed of it.
#[verifier::external_body]
fn line_diff(old: &str, new: &str) -> (r: Vec<bool>)
    ensures
        r@ == line_changes(old@, new@),
{
    let diff = similar::TextDiff::from_lines(old, new);
    let mut out = Vec::new();
    for change in diff.iter_all_changes() {
        out.push(match change.tag() {
            similar::ChangeTag::Equal => false,
            similar::ChangeTag::Delete => true,
            similar::ChangeTag::Insert => true,
        });
    }
    out
}

/// How many of the flags are set.
pub open spec fn count_true(s: Seq<bool>) -> nat
    decreases s.len(),
{
    if s.len() == 0 {
        0
    } else {
        count_true(s.drop_last()) + if s.last() {
            1nat
        } else {
            0nat
        }
    }
}

/// How many lines a line diff from `a` to `b` deletes or inserts.
fn changed_lines(a: &str, b: &str) -> (n: usize)
    ensures
        n == count_true(line_changes(a@, b@)),
{
    let flags = line_diff(a, b);
    let mut n: usize = 0;
    let mut i: usize = 0;
    while i < flags.len()
        invariant
            i <= flags@.len(),
            flags@ == line_changes(a@, b@),
            n == count_true(flags@.take(i as int)),
            n <= i,
        decreases flags@.len() - i,
    {
        proof {
            assert(flags@.take(i + 1).drop_last() =~= flags@.take(i as int));
        }
        if flags[i] {
            n += 1;
        }
        i += 1;
    }
    proof {
        assert(flags@.take(i as int) =~= flags@);
    }
    n
}

pub open spec fn repeat(c: char, n: nat) -> Seq<char> {
    Seq::new(n, |_i: int| c)
}

/// `s` followed by a line feed unless it already ends with one.
pub open spec fn line_ended(s: Seq<char>) -> Seq<char> {
    if s.len() > 0 && s.last() == '\n' {
        s
    } else {
        s.push('\n')
    }
}

/// Both sides whole, between conflict markers of `m` characters.
pub open spec fn conflict_text(o: Seq<char>, t: Seq<char>, m: nat, ours_label: Seq<char>, theirs_label: Seq<char>) -> Seq<
    char,
> {
    repeat('<', m) + seq![' '] + ours_label + seq!['\n'] + line_ended(o) + repeat('=', m) + seq!['\n']
        + line_ended(t) + repeat('>', m) + seq![' '] + theirs_label + seq!['\n']
}

/// The minimal three-way line merge: the text and the number of conflicts.
pub open spec fn line_merge_spec(
    b: Seq<char>,
    o: Seq<char>,
    t: Seq<char>,
    m: nat,
    ours_label: Seq<char>,
    theirs_label: Seq<char>,
) -> (Seq<char>, nat) {
    if o == t {
        (o, 0)
    } else if b == o {
        (t, 0)
    } else if b == t {
        (o, 0)
    } else if count_true(line_changes(b, o)) == 0 {
        (t, 0)
    } else if count_true(line_changes(b, t)) == 0 {
        (o, 0)
    } else {
        (conflict_text(o, t, m, ours_label, theirs_label), 1)
    }
}

fn push_repeat(out: &mut String, c: char, n: usize)
    ensures
        final(out)@ == old(out)@ + repeat(c, n as nat),
{
    let mut i: usize = 0;
    while i < n
        invariant
            i <= n,
            out@ == old(out)@ + repeat(c, i as nat),
        decreases n - i,
    {
        out.push(c);
        i += 1;
        proof {
            assert(out@ =~= old(out)@ + repeat(c, i as nat));
        }
    }
}

fn push_line_ended(out: &mut String, s: &str)
    ensures
        final(out)@ == old(out)@ + line_ended(s@),
{
    push_str(out, s);
    let cs = chars_of(s);
    if !(cs.len() > 0 && cs[cs.len() - 1] == '\n') {
        out.push('\n');
    }
    proof {
        assert(out@ =~= old(out)@ + line_ended(s@));
    }
}

/// Minimal three-way line merge of the three texts, used when `git` is not
/// available.
pub fn line_merge(
    base: &str,
    ours: &str,
    theirs: &str,
    marker_size: usize,
    ours_label: &str,
    theirs_label: &str,
) -> (r: Fallback)
    ensures
        (r.text@, r.conflicts as nat) == line_merge_spec(
            base@,
            ours@,
            theirs@,
            marker_size as nat,
            ours_label@,
            theirs_label@,
        ),
{
    if str_eq(ours, theirs) {
        return Fallback { text: ours.to_owned(), conflicts: 0 };
    }
    if str_eq(base, ours) {
        return Fallback { text: theirs.to_owned(), conflicts: 0 };
    }
    if str_eq(base, theirs) {
        return Fallback { text: ours.to_owned(), conflicts: 0 };
    }
    let changed_ours = changed_lines(base, ours);
    let changed_theirs = changed_lines(base, theirs);
    if changed_ours == 0 {
        return Fallback { text: theirs.to_owned(), conflicts: 0 };
    }
    if changed_theirs == 0 {
        return Fallback { text: ours.to_owned(), conflicts: 0 };
    }
    let mut text = String::new();
    push_repeat(&mut text, '<', marker_size);
    text.push(' ');
    push_str(&mut text, ours_label);
    text.push('\n');
    push_line_ended(&mut text, ours);
    push_repeat(&mut text, '=', marker_size);
    text.push('\n');
    push_line_ended(&mut text, theirs);
    push_repeat(&mut text, '>', marker_size);
    text.push(' ');
    push_str(&mut text, theirs_label);
    text.push('\n');
    proof {
        assert(text@ =~= conflict_text(ours@, theirs@, marker_size as nat, ours_label@, theirs_label@));
    }
    Fallback { text, conflicts: 1 }
}

/// A side that did not change yields the other side whole: the text merge
/// never rewrites what only one branch touched.
pub proof fn lemma_unchanged_side_yields_the_other(
    b: Seq<char>,
    o: Seq<char>,
    t: Seq<char>,
    m: nat,
    ol: Seq<char>,
    tl: Seq<char>,
)
    ensures
        b == o ==> line_merge_spec(b, o, t, m, ol, tl) == (t, 0nat),
        b == t ==> line_merge_spec(b, o, t, m, ol, tl) == (o, 0nat),
        o == t ==> line_merge_spec(b, o, t, m, ol, tl) == (o, 0nat),
{
}

} // verus!
