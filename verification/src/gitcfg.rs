//! The attribute lines that point git at the merge driver: adding them to an
//! attributes file's text, and taking them out again, leaving everything else
//! as it was.
use vstd::prelude::*;

use crate::doc::is_white_space;
use crate::text::{chars_of, push_str, str_eq};

verus! {

broadcast use vstd::string::group_string_axioms;

/// The comment line written above the rules.
pub open spec fn marker() -> Seq<char> {
    "# gdmerge"@
}

/// The rules that route scene and resource files to the driver.
pub open spec fn wanted() -> Seq<Seq<char>> {
    seq!["*.tscn merge=gdmerge"@, "*.tres merge=gdmerge"@]
}

/// Splitting on line feeds one character at a time: the lines finished so far
/// and the line being read.
pub open spec fn line_state(s: Seq<char>) -> (Seq<Seq<char>>, Seq<char>)
    decreases s.len(),
{
    if s.len() == 0 {
        (seq![], seq![])
    } else {
        let (done, cur) = line_state(s.drop_last());
        if s.last() == '\n' {
            (done.push(cur), seq![])
        } else {
            (done, cur.push(s.last()))
        }
    }
}

/// A line without the carriage return of a CRLF ending.
pub open spec fn strip_cr(l: Seq<char>) -> Seq<char> {
    if l.len() > 0 && l.last() == '\r' {
        l.drop_last()
    } else {
        l
    }
}

/// The lines of `s` as `str::lines` gives them: split at line feeds, a final
/// empty line dropped, and a carriage return before each line feed removed.
pub open spec fn lines_spec(s: Seq<char>) -> Seq<Seq<char>> {
    let (done, cur) = line_state(s);
    let all = if cur.len() > 0 {
        done.push(cur)
    } else {
        done
    };
    Seq::new(all.len(), |i: int| strip_cr(all[i]))
}

/// `s` without white space at either end.
pub open spec fn trim_start(s: Seq<char>) -> Seq<char>
    decreases s.len(),
{
    if s.len() > 0 && is_white_space(s[0]) {
        trim_start(s.drop_first())
    } else {
        s
    }
}

pub open spec fn trim_end(s: Seq<char>) -> Seq<char>
    decreases s.len(),
{
    if s.len() > 0 && is_white_space(s.last()) {
        trim_end(s.drop_last())
    } else {
        s
    }
}

pub open spec fn trim(s: Seq<char>) -> Seq<char> {
    trim_end(trim_start(s))
}

fn lines(s: &str) -> (r: Vec<Vec<char>>)
    ensures
        r@.len() == lines_spec(s@).len(),
        forall|i: int| 0 <= i < r@.len() ==> (#[trigger] r@[i])@ == lines_spec(s@)[i],
{
    let cs = chars_of(s);
    let mut done: Vec<Vec<char>> = Vec::new();
    let mut cur: Vec<char> = Vec::new();
    let mut i: usize = 0;
    while i < cs.len()
        invariant
            i <= cs@.len(),
            cs@ == s@,
            line_state(cs@.take(i as int)) == (Seq::new(done@.len(), |k: int| done@[k]@), cur@),
        decreases cs@.len() - i,
    {
        proof {
            assert(cs@.take(i + 1).drop_last() =~= cs@.take(i as int));
        }
        if cs[i] == '\n' {
            let ghost d = done@;
            let ghost c = cur@;
            done.push(cur);
            cur = Vec::new();
            proof {
                assert(Seq::new(done@.len(), |k: int| done@[k]@) =~= Seq::new(d.len(), |k: int| d[k]@).push(c));
            }
        } else {
            cur.push(cs[i]);
        }
        i += 1;
    }
    proof {
        assert(cs@.take(i as int) =~= cs@);
    }
    if cur.len() > 0 {
        let ghost d = done@;
        let ghost c = cur@;
        done.push(cur);
        proof {
            assert(Seq::new(done@.len(), |k: int| done@[k]@) =~= Seq::new(d.len(), |k: int| d[k]@).push(c));
        }
    }
    let mut out: Vec<Vec<char>> = Vec::new();
    let mut k: usize = 0;
    let ghost all = Seq::new(done@.len(), |m: int| done@[m]@);
    while k < done.len()
        invariant
            k <= done@.len(),
            all == Seq::new(done@.len(), |m: int| done@[m]@),
            out@.len() == k,
            forall|m: int| 0 <= m < k ==> (#[trigger] out@[m])@ == strip_cr(all[m]),
        decreases done@.len() - k,
    {
        let l = &done[k];
        let mut line: Vec<char> = Vec::new();
        let n = if l.len() > 0 && l[l.len() - 1] == '\r' {
            l.len() - 1
        } else {
            l.len()
        };
        let mut j: usize = 0;
        while j < n
            invariant
                j <= n <= l@.len(),
                line@ == l@.subrange(0, j as int),
            decreases n - j,
        {
            line.push(l[j]);
            j += 1;
        }
        proof {
            assert(line@ =~= strip_cr(all[k as int]));
        }
        out.push(line);
        k += 1;
    }
    out
}

fn trimmed(l: &Vec<char>) -> (r: Vec<char>)
    ensures
        r@ == trim(l@),
{
    let n = l.len();
    let mut a: usize = 0;
    proof {
        assert(l@.subrange(0, n as int) =~= l@);
    }
    while a < n && crate::doc::exec_is_white_space(l[a])
        invariant
            a <= n == l@.len(),
            trim_start(l@) == trim_start(l@.subrange(a as int, n as int)),
        decreases n - a,
    {
        proof {
            assert(l@.subrange(a as int, n as int).drop_first() =~= l@.subrange(a + 1, n as int));
        }
        a += 1;
    }
    proof {
        if a < n {
            assert(l@.subrange(a as int, n as int)[0] == l@[a as int]);
        }
    }
    let mut b: usize = n;
    proof {
        assert(l@.subrange(a as int, n as int) =~= l@.subrange(a as int, b as int));
    }
    while b > a && crate::doc::exec_is_white_space(l[b - 1])
        invariant
            a <= b <= n == l@.len(),
            trim_end(l@.subrange(a as int, n as int)) == trim_end(l@.subrange(a as int, b as int)),
        decreases b,
    {
        proof {
            assert(l@.subrange(a as int, b as int).drop_last() =~= l@.subrange(a as int, b - 1));
        }
        b -= 1;
    }
    proof {
        if b > a {
            assert(l@.subrange(a as int, b as int).last() == l@[b - 1]);
        }
    }
    let mut r: Vec<char> = Vec::new();
    let mut k = a;
    while k < b
        invariant
            a <= k <= b <= l@.len(),
            r@ == l@.subrange(a as int, k as int),
        decreases b - k,
    {
        r.push(l[k]);
        k += 1;
    }
    r
}

fn chars_eq(a: &Vec<char>, b: &str) -> (r: bool)
    ensures
        r == (a@ == b@),
{
    let mut s = String::new();
    crate::text::push_chars(&mut s, a.as_slice(), 0, a.len());
    proof {
        assert(a@.subrange(0, a@.len() as int) =~= a@);
    }
    str_eq(s.as_str(), b)
}

/// Whether some line of the text, trimmed, is `rule`.
pub open spec fn has_rule(ls: Seq<Seq<char>>, rule: Seq<char>) -> bool {
    exists|i: int| 0 <= i < ls.len() && trim(#[trigger] ls[i]) == rule
}

fn has_line(ls: &Vec<Vec<char>>, rule: &str) -> (r: bool)
    ensures
        r == exists|i: int| 0 <= i < ls@.len() && trim((#[trigger] ls@[i])@) == rule@,
{
    let mut i: usize = 0;
    while i < ls.len()
        invariant
            i <= ls@.len(),
            forall|k: int| 0 <= k < i ==> trim((#[trigger] ls@[k])@) != rule@,
        decreases ls@.len() - i,
    {
        let t = trimmed(&ls[i]);
        if chars_eq(&t, rule) {
            return true;
        }
        i += 1;
    }
    false
}

/// The attributes text with the rules appended, or `None` when every rule is
/// already there.
pub open spec fn add_rules_spec(existing: Seq<char>) -> Option<Seq<char>> {
    let ls = lines_spec(existing);
    if has_rule(ls, wanted()[0]) && has_rule(ls, wanted()[1]) {
        None
    } else {
        let sep = if existing.len() > 0 && existing.last() != '\n' {
            seq!['\n', '\n']
        } else if existing.len() > 0 {
            seq!['\n']
        } else {
            seq![]
        };
        Some(existing + sep + marker() + seq!['\n'] + wanted()[0] + seq!['\n'] + wanted()[1] + seq!['\n'])
    }
}

/// Appends the rules, leaving any existing content untouched; `None` when they
/// were all already present.
pub fn add_rules(existing: &str) -> (r: Option<String>)
    ensures
        match add_rules_spec(existing@) {
            Some(t) => r matches Some(x) && x@ == t,
            None => r is None,
        },
{
    let ls = lines(existing);
    let ghost spec_ls = lines_spec(existing@);
    proof {
        assert(Seq::new(ls@.len(), |i: int| ls@[i]@) =~= spec_ls);
    }
    let has_tscn = has_line(&ls, "*.tscn merge=gdmerge");
    let has_tres = has_line(&ls, "*.tres merge=gdmerge");
    proof {
        if has_tscn {
            let i = choose|i: int| 0 <= i < ls@.len() && trim((#[trigger] ls@[i])@) == "*.tscn merge=gdmerge"@;
            assert(spec_ls[i] == ls@[i]@);
        }
        if has_tres {
            let i = choose|i: int| 0 <= i < ls@.len() && trim((#[trigger] ls@[i])@) == "*.tres merge=gdmerge"@;
            assert(spec_ls[i] == ls@[i]@);
        }
        if has_rule(spec_ls, wanted()[0]) {
            let i = choose|i: int| 0 <= i < spec_ls.len() && trim(#[trigger] spec_ls[i]) == wanted()[0];
            assert(trim(ls@[i]@) == wanted()[0]);
        }
        if has_rule(spec_ls, wanted()[1]) {
            let i = choose|i: int| 0 <= i < spec_ls.len() && trim(#[trigger] spec_ls[i]) == wanted()[1];
            assert(trim(ls@[i]@) == wanted()[1]);
        }
    }
    if has_tscn && has_tres {
        return None;
    }
    let cs = chars_of(existing);
    let mut out = existing.to_owned();
    if cs.len() > 0 && cs[cs.len() - 1] != '\n' {
        out.push('\n');
    }
    if cs.len() > 0 {
        out.push('\n');
    }
    push_str(&mut out, "# gdmerge");
    out.push('\n');
    push_str(&mut out, "*.tscn merge=gdmerge");
    out.push('\n');
    push_str(&mut out, "*.tres merge=gdmerge");
    out.push('\n');
    proof {
        assert(out@ =~= add_rules_spec(existing@)->0);
    }
    Some(out)
}

/// Whether a line is one the rules wrote.
pub open spec fn is_rule_line(l: Seq<char>) -> bool {
    trim(l) == marker() || trim(l) == wanted()[0] || trim(l) == wanted()[1]
}

pub open spec fn kept_lines(ls: Seq<Seq<char>>) -> Seq<Seq<char>>
    decreases ls.len(),
{
    if ls.len() == 0 {
        seq![]
    } else {
        kept_lines(ls.drop_last()) + if is_rule_line(ls.last()) {
            seq![]
        } else {
            seq![ls.last()]
        }
    }
}

/// Lines joined with line feeds between them.
pub open spec fn join_lines(ls: Seq<Seq<char>>) -> Seq<char>
    decreases ls.len(),
{
    if ls.len() == 0 {
        seq![]
    } else if ls.len() == 1 {
        ls[0]
    } else {
        join_lines(ls.drop_last()) + seq!['\n'] + ls.last()
    }
}

/// `s` without the line feeds at its end.
pub open spec fn trim_newlines(s: Seq<char>) -> Seq<char>
    decreases s.len(),
{
    if s.len() > 0 && s.last() == '\n' {
        trim_newlines(s.drop_last())
    } else {
        s
    }
}

/// The attributes text without the lines the rules wrote, or `None` when it
/// has none of them.
pub open spec fn remove_rules_spec(existing: Seq<char>) -> Option<Seq<char>> {
    let ls = lines_spec(existing);
    let kept = kept_lines(ls);
    if kept.len() == ls.len() {
        None
    } else {
        let t = trim_newlines(join_lines(kept));
        Some(
            if t.len() == 0 {
                seq![]
            } else {
                t.push('\n')
            },
        )
    }
}

/// Removes the lines `add_rules` wrote and nothing else; `None` when there
/// were none.
pub fn remove_rules(existing: &str) -> (r: Option<String>)
    ensures
        match remove_rules_spec(existing@) {
            Some(t) => r matches Some(x) && x@ == t,
            None => r is None,
        },
{
    let ls = lines(existing);
    let ghost spec_ls = lines_spec(existing@);
    proof {
        assert(Seq::new(ls@.len(), |i: int| ls@[i]@) =~= spec_ls);
    }
    let mut out: Vec<char> = Vec::new();
    let mut kept: usize = 0;
    let mut i: usize = 0;
    while i < ls.len()
        invariant
            i <= ls@.len(),
            spec_ls == Seq::new(ls@.len(), |m: int| ls@[m]@),
            kept == kept_lines(spec_ls.take(i as int)).len(),
            kept <= i,
            out@ == join_lines(kept_lines(spec_ls.take(i as int))),
        decreases ls@.len() - i,
    {
        proof {
            assert(spec_ls.take(i + 1).drop_last() =~= spec_ls.take(i as int));
            assert(spec_ls.take(i + 1).last() == ls@[i as int]@);
        }
        let t = trimmed(&ls[i]);
        let rule = chars_eq(&t, "# gdmerge") || chars_eq(&t, "*.tscn merge=gdmerge") || chars_eq(
            &t,
            "*.tres merge=gdmerge",
        );
        if !rule {
            let ghost before = kept_lines(spec_ls.take(i as int));
            if kept > 0 {
                out.push('\n');
            }
            let l = &ls[i];
            let mut j: usize = 0;
            let ghost o = out@;
            while j < l.len()
                invariant
                    j <= l@.len(),
                    out@ == o + l@.subrange(0, j as int),
                decreases l@.len() - j,
            {
                out.push(l[j]);
                j += 1;
            }
            proof {
                assert(l@.subrange(0, j as int) =~= l@);
                let after = kept_lines(spec_ls.take(i + 1));
                assert(after =~= before.push(ls@[i as int]@));
                if before.len() == 0 {
                    assert(out@ =~= join_lines(after));
                } else {
                    assert(after.drop_last() =~= before);
                    assert(out@ =~= join_lines(after));
                }
            }
            kept += 1;
        } else {
            proof {
                assert(kept_lines(spec_ls.take(i + 1)) =~= kept_lines(spec_ls.take(i as int)));
            }
        }
        i += 1;
    }
    proof {
        assert(spec_ls.take(i as int) =~= spec_ls);
    }
    if kept == ls.len() {
        return None;
    }
    let mut end = out.len();
    proof {
        assert(out@.subrange(0, end as int) =~= out@);
    }
    while end > 0 && out[end - 1] == '\n'
        invariant
            end <= out@.len(),
            trim_newlines(out@) == trim_newlines(out@.subrange(0, end as int)),
        decreases end,
    {
        proof {
            assert(out@.subrange(0, end as int).drop_last() =~= out@.subrange(0, end - 1));
        }
        end -= 1;
    }
    let mut text = String::new();
    if end > 0 {
        crate::text::push_chars(&mut text, out.as_slice(), 0, end);
        text.push('\n');
    }
    proof {
        if end > 0 {
            assert(out@.subrange(0, end as int).last() != '\n');
        }
        assert(text@ =~= remove_rules_spec(existing@)->0);
    }
    Some(text)
}

/// A line the rules wrote: the marker comment or one of the two rules, white
/// space around it aside.
pub open spec fn written_by_rules(l: Seq<char>) -> bool {
    let t = trim(l);
    t == "# gdmerge"@ || t == "*.tscn merge=gdmerge"@ || t == "*.tres merge=gdmerge"@
}

proof fn lemma_kept_is_filter(ls: Seq<Seq<char>>)
    ensures
        kept_lines(ls) == ls.filter(|l: Seq<char>| !written_by_rules(l)),
    decreases ls.len(),
{
    reveal(Seq::filter);
    if ls.len() > 0 {
        lemma_kept_is_filter(ls.drop_last());
        assert(is_rule_line(ls.last()) == written_by_rules(ls.last()));
        if is_rule_line(ls.last()) {
            assert(kept_lines(ls) =~= kept_lines(ls.drop_last()));
        } else {
            assert(kept_lines(ls) =~= kept_lines(ls.drop_last()).push(ls.last()));
        }
    }
}

proof fn lemma_kept_len(ls: Seq<Seq<char>>)
    ensures
        kept_lines(ls).len() <= ls.len(),
        kept_lines(ls).len() == ls.len() <==> forall|i: int| 0 <= i < ls.len() ==> !written_by_rules(#[trigger] ls[i]),
    decreases ls.len(),
{
    if ls.len() > 0 {
        let d = ls.drop_last();
        lemma_kept_len(d);
        assert(is_rule_line(ls.last()) == written_by_rules(ls.last()));
        if forall|i: int| 0 <= i < ls.len() ==> !written_by_rules(#[trigger] ls[i]) {
            assert forall|i: int| 0 <= i < d.len() implies !written_by_rules(#[trigger] d[i]) by {
                assert(d[i] == ls[i]);
            }
            assert(!written_by_rules(ls[ls.len() - 1]));
        } else {
            let i = choose|i: int| 0 <= i < ls.len() && written_by_rules(#[trigger] ls[i]);
            if i < ls.len() - 1 {
                assert(d[i] == ls[i]);
            }
        }
    }
}

/// Removing the rules takes out exactly the lines they wrote: the result is
/// every other line of the file, blank ones included, in order (trailing line
/// feeds folded into one); a file that holds none of those lines is left
/// alone.
pub proof fn lemma_remove_rules_drops_only_rule_lines(existing: Seq<char>)
    ensures
        (remove_rules_spec(existing) is None) <==> forall|i: int|
            0 <= i < lines_spec(existing).len() ==> !written_by_rules(#[trigger] lines_spec(existing)[i]),
        remove_rules_spec(existing) matches Some(out) ==> {
            let t = trim_newlines(join_lines(lines_spec(existing).filter(|l: Seq<char>| !written_by_rules(l))));
            out == if t.len() == 0 {
                seq![]
            } else {
                t.push('\n')
            }
        },
{
    let ls = lines_spec(existing);
    lemma_kept_is_filter(ls);
    lemma_kept_len(ls);
}

/// Adding the rules leaves the existing text untouched and appends, after at
/// most a line feed to end its last line and one blank line, the marker and
/// the two rules, each on a line of its own; nothing is added where both
/// rules are already there.
pub proof fn lemma_add_rules_appends(existing: Seq<char>)
    ensures
        (add_rules_spec(existing) is None) <==> ((exists|i: int|
            0 <= i < lines_spec(existing).len() && trim(#[trigger] lines_spec(existing)[i])
                == "*.tscn merge=gdmerge"@) && (exists|i: int|
            0 <= i < lines_spec(existing).len() && trim(#[trigger] lines_spec(existing)[i])
                == "*.tres merge=gdmerge"@)),
        add_rules_spec(existing) matches Some(out) ==> {
            let tail = "# gdmerge\n*.tscn merge=gdmerge\n*.tres merge=gdmerge\n"@;
            &&& out.len() >= existing.len() + tail.len()
            &&& out.subrange(0, existing.len() as int) == existing
            &&& out.subrange(out.len() - tail.len(), out.len() as int) == tail
            &&& out.len() - existing.len() - tail.len() <= 2
            &&& forall|k: int| existing.len() <= k < out.len() - tail.len() ==> out[k] == '\n'
        },
{
    reveal_strlit("# gdmerge\n*.tscn merge=gdmerge\n*.tres merge=gdmerge\n");
    reveal_strlit("# gdmerge");
    reveal_strlit("*.tscn merge=gdmerge");
    reveal_strlit("*.tres merge=gdmerge");
    if let Some(out) = add_rules_spec(existing) {
        let sep = if existing.len() > 0 && existing.last() != '\n' {
            seq!['\n', '\n']
        } else if existing.len() > 0 {
            seq!['\n']
        } else {
            seq![]
        };
        let tail = "# gdmerge\n*.tscn merge=gdmerge\n*.tres merge=gdmerge\n"@;
        let rules = marker() + seq!['\n'] + wanted()[0] + seq!['\n'] + wanted()[1] + seq!['\n'];
        assert(rules =~= tail);
        assert(out =~= existing + sep + tail);
        assert(out.subrange(0, existing.len() as int) =~= existing);
        assert(out.subrange(out.len() - tail.len(), out.len() as int) =~= tail);
    }
}

} // verus!
