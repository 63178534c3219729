//! Presenting a conflict as something a person can read.
//!
//! Conflict markers say *that* two branches disagreed. They do not say what
//! about, which in a scene file can mean scrolling past forty unchanged
//! properties to find the one that matters. Both renderings here put the two
//! sides next to each other and point at the rows that actually differ.
use vstd::prelude::*;

use crate::doc::is_white_space;
use crate::merge::{Conflict, ConflictRow};
use crate::show::{flatten, shown, shown_spec};
use crate::text::{chars_of, decimal, decimal_text, push_str};

verus! {

broadcast use vstd::string::group_string_axioms;

pub open spec fn shown_of(s: Seq<char>) -> Seq<char> {
    shown_spec(flatten(s))
}

/// One value as a report shows it: bounded, on one line, an id always whole.
/// Absence is explicit, because "the node is not on this side" is the whole
/// story of a delete against a modify.
pub open spec fn cell_spec(v: Option<String>) -> Seq<char> {
    match v {
        Some(s) => shown_of(s@),
        None => "(absent)"@,
    }
}

fn cell(value: &Option<String>) -> (r: String)
    ensures
        r@ == cell_spec(*value),
{
    match value {
        Some(s) => shown(s.as_str()),
        None => "(absent)".to_owned(),
    }
}

pub open spec fn header_cells() -> Seq<Seq<char>> {
    seq![""@, "property"@, "base"@, "ours"@, "theirs"@]
}

pub open spec fn row_cells(r: ConflictRow) -> Seq<Seq<char>> {
    seq![
        if r.differs {
            ">"@
        } else {
            ""@
        },
        shown_of(r.key@),
        cell_spec(r.base),
        cell_spec(r.ours),
        cell_spec(r.theirs),
    ]
}

/// The widest entry of column `i`, header included.
pub open spec fn col_width(rows: Seq<ConflictRow>, i: int) -> nat
    decreases rows.len(),
{
    if rows.len() == 0 {
        header_cells()[i].len()
    } else {
        let w = col_width(rows.drop_last(), i);
        let c = row_cells(rows.last())[i].len();
        if c > w {
            c
        } else {
            w
        }
    }
}

pub open spec fn spaces(n: nat) -> Seq<char> {
    Seq::new(n, |_i: int| ' ')
}

pub open spec fn dashes(n: nat) -> Seq<char> {
    Seq::new(n, |_i: int| '-')
}

pub open spec fn pad(c: Seq<char>, w: nat) -> Seq<char> {
    c + spaces((w - c.len()) as nat)
}

/// `s` without its trailing white space.
pub open spec fn trim_end(s: Seq<char>) -> Seq<char>
    decreases s.len(),
{
    if s.len() > 0 && is_white_space(s.last()) {
        trim_end(s.drop_last())
    } else {
        s
    }
}

/// The padded columns joined with two spaces.
pub open spec fn joined(cols: Seq<Seq<char>>, widths: Seq<nat>, k: int) -> Seq<char>
    decreases k,
{
    if k <= 1 {
        pad(cols[0], widths[0])
    } else {
        joined(cols, widths, k - 1) + "  "@ + pad(cols[k - 1], widths[k - 1])
    }
}

pub open spec fn line_spec(cols: Seq<Seq<char>>, widths: Seq<nat>) -> Seq<char> {
    "  "@ + trim_end(joined(cols, widths, 5)) + "\n"@
}

pub open spec fn widths_of(rows: Seq<ConflictRow>) -> Seq<nat> {
    Seq::new(5, |i: int| col_width(rows, i))
}

pub open spec fn rule_cells(widths: Seq<nat>) -> Seq<Seq<char>> {
    seq![""@, dashes(widths[1]), dashes(widths[2]), dashes(widths[3]), dashes(widths[4])]
}

pub open spec fn body_lines(rows: Seq<ConflictRow>, widths: Seq<nat>) -> Seq<char>
    decreases rows.len(),
{
    if rows.len() == 0 {
        seq![]
    } else {
        body_lines(rows.drop_last(), widths) + line_spec(row_cells(rows.last()), widths)
    }
}

/// The rows of a conflict as a table: a heading, a rule under each headed
/// column, and one line per row, every column as wide as its widest entry.
pub open spec fn rows_spec(rows: Seq<ConflictRow>) -> Seq<char> {
    let w = widths_of(rows);
    line_spec(header_cells(), w) + line_spec(rule_cells(w), w) + body_lines(rows, w)
}

fn char_count(s: &str) -> (n: usize)
    ensures
        n == s@.len(),
{
    chars_of(s).len()
}

fn repeat_char(c: char, n: usize) -> (r: String)
    ensures
        r@ == Seq::new(n as nat, |_i: int| c),
{
    let mut out = String::new();
    let mut i: usize = 0;
    while i < n
        invariant
            i <= n,
            out@ == Seq::new(i as nat, |_i: int| c),
        decreases n - i,
    {
        out.push(c);
        i += 1;
        proof {
            assert(out@ =~= Seq::new(i as nat, |_i: int| c));
        }
    }
    out
}

fn trim_end_exec(s: &Vec<char>) -> (r: usize)
    ensures
        r <= s@.len(),
        trim_end(s@) == s@.subrange(0, r as int),
{
    let mut k = s.len();
    proof {
        assert(s@.subrange(0, k as int) =~= s@);
    }
    while k > 0 && crate::doc::exec_is_white_space(s[k - 1])
        invariant
            k <= s@.len(),
            trim_end(s@) == trim_end(s@.subrange(0, k as int)),
        decreases k,
    {
        proof {
            assert(s@.subrange(0, k as int).drop_last() =~= s@.subrange(0, k - 1));
        }
        k -= 1;
    }
    k
}

/// Appends one table line.
fn push_line(out: &mut String, cols: &Vec<String>, widths: &Vec<usize>)
    requires
        cols@.len() == 5,
        widths@.len() == 5,
        forall|i: int| 0 <= i < 5 ==> cols@[i]@.len() <= widths@[i],
    ensures
        final(out)@ == old(out)@ + line_spec(
            Seq::new(5, |i: int| cols@[i]@),
            Seq::new(5, |i: int| widths@[i] as nat),
        ),
{
    let ghost cv = Seq::new(5, |i: int| cols@[i]@);
    let ghost wv = Seq::new(5, |i: int| widths@[i] as nat);
    let mut line = String::new();
    let mut k: usize = 0;
    while k < 5
        invariant
            k <= 5,
            cols@.len() == 5,
            widths@.len() == 5,
            cv == Seq::new(5, |i: int| cols@[i]@),
            wv == Seq::new(5, |i: int| widths@[i] as nat),
            forall|i: int| 0 <= i < 5 ==> cols@[i]@.len() <= widths@[i],
            k > 0 ==> line@ == joined(cv, wv, k as int),
            k == 0 ==> line@.len() == 0,
        decreases 5 - k,
    {
        if k > 0 {
            push_str(&mut line, "  ");
        }
        let c = &cols[k];
        let n = char_count(c.as_str());
        push_str(&mut line, c.as_str());
        let fill = repeat_char(' ', widths[k] - n);
        push_str(&mut line, fill.as_str());
        proof {
            assert(spaces((wv[k as int] - cv[k as int].len()) as nat) =~= fill@);
            if k == 0 {
                assert(line@ =~= joined(cv, wv, 1));
            } else {
                assert(line@ =~= joined(cv, wv, k + 1));
            }
        }
        k += 1;
    }
    let cs = chars_of(line.as_str());
    let keep = trim_end_exec(&cs);
    push_str(out, "  ");
    crate::text::push_chars(out, cs.as_slice(), 0, keep);
    out.push('\n');
    proof {
        reveal_strlit("\n");
        assert(out@ =~= old(out)@ + line_spec(cv, wv));
    }
}

fn row_strings(r: &ConflictRow) -> (v: Vec<String>)
    ensures
        v@.len() == 5,
        forall|i: int| 0 <= i < 5 ==> v@[i]@ == row_cells(*r)[i],
{
    let mut v: Vec<String> = Vec::new();
    v.push(if r.differs {
        ">".to_owned()
    } else {
        String::new()
    });
    v.push(shown(r.key.as_str()));
    v.push(cell(&r.base));
    v.push(cell(&r.ours));
    v.push(cell(&r.theirs));
    proof {
        reveal_strlit("");
    }
    v
}

fn render_rows(out: &mut String, rows: &Vec<ConflictRow>)
    ensures
        final(out)@ == old(out)@ + rows_spec(rows@),
{
    proof {
        reveal_strlit("");
        reveal_strlit("property");
        reveal_strlit("base");
        reveal_strlit("ours");
        reveal_strlit("theirs");
    }
    let mut header: Vec<String> = Vec::new();
    header.push(String::new());
    header.push("property".to_owned());
    header.push("base".to_owned());
    header.push("ours".to_owned());
    header.push("theirs".to_owned());
    let mut widths: Vec<usize> = Vec::new();
    let mut k: usize = 0;
    while k < 5
        invariant
            k <= 5,
            header@.len() == 5,
            forall|i: int| 0 <= i < 5 ==> header@[i]@ == header_cells()[i],
            widths@.len() == k,
            forall|i: int| 0 <= i < k ==> widths@[i] == col_width(rows@.take(0), i),
        decreases 5 - k,
    {
        widths.push(char_count(header[k].as_str()));
        k += 1;
    }
    let mut cells: Vec<Vec<String>> = Vec::new();
    let mut j: usize = 0;
    while j < rows.len()
        invariant
            j <= rows@.len(),
            widths@.len() == 5,
            cells@.len() == j,
            forall|m: int| 0 <= m < j ==> (#[trigger] cells@[m])@.len() == 5 && forall|i: int|
                0 <= i < 5 ==> cells@[m]@[i]@ == row_cells(rows@[m])[i],
            forall|i: int| 0 <= i < 5 ==> widths@[i] == col_width(rows@.take(j as int), i),
        decreases rows@.len() - j,
    {
        let row = row_strings(&rows[j]);
        let mut i: usize = 0;
        while i < 5
            invariant
                i <= 5,
                j < rows@.len(),
                widths@.len() == 5,
                row@.len() == 5,
                forall|x: int| 0 <= x < 5 ==> row@[x]@ == row_cells(rows@[j as int])[x],
                forall|x: int| 0 <= x < i ==> widths@[x] == col_width(rows@.take(j + 1), x),
                forall|x: int| i <= x < 5 ==> widths@[x] == col_width(rows@.take(j as int), x),
            decreases 5 - i,
        {
            proof {
                assert(rows@.take(j + 1).drop_last() =~= rows@.take(j as int));
                assert(rows@.take(j + 1).last() == rows@[j as int]);
            }
            let n = char_count(row[i].as_str());
            if n > widths[i] {
                widths.set(i, n);
            }
            i += 1;
        }
        cells.push(row);
        j += 1;
    }
    proof {
        assert(rows@.take(j as int) =~= rows@);
    }
    let ghost w = widths_of(rows@);
    proof {
        assert(Seq::new(5, |i: int| widths@[i] as nat) =~= w);
        assert(Seq::new(5, |i: int| header@[i]@) =~= header_cells());
        assert forall|i: int| 0 <= i < 5 implies header@[i]@.len() <= widths@[i] by {
            lemma_col_width_header(rows@, i);
        }
    }
    push_line(out, &header, &widths);
    let mut rule: Vec<String> = Vec::new();
    rule.push(String::new());
    let mut i: usize = 1;
    while i < 5
        invariant
            1 <= i <= 5,
            widths@.len() == 5,
            rule@.len() == i,
            rule@[0]@ == ""@,
            forall|x: int| 1 <= x < i ==> rule@[x]@ == dashes(widths@[x] as nat),
        decreases 5 - i,
    {
        rule.push(repeat_char('-', widths[i]));
        i += 1;
    }
    proof {
        assert(Seq::new(5, |i: int| rule@[i]@) =~= rule_cells(w));
    }
    push_line(out, &rule, &widths);
    let ghost before_body = out@;
    let mut j: usize = 0;
    while j < cells.len()
        invariant
            j <= cells@.len(),
            cells@.len() == rows@.len(),
            widths@.len() == 5,
            w == Seq::new(5, |i: int| widths@[i] as nat),
            w == widths_of(rows@),
            forall|m: int| 0 <= m < cells@.len() ==> (#[trigger] cells@[m])@.len() == 5 && forall|i: int|
                0 <= i < 5 ==> cells@[m]@[i]@ == row_cells(rows@[m])[i],
            out@ == before_body + body_lines(rows@.take(j as int), w),
        decreases cells@.len() - j,
    {
        proof {
            assert(rows@.take(j + 1).drop_last() =~= rows@.take(j as int));
            assert(Seq::new(5, |i: int| cells@[j as int]@[i]@) =~= row_cells(rows@[j as int]));
            assert forall|i: int| 0 <= i < 5 implies cells@[j as int]@[i]@.len() <= widths@[i] by {
                lemma_col_width_row(rows@, j as int, i);
                assert(w[i] == widths@[i] as nat);
                assert(w[i] == col_width(rows@, i));
                assert(cells@[j as int]@[i]@ == row_cells(rows@[j as int])[i]);
            }
        }
        push_line(out, &cells[j], &widths);
        j += 1;
    }
    proof {
        assert(rows@.take(j as int) =~= rows@);
        assert(out@ =~= old(out)@ + rows_spec(rows@));
    }
}

proof fn lemma_col_width_header(rows: Seq<ConflictRow>, i: int)
    ensures
        header_cells()[i].len() <= col_width(rows, i),
    decreases rows.len(),
{
    if rows.len() > 0 {
        lemma_col_width_header(rows.drop_last(), i);
    }
}

proof fn lemma_col_width_row(rows: Seq<ConflictRow>, j: int, i: int)
    requires
        0 <= j < rows.len(),
    ensures
        row_cells(rows[j])[i].len() <= col_width(rows, i),
    decreases rows.len(),
{
    if j < rows.len() - 1 {
        lemma_col_width_row(rows.drop_last(), j, i);
    }
}

pub open spec fn footer() -> Seq<char> {
    "Rows marked with > are the ones to resolve. Edit the file, remove the conflict\nmarkers, then stage it.\n"@
}

pub open spec fn conflict_block(c: Conflict, i: int, n: int) -> Seq<char> {
    (if i > 0 {
        "\n"@
    } else {
        seq![]
    }) + "Conflict "@ + decimal((i + 1) as nat) + " of "@ + decimal(n as nat) + ": "@ + shown_of(c.entity@) + "\n"@
        + "  "@ + shown_of(c.detail@) + "\n"@ + "\n"@ + rows_spec(c.rows@)
}

pub open spec fn blocks(cs: Seq<Conflict>, k: int, n: int) -> Seq<char>
    decreases k,
{
    if k <= 0 {
        seq![]
    } else {
        blocks(cs, k - 1, n) + conflict_block(cs[k - 1], k - 1, n)
    }
}

/// The full side-by-side table, for a terminal.
pub open spec fn table_spec(cs: Seq<Conflict>) -> Seq<char> {
    blocks(cs, cs.len() as int, cs.len() as int) + if cs.len() == 0 {
        seq![]
    } else {
        "\n"@ + footer()
    }
}

pub open spec fn block_head(c: Conflict, i: int, n: int) -> Seq<char> {
    (if i > 0 {
        "\n"@
    } else {
        seq![]
    }) + "Conflict "@ + decimal((i + 1) as nat) + " of "@ + decimal(n as nat) + ": "@ + shown_of(c.entity@) + "\n"@
}

fn push_head(out: &mut String, c: &Conflict, i: usize, n: usize)
    requires
        i < n,
    ensures
        final(out)@ == old(out)@ + block_head(*c, i as int, n as int),
{
    let mut h = String::new();
    if i > 0 {
        push_str(&mut h, "\n");
    }
    let ghost h0 = h@;
    push_str(&mut h, "Conflict ");
    let a = decimal_text(i + 1);
    push_str(&mut h, a.as_str());
    push_str(&mut h, " of ");
    let b = decimal_text(n);
    push_str(&mut h, b.as_str());
    push_str(&mut h, ": ");
    let e = shown(c.entity.as_str());
    push_str(&mut h, e.as_str());
    push_str(&mut h, "\n");
    proof {
        assert(h@ =~= block_head(*c, i as int, n as int));
    }
    push_str(out, h.as_str());
}

fn push_block(out: &mut String, c: &Conflict, i: usize, n: usize)
    requires
        i < n,
    ensures
        final(out)@ == old(out)@ + conflict_block(*c, i as int, n as int),
{
    let ghost o = out@;
    push_head(out, c, i, n);
    let ghost o1 = out@;
    let mut t = String::new();
    push_str(&mut t, "  ");
    let d = shown(c.detail.as_str());
    push_str(&mut t, d.as_str());
    push_str(&mut t, "\n");
    push_str(&mut t, "\n");
    push_str(out, t.as_str());
    let ghost o2 = out@;
    render_rows(out, &c.rows);
    proof {
        assert(o2 == o1 + ("  "@ + shown_of(c.detail@) + "\n"@ + "\n"@));
        assert(conflict_block(*c, i as int, n as int) =~= block_head(*c, i as int, n as int) + ("  "@ + shown_of(c.detail@) + "\n"@ + "\n"@) + rows_spec(c.rows@));
        assert(out@ =~= o + conflict_block(*c, i as int, n as int));
    }
}

/// The full side-by-side table, for a terminal.
///
/// Names go through [`shown`] like values: a node name or a property key is
/// text a scene file may make as long as it likes, and a report that printed
/// one whole would be unbounded through its identities instead of its values.
pub fn table(conflicts: &Vec<Conflict>) -> (r: String)
    ensures
        r@ == table_spec(conflicts@),
{
    let mut out = String::new();
    let n = conflicts.len();
    let mut i: usize = 0;
    while i < n
        invariant
            i <= n,
            n == conflicts@.len(),
            out@ == blocks(conflicts@, i as int, n as int),
        decreases n - i,
    {
        push_block(&mut out, &conflicts[i], i, n);
        i += 1;
    }
    if n == 0 {
        return out;
    }
    push_str(&mut out, "\n");
    push_str(
        &mut out,
        "Rows marked with > are the ones to resolve. Edit the file, remove the conflict\nmarkers, then stage it.\n",
    );
    proof {
        assert(out@ =~= table_spec(conflicts@));
    }
    out
}

pub open spec fn plain_rows(rows: Seq<ConflictRow>) -> Seq<char>
    decreases rows.len(),
{
    if rows.len() == 0 {
        seq![]
    } else {
        let r = rows.last();
        plain_rows(rows.drop_last()) + plain_row(r)
    }
}

/// A compact rendering for the merge driver, which writes to standard error
/// while git is running and should stay quiet about what already agrees.
pub open spec fn plain_spec(cs: Seq<Conflict>) -> Seq<char>
    decreases cs.len(),
{
    if cs.len() == 0 {
        seq![]
    } else {
        let c = cs.last();
        plain_spec(cs.drop_last()) + "gdmerge: conflict in "@ + shown_of(c.entity@) + " ("@ + shown_of(c.detail@)
            + ")\n"@ + plain_rows(c.rows@)
    }
}

pub open spec fn plain_row(r: ConflictRow) -> Seq<char> {
    if r.differs {
        "gdmerge:   "@ + shown_of(r.key@) + ": ours "@ + cell_spec(r.ours) + " / theirs "@ + cell_spec(r.theirs) + "\n"@
    } else {
        seq![]
    }
}

fn push_plain_row(out: &mut String, row: &ConflictRow)
    ensures
        final(out)@ == old(out)@ + plain_row(*row),
{
    if row.differs {
        let mut l = String::new();
        push_str(&mut l, "gdmerge:   ");
        let k = shown(row.key.as_str());
        push_str(&mut l, k.as_str());
        push_str(&mut l, ": ours ");
        let o = cell(&row.ours);
        push_str(&mut l, o.as_str());
        push_str(&mut l, " / theirs ");
        let t = cell(&row.theirs);
        push_str(&mut l, t.as_str());
        push_str(&mut l, "\n");
        push_str(out, l.as_str());
    } else {
        proof {
            assert(old(out)@ + plain_row(*row) =~= old(out)@);
        }
    }
}

pub fn plain(conflicts: &Vec<Conflict>) -> (r: String)
    ensures
        r@ == plain_spec(conflicts@),
{
    let mut out = String::new();
    let mut i: usize = 0;
    while i < conflicts.len()
        invariant
            i <= conflicts@.len(),
            out@ == plain_spec(conflicts@.take(i as int)),
        decreases conflicts@.len() - i,
    {
        proof {
            assert(conflicts@.take(i + 1).drop_last() =~= conflicts@.take(i as int));
        }
        let c = &conflicts[i];
        push_str(&mut out, "gdmerge: conflict in ");
        let e = shown(c.entity.as_str());
        push_str(&mut out, e.as_str());
        push_str(&mut out, " (");
        let d = shown(c.detail.as_str());
        push_str(&mut out, d.as_str());
        push_str(&mut out, ")\n");
        let ghost head = out@;
        let mut j: usize = 0;
        while j < c.rows.len()
            invariant
                j <= c.rows@.len(),
                out@ == head + plain_rows(c.rows@.take(j as int)),
            decreases c.rows@.len() - j,
        {
            proof {
                assert(c.rows@.take(j + 1).drop_last() =~= c.rows@.take(j as int));
            }
            push_plain_row(&mut out, &c.rows[j]);
            proof {
                assert(out@ =~= head + plain_rows(c.rows@.take(j + 1)));
            }
            j += 1;
        }
        proof {
            assert(c.rows@.take(j as int) =~= c.rows@);
            assert(out@ =~= plain_spec(conflicts@.take(i + 1)));
        }
        i += 1;
    }
    proof {
        assert(conflicts@.take(i as int) =~= conflicts@);
    }
    out
}

} // verus!
