//! The canonical, whitespace-independent spelling of a value, used wherever two
//! documents are compared.
//!
//! Resource ids are resolved through key tables, so two files that spell the
//! same resource with different ids still compare equal. Numbers are spelled
//! by the table of number forms a caller supplies: the form of a literal is the
//! shortest spelling of the floating-point number it denotes, which is
//! floating-point arithmetic and is computed outside this library.
use vstd::prelude::*;

use crate::doc::{Document, Field, Property, Section};
use crate::text::{chars_of, push_str, str_eq};
use crate::value::{
    entry_views, lemma_entry_views_push, lemma_prop_views_push, lemma_views_index,
    lemma_views_len, lemma_views_push, prop_views, ref_kind, ref_kind_spec, string_views, views,
    RefKind, Value, ValueView,
};

verus! {

broadcast use vstd::string::group_string_axioms;

/// A table of string pairs, as the specifications see it.
pub type Table = Seq<(Seq<char>, Seq<char>)>;

pub open spec fn table_view(t: Seq<(String, String)>) -> Table {
    Seq::new(t.len(), |i: int| (t[i].0@, t[i].1@))
}

/// What a table holds under `k`: the entry written last wins, as with a map
/// that is filled in order.
pub open spec fn table_get(t: Table, k: Seq<char>) -> Option<Seq<char>>
    decreases t.len(),
{
    if t.len() == 0 {
        None
    } else if t.last().0 == k {
        Some(t.last().1)
    } else {
        table_get(t.drop_last(), k)
    }
}

pub proof fn lemma_table_view_push(t: Seq<(String, String)>, e: (String, String))
    ensures
        table_view(t.push(e)) == table_view(t).push((e.0@, e.1@)),
{
    assert(table_view(t.push(e)) =~= table_view(t).push((e.0@, e.1@)));
}

pub proof fn lemma_table_get_push(t: Table, e: (Seq<char>, Seq<char>), k: Seq<char>)
    ensures
        table_get(t.push(e), k) == if e.0 == k {
            Some(e.1)
        } else {
            table_get(t, k)
        },
{
    assert(t.push(e).drop_last() =~= t);
}

/// The entry of `t` under `k`, the one written last.
pub fn lookup<'a>(t: &'a Vec<(String, String)>, k: &str) -> (r: Option<&'a String>)
    ensures
        match r {
            Some(v) => table_get(table_view(t@), k@) == Some(v@),
            None => table_get(table_view(t@), k@) is None,
        },
{
    let ghost tv = table_view(t@);
    let mut i = t.len();
    proof {
        assert(tv.take(i as int) =~= tv);
    }
    while i > 0
        invariant
            i <= t@.len(),
            tv == table_view(t@),
            table_get(tv, k@) == table_get(tv.take(i as int), k@),
        decreases i,
    {
        i -= 1;
        proof {
            assert(tv.take(i + 1).drop_last() =~= tv.take(i as int));
        }
        if str_eq(t[i].0.as_str(), k) {
            return Some(&t[i].1);
        }
    }
    None
}

/// The text `{s:?}` formats: `s` quoted, with quotes, backslashes and
/// characters that do not print escaped.
pub uninterp spec fn debug_quoted(s: Seq<char>) -> Seq<char>;

/// `<str as Debug>::fmt` through `format!("{:?}")`. Its result depends on `s`
/// alone; what it is on a given string is left to std's documentation.
#[verifier::external_body]
fn debug_quote(s: &str) -> (r: String)
    ensures
        r@ == debug_quoted(s@),
{
    format!("{s:?}")
}

/// The canonical spelling of every number literal a document may hold.
///
/// The canonical form of a literal is the shortest text that reads back as the
/// same floating-point number (so `1`, `1.0` and `1.0e0` agree), which is
/// floating-point arithmetic; the caller computes it. A literal missing from
/// the table stands for itself.
#[derive(Debug)]
pub struct NumberForms {
    /// `(literal, canonical form)` pairs.
    pub forms: Vec<(String, String)>,
}

impl NumberForms {
    pub open spec fn table(&self) -> Table {
        table_view(self.forms@)
    }

    /// A table that leaves every literal as it is written.
    pub fn none() -> (r: NumberForms)
        ensures
            r.table().len() == 0,
    {
        NumberForms { forms: Vec::new() }
    }
}

pub open spec fn number_form(nums: Table, lit: Seq<char>) -> Seq<char> {
    match table_get(nums, lit) {
        Some(f) => f,
        None => lit,
    }
}

pub open spec fn lower_char(c: char) -> char {
    if 'A' <= c && c <= 'Z' {
        (((c as u32) + 32) as u32) as char
    } else {
        c
    }
}

/// `s` with ASCII capitals made small.
pub open spec fn ascii_lower(s: Seq<char>) -> Seq<char> {
    Seq::new(s.len(), |i: int| lower_char(s[i]))
}

fn to_ascii_lower(s: &str) -> (r: String)
    ensures
        r@ == ascii_lower(s@),
{
    let cs = chars_of(s);
    let mut out = String::new();
    let mut i: usize = 0;
    while i < cs.len()
        invariant
            i <= cs@.len(),
            cs@ == s@,
            out@ == ascii_lower(s@).take(i as int),
        decreases cs@.len() - i,
    {
        let c = cs[i];
        if 'A' <= c && c <= 'Z' {
            let code = (c as u32) + 32;
            match char::from_u32(code) {
                Some(d) => {
                    proof {
                        vstd::utf8::char_u32_cast(d, code);
                        assert(lower_char(c) == d);
                    }
                    out.push(d);
                },
                None => {},
            }
        } else {
            out.push(c);
        }
        proof {
            assert(ascii_lower(s@).take(i + 1) =~= ascii_lower(s@).take(i as int).push(
                lower_char(c),
            ));
        }
        i += 1;
    }
    proof {
        assert(ascii_lower(s@).take(i as int) =~= ascii_lower(s@));
    }
    out
}

/// The key a reference resolves to; an id no declaration carries stays as it
/// is, marked, so the difference still shows.
pub open spec fn resolve_key(ext: Table, sub: Table, kind: RefKind, id: Seq<char>) -> Seq<char> {
    let t = match kind {
        RefKind::Ext => ext,
        RefKind::Sub => sub,
    };
    match table_get(t, id) {
        Some(k) => k,
        None => "?"@ + id,
    }
}

/// Whether a call is a resource reference that canonicalises to its key.
pub open spec fn is_key_ref(name: Seq<char>, args: Seq<ValueView>) -> bool {
    ref_kind_spec(name) is Some && args.len() == 1 && args[0] is Str
}

/// The canonical text of a value.
pub open spec fn canon(v: ValueView, ext: Table, sub: Table, nums: Table) -> Seq<char>
    decreases v,
{
    match v {
        ValueView::Ident(s) => s,
        ValueView::Num(s) => number_form(nums, s),
        ValueView::Str(s) => debug_quoted(s),
        ValueView::Name(s) => "&"@ + debug_quoted(s),
        ValueView::Color(s) => "#"@ + ascii_lower(s),
        ValueView::Array(items) => "["@ + canon_list(items, ext, sub, nums) + "]"@,
        ValueView::Dict(entries) => "{"@ + canon_entries(entries, ext, sub, nums) + "}"@,
        ValueView::Call { name, args } => if is_key_ref(name, args) {
            name + "("@ + debug_quoted(
                resolve_key(ext, sub, ref_kind_spec(name)->Some_0, args[0]->Str_0),
            ) + ")"@
        } else {
            name + "("@ + canon_list(args, ext, sub, nums) + ")"@
        },
        ValueView::TypedArray { ty, items } => "Array["@ + canon(*ty, ext, sub, nums) + "](["@
            + canon_list(items, ext, sub, nums) + "])"@,
        ValueView::TypedDict { key, val, entries } => "Dictionary["@ + canon(*key, ext, sub, nums)
            + ","@ + canon(*val, ext, sub, nums) + "]({"@ + canon_entries(entries, ext, sub, nums)
            + "})"@,
        ValueView::Object { ty, props } => "Object("@ + ty + canon_props(props, ext, sub, nums)
            + ")"@,
    }
}

/// Items separated by commas.
pub open spec fn canon_list(s: Seq<ValueView>, ext: Table, sub: Table, nums: Table) -> Seq<char>
    decreases s,
{
    if s.len() == 0 {
        seq![]
    } else {
        canon_list(s.drop_last(), ext, sub, nums) + (if s.len() > 1 {
            ","@
        } else {
            seq![]
        }) + canon(s.last(), ext, sub, nums)
    }
}

/// `key:value` entries separated by commas.
pub open spec fn canon_entries(
    s: Seq<(ValueView, ValueView)>,
    ext: Table,
    sub: Table,
    nums: Table,
) -> Seq<char>
    decreases s,
{
    if s.len() == 0 {
        seq![]
    } else {
        canon_entries(s.drop_last(), ext, sub, nums) + (if s.len() > 1 {
            ","@
        } else {
            seq![]
        }) + canon(s.last().0, ext, sub, nums) + ":"@ + canon(s.last().1, ext, sub, nums)
    }
}

/// `,"name":value` for each property of an object literal.
pub open spec fn canon_props(
    s: Seq<(Seq<char>, ValueView)>,
    ext: Table,
    sub: Table,
    nums: Table,
) -> Seq<char>
    decreases s,
{
    if s.len() == 0 {
        seq![]
    } else {
        canon_props(s.drop_last(), ext, sub, nums) + ","@ + debug_quoted(s.last().0) + ":"@ + canon(
            s.last().1,
            ext,
            sub,
            nums,
        )
    }
}

/// Two pairs of id tables resolve every reference alike.
pub open spec fn same_resolution(ext1: Table, sub1: Table, ext2: Table, sub2: Table) -> bool {
    forall|k: RefKind, id: Seq<char>| #[trigger] resolve_key(ext1, sub1, k, id) == resolve_key(ext2, sub2, k, id)
}

/// The canonical form of a value depends on the id tables only through how
/// they resolve references: tables that resolve every id alike give the same
/// text.
pub proof fn lemma_canon_by_resolution(v: ValueView, ext1: Table, sub1: Table, ext2: Table, sub2: Table, nums: Table)
    requires
        same_resolution(ext1, sub1, ext2, sub2),
    ensures
        canon(v, ext1, sub1, nums) == canon(v, ext2, sub2, nums),
    decreases v,
{
    match v {
        ValueView::Array(items) => lemma_canon_list_by_resolution(items, ext1, sub1, ext2, sub2, nums),
        ValueView::Dict(entries) => lemma_canon_entries_by_resolution(entries, ext1, sub1, ext2, sub2, nums),
        ValueView::Call { name, args } => {
            if is_key_ref(name, args) {
                assert(resolve_key(ext1, sub1, ref_kind_spec(name)->Some_0, args[0]->Str_0) == resolve_key(
                    ext2,
                    sub2,
                    ref_kind_spec(name)->Some_0,
                    args[0]->Str_0,
                ));
            } else {
                lemma_canon_list_by_resolution(args, ext1, sub1, ext2, sub2, nums);
            }
        },
        ValueView::TypedArray { ty, items } => {
            lemma_canon_by_resolution(*ty, ext1, sub1, ext2, sub2, nums);
            lemma_canon_list_by_resolution(items, ext1, sub1, ext2, sub2, nums);
        },
        ValueView::TypedDict { key, val, entries } => {
            lemma_canon_by_resolution(*key, ext1, sub1, ext2, sub2, nums);
            lemma_canon_by_resolution(*val, ext1, sub1, ext2, sub2, nums);
            lemma_canon_entries_by_resolution(entries, ext1, sub1, ext2, sub2, nums);
        },
        ValueView::Object { ty, props } => lemma_canon_props_by_resolution(props, ext1, sub1, ext2, sub2, nums),
        _ => {},
    }
}

proof fn lemma_canon_list_by_resolution(
    s: Seq<ValueView>,
    ext1: Table,
    sub1: Table,
    ext2: Table,
    sub2: Table,
    nums: Table,
)
    requires
        same_resolution(ext1, sub1, ext2, sub2),
    ensures
        canon_list(s, ext1, sub1, nums) == canon_list(s, ext2, sub2, nums),
    decreases s,
{
    if s.len() > 0 {
        lemma_canon_list_by_resolution(s.drop_last(), ext1, sub1, ext2, sub2, nums);
        lemma_canon_by_resolution(s.last(), ext1, sub1, ext2, sub2, nums);
    }
}

proof fn lemma_canon_entries_by_resolution(
    s: Seq<(ValueView, ValueView)>,
    ext1: Table,
    sub1: Table,
    ext2: Table,
    sub2: Table,
    nums: Table,
)
    requires
        same_resolution(ext1, sub1, ext2, sub2),
    ensures
        canon_entries(s, ext1, sub1, nums) == canon_entries(s, ext2, sub2, nums),
    decreases s,
{
    if s.len() > 0 {
        lemma_canon_entries_by_resolution(s.drop_last(), ext1, sub1, ext2, sub2, nums);
        lemma_canon_by_resolution(s.last().0, ext1, sub1, ext2, sub2, nums);
        lemma_canon_by_resolution(s.last().1, ext1, sub1, ext2, sub2, nums);
    }
}

proof fn lemma_canon_props_by_resolution(
    s: Seq<(Seq<char>, ValueView)>,
    ext1: Table,
    sub1: Table,
    ext2: Table,
    sub2: Table,
    nums: Table,
)
    requires
        same_resolution(ext1, sub1, ext2, sub2),
    ensures
        canon_props(s, ext1, sub1, nums) == canon_props(s, ext2, sub2, nums),
    decreases s,
{
    if s.len() > 0 {
        lemma_canon_props_by_resolution(s.drop_last(), ext1, sub1, ext2, sub2, nums);
        lemma_canon_by_resolution(s.last().1, ext1, sub1, ext2, sub2, nums);
    }
}

/// `v2` is `v1` with the id of each reference that names one by a single
/// string possibly changed, where the id in `v1` resolves under `ext1` and
/// `sub1` to what the id in `v2` resolves to under `ext2` and `sub2`; nothing
/// else differs.
pub open spec fn ids_alike(v1: ValueView, v2: ValueView, ext1: Table, sub1: Table, ext2: Table, sub2: Table) -> bool
    decreases v1,
{
    match v1 {
        ValueView::Array(items) => v2 matches ValueView::Array(items2) && list_alike(
            items,
            items2,
            ext1,
            sub1,
            ext2,
            sub2,
        ),
        ValueView::Dict(entries) => v2 matches ValueView::Dict(entries2) && entries_alike(
            entries,
            entries2,
            ext1,
            sub1,
            ext2,
            sub2,
        ),
        ValueView::Call { name, args } => v2 matches ValueView::Call { name: name2, args: args2 } && name2 == name
            && is_key_ref(name2, args2) == is_key_ref(name, args) && if is_key_ref(name, args) {
            resolve_key(ext1, sub1, ref_kind_spec(name)->Some_0, args[0]->Str_0) == resolve_key(
                ext2,
                sub2,
                ref_kind_spec(name)->Some_0,
                args2[0]->Str_0,
            )
        } else {
            list_alike(args, args2, ext1, sub1, ext2, sub2)
        },
        ValueView::TypedArray { ty, items } => v2 matches ValueView::TypedArray { ty: ty2, items: items2 }
            && ids_alike(*ty, *ty2, ext1, sub1, ext2, sub2) && list_alike(items, items2, ext1, sub1, ext2, sub2),
        ValueView::TypedDict { key, val, entries } => v2 matches ValueView::TypedDict {
            key: key2,
            val: val2,
            entries: entries2,
        } && ids_alike(*key, *key2, ext1, sub1, ext2, sub2) && ids_alike(*val, *val2, ext1, sub1, ext2, sub2)
            && entries_alike(entries, entries2, ext1, sub1, ext2, sub2),
        ValueView::Object { ty, props } => v2 matches ValueView::Object { ty: ty2, props: props2 } && ty2 == ty
            && props_alike(props, props2, ext1, sub1, ext2, sub2),
        _ => v2 == v1,
    }
}

pub open spec fn list_alike(
    s1: Seq<ValueView>,
    s2: Seq<ValueView>,
    ext1: Table,
    sub1: Table,
    ext2: Table,
    sub2: Table,
) -> bool
    decreases s1,
{
    if s1.len() == 0 {
        s2.len() == 0
    } else {
        &&& s2.len() == s1.len()
        &&& list_alike(s1.drop_last(), s2.drop_last(), ext1, sub1, ext2, sub2)
        &&& ids_alike(s1.last(), s2.last(), ext1, sub1, ext2, sub2)
    }
}

pub open spec fn entries_alike(
    s1: Seq<(ValueView, ValueView)>,
    s2: Seq<(ValueView, ValueView)>,
    ext1: Table,
    sub1: Table,
    ext2: Table,
    sub2: Table,
) -> bool
    decreases s1,
{
    if s1.len() == 0 {
        s2.len() == 0
    } else {
        &&& s2.len() == s1.len()
        &&& entries_alike(s1.drop_last(), s2.drop_last(), ext1, sub1, ext2, sub2)
        &&& ids_alike(s1.last().0, s2.last().0, ext1, sub1, ext2, sub2)
        &&& ids_alike(s1.last().1, s2.last().1, ext1, sub1, ext2, sub2)
    }
}

pub open spec fn props_alike(
    s1: Seq<(Seq<char>, ValueView)>,
    s2: Seq<(Seq<char>, ValueView)>,
    ext1: Table,
    sub1: Table,
    ext2: Table,
    sub2: Table,
) -> bool
    decreases s1,
{
    if s1.len() == 0 {
        s2.len() == 0
    } else {
        &&& s2.len() == s1.len()
        &&& props_alike(s1.drop_last(), s2.drop_last(), ext1, sub1, ext2, sub2)
        &&& s2.last().0 == s1.last().0
        &&& ids_alike(s1.last().1, s2.last().1, ext1, sub1, ext2, sub2)
    }
}

/// Two values that differ only in ids that resolve alike have the same
/// canonical text: what a reference is called in one file does not matter,
/// only what it resolves to.
pub proof fn lemma_canon_of_renamed(
    v1: ValueView,
    v2: ValueView,
    ext1: Table,
    sub1: Table,
    ext2: Table,
    sub2: Table,
    nums: Table,
)
    requires
        ids_alike(v1, v2, ext1, sub1, ext2, sub2),
    ensures
        canon(v1, ext1, sub1, nums) == canon(v2, ext2, sub2, nums),
    decreases v1,
{
    match v1 {
        ValueView::Array(items) => {
            let items2 = v2->Array_0;
            lemma_list_of_renamed(items, items2, ext1, sub1, ext2, sub2, nums);
        },
        ValueView::Dict(entries) => {
            let entries2 = v2->Dict_0;
            lemma_entries_of_renamed(entries, entries2, ext1, sub1, ext2, sub2, nums);
        },
        ValueView::Call { name, args } => {
            if !is_key_ref(name, args) {
                lemma_list_of_renamed(args, v2->Call_args, ext1, sub1, ext2, sub2, nums);
            }
        },
        ValueView::TypedArray { ty, items } => {
            lemma_canon_of_renamed(*ty, *(v2->TypedArray_ty), ext1, sub1, ext2, sub2, nums);
            lemma_list_of_renamed(items, v2->TypedArray_items, ext1, sub1, ext2, sub2, nums);
        },
        ValueView::TypedDict { key, val, entries } => {
            lemma_canon_of_renamed(*key, *(v2->TypedDict_key), ext1, sub1, ext2, sub2, nums);
            lemma_canon_of_renamed(*val, *(v2->TypedDict_val), ext1, sub1, ext2, sub2, nums);
            lemma_entries_of_renamed(entries, v2->TypedDict_entries, ext1, sub1, ext2, sub2, nums);
        },
        ValueView::Object { ty, props } => {
            lemma_props_of_renamed(props, v2->Object_props, ext1, sub1, ext2, sub2, nums);
        },
        _ => {},
    }
}

proof fn lemma_list_of_renamed(
    s1: Seq<ValueView>,
    s2: Seq<ValueView>,
    ext1: Table,
    sub1: Table,
    ext2: Table,
    sub2: Table,
    nums: Table,
)
    requires
        list_alike(s1, s2, ext1, sub1, ext2, sub2),
    ensures
        canon_list(s1, ext1, sub1, nums) == canon_list(s2, ext2, sub2, nums),
    decreases s1,
{
    if s1.len() > 0 {
        lemma_list_of_renamed(s1.drop_last(), s2.drop_last(), ext1, sub1, ext2, sub2, nums);
        lemma_canon_of_renamed(s1.last(), s2.last(), ext1, sub1, ext2, sub2, nums);
    }
}

proof fn lemma_entries_of_renamed(
    s1: Seq<(ValueView, ValueView)>,
    s2: Seq<(ValueView, ValueView)>,
    ext1: Table,
    sub1: Table,
    ext2: Table,
    sub2: Table,
    nums: Table,
)
    requires
        entries_alike(s1, s2, ext1, sub1, ext2, sub2),
    ensures
        canon_entries(s1, ext1, sub1, nums) == canon_entries(s2, ext2, sub2, nums),
    decreases s1,
{
    if s1.len() > 0 {
        lemma_entries_of_renamed(s1.drop_last(), s2.drop_last(), ext1, sub1, ext2, sub2, nums);
        lemma_canon_of_renamed(s1.last().0, s2.last().0, ext1, sub1, ext2, sub2, nums);
        lemma_canon_of_renamed(s1.last().1, s2.last().1, ext1, sub1, ext2, sub2, nums);
    }
}

proof fn lemma_props_of_renamed(
    s1: Seq<(Seq<char>, ValueView)>,
    s2: Seq<(Seq<char>, ValueView)>,
    ext1: Table,
    sub1: Table,
    ext2: Table,
    sub2: Table,
    nums: Table,
)
    requires
        props_alike(s1, s2, ext1, sub1, ext2, sub2),
    ensures
        canon_props(s1, ext1, sub1, nums) == canon_props(s2, ext2, sub2, nums),
    decreases s1,
{
    if s1.len() > 0 {
        lemma_props_of_renamed(s1.drop_last(), s2.drop_last(), ext1, sub1, ext2, sub2, nums);
        lemma_canon_of_renamed(s1.last().1, s2.last().1, ext1, sub1, ext2, sub2, nums);
    }
}

/// Appends the canonical text of `v` to `out`.
pub fn write_canonical(
    v: &Value,
    out: &mut String,
    ext: &Vec<(String, String)>,
    sub: &Vec<(String, String)>,
    nums: &NumberForms,
)
    ensures
        final(out)@ == old(out)@ + canon(v@, table_view(ext@), table_view(sub@), nums.table()),
    decreases v,
{
    let ghost (e, s, n) = (table_view(ext@), table_view(sub@), nums.table());
    let ghost start = out@;
    match v {
        Value::Ident(t) => push_str(out, t.as_str()),
        Value::Num(t) => {
            match lookup(&nums.forms, t.as_str()) {
                Some(f) => push_str(out, f.as_str()),
                None => push_str(out, t.as_str()),
            }
        },
        Value::Str(t) => {
            let q = debug_quote(t.as_str());
            push_str(out, q.as_str());
        },
        Value::Name(t) => {
            push_str(out, "&");
            let q = debug_quote(t.as_str());
            push_str(out, q.as_str());
        },
        Value::Color(t) => {
            push_str(out, "#");
            let l = to_ascii_lower(t.as_str());
            push_str(out, l.as_str());
        },
        Value::Array(items) => {
            push_str(out, "[");
            write_list(items, out, ext, sub, nums);
            push_str(out, "]");
        },
        Value::Dict(entries) => {
            push_str(out, "{");
            write_entries(entries, out, ext, sub, nums);
            push_str(out, "}");
        },
        Value::Call { name, args } => {
            proof {
                lemma_views_len(args@);
                if args@.len() > 0 {
                    lemma_views_index(args@, 0);
                }
            }
            let kind = ref_kind(name.as_str());
            let mut done = false;
            if let Some(k) = kind {
                if args.len() == 1 {
                    if let Value::Str(id) = &args[0] {
                        let table = match k {
                            RefKind::Ext => ext,
                            RefKind::Sub => sub,
                        };
                        let mut key = String::new();
                        match lookup(table, id.as_str()) {
                            Some(found) => push_str(&mut key, found.as_str()),
                            None => {
                                push_str(&mut key, "?");
                                push_str(&mut key, id.as_str());
                            },
                        }
                        push_str(out, name.as_str());
                        push_str(out, "(");
                        let q = debug_quote(key.as_str());
                        push_str(out, q.as_str());
                        push_str(out, ")");
                        done = true;
                    }
                }
            }
            if !done {
                push_str(out, name.as_str());
                push_str(out, "(");
                write_list(args, out, ext, sub, nums);
                push_str(out, ")");
            }
        },
        Value::TypedArray { ty, items } => {
            push_str(out, "Array[");
            write_canonical(ty, out, ext, sub, nums);
            push_str(out, "]([");
            write_list(items, out, ext, sub, nums);
            push_str(out, "])");
        },
        Value::TypedDict { key, val, entries } => {
            push_str(out, "Dictionary[");
            write_canonical(key, out, ext, sub, nums);
            push_str(out, ",");
            write_canonical(val, out, ext, sub, nums);
            push_str(out, "]({");
            write_entries(entries, out, ext, sub, nums);
            push_str(out, "})");
        },
        Value::Object { ty, props } => {
            push_str(out, "Object(");
            push_str(out, ty.as_str());
            write_props(props, out, ext, sub, nums);
            push_str(out, ")");
        },
    }
    proof {
        assert(out@ =~= start + canon(v@, e, s, n));
    }
}

fn write_list(
    items: &Vec<Value>,
    out: &mut String,
    ext: &Vec<(String, String)>,
    sub: &Vec<(String, String)>,
    nums: &NumberForms,
)
    ensures
        final(out)@ == old(out)@ + canon_list(
            views(items@),
            table_view(ext@),
            table_view(sub@),
            nums.table(),
        ),
    decreases items,
{
    let ghost (e, s, n) = (table_view(ext@), table_view(sub@), nums.table());
    let ghost start = out@;
    let mut i: usize = 0;
    while i < items.len()
        invariant
            i <= items@.len(),
            e == table_view(ext@),
            s == table_view(sub@),
            n == nums.table(),
            out@ == start + canon_list(views(items@.take(i as int)), e, s, n),
        decreases items@.len() - i,
    {
        proof {
            assert(items@.take(i + 1) =~= items@.take(i as int).push(items@[i as int]));
            lemma_views_push(items@.take(i as int), items@[i as int]);
            assert(views(items@.take(i + 1)).drop_last() =~= views(items@.take(i as int)));
            lemma_views_len(items@.take(i as int));
        }
        if i > 0 {
            push_str(out, ",");
        }
        write_canonical(&items[i], out, ext, sub, nums);
        proof {
            assert(out@ =~= start + canon_list(views(items@.take(i + 1)), e, s, n));
        }
        i += 1;
    }
    proof {
        assert(items@.take(i as int) =~= items@);
    }
}

fn write_entries(
    entries: &Vec<(Value, Value)>,
    out: &mut String,
    ext: &Vec<(String, String)>,
    sub: &Vec<(String, String)>,
    nums: &NumberForms,
)
    ensures
        final(out)@ == old(out)@ + canon_entries(
            entry_views(entries@),
            table_view(ext@),
            table_view(sub@),
            nums.table(),
        ),
    decreases entries,
{
    let ghost (e, s, n) = (table_view(ext@), table_view(sub@), nums.table());
    let ghost start = out@;
    let mut i: usize = 0;
    while i < entries.len()
        invariant
            i <= entries@.len(),
            e == table_view(ext@),
            s == table_view(sub@),
            n == nums.table(),
            out@ == start + canon_entries(entry_views(entries@.take(i as int)), e, s, n),
        decreases entries@.len() - i,
    {
        proof {
            assert(entries@.take(i + 1) =~= entries@.take(i as int).push(entries@[i as int]));
            lemma_entry_views_push(entries@.take(i as int), entries@[i as int]);
            assert(entry_views(entries@.take(i + 1)).drop_last() =~= entry_views(
                entries@.take(i as int),
            ));
            lemma_entry_views_len(entries@.take(i as int));
        }
        if i > 0 {
            push_str(out, ",");
        }
        write_canonical(&entries[i].0, out, ext, sub, nums);
        push_str(out, ":");
        write_canonical(&entries[i].1, out, ext, sub, nums);
        proof {
            assert(out@ =~= start + canon_entries(entry_views(entries@.take(i + 1)), e, s, n));
        }
        i += 1;
    }
    proof {
        assert(entries@.take(i as int) =~= entries@);
    }
}

proof fn lemma_entry_views_len(s: Seq<(Value, Value)>)
    ensures
        entry_views(s).len() == s.len(),
    decreases s.len(),
{
    if s.len() > 0 {
        lemma_entry_views_len(s.drop_last());
    }
}

fn write_props(
    props: &Vec<(String, Value)>,
    out: &mut String,
    ext: &Vec<(String, String)>,
    sub: &Vec<(String, String)>,
    nums: &NumberForms,
)
    ensures
        final(out)@ == old(out)@ + canon_props(
            prop_views(props@),
            table_view(ext@),
            table_view(sub@),
            nums.table(),
        ),
    decreases props,
{
    let ghost (e, s, n) = (table_view(ext@), table_view(sub@), nums.table());
    let ghost start = out@;
    let mut i: usize = 0;
    while i < props.len()
        invariant
            i <= props@.len(),
            e == table_view(ext@),
            s == table_view(sub@),
            n == nums.table(),
            out@ == start + canon_props(prop_views(props@.take(i as int)), e, s, n),
        decreases props@.len() - i,
    {
        proof {
            assert(props@.take(i + 1) =~= props@.take(i as int).push(props@[i as int]));
            lemma_prop_views_push(props@.take(i as int), props@[i as int]);
            assert(prop_views(props@.take(i + 1)).drop_last() =~= prop_views(
                props@.take(i as int),
            ));
        }
        push_str(out, ",");
        let q = debug_quote(props[i].0.as_str());
        push_str(out, q.as_str());
        push_str(out, ":");
        write_canonical(&props[i].1, out, ext, sub, nums);
        proof {
            assert(out@ =~= start + canon_props(prop_views(props@.take(i + 1)), e, s, n));
        }
        i += 1;
    }
    proof {
        assert(props@.take(i as int) =~= props@);
    }
}

impl Value {
    /// The canonical, whitespace-independent text of this value, with resource
    /// ids resolved through `ext` and `sub` and numbers spelled by `nums`.
    pub fn canonical(
        &self,
        ext: &Vec<(String, String)>,
        sub: &Vec<(String, String)>,
        nums: &NumberForms,
    ) -> (r: String)
        ensures
            r@ == canon(self@, table_view(ext@), table_view(sub@), nums.table()),
    {
        let mut out = String::new();
        write_canonical(self, &mut out, ext, sub, nums);
        out
    }
}


// ---------------------------------------------------------------------------
// The number literals a document holds, for a caller to give their forms.

/// Every number literal in a value, in order.
pub open spec fn value_numbers(v: ValueView) -> Seq<Seq<char>>
    decreases v,
{
    match v {
        ValueView::Num(s) => seq![s],
        ValueView::Array(items) => list_numbers(items),
        ValueView::Dict(entries) => entry_numbers(entries),
        ValueView::Call { args, .. } => list_numbers(args),
        ValueView::TypedArray { ty, items } => value_numbers(*ty) + list_numbers(items),
        ValueView::TypedDict { key, val, entries } => value_numbers(*key) + value_numbers(*val)
            + entry_numbers(entries),
        ValueView::Object { props, .. } => prop_numbers(props),
        _ => seq![],
    }
}

pub open spec fn list_numbers(s: Seq<ValueView>) -> Seq<Seq<char>>
    decreases s,
{
    if s.len() == 0 {
        seq![]
    } else {
        list_numbers(s.drop_last()) + value_numbers(s.last())
    }
}

pub open spec fn entry_numbers(s: Seq<(ValueView, ValueView)>) -> Seq<Seq<char>>
    decreases s,
{
    if s.len() == 0 {
        seq![]
    } else {
        entry_numbers(s.drop_last()) + value_numbers(s.last().0) + value_numbers(s.last().1)
    }
}

pub open spec fn prop_numbers(s: Seq<(Seq<char>, ValueView)>) -> Seq<Seq<char>>
    decreases s,
{
    if s.len() == 0 {
        seq![]
    } else {
        prop_numbers(s.drop_last()) + value_numbers(s.last().1)
    }
}

pub open spec fn fields_numbers(fs: Seq<Field>) -> Seq<Seq<char>>
    decreases fs.len(),
{
    if fs.len() == 0 {
        seq![]
    } else {
        fields_numbers(fs.drop_last()) + value_numbers(fs.last().value@)
    }
}

pub open spec fn props_numbers(ps: Seq<Property>) -> Seq<Seq<char>>
    decreases ps.len(),
{
    if ps.len() == 0 {
        seq![]
    } else {
        props_numbers(ps.drop_last()) + value_numbers(ps.last().value@)
    }
}

/// Every number literal of a document: each section's header fields, then
/// its properties, in file order.
pub open spec fn doc_numbers(ss: Seq<Section>) -> Seq<Seq<char>>
    decreases ss.len(),
{
    if ss.len() == 0 {
        seq![]
    } else {
        doc_numbers(ss.drop_last()) + fields_numbers(ss.last().fields@) + props_numbers(ss.last().props@)
    }
}

fn collect_numbers(v: &Value, out: &mut Vec<String>)
    ensures
        string_views(final(out)@) == string_views(old(out)@) + value_numbers(v@),
    decreases v,
{
    let ghost start = string_views(out@);
    match v {
        Value::Num(t) => {
            out.push(t.clone());
            proof {
                assert(string_views(out@) =~= start.push(t@));
                assert(seq![t@] =~= Seq::<Seq<char>>::empty().push(t@));
            }
        },
        Value::Array(items) => collect_list_numbers(items, out),
        Value::Dict(entries) => collect_entry_numbers(entries, out),
        Value::Call { args, .. } => collect_list_numbers(args, out),
        Value::TypedArray { ty, items } => {
            collect_numbers(ty, out);
            collect_list_numbers(items, out);
        },
        Value::TypedDict { key, val, entries } => {
            collect_numbers(key, out);
            collect_numbers(val, out);
            collect_entry_numbers(entries, out);
        },
        Value::Object { props, .. } => collect_prop_numbers(props, out),
        _ => {},
    }
    proof {
        assert(string_views(out@) =~= start + value_numbers(v@));
    }
}

fn collect_list_numbers(items: &Vec<Value>, out: &mut Vec<String>)
    ensures
        string_views(final(out)@) == string_views(old(out)@) + list_numbers(views(items@)),
    decreases items,
{
    let ghost start = string_views(out@);
    let mut i: usize = 0;
    while i < items.len()
        invariant
            i <= items@.len(),
            string_views(out@) == start + list_numbers(views(items@.take(i as int))),
        decreases items@.len() - i,
    {
        proof {
            assert(items@.take(i + 1) =~= items@.take(i as int).push(items@[i as int]));
            lemma_views_push(items@.take(i as int), items@[i as int]);
            assert(views(items@.take(i + 1)).drop_last() =~= views(items@.take(i as int)));
        }
        collect_numbers(&items[i], out);
        i += 1;
    }
    proof {
        assert(items@.take(i as int) =~= items@);
    }
}

fn collect_entry_numbers(entries: &Vec<(Value, Value)>, out: &mut Vec<String>)
    ensures
        string_views(final(out)@) == string_views(old(out)@) + entry_numbers(entry_views(entries@)),
    decreases entries,
{
    let ghost start = string_views(out@);
    let mut i: usize = 0;
    while i < entries.len()
        invariant
            i <= entries@.len(),
            string_views(out@) == start + entry_numbers(entry_views(entries@.take(i as int))),
        decreases entries@.len() - i,
    {
        proof {
            assert(entries@.take(i + 1) =~= entries@.take(i as int).push(entries@[i as int]));
            lemma_entry_views_push(entries@.take(i as int), entries@[i as int]);
            assert(entry_views(entries@.take(i + 1)).drop_last() =~= entry_views(entries@.take(i as int)));
        }
        collect_numbers(&entries[i].0, out);
        collect_numbers(&entries[i].1, out);
        i += 1;
    }
    proof {
        assert(entries@.take(i as int) =~= entries@);
    }
}

fn collect_prop_numbers(props: &Vec<(String, Value)>, out: &mut Vec<String>)
    ensures
        string_views(final(out)@) == string_views(old(out)@) + prop_numbers(prop_views(props@)),
    decreases props,
{
    let ghost start = string_views(out@);
    let mut i: usize = 0;
    while i < props.len()
        invariant
            i <= props@.len(),
            string_views(out@) == start + prop_numbers(prop_views(props@.take(i as int))),
        decreases props@.len() - i,
    {
        proof {
            assert(props@.take(i + 1) =~= props@.take(i as int).push(props@[i as int]));
            lemma_prop_views_push(props@.take(i as int), props@[i as int]);
            assert(prop_views(props@.take(i + 1)).drop_last() =~= prop_views(props@.take(i as int)));
        }
        collect_numbers(&props[i].1, out);
        i += 1;
    }
    proof {
        assert(props@.take(i as int) =~= props@);
    }
}

/// Every number literal of `doc`, in file order, for a caller to give each
/// its canonical form.
pub fn number_literals(doc: &Document) -> (r: Vec<String>)
    ensures
        string_views(r@) == doc_numbers(doc.sections@),
{
    let mut out: Vec<String> = Vec::new();
    proof {
        assert(string_views(out@) =~= Seq::<Seq<char>>::empty());
    }
    let mut i: usize = 0;
    while i < doc.sections.len()
        invariant
            i <= doc.sections@.len(),
            string_views(out@) == doc_numbers(doc.sections@.take(i as int)),
        decreases doc.sections@.len() - i,
    {
        proof {
            assert(doc.sections@.take(i + 1).drop_last() =~= doc.sections@.take(i as int));
        }
        let s = &doc.sections[i];
        let ghost before = string_views(out@);
        let mut j: usize = 0;
        while j < s.fields.len()
            invariant
                j <= s.fields@.len(),
                string_views(out@) == before + fields_numbers(s.fields@.take(j as int)),
            decreases s.fields@.len() - j,
        {
            proof {
                assert(s.fields@.take(j + 1).drop_last() =~= s.fields@.take(j as int));
            }
            collect_numbers(&s.fields[j].value, &mut out);
            proof {
                assert(string_views(out@) =~= before + fields_numbers(s.fields@.take(j + 1)));
            }
            j += 1;
        }
        proof {
            assert(s.fields@.take(j as int) =~= s.fields@);
        }
        let ghost mid = string_views(out@);
        let mut k: usize = 0;
        while k < s.props.len()
            invariant
                k <= s.props@.len(),
                string_views(out@) == mid + props_numbers(s.props@.take(k as int)),
            decreases s.props@.len() - k,
        {
            proof {
                assert(s.props@.take(k + 1).drop_last() =~= s.props@.take(k as int));
            }
            collect_numbers(&s.props[k].value, &mut out);
            proof {
                assert(string_views(out@) =~= mid + props_numbers(s.props@.take(k + 1)));
            }
            k += 1;
        }
        proof {
            assert(s.props@.take(k as int) =~= s.props@);
            assert(string_views(out@) =~= doc_numbers(doc.sections@.take(i + 1)));
        }
        i += 1;
    }
    proof {
        assert(doc.sections@.take(i as int) =~= doc.sections@);
    }
    out
}

} // verus!
