//! Semantic identity for the entities in a document.
//!
//! Godot mints resource ids per file and randomises them (`1_abcde`,
//! `CircleShape2D_abcde`), so the same logical resource carries different ids on
//! two branches. Every comparison therefore runs against *identity keys* rather
//! than ids: external resources key on their `uid` (falling back to `path`),
//! sub-resources on their type plus their fully resolved content, and nodes on
//! their full scene-tree path.
use vstd::prelude::*;

use crate::canon::{
    canon, lookup, table_get, table_view, lemma_table_get_push, lemma_table_view_push, write_canonical,
    NumberForms, Table,
};
use crate::doc::{
    derefs, deref_refs, field_index, field_str_spec, fields_refs, prop_index, props_refs,
    sections_of_spec, Document, Field, Property, Section, SectionKind,
};
use crate::nodepath::{lex_less, lex_lt};
use crate::text::{decimal, decimal_text, push_str, str_eq};
use crate::value::RefKind;
use vstd::string::StringSliceAdditionalSpecFns;

verus! {

broadcast use vstd::string::group_string_axioms;

/// A stable, id-independent identity for one section of a document.
#[derive(Debug, Clone, PartialEq, Eq, Hash, PartialOrd, Ord)]
pub enum EntityId {
    /// The `[gd_scene]` / `[gd_resource]` header.
    Header,
    /// Keyed by `uid`, or by `path` when the file records no uid.
    Ext(String),
    /// Keyed by type and fully resolved content.
    Sub(String),
    /// Keyed by full node path; the root node is `.`.
    Node(String),
    /// Keyed by `from`, `to`, `signal`, `method`.
    Connection(String, String, String, String),
    Editable(String),
    /// The `[resource]` section of a `.tres`.
    Resource,
}

/// FNV-1a over `bytes`.
pub open spec fn fnv1a(bytes: Seq<u8>) -> u64
    decreases bytes.len(),
{
    if bytes.len() == 0 {
        0xcbf2_9ce4_8422_2325u64
    } else {
        (fnv1a(bytes.drop_last()) ^ (bytes.last() as u64)).wrapping_mul(0x1000_0000_01b3u64)
    }
}

pub open spec fn hex_table() -> Seq<char> {
    seq!['0', '1', '2', '3', '4', '5', '6', '7', '8', '9', 'a', 'b', 'c', 'd', 'e', 'f']
}

pub open spec fn hex_char(d: nat) -> char {
    hex_table()[d as int]
}

/// The last `n` hex digits of `x`, most significant first, in lower case.
pub open spec fn hex_digits(x: nat, n: nat) -> Seq<char>
    decreases n,
{
    if n == 0 {
        seq![]
    } else {
        hex_digits(x / 16, (n - 1) as nat).push(hex_char(x % 16))
    }
}

fn exec_hex_digits(x: u64, n: usize) -> (s: String)
    ensures
        s@ == hex_digits(x as nat, n as nat),
    decreases n,
{
    if n == 0 {
        return String::new();
    }
    let mut s = exec_hex_digits(x / 16, n - 1);
    let table = ['0', '1', '2', '3', '4', '5', '6', '7', '8', '9', 'a', 'b', 'c', 'd', 'e', 'f'];
    proof {
        assert(table@ =~= hex_table());
    }
    let d = (x % 16) as usize;
    s.push(table[d]);
    s
}

/// The first eight hex digits of the FNV-1a hash of `s`'s UTF-8 bytes, purely
/// for a short human-facing label.
pub open spec fn hash_label(s: Seq<char>) -> Seq<char> {
    hex_digits(fnv1a(vstd::utf8::encode_utf8(s)) as nat / 0x1_0000_0000, 8)
}

fn hash_hex8(s: &str) -> (r: String)
    ensures
        r@ == hash_label(s@),
{
    let bytes = s.as_bytes();
    let mut h: u64 = 0xcbf2_9ce4_8422_2325;
    let mut i: usize = 0;
    while i < bytes.len()
        invariant
            i <= bytes@.len(),
            bytes@ == s.spec_bytes(),
            h == fnv1a(bytes@.take(i as int)),
        decreases bytes@.len() - i,
    {
        proof {
            assert(bytes@.take(i + 1).drop_last() =~= bytes@.take(i as int));
        }
        h = (h ^ (bytes[i] as u64)).wrapping_mul(0x1000_0000_01b3);
        i += 1;
    }
    proof {
        assert(bytes@.take(i as int) =~= bytes@);
    }
    exec_hex_digits(h / 0x1_0000_0000, 8)
}

/// Index of the first occurrence of `pat` in `s` at or after `from`.
pub open spec fn find_from(s: Seq<char>, pat: Seq<char>, from: int) -> Option<int>
    decreases s.len() + 1 - from,
{
    if from < 0 || from + pat.len() > s.len() {
        None
    } else if s.subrange(from, from + pat.len()) == pat {
        Some(from)
    } else {
        find_from(s, pat, from + 1)
    }
}

proof fn lemma_find_from(s: Seq<char>, pat: Seq<char>, from: int)
    ensures
        find_from(s, pat, from) matches Some(i) ==> from <= i && i + pat.len() <= s.len() && 0 <= i,
    decreases s.len() + 1 - from,
{
    if !(from < 0 || from + pat.len() > s.len()) && s.subrange(from, from + pat.len()) != pat {
        lemma_find_from(s, pat, from + 1);
    }
}

fn exec_find_from(s: &Vec<char>, pat: &Vec<char>, from: usize) -> (r: Option<usize>)
    ensures
        match find_from(s@, pat@, from as int) {
            Some(i) => r == Some(i as usize),
            None => r is None,
        },
    decreases s@.len() - from,
{
    let n = s.len();
    if from > n || pat.len() > n - from {
        return None;
    }
    let mut k: usize = 0;
    while k < pat.len()
        invariant
            n == s@.len(),
            from + pat@.len() <= s@.len(),
            k <= pat@.len(),
            forall|j: int| 0 <= j < k ==> s@[from + j] == pat@[j],
        decreases pat@.len() - k,
    {
        if s[from + k] != pat[k] {
            proof {
                assert(s@.subrange(from as int, from + pat@.len())[k as int] != pat@[k as int]);
            }
            return exec_find_from(s, pat, from + 1);
        }
        k += 1;
    }
    proof {
        assert(s@.subrange(from as int, from + pat@.len()) =~= pat@);
    }
    Some(from)
}

/// The part of `s` before the first `#` or line feed.
pub open spec fn first_part(s: Seq<char>) -> Seq<char>
    decreases s.len(),
{
    if s.len() == 0 || s[0] == '#' || s[0] == '\n' {
        seq![]
    } else {
        seq![s[0]] + first_part(s.drop_first())
    }
}

/// `s` with every leading and trailing `"` removed.
pub open spec fn trim_quotes_front(s: Seq<char>) -> Seq<char>
    decreases s.len(),
{
    if s.len() > 0 && s[0] == '"' {
        trim_quotes_front(s.drop_first())
    } else {
        s
    }
}

pub open spec fn trim_quotes_back(s: Seq<char>) -> Seq<char>
    decreases s.len(),
{
    if s.len() > 0 && s.last() == '"' {
        trim_quotes_back(s.drop_last())
    } else {
        s
    }
}

/// The resource type named in a sub-resource key, after `#type=`.
pub open spec fn key_type(key: Seq<char>) -> Seq<char> {
    match find_from(key, "#type="@, 0) {
        Some(i) => {
            let t = trim_quotes_back(trim_quotes_front(first_part(key.subrange(i + 6, key.len() as int))));
            if t.len() > 0 {
                t
            } else {
                "resource"@
            }
        },
        None => "resource"@,
    }
}

/// A sub-resource key is its whole canonical content, which is unreadable: the
/// label shows the resource type plus a short digest, so two of the same type
/// stay distinct.
pub open spec fn short_spec(key: Seq<char>) -> Seq<char> {
    key_type(key) + " ("@ + hash_label(key) + ")"@
}

/// Where the part of `cs` from `start` ends: at the first `#` or line feed.
fn part_end(cs: &Vec<char>, start: usize) -> (end: usize)
    requires
        start <= cs@.len(),
    ensures
        start <= end <= cs@.len(),
        first_part(cs@.subrange(start as int, cs@.len() as int)) == cs@.subrange(start as int, end as int),
{
    let n = cs.len();
    let mut end = start;
    while end < n && cs[end] != '#' && cs[end] != '\n'
        invariant
            n == cs@.len(),
            start <= end <= n,
            first_part(cs@.subrange(start as int, n as int)) == cs@.subrange(start as int, end as int)
                + first_part(cs@.subrange(end as int, n as int)),
        decreases n - end,
    {
        proof {
            let rest = cs@.subrange(end as int, n as int);
            assert(rest.drop_first() =~= cs@.subrange(end + 1, n as int));
            assert(cs@.subrange(start as int, end + 1) =~= cs@.subrange(start as int, end as int) + seq![cs@[end as int]]);
            assert(cs@.subrange(start as int, end as int) + (seq![cs@[end as int]] + first_part(cs@.subrange(end + 1, n as int)))
                =~= cs@.subrange(start as int, end + 1) + first_part(cs@.subrange(end + 1, n as int)));
        }
        end += 1;
    }
    proof {
        assert(first_part(cs@.subrange(end as int, n as int)) =~= Seq::<char>::empty());
        assert(cs@.subrange(start as int, end as int) + Seq::<char>::empty() =~= cs@.subrange(start as int, end as int));
    }
    end
}

/// The bounds of `cs[a..b]` once its leading and trailing `"` are removed.
fn trim_quotes(cs: &Vec<char>, a: usize, b: usize) -> (r: (usize, usize))
    requires
        a <= b <= cs@.len(),
    ensures
        a <= r.0 <= r.1 <= b,
        trim_quotes_back(trim_quotes_front(cs@.subrange(a as int, b as int))) == cs@.subrange(r.0 as int, r.1 as int),
{
    let mut x = a;
    while x < b && cs[x] == '"'
        invariant
            a <= x <= b <= cs@.len(),
            trim_quotes_front(cs@.subrange(a as int, b as int)) == trim_quotes_front(cs@.subrange(x as int, b as int)),
        decreases b - x,
    {
        proof {
            assert(cs@.subrange(x as int, b as int).drop_first() =~= cs@.subrange(x + 1, b as int));
        }
        x += 1;
    }
    proof {
        if x < b {
            assert(cs@.subrange(x as int, b as int)[0] != '"');
        }
    }
    let mut y = b;
    while y > x && cs[y - 1] == '"'
        invariant
            a <= x <= y <= b <= cs@.len(),
            trim_quotes_back(cs@.subrange(x as int, b as int)) == trim_quotes_back(cs@.subrange(x as int, y as int)),
        decreases y,
    {
        proof {
            assert(cs@.subrange(x as int, y as int).drop_last() =~= cs@.subrange(x as int, y - 1));
        }
        y -= 1;
    }
    proof {
        if y > x {
            assert(cs@.subrange(x as int, y as int).last() != '"');
        }
    }
    (x, y)
}

fn key_type_of(cs: &Vec<char>) -> (r: String)
    ensures
        r@ == key_type(cs@),
{
    let marker = crate::text::chars_of("#type=");
    let n = cs.len();
    proof {
        reveal_strlit("#type=");
        assert(marker@.len() == 6);
    }
    let mut ty = String::new();
    match exec_find_from(cs, &marker, 0) {
        Some(i) => {
            proof {
                lemma_find_from(cs@, marker@, 0);
            }
            let end = part_end(cs, i + 6);
            let (a, b) = trim_quotes(cs, i + 6, end);
            if b > a {
                crate::text::push_chars(&mut ty, cs.as_slice(), a, b);
            } else {
                push_str(&mut ty, "resource");
            }
            proof {
                assert(cs@.subrange(i + 6, end as int) == first_part(cs@.subrange(i + 6, cs@.len() as int)));
                assert(ty@ =~= key_type(cs@));
            }
        },
        None => {
            push_str(&mut ty, "resource");
        },
    }
    ty
}

fn short(key: &str) -> (r: String)
    ensures
        r@ == short_spec(key@),
{
    let cs = crate::text::chars_of(key);
    let mut ty = key_type_of(&cs);
    push_str(&mut ty, " (");
    let h = hash_hex8(key);
    push_str(&mut ty, h.as_str());
    push_str(&mut ty, ")");
    ty
}

/// The mathematical content of an [`EntityId`].
pub enum EntityIdView {
    Header,
    Ext(Seq<char>),
    Sub(Seq<char>),
    Node(Seq<char>),
    Connection(Seq<char>, Seq<char>, Seq<char>, Seq<char>),
    Editable(Seq<char>),
    Resource,
}

impl View for EntityId {
    type V = EntityIdView;

    open spec fn view(&self) -> EntityIdView {
        match self {
            EntityId::Header => EntityIdView::Header,
            EntityId::Ext(k) => EntityIdView::Ext(k@),
            EntityId::Sub(k) => EntityIdView::Sub(k@),
            EntityId::Node(p) => EntityIdView::Node(p@),
            EntityId::Connection(a, b, c, d) => EntityIdView::Connection(a@, b@, c@, d@),
            EntityId::Editable(p) => EntityIdView::Editable(p@),
            EntityId::Resource => EntityIdView::Resource,
        }
    }
}

/// The human-readable label of an identity.
pub open spec fn describe_view(id: EntityIdView) -> Seq<char> {
    match id {
        EntityIdView::Header => "header"@,
        EntityIdView::Ext(k) => "ext_resource "@ + k,
        EntityIdView::Sub(k) => "sub_resource "@ + short_spec(k),
        EntityIdView::Node(p) => if p == "."@ {
            "root node"@
        } else {
            "node "@ + p
        },
        EntityIdView::Connection(from, to, sig, m) => "connection "@ + from + "."@ + sig + " -> "@
            + to + "."@ + m + "()"@,
        EntityIdView::Editable(p) => "editable "@ + p,
        EntityIdView::Resource => "resource"@,
    }
}

/// The position of an identity's class in a file, as Godot writes it.
pub open spec fn rank_view(id: EntityIdView) -> u8 {
    match id {
        EntityIdView::Header => 0,
        EntityIdView::Ext(_) => 1,
        EntityIdView::Sub(_) => 2,
        EntityIdView::Resource => 3,
        EntityIdView::Node(_) => 4,
        EntityIdView::Connection(..) => 5,
        EntityIdView::Editable(_) => 6,
    }
}

impl EntityId {
    pub open spec fn describe_spec(&self) -> Seq<char> {
        describe_view(self@)
    }

    pub fn describe(&self) -> (s: String)
        ensures
            s@ == self.describe_spec(),
    {
        let mut out = String::new();
        match self {
            EntityId::Header => push_str(&mut out, "header"),
            EntityId::Ext(k) => {
                push_str(&mut out, "ext_resource ");
                push_str(&mut out, k.as_str());
            },
            EntityId::Sub(k) => {
                push_str(&mut out, "sub_resource ");
                let label = short(k.as_str());
                push_str(&mut out, label.as_str());
            },
            EntityId::Node(p) => {
                if str_eq(p.as_str(), ".") {
                    push_str(&mut out, "root node");
                } else {
                    push_str(&mut out, "node ");
                    push_str(&mut out, p.as_str());
                }
            },
            EntityId::Connection(from, to, sig, m) => {
                push_str(&mut out, "connection ");
                push_str(&mut out, from.as_str());
                push_str(&mut out, ".");
                push_str(&mut out, sig.as_str());
                push_str(&mut out, " -> ");
                push_str(&mut out, to.as_str());
                push_str(&mut out, ".");
                push_str(&mut out, m.as_str());
                push_str(&mut out, "()");
            },
            EntityId::Editable(p) => {
                push_str(&mut out, "editable ");
                push_str(&mut out, p.as_str());
            },
            EntityId::Resource => push_str(&mut out, "resource"),
        }
        proof {
            assert(out@ =~= self.describe_spec());
        }
        out
    }

    pub open spec fn rank_spec(&self) -> u8 {
        rank_view(self@)
    }

    /// Sort rank matching the order Godot writes sections in.
    pub fn rank(&self) -> (r: u8)
        ensures
            r == self.rank_spec(),
    {
        match self {
            EntityId::Header => 0,
            EntityId::Ext(_) => 1,
            EntityId::Sub(_) => 2,
            EntityId::Resource => 3,
            EntityId::Node(_) => 4,
            EntityId::Connection(..) => 5,
            EntityId::Editable(_) => 6,
        }
    }
}

/// The full scene-tree path of a `[node]` section. The root node is `.`.
pub open spec fn node_path_spec(s: Section) -> Seq<char> {
    let name = match field_str_spec(s, "name"@) {
        Some(n) => n,
        None => seq![],
    };
    match field_str_spec(s, "parent"@) {
        None => "."@,
        Some(p) => if p == "."@ {
            name
        } else {
            p + "/"@ + name
        },
    }
}

pub fn node_path(s: &Section) -> (r: String)
    ensures
        r@ == node_path_spec(*s),
{
    let name: &str = match s.field_str("name") {
        Some(n) => n,
        None => "",
    };
    proof {
        reveal_strlit("");
    }
    let mut out = String::new();
    match s.field_str("parent") {
        None => push_str(&mut out, "."),
        Some(p) => {
            if str_eq(p, ".") {
                push_str(&mut out, name);
            } else {
                push_str(&mut out, p);
                push_str(&mut out, "/");
                push_str(&mut out, name);
            }
        },
    }
    proof {
        assert(out@ =~= node_path_spec(*s));
    }
    out
}


// ---------------------------------------------------------------------------
// Comparing and copying identities.

/// Whether two identities are the same.
pub fn same_id(a: &EntityId, b: &EntityId) -> (r: bool)
    ensures
        r == (a@ == b@),
{
    match (a, b) {
        (EntityId::Header, EntityId::Header) => true,
        (EntityId::Ext(x), EntityId::Ext(y)) => str_eq(x.as_str(), y.as_str()),
        (EntityId::Sub(x), EntityId::Sub(y)) => str_eq(x.as_str(), y.as_str()),
        (EntityId::Node(x), EntityId::Node(y)) => str_eq(x.as_str(), y.as_str()),
        (EntityId::Connection(a1, a2, a3, a4), EntityId::Connection(b1, b2, b3, b4)) => {
            str_eq(a1.as_str(), b1.as_str()) && str_eq(a2.as_str(), b2.as_str()) && str_eq(
                a3.as_str(),
                b3.as_str(),
            ) && str_eq(a4.as_str(), b4.as_str())
        },
        (EntityId::Editable(x), EntityId::Editable(y)) => str_eq(x.as_str(), y.as_str()),
        (EntityId::Resource, EntityId::Resource) => true,
        _ => false,
    }
}

/// A copy of an identity.
pub fn copy_id(id: &EntityId) -> (r: EntityId)
    ensures
        r@ == id@,
{
    match id {
        EntityId::Header => EntityId::Header,
        EntityId::Ext(k) => EntityId::Ext(k.clone()),
        EntityId::Sub(k) => EntityId::Sub(k.clone()),
        EntityId::Node(p) => EntityId::Node(p.clone()),
        EntityId::Connection(a, b, c, d) => EntityId::Connection(
            a.clone(),
            b.clone(),
            c.clone(),
            d.clone(),
        ),
        EntityId::Editable(p) => EntityId::Editable(p.clone()),
        EntityId::Resource => EntityId::Resource,
    }
}

// ---------------------------------------------------------------------------
// Header fields in name order.

/// Which header fields a listing leaves out: the derived fields of a section
/// of kind `k`, or, with no kind, the fields that make up a node's path.
pub open spec fn dropped(mode: Option<SectionKind>, name: Seq<char>) -> bool {
    match mode {
        Some(k) => k.is_derived_spec(name),
        None => name == "name"@ || name == "parent"@ || name == "index"@,
    }
}

/// `f` placed into a list sorted by name, after every field of the same name.
pub open spec fn insert_by_name(sorted: Seq<Field>, f: Field) -> Seq<Field>
    decreases sorted.len(),
{
    if sorted.len() == 0 {
        seq![f]
    } else if lex_lt(f.name@, sorted.last().name@) {
        insert_by_name(sorted.drop_last(), f).push(sorted.last())
    } else {
        sorted.push(f)
    }
}

/// The fields that `mode` keeps, stably sorted by name.
pub open spec fn sort_kept(fs: Seq<Field>, mode: Option<SectionKind>) -> Seq<Field>
    decreases fs.len(),
{
    if fs.len() == 0 {
        seq![]
    } else if dropped(mode, fs.last().name@) {
        sort_kept(fs.drop_last(), mode)
    } else {
        insert_by_name(sort_kept(fs.drop_last(), mode), fs.last())
    }
}

proof fn lemma_insert_at(s: Seq<Field>, f: Field, p: int)
    requires
        0 <= p <= s.len(),
        forall|k: int| p <= k < s.len() ==> lex_lt(f.name@, #[trigger] s[k].name@),
        p == 0 || !lex_lt(f.name@, s[p - 1].name@),
    ensures
        insert_by_name(s, f) == s.insert(p, f),
    decreases s.len() - p,
{
    if s.len() == 0 {
        assert(s.insert(p, f) =~= seq![f]);
    } else if p == s.len() {
        assert(!lex_lt(f.name@, s.last().name@));
        assert(s.insert(p, f) =~= s.push(f));
    } else {
        assert(lex_lt(f.name@, s.last().name@));
        lemma_insert_at(s.drop_last(), f, p);
        assert(s.insert(p, f) =~= s.drop_last().insert(p, f).push(s.last()));
    }
}

pub open spec fn field_derefs(s: Seq<&Field>) -> Seq<Field> {
    Seq::new(s.len(), |i: int| *s[i])
}

fn insert_field<'a>(v: &mut Vec<&'a Field>, f: &'a Field)
    ensures
        field_derefs(final(v)@) == insert_by_name(field_derefs(old(v)@), *f),
{
    let ghost old_v = field_derefs(v@);
    let mut p = v.len();
    while p > 0 && lex_less(f.name.as_str(), v[p - 1].name.as_str())
        invariant
            p <= v@.len(),
            old_v == field_derefs(v@),
            forall|k: int| p <= k < v@.len() ==> lex_lt(f.name@, #[trigger] v@[k].name@),
        decreases p,
    {
        p -= 1;
    }
    proof {
        assert forall|k: int| p <= k < old_v.len() implies lex_lt(f.name@, #[trigger] old_v[k].name@) by {
            assert(old_v[k] == *v@[k]);
        }
        if p > 0 {
            assert(old_v[p - 1] == *v@[p - 1]);
        }
        lemma_insert_at(old_v, *f, p as int);
    }
    v.insert(p, f);
    proof {
        assert(field_derefs(v@) =~= old_v.insert(p as int, *f));
    }
}

/// The fields of `fs` that `mode` keeps, stably sorted by name.
pub(crate) fn sorted_fields<'a>(fs: &'a Vec<Field>, mode: Option<SectionKind>) -> (r: Vec<&'a Field>)
    ensures
        field_derefs(r@) == sort_kept(fs@, mode),
{
    let mut out: Vec<&Field> = Vec::new();
    let mut i: usize = 0;
    while i < fs.len()
        invariant
            i <= fs@.len(),
            field_derefs(out@) == sort_kept(fs@.take(i as int), mode),
        decreases fs@.len() - i,
    {
        proof {
            assert(fs@.take(i + 1).drop_last() =~= fs@.take(i as int));
        }
        let f = &fs[i];
        let drop = match mode {
            Some(k) => k.is_derived_field(f.name.as_str()),
            None => str_eq(f.name.as_str(), "name") || str_eq(f.name.as_str(), "parent") || str_eq(
                f.name.as_str(),
                "index",
            ),
        };
        if !drop {
            insert_field(&mut out, f);
        }
        i += 1;
    }
    proof {
        assert(fs@.take(i as int) =~= fs@);
    }
    out
}

// ---------------------------------------------------------------------------
// The canonical text of a section.

/// `#name=value` for each field.
pub open spec fn canon_fields_text(fs: Seq<Field>, ext: Table, sub: Table, nums: Table) -> Seq<char>
    decreases fs.len(),
{
    if fs.len() == 0 {
        seq![]
    } else {
        canon_fields_text(fs.drop_last(), ext, sub, nums) + "#"@ + fs.last().name@ + "="@ + canon(
            fs.last().value@,
            ext,
            sub,
            nums,
        )
    }
}

/// A line break and `key=value` for each property.
pub open spec fn canon_props_text(ps: Seq<Property>, ext: Table, sub: Table, nums: Table) -> Seq<
    char,
>
    decreases ps.len(),
{
    if ps.len() == 0 {
        seq![]
    } else {
        canon_props_text(ps.drop_last(), ext, sub, nums) + "\n"@ + ps.last().key@ + "="@ + canon(
            ps.last().value@,
            ext,
            sub,
            nums,
        )
    }
}

/// Canonical text for a section, leaving out the fields that carry no meaning
/// of their own: a randomised per-file `id`, and the derived `load_steps`.
pub open spec fn canon_section(s: Section, ext: Table, sub: Table, nums: Table) -> Seq<char> {
    s.tag@ + canon_fields_text(sort_kept(s.fields@, Some(s.kind)), ext, sub, nums)
        + canon_props_text(s.props@, ext, sub, nums)
}

fn canonical_section(
    s: &Section,
    ext: &Vec<(String, String)>,
    sub: &Vec<(String, String)>,
    nums: &NumberForms,
) -> (r: String)
    ensures
        r@ == canon_section(*s, table_view(ext@), table_view(sub@), nums.table()),
{
    let ghost (e, b, n) = (table_view(ext@), table_view(sub@), nums.table());
    let mut out = String::new();
    push_str(&mut out, s.tag.as_str());
    let fields = sorted_fields(&s.fields, Some(s.kind));
    let ghost fs = field_derefs(fields@);
    let mut i: usize = 0;
    while i < fields.len()
        invariant
            i <= fields@.len(),
            fs == field_derefs(fields@),
            e == table_view(ext@),
            b == table_view(sub@),
            n == nums.table(),
            out@ == s.tag@ + canon_fields_text(fs.take(i as int), e, b, n),
        decreases fields@.len() - i,
    {
        proof {
            assert(fs.take(i + 1).drop_last() =~= fs.take(i as int));
            assert(fs[i as int] == *fields@[i as int]);
        }
        push_str(&mut out, "#");
        push_str(&mut out, fields[i].name.as_str());
        push_str(&mut out, "=");
        write_canonical(&fields[i].value, &mut out, ext, sub, nums);
        proof {
            assert(out@ =~= s.tag@ + canon_fields_text(fs.take(i + 1), e, b, n));
        }
        i += 1;
    }
    proof {
        assert(fs.take(i as int) =~= fs);
    }
    let ghost head = out@;
    let mut j: usize = 0;
    while j < s.props.len()
        invariant
            j <= s.props@.len(),
            e == table_view(ext@),
            b == table_view(sub@),
            n == nums.table(),
            out@ == head + canon_props_text(s.props@.take(j as int), e, b, n),
        decreases s.props@.len() - j,
    {
        proof {
            assert(s.props@.take(j + 1).drop_last() =~= s.props@.take(j as int));
        }
        push_str(&mut out, "\n");
        push_str(&mut out, s.props[j].key.as_str());
        push_str(&mut out, "=");
        write_canonical(&s.props[j].value, &mut out, ext, sub, nums);
        proof {
            assert(out@ =~= head + canon_props_text(s.props@.take(j + 1), e, b, n));
        }
        j += 1;
    }
    proof {
        assert(s.props@.take(j as int) =~= s.props@);
        assert(out@ =~= canon_section(*s, e, b, n));
    }
    out
}

// ---------------------------------------------------------------------------
// Keys of external resources.

pub open spec fn str_or(o: Option<Seq<char>>, d: Seq<char>) -> Seq<char> {
    match o {
        Some(x) => x,
        None => d,
    }
}

/// An external resource keys on its `uid`, else its `path`, else its id.
pub open spec fn ext_key_of(s: Section, id: Seq<char>) -> Seq<char> {
    str_or(field_str_spec(s, "uid"@), str_or(field_str_spec(s, "path"@), id))
}

/// `(id, key)` for each external resource that has an id, in file order.
pub open spec fn ext_keys(ss: Seq<Section>) -> Table
    decreases ss.len(),
{
    if ss.len() == 0 {
        seq![]
    } else {
        let t = ext_keys(ss.drop_last());
        let s = ss.last();
        if s.kind == SectionKind::ExtResource && field_str_spec(s, "id"@) is Some {
            t.push((field_str_spec(s, "id"@)->Some_0, ext_key_of(s, field_str_spec(s, "id"@)->Some_0)))
        } else {
            t
        }
    }
}

fn build_ext_keys(doc: &Document) -> (r: Vec<(String, String)>)
    ensures
        table_view(r@) == ext_keys(doc.sections@),
{
    let mut map: Vec<(String, String)> = Vec::new();
    let mut i: usize = 0;
    while i < doc.sections.len()
        invariant
            i <= doc.sections@.len(),
            table_view(map@) == ext_keys(doc.sections@.take(i as int)),
        decreases doc.sections@.len() - i,
    {
        proof {
            assert(doc.sections@.take(i + 1).drop_last() =~= doc.sections@.take(i as int));
        }
        let s = &doc.sections[i];
        if s.kind == SectionKind::ExtResource {
            if let Some(id) = s.field_str("id") {
                let key: &str = match s.field_str("uid") {
                    Some(u) => u,
                    None => match s.field_str("path") {
                        Some(p) => p,
                        None => id,
                    },
                };
                let e = (id.to_owned(), key.to_owned());
                proof {
                    lemma_table_view_push(map@, e);
                }
                map.push(e);
            }
        }
        i += 1;
    }
    proof {
        assert(doc.sections@.take(i as int) =~= doc.sections@);
    }
    map
}


// ---------------------------------------------------------------------------
// Keys of sub-resources.

/// Whether every sub-resource `s` refers to, other than itself, already has a
/// key in `keys`.
pub open spec fn deps_ready(s: Section, id: Seq<char>, keys: Table) -> bool {
    let rs = fields_refs(s.fields@) + props_refs(s.props@);
    forall|j: int|
        0 <= j < rs.len() && #[trigger] rs[j].kind == RefKind::Sub ==> (rs[j].id@ == id || table_get(
            keys,
            rs[j].id@,
        ) is Some)
}

/// One sub-resource's turn in a keying pass: it gets its key once it has an
/// id, has none yet, and everything it refers to has one.
pub open spec fn key_step(s: Section, ext: Table, nums: Table, keys: Table, changed: bool) -> (
    Table,
    bool,
) {
    match field_str_spec(s, "id"@) {
        None => (keys, changed),
        Some(id) => if table_get(keys, id) is Some || !deps_ready(s, id, keys) {
            (keys, changed)
        } else {
            (keys.push((id, canon_section(s, ext, keys, nums))), true)
        },
    }
}

/// One pass over the sub-resources in file order; the flag says whether it
/// keyed any.
pub open spec fn key_pass(subs: Seq<Section>, ext: Table, nums: Table, keys: Table) -> (Table, bool)
    decreases subs.len(),
{
    if subs.len() == 0 {
        (keys, false)
    } else {
        let (k, c) = key_pass(subs.drop_last(), ext, nums, keys);
        key_step(subs.last(), ext, nums, k, c)
    }
}

/// Passes until one keys nothing, at most `fuel` of them.
pub open spec fn settle_keys(subs: Seq<Section>, ext: Table, nums: Table, keys: Table, fuel: nat) -> Table
    decreases fuel,
{
    if fuel == 0 {
        keys
    } else {
        let (k, c) = key_pass(subs, ext, nums, keys);
        if c {
            settle_keys(subs, ext, nums, k, (fuel - 1) as nat)
        } else {
            k
        }
    }
}

/// Gives every sub-resource still without a key, which is part of a reference
/// cycle, a key made from its id.
pub open spec fn fill_cycles(subs: Seq<Section>, keys: Table) -> Table
    decreases subs.len(),
{
    if subs.len() == 0 {
        keys
    } else {
        let k = fill_cycles(subs.drop_last(), keys);
        match field_str_spec(subs.last(), "id"@) {
            Some(id) => if table_get(k, id) is Some {
                k
            } else {
                k.push((id, "cycle:"@ + id))
            },
            None => k,
        }
    }
}

pub open spec fn base_key(keys: Table, id: Seq<char>) -> Seq<char> {
    str_or(table_get(keys, id), "?"@ + id)
}

/// The base keys of the sub-resources that have an id, in file order.
pub open spec fn sub_bases(subs: Seq<Section>, keys: Table) -> Seq<Seq<char>>
    decreases subs.len(),
{
    if subs.len() == 0 {
        seq![]
    } else {
        match field_str_spec(subs.last(), "id"@) {
            Some(id) => sub_bases(subs.drop_last(), keys).push(base_key(keys, id)),
            None => sub_bases(subs.drop_last(), keys),
        }
    }
}

pub open spec fn count_of(s: Seq<Seq<char>>, x: Seq<char>) -> nat
    decreases s.len(),
{
    if s.len() == 0 {
        0
    } else {
        count_of(s.drop_last(), x) + if s.last() == x {
            1nat
        } else {
            0nat
        }
    }
}

/// Distinct sub-resources can have identical content; repeats of a key get
/// `~1`, `~2`, ... in declaration order.
pub open spec fn suffixed_keys(subs: Seq<Section>, keys: Table) -> Table
    decreases subs.len(),
{
    if subs.len() == 0 {
        seq![]
    } else {
        let t = suffixed_keys(subs.drop_last(), keys);
        match field_str_spec(subs.last(), "id"@) {
            Some(id) => {
                let base = base_key(keys, id);
                let n = count_of(sub_bases(subs.drop_last(), keys), base);
                t.push((id, if n == 0 { base } else { base + "~"@ + decimal(n) }))
            },
            None => t,
        }
    }
}

/// The key of every sub-resource: its canonical content with references
/// resolved, found by fixed point since sub-resources refer to each other.
pub open spec fn sub_keys(ss: Seq<Section>, ext: Table, nums: Table) -> Table {
    let subs = sections_of_spec(ss, SectionKind::SubResource);
    let settled = settle_keys(subs, ext, nums, seq![], (subs.len() + 1) as nat);
    suffixed_keys(subs, fill_cycles(subs, settled))
}

fn refs_ready(s: &Section, id: &str, keys: &Vec<(String, String)>) -> (r: bool)
    ensures
        r == deps_ready(*s, id@, table_view(keys@)),
{
    let rs = s.refs();
    let ghost all = fields_refs(s.fields@) + props_refs(s.props@);
    let mut j: usize = 0;
    while j < rs.len()
        invariant
            j <= rs@.len(),
            deref_refs(rs@) == all,
            all == fields_refs(s.fields@) + props_refs(s.props@),
            forall|m: int|
                0 <= m < j && #[trigger] all[m].kind == RefKind::Sub ==> (all[m].id@ == id@
                    || table_get(table_view(keys@), all[m].id@) is Some),
        decreases rs@.len() - j,
    {
        let r = rs[j];
        proof {
            assert(all[j as int] == *rs@[j as int]);
        }
        if r.kind == RefKind::Sub && !str_eq(r.id.as_str(), id) && lookup(keys, r.id.as_str()).is_none() {
            return false;
        }
        j += 1;
    }
    true
}

fn key_pass_exec(
    subs: &Vec<&Section>,
    ext: &Vec<(String, String)>,
    nums: &NumberForms,
    keys: &mut Vec<(String, String)>,
) -> (changed: bool)
    ensures
        (table_view(final(keys)@), changed) == key_pass(
            derefs(subs@),
            table_view(ext@),
            nums.table(),
            table_view(old(keys)@),
        ),
{
    let ghost ss = derefs(subs@);
    let ghost (e, n) = (table_view(ext@), nums.table());
    let ghost k0 = table_view(keys@);
    let mut changed = false;
    let mut i: usize = 0;
    while i < subs.len()
        invariant
            i <= subs@.len(),
            ss == derefs(subs@),
            e == table_view(ext@),
            n == nums.table(),
            (table_view(keys@), changed) == key_pass(ss.take(i as int), e, n, k0),
        decreases subs@.len() - i,
    {
        proof {
            assert(ss.take(i + 1).drop_last() =~= ss.take(i as int));
            assert(ss[i as int] == *subs@[i as int]);
        }
        let s = subs[i];
        if let Some(id) = s.field_str("id") {
            if lookup(keys, id).is_none() && refs_ready(s, id, keys) {
                let key = canonical_section(s, ext, keys, nums);
                let e2 = (id.to_owned(), key);
                proof {
                    lemma_table_view_push(keys@, e2);
                }
                keys.push(e2);
                changed = true;
            }
        }
        i += 1;
    }
    proof {
        assert(ss.take(i as int) =~= ss);
    }
    changed
}

fn build_sub_keys(doc: &Document, ext: &Vec<(String, String)>, nums: &NumberForms) -> (r: Vec<
    (String, String),
>)
    ensures
        table_view(r@) == sub_keys(doc.sections@, table_view(ext@), nums.table()),
{
    let subs = doc.sections_of(SectionKind::SubResource);
    let ghost ss = derefs(subs@);
    let ghost (e, n) = (table_view(ext@), nums.table());
    let ghost fuel = (ss.len() + 1) as nat;
    let mut keys: Vec<(String, String)> = Vec::new();
    let mut remaining = subs.len();
    proof {
        assert(table_view(keys@) =~= Seq::<(Seq<char>, Seq<char>)>::empty());
    }
    loop
        invariant_except_break
            settle_keys(ss, e, n, seq![], fuel) == settle_keys(
                ss,
                e,
                n,
                table_view(keys@),
                (remaining + 1) as nat,
            ),
        invariant
            ss == derefs(subs@),
            e == table_view(ext@),
            n == nums.table(),
            remaining <= subs@.len(),
        ensures
            settle_keys(ss, e, n, seq![], fuel) == table_view(keys@),
        decreases remaining,
    {
        let ghost before = table_view(keys@);
        let changed = key_pass_exec(&subs, ext, nums, &mut keys);
        proof {
            assert(settle_keys(ss, e, n, before, (remaining + 1) as nat) == if changed {
                settle_keys(ss, e, n, table_view(keys@), remaining as nat)
            } else {
                table_view(keys@)
            });
        }
        if !changed || remaining == 0 {
            break;
        }
        remaining -= 1;
    }
    let ghost settled = table_view(keys@);
    // Anything left is part of a reference cycle.
    let mut i: usize = 0;
    while i < subs.len()
        invariant
            i <= subs@.len(),
            ss == derefs(subs@),
            table_view(keys@) == fill_cycles(ss.take(i as int), settled),
        decreases subs@.len() - i,
    {
        proof {
            assert(ss.take(i + 1).drop_last() =~= ss.take(i as int));
            assert(ss[i as int] == *subs@[i as int]);
        }
        if let Some(id) = subs[i].field_str("id") {
            if lookup(&keys, id).is_none() {
                let mut k = String::new();
                push_str(&mut k, "cycle:");
                push_str(&mut k, id);
                let e2 = (id.to_owned(), k);
                proof {
                    lemma_table_view_push(keys@, e2);
                }
                keys.push(e2);
            }
        }
        i += 1;
    }
    proof {
        assert(ss.take(i as int) =~= ss);
    }
    let ghost filled = table_view(keys@);
    let mut bases: Vec<String> = Vec::new();
    let mut out: Vec<(String, String)> = Vec::new();
    let mut i: usize = 0;
    while i < subs.len()
        invariant
            i <= subs@.len(),
            ss == derefs(subs@),
            filled == table_view(keys@),
            bases@.len() <= i,
            Seq::new(bases@.len(), |m: int| bases@[m]@) == sub_bases(ss.take(i as int), filled),
            table_view(out@) == suffixed_keys(ss.take(i as int), filled),
        decreases subs@.len() - i,
    {
        proof {
            assert(ss.take(i + 1).drop_last() =~= ss.take(i as int));
            assert(ss[i as int] == *subs@[i as int]);
        }
        if let Some(id) = subs[i].field_str("id") {
            let mut base = String::new();
            match lookup(&keys, id) {
                Some(k) => push_str(&mut base, k.as_str()),
                None => {
                    push_str(&mut base, "?");
                    push_str(&mut base, id);
                },
            }
            let ghost bv = Seq::new(bases@.len(), |m: int| bases@[m]@);
            let mut count: usize = 0;
            let mut j: usize = 0;
            while j < bases.len()
                invariant
                    j <= bases@.len(),
                    count <= j,
                    bv == Seq::new(bases@.len(), |m: int| bases@[m]@),
                    count == count_of(bv.take(j as int), base@),
                decreases bases@.len() - j,
            {
                proof {
                    assert(bv.take(j + 1).drop_last() =~= bv.take(j as int));
                }
                if str_eq(bases[j].as_str(), base.as_str()) {
                    count += 1;
                }
                j += 1;
            }
            proof {
                assert(bv.take(j as int) =~= bv);
            }
            let mut key = String::new();
            push_str(&mut key, base.as_str());
            if count > 0 {
                push_str(&mut key, "~");
                let digits = decimal_text(count);
                push_str(&mut key, digits.as_str());
            }
            let e2 = (id.to_owned(), key);
            proof {
                lemma_table_view_push(out@, e2);
            }
            out.push(e2);
            bases.push(base);
            proof {
                assert(Seq::new(bases@.len(), |m: int| bases@[m]@) =~= bv.push(base_key(filled, id@)));
            }
        }
        i += 1;
    }
    proof {
        assert(ss.take(i as int) =~= ss);
    }
    out
}

// ---------------------------------------------------------------------------
// Identities.

/// The identity of one section.
pub open spec fn identity(s: Section, ext: Table, sub: Table, nums: Table) -> EntityIdView {
    match s.kind {
        SectionKind::GdScene => EntityIdView::Header,
        SectionKind::GdResource => EntityIdView::Header,
        SectionKind::Resource => EntityIdView::Resource,
        SectionKind::ExtResource => EntityIdView::Ext(
            str_or(
                field_str_spec(s, "uid"@),
                str_or(field_str_spec(s, "path"@), str_or(field_str_spec(s, "id"@), seq![])),
            ),
        ),
        SectionKind::SubResource => EntityIdView::Sub(
            match field_str_spec(s, "id"@) {
                Some(id) => str_or(table_get(sub, id), canon_section(s, ext, sub, nums)),
                None => canon_section(s, ext, sub, nums),
            },
        ),
        SectionKind::Node => EntityIdView::Node(node_path_spec(s)),
        SectionKind::Connection => EntityIdView::Connection(
            str_or(field_str_spec(s, "from"@), seq![]),
            str_or(field_str_spec(s, "to"@), seq![]),
            str_or(field_str_spec(s, "signal"@), seq![]),
            str_or(field_str_spec(s, "method"@), seq![]),
        ),
        SectionKind::Editable => EntityIdView::Editable(str_or(field_str_spec(s, "path"@), seq![])),
    }
}

fn field_or_empty(s: &Section, name: &str) -> (r: String)
    ensures
        r@ == str_or(field_str_spec(*s, name@), seq![]),
{
    let mut out = String::new();
    if let Some(v) = s.field_str(name) {
        push_str(&mut out, v);
    }
    proof {
        assert(out@ =~= str_or(field_str_spec(*s, name@), seq![]));
    }
    out
}

fn identity_of(
    s: &Section,
    ext: &Vec<(String, String)>,
    sub: &Vec<(String, String)>,
    nums: &NumberForms,
) -> (r: EntityId)
    ensures
        r@ == identity(*s, table_view(ext@), table_view(sub@), nums.table()),
{
    match s.kind {
        SectionKind::GdScene => EntityId::Header,
        SectionKind::GdResource => EntityId::Header,
        SectionKind::Resource => EntityId::Resource,
        SectionKind::ExtResource => {
            let key = match s.field_str("uid") {
                Some(u) => u.to_owned(),
                None => match s.field_str("path") {
                    Some(p) => p.to_owned(),
                    None => field_or_empty(s, "id"),
                },
            };
            EntityId::Ext(key)
        },
        SectionKind::SubResource => {
            let key = match s.field_str("id") {
                Some(id) => match lookup(sub, id) {
                    Some(k) => k.clone(),
                    None => canonical_section(s, ext, sub, nums),
                },
                None => canonical_section(s, ext, sub, nums),
            };
            EntityId::Sub(key)
        },
        SectionKind::Node => EntityId::Node(node_path(s)),
        SectionKind::Connection => EntityId::Connection(
            field_or_empty(s, "from"),
            field_or_empty(s, "to"),
            field_or_empty(s, "signal"),
            field_or_empty(s, "method"),
        ),
        SectionKind::Editable => EntityId::Editable(field_or_empty(s, "path")),
    }
}


// ---------------------------------------------------------------------------
// A document viewed through its identities.

pub open spec fn ids_view(s: Seq<EntityId>) -> Seq<EntityIdView> {
    Seq::new(s.len(), |i: int| s[i]@)
}

/// The identity of every section, in file order.
pub open spec fn scene_ids(ss: Seq<Section>, ext: Table, sub: Table, nums: Table) -> Seq<EntityIdView> {
    Seq::new(ss.len(), |i: int| identity(ss[i], ext, sub, nums))
}

/// Where `id` first occurs in `ids`.
pub open spec fn first_index(ids: Seq<EntityIdView>, id: EntityIdView) -> Option<int>
    decreases ids.len(),
{
    if ids.len() == 0 {
        None
    } else {
        match first_index(ids.drop_last(), id) {
            Some(i) => Some(i),
            None => if ids.last() == id {
                Some(ids.len() - 1)
            } else {
                None
            },
        }
    }
}

pub proof fn lemma_first_index(ids: Seq<EntityIdView>, id: EntityIdView)
    ensures
        first_index(ids, id) matches Some(i) ==> 0 <= i < ids.len() && ids[i] == id && forall|k: int|
            0 <= k < i ==> ids[k] != id,
        first_index(ids, id) is None ==> forall|k: int| 0 <= k < ids.len() ==> ids[k] != id,
    decreases ids.len(),
{
    if ids.len() > 0 {
        let d = ids.drop_last();
        lemma_first_index(d, id);
        assert forall|k: int| 0 <= k < d.len() implies d[k] == ids[k] by {}
    }
}

/// The canonical text of the first header field called `name`.
pub open spec fn canon_field(s: Section, name: Seq<char>, ext: Table, sub: Table, nums: Table) -> Option<
    Seq<char>,
> {
    match field_index(s.fields@, name) {
        Some(i) => Some(canon(s.fields@[i].value@, ext, sub, nums)),
        None => None,
    }
}

/// The canonical text of the first property whose key is `key`.
pub open spec fn canon_prop(s: Section, key: Seq<char>, ext: Table, sub: Table, nums: Table) -> Option<
    Seq<char>,
> {
    match prop_index(s.props@, key) {
        Some(i) => Some(canon(s.props@[i].value@, ext, sub, nums)),
        None => None,
    }
}

/// A label for an entity, with what only the document knows: the root node's
/// name, which its identity leaves out so that renaming the root is a property
/// change rather than a delete and an add.
pub open spec fn describe_in(ss: Seq<Section>, ids: Seq<EntityIdView>, id: EntityIdView) -> Seq<char> {
    if id == EntityIdView::Node("."@) && first_index(ids, id) is Some && field_str_spec(
        ss[first_index(ids, id)->Some_0],
        "name"@,
    ) is Some {
        "root node \""@ + field_str_spec(ss[first_index(ids, id)->Some_0], "name"@)->Some_0 + "\""@
    } else {
        describe_view(id)
    }
}

/// What a [`Scene`] holds, as the specifications see it.
pub struct SceneView {
    pub ss: Seq<Section>,
    pub ids: Seq<EntityIdView>,
    pub ext: Table,
    pub sub: Table,
    pub nums: Table,
}

/// The scene `Scene::new` builds for a document.
pub open spec fn scene_of(d: Document, nums: Table) -> SceneView {
    let ss = d.sections@;
    let ext = ext_keys(ss);
    let sub = sub_keys(ss, ext, nums);
    SceneView { ss, ids: scene_ids(ss, ext, sub, nums), ext, sub, nums }
}

/// A document viewed through its semantic identities.
pub struct Scene<'d> {
    pub doc: &'d Document,
    /// How number literals are spelled canonically.
    pub numbers: &'d NumberForms,
    /// Identity of each section, parallel to `doc.sections`.
    pub ids: Vec<EntityId>,
    /// `(id, key)` for each external resource.
    pub ext_key: Vec<(String, String)>,
    /// `(id, key)` for each sub-resource.
    pub sub_key: Vec<(String, String)>,
}

impl<'d> Scene<'d> {
    pub open spec fn id_views(&self) -> Seq<EntityIdView> {
        ids_view(self.ids@)
    }

    /// `(id, key)` for each external resource.
    pub open spec fn ext_table(&self) -> Table {
        table_view(self.ext_key@)
    }

    /// `(id, key)` for each sub-resource.
    pub open spec fn sub_table(&self) -> Table {
        table_view(self.sub_key@)
    }

    pub open spec fn view_of(&self) -> SceneView {
        SceneView {
            ss: self.doc.sections@,
            ids: self.id_views(),
            ext: self.ext_table(),
            sub: self.sub_table(),
            nums: self.numbers.table(),
        }
    }

    /// Whether there is an identity for each section.
    pub open spec fn wf(&self) -> bool {
        self.ids@.len() == self.doc.sections@.len()
    }

    /// Whether the scene holds what `new` computes for its document.
    pub open spec fn built(&self) -> bool {
        &&& self.ext_table() == ext_keys(self.doc.sections@)
        &&& self.sub_table() == sub_keys(self.doc.sections@, self.ext_table(), self.numbers.table())
        &&& self.id_views() == scene_ids(
            self.doc.sections@,
            self.ext_table(),
            self.sub_table(),
            self.numbers.table(),
        )
    }

    pub fn new(doc: &'d Document, numbers: &'d NumberForms) -> (s: Scene<'d>)
        ensures
            s.doc == doc,
            s.numbers == numbers,
            s.built(),
            s.wf(),
            s.view_of() == scene_of(*doc, numbers.table()),
    {
        let ext_key = build_ext_keys(doc);
        let sub_key = build_sub_keys(doc, &ext_key, numbers);
        let ghost (e, b, n) = (table_view(ext_key@), table_view(sub_key@), numbers.table());
        let mut ids: Vec<EntityId> = Vec::new();
        let mut i: usize = 0;
        while i < doc.sections.len()
            invariant
                i <= doc.sections@.len(),
                e == table_view(ext_key@),
                b == table_view(sub_key@),
                n == numbers.table(),
                ids@.len() == i,
                ids_view(ids@) == scene_ids(doc.sections@.take(i as int), e, b, n),
            decreases doc.sections@.len() - i,
        {
            let id = identity_of(&doc.sections[i], &ext_key, &sub_key, numbers);
            let ghost before = ids@;
            ids.push(id);
            proof {
                assert(ids@ == before.push(id));
                let want = scene_ids(doc.sections@.take(i + 1), e, b, n);
                assert forall|k: int| 0 <= k < i + 1 implies #[trigger] ids_view(ids@)[k] == want[k] by {
                    if k < i {
                        assert(ids@[k] == before[k]);
                        assert(ids_view(before)[k] == scene_ids(doc.sections@.take(i as int), e, b, n)[k]);
                        assert(doc.sections@.take(i + 1)[k] == doc.sections@.take(i as int)[k]);
                    } else {
                        assert(doc.sections@.take(i + 1)[k] == doc.sections@[i as int]);
                    }
                }
                assert(ids_view(ids@) =~= want);
            }
            i += 1;
        }
        proof {
            assert(doc.sections@.take(i as int) =~= doc.sections@);
        }
        Scene { doc, numbers, ids, ext_key, sub_key }
    }

    /// Identities in file order.
    pub fn ids(&self) -> (r: &[EntityId])
        ensures
            ids_view(r@) == self.id_views(),
    {
        self.ids.as_slice()
    }

    pub fn id_of(&self, index: usize) -> (r: &EntityId)
        requires
            index < self.id_views().len(),
        ensures
            r@ == self.id_views()[index as int],
    {
        &self.ids[index]
    }

    /// Where `id` first occurs; a duplicate keeps the first occurrence, and
    /// `check` reports the clash.
    pub fn index_of(&self, id: &EntityId) -> (r: Option<usize>)
        ensures
            match r {
                Some(j) => first_index(self.id_views(), id@) == Some(j as int),
                None => first_index(self.id_views(), id@) is None,
            },
    {
        let ghost v = self.id_views();
        let mut i: usize = 0;
        while i < self.ids.len()
            invariant
                i <= self.ids@.len(),
                v == ids_view(self.ids@),
                first_index(v.take(i as int), id@) is None,
            decreases self.ids@.len() - i,
        {
            proof {
                assert(v.take(i + 1).drop_last() =~= v.take(i as int));
            }
            if same_id(&self.ids[i], id) {
                proof {
                    lemma_first_index_prefix(v, id@, i + 1);
                }
                return Some(i);
            }
            i += 1;
        }
        proof {
            assert(v.take(i as int) =~= v);
        }
        None
    }

    pub fn section(&self, id: &EntityId) -> (r: Option<&'d Section>)
        requires
            self.wf(),
        ensures
            match first_index(self.id_views(), id@) {
                Some(i) => r == Some(&self.doc.sections@[i]),
                None => r is None,
            },
    {
        proof {
            lemma_first_index(self.id_views(), id@);
        }
        match self.index_of(id) {
            Some(i) => {
                proof {
                    assert(self.id_views().len() == self.doc.sections@.len());
                    assert(first_index(self.id_views(), id@) == Some(i as int));
                    assert(i < self.id_views().len());
                }
                let sec: &'d Section = &self.doc.sections[i];
                assert(*sec == self.doc.sections@[i as int]);
                Some(sec)
            },
            None => None,
        }
    }

    pub fn describe(&self, id: &EntityId) -> (r: String)
        requires
            self.wf(),
        ensures
            r@ == describe_in(self.doc.sections@, self.id_views(), id@),
    {
        let mut root = false;
        if let EntityId::Node(p) = id {
            root = str_eq(p.as_str(), ".");
        }
        proof {
            reveal_strlit(".");
        }
        if root {
            if let Some(s) = self.section(id) {
                if let Some(name) = s.field_str("name") {
                    let mut out = String::new();
                    push_str(&mut out, "root node \"");
                    push_str(&mut out, name);
                    push_str(&mut out, "\"");
                    return out;
                }
            }
        }
        id.describe()
    }

    /// Identity keys in file order, so ordering changes are observable.
    pub fn order(&self) -> (r: Vec<EntityId>)
        ensures
            ids_view(r@) == self.id_views(),
    {
        let mut out: Vec<EntityId> = Vec::new();
        let mut i: usize = 0;
        while i < self.ids.len()
            invariant
                i <= self.ids@.len(),
                out@.len() == i,
                ids_view(out@) == ids_view(self.ids@).take(i as int),
            decreases self.ids@.len() - i,
        {
            let ghost before = out@;
            let c = copy_id(&self.ids[i]);
            out.push(c);
            proof {
                assert(out@ == before.push(c));
                let want = ids_view(self.ids@).take(i + 1);
                assert forall|k: int| 0 <= k < i + 1 implies #[trigger] ids_view(out@)[k] == want[k] by {
                    if k < i {
                        assert(out@[k] == before[k]);
                        assert(ids_view(before)[k] == ids_view(self.ids@).take(i as int)[k]);
                    }
                }
                assert(ids_view(out@) =~= want);
            }
            i += 1;
        }
        proof {
            assert(ids_view(self.ids@).take(i as int) =~= ids_view(self.ids@));
        }
        out
    }

    /// The identity key a local resource id stands for.
    pub fn key_for(&self, kind: RefKind, id: &str) -> (r: Option<&str>)
        ensures
            match table_get(
                match kind {
                    RefKind::Ext => self.ext_table(),
                    RefKind::Sub => self.sub_table(),
                },
                id@,
            ) {
                Some(k) => r matches Some(x) && x@ == k,
                None => r is None,
            },
    {
        let table = match kind {
            RefKind::Ext => &self.ext_key,
            RefKind::Sub => &self.sub_key,
        };
        match lookup(table, id) {
            Some(k) => Some(k.as_str()),
            None => None,
        }
    }

    /// The canonical form of a section, used for equality between branches.
    pub fn canonical(&self, index: usize) -> (r: String)
        requires
            index < self.doc.sections@.len(),
        ensures
            r@ == canon_section(
                self.doc.sections@[index as int],
                self.ext_table(),
                self.sub_table(),
                self.numbers.table(),
            ),
    {
        canonical_section(&self.doc.sections[index], &self.ext_key, &self.sub_key, self.numbers)
    }

    /// Canonical form of one header field, ids resolved to identity keys.
    pub fn canonical_field(&self, section: &Section, name: &str) -> (r: Option<String>)
        ensures
            match canon_field(*section, name@, self.ext_table(), self.sub_table(), self.numbers.table()) {
                Some(c) => r matches Some(x) && x@ == c,
                None => r is None,
            },
    {
        match section.field(name) {
            Some(f) => Some(f.value.canonical(&self.ext_key, &self.sub_key, self.numbers)),
            None => None,
        }
    }

    /// Canonical form of one property, ids resolved to identity keys.
    pub fn canonical_prop(&self, section: &Section, key: &str) -> (r: Option<String>)
        ensures
            match canon_prop(*section, key@, self.ext_table(), self.sub_table(), self.numbers.table()) {
                Some(c) => r matches Some(x) && x@ == c,
                None => r is None,
            },
    {
        match section.prop(key) {
            Some(p) => Some(p.value.canonical(&self.ext_key, &self.sub_key, self.numbers)),
            None => None,
        }
    }
}

proof fn lemma_first_index_prefix(v: Seq<EntityIdView>, id: EntityIdView, k: int)
    requires
        0 < k <= v.len(),
        first_index(v.take(k - 1), id) is None,
        v[k - 1] == id,
    ensures
        first_index(v, id) == Some(k - 1),
    decreases v.len(),
{
    if k < v.len() {
        assert(v.drop_last().take(k - 1) =~= v.take(k - 1));
        lemma_first_index_prefix(v.drop_last(), id, k);
    } else {
        assert(v.drop_last() =~= v.take(k - 1));
    }
}

} // verus!
