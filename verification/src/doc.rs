//! The lossless document model: every character of the source is stored in
//! exactly one field, so `Document::to_source` reproduces the input verbatim.
use vstd::prelude::*;

use crate::error::{error_at, ParseError, ParseErrorKind};
use crate::lex::{lemma_lex_at_bounds, lemma_lex_at_text, lemma_trivia_end, lemma_trivia_end_at, lex_at, trivia_end, Cursor, Tok, TokView};
use crate::text::{chars_of, push_str, str_eq, string_of};
use crate::value::{any_ref_views, any_refs, collect_refs, grammar_value, parse_value, path_views, ref_views, value_paths, value_refs, PathRef, Pointers, RefKind, Value, ValueRef, ValueView};

verus! {

broadcast use vstd::string::group_string_axioms;

#[derive(Debug, Clone, Copy, PartialEq, Eq, Hash, Structural)]
pub enum SectionKind {
    GdScene,
    GdResource,
    ExtResource,
    SubResource,
    Node,
    Connection,
    Editable,
    /// The `[resource]` section of a `.tres` file.
    Resource,
}

/// The kind a section tag names, if it names one.
pub open spec fn kind_of_tag(tag: Seq<char>) -> Option<SectionKind> {
    if tag == "gd_scene"@ {
        Some(SectionKind::GdScene)
    } else if tag == "gd_resource"@ {
        Some(SectionKind::GdResource)
    } else if tag == "ext_resource"@ {
        Some(SectionKind::ExtResource)
    } else if tag == "sub_resource"@ {
        Some(SectionKind::SubResource)
    } else if tag == "node"@ {
        Some(SectionKind::Node)
    } else if tag == "connection"@ {
        Some(SectionKind::Connection)
    } else if tag == "editable"@ {
        Some(SectionKind::Editable)
    } else if tag == "resource"@ {
        Some(SectionKind::Resource)
    } else {
        None
    }
}

impl SectionKind {
    pub open spec fn tag_spec(self) -> Seq<char> {
        match self {
            SectionKind::GdScene => "gd_scene"@,
            SectionKind::GdResource => "gd_resource"@,
            SectionKind::ExtResource => "ext_resource"@,
            SectionKind::SubResource => "sub_resource"@,
            SectionKind::Node => "node"@,
            SectionKind::Connection => "connection"@,
            SectionKind::Editable => "editable"@,
            SectionKind::Resource => "resource"@,
        }
    }

    pub open spec fn is_derived_spec(self, name: Seq<char>) -> bool {
        match self {
            SectionKind::GdScene | SectionKind::GdResource => name == "load_steps"@,
            SectionKind::ExtResource | SectionKind::SubResource => name == "id"@,
            _ => false,
        }
    }

    pub fn from_tag(tag: &str) -> (k: Option<SectionKind>)
        ensures
            k == kind_of_tag(tag@),
    {
        if str_eq(tag, "gd_scene") {
            Some(SectionKind::GdScene)
        } else if str_eq(tag, "gd_resource") {
            Some(SectionKind::GdResource)
        } else if str_eq(tag, "ext_resource") {
            Some(SectionKind::ExtResource)
        } else if str_eq(tag, "sub_resource") {
            Some(SectionKind::SubResource)
        } else if str_eq(tag, "node") {
            Some(SectionKind::Node)
        } else if str_eq(tag, "connection") {
            Some(SectionKind::Connection)
        } else if str_eq(tag, "editable") {
            Some(SectionKind::Editable)
        } else if str_eq(tag, "resource") {
            Some(SectionKind::Resource)
        } else {
            None
        }
    }

    /// Whether a header field carries no meaning of its own: `load_steps` is
    /// recomputed from the resource counts, and a resource's `id` is randomised
    /// per file. Neither is a difference worth reporting or merging.
    pub fn is_derived_field(self, name: &str) -> (r: bool)
        ensures
            r == self.is_derived_spec(name@),
    {
        match self {
            SectionKind::GdScene | SectionKind::GdResource => str_eq(name, "load_steps"),
            SectionKind::ExtResource | SectionKind::SubResource => str_eq(name, "id"),
            _ => false,
        }
    }

    pub fn tag(self) -> (s: &'static str)
        ensures
            s@ == self.tag_spec(),
    {
        match self {
            SectionKind::GdScene => "gd_scene",
            SectionKind::GdResource => "gd_resource",
            SectionKind::ExtResource => "ext_resource",
            SectionKind::SubResource => "sub_resource",
            SectionKind::Node => "node",
            SectionKind::Connection => "connection",
            SectionKind::Editable => "editable",
            SectionKind::Resource => "resource",
        }
    }
}

/// Every section kind is read back from the tag it is written with.
pub proof fn lemma_tag_round_trip(k: SectionKind)
    ensures
        kind_of_tag(k.tag_spec()) == Some(k),
{
    reveal_strlit("gd_scene");
    reveal_strlit("gd_resource");
    reveal_strlit("ext_resource");
    reveal_strlit("sub_resource");
    reveal_strlit("node");
    reveal_strlit("connection");
    reveal_strlit("editable");
    reveal_strlit("resource");
    assert("gd_scene"@[0] == 'g' && "gd_resource"@[0] == 'g' && "ext_resource"@[0] == 'e');
    assert("sub_resource"@[0] == 's' && "node"@[0] == 'n' && "connection"@[0] == 'c');
    assert("editable"@[0] == 'e' && "resource"@[0] == 'r');
    assert("gd_scene"@.len() == 8 && "gd_resource"@.len() == 11);
    assert("ext_resource"@.len() == 12 && "editable"@.len() == 8);
    assert("gd_resource"@ != "gd_scene"@);
    assert("editable"@ != "ext_resource"@);
}

/// A `name=value` pair inside a section header.
#[derive(Debug)]
pub struct Field {
    /// Source text between the previous header item and this field's name.
    pub sep_before: String,
    pub name: String,
    /// Source text between the name and `=`.
    pub sep_eq: String,
    /// Source text between `=` and the value.
    pub sep_val: String,
    pub value: Value,
    /// Exact source text of the value.
    pub value_raw: String,
    /// Resource references inside `value_raw`, with spans relative to it.
    pub refs: Vec<ValueRef>,
    /// Node paths inside `value_raw`, with spans relative to it.
    pub paths: Vec<PathRef>,
}

/// A `key = value` assignment following a section header.
#[derive(Debug)]
pub struct Property {
    /// Whitespace and `;` comments preceding the key.
    pub lead: String,
    /// Exact source text of the key, including quotes when it is quoted.
    pub key_raw: String,
    /// Decoded key, as Godot's loader sees it.
    pub key: String,
    /// Source text between the key and `=`.
    pub sep_eq: String,
    /// Source text between `=` and the value.
    pub sep_val: String,
    pub value: Value,
    pub value_raw: String,
    /// Resource references inside `value_raw`, with spans relative to it.
    pub refs: Vec<ValueRef>,
    /// Node paths inside `value_raw`, with spans relative to it.
    pub paths: Vec<PathRef>,
}

#[derive(Debug)]
pub struct Section {
    pub kind: SectionKind,
    pub tag: String,
    /// Source text between `[` and the tag name.
    pub open_sep: String,
    pub fields: Vec<Field>,
    /// Source text between the last header item and `]`.
    pub close_sep: String,
    pub props: Vec<Property>,
    /// Everything after the last property up to the next section or the end.
    pub trailing: String,
}

#[derive(Debug)]
pub struct Document {
    /// Whitespace and comments preceding the first section.
    pub lead: String,
    pub sections: Vec<Section>,
}

// ---------------------------------------------------------------------------
// The text each part of a document stands for.

pub open spec fn field_text(f: Field) -> Seq<char> {
    f.sep_before@ + f.name@ + f.sep_eq@ + seq!['='] + f.sep_val@ + f.value_raw@
}

pub open spec fn fields_text(fs: Seq<Field>) -> Seq<char>
    decreases fs.len(),
{
    if fs.len() == 0 {
        seq![]
    } else {
        fields_text(fs.drop_last()) + field_text(fs.last())
    }
}

pub open spec fn prop_text(p: Property) -> Seq<char> {
    p.lead@ + p.key_raw@ + p.sep_eq@ + seq!['='] + p.sep_val@ + p.value_raw@
}

pub open spec fn props_text(ps: Seq<Property>) -> Seq<char>
    decreases ps.len(),
{
    if ps.len() == 0 {
        seq![]
    } else {
        props_text(ps.drop_last()) + prop_text(ps.last())
    }
}

/// A section's header: `[`, the tag, the fields and `]`.
pub open spec fn header_text(s: Section) -> Seq<char> {
    seq!['['] + s.open_sep@ + s.tag@ + fields_text(s.fields@) + s.close_sep@ + seq![']']
}

pub open spec fn section_text(s: Section) -> Seq<char> {
    header_text(s) + props_text(s.props@) + s.trailing@
}

pub open spec fn sections_text(ss: Seq<Section>) -> Seq<char>
    decreases ss.len(),
{
    if ss.len() == 0 {
        seq![]
    } else {
        sections_text(ss.drop_last()) + section_text(ss.last())
    }
}

pub open spec fn doc_text(d: Document) -> Seq<char> {
    d.lead@ + sections_text(d.sections@)
}

proof fn lemma_fields_text_step(fs: Seq<Field>, i: int)
    requires
        0 <= i < fs.len(),
    ensures
        fields_text(fs.take(i + 1)) == fields_text(fs.take(i)) + field_text(fs[i]),
{
    assert(fs.take(i + 1).drop_last() =~= fs.take(i));
}

proof fn lemma_props_text_step(ps: Seq<Property>, i: int)
    requires
        0 <= i < ps.len(),
    ensures
        props_text(ps.take(i + 1)) == props_text(ps.take(i)) + prop_text(ps[i]),
{
    assert(ps.take(i + 1).drop_last() =~= ps.take(i));
}

proof fn lemma_sections_text_step(ss: Seq<Section>, i: int)
    requires
        0 <= i < ss.len(),
    ensures
        sections_text(ss.take(i + 1)) == sections_text(ss.take(i)) + section_text(ss[i]),
{
    assert(ss.take(i + 1).drop_last() =~= ss.take(i));
}

fn push_fields(out: &mut String, fields: &Vec<Field>)
    ensures
        final(out)@ == old(out)@ + fields_text(fields@),
{
    let mut i: usize = 0;
    while i < fields.len()
        invariant
            i <= fields@.len(),
            out@ == old(out)@ + fields_text(fields@.take(i as int)),
        decreases fields@.len() - i,
    {
        let f = &fields[i];
        proof {
            lemma_fields_text_step(fields@, i as int);
        }
        push_str(out, f.sep_before.as_str());
        push_str(out, f.name.as_str());
        push_str(out, f.sep_eq.as_str());
        out.push('=');
        push_str(out, f.sep_val.as_str());
        push_str(out, f.value_raw.as_str());
        i += 1;
        proof {
            assert(out@ =~= old(out)@ + fields_text(fields@.take(i as int)));
        }
    }
    proof {
        assert(fields@.take(i as int) =~= fields@);
    }
}

fn push_props(out: &mut String, props: &Vec<Property>)
    ensures
        final(out)@ == old(out)@ + props_text(props@),
{
    let mut i: usize = 0;
    while i < props.len()
        invariant
            i <= props@.len(),
            out@ == old(out)@ + props_text(props@.take(i as int)),
        decreases props@.len() - i,
    {
        let p = &props[i];
        proof {
            lemma_props_text_step(props@, i as int);
        }
        push_str(out, p.lead.as_str());
        push_str(out, p.key_raw.as_str());
        push_str(out, p.sep_eq.as_str());
        out.push('=');
        push_str(out, p.sep_val.as_str());
        push_str(out, p.value_raw.as_str());
        i += 1;
        proof {
            assert(out@ =~= old(out)@ + props_text(props@.take(i as int)));
        }
    }
    proof {
        assert(props@.take(i as int) =~= props@);
    }
}

impl Section {
    /// Appends the section's source text to `out`.
    pub fn write_source(&self, out: &mut String)
        ensures
            final(out)@ == old(out)@ + section_text(*self),
    {
        out.push('[');
        push_str(out, self.open_sep.as_str());
        push_str(out, self.tag.as_str());
        push_fields(out, &self.fields);
        push_str(out, self.close_sep.as_str());
        out.push(']');
        push_props(out, &self.props);
        push_str(out, self.trailing.as_str());
        proof {
            assert(out@ =~= old(out)@ + section_text(*self));
        }
    }
}

impl Document {
    /// Reproduces the source text. For an unmodified document this is exact.
    pub fn to_source(&self) -> (s: String)
        ensures
            s@ == doc_text(*self),
    {
        let mut out = String::new();
        push_str(&mut out, self.lead.as_str());
        let mut i: usize = 0;
        while i < self.sections.len()
            invariant
                i <= self.sections@.len(),
                out@ == self.lead@ + sections_text(self.sections@.take(i as int)),
            decreases self.sections@.len() - i,
        {
            proof {
                lemma_sections_text_step(self.sections@, i as int);
            }
            self.sections[i].write_source(&mut out);
            i += 1;
            proof {
                assert(out@ =~= self.lead@ + sections_text(self.sections@.take(i as int)));
            }
        }
        proof {
            assert(self.sections@.take(i as int) =~= self.sections@);
        }
        out
    }
}

// ---------------------------------------------------------------------------
// What a parsed part records besides its text.

/// Every span lies inside a text of length `len`.
pub open spec fn spans_fit(refs: Seq<ValueRef>, paths: Seq<PathRef>, len: int) -> bool {
    &&& forall|i: int| 0 <= i < refs.len() ==> #[trigger] refs[i].span.start <= refs[i].span.end <= len
    &&& forall|i: int| 0 <= i < paths.len() ==> #[trigger] paths[i].span.start <= paths[i].span.end <= len
}

/// A field's references and paths are those of its value, in order, with spans
/// inside its raw text.
pub open spec fn field_wf(f: Field) -> bool {
    &&& spans_fit(f.refs@, f.paths@, f.value_raw@.len() as int)
    &&& ref_views(f.refs@) == value_refs(f.value@)
    &&& path_views(f.paths@) == value_paths(f.value@)
}

pub open spec fn prop_wf(p: Property) -> bool {
    &&& spans_fit(p.refs@, p.paths@, p.value_raw@.len() as int)
    &&& ref_views(p.refs@) == value_refs(p.value@)
    &&& path_views(p.paths@) == value_paths(p.value@)
}

pub open spec fn section_wf(s: Section) -> bool {
    &&& kind_of_tag(s.tag@) == Some(s.kind)
    &&& forall|i: int| 0 <= i < s.fields@.len() ==> field_wf(#[trigger] s.fields@[i])
    &&& forall|i: int| 0 <= i < s.props@.len() ==> prop_wf(#[trigger] s.props@[i])
}

impl Document {
    /// What every parsed document satisfies: it opens with a `[gd_scene]` or
    /// `[gd_resource]` header, and each section is well formed.
    pub open spec fn wf(&self) -> bool {
        &&& self.sections@.len() > 0
        &&& (self.sections@[0].kind is GdScene || self.sections@[0].kind is GdResource)
        &&& forall|i: int| 0 <= i < self.sections@.len() ==> section_wf(#[trigger] self.sections@[i])
    }
}

proof fn lemma_cat(s: Seq<char>, a: int, b: int, c: int)
    requires
        0 <= a <= b <= c <= s.len(),
    ensures
        s.subrange(a, b) + s.subrange(b, c) == s.subrange(a, c),
{
    assert(s.subrange(a, b) + s.subrange(b, c) =~= s.subrange(a, c));
}

/// Moves spans from document coordinates into the value's own.
fn rebase(p: Pointers, base: usize, Ghost(end): Ghost<int>) -> (q: Pointers)
    requires
        forall|i: int| 0 <= i < p.refs@.len() ==> base <= #[trigger] p.refs@[i].span.start
            <= p.refs@[i].span.end <= end,
        forall|i: int| 0 <= i < p.paths@.len() ==> base <= #[trigger] p.paths@[i].span.start
            <= p.paths@[i].span.end <= end,
    ensures
        ref_views(q.refs@) == ref_views(p.refs@),
        path_views(q.paths@) == path_views(p.paths@),
        spans_fit(q.refs@, q.paths@, end - base),
        q.refs@.len() == p.refs@.len(),
        q.paths@.len() == p.paths@.len(),
        forall|i: int| 0 <= i < q.refs@.len() ==> #[trigger] q.refs@[i].span.start == p.refs@[i].span.start - base
            && q.refs@[i].span.end == p.refs@[i].span.end - base,
        forall|i: int| 0 <= i < q.paths@.len() ==> #[trigger] q.paths@[i].span.start == p.paths@[i].span.start - base
            && q.paths@[i].span.end == p.paths@[i].span.end - base,
{
    let mut refs: Vec<ValueRef> = Vec::new();
    let mut i: usize = 0;
    while i < p.refs.len()
        invariant
            i <= p.refs@.len(),
            refs@.len() == i,
            forall|j: int| 0 <= j < p.refs@.len() ==> base <= #[trigger] p.refs@[j].span.start
                <= p.refs@[j].span.end <= end,
            forall|j: int| 0 <= j < i ==> (#[trigger] refs@[j]).kind == p.refs@[j].kind && refs@[j].id@
                == p.refs@[j].id@ && refs@[j].span.start == p.refs@[j].span.start - base
                && refs@[j].span.end == p.refs@[j].span.end - base,
        decreases p.refs@.len() - i,
    {
        let r = &p.refs[i];
        refs.push(ValueRef { kind: r.kind, id: r.id.clone(), span: (r.span.start - base)..(r.span.end - base) });
        i += 1;
    }
    assert(ref_views(refs@) =~= ref_views(p.refs@));
    assert forall|j: int| 0 <= j < refs@.len() implies #[trigger] refs@[j].span.start <= refs@[j].span.end
        <= end - base by {
        assert(refs@[j].kind == p.refs@[j].kind);
        assert(base <= p.refs@[j].span.start <= p.refs@[j].span.end <= end);
    }
    let mut paths: Vec<PathRef> = Vec::new();
    let mut i: usize = 0;
    while i < p.paths.len()
        invariant
            i <= p.paths@.len(),
            paths@.len() == i,
            refs@.len() == p.refs@.len(),
            ref_views(refs@) == ref_views(p.refs@),
            forall|j: int| 0 <= j < refs@.len() ==> #[trigger] refs@[j].span.start <= refs@[j].span.end
                <= end - base,
            forall|j: int| 0 <= j < refs@.len() ==> (#[trigger] refs@[j]).span.start == p.refs@[j].span.start - base
                && refs@[j].span.end == p.refs@[j].span.end - base,
            forall|j: int| 0 <= j < p.paths@.len() ==> base <= #[trigger] p.paths@[j].span.start
                <= p.paths@[j].span.end <= end,
            forall|j: int| 0 <= j < i ==> (#[trigger] paths@[j]).path@ == p.paths@[j].path@
                && paths@[j].span.start == p.paths@[j].span.start - base
                && paths@[j].span.end == p.paths@[j].span.end - base,
        decreases p.paths@.len() - i,
    {
        let r = &p.paths[i];
        paths.push(PathRef { path: r.path.clone(), span: (r.span.start - base)..(r.span.end - base) });
        i += 1;
    }
    assert(path_views(paths@) =~= path_views(p.paths@));
    assert forall|j: int| 0 <= j < paths@.len() implies #[trigger] paths@[j].span.start <= paths@[j].span.end
        <= end - base by {
        assert(paths@[j].path@ == p.paths@[j].path@);
        assert(base <= p.paths@[j].span.start <= p.paths@[j].span.end <= end);
    }
    Pointers { refs, paths }
}

// ---------------------------------------------------------------------------
// What the parser accepts, as spec functions over the text. Values follow the
// value grammar; sections, properties and the document around them are here.

/// Named values, in order: a section's header fields or its properties.
pub type Items = Seq<(Seq<char>, ValueView)>;

/// What a section says: its kind, its header fields and its properties.
pub type SectionItems = (SectionKind, Items, Items);

pub open spec fn field_items(fs: Seq<Field>) -> Items {
    Seq::new(fs.len(), |i: int| (fs[i].name@, fs[i].value@))
}

pub open spec fn prop_items(ps: Seq<Property>) -> Items {
    Seq::new(ps.len(), |i: int| (ps[i].key@, ps[i].value@))
}

pub open spec fn section_items(s: Section) -> SectionItems {
    (s.kind, field_items(s.fields@), prop_items(s.props@))
}

/// What each section of a document says, in order.
pub open spec fn doc_items(ss: Seq<Section>) -> Seq<SectionItems> {
    Seq::new(ss.len(), |i: int| section_items(ss[i]))
}

/// What the sections read so far say, the open one last.
pub open spec fn open_items(ss: Seq<Section>, current: Option<Section>) -> Seq<SectionItems> {
    doc_items(ss) + match current {
        Some(c) => seq![section_items(c)],
        None => seq![],
    }
}

/// The fields of a section header from `q` up to and including its `]`,
/// after the fields `acc`: all of them and where the header ends, or `None`
/// where the parser refuses it.
pub open spec fn grammar_fields(s: Seq<char>, q: int, acc: Items) -> Option<(Items, int)>
    decreases s.len() - q,
{
    if q < 0 || q > s.len() {
        None
    } else {
        match lex_at(s, q) {
            Ok((TokView::RBracket, _, e)) => Some((acc, e)),
            Ok((TokView::Ident(name), _, e)) => match lex_at(s, e) {
                Ok((TokView::Equal, _, e2)) => match lex_at(s, e2) {
                    Ok((_, v, _)) => match grammar_value(s, v, 0) {
                        Some((value, end)) => if q < end <= s.len() {
                            grammar_fields(s, end, acc.push((name, value)))
                        } else {
                            None
                        },
                        None => None,
                    },
                    Err(_) => None,
                },
                _ => None,
            },
            _ => None,
        }
    }
}

/// A section header from `p`, on its `[`: its kind, its fields and where it
/// ends, or `None` where the parser refuses it. A suffixed tag such as
/// `[some_prop.Android]` names no section this parser knows.
pub open spec fn grammar_section(s: Seq<char>, p: int) -> Option<(SectionKind, Items, int)> {
    match lex_at(s, p) {
        Ok((TokView::LBracket, _, e1)) => match lex_at(s, e1) {
            Ok((TokView::Ident(tag), _, e2)) => match lex_at(s, e2) {
                Ok((t, _, _)) => if t is Period || t is Colon {
                    None
                } else {
                    match kind_of_tag(tag) {
                        Some(k) => match grammar_fields(s, e2, seq![]) {
                            Some((fs, end)) => Some((k, fs, end)),
                            None => None,
                        },
                        None => None,
                    }
                },
                Err(_) => None,
            },
            _ => None,
        },
        _ => None,
    }
}

/// Where each part of a header field lies: where the item starts, the name's
/// start and end, the `=`'s start and end, and the value's start and end.
pub type FieldSpan = (int, int, int, int, int, int, int);

/// The parts of the header fields from `q`, after the fields `acc`: every
/// field's parts, where the text before `]` starts, and where `]` starts.
pub open spec fn field_parts(s: Seq<char>, q: int, acc: Seq<FieldSpan>) -> Option<(Seq<FieldSpan>, int, int)>
    decreases s.len() - q,
{
    if q < 0 || q > s.len() {
        None
    } else {
        match lex_at(s, q) {
            Ok((TokView::RBracket, a, _)) => Some((acc, q, a)),
            Ok((TokView::Ident(_), a, e)) => match lex_at(s, e) {
                Ok((TokView::Equal, a2, e2)) => match lex_at(s, e2) {
                    Ok((_, v, _)) => match grammar_value(s, v, 0) {
                        Some((_, end)) => if q < end <= s.len() {
                            field_parts(s, end, acc.push((q, a, e, a2, e2, v, end)))
                        } else {
                            None
                        },
                        None => None,
                    },
                    Err(_) => None,
                },
                _ => None,
            },
            _ => None,
        }
    }
}

/// The parts of a section header from `p`: where the text after `[` ends
/// (the tag's start) and where the tag ends.
pub open spec fn header_parts(s: Seq<char>, p: int) -> Option<(int, int, int)> {
    match lex_at(s, p) {
        Ok((TokView::LBracket, _, e1)) => match lex_at(s, e1) {
            Ok((TokView::Ident(_), a2, e2)) => Some((e1, a2, e2)),
            _ => None,
        },
        _ => None,
    }
}

/// Each field of `fs` is the text at its parts.
pub open spec fn fields_at(s: Seq<char>, fs: Seq<Field>, spans: Seq<FieldSpan>) -> bool {
    &&& fs.len() == spans.len()
    &&& forall|i: int|
        #![trigger fs[i]]
        0 <= i < fs.len() ==> {
            let (q, a, e, a2, e2, v, end) = spans[i];
            &&& fs[i].sep_before@ == s.subrange(q, a)
            &&& fs[i].name@ == s.subrange(a, e)
            &&& fs[i].sep_eq@ == s.subrange(e, a2)
            &&& fs[i].sep_val@ == s.subrange(e2, v)
            &&& fs[i].value_raw@ == s.subrange(v, end)
        }
}

/// The parts of a `key = value` line from `start`: where the key ends, where
/// `=` is, and where the value starts and ends.
pub open spec fn property_parts(s: Seq<char>, start: int) -> Option<(int, int, int, int)> {
    let key_end: Option<int> = if 0 <= start < s.len() && s[start] == '"' {
        match lex_at(s, start) {
            Ok((TokView::Str { .. }, _, e)) => Some(e),
            _ => None,
        }
    } else {
        let i = key_stop(s, start);
        if i >= s.len() || s[i] == '\n' {
            None
        } else {
            Some(trim_back(s, start, i))
        }
    };
    match key_end {
        None => None,
        Some(ke) => {
            let eq = eq_from(s, ke);
            if eq >= s.len() {
                None
            } else {
                match lex_at(s, eq + 1) {
                    Ok((_, v, _)) => match grammar_value(s, v, 0) {
                        Some((_, end)) => Some((ke, eq, v, end)),
                        None => None,
                    },
                    Err(_) => None,
                }
            }
        }
    }
}

/// Where an unquoted key stops: the first `=` or line break from `i`.
pub open spec fn key_stop(s: Seq<char>, i: int) -> int
    decreases s.len() - i,
{
    if i < 0 || i >= s.len() || s[i] == '=' || s[i] == '\n' {
        i
    } else {
        key_stop(s, i + 1)
    }
}

/// `k` moved back over the white space before it, not below `start`.
pub open spec fn trim_back(s: Seq<char>, start: int, k: int) -> int
    decreases k - start,
{
    if k > start && 0 < k <= s.len() && is_white_space(s[k - 1]) {
        trim_back(s, start, k - 1)
    } else {
        k
    }
}

/// The first `=` from `i`, or the end of the text.
pub open spec fn eq_from(s: Seq<char>, i: int) -> int
    decreases s.len() - i,
{
    if i < 0 || i >= s.len() || s[i] == '=' {
        i
    } else {
        eq_from(s, i + 1)
    }
}

/// A `key = value` line from `start`: its key as Godot's loader reads it,
/// its value and where it ends, or `None` where the parser refuses it.
pub open spec fn grammar_property(s: Seq<char>, start: int) -> Option<(Seq<char>, ValueView, int)> {
    let key: Option<(Seq<char>, int)> = if 0 <= start < s.len() && s[start] == '"' {
        match lex_at(s, start) {
            Ok((TokView::Str { value, .. }, _, e)) => Some((value, e)),
            _ => None,
        }
    } else {
        let i = key_stop(s, start);
        if i >= s.len() || s[i] == '\n' {
            None
        } else {
            Some((visible(s.subrange(start, i)), trim_back(s, start, i)))
        }
    };
    match key {
        None => None,
        Some((k, ke)) => {
            let eq = eq_from(s, ke);
            if eq >= s.len() {
                None
            } else {
                match lex_at(s, eq + 1) {
                    Ok((_, v, _)) => match grammar_value(s, v, 0) {
                        Some((value, end)) => Some((k, value, end)),
                        None => None,
                    },
                    Err(_) => None,
                }
            }
        }
    }
}

/// `acc` with a property added to its last section.
pub open spec fn add_item(acc: Seq<SectionItems>, key: Seq<char>, value: ValueView) -> Seq<SectionItems> {
    acc.update(acc.len() - 1, (acc.last().0, acc.last().1, acc.last().2.push((key, value))))
}

/// What the rest of `s` from `consumed` says, after the sections `acc` read
/// so far: sections and properties in turn, a property only once a section
/// is open; `None` where the parser refuses a section or a property.
pub open spec fn grammar_body(s: Seq<char>, consumed: int, acc: Seq<SectionItems>) -> Option<Seq<SectionItems>>
    decreases s.len() - consumed,
{
    let at = trivia_end(s, consumed);
    if consumed < 0 || consumed > s.len() {
        None
    } else if !(0 <= at < s.len()) {
        Some(acc)
    } else if s[at] == '[' {
        match grammar_section(s, at) {
            Some((k, fs, e)) => if consumed < e <= s.len() {
                grammar_body(s, e, acc.push((k, fs, seq![])))
            } else {
                None
            },
            None => None,
        }
    } else if acc.len() == 0 {
        None
    } else {
        match grammar_property(s, at) {
            Some((key, value, e)) => if consumed < e <= s.len() {
                grammar_body(s, e, add_item(acc, key, value))
            } else {
                None
            },
            None => None,
        }
    }
}

/// Whether the sections read are those of a Godot text resource: there is
/// one, and the first is a `gd_scene` or `gd_resource` header.
pub open spec fn resource_items(acc: Seq<SectionItems>) -> bool {
    acc.len() > 0 && (acc[0].0 is GdScene || acc[0].0 is GdResource)
}

/// What the rest of `s` from `consumed` says, after the sections `acc`, where
/// the whole is a Godot text resource; `None` where the parser refuses it.
pub open spec fn grammar_doc(s: Seq<char>, consumed: int, acc: Seq<SectionItems>) -> Option<Seq<SectionItems>> {
    match grammar_body(s, consumed, acc) {
        Some(a) => if resource_items(a) {
            Some(a)
        } else {
            None
        },
        None => None,
    }
}

/// Whether `s` parses as a document.
pub open spec fn accepts(s: Seq<char>) -> bool {
    grammar_doc(s, 0, seq![]) is Some
}

/// `d` is what `src` parses to: a well-formed document that replays `src`
/// and whose sections say what the grammar reads in it.
pub open spec fn parses_to(src: Seq<char>, d: Document) -> bool {
    &&& doc_text(d) == src
    &&& d.wf()
    &&& grammar_doc(src, 0, seq![]) == Some(doc_items(d.sections@))
}

/// Parses one value starting at `value_start`, and gives it with its raw text
/// and its pointers relative to that text.
fn parse_raw_value(cur: &mut Cursor, src: &[char], value_start: usize) -> (r: Result<(Value, String, Pointers), ParseError>)
    requires
        old(cur).wf(),
        src@ == old(cur).text(),
        value_start <= src@.len(),
    ensures
        final(cur).wf(),
        final(cur).text() == old(cur).text(),
        match grammar_value(src@, value_start as int, old(cur).depth()) {
            Some((gv, q)) => r matches Ok((v, _, _)) && v@ == gv && final(cur).last() == q,
            None => r is Err,
        },
        r is Ok ==> final(cur).depth() == old(cur).depth(),
        r matches Ok((v, raw, ptrs)) ==> {
            &&& raw@ == src@.subrange(value_start as int, final(cur).last())
            &&& value_start < final(cur).last() <= src@.len()
            &&& final(cur).at() == final(cur).last()
            &&& spans_fit(ptrs.refs@, ptrs.paths@, raw@.len() as int)
            &&& ref_views(ptrs.refs@) == value_refs(v@)
            &&& path_views(ptrs.paths@) == value_paths(v@)
        },
{
    cur.seek(value_start);
    let mut ptrs = Pointers::new();
    let ghost empty = ptrs;
    let value = parse_value(cur, &mut ptrs)?;
    proof {
        cur.lemma_wf();
        reveal(Pointers::extends);
        assert(ref_views(empty.refs@) =~= Seq::<(RefKind, Seq<char>)>::empty());
        assert(path_views(empty.paths@) =~= Seq::<Seq<char>>::empty());
    }
    cur.reset_to_end();
    let value_end = cur.end();
    let raw = string_of(src, value_start, value_end);
    let ptrs = rebase(ptrs, value_start, Ghost(value_end as int));
    Ok((value, raw, ptrs))
}

/// Parses a section header, with the cursor on its `[`.
fn parse_section(cur: &mut Cursor, src: &[char]) -> (r: Result<Section, ParseError>)
    requires
        old(cur).wf(),
        src@ == old(cur).text(),
        old(cur).at() == old(cur).last(),
        old(cur).at() < src@.len(),
        src@[old(cur).at()] == '[',
        old(cur).depth() == 0,
    ensures
        final(cur).wf(),
        final(cur).text() == old(cur).text(),
        (r is Ok) == (grammar_section(src@, old(cur).at()) is Some),
        r matches Ok(sec) ==> grammar_section(src@, old(cur).at()) == Some(
            (sec.kind, field_items(sec.fields@), final(cur).last()),
        ) && final(cur).depth() == 0,
        r matches Ok(sec) ==> (header_parts(src@, old(cur).at()) matches Some((e1, ts, te)) && field_parts(
            src@,
            te,
            seq![],
        ) matches Some((spans, cs, ce)) && sec.open_sep@ == src@.subrange(e1, ts) && sec.tag@ == src@.subrange(
            ts,
            te,
        ) && fields_at(src@, sec.fields@, spans) && sec.close_sep@ == src@.subrange(cs, ce)),
        r matches Ok(sec) ==> {
            &&& section_text(sec) == src@.subrange(old(cur).at(), final(cur).last())
            &&& old(cur).at() < final(cur).last() <= src@.len()
            &&& sec.props@.len() == 0
            &&& sec.trailing@.len() == 0
            &&& section_wf(sec)
        },
{
    let ghost s = src@;
    let n = src.len();
    let ghost start = cur.at();
    proof {
        cur.lemma_wf();
        lemma_trivia_end_at(s, start);
        lemma_lex_at_text(s, start);
        lemma_lex_at_bounds(s, start);
    }
    let open = cur.expect(&Tok::LBracket, "'['")?;
    let ghost p1 = cur.at();
    proof {
        lemma_lex_at_text(s, p1);
        lemma_lex_at_bounds(s, p1);
    }
    let name_tok = cur.next()?;
    let mut tag = match name_tok.tok {
        Tok::Ident(t) => t,
        other => {
            return Err(
                cur.error(
                    name_tok.span.start,
                    ParseErrorKind::Expected("a section name", other.describe().to_owned()),
                ),
            );
        },
    };
    let open_sep = string_of(src, open.span.end, name_tok.span.start);
    let ghost hdr = name_tok.span.end as int;
    cur.reset_to_end();
    let t = cur.peek()?;
    // Godot allows suffixed tags such as `[some_prop.Android]`; none of them
    // names a section this parser knows.
    if matches!(t.tok, Tok::Period) || matches!(t.tok, Tok::Colon) {
        proof {
            assert(grammar_section(s, start) is None);
        }
        loop
            invariant
                cur.wf(),
                cur.text() == s,
                s == old(cur).text(),
                src@ == s,
                start == old(cur).at(),
                grammar_section(s, start) is None,
            decreases s.len() - cur.last(),
        {
            cur.reset_to_end();
            let t = cur.peek()?;
            match t.tok {
                Tok::Period => tag.push('.'),
                Tok::Colon => tag.push(':'),
                _ => break,
            }
            proof {
                cur.lemma_wf();
                lemma_lex_at_bounds(s, cur.at());
            }
            let ghost before = cur.last();
            cur.next()?;
            proof {
                cur.lemma_wf();
                lemma_lex_at_bounds(s, cur.at());
            }
            let part = cur.next()?;
            match part.tok {
                Tok::Ident(id) => push_str(&mut tag, id.as_str()),
                other => {
                    return Err(
                        cur.error(
                            part.span.start,
                            ParseErrorKind::Expected("an identifier", other.describe().to_owned()),
                        ),
                    );
                },
            }
            assert(cur.last() > before);
        }
        return Err(cur.error(name_tok.span.start, ParseErrorKind::UnknownSection(tag)));
    }
    let kind = match SectionKind::from_tag(tag.as_str()) {
        Some(k) => k,
        None => {
            return Err(cur.error(name_tok.span.start, ParseErrorKind::UnknownSection(tag)));
        },
    };
    let mut fields: Vec<Field> = Vec::new();
    let mut close_sep = String::new();
    let ghost mut spans: Seq<FieldSpan> = seq![];
    let ghost mut cs: int = 0;
    let ghost mut ce: int = 0;
    proof {
        assert(header_parts(s, start) == Some((open.span.end as int, name_tok.span.start as int, hdr)));
        assert(open_sep@ == s.subrange(open.span.end as int, name_tok.span.start as int));
        assert(tag@ == s.subrange(name_tok.span.start as int, hdr));
        assert(field_items(fields@) =~= Seq::<(Seq<char>, ValueView)>::empty());
        assert(grammar_section(s, start) == match grammar_fields(s, hdr, seq![]) {
            Some((fs, end)) => Some((kind, fs, end)),
            None => None,
        });
    }
    loop
        invariant_except_break
            cur.wf(),
            cur.text() == s,
            src@ == s,
            s == old(cur).text(),
            n == s.len(),
            0 <= hdr <= cur.last() <= s.len(),
            fields_text(fields@) == s.subrange(hdr, cur.last()),
            forall|i: int| 0 <= i < fields@.len() ==> field_wf(#[trigger] fields@[i]),
            cur.depth() == 0,
            start == old(cur).at(),
            grammar_fields(s, hdr, seq![]) == grammar_fields(s, cur.last(), field_items(fields@)),
            field_parts(s, hdr, seq![]) == field_parts(s, cur.last(), spans),
            fields_at(s, fields@, spans),
            grammar_section(s, start) == match grammar_fields(s, hdr, seq![]) {
                Some((fs, end)) => Some((kind, fs, end)),
                None => None,
            },
        ensures
            cur.wf(),
            cur.text() == s,
            hdr < cur.last() <= s.len(),
            fields_text(fields@) + close_sep@ + seq![']'] == s.subrange(hdr, cur.last()),
            forall|i: int| 0 <= i < fields@.len() ==> field_wf(#[trigger] fields@[i]),
            cur.depth() == 0,
            grammar_fields(s, hdr, seq![]) == Some((field_items(fields@), cur.last())),
            field_parts(s, hdr, seq![]) == Some((spans, cs, ce)),
            fields_at(s, fields@, spans),
            close_sep@ == s.subrange(cs, ce),
            grammar_section(s, start) == Some((kind, field_items(fields@), cur.last())),
        decreases s.len() - cur.last(),
    {
        cur.reset_to_end();
        let item_start = cur.end();
        proof {
            cur.lemma_wf();
            lemma_lex_at_text(s, item_start as int);
            lemma_lex_at_bounds(s, item_start as int);
        }
        let tok = cur.next()?;
        let ts = tok.span.start;
        let te = tok.span.end;
        match tok.tok {
            Tok::RBracket => {
                close_sep = string_of(src, item_start, ts);
                proof {
                    assert(seq![']'] =~= s.subrange(ts as int, te as int));
                    lemma_cat(s, hdr, item_start as int, ts as int);
                    lemma_cat(s, hdr, ts as int, te as int);
                    cs = item_start as int;
                    ce = ts as int;
                }
                break;
            },
            Tok::Ident(name) => {
                let sep_before = string_of(src, item_start, ts);
                proof {
                    lemma_lex_at_text(s, te as int);
                    lemma_lex_at_bounds(s, te as int);
                }
                let eq = cur.expect(&Tok::Equal, "'=' after a field name")?;
                let sep_eq = string_of(src, te, eq.span.start);
                proof {
                    lemma_lex_at_bounds(s, eq.span.end as int);
                }
                assert(crate::lex::same_variant(lex_at(s, te as int)->Ok_0.0, TokView::Equal));
                let value_start = cur.next_start()?;
                let sep_val = string_of(src, eq.span.end, value_start);
                let (value, value_raw, ptrs) = parse_raw_value(cur, src, value_start)?;
                proof {
                    cur.lemma_wf();
                }
                let ghost before = fields@;
                let f = Field {
                    sep_before,
                    name,
                    sep_eq,
                    sep_val,
                    value,
                    value_raw,
                    refs: ptrs.refs,
                    paths: ptrs.paths,
                };
                proof {
                    let a = ts as int;
                    let b = te as int;
                    let c = eq.span.start as int;
                    let d = eq.span.end as int;
                    let v = value_start as int;
                    let e = cur.last();
                    assert(seq!['='] =~= s.subrange(c, d));
                    lemma_cat(s, item_start as int, a, b);
                    lemma_cat(s, item_start as int, b, c);
                    lemma_cat(s, item_start as int, c, d);
                    lemma_cat(s, item_start as int, d, v);
                    lemma_cat(s, item_start as int, v, e);
                    lemma_cat(s, hdr, item_start as int, e);
                    assert(field_text(f) =~= s.subrange(item_start as int, e));
                }
                let ghost sp: FieldSpan = (
                    item_start as int,
                    ts as int,
                    te as int,
                    eq.span.start as int,
                    eq.span.end as int,
                    value_start as int,
                    cur.last(),
                );
                proof {
                    assert(f.name@ == s.subrange(ts as int, te as int));
                }
                fields.push(f);
                proof {
                    assert(fields@.drop_last() =~= before);
                    spans = spans.push(sp);
                    assert forall|k: int| #![trigger fields@[k]] 0 <= k < fields@.len() implies {
                        let (q, a, e, a2, e2, v, end) = spans[k];
                        &&& fields@[k].sep_before@ == s.subrange(q, a)
                        &&& fields@[k].name@ == s.subrange(a, e)
                        &&& fields@[k].sep_eq@ == s.subrange(e, a2)
                        &&& fields@[k].sep_val@ == s.subrange(e2, v)
                        &&& fields@[k].value_raw@ == s.subrange(v, end)
                    } by {
                        if k < before.len() {
                            assert(fields@[k] == before[k]);
                        }
                    }
                    assert(field_items(fields@) =~= field_items(before).push((f.name@, f.value@)));
                }
            },
            other => {
                return Err(
                    cur.error(
                        ts,
                        ParseErrorKind::Expected("a field name or ']'", other.describe().to_owned()),
                    ),
                );
            },
        }
    }
    let sec = Section {
        kind,
        tag,
        open_sep,
        fields,
        close_sep,
        props: Vec::new(),
        trailing: String::new(),
    };
    proof {
        let a = start;
        let b = open.span.end as int;
        let c = name_tok.span.start as int;
        assert(seq!['['] =~= s.subrange(a, b));
        lemma_cat(s, a, b, c);
        lemma_cat(s, a, c, hdr);
        lemma_cat(s, a, hdr, cur.last());
        assert(props_text(sec.props@) =~= Seq::<char>::empty());
        assert(section_text(sec) =~= s.subrange(a, cur.last()));
    }
    Ok(sec)
}

/// Whether `c` is white space as `char::is_whitespace` defines it (Unicode
/// `White_Space`).
pub open spec fn is_white_space(c: char) -> bool {
    let v = c as u32;
    (0x9 <= v && v <= 0xd) || v == 0x20 || v == 0x85 || v == 0xa0 || v == 0x1680 || (0x2000 <= v
        && v <= 0x200a) || v == 0x2028 || v == 0x2029 || v == 0x202f || v == 0x205f || v == 0x3000
}

pub fn exec_is_white_space(c: char) -> (r: bool)
    ensures
        r == is_white_space(c),
{
    let v = c as u32;
    (0x9 <= v && v <= 0xd) || v == 0x20 || v == 0x85 || v == 0xa0 || v == 0x1680 || (0x2000 <= v
        && v <= 0x200a) || v == 0x2028 || v == 0x2029 || v == 0x202f || v == 0x205f || v == 0x3000
}

/// The characters of `s` above U+0020: Godot drops every other character
/// inside an unquoted property name.
pub open spec fn visible(s: Seq<char>) -> Seq<char>
    decreases s.len(),
{
    if s.len() == 0 {
        seq![]
    } else {
        visible(s.drop_last()) + if (s.last() as u32) > 32 {
            seq![s.last()]
        } else {
            seq![]
        }
    }
}

/// Parses a `key = value` line, with the cursor on the key's first character.
fn parse_property(cur: &mut Cursor, src: &[char], start: usize) -> (r: Result<Property, ParseError>)
    requires
        old(cur).wf(),
        src@ == old(cur).text(),
        old(cur).at() == start,
        old(cur).last() == start,
        start < src@.len(),
        !crate::lex::is_trivia(src@[start as int]),
        src@[start as int] != ';',
        old(cur).depth() == 0,
    ensures
        final(cur).wf(),
        final(cur).text() == old(cur).text(),
        (r is Ok) == (grammar_property(src@, start as int) is Some),
        r matches Ok(p) ==> grammar_property(src@, start as int) == Some((p.key@, p.value@, final(cur).last()))
            && final(cur).depth() == 0,
        r matches Ok(p) ==> (property_parts(src@, start as int) matches Some((ke, eq, v, end)) && p.key_raw@
            == src@.subrange(start as int, ke) && p.sep_eq@ == src@.subrange(ke, eq) && p.sep_val@ == src@.subrange(
            eq + 1,
            v,
        ) && p.value_raw@ == src@.subrange(v, end) && end == final(cur).last()),
        r matches Ok(p) ==> {
            &&& prop_text(p) == src@.subrange(start as int, final(cur).last())
            &&& start < final(cur).last() <= src@.len()
            &&& p.lead@.len() == 0
            &&& prop_wf(p)
        },
{
    let ghost s = src@;
    let n = src.len();
    proof {
        lemma_trivia_end_at(s, start as int);
        lemma_lex_at_text(s, start as int);
        lemma_lex_at_bounds(s, start as int);
    }
    // A quoted key may itself contain '=', so it has to be tokenized.
    let (key, key_end) = if src[start] == '"' {
        let tok = cur.next()?;
        match tok.tok {
            Tok::Str { value, .. } => (value, tok.span.end),
            _ => {
                return Err(
                    cur.error(
                        start,
                        ParseErrorKind::Expected("a property name", "a value".to_owned()),
                    ),
                );
            },
        }
    } else {
        let mut i = start;
        while i < n && src[i] != '=' && src[i] != '\n'
            invariant
                start <= i <= n,
                n == src@.len(),
                key_stop(src@, start as int) == key_stop(src@, i as int),
            decreases n - i,
        {
            i += 1;
        }
        if i >= n || src[i] == '\n' {
            return Err(cur.error(start, ParseErrorKind::TrailingGarbage));
        }
        // Godot drops every control and space character inside an unquoted
        // property name.
        let mut key = String::new();
        let mut j = start;
        while j < i
            invariant
                start <= j <= i <= n,
                n == src@.len(),
                key@ == visible(src@.subrange(start as int, j as int)),
            decreases i - j,
        {
            let c = src[j];
            proof {
                assert(src@.subrange(start as int, j + 1).drop_last() =~= src@.subrange(start as int, j as int));
            }
            if (c as u32) > 32 {
                key.push(c);
            }
            j += 1;
        }
        let mut k = i;
        while k > start && exec_is_white_space(src[k - 1])
            invariant
                start <= k <= i <= n,
                n == src@.len(),
                trim_back(src@, start as int, i as int) == trim_back(src@, start as int, k as int),
            decreases k,
        {
            k -= 1;
        }
        (key, k)
    };
    proof {
        cur.lemma_wf();
    }
    let mut eq = key_end;
    while eq < n && src[eq] != '='
        invariant
            key_end <= eq <= n,
            n == src@.len(),
            forall|x: int| key_end <= x < eq ==> src@[x] != '=',
            eq_from(src@, key_end as int) == eq_from(src@, eq as int),
        decreases n - eq,
    {
        eq += 1;
    }
    if eq >= n {
        return Err(cur.error(start, ParseErrorKind::TrailingGarbage));
    }
    let key_raw = string_of(src, start, key_end);
    let sep_eq = string_of(src, key_end, eq);
    cur.seek(eq + 1);
    proof {
        lemma_lex_at_bounds(s, eq + 1);
    }
    let value_start = cur.next_start()?;
    let sep_val = string_of(src, eq + 1, value_start);
    let (value, value_raw, ptrs) = parse_raw_value(cur, src, value_start)?;
    let p = Property {
        lead: String::new(),
        key_raw,
        key,
        sep_eq,
        sep_val,
        value,
        value_raw,
        refs: ptrs.refs,
        paths: ptrs.paths,
    };
    proof {
        let e = cur.last();
        assert(seq!['='] =~= s.subrange(eq as int, eq + 1));
        lemma_cat(s, start as int, key_end as int, eq as int);
        lemma_cat(s, start as int, eq as int, eq + 1);
        lemma_cat(s, start as int, eq + 1, value_start as int);
        lemma_cat(s, start as int, value_start as int, e);
        assert(prop_text(p) =~= s.subrange(start as int, e));
    }
    Ok(p)
}

pub open spec fn current_text(c: Option<Section>) -> Seq<char> {
    match c {
        Some(sec) => section_text(sec),
        None => seq![],
    }
}

/// Gives the text between two items to the item before it: the open section's
/// trailing text, or the document's lead when no section is open yet.
fn attach_gap(lead: &mut String, current: Option<Section>, gap: &str) -> (c: Option<Section>)
    requires
        current matches Some(x) ==> section_wf(x),
    ensures
        current is None ==> final(lead)@ == old(lead)@ + gap@ && c is None,
        current is Some ==> final(lead)@ == old(lead)@ && c is Some,
        current_text(c) + seq![] == current_text(current) + if current is Some { gap@ } else { seq![] },
        c matches Some(x) ==> section_wf(x) && (current matches Some(y) && x.kind == y.kind && section_items(x)
            == section_items(y)),
{
    match current {
        Some(mut sec) => {
            let ghost before = sec;
            push_str(&mut sec.trailing, gap);
            proof {
                assert(section_text(sec) =~= section_text(before) + gap@);
            }
            Some(sec)
        },
        None => {
            push_str(lead, gap);
            None
        },
    }
}

/// Moves the open section, if any, to the end of `sections`.
fn close_current(sections: &mut Vec<Section>, current: Option<Section>)
    requires
        current matches Some(x) ==> section_wf(x),
        forall|i: int| 0 <= i < old(sections)@.len() ==> section_wf(#[trigger] old(sections)@[i]),
    ensures
        sections_text(final(sections)@) == sections_text(old(sections)@) + current_text(current),
        forall|i: int| 0 <= i < final(sections)@.len() ==> section_wf(#[trigger] final(sections)@[i]),
        final(sections)@.len() == old(sections)@.len() + if current is Some { 1int } else { 0int },
        final(sections)@ == old(sections)@ + match current {
            Some(c) => seq![c],
            None => seq![],
        },
        final(sections)@.len() > 0 ==> final(sections)@[0] == if old(sections)@.len() > 0 {
            old(sections)@[0]
        } else {
            current->0
        },
{
    match current {
        Some(sec) => {
            let ghost old_secs = sections@;
            sections.push(sec);
            proof {
                assert(sections@.drop_last() =~= old_secs);
                assert(sections@ =~= old_secs + seq![sec]);
            }
        },
        None => {
            proof {
                assert(sections_text(sections@) + seq![] =~= sections_text(sections@));
                assert(sections@ + seq![] =~= sections@);
            }
        },
    }
}

/// Appends a property to a section that has no trailing text yet.
fn add_property(sec: Section, prop: Property) -> (r: Section)
    requires
        sec.trailing@.len() == 0,
        section_wf(sec),
        prop_wf(prop),
    ensures
        section_text(r) == section_text(sec) + prop_text(prop),
        r.trailing@.len() == 0,
        section_wf(r),
        r.kind == sec.kind,
        section_items(r) == (sec.kind, field_items(sec.fields@), prop_items(sec.props@).push((prop.key@, prop.value@))),
{
    let mut sec = sec;
    let ghost old_props = sec.props@;
    let ghost old_text = section_text(sec);
    sec.props.push(prop);
    proof {
        assert(sec.props@.drop_last() =~= old_props);
        assert(section_text(sec) =~= old_text + prop_text(prop));
        assert(prop_items(sec.props@) =~= prop_items(old_props).push((prop.key@, prop.value@)));
        assert forall|i: int| 0 <= i < sec.props@.len() implies prop_wf(#[trigger] sec.props@[i]) by {
            if i < old_props.len() {
                assert(sec.props@[i] == old_props[i]);
            }
        }
    }
    sec
}

/// Parses a `.tscn` / `.tres` text. A document that parses replays the text
/// exactly: `doc_text(doc)` is the input.
#[verifier::spinoff_prover]
#[verifier::rlimit(40)]
pub fn parse_document(src: &str) -> (r: Result<Document, ParseError>)
    ensures
        (r is Ok) == accepts(src@),
        r matches Ok(doc) ==> doc_text(doc) == src@ && doc.wf() && grammar_doc(src@, 0, seq![]) == Some(
            doc_items(doc.sections@),
        ),
        r matches Err(e) ==> (grammar_body(src@, 0, seq![]) is Some ==> e == error_at(
            src@,
            0,
            ParseErrorKind::NotAGodotTextResource,
        )),
{
    let chars = chars_of(src);
    let n = chars.len();
    let ghost s = chars@;
    let mut cur = Cursor::from_chars(chars_of(src));
    let mut lead = String::new();
    let mut sections: Vec<Section> = Vec::new();
    let mut current: Option<Section> = None;
    let mut consumed: usize = 0;
    loop
        invariant_except_break
            cur.wf(),
            cur.text() == s,
            chars@ == s,
            n == s.len(),
            consumed <= n,
            cur.depth() == 0,
            s == src@,
            grammar_body(s, 0, seq![]) == grammar_body(s, consumed as int, open_items(sections@, current)),
            lead@ + sections_text(sections@) + current_text(current) == s.subrange(0, consumed as int),
            current matches Some(c) ==> c.trailing@.len() == 0 && section_wf(c),
            current is None ==> sections@.len() == 0,
            forall|i: int| 0 <= i < sections@.len() ==> section_wf(#[trigger] sections@[i]),
        ensures
            lead@ + sections_text(sections@) + current_text(current) == s,
            current is None ==> sections@.len() == 0,
            current matches Some(c) ==> section_wf(c),
            forall|i: int| 0 <= i < sections@.len() ==> section_wf(#[trigger] sections@[i]),
            grammar_body(s, 0, seq![]) == Some(open_items(sections@, current)),
        decreases n - consumed,
    {
        cur.seek(consumed);
        let at = cur.skip_trivia_pos();
        proof {
            lemma_trivia_end(s, consumed as int);
            lemma_cat(s, 0, consumed as int, at as int);
        }
        let gap = string_of(&chars, consumed, at);
        if at >= n || chars[at] == '[' {
            let ghost was = current;
            current = attach_gap(&mut lead, current, gap.as_str());
            proof {
                assert(open_items(sections@, current) =~= open_items(sections@, was));
                assert(lead@ + sections_text(sections@) + current_text(current) =~= s.subrange(0, at as int));
            }
            if at >= n {
                proof {
                    assert(s.subrange(0, at as int) =~= s);
                }
                break;
            }
            let ghost before = (sections@, current);
            close_current(&mut sections, current);
            proof {
                assert(doc_items(sections@) =~= open_items(before.0, before.1));
            }
            cur.seek(at);
            let section = parse_section(&mut cur, &chars)?;
            proof {
                lemma_cat(s, 0, at as int, cur.last());
                assert(prop_items(section.props@) =~= Seq::<(Seq<char>, ValueView)>::empty());
                assert(open_items(sections@, Some(section)) =~= open_items(before.0, before.1).push(
                    (section.kind, field_items(section.fields@), seq![]),
                ));
            }
            current = Some(section);
            consumed = cur.end();
        } else {
            match current {
                None => {
                    return Err(cur.error(at, ParseErrorKind::PropertyOutsideSection));
                },
                Some(sec) => {
                    let ghost items = open_items(sections@, Some(sec));
                    cur.seek(at);
                    let mut prop = parse_property(&mut cur, &chars, at)?;
                    prop.lead = gap;
                    proof {
                        lemma_cat(s, consumed as int, at as int, cur.last());
                        assert(prop_text(prop) =~= gap@ + s.subrange(at as int, cur.last()));
                        lemma_cat(s, 0, consumed as int, cur.last());
                    }
                    let ghost kv = (prop.key@, prop.value@);
                    let added = add_property(sec, prop);
                    proof {
                        assert(open_items(sections@, Some(added)) =~= add_item(items, kv.0, kv.1));
                    }
                    current = Some(added);
                    consumed = cur.end();
                },
            }
        }
    }
    let ghost open = current;
    let ghost before = sections@;
    close_current(&mut sections, current);
    proof {
        assert(doc_items(sections@) =~= open_items(before, open));
    }
    if sections.len() == 0 || !(matches!(sections[0].kind, SectionKind::GdScene) || matches!(sections[0].kind, SectionKind::GdResource)) {
        return Err(ParseError::new(&chars, 0, ParseErrorKind::NotAGodotTextResource));
    }
    let doc = Document { lead, sections };
    proof {
        assert(doc_text(doc) =~= src@);
    }
    Ok(doc)
}

impl Document {
    pub fn parse(src: &str) -> (r: Result<Document, ParseError>)
        ensures
            (r is Ok) == accepts(src@),
            r matches Ok(doc) ==> doc_text(doc) == src@ && doc.wf() && grammar_doc(src@, 0, seq![]) == Some(
                doc_items(doc.sections@),
            ),
            r matches Err(e) ==> (grammar_body(src@, 0, seq![]) is Some ==> e == error_at(
                src@,
                0,
                ParseErrorKind::NotAGodotTextResource,
            )),
    {
        parse_document(src)
    }
}

// ---------------------------------------------------------------------------
// Looking things up.

/// Index of the first field called `name`.
pub open spec fn field_index(fs: Seq<Field>, name: Seq<char>) -> Option<int>
    decreases fs.len(),
{
    if fs.len() == 0 {
        None
    } else {
        match field_index(fs.drop_last(), name) {
            Some(i) => Some(i),
            None => if fs.last().name@ == name {
                Some(fs.len() - 1)
            } else {
                None
            },
        }
    }
}

/// Index of the first property whose decoded key is `key`.
pub open spec fn prop_index(ps: Seq<Property>, key: Seq<char>) -> Option<int>
    decreases ps.len(),
{
    if ps.len() == 0 {
        None
    } else {
        match prop_index(ps.drop_last(), key) {
            Some(i) => Some(i),
            None => if ps.last().key@ == key {
                Some(ps.len() - 1)
            } else {
                None
            },
        }
    }
}

/// The string payload of a `"..."` or `&"..."` literal.
pub open spec fn str_payload(v: ValueView) -> Option<Seq<char>> {
    match v {
        ValueView::Str(s) => Some(s),
        ValueView::Name(s) => Some(s),
        _ => None,
    }
}

/// The string a header field holds, if the field is there and is a string.
pub open spec fn field_str_spec(sec: Section, name: Seq<char>) -> Option<Seq<char>> {
    match field_index(sec.fields@, name) {
        Some(i) => str_payload(sec.fields@[i].value@),
        None => None,
    }
}

proof fn lemma_field_index(fs: Seq<Field>, name: Seq<char>)
    ensures
        field_index(fs, name) matches Some(i) ==> 0 <= i < fs.len() && fs[i].name@ == name,
    decreases fs.len(),
{
    if fs.len() > 0 {
        lemma_field_index(fs.drop_last(), name);
    }
}

proof fn lemma_prop_index(ps: Seq<Property>, key: Seq<char>)
    ensures
        prop_index(ps, key) matches Some(i) ==> 0 <= i < ps.len() && ps[i].key@ == key,
    decreases ps.len(),
{
    if ps.len() > 0 {
        lemma_prop_index(ps.drop_last(), key);
    }
}

/// Every reference of a section, in either spelling, fields first.
pub open spec fn fields_any_refs(fs: Seq<Field>) -> Seq<(RefKind, Seq<char>, bool)>
    decreases fs.len(),
{
    if fs.len() == 0 {
        seq![]
    } else {
        fields_any_refs(fs.drop_last()) + any_refs(fs.last().value@)
    }
}

pub open spec fn props_any_refs(ps: Seq<Property>) -> Seq<(RefKind, Seq<char>, bool)>
    decreases ps.len(),
{
    if ps.len() == 0 {
        seq![]
    } else {
        props_any_refs(ps.drop_last()) + any_refs(ps.last().value@)
    }
}

/// Whether `s` holds a carriage return followed by a line feed.
pub open spec fn has_crlf(s: Seq<char>) -> bool {
    exists|i: int| 0 <= i && i + 1 < s.len() && #[trigger] s[i] == '\r' && s[i + 1] == '\n'
}

fn contains_crlf(s: &str) -> (r: bool)
    ensures
        r == has_crlf(s@),
{
    let cs = chars_of(s);
    let mut i: usize = 0;
    while i < cs.len()
        invariant
            cs@ == s@,
            i <= cs@.len(),
            forall|j: int| 0 <= j < i && j + 1 < cs@.len() ==> !(#[trigger] cs@[j] == '\r' && cs@[j + 1] == '\n'),
        decreases cs@.len() - i,
    {
        if i + 1 < cs.len() && cs[i] == '\r' && cs[i + 1] == '\n' {
            return true;
        }
        i += 1;
    }
    false
}

impl Section {
    pub fn field(&self, name: &str) -> (r: Option<&Field>)
        ensures
            match field_index(self.fields@, name@) {
                Some(i) => r == Some(&self.fields@[i]),
                None => r is None,
            },
    {
        let mut i: usize = 0;
        while i < self.fields.len()
            invariant
                i <= self.fields@.len(),
                field_index(self.fields@.take(i as int), name@) is None,
            decreases self.fields@.len() - i,
        {
            proof {
                assert(self.fields@.take(i + 1).drop_last() =~= self.fields@.take(i as int));
            }
            if str_eq(self.fields[i].name.as_str(), name) {
                proof {
                    lemma_field_index_prefix(self.fields@, name@, i + 1);
                }
                return Some(&self.fields[i]);
            }
            i += 1;
        }
        proof {
            assert(self.fields@.take(i as int) =~= self.fields@);
        }
        None
    }

    pub fn field_str(&self, name: &str) -> (r: Option<&str>)
        ensures
            match field_str_spec(*self, name@) {
                Some(x) => r matches Some(y) && y@ == x,
                None => r is None,
            },
    {
        match self.field(name) {
            Some(f) => f.value.as_str(),
            None => None,
        }
    }

    pub fn prop(&self, key: &str) -> (r: Option<&Property>)
        ensures
            match prop_index(self.props@, key@) {
                Some(i) => r == Some(&self.props@[i]),
                None => r is None,
            },
    {
        let mut i: usize = 0;
        while i < self.props.len()
            invariant
                i <= self.props@.len(),
                prop_index(self.props@.take(i as int), key@) is None,
            decreases self.props@.len() - i,
        {
            proof {
                assert(self.props@.take(i + 1).drop_last() =~= self.props@.take(i as int));
            }
            if str_eq(self.props[i].key.as_str(), key) {
                proof {
                    lemma_prop_index_prefix(self.props@, key@, i + 1);
                }
                return Some(&self.props[i]);
            }
            i += 1;
        }
        proof {
            assert(self.props@.take(i as int) =~= self.props@);
        }
        None
    }

    /// Every resource reference in this section, in either spelling: the
    /// kind, the id, and whether it is the unquoted Godot 3 form.
    ///
    /// A merge can only rewrite the quoted form, which `refs` of each field
    /// and property carry; validation has to see the Godot 3 `SubResource( 1 )`
    /// spelling too, or a reference to a resource that is not in the file
    /// goes unreported.
    pub fn all_refs(&self) -> (r: Vec<(RefKind, String, bool)>)
        ensures
            any_ref_views(r@) == fields_any_refs(self.fields@) + props_any_refs(self.props@),
    {
        let mut out: Vec<(RefKind, String, bool)> = Vec::new();
        let mut i: usize = 0;
        while i < self.fields.len()
            invariant
                i <= self.fields@.len(),
                any_ref_views(out@) == fields_any_refs(self.fields@.take(i as int)),
            decreases self.fields@.len() - i,
        {
            proof {
                assert(self.fields@.take(i + 1).drop_last() =~= self.fields@.take(i as int));
            }
            collect_refs(&self.fields[i].value, &mut out);
            i += 1;
        }
        let ghost from_fields = any_ref_views(out@);
        let mut i: usize = 0;
        while i < self.props.len()
            invariant
                i <= self.props@.len(),
                any_ref_views(out@) == from_fields + props_any_refs(self.props@.take(i as int)),
            decreases self.props@.len() - i,
        {
            proof {
                assert(self.props@.take(i + 1).drop_last() =~= self.props@.take(i as int));
            }
            collect_refs(&self.props[i].value, &mut out);
            proof {
                assert(any_ref_views(out@) =~= from_fields + props_any_refs(self.props@.take(i + 1)));
            }
            i += 1;
        }
        proof {
            assert(self.fields@.take(self.fields@.len() as int) =~= self.fields@);
            assert(self.props@.take(i as int) =~= self.props@);
        }
        out
    }
}

proof fn lemma_field_index_prefix(fs: Seq<Field>, name: Seq<char>, k: int)
    requires
        0 < k <= fs.len(),
        field_index(fs.take(k - 1), name) is None,
        fs[k - 1].name@ == name,
    ensures
        field_index(fs, name) == Some(k - 1),
    decreases fs.len(),
{
    if k < fs.len() {
        assert(fs.drop_last().take(k - 1) =~= fs.take(k - 1));
        lemma_field_index_prefix(fs.drop_last(), name, k);
    } else {
        assert(fs.drop_last() =~= fs.take(k - 1));
    }
}

proof fn lemma_prop_index_prefix(ps: Seq<Property>, key: Seq<char>, k: int)
    requires
        0 < k <= ps.len(),
        prop_index(ps.take(k - 1), key) is None,
        ps[k - 1].key@ == key,
    ensures
        prop_index(ps, key) == Some(k - 1),
    decreases ps.len(),
{
    if k < ps.len() {
        assert(ps.drop_last().take(k - 1) =~= ps.take(k - 1));
        lemma_prop_index_prefix(ps.drop_last(), key, k);
    } else {
        assert(ps.drop_last() =~= ps.take(k - 1));
    }
}

pub open spec fn derefs(s: Seq<&Section>) -> Seq<Section> {
    Seq::new(s.len(), |i: int| *s[i])
}

/// The sections of one kind, in file order.
pub open spec fn sections_of_spec(ss: Seq<Section>, kind: SectionKind) -> Seq<Section>
    decreases ss.len(),
{
    if ss.len() == 0 {
        seq![]
    } else {
        sections_of_spec(ss.drop_last(), kind) + if ss.last().kind == kind {
            seq![ss.last()]
        } else {
            seq![]
        }
    }
}

/// Whether a section's trailing text or a property's lead holds a CRLF.
pub open spec fn section_crlf(sec: Section) -> bool {
    has_crlf(sec.trailing@) || exists|j: int| 0 <= j < sec.props@.len() && has_crlf(#[trigger] sec.props@[j].lead@)
}

fn section_has_crlf(sec: &Section) -> (r: bool)
    ensures
        r == section_crlf(*sec),
{
    let mut found = contains_crlf(sec.trailing.as_str());
    let mut j: usize = 0;
    while j < sec.props.len() && !found
        invariant
            j <= sec.props@.len(),
            found == (has_crlf(sec.trailing@) || exists|m: int| 0 <= m < j && has_crlf(#[trigger] sec.props@[m].lead@)),
        decreases sec.props@.len() - j,
    {
        found = contains_crlf(sec.props[j].lead.as_str());
        j += 1;
    }
    proof {
        if !found {
            assert(j == sec.props@.len());
        }
    }
    found
}

impl Document {
    pub open spec fn is_scene_spec(&self) -> bool {
        self.sections@.len() > 0 && self.sections@[0].kind is GdScene
    }

    pub fn is_scene(&self) -> (r: bool)
        ensures
            r == self.is_scene_spec(),
    {
        self.sections.len() > 0 && matches!(self.sections[0].kind, SectionKind::GdScene)
    }

    /// The `[gd_scene]` / `[gd_resource]` section every parsed document opens with.
    pub fn header(&self) -> (s: &Section)
        requires
            self.sections@.len() > 0,
        ensures
            *s == self.sections@[0],
    {
        &self.sections[0]
    }

    pub fn sections_of(&self, kind: SectionKind) -> (r: Vec<&Section>)
        ensures
            derefs(r@) == sections_of_spec(self.sections@, kind),
    {
        let mut out: Vec<&Section> = Vec::new();
        let mut i: usize = 0;
        while i < self.sections.len()
            invariant
                i <= self.sections@.len(),
                derefs(out@) == sections_of_spec(self.sections@.take(i as int), kind),
            decreases self.sections@.len() - i,
        {
            proof {
                assert(self.sections@.take(i + 1).drop_last() =~= self.sections@.take(i as int));
            }
            if self.sections[i].kind == kind {
                out.push(&self.sections[i]);
            }
            proof {
                assert(derefs(out@) =~= sections_of_spec(self.sections@.take(i + 1), kind));
            }
            i += 1;
        }
        proof {
            assert(self.sections@.take(i as int) =~= self.sections@);
        }
        out
    }

    /// Whether any separator in the document is a CRLF.
    pub open spec fn uses_crlf(&self) -> bool {
        has_crlf(self.lead@) || exists|i: int|
            0 <= i < self.sections@.len() && section_crlf(#[trigger] self.sections@[i])
    }

    /// The line ending this document uses: `\r\n` if any separator in it is a
    /// CRLF, otherwise `\n`.
    ///
    /// Sections are replayed from their original text, but the blank lines a
    /// merge inserts between sections are made up, and they have to match the
    /// rest of the file.
    pub fn newline(&self) -> (r: &'static str)
        ensures
            self.uses_crlf() ==> r@ == "\r\n"@,
            !self.uses_crlf() ==> r@ == "\n"@,
    {
        let mut crlf = contains_crlf(self.lead.as_str());
        let mut i: usize = 0;
        while i < self.sections.len() && !crlf
            invariant
                i <= self.sections@.len(),
                crlf == (has_crlf(self.lead@) || exists|k: int|
                    0 <= k < i && section_crlf(#[trigger] self.sections@[k])),
            decreases self.sections@.len() - i,
        {
            crlf = section_has_crlf(&self.sections[i]);
            i += 1;
        }
        proof {
            if !crlf {
                assert(i == self.sections@.len());
            }
        }
        if crlf {
            "\r\n"
        } else {
            "\n"
        }
    }
}

pub open spec fn fields_refs(fs: Seq<Field>) -> Seq<ValueRef>
    decreases fs.len(),
{
    if fs.len() == 0 {
        seq![]
    } else {
        fields_refs(fs.drop_last()) + fs.last().refs@
    }
}

pub open spec fn props_refs(ps: Seq<Property>) -> Seq<ValueRef>
    decreases ps.len(),
{
    if ps.len() == 0 {
        seq![]
    } else {
        props_refs(ps.drop_last()) + ps.last().refs@
    }
}

pub open spec fn deref_refs(s: Seq<&ValueRef>) -> Seq<ValueRef> {
    Seq::new(s.len(), |i: int| *s[i])
}

impl Section {
    /// Every quoted resource reference in this section's header fields and
    /// properties, in order.
    pub fn refs(&self) -> (r: Vec<&ValueRef>)
        ensures
            deref_refs(r@) == fields_refs(self.fields@) + props_refs(self.props@),
    {
        let mut out: Vec<&ValueRef> = Vec::new();
        let mut i: usize = 0;
        while i < self.fields.len()
            invariant
                i <= self.fields@.len(),
                deref_refs(out@) == fields_refs(self.fields@.take(i as int)),
            decreases self.fields@.len() - i,
        {
            proof {
                assert(self.fields@.take(i + 1).drop_last() =~= self.fields@.take(i as int));
            }
            let f = &self.fields[i];
            let ghost before = deref_refs(out@);
            let mut j: usize = 0;
            while j < f.refs.len()
                invariant
                    j <= f.refs@.len(),
                    deref_refs(out@) == before + f.refs@.take(j as int),
                decreases f.refs@.len() - j,
            {
                let ghost prev = out@;
                out.push(&f.refs[j]);
                proof {
                    assert(deref_refs(out@) =~= deref_refs(prev).push(f.refs@[j as int]));
                    assert(f.refs@.take(j + 1) =~= f.refs@.take(j as int).push(f.refs@[j as int]));
                    assert(deref_refs(out@) =~= before + f.refs@.take(j + 1));
                }
                j += 1;
            }
            proof {
                assert(f.refs@.take(j as int) =~= f.refs@);
            }
            i += 1;
        }
        let ghost from_fields = deref_refs(out@);
        let mut i: usize = 0;
        while i < self.props.len()
            invariant
                i <= self.props@.len(),
                deref_refs(out@) == from_fields + props_refs(self.props@.take(i as int)),
            decreases self.props@.len() - i,
        {
            proof {
                assert(self.props@.take(i + 1).drop_last() =~= self.props@.take(i as int));
            }
            let p = &self.props[i];
            let ghost before = deref_refs(out@);
            let mut j: usize = 0;
            while j < p.refs.len()
                invariant
                    j <= p.refs@.len(),
                    deref_refs(out@) == before + p.refs@.take(j as int),
                decreases p.refs@.len() - j,
            {
                let ghost prev = out@;
                out.push(&p.refs[j]);
                proof {
                    assert(deref_refs(out@) =~= deref_refs(prev).push(p.refs@[j as int]));
                    assert(p.refs@.take(j + 1) =~= p.refs@.take(j as int).push(p.refs@[j as int]));
                    assert(deref_refs(out@) =~= before + p.refs@.take(j + 1));
                }
                j += 1;
            }
            proof {
                assert(p.refs@.take(j as int) =~= p.refs@);
                assert(deref_refs(out@) =~= from_fields + props_refs(self.props@.take(i + 1)));
            }
            i += 1;
        }
        proof {
            assert(self.fields@.take(self.fields@.len() as int) =~= self.fields@);
            assert(self.props@.take(i as int) =~= self.props@);
        }
        out
    }
}

// ---------------------------------------------------------------------------
// Rewriting what values point at while replaying them.

/// How to rewrite what a value points at while replaying it: resource ids,
/// which a merge renumbers, and node paths, which a merge has to follow
/// through renames. Each entry maps an old spelling to a new one; the first
/// entry for a spelling is the one used.
///
/// Both kinds of edit are applied by replacing the exact characters the
/// parser recorded, so nothing else in the value can be disturbed.
#[derive(Debug)]
pub struct Rewrite {
    pub ids: Vec<(RefKind, String, String)>,
    pub paths: Vec<(String, String)>,
}

impl Rewrite {
    /// A rewrite that changes nothing, for plain serialisation.
    pub fn none() -> (r: Rewrite)
        ensures
            r.ids@.len() == 0,
            r.paths@.len() == 0,
    {
        Rewrite { ids: Vec::new(), paths: Vec::new() }
    }
}

/// The id entries of a rewrite, as the specifications see them.
pub open spec fn id_table(ids: Seq<(RefKind, String, String)>) -> Seq<(RefKind, Seq<char>, Seq<char>)> {
    Seq::new(ids.len(), |i: int| (ids[i].0, ids[i].1@, ids[i].2@))
}

/// The path entries of a rewrite, as the specifications see them.
pub open spec fn path_table(m: Seq<(String, String)>) -> Seq<(Seq<char>, Seq<char>)> {
    Seq::new(m.len(), |i: int| (m[i].0@, m[i].1@))
}

/// The new id for `(kind, id)`: that of the first matching entry.
pub open spec fn new_id(ids: Seq<(RefKind, Seq<char>, Seq<char>)>, kind: RefKind, id: Seq<char>) -> Option<Seq<char>>
    decreases ids.len(),
{
    if ids.len() == 0 {
        None
    } else {
        match new_id(ids.drop_last(), kind, id) {
            Some(x) => Some(x),
            None => if ids.last().0 == kind && ids.last().1 == id {
                Some(ids.last().2)
            } else {
                None
            },
        }
    }
}

pub open spec fn new_path(paths: Seq<(Seq<char>, Seq<char>)>, path: Seq<char>) -> Option<Seq<char>>
    decreases paths.len(),
{
    if paths.len() == 0 {
        None
    } else {
        match new_path(paths.drop_last(), path) {
            Some(x) => Some(x),
            None => if paths.last().0 == path {
                Some(paths.last().1)
            } else {
                None
            },
        }
    }
}

/// `text` quoted the way Godot's writer does: `"` and `\` escaped.
pub open spec fn quote_spec(text: Seq<char>) -> Seq<char> {
    seq!['"'] + escape_quoted(text) + seq!['"']
}

pub open spec fn escape_quoted(text: Seq<char>) -> Seq<char>
    decreases text.len(),
{
    if text.len() == 0 {
        seq![]
    } else {
        let c = text.last();
        escape_quoted(text.drop_last()) + if c == '"' {
            seq!['\\', '"']
        } else if c == '\\' {
            seq!['\\', '\\']
        } else {
            seq![c]
        }
    }
}

/// Quotes a string the way Godot's writer does.
pub fn quote(text: &str) -> (r: String)
    ensures
        r@ == quote_spec(text@),
{
    let cs = chars_of(text);
    let mut out = String::new();
    out.push('"');
    let mut i: usize = 0;
    while i < cs.len()
        invariant
            i <= cs@.len(),
            cs@ == text@,
            out@ == seq!['"'] + escape_quoted(cs@.take(i as int)),
        decreases cs@.len() - i,
    {
        proof {
            assert(cs@.take(i + 1).drop_last() =~= cs@.take(i as int));
        }
        let c = cs[i];
        if c == '"' {
            out.push('\\');
            out.push('"');
        } else if c == '\\' {
            out.push('\\');
            out.push('\\');
        } else {
            out.push(c);
        }
        proof {
            assert(out@ =~= seq!['"'] + escape_quoted(cs@.take(i + 1)));
        }
        i += 1;
    }
    out.push('"');
    proof {
        assert(cs@.take(i as int) =~= cs@);
    }
    out
}

proof fn lemma_escape_quoted_cat(a: Seq<char>, b: Seq<char>)
    ensures
        escape_quoted(a + b) == escape_quoted(a) + escape_quoted(b),
    decreases b.len(),
{
    if b.len() == 0 {
        assert(a + b =~= a);
        assert(escape_quoted(a) + escape_quoted(b) =~= escape_quoted(a));
    } else {
        assert((a + b).drop_last() =~= a + b.drop_last());
        assert((a + b).last() == b.last());
        lemma_escape_quoted_cat(a, b.drop_last());
        let tail = if b.last() == '"' {
            seq!['\\', '"']
        } else if b.last() == '\\' {
            seq!['\\', '\\']
        } else {
            seq![b.last()]
        };
        assert(escape_quoted(a + b) == escape_quoted(a + b.drop_last()) + tail);
        assert(escape_quoted(b) == escape_quoted(b.drop_last()) + tail);
        assert(escape_quoted(a) + escape_quoted(b.drop_last()) + tail =~= escape_quoted(a) + (escape_quoted(
            b.drop_last(),
        ) + tail));
    }
}

/// Reading back an escaped text up to its closing quote gives the text.
proof fn lemma_string_body_of_escaped(s: Seq<char>, p: int, start: int, acc: Seq<char>, u: Seq<char>)
    requires
        0 <= p,
        p + escape_quoted(u).len() < s.len(),
        s.subrange(p, p + escape_quoted(u).len()) == escape_quoted(u),
        s[p + escape_quoted(u).len()] == '"',
    ensures
        crate::lex::string_body(s, p, start, None, acc) == Ok::<(Seq<char>, int), (ParseErrorKind, int)>(
            (acc + u, p + escape_quoted(u).len() + 1),
        ),
    decreases u.len(),
{
    let e = escape_quoted(u);
    if u.len() == 0 {
        assert(acc + u =~= acc);
    } else {
        let c = u[0];
        let rest = u.drop_first();
        assert(u =~= seq![c] + rest);
        lemma_escape_quoted_cat(seq![c], rest);
        assert(seq![c].drop_last() =~= Seq::<char>::empty());
        let ec = escape_quoted(seq![c]);
        assert(seq![c].last() == c);
        assert(escape_quoted(Seq::<char>::empty()) == Seq::<char>::empty());
        assert(ec =~= if c == '"' {
            seq!['\\', '"']
        } else if c == '\\' {
            seq!['\\', '\\']
        } else {
            seq![c]
        });
        assert(e == ec + escape_quoted(rest));
        assert(s[p] == e[0]) by {
            assert(s.subrange(p, p + e.len())[0] == e[0]);
        }
        let k = ec.len();
        assert(s.subrange(p + k, p + k + escape_quoted(rest).len()) =~= escape_quoted(rest)) by {
            assert forall|i: int| 0 <= i < escape_quoted(rest).len() implies s.subrange(
                p + k,
                p + k + escape_quoted(rest).len(),
            )[i] == escape_quoted(rest)[i] by {
                assert(s.subrange(p, p + e.len())[k + i] == e[k + i]);
            }
        }
        lemma_string_body_of_escaped(s, p + k, start, acc.push(c), rest);
        assert(acc.push(c) + rest =~= acc + u);
        if c == '"' || c == '\\' {
            assert(k == 2);
            assert(s[p] == '\\');
            assert(s[p + 1] == c) by {
                assert(s.subrange(p, p + e.len())[1] == e[1]);
            }
            assert(crate::lex::escape_code(s, p, start) == Ok::<(int, int), (ParseErrorKind, int)>(
                (c as u32 as int, p + 2),
            ));
            crate::lex::lemma_char_of(c, c as u32 as int);
        } else {
            assert(k == 1);
        }
    }
}

/// Godot's reader gets back exactly the text that was quoted: the quoted
/// text lexes as one string token, covering all of it, that holds the text.
pub proof fn lemma_quote_round_trip(t: Seq<char>)
    ensures
        lex_at(quote_spec(t), 0) == Ok::<(TokView, int, int), (ParseErrorKind, int)>(
            (TokView::Str { value: t, name: false }, 0, quote_spec(t).len() as int),
        ),
{
    reveal(lex_at);
    let q = quote_spec(t);
    let e = escape_quoted(t);
    assert(q[0] == '"');
    assert(!crate::lex::is_trivia('"'));
    assert(trivia_end(q, 0) == 0);
    assert(q.subrange(1, 1 + e.len() as int) =~= e);
    assert(q[1 + e.len() as int] == '"');
    lemma_string_body_of_escaped(q, 1, 0, seq![], t);
    assert(Seq::<char>::empty() + t =~= t);
}

/// One edit: the characters `start..end` of the raw text become `text`.
pub open spec fn edit_view(e: (usize, usize, String)) -> (int, int, Seq<char>) {
    (e.0 as int, e.1 as int, e.2@)
}

pub open spec fn edit_views(s: Seq<(usize, usize, String)>) -> Seq<(int, int, Seq<char>)> {
    Seq::new(s.len(), |i: int| edit_view(s[i]))
}

/// The edits a rewrite makes to the references, in order.
pub open spec fn ref_edits(refs: Seq<ValueRef>, ids: Seq<(RefKind, Seq<char>, Seq<char>)>) -> Seq<(int, int, Seq<char>)>
    decreases refs.len(),
{
    if refs.len() == 0 {
        seq![]
    } else {
        let r = refs.last();
        ref_edits(refs.drop_last(), ids) + match new_id(ids, r.kind, r.id@) {
            Some(n) => if n != r.id@ {
                seq![(r.span.start as int, r.span.end as int, seq!['"'] + n + seq!['"'])]
            } else {
                seq![]
            },
            None => seq![],
        }
    }
}

pub open spec fn path_edits(paths: Seq<PathRef>, map: Seq<(Seq<char>, Seq<char>)>) -> Seq<(int, int, Seq<char>)>
    decreases paths.len(),
{
    if paths.len() == 0 {
        seq![]
    } else {
        let p = paths.last();
        path_edits(paths.drop_last(), map) + match new_path(map, p.path@) {
            Some(n) => if n != p.path@ {
                seq![(p.span.start as int, p.span.end as int, quote_spec(n))]
            } else {
                seq![]
            },
            None => seq![],
        }
    }
}

/// `e` inserted after every edit that starts no later than it: a stable sort
/// by start, one edit at a time.
pub open spec fn insert_edit(sorted: Seq<(int, int, Seq<char>)>, e: (int, int, Seq<char>)) -> Seq<
    (int, int, Seq<char>),
>
    decreases sorted.len(),
{
    if sorted.len() == 0 || sorted.last().0 <= e.0 {
        sorted.push(e)
    } else {
        insert_edit(sorted.drop_last(), e).push(sorted.last())
    }
}

pub open spec fn sort_edits(edits: Seq<(int, int, Seq<char>)>) -> Seq<(int, int, Seq<char>)>
    decreases edits.len(),
{
    if edits.len() == 0 {
        seq![]
    } else {
        insert_edit(sort_edits(edits.drop_last()), edits.last())
    }
}

/// Applying sorted edits from `cursor` on: text before each edit is copied,
/// the edit's text replaces its range, and an edit overlapping the one before
/// it is skipped, since both cannot apply.
pub open spec fn apply_edits(raw: Seq<char>, edits: Seq<(int, int, Seq<char>)>, cursor: int) -> Seq<char>
    decreases edits.len(),
{
    if edits.len() == 0 {
        raw.subrange(cursor, raw.len() as int)
    } else {
        let (start, end, text) = edits[0];
        if start < cursor {
            apply_edits(raw, edits.drop_first(), cursor)
        } else {
            raw.subrange(cursor, start) + text + apply_edits(raw, edits.drop_first(), end)
        }
    }
}

/// The raw text of a value with a rewrite applied.
pub open spec fn splice_spec(
    raw: Seq<char>,
    refs: Seq<ValueRef>,
    paths: Seq<PathRef>,
    ids: Seq<(RefKind, Seq<char>, Seq<char>)>,
    map: Seq<(Seq<char>, Seq<char>)>,
) -> Seq<char> {
    let edits = ref_edits(refs, ids) + path_edits(paths, map);
    if edits.len() == 0 {
        raw
    } else {
        apply_edits(raw, sort_edits(edits), 0)
    }
}

fn find_new_id<'a>(ids: &'a Vec<(RefKind, String, String)>, kind: RefKind, id: &str) -> (r: Option<&'a String>)
    ensures
        match new_id(id_table(ids@), kind, id@) {
            Some(n) => r matches Some(x) && x@ == n,
            None => r is None,
        },
{
    let mut i: usize = 0;
    while i < ids.len()
        invariant
            i <= ids@.len(),
            new_id(id_table(ids@).take(i as int), kind, id@) is None,
        decreases ids@.len() - i,
    {
        proof {
            assert(id_table(ids@).take(i + 1).drop_last() =~= id_table(ids@).take(i as int));
        }
        if ids[i].0 == kind && str_eq(ids[i].1.as_str(), id) {
            proof {
                lemma_new_id_prefix(id_table(ids@), kind, id@, i + 1);
            }
            return Some(&ids[i].2);
        }
        i += 1;
    }
    proof {
        assert(id_table(ids@).take(i as int) =~= id_table(ids@));
    }
    None
}

proof fn lemma_new_id_prefix(ids: Seq<(RefKind, Seq<char>, Seq<char>)>, kind: RefKind, id: Seq<char>, k: int)
    requires
        0 < k <= ids.len(),
        new_id(ids.take(k - 1), kind, id) is None,
        ids[k - 1].0 == kind && ids[k - 1].1 == id,
    ensures
        new_id(ids, kind, id) == Some(ids[k - 1].2),
    decreases ids.len(),
{
    if k < ids.len() {
        assert(ids.drop_last().take(k - 1) =~= ids.take(k - 1));
        lemma_new_id_prefix(ids.drop_last(), kind, id, k);
    } else {
        assert(ids.drop_last() =~= ids.take(k - 1));
    }
}

fn find_new_path<'a>(map: &'a Vec<(String, String)>, path: &str) -> (r: Option<&'a String>)
    ensures
        match new_path(path_table(map@), path@) {
            Some(n) => r matches Some(x) && x@ == n,
            None => r is None,
        },
{
    let mut i: usize = 0;
    while i < map.len()
        invariant
            i <= map@.len(),
            new_path(path_table(map@).take(i as int), path@) is None,
        decreases map@.len() - i,
    {
        proof {
            assert(path_table(map@).take(i + 1).drop_last() =~= path_table(map@).take(i as int));
        }
        if str_eq(map[i].0.as_str(), path) {
            proof {
                lemma_new_path_prefix(path_table(map@), path@, i + 1);
            }
            return Some(&map[i].1);
        }
        i += 1;
    }
    proof {
        assert(path_table(map@).take(i as int) =~= path_table(map@));
    }
    None
}

proof fn lemma_new_path_prefix(map: Seq<(Seq<char>, Seq<char>)>, path: Seq<char>, k: int)
    requires
        0 < k <= map.len(),
        new_path(map.take(k - 1), path) is None,
        map[k - 1].0 == path,
    ensures
        new_path(map, path) == Some(map[k - 1].1),
    decreases map.len(),
{
    if k < map.len() {
        assert(map.drop_last().take(k - 1) =~= map.take(k - 1));
        lemma_new_path_prefix(map.drop_last(), path, k);
    } else {
        assert(map.drop_last() =~= map.take(k - 1));
    }
}

proof fn lemma_insert_edit(s: Seq<(int, int, Seq<char>)>, e: (int, int, Seq<char>), p: int)
    requires
        0 <= p <= s.len(),
        forall|k: int| p <= k < s.len() ==> (#[trigger] s[k]).0 > e.0,
        p > 0 ==> s[p - 1].0 <= e.0,
    ensures
        insert_edit(s, e) == s.take(p).push(e) + s.skip(p),
    decreases s.len(),
{
    if s.len() == p {
        assert(s.take(p) =~= s);
        assert(s.skip(p) =~= Seq::<(int, int, Seq<char>)>::empty());
        assert(s.push(e) + Seq::<(int, int, Seq<char>)>::empty() =~= s.push(e));
    } else {
        lemma_insert_edit(s.drop_last(), e, p);
        assert(s.drop_last().take(p) =~= s.take(p));
        assert(s.drop_last().skip(p).push(s.last()) =~= s.skip(p));
        assert((s.take(p).push(e) + s.drop_last().skip(p)).push(s.last()) =~= s.take(p).push(e) + s.skip(p));
    }
}

/// Puts `e` into `sorted` after every edit that starts no later than it.
fn insert_sorted_edit(sorted: &mut Vec<(usize, usize, String)>, e: (usize, usize, String))
    ensures
        edit_views(final(sorted)@) == insert_edit(edit_views(old(sorted)@), edit_view(e)),
{
    let ghost sv = edit_views(sorted@);
    let mut p = sorted.len();
    while p > 0 && sorted[p - 1].0 > e.0
        invariant
            p <= sorted@.len(),
            sv == edit_views(sorted@),
            forall|k: int| p <= k < sv.len() ==> (#[trigger] sv[k]).0 > e.0,
        decreases p,
    {
        p -= 1;
    }
    proof {
        lemma_insert_edit(sv, edit_view(e), p as int);
    }
    sorted.insert(p, e);
    proof {
        assert(edit_views(sorted@) =~= sv.take(p as int).push(edit_view(e)) + sv.skip(p as int));
    }
}

pub open spec fn edits_fit(es: Seq<(int, int, Seq<char>)>, len: int) -> bool {
    forall|k: int| 0 <= k < es.len() ==> 0 <= (#[trigger] es[k]).0 <= es[k].1 <= len
}

proof fn lemma_insert_fit(s: Seq<(int, int, Seq<char>)>, e: (int, int, Seq<char>), len: int)
    requires
        edits_fit(s, len),
        0 <= e.0 <= e.1 <= len,
    ensures
        edits_fit(insert_edit(s, e), len),
    decreases s.len(),
{
    if !(s.len() == 0 || s.last().0 <= e.0) {
        lemma_insert_fit(s.drop_last(), e, len);
        let t = insert_edit(s.drop_last(), e);
        assert forall|k: int| 0 <= k < t.push(s.last()).len() implies 0 <= (#[trigger] t.push(s.last())[k]).0
            <= t.push(s.last())[k].1 <= len by {
            if k < t.len() {
                assert(t.push(s.last())[k] == t[k]);
            }
        }
    } else {
        assert forall|k: int| 0 <= k < s.push(e).len() implies 0 <= (#[trigger] s.push(e)[k]).0 <= s.push(e)[k].1
            <= len by {
            if k < s.len() {
                assert(s.push(e)[k] == s[k]);
            }
        }
    }
}

proof fn lemma_sort_fit(es: Seq<(int, int, Seq<char>)>, len: int)
    requires
        edits_fit(es, len),
    ensures
        edits_fit(sort_edits(es), len),
    decreases es.len(),
{
    if es.len() > 0 {
        assert(edits_fit(es.drop_last(), len)) by {
            assert forall|k: int| 0 <= k < es.drop_last().len() implies 0 <= (#[trigger] es.drop_last()[k]).0
                <= es.drop_last()[k].1 <= len by {
                assert(es.drop_last()[k] == es[k]);
            }
        }
        lemma_sort_fit(es.drop_last(), len);
        assert(0 <= es[es.len() - 1].0);
        lemma_insert_fit(sort_edits(es.drop_last()), es.last(), len);
    }
}

proof fn lemma_ref_edits_fit(refs: Seq<ValueRef>, ids: Seq<(RefKind, Seq<char>, Seq<char>)>, len: int)
    requires
        forall|i: int| 0 <= i < refs.len() ==> #[trigger] refs[i].span.start <= refs[i].span.end <= len,
    ensures
        edits_fit(ref_edits(refs, ids), len),
    decreases refs.len(),
{
    if refs.len() > 0 {
        assert forall|i: int| 0 <= i < refs.drop_last().len() implies #[trigger] refs.drop_last()[i].span.start
            <= refs.drop_last()[i].span.end <= len by {
            assert(refs.drop_last()[i] == refs[i]);
        }
        lemma_ref_edits_fit(refs.drop_last(), ids, len);
        let r = refs.last();
        assert(r == refs[refs.len() - 1]);
        assert(refs[refs.len() - 1].span.start <= refs[refs.len() - 1].span.end <= len);
        assert(r.span.start <= r.span.end <= len);
        let t = ref_edits(refs, ids);
        let a = ref_edits(refs.drop_last(), ids);
        assert forall|k: int| 0 <= k < t.len() implies 0 <= (#[trigger] t[k]).0 <= t[k].1 <= len by {
            if k < a.len() {
                assert(t[k] == a[k]);
            }
        }
    }
}

proof fn lemma_path_edits_fit(paths: Seq<PathRef>, map: Seq<(Seq<char>, Seq<char>)>, len: int)
    requires
        forall|i: int| 0 <= i < paths.len() ==> #[trigger] paths[i].span.start <= paths[i].span.end <= len,
    ensures
        edits_fit(path_edits(paths, map), len),
    decreases paths.len(),
{
    if paths.len() > 0 {
        assert forall|i: int| 0 <= i < paths.drop_last().len() implies #[trigger] paths.drop_last()[i].span.start
            <= paths.drop_last()[i].span.end <= len by {
            assert(paths.drop_last()[i] == paths[i]);
        }
        lemma_path_edits_fit(paths.drop_last(), map, len);
        let p = paths.last();
        assert(p == paths[paths.len() - 1]);
        assert(paths[paths.len() - 1].span.start <= paths[paths.len() - 1].span.end <= len);
        assert(p.span.start <= p.span.end <= len);
        let t = path_edits(paths, map);
        let a = path_edits(paths.drop_last(), map);
        assert forall|k: int| 0 <= k < t.len() implies 0 <= (#[trigger] t[k]).0 <= t[k].1 <= len by {
            if k < a.len() {
                assert(t[k] == a[k]);
            }
        }
    }
}

/// `raw` with the sorted edits applied.
fn apply(raw: &Vec<char>, edits: &Vec<(usize, usize, String)>) -> (r: String)
    requires
        edits_fit(edit_views(edits@), raw@.len() as int),
    ensures
        r@ == apply_edits(raw@, edit_views(edits@), 0),
{
    let ghost ev = edit_views(edits@);
    let mut out = String::new();
    let mut cursor: usize = 0;
    let mut k: usize = 0;
    proof {
        assert(ev.skip(0) =~= ev);
    }
    while k < edits.len()
        invariant
            k <= edits@.len(),
            cursor <= raw@.len(),
            ev == edit_views(edits@),
            edits_fit(ev, raw@.len() as int),
            apply_edits(raw@, ev, 0) == out@ + apply_edits(raw@, ev.skip(k as int), cursor as int),
        decreases edits@.len() - k,
    {
        proof {
            assert(ev.skip(k as int).drop_first() =~= ev.skip(k + 1));
            assert(ev.skip(k as int)[0] == edit_view(edits@[k as int]));
            assert(ev[k as int] == edit_view(edits@[k as int]));
        }
        let (start, end) = (edits[k].0, edits[k].1);
        if start >= cursor {
            crate::text::push_chars(&mut out, raw.as_slice(), cursor, start);
            push_str(&mut out, edits[k].2.as_str());
            cursor = end;
        }
        k += 1;
    }
    crate::text::push_chars(&mut out, raw.as_slice(), cursor, raw.len());
    proof {
        assert(ev.skip(k as int) =~= Seq::<(int, int, Seq<char>)>::empty());
    }
    out
}

/// The raw text of a value with `rewrite` applied to its references and paths.
pub fn splice(raw: &str, refs: &Vec<ValueRef>, paths: &Vec<PathRef>, rewrite: &Rewrite) -> (r: String)
    requires
        spans_fit(refs@, paths@, raw@.len() as int),
    ensures
        r@ == splice_spec(raw@, refs@, paths@, id_table(rewrite.ids@), path_table(rewrite.paths@)),
{
    let mut edits: Vec<(usize, usize, String)> = Vec::new();
    let mut i: usize = 0;
    while i < refs.len()
        invariant
            i <= refs@.len(),
            edit_views(edits@) == ref_edits(refs@.take(i as int), id_table(rewrite.ids@)),
        decreases refs@.len() - i,
    {
        proof {
            assert(refs@.take(i + 1).drop_last() =~= refs@.take(i as int));
            assert(refs@.take(i + 1).last() == refs@[i as int]);
        }
        let r = &refs[i];
        let ghost before = edits@;
        if let Some(new) = find_new_id(&rewrite.ids, r.kind, r.id.as_str()) {
            if !str_eq(new.as_str(), r.id.as_str()) {
                let mut text = String::new();
                text.push('"');
                push_str(&mut text, new.as_str());
                text.push('"');
                proof {
                    assert(text@ =~= seq!['"'] + new@ + seq!['"']);
                }
                let x = (r.span.start, r.span.end, text);
                edits.push(x);
                proof {
                    assert(edit_views(edits@) =~= edit_views(before).push(edit_view(x)));
                }
            }
        }
        proof {
            assert(edit_views(edits@) =~= ref_edits(refs@.take(i + 1), id_table(rewrite.ids@)));
        }
        i += 1;
    }
    let ghost from_refs = edit_views(edits@);
    let mut i: usize = 0;
    while i < paths.len()
        invariant
            i <= paths@.len(),
            edit_views(edits@) == from_refs + path_edits(paths@.take(i as int), path_table(rewrite.paths@)),
        decreases paths@.len() - i,
    {
        proof {
            assert(paths@.take(i + 1).drop_last() =~= paths@.take(i as int));
            assert(paths@.take(i + 1).last() == paths@[i as int]);
        }
        let p = &paths[i];
        let ghost before = edits@;
        if let Some(new) = find_new_path(&rewrite.paths, p.path.as_str()) {
            if !str_eq(new.as_str(), p.path.as_str()) {
                let x = (p.span.start, p.span.end, quote(new.as_str()));
                edits.push(x);
                proof {
                    assert(edit_views(edits@) =~= edit_views(before).push(edit_view(x)));
                }
            }
        }
        proof {
            assert(edit_views(edits@) =~= from_refs + path_edits(paths@.take(i + 1), path_table(rewrite.paths@)));
        }
        i += 1;
    }
    proof {
        assert(refs@.take(refs@.len() as int) =~= refs@);
        assert(paths@.take(i as int) =~= paths@);
        lemma_ref_edits_fit(refs@, id_table(rewrite.ids@), raw@.len() as int);
        lemma_path_edits_fit(paths@, path_table(rewrite.paths@), raw@.len() as int);
        let all = ref_edits(refs@, id_table(rewrite.ids@)) + path_edits(paths@, path_table(rewrite.paths@));
        let a = ref_edits(refs@, id_table(rewrite.ids@));
        assert forall|k: int| 0 <= k < all.len() implies 0 <= (#[trigger] all[k]).0 <= all[k].1 <= raw@.len() by {
            if k < a.len() {
                assert(all[k] == a[k]);
            } else {
                assert(all[k] == path_edits(paths@, path_table(rewrite.paths@))[k - a.len()]);
            }
        }
    }
    let cs = chars_of(raw);
    if edits.len() == 0 {
        return raw.to_owned();
    }
    let mut sorted: Vec<(usize, usize, String)> = Vec::new();
    let ghost all = edit_views(edits@);
    let mut k: usize = 0;
    while k < edits.len()
        invariant
            k <= edits@.len(),
            all == edit_views(edits@),
            edit_views(sorted@) == sort_edits(all.take(k as int)),
            edits_fit(all, raw@.len() as int),
        decreases edits@.len() - k,
    {
        proof {
            assert(all.take(k + 1).drop_last() =~= all.take(k as int));
        }
        let e = (edits[k].0, edits[k].1, edits[k].2.clone());
        insert_sorted_edit(&mut sorted, e);
        k += 1;
    }
    proof {
        assert(all.take(k as int) =~= all);
        lemma_sort_fit(all, raw@.len() as int);
    }
    apply(&cs, &sorted)
}

pub open spec fn field_render(f: Field, rw: Rewrite) -> Seq<char> {
    f.sep_before@ + f.name@ + f.sep_eq@ + seq!['='] + f.sep_val@ + splice_spec(
        f.value_raw@,
        f.refs@,
        f.paths@,
        id_table(rw.ids@),
        path_table(rw.paths@),
    )
}

pub open spec fn fields_render(fs: Seq<Field>, rw: Rewrite) -> Seq<char>
    decreases fs.len(),
{
    if fs.len() == 0 {
        seq![]
    } else {
        fields_render(fs.drop_last(), rw) + field_render(fs.last(), rw)
    }
}

pub open spec fn prop_render(p: Property, rw: Rewrite) -> Seq<char> {
    p.lead@ + p.key_raw@ + p.sep_eq@ + seq!['='] + p.sep_val@ + splice_spec(
        p.value_raw@,
        p.refs@,
        p.paths@,
        id_table(rw.ids@),
        path_table(rw.paths@),
    )
}

pub open spec fn props_render(ps: Seq<Property>, rw: Rewrite) -> Seq<char>
    decreases ps.len(),
{
    if ps.len() == 0 {
        seq![]
    } else {
        props_render(ps.drop_last(), rw) + prop_render(ps.last(), rw)
    }
}

pub open spec fn section_render(s: Section, rw: Rewrite) -> Seq<char> {
    seq!['['] + s.open_sep@ + s.tag@ + fields_render(s.fields@, rw) + s.close_sep@ + seq![']'] + props_render(
        s.props@,
        rw,
    ) + s.trailing@
}

pub open spec fn sections_render(ss: Seq<Section>, rw: Rewrite) -> Seq<char>
    decreases ss.len(),
{
    if ss.len() == 0 {
        seq![]
    } else {
        sections_render(ss.drop_last(), rw) + section_render(ss.last(), rw)
    }
}

/// Every recorded span of the section lies inside its value's raw text.
pub open spec fn section_fits(s: Section) -> bool {
    &&& forall|i: int| 0 <= i < s.fields@.len() ==> spans_fit(
        (#[trigger] s.fields@[i]).refs@,
        s.fields@[i].paths@,
        s.fields@[i].value_raw@.len() as int,
    )
    &&& forall|i: int| 0 <= i < s.props@.len() ==> spans_fit(
        (#[trigger] s.props@[i]).refs@,
        s.props@[i].paths@,
        s.props@[i].value_raw@.len() as int,
    )
}

impl Field {
    /// The field value, rewritten.
    pub fn rendered(&self, rewrite: &Rewrite) -> (r: String)
        requires
            spans_fit(self.refs@, self.paths@, self.value_raw@.len() as int),
        ensures
            r@ == splice_spec(self.value_raw@, self.refs@, self.paths@, id_table(rewrite.ids@), path_table(rewrite.paths@)),
    {
        splice(self.value_raw.as_str(), &self.refs, &self.paths, rewrite)
    }
}

impl Property {
    /// The property value, rewritten.
    pub fn rendered(&self, rewrite: &Rewrite) -> (r: String)
        requires
            spans_fit(self.refs@, self.paths@, self.value_raw@.len() as int),
        ensures
            r@ == splice_spec(self.value_raw@, self.refs@, self.paths@, id_table(rewrite.ids@), path_table(rewrite.paths@)),
    {
        splice(self.value_raw.as_str(), &self.refs, &self.paths, rewrite)
    }
}

impl Section {
    /// Renders the section back to source with the given rewrite applied.
    pub fn render(&self, rewrite: &Rewrite, out: &mut String)
        requires
            section_fits(*self),
        ensures
            final(out)@ == old(out)@ + section_render(*self, *rewrite),
    {
        out.push('[');
        push_str(out, self.open_sep.as_str());
        push_str(out, self.tag.as_str());
        let ghost start = out@;
        let mut i: usize = 0;
        while i < self.fields.len()
            invariant
                i <= self.fields@.len(),
                section_fits(*self),
                out@ == start + fields_render(self.fields@.take(i as int), *rewrite),
            decreases self.fields@.len() - i,
        {
            proof {
                assert(self.fields@.take(i + 1).drop_last() =~= self.fields@.take(i as int));
            }
            let f = &self.fields[i];
            push_str(out, f.sep_before.as_str());
            push_str(out, f.name.as_str());
            push_str(out, f.sep_eq.as_str());
            out.push('=');
            push_str(out, f.sep_val.as_str());
            let v = f.rendered(rewrite);
            push_str(out, v.as_str());
            proof {
                assert(out@ =~= start + fields_render(self.fields@.take(i + 1), *rewrite));
            }
            i += 1;
        }
        proof {
            assert(self.fields@.take(i as int) =~= self.fields@);
        }
        push_str(out, self.close_sep.as_str());
        out.push(']');
        let ghost mid = out@;
        let mut i: usize = 0;
        while i < self.props.len()
            invariant
                i <= self.props@.len(),
                section_fits(*self),
                out@ == mid + props_render(self.props@.take(i as int), *rewrite),
            decreases self.props@.len() - i,
        {
            proof {
                assert(self.props@.take(i + 1).drop_last() =~= self.props@.take(i as int));
            }
            let p = &self.props[i];
            push_str(out, p.lead.as_str());
            push_str(out, p.key_raw.as_str());
            push_str(out, p.sep_eq.as_str());
            out.push('=');
            push_str(out, p.sep_val.as_str());
            let v = p.rendered(rewrite);
            push_str(out, v.as_str());
            proof {
                assert(out@ =~= mid + props_render(self.props@.take(i + 1), *rewrite));
            }
            i += 1;
        }
        proof {
            assert(self.props@.take(i as int) =~= self.props@);
        }
        push_str(out, self.trailing.as_str());
        proof {
            assert(out@ =~= old(out)@ + section_render(*self, *rewrite));
        }
    }
}

impl Document {
    /// The document's text with `rewrite` applied to every value.
    pub fn render(&self, rewrite: &Rewrite) -> (s: String)
        requires
            forall|i: int| 0 <= i < self.sections@.len() ==> section_fits(#[trigger] self.sections@[i]),
        ensures
            s@ == self.lead@ + sections_render(self.sections@, *rewrite),
    {
        let mut out = String::new();
        push_str(&mut out, self.lead.as_str());
        let mut i: usize = 0;
        while i < self.sections.len()
            invariant
                i <= self.sections@.len(),
                forall|k: int| 0 <= k < self.sections@.len() ==> section_fits(#[trigger] self.sections@[k]),
                out@ == self.lead@ + sections_render(self.sections@.take(i as int), *rewrite),
            decreases self.sections@.len() - i,
        {
            proof {
                assert(self.sections@.take(i + 1).drop_last() =~= self.sections@.take(i as int));
            }
            self.sections[i].render(rewrite, &mut out);
            proof {
                assert(out@ =~= self.lead@ + sections_render(self.sections@.take(i + 1), *rewrite));
            }
            i += 1;
        }
        proof {
            assert(self.sections@.take(i as int) =~= self.sections@);
        }
        out
    }
}

proof fn lemma_no_ref_edits(refs: Seq<ValueRef>, ids: Seq<(RefKind, Seq<char>, Seq<char>)>)
    requires
        ids.len() == 0,
    ensures
        ref_edits(refs, ids).len() == 0,
    decreases refs.len(),
{
    if refs.len() > 0 {
        lemma_no_ref_edits(refs.drop_last(), ids);
    }
}

proof fn lemma_no_path_edits(paths: Seq<PathRef>, map: Seq<(Seq<char>, Seq<char>)>)
    requires
        map.len() == 0,
    ensures
        path_edits(paths, map).len() == 0,
    decreases paths.len(),
{
    if paths.len() > 0 {
        lemma_no_path_edits(paths.drop_last(), map);
    }
}

proof fn lemma_fields_render_none(fs: Seq<Field>, rw: Rewrite)
    requires
        rw.ids@.len() == 0,
        rw.paths@.len() == 0,
    ensures
        fields_render(fs, rw) == fields_text(fs),
    decreases fs.len(),
{
    if fs.len() > 0 {
        lemma_fields_render_none(fs.drop_last(), rw);
        lemma_no_ref_edits(fs.last().refs@, id_table(rw.ids@));
        lemma_no_path_edits(fs.last().paths@, path_table(rw.paths@));
    }
}

proof fn lemma_props_render_none(ps: Seq<Property>, rw: Rewrite)
    requires
        rw.ids@.len() == 0,
        rw.paths@.len() == 0,
    ensures
        props_render(ps, rw) == props_text(ps),
    decreases ps.len(),
{
    if ps.len() > 0 {
        lemma_props_render_none(ps.drop_last(), rw);
        lemma_no_ref_edits(ps.last().refs@, id_table(rw.ids@));
        lemma_no_path_edits(ps.last().paths@, path_table(rw.paths@));
    }
}

proof fn lemma_sections_render_none(ss: Seq<Section>, rw: Rewrite)
    requires
        rw.ids@.len() == 0,
        rw.paths@.len() == 0,
    ensures
        sections_render(ss, rw) == sections_text(ss),
    decreases ss.len(),
{
    if ss.len() > 0 {
        lemma_sections_render_none(ss.drop_last(), rw);
        lemma_fields_render_none(ss.last().fields@, rw);
        lemma_props_render_none(ss.last().props@, rw);
    }
}

/// Rendering with a rewrite that changes nothing gives back the document's
/// own text, so for a parsed document the source it came from.
pub proof fn lemma_render_without_rewrite(d: Document, rw: Rewrite)
    requires
        rw.ids@.len() == 0,
        rw.paths@.len() == 0,
    ensures
        d.lead@ + sections_render(d.sections@, rw) == doc_text(d),
{
    lemma_sections_render_none(d.sections@, rw);
}

/// A parsed document has all its spans inside the values they belong to.
pub proof fn lemma_parsed_fits(d: Document)
    requires
        d.wf(),
    ensures
        forall|i: int| 0 <= i < d.sections@.len() ==> section_fits(#[trigger] d.sections@[i]),
{
    assert forall|i: int| 0 <= i < d.sections@.len() implies section_fits(#[trigger] d.sections@[i]) by {
        let s = d.sections@[i];
        assert(section_wf(s));
        assert forall|k: int| 0 <= k < s.fields@.len() implies spans_fit(
            (#[trigger] s.fields@[k]).refs@,
            s.fields@[k].paths@,
            s.fields@[k].value_raw@.len() as int,
        ) by {
            assert(field_wf(s.fields@[k]));
        }
        assert forall|k: int| 0 <= k < s.props@.len() implies spans_fit(
            (#[trigger] s.props@[k]).refs@,
            s.props@[k].paths@,
            s.props@[k].value_raw@.len() as int,
        ) by {
            assert(prop_wf(s.props@[k]));
        }
    }
}

} // verus!
