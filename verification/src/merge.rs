//! What a three-way merge hands back: the merged text and the conflicts it
//! could not settle, each with the rows a person has to look at.
use vstd::prelude::*;

use crate::diff::{
    dedup, field_names, has_id, prop_keys, field_name_list, prop_key_list, opt_string_eq, opt_view,
    raw_field, raw_prop, select, select_ids, diff_changes, diff_scenes, lemma_diff_self,
};
use crate::canon::{table_view, NumberForms, Table};
use crate::align::{align_path, alignment_spec, realign, renamed_apart_spec, Alignment, Which};
use crate::doc::{
    accepts, doc_text, parse_document, parses_to, quote, quote_spec, field_index, field_str_spec, id_table, lemma_parsed_fits, path_table, prop_index,
    section_fits, spans_fit,
    splice_spec, Document, Field, Property, Rewrite, Section, SectionKind,
};
use crate::scene::{
    canon_field, canon_prop, canon_section, copy_id, describe_in, first_index, ids_view,
    lemma_first_index, rank_view, same_id, scene_of, str_or, EntityId, EntityIdView, Scene,
    SceneView,
};
use crate::nodepath::{
    doc_findings, finding_views, findings, lex_less, lex_lt, reference_view,
    site_text, Reference, ReferenceView, Resolution, ResolutionView, Site,
};
use crate::reparse::lemma_findings_of_text;
use crate::text::{chars_of, decimal, decimal_text, lemma_decimal_injective, push_str, str_eq};
use crate::value::{string_views, RefKind};

verus! {

broadcast use vstd::string::group_string_axioms;

/// How conflict markers are written.
#[derive(Debug)]
pub struct MergeOptions {
    pub ours_label: String,
    pub theirs_label: String,
    /// Length of the `<<<<<<<` run; git passes this as `%L`.
    pub marker_size: usize,
}

impl Default for MergeOptions {
    fn default() -> (r: MergeOptions)
        ensures
            r.ours_label@ == "ours"@,
            r.theirs_label@ == "theirs"@,
            r.marker_size == 7,
    {
        let mut ours_label = String::new();
        push_str(&mut ours_label, "ours");
        let mut theirs_label = String::new();
        push_str(&mut theirs_label, "theirs");
        MergeOptions { ours_label, theirs_label, marker_size: 7 }
    }
}

/// One item of a conflicted entity, as each side has it.
#[derive(Debug, PartialEq, Eq)]
pub struct ConflictRow {
    /// The header field or property.
    pub key: String,
    /// The value in the common ancestor, ours and theirs; `None` where the
    /// side does not have the item.
    pub base: Option<String>,
    pub ours: Option<String>,
    pub theirs: Option<String>,
    /// Whether the two sides disagree on this item.
    pub differs: bool,
}

#[derive(Debug, PartialEq, Eq)]
pub struct Conflict {
    /// Human-readable identity of the entity, e.g. `node Player/Sprite2D`.
    pub entity: String,
    pub detail: String,
    /// The items of the entity, side by side.
    pub rows: Vec<ConflictRow>,
}

#[derive(Debug)]
pub struct MergeOutcome {
    pub text: String,
    pub conflicts: Vec<Conflict>,
}

impl MergeOutcome {
    pub fn is_clean(&self) -> (r: bool)
        ensures
            r == (self.conflicts@.len() == 0),
    {
        self.conflicts.len() == 0
    }
}


// ---------------------------------------------------------------------------
// Picking, item by item.

/// Which branch a merged item comes from.
#[derive(Debug, Clone, Copy, PartialEq, Eq, Structural)]
pub enum Side {
    Ours,
    Theirs,
}

/// The outcome of a three-way decision about one item.
#[derive(Debug, Clone, Copy, PartialEq, Eq, Structural)]
pub enum Pick {
    Side(Side),
    Drop,
    Clash,
}

/// Three-way choice for one item, given its canonical text in the base, ours
/// and theirs. A derived item is recomputed when written, so its presence
/// follows whichever side still has it.
pub open spec fn pick_spec(derived: bool, b: Option<Seq<char>>, o: Option<Seq<char>>, t: Option<Seq<char>>) -> Pick {
    if derived {
        if o is Some {
            Pick::Side(Side::Ours)
        } else if t is Some {
            Pick::Side(Side::Theirs)
        } else {
            Pick::Drop
        }
    } else if o == t {
        if o is Some {
            Pick::Side(Side::Ours)
        } else {
            Pick::Drop
        }
    } else if b == o {
        if t is Some {
            Pick::Side(Side::Theirs)
        } else {
            Pick::Drop
        }
    } else if b == t {
        if o is Some {
            Pick::Side(Side::Ours)
        } else {
            Pick::Drop
        }
    } else {
        Pick::Clash
    }
}

fn pick(derived: bool, b: &Option<String>, o: &Option<String>, t: &Option<String>) -> (r: Pick)
    ensures
        r == pick_spec(derived, opt_view(*b), opt_view(*o), opt_view(*t)),
{
    if derived {
        return if o.is_some() {
            Pick::Side(Side::Ours)
        } else if t.is_some() {
            Pick::Side(Side::Theirs)
        } else {
            Pick::Drop
        };
    }
    if opt_string_eq(o, t) {
        return if o.is_some() {
            Pick::Side(Side::Ours)
        } else {
            Pick::Drop
        };
    }
    if opt_string_eq(b, o) {
        return if t.is_some() {
            Pick::Side(Side::Theirs)
        } else {
            Pick::Drop
        };
    }
    if opt_string_eq(b, t) {
        return if o.is_some() {
            Pick::Side(Side::Ours)
        } else {
            Pick::Drop
        };
    }
    Pick::Clash
}

pub open spec fn base_field(base: Option<Section>, name: Seq<char>, sb: SceneView) -> Option<Seq<char>> {
    match base {
        Some(s) => canon_field(s, name, sb.ext, sb.sub, sb.nums),
        None => None,
    }
}

pub open spec fn base_prop(base: Option<Section>, key: Seq<char>, sb: SceneView) -> Option<Seq<char>> {
    match base {
        Some(s) => canon_prop(s, key, sb.ext, sb.sub, sb.nums),
        None => None,
    }
}

/// The side each header field among `names` comes from; `None` on a collision.
pub open spec fn field_picks(
    names: Seq<Seq<char>>,
    base: Option<Section>,
    o: Section,
    t: Section,
    sb: SceneView,
    so: SceneView,
    st: SceneView,
) -> Option<Seq<(Seq<char>, Side)>>
    decreases names.len(),
{
    if names.len() == 0 {
        Some(seq![])
    } else {
        match field_picks(names.drop_last(), base, o, t, sb, so, st) {
            None => None,
            Some(acc) => {
                let n = names.last();
                match pick_spec(
                    o.kind.is_derived_spec(n),
                    base_field(base, n, sb),
                    canon_field(o, n, so.ext, so.sub, so.nums),
                    canon_field(t, n, st.ext, st.sub, st.nums),
                ) {
                    Pick::Drop => Some(acc),
                    Pick::Side(s) => Some(acc.push((n, s))),
                    Pick::Clash => None,
                }
            },
        }
    }
}

/// The side each property among `keys` comes from; `None` on a collision.
pub open spec fn prop_picks(
    keys: Seq<Seq<char>>,
    base: Option<Section>,
    o: Section,
    t: Section,
    sb: SceneView,
    so: SceneView,
    st: SceneView,
) -> Option<Seq<(Seq<char>, Side)>>
    decreases keys.len(),
{
    if keys.len() == 0 {
        Some(seq![])
    } else {
        match prop_picks(keys.drop_last(), base, o, t, sb, so, st) {
            None => None,
            Some(acc) => {
                let k = keys.last();
                match pick_spec(
                    false,
                    base_prop(base, k, sb),
                    canon_prop(o, k, so.ext, so.sub, so.nums),
                    canon_prop(t, k, st.ext, st.sub, st.nums),
                ) {
                    Pick::Drop => Some(acc),
                    Pick::Side(s) => Some(acc.push((k, s))),
                    Pick::Clash => None,
                }
            },
        }
    }
}

/// Item-level three-way merge of one entity that both sides changed: the
/// side each header field and each property comes from, or `None` when the
/// same item was changed two ways.
pub open spec fn merge_items_spec(
    base: Option<Section>,
    o: Section,
    t: Section,
    sb: SceneView,
    so: SceneView,
    st: SceneView,
) -> Option<(Seq<(Seq<char>, Side)>, Seq<(Seq<char>, Side)>)> {
    match field_picks(dedup(field_names(o.fields@) + field_names(t.fields@)), base, o, t, sb, so, st) {
        None => None,
        Some(f) => match prop_picks(dedup(prop_keys(o.props@) + prop_keys(t.props@)), base, o, t, sb, so, st) {
            None => None,
            Some(p) => Some((f, p)),
        },
    }
}

pub open spec fn picks_view(s: Seq<(String, Side)>) -> Seq<(Seq<char>, Side)> {
    Seq::new(s.len(), |i: int| (s[i].0@, s[i].1))
}

pub open spec fn opt_section(o: Option<&Section>) -> Option<Section> {
    match o {
        Some(s) => Some(*s),
        None => None,
    }
}

fn merge_items(
    sb: &Scene,
    base: Option<&Section>,
    so: &Scene,
    ours: &Section,
    st: &Scene,
    theirs: &Section,
) -> (r: Option<(Vec<(String, Side)>, Vec<(String, Side)>)>)
    ensures
        match merge_items_spec(opt_section(base), *ours, *theirs, sb.view_of(), so.view_of(), st.view_of()) {
            Some((f, p)) => r matches Some((x, y)) && picks_view(x@) == f && picks_view(y@) == p,
            None => r is None,
        },
{
    let ghost (vb, vo, vt, bs) = (sb.view_of(), so.view_of(), st.view_of(), opt_section(base));
    let names = field_name_list(ours, theirs);
    let ghost nv = Seq::new(names@.len(), |i: int| names@[i]@);
    let mut fields: Vec<(String, Side)> = Vec::new();
    let mut i: usize = 0;
    while i < names.len()
        invariant
            i <= names@.len(),
            nv == Seq::new(names@.len(), |m: int| names@[m]@),
            nv == dedup(field_names(ours.fields@) + field_names(theirs.fields@)),
            vb == sb.view_of(),
            vo == so.view_of(),
            vt == st.view_of(),
            bs == opt_section(base),
            field_picks(nv.take(i as int), bs, *ours, *theirs, vb, vo, vt) == Some(picks_view(fields@)),
        decreases names@.len() - i,
    {
        proof {
            assert(nv.take(i + 1).drop_last() =~= nv.take(i as int));
            assert(nv[i as int] == names@[i as int]@);
        }
        let name = names[i].as_str();
        let derived = ours.kind.is_derived_field(name);
        let b = match base {
            Some(s) => sb.canonical_field(s, name),
            None => None,
        };
        let o = so.canonical_field(ours, name);
        let t = st.canonical_field(theirs, name);
        match pick(derived, &b, &o, &t) {
            Pick::Drop => {},
            Pick::Side(side) => {
                let ghost before = fields@;
                fields.push((names[i].clone(), side));
                proof {
                    assert(picks_view(fields@) =~= picks_view(before).push((nv[i as int], side)));
                }
            },
            Pick::Clash => {
                proof {
                    assert(opt_view(b) == base_field(bs, nv[i as int], vb));
                    assert(opt_view(o) == canon_field(*ours, nv[i as int], vo.ext, vo.sub, vo.nums));
                    assert(opt_view(t) == canon_field(*theirs, nv[i as int], vt.ext, vt.sub, vt.nums));
                    assert(nv.take(i + 1).last() == nv[i as int]);
                    assert(field_picks(nv.take(i + 1), bs, *ours, *theirs, vb, vo, vt) is None);
                    lemma_field_picks_none(nv, (i + 1) as nat, bs, *ours, *theirs, vb, vo, vt);
                    assert(nv == dedup(field_names(ours.fields@) + field_names(theirs.fields@)));
                    assert(field_picks(nv, bs, *ours, *theirs, vb, vo, vt) is None);
                    assert(merge_items_spec(bs, *ours, *theirs, vb, vo, vt) is None);
                }
                return None;
            },
        }
        i += 1;
    }
    proof {
        assert(nv.take(i as int) =~= nv);
    }
    let keys = prop_key_list(ours, theirs);
    let ghost kv = Seq::new(keys@.len(), |i: int| keys@[i]@);
    let mut props: Vec<(String, Side)> = Vec::new();
    let mut j: usize = 0;
    while j < keys.len()
        invariant
            j <= keys@.len(),
            kv == Seq::new(keys@.len(), |m: int| keys@[m]@),
            kv == dedup(prop_keys(ours.props@) + prop_keys(theirs.props@)),
            field_picks(nv, bs, *ours, *theirs, vb, vo, vt) == Some(picks_view(fields@)),
            vb == sb.view_of(),
            vo == so.view_of(),
            vt == st.view_of(),
            bs == opt_section(base),
            prop_picks(kv.take(j as int), bs, *ours, *theirs, vb, vo, vt) == Some(picks_view(props@)),
        decreases keys@.len() - j,
    {
        proof {
            assert(kv.take(j + 1).drop_last() =~= kv.take(j as int));
            assert(kv[j as int] == keys@[j as int]@);
        }
        let key = keys[j].as_str();
        let b = match base {
            Some(s) => sb.canonical_prop(s, key),
            None => None,
        };
        let o = so.canonical_prop(ours, key);
        let t = st.canonical_prop(theirs, key);
        match pick(false, &b, &o, &t) {
            Pick::Drop => {},
            Pick::Side(side) => {
                let ghost before = props@;
                props.push((keys[j].clone(), side));
                proof {
                    assert(picks_view(props@) =~= picks_view(before).push((kv[j as int], side)));
                }
            },
            Pick::Clash => {
                proof {
                    assert(opt_view(b) == base_prop(bs, kv[j as int], vb));
                    assert(kv.take(j + 1).last() == kv[j as int]);
                    assert(prop_picks(kv.take(j + 1), bs, *ours, *theirs, vb, vo, vt) is None);
                    lemma_prop_picks_none(kv, (j + 1) as nat, bs, *ours, *theirs, vb, vo, vt);
                    assert(kv.take(kv.len() as int) =~= kv);
                }
                return None;
            },
        }
        j += 1;
    }
    proof {
        assert(kv.take(j as int) =~= kv);
    }
    Some((fields, props))
}

/// Once a prefix of the names collides, the whole does.
proof fn lemma_field_picks_none(
    names: Seq<Seq<char>>,
    k: nat,
    base: Option<Section>,
    o: Section,
    t: Section,
    sb: SceneView,
    so: SceneView,
    st: SceneView,
)
    requires
        k <= names.len(),
        field_picks(names.take(k as int), base, o, t, sb, so, st) is None,
    ensures
        field_picks(names, base, o, t, sb, so, st) is None,
    decreases names.len() - k,
{
    if k < names.len() {
        assert(names.take((k + 1) as int).drop_last() =~= names.take(k as int));
        lemma_field_picks_none(names, k + 1, base, o, t, sb, so, st);
    } else {
        assert(names.take(k as int) =~= names);
    }
}

proof fn lemma_prop_picks_none(
    keys: Seq<Seq<char>>,
    k: nat,
    base: Option<Section>,
    o: Section,
    t: Section,
    sb: SceneView,
    so: SceneView,
    st: SceneView,
)
    requires
        k <= keys.len(),
        prop_picks(keys.take(k as int), base, o, t, sb, so, st) is None,
    ensures
        prop_picks(keys, base, o, t, sb, so, st) is None,
    decreases keys.len() - k,
{
    if k < keys.len() {
        assert(keys.take((k + 1) as int).drop_last() =~= keys.take(k as int));
        lemma_prop_picks_none(keys, k + 1, base, o, t, sb, so, st);
    } else {
        assert(keys.take(k as int) =~= keys);
    }
}


// ---------------------------------------------------------------------------
// What becomes of each entity.

/// One resolved entity in the merged document.
#[derive(Debug)]
pub enum Res {
    /// Take the whole section from one side.
    Take(Side),
    /// Rebuild the section from per-item picks.
    Merge { fields: Vec<(String, Side)>, props: Vec<(String, Side)> },
    Conflict,
}

pub enum ResView {
    Take(Side),
    Merge { fields: Seq<(Seq<char>, Side)>, props: Seq<(Seq<char>, Side)> },
    Conflict,
}

impl View for Res {
    type V = ResView;

    open spec fn view(&self) -> ResView {
        match self {
            Res::Take(s) => ResView::Take(*s),
            Res::Merge { fields, props } => ResView::Merge {
                fields: picks_view(fields@),
                props: picks_view(props@),
            },
            Res::Conflict => ResView::Conflict,
        }
    }
}

/// The canonical text of the section `id` first names in `sc`.
pub open spec fn canon_at(sc: SceneView, id: EntityIdView) -> Option<Seq<char>> {
    match first_index(sc.ids, id) {
        Some(i) => Some(canon_section(sc.ss[i], sc.ext, sc.sub, sc.nums)),
        None => None,
    }
}

/// The section `id` first names in `sc`.
pub open spec fn section_at(sc: SceneView, id: EntityIdView) -> Option<Section> {
    match first_index(sc.ids, id) {
        Some(i) => Some(sc.ss[i]),
        None => None,
    }
}

/// What becomes of one entity: its resolution, if it stays in the merged
/// file, and the conflict it raises, if any, as its entity, detail and rows.
pub open spec fn resolve(id: EntityIdView, sb: SceneView, so: SceneView, st: SceneView) -> (
    Option<ResView>,
    Option<ConflictView>,
) {
    let (cb, co, ct) = (canon_at(sb, id), canon_at(so, id), canon_at(st, id));
    if co is None && ct is None {
        (None, None)
    } else if co is Some && co == ct {
        (Some(ResView::Take(Side::Ours)), None)
    } else if cb is Some && co is Some && ct is Some && cb == co {
        (Some(ResView::Take(Side::Theirs)), None)
    } else if cb is Some && co is Some && ct is Some && cb == ct {
        (Some(ResView::Take(Side::Ours)), None)
    } else if co is Some && ct is Some {
        match merge_items_spec(
            section_at(sb, id),
            section_at(so, id)->Some_0,
            section_at(st, id)->Some_0,
            sb,
            so,
            st,
        ) {
            Some((f, p)) => (Some(ResView::Merge { fields: f, props: p }), None),
            None => (
                Some(ResView::Conflict),
                Some(
                    (
                        describe_in(so.ss, so.ids, id),
                        clash_detail(section_at(sb, id), section_at(so, id)->Some_0, section_at(st, id)->Some_0, sb, so, st),
                        entity_rows(id, sb, so, st),
                    ),
                ),
            ),
        }
    } else if cb is None && co is Some {
        (Some(ResView::Take(Side::Ours)), None)
    } else if cb is None {
        (Some(ResView::Take(Side::Theirs)), None)
    } else if co is Some {
        if cb == co {
            (None, None)
        } else {
            (
                Some(ResView::Conflict),
                Some((describe_in(so.ss, so.ids, id), "deleted by theirs, modified by ours"@, entity_rows(id, sb, so, st))),
            )
        }
    } else if cb == ct {
        (None, None)
    } else {
        (
            Some(ResView::Conflict),
            Some((describe_in(st.ss, st.ids, id), "deleted by ours, modified by theirs"@, entity_rows(id, sb, so, st))),
        )
    }
}

/// `s` without repeats, each kept where it first occurs.
pub open spec fn dedup_ids(s: Seq<EntityIdView>) -> Seq<EntityIdView>
    decreases s.len(),
{
    if s.len() == 0 {
        seq![]
    } else if dedup_ids(s.drop_last()).contains(s.last()) {
        dedup_ids(s.drop_last())
    } else {
        dedup_ids(s.drop_last()).push(s.last())
    }
}

/// The plan for every entity of `all` in turn, with the conflicts raised.
///
/// A conflict on a node both branches renamed, to different places, says so.
pub open spec fn plan_of(
    all: Seq<EntityIdView>,
    sb: SceneView,
    so: SceneView,
    st: SceneView,
    base_table: Table,
    contested: Seq<Seq<char>>,
) -> (Seq<(EntityIdView, ResView)>, Seq<ConflictView>)
    decreases all.len(),
{
    if all.len() == 0 {
        (seq![], seq![])
    } else {
        let (p, c) = plan_of(all.drop_last(), sb, so, st, base_table, contested);
        let id = all.last();
        let (r, k) = resolve(id, sb, so, st);
        (
            match r {
                Some(x) => p.push((id, x)),
                None => p,
            },
            match k {
                Some(x) => c.push(
                    if renamed_apart_spec(base_table, contested, id) {
                        (x.0, "renamed differently on both sides"@, x.2)
                    } else {
                        x
                    },
                ),
                None => c,
            },
        )
    }
}

pub open spec fn plan_views(s: Seq<(EntityId, Res)>) -> Seq<(EntityIdView, ResView)> {
    Seq::new(s.len(), |i: int| (s[i].0@, s[i].1@))
}

// ---------------------------------------------------------------------------
// What a conflict shows a person: the clashing items named, and every item
// of the entity side by side.

/// One row of a conflicted entity: the item, its raw value in the common
/// ancestor, ours and theirs, and whether the two branches disagree on it.
pub type RowView = (Seq<char>, Option<Seq<char>>, Option<Seq<char>>, Option<Seq<char>>, bool);

/// A conflict as the specifications see it: the entity, what happened to it,
/// and its rows.
pub type ConflictView = (Seq<char>, Seq<char>, Seq<RowView>);

pub open spec fn row_views(rows: Seq<ConflictRow>) -> Seq<RowView> {
    Seq::new(
        rows.len(),
        |i: int| (rows[i].key@, opt_view(rows[i].base), opt_view(rows[i].ours), opt_view(rows[i].theirs), rows[i].differs),
    )
}

pub open spec fn opt_field_names(s: Option<Section>) -> Seq<Seq<char>> {
    match s {
        Some(x) => field_names(x.fields@),
        None => seq![],
    }
}

pub open spec fn opt_prop_keys(s: Option<Section>) -> Seq<Seq<char>> {
    match s {
        Some(x) => prop_keys(x.props@),
        None => seq![],
    }
}

pub open spec fn opt_raw_field(s: Option<Section>, n: Seq<char>) -> Option<Seq<char>> {
    match s {
        Some(x) => raw_field(x, n),
        None => None,
    }
}

pub open spec fn opt_raw_prop(s: Option<Section>, k: Seq<char>) -> Option<Seq<char>> {
    match s {
        Some(x) => raw_prop(x, k),
        None => None,
    }
}

pub open spec fn opt_canon_field(s: Option<Section>, n: Seq<char>, sc: SceneView) -> Option<Seq<char>> {
    match s {
        Some(x) => canon_field(x, n, sc.ext, sc.sub, sc.nums),
        None => None,
    }
}

pub open spec fn opt_canon_prop(s: Option<Section>, k: Seq<char>, sc: SceneView) -> Option<Seq<char>> {
    match s {
        Some(x) => canon_prop(x, k, sc.ext, sc.sub, sc.nums),
        None => None,
    }
}

/// The row of header field `n`; the branches disagree where their values
/// read differently.
pub open spec fn field_row(
    n: Seq<char>,
    b: Option<Section>,
    o: Option<Section>,
    t: Option<Section>,
    so: SceneView,
    st: SceneView,
) -> RowView {
    (n, opt_raw_field(b, n), opt_raw_field(o, n), opt_raw_field(t, n), opt_canon_field(o, n, so) != opt_canon_field(t, n, st))
}

pub open spec fn prop_row(
    k: Seq<char>,
    b: Option<Section>,
    o: Option<Section>,
    t: Option<Section>,
    so: SceneView,
    st: SceneView,
) -> RowView {
    (k, opt_raw_prop(b, k), opt_raw_prop(o, k), opt_raw_prop(t, k), opt_canon_prop(o, k, so) != opt_canon_prop(t, k, st))
}

/// The rows of entity `id`: its header fields, then its properties, each
/// once, in the order ours, theirs and the common ancestor first have them.
pub open spec fn entity_rows(id: EntityIdView, sb: SceneView, so: SceneView, st: SceneView) -> Seq<RowView> {
    let (b, o, t) = (section_at(sb, id), section_at(so, id), section_at(st, id));
    let ns = dedup(opt_field_names(o) + opt_field_names(t) + opt_field_names(b));
    let ks = dedup(opt_prop_keys(o) + opt_prop_keys(t) + opt_prop_keys(b));
    Seq::new(ns.len(), |i: int| field_row(ns[i], b, o, t, so, st)) + Seq::new(
        ks.len(),
        |i: int| prop_row(ks[i], b, o, t, so, st),
    )
}

/// The header fields among `ns` on which the two branches clash.
pub open spec fn clash_fields(
    ns: Seq<Seq<char>>,
    base: Option<Section>,
    o: Section,
    t: Section,
    sb: SceneView,
    so: SceneView,
    st: SceneView,
) -> Seq<Seq<char>>
    decreases ns.len(),
{
    if ns.len() == 0 {
        seq![]
    } else {
        let r = clash_fields(ns.drop_last(), base, o, t, sb, so, st);
        if field_clash(ns.last(), base, o, t, sb, so, st) {
            r.push(ns.last())
        } else {
            r
        }
    }
}

/// The properties among `ks` on which the two branches clash.
pub open spec fn clash_props(
    ks: Seq<Seq<char>>,
    base: Option<Section>,
    o: Section,
    t: Section,
    sb: SceneView,
    so: SceneView,
    st: SceneView,
) -> Seq<Seq<char>>
    decreases ks.len(),
{
    if ks.len() == 0 {
        seq![]
    } else {
        let r = clash_props(ks.drop_last(), base, o, t, sb, so, st);
        if prop_clash(ks.last(), base, o, t, sb, so, st) {
            r.push(ks.last())
        } else {
            r
        }
    }
}

/// Names separated by `, `.
pub open spec fn join_names(ns: Seq<Seq<char>>) -> Seq<char>
    decreases ns.len(),
{
    if ns.len() == 0 {
        seq![]
    } else if ns.len() == 1 {
        ns[0]
    } else {
        join_names(ns.drop_last()) + ", "@ + ns.last()
    }
}

/// What a clash says: the items both branches changed, differently.
pub open spec fn clash_detail(
    base: Option<Section>,
    o: Section,
    t: Section,
    sb: SceneView,
    so: SceneView,
    st: SceneView,
) -> Seq<char> {
    join_names(
        clash_fields(dedup(field_names(o.fields@) + field_names(t.fields@)), base, o, t, sb, so, st) + clash_props(
            dedup(prop_keys(o.props@) + prop_keys(t.props@)),
            base,
            o,
            t,
            sb,
            so,
            st,
        ),
    ) + " changed differently on both sides"@
}

/// `out`, which holds `dedup(p)`, extended to hold `dedup(p + names)`.
fn add_names(out: &mut Vec<String>, names: &Vec<String>, Ghost(p): Ghost<Seq<Seq<char>>>)
    requires
        string_views(old(out)@) == dedup(p),
    ensures
        string_views(final(out)@) == dedup(p + string_views(names@)),
{
    let ghost nv = string_views(names@);
    let mut j: usize = 0;
    proof {
        assert(p + nv.take(0) =~= p);
    }
    while j < names.len()
        invariant
            j <= names@.len(),
            nv == string_views(names@),
            string_views(out@) == dedup(p + nv.take(j as int)),
        decreases names@.len() - j,
    {
        let ghost q = p + nv.take(j as int);
        proof {
            assert((p + nv.take(j + 1)).drop_last() =~= q);
            assert((p + nv.take(j + 1)).last() == names@[j as int]@);
        }
        if !has_string(out, names[j].as_str()) {
            let ghost before = out@;
            out.push(names[j].clone());
            proof {
                assert(string_views(out@) =~= string_views(before).push(names@[j as int]@));
            }
        }
        j += 1;
    }
    proof {
        assert(nv.take(j as int) =~= nv);
    }
}

fn names_of_fields(s: Option<&Section>) -> (r: Vec<String>)
    ensures
        string_views(r@) == opt_field_names(opt_section(s)),
{
    let mut out: Vec<String> = Vec::new();
    if let Some(x) = s {
        let mut i: usize = 0;
        while i < x.fields.len()
            invariant
                i <= x.fields@.len(),
                string_views(out@) == field_names(x.fields@).take(i as int),
            decreases x.fields@.len() - i,
        {
            let ghost before = out@;
            out.push(x.fields[i].name.clone());
            proof {
                assert(string_views(out@) =~= string_views(before).push(x.fields@[i as int].name@));
                assert(field_names(x.fields@).take(i + 1) =~= field_names(x.fields@).take(i as int).push(
                    x.fields@[i as int].name@,
                ));
                assert(string_views(out@) =~= field_names(x.fields@).take(i + 1));
            }
            i += 1;
        }
        proof {
            assert(field_names(x.fields@).take(i as int) =~= field_names(x.fields@));
        }
    } else {
        proof {
            assert(string_views(out@) =~= Seq::<Seq<char>>::empty());
        }
    }
    out
}

fn keys_of_props(s: Option<&Section>) -> (r: Vec<String>)
    ensures
        string_views(r@) == opt_prop_keys(opt_section(s)),
{
    let mut out: Vec<String> = Vec::new();
    if let Some(x) = s {
        let mut i: usize = 0;
        while i < x.props.len()
            invariant
                i <= x.props@.len(),
                string_views(out@) == prop_keys(x.props@).take(i as int),
            decreases x.props@.len() - i,
        {
            let ghost before = out@;
            out.push(x.props[i].key.clone());
            proof {
                assert(string_views(out@) =~= string_views(before).push(x.props@[i as int].key@));
                assert(prop_keys(x.props@).take(i + 1) =~= prop_keys(x.props@).take(i as int).push(
                    x.props@[i as int].key@,
                ));
                assert(string_views(out@) =~= prop_keys(x.props@).take(i + 1));
            }
            i += 1;
        }
        proof {
            assert(prop_keys(x.props@).take(i as int) =~= prop_keys(x.props@));
        }
    } else {
        proof {
            assert(string_views(out@) =~= Seq::<Seq<char>>::empty());
        }
    }
    out
}

fn raw_of_field(s: Option<&Section>, n: &str) -> (r: Option<String>)
    ensures
        opt_view(r) == opt_raw_field(opt_section(s), n@),
{
    match s {
        Some(x) => match x.field(n) {
            Some(f) => Some(f.value_raw.clone()),
            None => None,
        },
        None => None,
    }
}

fn raw_of_prop(s: Option<&Section>, k: &str) -> (r: Option<String>)
    ensures
        opt_view(r) == opt_raw_prop(opt_section(s), k@),
{
    match s {
        Some(x) => match x.prop(k) {
            Some(p) => Some(p.value_raw.clone()),
            None => None,
        },
        None => None,
    }
}

fn canon_of_field(sc: &Scene, s: Option<&Section>, n: &str) -> (r: Option<String>)
    ensures
        opt_view(r) == opt_canon_field(opt_section(s), n@, sc.view_of()),
{
    match s {
        Some(x) => sc.canonical_field(x, n),
        None => None,
    }
}

fn canon_of_prop(sc: &Scene, s: Option<&Section>, k: &str) -> (r: Option<String>)
    ensures
        opt_view(r) == opt_canon_prop(opt_section(s), k@, sc.view_of()),
{
    match s {
        Some(x) => sc.canonical_prop(x, k),
        None => None,
    }
}

/// The rows of the entity `id`, laid out over the three sides.
fn rows_of(id: &EntityId, sb: &Scene, so: &Scene, st: &Scene) -> (r: Vec<ConflictRow>)
    requires
        sb.wf(),
        so.wf(),
        st.wf(),
    ensures
        row_views(r@) == entity_rows(id@, sb.view_of(), so.view_of(), st.view_of()),
{
    proof {
        lemma_first_index(so.id_views(), id@);
        lemma_first_index(st.id_views(), id@);
        lemma_first_index(sb.id_views(), id@);
    }
    let b = sb.section(id);
    let o = so.section(id);
    let t = st.section(id);
    let ghost (vb, vo, vt) = (sb.view_of(), so.view_of(), st.view_of());
    let ghost (bs, os, ts) = (opt_section(b), opt_section(o), opt_section(t));
    proof {
        assert(bs == section_at(vb, id@));
        assert(os == section_at(vo, id@));
        assert(ts == section_at(vt, id@));
    }
    let mut ns: Vec<String> = Vec::new();
    proof {
        assert(string_views(ns@) =~= dedup(Seq::<Seq<char>>::empty()));
    }
    add_names(&mut ns, &names_of_fields(o), Ghost(Seq::<Seq<char>>::empty()));
    add_names(&mut ns, &names_of_fields(t), Ghost(Seq::<Seq<char>>::empty() + opt_field_names(os)));
    add_names(&mut ns, &names_of_fields(b), Ghost(Seq::<Seq<char>>::empty() + opt_field_names(os) + opt_field_names(ts)));
    let ghost nv = string_views(ns@);
    proof {
        assert(Seq::<Seq<char>>::empty() + opt_field_names(os) + opt_field_names(ts) + opt_field_names(bs)
            =~= opt_field_names(os) + opt_field_names(ts) + opt_field_names(bs));
    }
    let mut ks: Vec<String> = Vec::new();
    proof {
        assert(string_views(ks@) =~= dedup(Seq::<Seq<char>>::empty()));
    }
    add_names(&mut ks, &keys_of_props(o), Ghost(Seq::<Seq<char>>::empty()));
    add_names(&mut ks, &keys_of_props(t), Ghost(Seq::<Seq<char>>::empty() + opt_prop_keys(os)));
    add_names(&mut ks, &keys_of_props(b), Ghost(Seq::<Seq<char>>::empty() + opt_prop_keys(os) + opt_prop_keys(ts)));
    let ghost kv = string_views(ks@);
    proof {
        assert(Seq::<Seq<char>>::empty() + opt_prop_keys(os) + opt_prop_keys(ts) + opt_prop_keys(bs)
            =~= opt_prop_keys(os) + opt_prop_keys(ts) + opt_prop_keys(bs));
    }
    let mut rows: Vec<ConflictRow> = Vec::new();
    let mut i: usize = 0;
    while i < ns.len()
        invariant
            i <= ns@.len(),
            nv == string_views(ns@),
            vo == so.view_of(),
            vt == st.view_of(),
            bs == opt_section(b),
            os == opt_section(o),
            ts == opt_section(t),
            row_views(rows@) == Seq::new(i as nat, |m: int| field_row(nv[m], bs, os, ts, vo, vt)),
        decreases ns@.len() - i,
    {
        let n = ns[i].as_str();
        let co = canon_of_field(so, o, n);
        let ct = canon_of_field(st, t, n);
        let row = ConflictRow {
            key: ns[i].clone(),
            base: raw_of_field(b, n),
            ours: raw_of_field(o, n),
            theirs: raw_of_field(t, n),
            differs: !opt_string_eq(&co, &ct),
        };
        let ghost before = rows@;
        let ghost rv = (row.key@, opt_view(row.base), opt_view(row.ours), opt_view(row.theirs), row.differs);
        proof {
            assert(nv[i as int] == n@);
            assert(rv == field_row(nv[i as int], bs, os, ts, vo, vt));
        }
        rows.push(row);
        proof {
            assert(row_views(rows@) =~= row_views(before).push(rv));
            assert(row_views(rows@) =~= Seq::new((i + 1) as nat, |m: int| field_row(nv[m], bs, os, ts, vo, vt)));
        }
        i += 1;
    }
    let ghost head = row_views(rows@);
    let mut j: usize = 0;
    while j < ks.len()
        invariant
            j <= ks@.len(),
            kv == string_views(ks@),
            vo == so.view_of(),
            vt == st.view_of(),
            bs == opt_section(b),
            os == opt_section(o),
            ts == opt_section(t),
            row_views(rows@) == head + Seq::new(j as nat, |m: int| prop_row(kv[m], bs, os, ts, vo, vt)),
        decreases ks@.len() - j,
    {
        let k = ks[j].as_str();
        let co = canon_of_prop(so, o, k);
        let ct = canon_of_prop(st, t, k);
        let row = ConflictRow {
            key: ks[j].clone(),
            base: raw_of_prop(b, k),
            ours: raw_of_prop(o, k),
            theirs: raw_of_prop(t, k),
            differs: !opt_string_eq(&co, &ct),
        };
        let ghost before = rows@;
        let ghost rv = (row.key@, opt_view(row.base), opt_view(row.ours), opt_view(row.theirs), row.differs);
        proof {
            assert(kv[j as int] == k@);
            assert(rv == prop_row(kv[j as int], bs, os, ts, vo, vt));
        }
        rows.push(row);
        proof {
            assert(row_views(rows@) =~= row_views(before).push(rv));
            assert(row_views(rows@) =~= head + Seq::new((j + 1) as nat, |m: int| prop_row(kv[m], bs, os, ts, vo, vt)));
        }
        j += 1;
    }
    proof {
        assert(row_views(rows@) =~= entity_rows(id@, vb, vo, vt));
    }
    rows
}

/// The names of the items on which the two branches clash, separated by
/// `, `, then what happened to them.
fn clash_text(
    sb: &Scene,
    base: Option<&Section>,
    so: &Scene,
    ours: &Section,
    st: &Scene,
    theirs: &Section,
) -> (r: String)
    ensures
        r@ == clash_detail(opt_section(base), *ours, *theirs, sb.view_of(), so.view_of(), st.view_of()),
{
    let ghost (vb, vo, vt, bs) = (sb.view_of(), so.view_of(), st.view_of(), opt_section(base));
    let names = field_name_list(ours, theirs);
    let ghost nv = Seq::new(names@.len(), |i: int| names@[i]@);
    let mut found: Vec<String> = Vec::new();
    let mut i: usize = 0;
    while i < names.len()
        invariant
            i <= names@.len(),
            nv == Seq::new(names@.len(), |m: int| names@[m]@),
            vb == sb.view_of(),
            vo == so.view_of(),
            vt == st.view_of(),
            bs == opt_section(base),
            string_views(found@) == clash_fields(nv.take(i as int), bs, *ours, *theirs, vb, vo, vt),
        decreases names@.len() - i,
    {
        proof {
            assert(nv.take(i + 1).drop_last() =~= nv.take(i as int));
            assert(nv[i as int] == names@[i as int]@);
        }
        let name = names[i].as_str();
        let derived = ours.kind.is_derived_field(name);
        let b = match base {
            Some(s) => sb.canonical_field(s, name),
            None => None,
        };
        let o = so.canonical_field(ours, name);
        let t = st.canonical_field(theirs, name);
        proof {
            assert(opt_view(b) == base_field(bs, nv[i as int], vb));
        }
        if matches!(pick(derived, &b, &o, &t), Pick::Clash) {
            let ghost before = found@;
            found.push(names[i].clone());
            proof {
                assert(string_views(found@) =~= string_views(before).push(nv[i as int]));
            }
        }
        i += 1;
    }
    proof {
        assert(nv.take(i as int) =~= nv);
    }
    let keys = prop_key_list(ours, theirs);
    let ghost kv = Seq::new(keys@.len(), |i: int| keys@[i]@);
    let ghost head = string_views(found@);
    let mut j: usize = 0;
    while j < keys.len()
        invariant
            j <= keys@.len(),
            kv == Seq::new(keys@.len(), |m: int| keys@[m]@),
            vb == sb.view_of(),
            vo == so.view_of(),
            vt == st.view_of(),
            bs == opt_section(base),
            string_views(found@) == head + clash_props(kv.take(j as int), bs, *ours, *theirs, vb, vo, vt),
        decreases keys@.len() - j,
    {
        proof {
            assert(kv.take(j + 1).drop_last() =~= kv.take(j as int));
            assert(kv[j as int] == keys@[j as int]@);
        }
        let key = keys[j].as_str();
        let b = match base {
            Some(s) => sb.canonical_prop(s, key),
            None => None,
        };
        let o = so.canonical_prop(ours, key);
        let t = st.canonical_prop(theirs, key);
        proof {
            assert(opt_view(b) == base_prop(bs, kv[j as int], vb));
        }
        if matches!(pick(false, &b, &o, &t), Pick::Clash) {
            let ghost before = found@;
            found.push(keys[j].clone());
            proof {
                assert(string_views(found@) =~= string_views(before).push(kv[j as int]));
            }
        }
        j += 1;
    }
    proof {
        assert(kv.take(j as int) =~= kv);
    }
    let ghost all = string_views(found@);
    let mut out = String::new();
    let mut k: usize = 0;
    let total = found.len();
    while k < total
        invariant
            k <= total,
            total == found@.len(),
            all == string_views(found@),
            all.len() == total,
            out@ == join_names(all.take(k as int)),
        decreases total - k,
    {
        proof {
            assert(all.take(k + 1).drop_last() =~= all.take(k as int));
            assert(all[k as int] == found@[k as int]@);
        }
        let piece = found[k].as_str();
        if k > 0 {
            push_str(&mut out, ", ");
        } else {
            proof {
                assert(out@ =~= Seq::<char>::empty());
            }
        }
        push_str(&mut out, piece);
        proof {
            if k == 0 {
                assert(all.take(1).len() == 1);
                assert(all.take(1)[0] == piece@);
                assert(out@ =~= all.take(1)[0]);
            }
        }
        k += 1;
    }
    proof {
        assert(all.take(k as int) =~= all);
    }
    push_str(&mut out, " changed differently on both sides");
    out
}

pub open spec fn conflict_view(c: Conflict) -> ConflictView {
    (c.entity@, c.detail@, row_views(c.rows@))
}

pub open spec fn conflict_views(s: Seq<Conflict>) -> Seq<ConflictView> {
    Seq::new(s.len(), |i: int| conflict_view(s[i]))
}

fn canon_in(sc: &Scene, id: &EntityId) -> (r: Option<String>)
    requires
        sc.wf(),
    ensures
        opt_view(r) == canon_at(sc.view_of(), id@),
{
    proof {
        lemma_first_index(sc.id_views(), id@);
    }
    match sc.index_of(id) {
        Some(i) => Some(sc.canonical(i)),
        None => None,
    }
}

fn conflict(entity: String, detail: &str, rows: Vec<ConflictRow>) -> (c: Conflict)
    ensures
        c.entity@ == entity@,
        c.detail@ == detail@,
        c.rows@ == rows@,
{
    let mut d = String::new();
    push_str(&mut d, detail);
    Conflict { entity, detail: d, rows }
}

fn resolve_entity(id: &EntityId, sb: &Scene, so: &Scene, st: &Scene) -> (r: (Option<Res>, Option<Conflict>))
    requires
        sb.wf(),
        so.wf(),
        st.wf(),
    ensures
        (
            match r.0 {
                Some(x) => Some(x@),
                None => None,
            },
            match r.1 {
                Some(c) => Some(conflict_view(c)),
                None => None,
            },
        ) == resolve(id@, sb.view_of(), so.view_of(), st.view_of()),
{
    let cb = canon_in(sb, id);
    let co = canon_in(so, id);
    let ct = canon_in(st, id);
    proof {
        lemma_first_index(so.id_views(), id@);
        lemma_first_index(st.id_views(), id@);
        lemma_first_index(sb.id_views(), id@);
    }
    if co.is_none() && ct.is_none() {
        return (None, None);
    }
    if co.is_some() && opt_string_eq(&co, &ct) {
        return (Some(Res::Take(Side::Ours)), None);
    }
    if cb.is_some() && co.is_some() && ct.is_some() && opt_string_eq(&cb, &co) {
        return (Some(Res::Take(Side::Theirs)), None);
    }
    if cb.is_some() && co.is_some() && ct.is_some() && opt_string_eq(&cb, &ct) {
        return (Some(Res::Take(Side::Ours)), None);
    }
    if co.is_some() && ct.is_some() {
        let b = sb.section(id);
        match (so.section(id), st.section(id)) {
            (Some(o), Some(t)) => {
                return match merge_items(sb, b, so, o, st, t) {
                    Some((fields, props)) => (Some(Res::Merge { fields, props }), None),
                    None => {
                        let detail = clash_text(sb, b, so, o, st, t);
                        (Some(Res::Conflict), Some(conflict(so.describe(id), detail.as_str(), rows_of(id, sb, so, st))))
                    },
                };
            },
            _ => {
                return (None, None);
            },
        }
    }
    if cb.is_none() && co.is_some() {
        return (Some(Res::Take(Side::Ours)), None);
    }
    if cb.is_none() {
        return (Some(Res::Take(Side::Theirs)), None);
    }
    if co.is_some() {
        if opt_string_eq(&cb, &co) {
            return (None, None);
        }
        return (
            Some(Res::Conflict),
            Some(conflict(so.describe(id), "deleted by theirs, modified by ours", rows_of(id, sb, so, st))),
        );
    }
    if opt_string_eq(&cb, &ct) {
        return (None, None);
    }
    (Some(Res::Conflict), Some(conflict(st.describe(id), "deleted by ours, modified by theirs", rows_of(id, sb, so, st))))
}

fn push_ids_new(out: &mut Vec<EntityId>, src: &[EntityId])
    ensures
        ids_view(final(out)@) == dedup_extend(ids_view(old(out)@), ids_view(src@)),
{
    let ghost start = ids_view(out@);
    let ghost sv = ids_view(src@);
    let mut i: usize = 0;
    while i < src.len()
        invariant
            i <= src@.len(),
            sv == ids_view(src@),
            ids_view(out@) == dedup_extend(start, sv.take(i as int)),
        decreases src@.len() - i,
    {
        proof {
            assert(sv.take(i + 1).drop_last() =~= sv.take(i as int));
            assert(sv[i as int] == src@[i as int]@);
        }
        if !has_id(out, &src[i]) {
            let ghost before = out@;
            let c = copy_id(&src[i]);
            out.push(c);
            proof {
                assert(ids_view(out@) =~= ids_view(before).push(c@));
            }
        }
        i += 1;
    }
    proof {
        assert(sv.take(i as int) =~= sv);
    }
}

/// `acc` extended by the members of `s` it lacks, in order.
pub open spec fn dedup_extend(acc: Seq<EntityIdView>, s: Seq<EntityIdView>) -> Seq<EntityIdView>
    decreases s.len(),
{
    if s.len() == 0 {
        acc
    } else if dedup_extend(acc, s.drop_last()).contains(s.last()) {
        dedup_extend(acc, s.drop_last())
    } else {
        dedup_extend(acc, s.drop_last()).push(s.last())
    }
}

proof fn lemma_dedup_extend(acc: Seq<EntityIdView>, s: Seq<EntityIdView>)
    ensures
        dedup_extend(dedup_ids(acc), s) == dedup_ids(acc + s),
    decreases s.len(),
{
    if s.len() == 0 {
        assert(acc + s =~= acc);
    } else {
        lemma_dedup_extend(acc, s.drop_last());
        assert((acc + s).drop_last() =~= acc + s.drop_last());
        assert((acc + s).last() == s.last());
    }
}

/// Every entity of any side, ours first, each once.
fn all_ids(so: &Scene, st: &Scene, sb: &Scene) -> (r: Vec<EntityId>)
    ensures
        ids_view(r@) == dedup_ids(so.id_views() + st.id_views() + sb.id_views()),
{
    let ghost (a, b, c) = (so.id_views(), st.id_views(), sb.id_views());
    let mut out: Vec<EntityId> = Vec::new();
    proof {
        assert(ids_view(out@) =~= Seq::<EntityIdView>::empty());
        assert(dedup_ids(Seq::<EntityIdView>::empty()) =~= Seq::<EntityIdView>::empty());
        lemma_dedup_extend(Seq::<EntityIdView>::empty(), a);
        assert(Seq::<EntityIdView>::empty() + a =~= a);
    }
    push_ids_new(&mut out, so.ids());
    assert(ids_view(out@) == dedup_ids(a));
    push_ids_new(&mut out, st.ids());
    proof {
        lemma_dedup_extend(a, b);
    }
    assert(ids_view(out@) == dedup_ids(a + b));
    push_ids_new(&mut out, sb.ids());
    proof {
        lemma_dedup_extend(a + b, c);
    }
    out
}

fn plan_all(all: &Vec<EntityId>, sb: &Scene, so: &Scene, st: &Scene, al: &Alignment) -> (r: (
    Vec<(EntityId, Res)>,
    Vec<Conflict>,
))
    requires
        sb.wf(),
        so.wf(),
        st.wf(),
    ensures
        (plan_views(r.0@), conflict_views(r.1@)) == plan_of(
            ids_view(all@),
            sb.view_of(),
            so.view_of(),
            st.view_of(),
            table_view(al.base@),
            string_views(al.contested@),
        ),
{
    let ghost av = ids_view(all@);
    let mut plan: Vec<(EntityId, Res)> = Vec::new();
    let mut conflicts: Vec<Conflict> = Vec::new();
    let mut i: usize = 0;
    while i < all.len()
        invariant
            i <= all@.len(),
            sb.wf(),
            so.wf(),
            st.wf(),
            av == ids_view(all@),
            (plan_views(plan@), conflict_views(conflicts@)) == plan_of(
                av.take(i as int),
                sb.view_of(),
                so.view_of(),
                st.view_of(),
                table_view(al.base@),
                string_views(al.contested@),
            ),
        decreases all@.len() - i,
    {
        proof {
            assert(av.take(i + 1).drop_last() =~= av.take(i as int));
            assert(av[i as int] == all@[i as int]@);
        }
        let (res, clash) = resolve_entity(&all[i], sb, so, st);
        if let Some(r) = res {
            let ghost before = plan@;
            let e = (copy_id(&all[i]), r);
            let ghost ev = (e.0@, e.1@);
            plan.push(e);
            proof {
                assert(plan_views(plan@) =~= plan_views(before).push(ev));
            }
        }
        if let Some(c) = clash {
            let c = if al.renamed_apart(&all[i]) {
                conflict(c.entity, "renamed differently on both sides", c.rows)
            } else {
                c
            };
            let ghost before = conflicts@;
            let ghost cv = conflict_view(c);
            conflicts.push(c);
            proof {
                assert(conflict_views(conflicts@) =~= conflict_views(before).push(cv));
            }
        }
        i += 1;
    }
    proof {
        assert(av.take(i as int) =~= av);
    }
    (plan, conflicts)
}


// ---------------------------------------------------------------------------
// The order of the merged file: ours' order, with theirs-only entities slotted
// in after the neighbour they follow in theirs, then grouped by class.

pub open spec fn plan_ids(plan: Seq<(EntityIdView, ResView)>) -> Seq<EntityIdView> {
    Seq::new(plan.len(), |i: int| plan[i].0)
}

/// Just after the first place in `order` of the nearest of `prevs`, counted
/// from the end, that `order` holds.
pub open spec fn anchor(order: Seq<EntityIdView>, prevs: Seq<EntityIdView>) -> Option<int>
    decreases prevs.len(),
{
    if prevs.len() == 0 {
        None
    } else {
        match first_index(order, prevs.last()) {
            Some(p) => Some(p + 1),
            None => anchor(order, prevs.drop_last()),
        }
    }
}

/// The first place in `order` whose class comes after `r`, or its end.
pub open spec fn rank_slot(order: Seq<EntityIdView>, r: u8) -> int
    decreases order.len(),
{
    if order.len() == 0 {
        0
    } else if rank_view(order[0]) > r {
        0
    } else {
        1 + rank_slot(order.drop_first(), r)
    }
}

/// `order` after the first `i` of `theirs` had their turn: an entity that
/// has a plan and is not placed yet goes after its anchor, else before the
/// first entity of a later class.
pub open spec fn weave(
    order: Seq<EntityIdView>,
    theirs: Seq<EntityIdView>,
    planned: Seq<EntityIdView>,
    i: nat,
) -> Seq<EntityIdView>
    decreases i,
{
    if i == 0 {
        order
    } else {
        let o = weave(order, theirs, planned, (i - 1) as nat);
        let id = theirs[i - 1];
        if !planned.contains(id) || o.contains(id) {
            o
        } else {
            let at = match anchor(o, theirs.take(i - 1)) {
                Some(p) => p,
                None => rank_slot(o, rank_view(id)),
            };
            o.insert(at, id)
        }
    }
}

pub open spec fn insert_by_rank(sorted: Seq<EntityIdView>, x: EntityIdView) -> Seq<EntityIdView>
    decreases sorted.len(),
{
    if sorted.len() == 0 {
        seq![x]
    } else if rank_view(x) < rank_view(sorted.last()) {
        insert_by_rank(sorted.drop_last(), x).push(sorted.last())
    } else {
        sorted.push(x)
    }
}

/// A stable sort by class.
pub open spec fn sort_by_rank(s: Seq<EntityIdView>) -> Seq<EntityIdView>
    decreases s.len(),
{
    if s.len() == 0 {
        seq![]
    } else {
        insert_by_rank(sort_by_rank(s.drop_last()), s.last())
    }
}

pub open spec fn merged_order(ours: Seq<EntityIdView>, theirs: Seq<EntityIdView>, planned: Seq<EntityIdView>) -> Seq<
    EntityIdView,
> {
    sort_by_rank(weave(select(ours, planned, true), theirs, planned, theirs.len()))
}

proof fn lemma_rank_slot_bound(order: Seq<EntityIdView>, r: u8)
    ensures
        0 <= rank_slot(order, r) <= order.len(),
    decreases order.len(),
{
    if order.len() > 0 {
        lemma_rank_slot_bound(order.drop_first(), r);
    }
}

/// Where `id` first occurs in `v`.
fn find_id(v: &Vec<EntityId>, id: &EntityId) -> (r: Option<usize>)
    ensures
        match r {
            Some(j) => first_index(ids_view(v@), id@) == Some(j as int),
            None => first_index(ids_view(v@), id@) is None,
        },
{
    let ghost w = ids_view(v@);
    let mut i: usize = 0;
    while i < v.len()
        invariant
            i <= v@.len(),
            w == ids_view(v@),
            first_index(w.take(i as int), id@) is None,
        decreases v@.len() - i,
    {
        proof {
            assert(w.take(i + 1).drop_last() =~= w.take(i as int));
        }
        if same_id(&v[i], id) {
            proof {
                lemma_first_index_at(w, id@, i + 1);
            }
            return Some(i);
        }
        i += 1;
    }
    proof {
        assert(w.take(i as int) =~= w);
    }
    None
}

proof fn lemma_first_index_at(v: Seq<EntityIdView>, id: EntityIdView, k: int)
    requires
        0 < k <= v.len(),
        first_index(v.take(k - 1), id) is None,
        v[k - 1] == id,
    ensures
        first_index(v, id) == Some(k - 1),
    decreases v.len(),
{
    if k < v.len() {
        assert(v.drop_last().take(k - 1) =~= v.take(k - 1));
        lemma_first_index_at(v.drop_last(), id, k);
    } else {
        assert(v.drop_last() =~= v.take(k - 1));
    }
}

fn anchor_of(order: &Vec<EntityId>, theirs: &[EntityId], i: usize) -> (r: Option<usize>)
    requires
        i <= theirs@.len(),
    ensures
        match r {
            Some(a) => anchor(ids_view(order@), ids_view(theirs@).take(i as int)) == Some(a as int),
            None => anchor(ids_view(order@), ids_view(theirs@).take(i as int)) is None,
        },
{
    let ghost (ov, tv) = (ids_view(order@), ids_view(theirs@));
    let mut k = i;
    while k > 0
        invariant
            k <= i <= theirs@.len(),
            ov == ids_view(order@),
            tv == ids_view(theirs@),
            anchor(ov, tv.take(i as int)) == anchor(ov, tv.take(k as int)),
        decreases k,
    {
        proof {
            assert(tv.take(k as int).drop_last() =~= tv.take(k - 1));
            assert(tv.take(k as int).last() == theirs@[k - 1]@);
        }
        if let Some(p) = find_id(order, &theirs[k - 1]) {
            let n = order.len();
            proof {
                lemma_first_index(ov, theirs@[k - 1]@);
                assert(p < n);
            }
            return Some(p + 1);
        }
        k -= 1;
    }
    None
}

fn rank_slot_of(order: &Vec<EntityId>, r: u8) -> (s: usize)
    ensures
        s as int == rank_slot(ids_view(order@), r),
{
    let ghost ov = ids_view(order@);
    let mut j: usize = 0;
    proof {
        assert(ov.skip(0) =~= ov);
    }
    while j < order.len() && order[j].rank() <= r
        invariant
            j <= order@.len(),
            ov == ids_view(order@),
            rank_slot(ov, r) == j + rank_slot(ov.skip(j as int), r),
        decreases order@.len() - j,
    {
        proof {
            assert(ov.skip(j as int)[0] == ov[j as int]);
            assert(ov.skip(j as int).drop_first() =~= ov.skip(j + 1));
        }
        j += 1;
    }
    proof {
        if j < order@.len() {
            assert(ov.skip(j as int)[0] == ov[j as int]);
        }
    }
    j
}

fn insert_rank(v: &mut Vec<EntityId>, x: EntityId)
    ensures
        ids_view(final(v)@) == insert_by_rank(ids_view(old(v)@), x@),
{
    let ghost old_v = ids_view(v@);
    let xr = x.rank();
    let mut p = v.len();
    while p > 0 && xr < v[p - 1].rank()
        invariant
            p <= v@.len(),
            old_v == ids_view(v@),
            xr == rank_view(x@),
            forall|k: int| p <= k < v@.len() ==> xr < rank_view(#[trigger] v@[k]@),
        decreases p,
    {
        p -= 1;
    }
    proof {
        lemma_insert_rank_at(old_v, x@, p as int);
    }
    let ghost xv = x@;
    v.insert(p, x);
    proof {
        assert(ids_view(v@) =~= old_v.insert(p as int, xv));
    }
}

proof fn lemma_insert_rank_at(s: Seq<EntityIdView>, x: EntityIdView, p: int)
    requires
        0 <= p <= s.len(),
        forall|k: int| p <= k < s.len() ==> rank_view(x) < rank_view(#[trigger] s[k]),
        p == 0 || !(rank_view(x) < rank_view(s[p - 1])),
    ensures
        insert_by_rank(s, x) == s.insert(p, x),
    decreases s.len() - p,
{
    if s.len() == 0 {
        assert(s.insert(p, x) =~= seq![x]);
    } else if p == s.len() {
        assert(s.insert(p, x) =~= s.push(x));
    } else {
        lemma_insert_rank_at(s.drop_last(), x, p);
        assert(s.insert(p, x) =~= s.drop_last().insert(p, x).push(s.last()));
    }
}

fn order_entities(so: &Scene, st: &Scene, planned: &Vec<EntityId>) -> (r: Vec<EntityId>)
    ensures
        ids_view(r@) == merged_order(so.id_views(), st.id_views(), ids_view(planned@)),
{
    let ghost (pv, tv) = (ids_view(planned@), st.id_views());
    let mut order = select_ids(&so.ids, planned, true);
    let ghost start = ids_view(order@);
    let theirs = st.ids();
    let mut i: usize = 0;
    while i < theirs.len()
        invariant
            i <= theirs@.len(),
            pv == ids_view(planned@),
            tv == ids_view(theirs@),
            ids_view(order@) == weave(start, tv, pv, i as nat),
        decreases theirs@.len() - i,
    {
        proof {
            assert(tv[i as int] == theirs@[i as int]@);
        }
        let id = &theirs[i];
        if has_id(planned, id) && !has_id(&order, id) {
            let at = match anchor_of(&order, theirs, i) {
                Some(a) => {
                    proof {
                        let ov = ids_view(order@);
                        lemma_anchor_bound(ov, tv.take(i as int));
                    }
                    a
                },
                None => {
                    proof {
                        lemma_rank_slot_bound(ids_view(order@), rank_view(id@));
                    }
                    rank_slot_of(&order, id.rank())
                },
            };
            let ghost before = ids_view(order@);
            let c = copy_id(id);
            order.insert(at, c);
            proof {
                assert(ids_view(order@) =~= before.insert(at as int, id@));
            }
        }
        i += 1;
    }
    let ghost woven = ids_view(order@);
    let mut rest = order;
    let mut out: Vec<EntityId> = Vec::new();
    let ghost mut taken: int = 0;
    while rest.len() > 0
        invariant
            0 <= taken <= woven.len(),
            ids_view(rest@) == woven.skip(taken),
            ids_view(out@) == sort_by_rank(woven.take(taken)),
        decreases rest@.len(),
    {
        let ghost before = rest@;
        let x = rest.remove(0);
        proof {
            assert(ids_view(before).len() == before.len());
            assert(x@ == ids_view(before)[0]);
            assert(woven.skip(taken)[0] == woven[taken]);
            assert forall|k: int| 0 <= k < rest@.len() implies #[trigger] ids_view(rest@)[k]
                == woven.skip(taken + 1)[k] by {
                assert(rest@[k] == before[k + 1]);
                assert(ids_view(before)[k + 1] == woven.skip(taken)[k + 1]);
            }
            assert(ids_view(rest@) =~= woven.skip(taken + 1));
            assert(woven.take(taken + 1).drop_last() =~= woven.take(taken));
        }
        insert_rank(&mut out, x);
        proof {
            taken = taken + 1;
        }
    }
    proof {
        assert(woven.skip(taken).len() == 0);
        assert(woven.take(taken) =~= woven);
    }
    out
}

proof fn lemma_anchor_bound(order: Seq<EntityIdView>, prevs: Seq<EntityIdView>)
    ensures
        anchor(order, prevs) matches Some(a) ==> 0 < a <= order.len(),
    decreases prevs.len(),
{
    if prevs.len() > 0 {
        lemma_first_index(order, prevs.last());
        lemma_anchor_bound(order, prevs.drop_last());
    }
}


// ---------------------------------------------------------------------------
// The resource ids of the merged file. Our side's ids are claimed first, so a
// merge never renumbers resources already in our file; only resources from
// their side are renamed, and only when their id would collide.

pub open spec fn is_resource(id: EntityIdView) -> bool {
    id is Ext || id is Sub
}

/// The resources of `order`, in order.
pub open spec fn resources(order: Seq<EntityIdView>) -> Seq<EntityIdView>
    decreases order.len(),
{
    if order.len() == 0 {
        seq![]
    } else if is_resource(order.last()) {
        resources(order.drop_last()).push(order.last())
    } else {
        resources(order.drop_last())
    }
}

pub open spec fn candidate(stem: Seq<char>, n: nat) -> Seq<char> {
    stem + "_gdm"@ + decimal(n)
}

/// The first `n` whose candidate is free, looking below `used.len()`; past
/// that many, a candidate is taken as it comes.
pub open spec fn mint_search(stem: Seq<char>, used: Seq<Seq<char>>, n: nat) -> nat
    decreases used.len() - n,
{
    if n >= used.len() {
        n
    } else if !used.contains(candidate(stem, n)) {
        n
    } else {
        mint_search(stem, used, n + 1)
    }
}

/// The section that names a resource: ours, else theirs.
pub open spec fn owner_section(id: EntityIdView, so: SceneView, st: SceneView) -> Option<Section> {
    if section_at(so, id) is Some {
        section_at(so, id)
    } else {
        section_at(st, id)
    }
}

/// One resource claims its own id if that is free, else a minted one.
pub open spec fn assign_one(
    id: EntityIdView,
    position: nat,
    so: SceneView,
    st: SceneView,
    used: Seq<Seq<char>>,
    fin: Seq<(EntityIdView, Seq<char>)>,
) -> (Seq<Seq<char>>, Seq<(EntityIdView, Seq<char>)>) {
    match owner_section(id, so, st) {
        None => (used, fin),
        Some(sec) => {
            let preferred = str_or(field_str_spec(sec, "id"@), seq![]);
            if preferred.len() > 0 && !used.contains(preferred) {
                (used.push(preferred), fin.push((id, preferred)))
            } else {
                let stem = if id is Sub {
                    str_or(field_str_spec(sec, "type"@), "SubResource"@)
                } else {
                    decimal(position + 1)
                };
                let c = candidate(stem, mint_search(stem, used, 0));
                (used.push(c), fin.push((id, c)))
            }
        },
    }
}

/// The first `k` resources take their turn, those of ours or those only in
/// theirs.
pub open spec fn assign_pass(
    res: Seq<EntityIdView>,
    k: nat,
    ours_first: bool,
    so: SceneView,
    st: SceneView,
    used: Seq<Seq<char>>,
    fin: Seq<(EntityIdView, Seq<char>)>,
) -> (Seq<Seq<char>>, Seq<(EntityIdView, Seq<char>)>)
    decreases k,
{
    if k == 0 {
        (used, fin)
    } else {
        let (u, f) = assign_pass(res, (k - 1) as nat, ours_first, so, st, used, fin);
        let id = res[k - 1];
        if (section_at(so, id) is Some) != ours_first {
            (u, f)
        } else {
            assign_one(id, (k - 1) as nat, so, st, u, f)
        }
    }
}

/// `(entity, id)` for every resource of the merged file.
pub open spec fn assign_spec(order: Seq<EntityIdView>, so: SceneView, st: SceneView) -> Seq<
    (EntityIdView, Seq<char>),
> {
    let res = resources(order);
    let (u1, f1) = assign_pass(res, res.len(), true, so, st, seq![], seq![]);
    assign_pass(res, res.len(), false, so, st, u1, f1).1
}

/// The id the merged file gives `id`: the entry written last.
pub open spec fn final_get(fin: Seq<(EntityIdView, Seq<char>)>, id: EntityIdView) -> Option<Seq<char>>
    decreases fin.len(),
{
    if fin.len() == 0 {
        None
    } else if fin.last().0 == id {
        Some(fin.last().1)
    } else {
        final_get(fin.drop_last(), id)
    }
}

pub open spec fn final_views(s: Seq<(EntityId, String)>) -> Seq<(EntityIdView, Seq<char>)> {
    Seq::new(s.len(), |i: int| (s[i].0@, s[i].1@))
}

fn final_lookup<'a>(fin: &'a Vec<(EntityId, String)>, id: &EntityId) -> (r: Option<&'a String>)
    ensures
        match r {
            Some(v) => final_get(final_views(fin@), id@) == Some(v@),
            None => final_get(final_views(fin@), id@) is None,
        },
{
    let ghost fv = final_views(fin@);
    let mut i = fin.len();
    proof {
        assert(fv.take(i as int) =~= fv);
    }
    while i > 0
        invariant
            i <= fin@.len(),
            fv == final_views(fin@),
            final_get(fv, id@) == final_get(fv.take(i as int), id@),
        decreases i,
    {
        i -= 1;
        proof {
            assert(fv.take(i + 1).drop_last() =~= fv.take(i as int));
        }
        if same_id(&fin[i].0, id) {
            return Some(&fin[i].1);
        }
    }
    None
}

fn has_string(v: &Vec<String>, x: &str) -> (r: bool)
    ensures
        r == string_views(v@).contains(x@),
{
    let mut i: usize = 0;
    while i < v.len()
        invariant
            i <= v@.len(),
            forall|k: int| 0 <= k < i ==> v@[k]@ != x@,
        decreases v@.len() - i,
    {
        if str_eq(v[i].as_str(), x) {
            proof {
                assert(string_views(v@)[i as int] == x@);
            }
            return true;
        }
        i += 1;
    }
    proof {
        assert forall|k: int| 0 <= k < string_views(v@).len() implies string_views(v@)[k] != x@ by {
            assert(string_views(v@)[k] == v@[k]@);
        }
    }
    false
}

fn make_candidate(stem: &str, n: usize) -> (r: String)
    ensures
        r@ == candidate(stem@, n as nat),
{
    let mut c = String::new();
    push_str(&mut c, stem);
    push_str(&mut c, "_gdm");
    let d = decimal_text(n);
    push_str(&mut c, d.as_str());
    c
}

fn mint(stem: &str, used: &Vec<String>) -> (r: String)
    ensures
        r@ == candidate(stem@, mint_search(stem@, string_views(used@), 0)),
{
    let ghost uv = string_views(used@);
    let mut n: usize = 0;
    while n < used.len() && has_string(used, make_candidate(stem, n).as_str())
        invariant
            n <= used@.len(),
            uv == string_views(used@),
            mint_search(stem@, uv, 0) == mint_search(stem@, uv, n as nat),
        decreases used@.len() - n,
    {
        n += 1;
    }
    make_candidate(stem, n)
}

fn assign_one_exec(
    id: &EntityId,
    position: usize,
    so: &Scene,
    st: &Scene,
    used: &mut Vec<String>,
    fin: &mut Vec<(EntityId, String)>,
)
    requires
        so.wf(),
        st.wf(),
        position < usize::MAX,
    ensures
        (string_views(final(used)@), final_views(final(fin)@)) == assign_one(
            id@,
            position as nat,
            so.view_of(),
            st.view_of(),
            string_views(old(used)@),
            final_views(old(fin)@),
        ),
{
    proof {
        lemma_first_index(so.id_views(), id@);
        lemma_first_index(st.id_views(), id@);
    }
    let section = match so.section(id) {
        Some(s) => s,
        None => match st.section(id) {
            Some(s) => s,
            None => {
                return;
            },
        },
    };
    let preferred: &str = match section.field_str("id") {
        Some(p) => p,
        None => "",
    };
    proof {
        reveal_strlit("");
    }
    let ghost (u0, f0) = (used@, fin@);
    proof {
        assert(owner_section(id@, so.view_of(), st.view_of()) == Some(*section));
        assert(preferred@ == str_or(field_str_spec(*section, "id"@), seq![]));
        if preferred@.len() == 0 {
            assert(preferred@ =~= ""@);
        }
    }
    if !str_eq(preferred, "") && !has_string(used, preferred) {
        let p = preferred.to_owned();
        used.push(p.clone());
        fin.push((copy_id(id), p));
        proof {
            assert(string_views(used@) =~= string_views(u0).push(preferred@));
            assert(final_views(fin@) =~= final_views(f0).push((id@, preferred@)));
        }
        return;
    }
    let mut stem = String::new();
    match id {
        EntityId::Sub(_) => match section.field_str("type") {
            Some(t) => push_str(&mut stem, t),
            None => push_str(&mut stem, "SubResource"),
        },
        _ => {
            let d = decimal_text(position + 1);
            push_str(&mut stem, d.as_str());
        },
    }
    let c = mint(stem.as_str(), used);
    used.push(c.clone());
    let ghost cv = c@;
    fin.push((copy_id(id), c));
    proof {
        assert(string_views(used@) =~= string_views(u0).push(cv));
        assert(final_views(fin@) =~= final_views(f0).push((id@, cv)));
    }
}

fn assign_ids(order: &Vec<EntityId>, so: &Scene, st: &Scene) -> (r: Vec<(EntityId, String)>)
    requires
        so.wf(),
        st.wf(),
    ensures
        final_views(r@) == assign_spec(ids_view(order@), so.view_of(), st.view_of()),
{
    let ghost ov = ids_view(order@);
    // The resources of the merged order.
    let mut res: Vec<EntityId> = Vec::new();
    let mut i: usize = 0;
    while i < order.len()
        invariant
            i <= order@.len(),
            ov == ids_view(order@),
            ids_view(res@) == resources(ov.take(i as int)),
        decreases order@.len() - i,
    {
        proof {
            assert(ov.take(i + 1).drop_last() =~= ov.take(i as int));
            assert(ov[i as int] == order@[i as int]@);
        }
        let keep = match &order[i] {
            EntityId::Ext(_) => true,
            EntityId::Sub(_) => true,
            _ => false,
        };
        if keep {
            let ghost before = res@;
            let c = copy_id(&order[i]);
            res.push(c);
            proof {
                assert(ids_view(res@) =~= ids_view(before).push(c@));
            }
        }
        i += 1;
    }
    proof {
        assert(ov.take(i as int) =~= ov);
    }
    let ghost rv = ids_view(res@);
    let mut used: Vec<String> = Vec::new();
    let mut fin: Vec<(EntityId, String)> = Vec::new();
    proof {
        assert(string_views(used@) =~= Seq::<Seq<char>>::empty());
        assert(final_views(fin@) =~= Seq::<(EntityIdView, Seq<char>)>::empty());
    }
    assign_round(&res, true, so, st, &mut used, &mut fin);
    assign_round(&res, false, so, st, &mut used, &mut fin);
    fin
}

fn assign_round(
    res: &Vec<EntityId>,
    ours_first: bool,
    so: &Scene,
    st: &Scene,
    used: &mut Vec<String>,
    fin: &mut Vec<(EntityId, String)>,
)
    requires
        so.wf(),
        st.wf(),
    ensures
        (string_views(final(used)@), final_views(final(fin)@)) == assign_pass(
            ids_view(res@),
            res@.len(),
            ours_first,
            so.view_of(),
            st.view_of(),
            string_views(old(used)@),
            final_views(old(fin)@),
        ),
{
    let ghost rv = ids_view(res@);
    let ghost (u0, f0) = (string_views(used@), final_views(fin@));
    let n = res.len();
    let mut k: usize = 0;
    while k < n
        invariant
            k <= n,
            n == res@.len(),
            so.wf(),
            st.wf(),
            rv == ids_view(res@),
            (string_views(used@), final_views(fin@)) == assign_pass(
                rv,
                k as nat,
                ours_first,
                so.view_of(),
                st.view_of(),
                u0,
                f0,
            ),
        decreases n - k,
    {
        proof {
            assert(rv[k as int] == res@[k as int]@);
            lemma_first_index(so.id_views(), rv[k as int]);
        }
        let from_ours = so.index_of(&res[k]).is_some();
        if from_ours == ours_first {
            assign_one_exec(&res[k], k, so, st, used, fin);
        }
        k += 1;
    }
}


// ---------------------------------------------------------------------------
// Rewriting the resource ids a side's sections use into the merged file's.

pub open spec fn entity_of(kind: RefKind, key: Seq<char>) -> EntityIdView {
    match kind {
        RefKind::Ext => EntityIdView::Ext(key),
        RefKind::Sub => EntityIdView::Sub(key),
    }
}

/// The rewrite entries for one of a side's key tables: each local id, by the
/// entry written last for it, maps to the id the merged file gives its key.
pub open spec fn remap_entries(
    t: Table,
    kind: RefKind,
    fin: Seq<(EntityIdView, Seq<char>)>,
    seen: Seq<Seq<char>>,
) -> Seq<(RefKind, Seq<char>, Seq<char>)>
    decreases t.len(),
{
    if t.len() == 0 {
        seq![]
    } else if seen.contains(t.last().0) {
        remap_entries(t.drop_last(), kind, fin, seen)
    } else {
        let rest = remap_entries(t.drop_last(), kind, fin, seen.push(t.last().0));
        match final_get(fin, entity_of(kind, t.last().1)) {
            Some(n) => seq![(kind, t.last().0, n)] + rest,
            None => rest,
        }
    }
}

/// How a side's sections have their resource ids rewritten.
pub open spec fn side_ids(sc: SceneView, fin: Seq<(EntityIdView, Seq<char>)>) -> Seq<
    (RefKind, Seq<char>, Seq<char>),
> {
    remap_entries(sc.ext, RefKind::Ext, fin, seq![]) + remap_entries(sc.sub, RefKind::Sub, fin, seq![])
}

fn push_remaps(
    t: &Vec<(String, String)>,
    kind: RefKind,
    fin: &Vec<(EntityId, String)>,
    out: &mut Vec<(RefKind, String, String)>,
)
    ensures
        id_table(final(out)@) == id_table(old(out)@) + remap_entries(
            table_view(t@),
            kind,
            final_views(fin@),
            seq![],
        ),
{
    let ghost (tv, fv) = (table_view(t@), final_views(fin@));
    let ghost start = id_table(out@);
    let mut seen: Vec<String> = Vec::new();
    let mut i = t.len();
    proof {
        assert(tv.take(i as int) =~= tv);
        assert(string_views(seen@) =~= Seq::<Seq<char>>::empty());
        assert(id_table(out@) =~= start + Seq::<(RefKind, Seq<char>, Seq<char>)>::empty());
    }
    while i > 0
        invariant
            i <= t@.len(),
            tv == table_view(t@),
            fv == final_views(fin@),
            id_table(out@) + remap_entries(tv.take(i as int), kind, fv, string_views(seen@)) == start
                + remap_entries(tv, kind, fv, seq![]),
        decreases i,
    {
        i -= 1;
        proof {
            assert(tv.take(i + 1).drop_last() =~= tv.take(i as int));
            assert(tv.take(i + 1).last() == tv[i as int]);
        }
        let local = &t[i].0;
        if !has_string(&seen, local.as_str()) {
            let ghost (o0, s0) = (id_table(out@), string_views(seen@));
            seen.push(local.clone());
            proof {
                assert(string_views(seen@) =~= s0.push(local@));
            }
            let entity = match kind {
                RefKind::Ext => EntityId::Ext(t[i].1.clone()),
                RefKind::Sub => EntityId::Sub(t[i].1.clone()),
            };
            if let Some(n) = final_lookup(fin, &entity) {
                let e = (kind, local.clone(), n.clone());
                out.push(e);
                proof {
                    assert(id_table(out@) =~= o0.push((kind, local@, n@)));
                    assert(o0.push((kind, local@, n@)) + remap_entries(tv.take(i as int), kind, fv, s0.push(local@))
                        =~= o0 + (seq![(kind, local@, n@)] + remap_entries(tv.take(i as int), kind, fv, s0.push(local@))));
                }
            }
        }
    }
    proof {
        assert(tv.take(0) =~= Seq::<(Seq<char>, Seq<char>)>::empty());
        assert(id_table(out@) + remap_entries(tv.take(0), kind, fv, string_views(seen@)) =~= id_table(out@));
    }
}

fn side_rewrite(sc: &Scene, fin: &Vec<(EntityId, String)>) -> (r: Rewrite)
    ensures
        id_table(r.ids@) == side_ids(sc.view_of(), final_views(fin@)),
        r.paths@.len() == 0,
{
    let mut ids: Vec<(RefKind, String, String)> = Vec::new();
    proof {
        assert(id_table(ids@) =~= Seq::<(RefKind, Seq<char>, Seq<char>)>::empty());
    }
    push_remaps(&sc.ext_key, RefKind::Ext, fin, &mut ids);
    push_remaps(&sc.sub_key, RefKind::Sub, fin, &mut ids);
    Rewrite { ids, paths: Vec::new() }
}

// ---------------------------------------------------------------------------
// Writing sections of the merged file.

/// A property's lead carries the line break that starts its line; one taken
/// from the other side could arrive without, so one is supplied.
pub open spec fn lead_text(lead: Seq<char>, nl: Seq<char>) -> Seq<char> {
    if lead.contains('\n') {
        lead
    } else {
        nl + lead
    }
}

/// Whether header field `name` of a section of kind `k` holds a node path:
/// a node's parent, a connection's ends, an editable's path.
pub open spec fn path_field(k: SectionKind, name: Seq<char>) -> bool {
    (k is Node && name == "parent"@) || (k is Connection && (name == "from"@ || name == "to"@)) || (
    k is Editable && name == "path"@)
}

/// The text of header field `name` in the merged file, with the two derived
/// fields substituted and a node path that was moved rewritten.
pub open spec fn field_out(
    sec: Section,
    id: EntityIdView,
    name: Seq<char>,
    raw: Seq<char>,
    fin: Seq<(EntityIdView, Seq<char>)>,
    rw: Seq<(RefKind, Seq<char>, Seq<char>)>,
    paths: Table,
    ls: nat,
) -> Seq<char> {
    if (sec.kind is GdScene || sec.kind is GdResource) && name == "load_steps"@ {
        decimal(ls)
    } else if (sec.kind is ExtResource || sec.kind is SubResource) && name == "id"@ {
        match final_get(fin, id) {
            Some(n) => "\""@ + n + "\""@,
            None => raw,
        }
    } else if path_field(sec.kind, name) && field_str_spec(sec, name) is Some && align_path(
        paths,
        field_str_spec(sec, name)->Some_0,
    ) != field_str_spec(sec, name)->Some_0 {
        quote_spec(align_path(paths, field_str_spec(sec, name)->Some_0))
    } else {
        match field_index(sec.fields@, name) {
            Some(i) => splice_spec(
                sec.fields@[i].value_raw@,
                sec.fields@[i].refs@,
                sec.fields@[i].paths@,
                rw,
                seq![],
            ),
            None => raw,
        }
    }
}

pub open spec fn fields_out(
    fs: Seq<Field>,
    sec: Section,
    id: EntityIdView,
    fin: Seq<(EntityIdView, Seq<char>)>,
    rw: Seq<(RefKind, Seq<char>, Seq<char>)>,
    paths: Table,
    ls: nat,
) -> Seq<char>
    decreases fs.len(),
{
    if fs.len() == 0 {
        seq![]
    } else {
        let f = fs.last();
        fields_out(fs.drop_last(), sec, id, fin, rw, paths, ls) + f.sep_before@ + f.name@ + f.sep_eq@
            + "="@ + f.sep_val@ + field_out(sec, id, f.name@, f.value_raw@, fin, rw, paths, ls)
    }
}

pub open spec fn prop_out(p: Property, rw: Seq<(RefKind, Seq<char>, Seq<char>)>, nl: Seq<char>) -> Seq<char> {
    lead_text(p.lead@, nl) + p.key_raw@ + p.sep_eq@ + "="@ + p.sep_val@ + splice_spec(
        p.value_raw@,
        p.refs@,
        p.paths@,
        rw,
        seq![],
    )
}

pub open spec fn props_out(ps: Seq<Property>, rw: Seq<(RefKind, Seq<char>, Seq<char>)>, nl: Seq<char>) -> Seq<
    char,
>
    decreases ps.len(),
{
    if ps.len() == 0 {
        seq![]
    } else {
        props_out(ps.drop_last(), rw, nl) + prop_out(ps.last(), rw, nl)
    }
}

/// One whole section of the merged file, as one side has it.
pub open spec fn section_out(
    sec: Section,
    id: EntityIdView,
    fin: Seq<(EntityIdView, Seq<char>)>,
    rw: Seq<(RefKind, Seq<char>, Seq<char>)>,
    paths: Table,
    ls: nat,
    nl: Seq<char>,
) -> Seq<char> {
    "["@ + sec.open_sep@ + sec.tag@ + fields_out(sec.fields@, sec, id, fin, rw, paths, ls) + sec.close_sep@
        + "]"@ + props_out(sec.props@, rw, nl)
}

fn write_field(
    sec: &Section,
    id: &EntityId,
    name: &str,
    raw: &str,
    fin: &Vec<(EntityId, String)>,
    rw: &Rewrite,
    al: &Alignment,
    which: Which,
    ls: usize,
    out: &mut String,
)
    requires
        section_fits(*sec),
        rw.paths@.len() == 0,
    ensures
        final(out)@ == old(out)@ + field_out(
            *sec,
            id@,
            name@,
            raw@,
            final_views(fin@),
            id_table(rw.ids@),
            al.table_of(which),
            ls as nat,
        ),
{
    proof {
        reveal_strlit("load_steps");
        reveal_strlit("id");
        assert(path_table(rw.paths@) =~= Seq::<(Seq<char>, Seq<char>)>::empty());
    }
    let header = match sec.kind {
        SectionKind::GdScene => true,
        SectionKind::GdResource => true,
        _ => false,
    };
    let resource = match sec.kind {
        SectionKind::ExtResource => true,
        SectionKind::SubResource => true,
        _ => false,
    };
    proof {
        reveal_strlit("parent");
        reveal_strlit("from");
        reveal_strlit("to");
        reveal_strlit("path");
    }
    let path_like = match sec.kind {
        SectionKind::Node => str_eq(name, "parent"),
        SectionKind::Connection => str_eq(name, "from") || str_eq(name, "to"),
        SectionKind::Editable => str_eq(name, "path"),
        _ => false,
    };
    let moved: Option<String> = if path_like {
        match sec.field_str(name) {
            Some(old_path) => {
                let new_path = al.path(which, old_path);
                if str_eq(new_path.as_str(), old_path) {
                    None
                } else {
                    Some(new_path)
                }
            },
            None => None,
        }
    } else {
        None
    };
    if header && str_eq(name, "load_steps") {
        let d = decimal_text(ls);
        push_str(out, d.as_str());
    } else if resource && str_eq(name, "id") {
        match final_lookup(fin, id) {
            Some(n) => {
                push_str(out, "\"");
                push_str(out, n.as_str());
                push_str(out, "\"");
            },
            None => push_str(out, raw),
        }
    } else if let Some(new_path) = moved {
        let q = quote(new_path.as_str());
        push_str(out, q.as_str());
    } else {
        match sec.field(name) {
            Some(f) => {
                proof {
                    lemma_field_index_in(sec.fields@, name@);
                }
                let v = f.rendered(rw);
                push_str(out, v.as_str());
            },
            None => push_str(out, raw),
        }
    }
}

proof fn lemma_field_index_in(fs: Seq<Field>, name: Seq<char>)
    ensures
        field_index(fs, name) matches Some(i) ==> 0 <= i < fs.len(),
    decreases fs.len(),
{
    if fs.len() > 0 {
        lemma_field_index_in(fs.drop_last(), name);
    }
}

proof fn lemma_prop_index_in(ps: Seq<Property>, key: Seq<char>)
    ensures
        prop_index(ps, key) matches Some(i) ==> 0 <= i < ps.len(),
    decreases ps.len(),
{
    if ps.len() > 0 {
        lemma_prop_index_in(ps.drop_last(), key);
    }
}

fn write_prop(p: &Property, rw: &Rewrite, nl: &str, out: &mut String)
    requires
        spans_fit(p.refs@, p.paths@, p.value_raw@.len() as int),
        rw.paths@.len() == 0,
    ensures
        final(out)@ == old(out)@ + prop_out(*p, id_table(rw.ids@), nl@),
{
    proof {
        assert(path_table(rw.paths@) =~= Seq::<(Seq<char>, Seq<char>)>::empty());
    }
    if !has_newline(p.lead.as_str()) {
        push_str(out, nl);
    }
    push_str(out, p.lead.as_str());
    push_str(out, p.key_raw.as_str());
    push_str(out, p.sep_eq.as_str());
    push_str(out, "=");
    push_str(out, p.sep_val.as_str());
    let v = p.rendered(rw);
    push_str(out, v.as_str());
}

fn has_newline(s: &str) -> (r: bool)
    ensures
        r == s@.contains('\n'),
{
    let cs = chars_of(s);
    let mut i: usize = 0;
    while i < cs.len()
        invariant
            i <= cs@.len(),
            cs@ == s@,
            forall|k: int| 0 <= k < i ==> cs@[k] != '\n',
        decreases cs@.len() - i,
    {
        if cs[i] == '\n' {
            return true;
        }
        i += 1;
    }
    false
}

fn write_section(
    sec: &Section,
    id: &EntityId,
    fin: &Vec<(EntityId, String)>,
    rw: &Rewrite,
    al: &Alignment,
    which: Which,
    ls: usize,
    nl: &str,
    out: &mut String,
)
    requires
        section_fits(*sec),
        rw.paths@.len() == 0,
    ensures
        final(out)@ == old(out)@ + section_out(
            *sec,
            id@,
            final_views(fin@),
            id_table(rw.ids@),
            al.table_of(which),
            ls as nat,
            nl@,
        ),
{
    let ghost (fv, rv, pv) = (final_views(fin@), id_table(rw.ids@), al.table_of(which));
    let ghost start = out@;
    push_str(out, "[");
    push_str(out, sec.open_sep.as_str());
    push_str(out, sec.tag.as_str());
    let ghost head = out@;
    let mut i: usize = 0;
    while i < sec.fields.len()
        invariant
            i <= sec.fields@.len(),
            section_fits(*sec),
            rw.paths@.len() == 0,
            fv == final_views(fin@),
            rv == id_table(rw.ids@),
            pv == al.table_of(which),
            out@ == head + fields_out(sec.fields@.take(i as int), *sec, id@, fv, rv, pv, ls as nat),
        decreases sec.fields@.len() - i,
    {
        proof {
            assert(sec.fields@.take(i + 1).drop_last() =~= sec.fields@.take(i as int));
        }
        let f = &sec.fields[i];
        push_str(out, f.sep_before.as_str());
        push_str(out, f.name.as_str());
        push_str(out, f.sep_eq.as_str());
        push_str(out, "=");
        push_str(out, f.sep_val.as_str());
        write_field(sec, id, f.name.as_str(), f.value_raw.as_str(), fin, rw, al, which, ls, out);
        proof {
            assert(out@ =~= head + fields_out(sec.fields@.take(i + 1), *sec, id@, fv, rv, pv, ls as nat));
        }
        i += 1;
    }
    proof {
        assert(sec.fields@.take(i as int) =~= sec.fields@);
    }
    push_str(out, sec.close_sep.as_str());
    push_str(out, "]");
    let ghost mid = out@;
    let mut j: usize = 0;
    while j < sec.props.len()
        invariant
            j <= sec.props@.len(),
            section_fits(*sec),
            rw.paths@.len() == 0,
            rv == id_table(rw.ids@),
            out@ == mid + props_out(sec.props@.take(j as int), rv, nl@),
        decreases sec.props@.len() - j,
    {
        proof {
            assert(sec.props@.take(j + 1).drop_last() =~= sec.props@.take(j as int));
        }
        write_prop(&sec.props[j], rw, nl, out);
        proof {
            assert(out@ =~= mid + props_out(sec.props@.take(j + 1), rv, nl@));
        }
        j += 1;
    }
    proof {
        assert(sec.props@.take(j as int) =~= sec.props@);
        assert(out@ =~= start + section_out(*sec, id@, fv, rv, pv, ls as nat, nl@));
    }
}


// ---------------------------------------------------------------------------
// An entity rebuilt from per-item picks.

pub open spec fn side_section(side: Side, so: SceneView, st: SceneView, id: EntityIdView) -> Option<Section> {
    match side {
        Side::Ours => section_at(so, id),
        Side::Theirs => section_at(st, id),
    }
}

pub open spec fn side_rw(
    side: Side,
    rwo: Seq<(RefKind, Seq<char>, Seq<char>)>,
    rwt: Seq<(RefKind, Seq<char>, Seq<char>)>,
) -> Seq<(RefKind, Seq<char>, Seq<char>)> {
    match side {
        Side::Ours => rwo,
        Side::Theirs => rwt,
    }
}

pub open spec fn side_paths(side: Side, po: Table, pt: Table) -> Table {
    match side {
        Side::Ours => po,
        Side::Theirs => pt,
    }
}

pub open spec fn merged_fields(
    fields: Seq<(Seq<char>, Side)>,
    id: EntityIdView,
    so: SceneView,
    st: SceneView,
    fin: Seq<(EntityIdView, Seq<char>)>,
    rwo: Seq<(RefKind, Seq<char>, Seq<char>)>,
    rwt: Seq<(RefKind, Seq<char>, Seq<char>)>,
    po: Table,
    pt: Table,
    ls: nat,
) -> Seq<char>
    decreases fields.len(),
{
    if fields.len() == 0 {
        seq![]
    } else {
        let acc = merged_fields(fields.drop_last(), id, so, st, fin, rwo, rwt, po, pt, ls);
        let (name, side) = fields.last();
        match side_section(side, so, st, id) {
            None => acc,
            Some(sec) => match field_index(sec.fields@, name) {
                None => acc,
                Some(i) => acc + " "@ + name + "="@ + field_out(
                    sec,
                    id,
                    name,
                    sec.fields@[i].value_raw@,
                    fin,
                    side_rw(side, rwo, rwt),
                    side_paths(side, po, pt),
                    ls,
                ),
            },
        }
    }
}

pub open spec fn merged_props(
    props: Seq<(Seq<char>, Side)>,
    id: EntityIdView,
    so: SceneView,
    st: SceneView,
    rwo: Seq<(RefKind, Seq<char>, Seq<char>)>,
    rwt: Seq<(RefKind, Seq<char>, Seq<char>)>,
    nl: Seq<char>,
) -> Seq<char>
    decreases props.len(),
{
    if props.len() == 0 {
        seq![]
    } else {
        let acc = merged_props(props.drop_last(), id, so, st, rwo, rwt, nl);
        let (key, side) = props.last();
        match side_section(side, so, st, id) {
            None => acc,
            Some(sec) => match prop_index(sec.props@, key) {
                None => acc,
                Some(i) => acc + prop_out(sec.props@[i], side_rw(side, rwo, rwt), nl),
            },
        }
    }
}

/// A section rebuilt from per-item picks, on the skeleton of ours, else theirs.
pub open spec fn merged_out(
    id: EntityIdView,
    fields: Seq<(Seq<char>, Side)>,
    props: Seq<(Seq<char>, Side)>,
    so: SceneView,
    st: SceneView,
    fin: Seq<(EntityIdView, Seq<char>)>,
    rwo: Seq<(RefKind, Seq<char>, Seq<char>)>,
    rwt: Seq<(RefKind, Seq<char>, Seq<char>)>,
    po: Table,
    pt: Table,
    ls: nat,
    nl: Seq<char>,
) -> Seq<char> {
    match owner_section(id, so, st) {
        None => seq![],
        Some(skel) => "["@ + skel.tag@ + merged_fields(fields, id, so, st, fin, rwo, rwt, po, pt, ls) + "]"@
            + merged_props(props, id, so, st, rwo, rwt, nl),
    }
}

pub open spec fn repeat_char(c: char, n: nat) -> Seq<char> {
    Seq::new(n, |i: int| c)
}

/// Conflict markers around the entity as each side has it.
pub open spec fn conflict_out(
    id: EntityIdView,
    so: SceneView,
    st: SceneView,
    fin: Seq<(EntityIdView, Seq<char>)>,
    rwo: Seq<(RefKind, Seq<char>, Seq<char>)>,
    rwt: Seq<(RefKind, Seq<char>, Seq<char>)>,
    po: Table,
    pt: Table,
    ls: nat,
    nl: Seq<char>,
    opts: MergeOptions,
) -> Seq<char> {
    repeat_char('<', opts.marker_size as nat) + " "@ + opts.ours_label@ + nl + side_block(
        section_at(so, id),
        id,
        fin,
        rwo,
        po,
        ls,
        nl,
    ) + repeat_char('=', opts.marker_size as nat) + nl + side_block(section_at(st, id), id, fin, rwt, pt, ls, nl)
        + repeat_char('>', opts.marker_size as nat) + " "@ + opts.theirs_label@
}

/// One side of a conflict: the section and a line break, if the side has it.
pub open spec fn side_block(
    sec: Option<Section>,
    id: EntityIdView,
    fin: Seq<(EntityIdView, Seq<char>)>,
    rw: Seq<(RefKind, Seq<char>, Seq<char>)>,
    paths: Table,
    ls: nat,
    nl: Seq<char>,
) -> Seq<char> {
    match sec {
        Some(s) => section_out(s, id, fin, rw, paths, ls, nl) + nl,
        None => seq![],
    }
}

/// What the merged file holds for one entity.
pub open spec fn piece(
    id: EntityIdView,
    res: ResView,
    so: SceneView,
    st: SceneView,
    fin: Seq<(EntityIdView, Seq<char>)>,
    rwo: Seq<(RefKind, Seq<char>, Seq<char>)>,
    rwt: Seq<(RefKind, Seq<char>, Seq<char>)>,
    po: Table,
    pt: Table,
    ls: nat,
    nl: Seq<char>,
    opts: MergeOptions,
) -> Seq<char> {
    match res {
        ResView::Take(side) => match side_section(side, so, st, id) {
            Some(sec) => section_out(sec, id, fin, side_rw(side, rwo, rwt), side_paths(side, po, pt), ls, nl),
            None => seq![],
        },
        ResView::Merge { fields, props } => merged_out(id, fields, props, so, st, fin, rwo, rwt, po, pt, ls, nl),
        ResView::Conflict => conflict_out(id, so, st, fin, rwo, rwt, po, pt, ls, nl, opts),
    }
}

/// The plan for `id`, the first entry for it.
pub open spec fn plan_get(plan: Seq<(EntityIdView, ResView)>, id: EntityIdView) -> Option<ResView>
    decreases plan.len(),
{
    if plan.len() == 0 {
        None
    } else {
        match plan_get(plan.drop_last(), id) {
            Some(r) => Some(r),
            None => if plan.last().0 == id {
                Some(plan.last().1)
            } else {
                None
            },
        }
    }
}

/// How many line breaks follow a section, as Godot's own writer puts them:
/// consecutive external resources, connections and editables are packed
/// together, everything else is set apart by a blank line.
pub open spec fn separators(cur: EntityIdView, next: Option<EntityIdView>) -> nat {
    match next {
        None => 1,
        Some(n) => if (cur is Ext && n is Ext) || (cur is Connection && n is Connection) || (
        cur is Editable && n is Editable) {
            1
        } else {
            2
        },
    }
}

pub open spec fn nl_times(nl: Seq<char>, n: nat) -> Seq<char>
    decreases n,
{
    if n == 0 {
        seq![]
    } else {
        nl_times(nl, (n - 1) as nat) + nl
    }
}

/// The merged file's sections for the first `k` entities of `order`.
pub open spec fn emit_body(
    order: Seq<EntityIdView>,
    k: nat,
    plan: Seq<(EntityIdView, ResView)>,
    so: SceneView,
    st: SceneView,
    fin: Seq<(EntityIdView, Seq<char>)>,
    rwo: Seq<(RefKind, Seq<char>, Seq<char>)>,
    rwt: Seq<(RefKind, Seq<char>, Seq<char>)>,
    po: Table,
    pt: Table,
    ls: nat,
    nl: Seq<char>,
    opts: MergeOptions,
) -> Seq<char>
    decreases k,
{
    if k == 0 {
        seq![]
    } else {
        let acc = emit_body(order, (k - 1) as nat, plan, so, st, fin, rwo, rwt, po, pt, ls, nl, opts);
        let id = order[k - 1];
        match plan_get(plan, id) {
            None => acc,
            Some(r) => acc + piece(id, r, so, st, fin, rwo, rwt, po, pt, ls, nl, opts) + nl_times(
                nl,
                separators(id, if k < order.len() { Some(order[k as int]) } else { None }),
            ),
        }
    }
}

pub open spec fn count_resources(order: Seq<EntityIdView>) -> nat
    decreases order.len(),
{
    if order.len() == 0 {
        0
    } else {
        count_resources(order.drop_last()) + if is_resource(order.last()) {
            1nat
        } else {
            0nat
        }
    }
}

pub open spec fn newline_of(d: Document) -> Seq<char> {
    if d.uses_crlf() {
        "\r\n"@
    } else {
        "\n"@
    }
}

/// The text of the merged file: ours' leading text, then each entity.
pub open spec fn merged_text(
    ours: Document,
    order: Seq<EntityIdView>,
    plan: Seq<(EntityIdView, ResView)>,
    so: SceneView,
    st: SceneView,
    fin: Seq<(EntityIdView, Seq<char>)>,
    po: Table,
    pt: Table,
    opts: MergeOptions,
) -> Seq<char> {
    ours.lead@ + emit_body(
        order,
        order.len(),
        plan,
        so,
        st,
        fin,
        side_ids(so, fin),
        side_ids(st, fin),
        po,
        pt,
        count_resources(order) + 1,
        newline_of(ours),
        opts,
    )
}

/// Every section of the scene's document fits the spans it records.
pub open spec fn scene_fits(sc: &Scene) -> bool {
    forall|i: int| 0 <= i < sc.doc.sections@.len() ==> section_fits(#[trigger] sc.doc.sections@[i])
}

fn write_merged(
    id: &EntityId,
    fields: &Vec<(String, Side)>,
    props: &Vec<(String, Side)>,
    so: &Scene,
    st: &Scene,
    fin: &Vec<(EntityId, String)>,
    rwo: &Rewrite,
    rwt: &Rewrite,
    al: &Alignment,
    ls: usize,
    nl: &str,
    out: &mut String,
)
    requires
        so.wf(),
        st.wf(),
        scene_fits(so),
        scene_fits(st),
        rwo.paths@.len() == 0,
        rwt.paths@.len() == 0,
    ensures
        final(out)@ == old(out)@ + merged_out(
            id@,
            picks_view(fields@),
            picks_view(props@),
            so.view_of(),
            st.view_of(),
            final_views(fin@),
            id_table(rwo.ids@),
            id_table(rwt.ids@),
            al.table_of(Which::Ours),
            al.table_of(Which::Theirs),
            ls as nat,
            nl@,
        ),
{
    let ghost (vo, vt, fv, ro, rt) = (so.view_of(), st.view_of(), final_views(fin@), id_table(rwo.ids@), id_table(rwt.ids@));
    let ghost (po, pt) = (al.table_of(Which::Ours), al.table_of(Which::Theirs));
    proof {
        lemma_first_index(so.id_views(), id@);
        lemma_first_index(st.id_views(), id@);
    }
    let skeleton = match so.section(id) {
        Some(s) => s,
        None => match st.section(id) {
            Some(s) => s,
            None => {
                return;
            },
        },
    };
    let ghost start = out@;
    push_str(out, "[");
    push_str(out, skeleton.tag.as_str());
    let ghost head = out@;
    let ghost fl = picks_view(fields@);
    let mut i: usize = 0;
    while i < fields.len()
        invariant
            i <= fields@.len(),
            so.wf(),
            st.wf(),
            scene_fits(so),
            scene_fits(st),
            rwo.paths@.len() == 0,
            rwt.paths@.len() == 0,
            fl == picks_view(fields@),
            vo == so.view_of(),
            vt == st.view_of(),
            fv == final_views(fin@),
            ro == id_table(rwo.ids@),
            rt == id_table(rwt.ids@),
            po == al.table_of(Which::Ours),
            pt == al.table_of(Which::Theirs),
            out@ == head + merged_fields(fl.take(i as int), id@, vo, vt, fv, ro, rt, po, pt, ls as nat),
        decreases fields@.len() - i,
    {
        proof {
            assert(fl.take(i + 1).drop_last() =~= fl.take(i as int));
            assert(fl[i as int] == (fields@[i as int].0@, fields@[i as int].1));
        }
        let (name, side) = (&fields[i].0, fields[i].1);
        let (section, rw, which) = match side {
            Side::Ours => (so.section(id), rwo, Which::Ours),
            Side::Theirs => (st.section(id), rwt, Which::Theirs),
        };
        if let Some(sec) = section {
            proof {
                lemma_first_index(so.id_views(), id@);
                lemma_first_index(st.id_views(), id@);
            }
            if let Some(f) = sec.field(name.as_str()) {
                push_str(out, " ");
                push_str(out, name.as_str());
                push_str(out, "=");
                write_field(sec, id, name.as_str(), f.value_raw.as_str(), fin, rw, al, which, ls, out);
            }
        }
        proof {
            assert(out@ =~= head + merged_fields(fl.take(i + 1), id@, vo, vt, fv, ro, rt, po, pt, ls as nat));
        }
        i += 1;
    }
    proof {
        assert(fl.take(i as int) =~= fl);
    }
    push_str(out, "]");
    let ghost mid = out@;
    let ghost pl = picks_view(props@);
    let mut j: usize = 0;
    while j < props.len()
        invariant
            j <= props@.len(),
            so.wf(),
            st.wf(),
            scene_fits(so),
            scene_fits(st),
            rwo.paths@.len() == 0,
            rwt.paths@.len() == 0,
            pl == picks_view(props@),
            vo == so.view_of(),
            vt == st.view_of(),
            ro == id_table(rwo.ids@),
            rt == id_table(rwt.ids@),
            out@ == mid + merged_props(pl.take(j as int), id@, vo, vt, ro, rt, nl@),
        decreases props@.len() - j,
    {
        proof {
            assert(pl.take(j + 1).drop_last() =~= pl.take(j as int));
            assert(pl[j as int] == (props@[j as int].0@, props@[j as int].1));
        }
        let (key, side) = (&props[j].0, props[j].1);
        let (section, rw) = match side {
            Side::Ours => (so.section(id), rwo),
            Side::Theirs => (st.section(id), rwt),
        };
        if let Some(sec) = section {
            proof {
                lemma_first_index(so.id_views(), id@);
                lemma_first_index(st.id_views(), id@);
            }
            if let Some(p) = sec.prop(key.as_str()) {
                proof {
                    lemma_prop_index_in(sec.props@, key@);
                }
                write_prop(p, rw, nl, out);
            }
        }
        proof {
            assert(out@ =~= mid + merged_props(pl.take(j + 1), id@, vo, vt, ro, rt, nl@));
        }
        j += 1;
    }
    proof {
        assert(pl.take(j as int) =~= pl);
        assert(out@ =~= start + merged_out(id@, fl, pl, vo, vt, fv, ro, rt, po, pt, ls as nat, nl@));
    }
}


fn push_repeat(out: &mut String, c: char, n: usize)
    ensures
        final(out)@ == old(out)@ + repeat_char(c, n as nat),
{
    let ghost start = out@;
    let mut i: usize = 0;
    while i < n
        invariant
            i <= n,
            out@ == start + repeat_char(c, i as nat),
        decreases n - i,
    {
        out.push(c);
        proof {
            assert(repeat_char(c, (i + 1) as nat) =~= repeat_char(c, i as nat).push(c));
        }
        i += 1;
    }
}

fn side_block_text(
    sec: Option<&Section>,
    id: &EntityId,
    fin: &Vec<(EntityId, String)>,
    rw: &Rewrite,
    al: &Alignment,
    which: Which,
    ls: usize,
    nl: &str,
) -> (r: String)
    requires
        sec matches Some(s) ==> section_fits(*s),
        rw.paths@.len() == 0,
    ensures
        r@ == side_block(
            opt_section(sec),
            id@,
            final_views(fin@),
            id_table(rw.ids@),
            al.table_of(which),
            ls as nat,
            nl@,
        ),
{
    let mut out = String::new();
    if let Some(s) = sec {
        write_section(s, id, fin, rw, al, which, ls, nl, &mut out);
        push_str(&mut out, nl);
    }
    proof {
        assert(out@ =~= side_block(
            opt_section(sec),
            id@,
            final_views(fin@),
            id_table(rw.ids@),
            al.table_of(which),
            ls as nat,
            nl@,
        ));
    }
    out
}

#[verifier::spinoff_prover]
fn write_conflict(
    id: &EntityId,
    so: &Scene,
    st: &Scene,
    fin: &Vec<(EntityId, String)>,
    rwo: &Rewrite,
    rwt: &Rewrite,
    al: &Alignment,
    ls: usize,
    nl: &str,
    opts: &MergeOptions,
    out: &mut String,
)
    requires
        so.wf(),
        st.wf(),
        scene_fits(so),
        scene_fits(st),
        rwo.paths@.len() == 0,
        rwt.paths@.len() == 0,
    ensures
        final(out)@ == old(out)@ + conflict_out(
            id@,
            so.view_of(),
            st.view_of(),
            final_views(fin@),
            id_table(rwo.ids@),
            id_table(rwt.ids@),
            al.table_of(Which::Ours),
            al.table_of(Which::Theirs),
            ls as nat,
            nl@,
            *opts,
        ),
{
    proof {
        lemma_first_index(so.id_views(), id@);
        lemma_first_index(st.id_views(), id@);
    }
    let mine = side_block_text(so.section(id), id, fin, rwo, al, Which::Ours, ls, nl);
    let yours = side_block_text(st.section(id), id, fin, rwt, al, Which::Theirs, ls, nl);
    let ghost start = out@;
    push_repeat(out, '<', opts.marker_size);
    push_str(out, " ");
    push_str(out, opts.ours_label.as_str());
    push_str(out, nl);
    push_str(out, mine.as_str());
    push_repeat(out, '=', opts.marker_size);
    push_str(out, nl);
    push_str(out, yours.as_str());
    push_repeat(out, '>', opts.marker_size);
    push_str(out, " ");
    push_str(out, opts.theirs_label.as_str());
}

/// The plan for `id`, if there is one.
fn plan_find<'a>(plan: &'a Vec<(EntityId, Res)>, id: &EntityId) -> (r: Option<&'a Res>)
    ensures
        match r {
            Some(x) => plan_get(plan_views(plan@), id@) == Some(x@),
            None => plan_get(plan_views(plan@), id@) is None,
        },
{
    let ghost pv = plan_views(plan@);
    let mut i: usize = 0;
    while i < plan.len()
        invariant
            i <= plan@.len(),
            pv == plan_views(plan@),
            plan_get(pv.take(i as int), id@) is None,
        decreases plan@.len() - i,
    {
        proof {
            assert(pv.take(i + 1).drop_last() =~= pv.take(i as int));
        }
        if same_id(&plan[i].0, id) {
            proof {
                lemma_plan_get_at(pv, id@, i + 1);
            }
            return Some(&plan[i].1);
        }
        i += 1;
    }
    proof {
        assert(pv.take(i as int) =~= pv);
    }
    None
}

proof fn lemma_plan_get_at(v: Seq<(EntityIdView, ResView)>, id: EntityIdView, k: int)
    requires
        0 < k <= v.len(),
        plan_get(v.take(k - 1), id) is None,
        v[k - 1].0 == id,
    ensures
        plan_get(v, id) == Some(v[k - 1].1),
    decreases v.len(),
{
    if k < v.len() {
        assert(v.drop_last().take(k - 1) =~= v.take(k - 1));
        lemma_plan_get_at(v.drop_last(), id, k);
    } else {
        assert(v.drop_last() =~= v.take(k - 1));
    }
}

fn count_res(order: &Vec<EntityId>) -> (n: usize)
    ensures
        n as nat == count_resources(ids_view(order@)),
        n <= order@.len(),
{
    let ghost ov = ids_view(order@);
    let mut n: usize = 0;
    let mut i: usize = 0;
    while i < order.len()
        invariant
            i <= order@.len(),
            ov == ids_view(order@),
            n <= i,
            n as nat == count_resources(ov.take(i as int)),
        decreases order@.len() - i,
    {
        proof {
            assert(ov.take(i + 1).drop_last() =~= ov.take(i as int));
            assert(ov[i as int] == order@[i as int]@);
        }
        match &order[i] {
            EntityId::Ext(_) => n += 1,
            EntityId::Sub(_) => n += 1,
            _ => {},
        }
        i += 1;
    }
    proof {
        assert(ov.take(i as int) =~= ov);
    }
    n
}

fn emit(
    ours: &Document,
    order: &Vec<EntityId>,
    plan: &Vec<(EntityId, Res)>,
    so: &Scene,
    st: &Scene,
    fin: &Vec<(EntityId, String)>,
    al: &Alignment,
    opts: &MergeOptions,
) -> (r: String)
    requires
        so.wf(),
        st.wf(),
        scene_fits(so),
        scene_fits(st),
        order@.len() < usize::MAX,
    ensures
        r@ == merged_text(
            *ours,
            ids_view(order@),
            plan_views(plan@),
            so.view_of(),
            st.view_of(),
            final_views(fin@),
            al.table_of(Which::Ours),
            al.table_of(Which::Theirs),
            *opts,
        ),
{
    let ghost (ov, pv, vo, vt, fv) = (ids_view(order@), plan_views(plan@), so.view_of(), st.view_of(), final_views(fin@));
    let ls = count_res(order) + 1;
    let rwo = side_rewrite(so, fin);
    let rwt = side_rewrite(st, fin);
    let ghost (ro, rt) = (id_table(rwo.ids@), id_table(rwt.ids@));
    let ghost (po, pt) = (al.table_of(Which::Ours), al.table_of(Which::Theirs));
    let nl = ours.newline();
    proof {
        assert(nl@ == newline_of(*ours));
    }
    let mut out = String::new();
    push_str(&mut out, ours.lead.as_str());
    let ghost head = out@;
    let mut i: usize = 0;
    while i < order.len()
        invariant
            i <= order@.len(),
            so.wf(),
            st.wf(),
            scene_fits(so),
            scene_fits(st),
            rwo.paths@.len() == 0,
            rwt.paths@.len() == 0,
            ov == ids_view(order@),
            pv == plan_views(plan@),
            vo == so.view_of(),
            vt == st.view_of(),
            fv == final_views(fin@),
            ro == id_table(rwo.ids@),
            rt == id_table(rwt.ids@),
            po == al.table_of(Which::Ours),
            pt == al.table_of(Which::Theirs),
            nl@ == newline_of(*ours),
            out@ == head + emit_body(ov, i as nat, pv, vo, vt, fv, ro, rt, po, pt, ls as nat, nl@, *opts),
        decreases order@.len() - i,
    {
        proof {
            assert(ov[i as int] == order@[i as int]@);
        }
        let id = &order[i];
        emit_one(order, i, plan, so, st, fin, &rwo, &rwt, al, ls, nl, opts, &mut out);
        proof {
            assert(out@ =~= head + emit_body(ov, (i + 1) as nat, pv, vo, vt, fv, ro, rt, po, pt, ls as nat, nl@, *opts));
        }
        i += 1;
    }
    out
}

fn write_piece(
    id: &EntityId,
    res: &Res,
    so: &Scene,
    st: &Scene,
    fin: &Vec<(EntityId, String)>,
    rwo: &Rewrite,
    rwt: &Rewrite,
    al: &Alignment,
    ls: usize,
    nl: &str,
    opts: &MergeOptions,
    out: &mut String,
)
    requires
        so.wf(),
        st.wf(),
        scene_fits(so),
        scene_fits(st),
        rwo.paths@.len() == 0,
        rwt.paths@.len() == 0,
    ensures
        final(out)@ == old(out)@ + piece(
            id@,
            res@,
            so.view_of(),
            st.view_of(),
            final_views(fin@),
            id_table(rwo.ids@),
            id_table(rwt.ids@),
            al.table_of(Which::Ours),
            al.table_of(Which::Theirs),
            ls as nat,
            nl@,
            *opts,
        ),
{
    match res {
        Res::Take(side) => {
            proof {
                lemma_first_index(so.id_views(), id@);
                lemma_first_index(st.id_views(), id@);
            }
            let (section, rw, which) = match side {
                Side::Ours => (so.section(id), rwo, Which::Ours),
                Side::Theirs => (st.section(id), rwt, Which::Theirs),
            };
            if let Some(sec) = section {
                write_section(sec, id, fin, rw, al, which, ls, nl, out);
            }
        },
        Res::Merge { fields, props } => {
            write_merged(id, fields, props, so, st, fin, rwo, rwt, al, ls, nl, out);
        },
        Res::Conflict => {
            write_conflict(id, so, st, fin, rwo, rwt, al, ls, nl, opts, out);
        },
    }
}

fn separator_count(order: &Vec<EntityId>, i: usize) -> (n: usize)
    requires
        i < order@.len(),
    ensures
        n as nat == separators(
            order@[i as int]@,
            if i + 1 < order@.len() {
                Some(order@[i + 1]@)
            } else {
                None
            },
        ),
{
    if order.len() - i > 1 {
        let packed = match (&order[i], &order[i + 1]) {
            (EntityId::Ext(_), EntityId::Ext(_)) => true,
            (EntityId::Connection(..), EntityId::Connection(..)) => true,
            (EntityId::Editable(_), EntityId::Editable(_)) => true,
            _ => false,
        };
        if packed {
            1
        } else {
            2
        }
    } else {
        1
    }
}

fn emit_one(
    order: &Vec<EntityId>,
    i: usize,
    plan: &Vec<(EntityId, Res)>,
    so: &Scene,
    st: &Scene,
    fin: &Vec<(EntityId, String)>,
    rwo: &Rewrite,
    rwt: &Rewrite,
    al: &Alignment,
    ls: usize,
    nl: &str,
    opts: &MergeOptions,
    out: &mut String,
)
    requires
        i < order@.len(),
        so.wf(),
        st.wf(),
        scene_fits(so),
        scene_fits(st),
        rwo.paths@.len() == 0,
        rwt.paths@.len() == 0,
    ensures
        final(out)@ == old(out)@ + match plan_get(plan_views(plan@), order@[i as int]@) {
            None => seq![],
            Some(r) => piece(
                order@[i as int]@,
                r,
                so.view_of(),
                st.view_of(),
                final_views(fin@),
                id_table(rwo.ids@),
                id_table(rwt.ids@),
                al.table_of(Which::Ours),
                al.table_of(Which::Theirs),
                ls as nat,
                nl@,
                *opts,
            ) + nl_times(
                nl@,
                separators(
                    order@[i as int]@,
                    if i + 1 < order@.len() {
                        Some(order@[i + 1]@)
                    } else {
                        None
                    },
                ),
            ),
        },
{
    let id = &order[i];
    if let Some(res) = plan_find(plan, id) {
        write_piece(id, res, so, st, fin, rwo, rwt, al, ls, nl, opts, out);
        let lines = separator_count(order, i);
        let ghost before_nl = out@;
        let mut k: usize = 0;
        while k < lines
            invariant
                k <= lines,
                out@ == before_nl + nl_times(nl@, k as nat),
            decreases lines - k,
        {
            push_str(out, nl);
            k += 1;
        }
    }
}

// ---------------------------------------------------------------------------
// The conflicts, in order of the entities they are about.

pub open spec fn insert_conflict(sorted: Seq<ConflictView>, c: ConflictView) -> Seq<ConflictView>
    decreases sorted.len(),
{
    if sorted.len() == 0 {
        seq![c]
    } else if lex_lt(c.0, sorted.last().0) {
        insert_conflict(sorted.drop_last(), c).push(sorted.last())
    } else {
        sorted.push(c)
    }
}

/// A stable sort by entity.
pub open spec fn sort_conflicts(cs: Seq<ConflictView>) -> Seq<ConflictView>
    decreases cs.len(),
{
    if cs.len() == 0 {
        seq![]
    } else {
        insert_conflict(sort_conflicts(cs.drop_last()), cs.last())
    }
}

proof fn lemma_insert_conflict_at(s: Seq<ConflictView>, c: ConflictView, p: int)
    requires
        0 <= p <= s.len(),
        forall|k: int| p <= k < s.len() ==> lex_lt(c.0, (#[trigger] s[k]).0),
        p == 0 || !lex_lt(c.0, s[p - 1].0),
    ensures
        insert_conflict(s, c) == s.insert(p, c),
    decreases s.len() - p,
{
    if s.len() == 0 {
        assert(s.insert(p, c) =~= seq![c]);
    } else if p == s.len() {
        assert(s.insert(p, c) =~= s.push(c));
    } else {
        lemma_insert_conflict_at(s.drop_last(), c, p);
        assert(s.insert(p, c) =~= s.drop_last().insert(p, c).push(s.last()));
    }
}

fn insert_conflict_exec(v: &mut Vec<Conflict>, c: Conflict)
    ensures
        conflict_views(final(v)@) == insert_conflict(conflict_views(old(v)@), conflict_view(c)),
{
    let ghost old_v = conflict_views(v@);
    let ghost cv = conflict_view(c);
    let mut p = v.len();
    while p > 0 && lex_less(c.entity.as_str(), v[p - 1].entity.as_str())
        invariant
            p <= v@.len(),
            old_v == conflict_views(v@),
            cv == conflict_view(c),
            forall|k: int| p <= k < v@.len() ==> lex_lt(c.entity@, (#[trigger] v@[k]).entity@),
        decreases p,
    {
        p -= 1;
    }
    proof {
        assert forall|k: int| p <= k < old_v.len() implies lex_lt(cv.0, (#[trigger] old_v[k]).0) by {
            assert(old_v[k].0 == v@[k].entity@);
        }
        if p > 0 {
            assert(old_v[p - 1].0 == v@[p - 1].entity@);
        }
        lemma_insert_conflict_at(old_v, cv, p as int);
    }
    let ghost before = v@;
    v.insert(p, c);
    proof {
        assert(conflict_views(v@) =~= old_v.insert(p as int, cv));
    }
}

fn sort_conflict_list(cs: Vec<Conflict>) -> (r: Vec<Conflict>)
    ensures
        conflict_views(r@) == sort_conflicts(conflict_views(cs@)),
{
    let ghost all = conflict_views(cs@);
    let mut out: Vec<Conflict> = Vec::new();
    let mut rest = cs;
    let ghost mut taken: int = 0;
    while rest.len() > 0
        invariant
            0 <= taken <= all.len(),
            conflict_views(rest@) == all.skip(taken),
            conflict_views(out@) == sort_conflicts(all.take(taken)),
        decreases rest@.len(),
    {
        let ghost before = rest@;
        let c = rest.remove(0);
        proof {
            assert(conflict_views(before).len() == before.len());
            assert(taken < all.len());
            assert(conflict_view(c) == conflict_views(before)[0]);
            assert(all.skip(taken)[0] == all[taken]);
            assert forall|k: int| 0 <= k < rest@.len() implies #[trigger] conflict_views(rest@)[k]
                == all.skip(taken + 1)[k] by {
                assert(rest@[k] == before[k + 1]);
                assert(conflict_views(before)[k + 1] == all.skip(taken)[k + 1]);
            }
            assert(conflict_views(rest@) =~= all.skip(taken + 1));
            assert(all.take(taken + 1).drop_last() =~= all.take(taken));
        }
        insert_conflict_exec(&mut out, c);
        proof {
            taken = taken + 1;
        }
    }
    proof {
        assert(all.skip(taken).len() == 0);
        assert(all.take(taken) =~= all);
    }
    out
}


// ---------------------------------------------------------------------------
// References a merge leaves pointing at nothing.

/// Whether `f` already holds a miss for the same path at the same place.
pub open spec fn already_missing(f: Seq<(ReferenceView, ResolutionView)>, r: ReferenceView) -> bool {
    exists|k: int|
        0 <= k < f.len() && (#[trigger] f[k]).0.site == r.site && f[k].0.path == r.path && f[k].1 is Missing
}

/// The conflict a stranded reference raises: the place holding it and what
/// it points at. It has no rows; the path is the thing to look at.
pub open spec fn stranded_view(r: ReferenceView, target: Seq<char>) -> ConflictView {
    (
        site_text(r.site),
        "NodePath(\""@ + r.path + "\") in "@ + site_text(r.site) + " points at \""@ + target
            + "\", which no node of the merged file is"@,
        seq![],
    )
}

/// The misses of the merged file's walk, `merged`, that the common ancestor's
/// walk, `base`, did not already have, in order.
pub open spec fn stranded(
    base: Seq<(ReferenceView, ResolutionView)>,
    merged: Seq<(ReferenceView, ResolutionView)>,
) -> Seq<ConflictView>
    decreases merged.len(),
{
    if merged.len() == 0 {
        seq![]
    } else {
        let rest = stranded(base, merged.drop_last());
        match merged.last().1 {
            ResolutionView::Missing(target) => if already_missing(base, merged.last().0) {
                rest
            } else {
                rest.push(stranded_view(merged.last().0, target))
            },
            _ => rest,
        }
    }
}

fn same_site(a: &Site, b: &Site) -> (r: bool)
    ensures
        r == (a@ == b@),
{
    match (a, b) {
        (Site::NodeProperty { node: n1, property: p1 }, Site::NodeProperty { node: n2, property: p2 }) => str_eq(
            n1.as_str(),
            n2.as_str(),
        ) && str_eq(p1.as_str(), p2.as_str()),
        (
            Site::SubResourceProperty { id: i1, property: p1 },
            Site::SubResourceProperty { id: i2, property: p2 },
        ) => str_eq(i1.as_str(), i2.as_str()) && str_eq(p1.as_str(), p2.as_str()),
        (Site::Connection { field: f1, from: a1, to: t1 }, Site::Connection { field: f2, from: a2, to: t2 }) => str_eq(
            f1,
            f2,
        ) && str_eq(a1.as_str(), a2.as_str()) && str_eq(t1.as_str(), t2.as_str()),
        (Site::Editable, Site::Editable) => true,
        _ => false,
    }
}

fn missing_before(found: &Vec<(Reference, Resolution)>, r: &Reference) -> (b: bool)
    ensures
        b == already_missing(finding_views(found@), reference_view(*r)),
{
    let ghost fv = finding_views(found@);
    let mut k: usize = 0;
    while k < found.len()
        invariant
            k <= found@.len(),
            fv == finding_views(found@),
            forall|j: int|
                0 <= j < k ==> !((#[trigger] fv[j]).0.site == reference_view(*r).site && fv[j].0.path
                    == r.path@ && fv[j].1 is Missing),
        decreases found@.len() - k,
    {
        proof {
            assert(fv[k as int] == (reference_view(found@[k as int].0), found@[k as int].1@));
        }
        if same_site(&found[k].0.site, &r.site) && str_eq(found[k].0.path.as_str(), r.path.as_str())
            && matches!(found[k].1, Resolution::Missing(_)) {
            return true;
        }
        k += 1;
    }
    false
}

/// The `NodePath`s of `merged` that name no node, leaving out those its
/// common ancestor `base` already had broken, each as a conflict on the
/// place holding it.
pub fn stranded_references(base: &Document, merged: &Document) -> (r: Vec<Conflict>)
    ensures
        conflict_views(r@) == stranded(doc_findings(*base), doc_findings(*merged)),
{
    let before = findings(base);
    let after = findings(merged);
    let ghost (fb, fm) = (finding_views(before@), finding_views(after@));
    let mut out: Vec<Conflict> = Vec::new();
    let mut i: usize = 0;
    while i < after.len()
        invariant
            i <= after@.len(),
            fb == finding_views(before@),
            fm == finding_views(after@),
            conflict_views(out@) == stranded(fb, fm.take(i as int)),
        decreases after@.len() - i,
    {
        proof {
            assert(fm.take(i + 1).drop_last() =~= fm.take(i as int));
            assert(fm[i as int] == (reference_view(after@[i as int].0), after@[i as int].1@));
        }
        let (reference, outcome) = &after[i];
        if let Resolution::Missing(target) = outcome {
            if !missing_before(&before, reference) {
                let place = reference.site.describe();
                let mut detail = String::new();
                push_str(&mut detail, "NodePath(\"");
                push_str(&mut detail, reference.path.as_str());
                push_str(&mut detail, "\") in ");
                push_str(&mut detail, place.as_str());
                push_str(&mut detail, " points at \"");
                push_str(&mut detail, target.as_str());
                push_str(&mut detail, "\", which no node of the merged file is");
                let c = Conflict { entity: place, detail, rows: Vec::new() };
                let ghost before_out = out@;
                proof {
                    assert(c.detail@ =~= stranded_view(reference_view(*reference), target@).1);
                    assert(row_views(c.rows@) =~= Seq::<RowView>::empty());
                }
                out.push(c);
                proof {
                    assert(conflict_views(out@) =~= conflict_views(before_out).push(
                        stranded_view(reference_view(*reference), target@),
                    ));
                }
            }
        }
        i += 1;
    }
    proof {
        assert(fm.take(i as int) =~= fm);
    }
    out
}

// ---------------------------------------------------------------------------
// The three-way merge.

/// Whether both branches changed something semantic, and differently, so
/// that neither side's bytes are the answer as they stand.
pub open spec fn merge_full(base: Document, ours: Document, theirs: Document, nums: Table) -> bool {
    let (sb, so, st) = (scene_of(base, nums), scene_of(ours, nums), scene_of(theirs, nums));
    diff_changes(sb, st).len() != 0 && diff_changes(sb, so).len() != 0 && diff_changes(so, st).len() != 0
}

/// The merged text and the conflicts, each with its rows, of merging
/// `ours` and `theirs` against their common ancestor `base`.
pub open spec fn merge_spec(base: Document, ours: Document, theirs: Document, opts: MergeOptions, nums: Table) -> (
    Seq<char>,
    Seq<ConflictView>,
) {
    let (sb, so, st) = (scene_of(base, nums), scene_of(ours, nums), scene_of(theirs, nums));
    if diff_changes(sb, st).len() == 0 {
        (doc_text(ours), seq![])
    } else if diff_changes(sb, so).len() == 0 {
        (doc_text(theirs), seq![])
    } else if diff_changes(so, st).len() == 0 {
        (doc_text(ours), seq![])
    } else {
        // One shared naming first, so a node renamed on one side is the node
        // the other side edited.
        let al = alignment_spec(sb, so, st);
        let (ab, ao, at) = (realign(sb, al.0), realign(so, al.1), realign(st, al.2));
        let (plan, conflicts) = plan_of(dedup_ids(ao.ids + at.ids + ab.ids), ab, ao, at, al.0, al.3);
        let order = merged_order(ao.ids, at.ids, plan_ids(plan));
        let fin = assign_spec(order, ao, at);
        (merged_text(ours, order, plan, ao, at, fin, al.1, al.2, opts), sort_conflicts(conflicts))
    }
}

/// `text` and `conflicts` are what merging `ours` and `theirs` against
/// `base` gives: the text of [`merge_spec`], and its conflicts where it has
/// any. Where it has none and both branches changed something, the merged
/// text is read back, and the conflicts are the references it strands, as the
/// walk finds them in any document the text parses to (all of which say the
/// same); otherwise there are none.
pub open spec fn merge_result(
    base: Document,
    ours: Document,
    theirs: Document,
    opts: MergeOptions,
    nums: Table,
    text: Seq<char>,
    conflicts: Seq<ConflictView>,
) -> bool {
    let (t, planned) = merge_spec(base, ours, theirs, opts, nums);
    &&& text == t
    &&& if planned.len() != 0 {
        conflicts == planned
    } else if merge_full(base, ours, theirs, nums) && accepts(text) {
        &&& exists|d: Document| parses_to(text, d)
        &&& forall|d: Document| parses_to(text, d) ==> conflicts == stranded(doc_findings(base), doc_findings(d))
    } else {
        conflicts.len() == 0
    }
}

/// Merging is deterministic: two merges of the same three documents, with
/// the same options and number forms, give the same text and the same
/// conflicts, in the same order.
pub proof fn lemma_merge_is_deterministic(
    base: Document,
    ours: Document,
    theirs: Document,
    opts: MergeOptions,
    nums: Table,
    t1: Seq<char>,
    c1: Seq<ConflictView>,
    t2: Seq<char>,
    c2: Seq<ConflictView>,
)
    requires
        merge_result(base, ours, theirs, opts, nums, t1, c1),
        merge_result(base, ours, theirs, opts, nums, t2, c2),
    ensures
        t1 == t2,
        c1 == c2,
{
    let (t, planned) = merge_spec(base, ours, theirs, opts, nums);
    if planned.len() == 0 && merge_full(base, ours, theirs, nums) && accepts(t1) {
        let d = choose|d: Document| parses_to(t1, d);
        assert(c1 == stranded(doc_findings(base), doc_findings(d)));
        assert(c2 == stranded(doc_findings(base), doc_findings(d)));
    }
}

proof fn lemma_select_len(s: Seq<EntityIdView>, o: Seq<EntityIdView>, keep: bool)
    ensures
        select(s, o, keep).len() <= s.len(),
    decreases s.len(),
{
    if s.len() > 0 {
        lemma_select_len(s.drop_last(), o, keep);
    }
}

proof fn lemma_weave_len(order: Seq<EntityIdView>, theirs: Seq<EntityIdView>, planned: Seq<EntityIdView>, i: nat)
    requires
        i <= theirs.len(),
    ensures
        weave(order, theirs, planned, i).len() <= order.len() + i,
    decreases i,
{
    if i > 0 {
        lemma_weave_len(order, theirs, planned, (i - 1) as nat);
        let o = weave(order, theirs, planned, (i - 1) as nat);
        lemma_anchor_bound(o, theirs.take(i - 1));
        lemma_rank_slot_bound(o, rank_view(theirs[i - 1]));
    }
}

proof fn lemma_insert_by_rank_len(s: Seq<EntityIdView>, x: EntityIdView)
    ensures
        insert_by_rank(s, x).len() == s.len() + 1,
    decreases s.len(),
{
    if s.len() > 0 {
        lemma_insert_by_rank_len(s.drop_last(), x);
    }
}

proof fn lemma_sort_by_rank_len(s: Seq<EntityIdView>)
    ensures
        sort_by_rank(s).len() == s.len(),
    decreases s.len(),
{
    if s.len() > 0 {
        lemma_sort_by_rank_len(s.drop_last());
        lemma_insert_by_rank_len(sort_by_rank(s.drop_last()), s.last());
    }
}

/// Merges `ours` and `theirs` against their common ancestor `base`, numbers
/// compared by the forms `nums` gives them.
///
/// Whole-side fast paths come first: when one branch changed nothing
/// semantic, the other's bytes are the answer. Otherwise every entity is
/// resolved on its own; disjoint changes combine, and only a genuine
/// collision becomes a conflict, whose markers wrap just that entity.
///
/// A combination that settles every entity is then read back, and a
/// `NodePath` it leaves pointing at nothing (one branch renamed a node the
/// other still names) stops the merge as a conflict rather than producing a
/// scene wired to nothing.
#[verifier::spinoff_prover]
#[verifier::rlimit(40)]
pub fn merge(
    base: &Document,
    ours: &Document,
    theirs: &Document,
    opts: &MergeOptions,
    nums: &NumberForms,
) -> (r: MergeOutcome)
    requires
        ours.wf(),
        theirs.wf(),
        ours.sections@.len() + theirs.sections@.len() < usize::MAX,
    ensures
        merge_result(*base, *ours, *theirs, *opts, nums.table(), r.text@, conflict_views(r.conflicts@)),
{
    let sb = Scene::new(base, nums);
    let so = Scene::new(ours, nums);
    let st = Scene::new(theirs, nums);
    let ghost (vb, vo, vt) = (sb.view_of(), so.view_of(), st.view_of());
    proof {
        assert(conflict_views(Seq::<Conflict>::empty()) =~= Seq::<ConflictView>::empty());
    }
    let d = diff_scenes(&sb, &st);
    if d.is_empty() {
        return MergeOutcome { text: ours.to_source(), conflicts: Vec::new() };
    }
    let d = diff_scenes(&sb, &so);
    if d.is_empty() {
        return MergeOutcome { text: theirs.to_source(), conflicts: Vec::new() };
    }
    let d = diff_scenes(&so, &st);
    if d.is_empty() {
        return MergeOutcome { text: ours.to_source(), conflicts: Vec::new() };
    }
    proof {
        lemma_parsed_fits(*ours);
        lemma_parsed_fits(*theirs);
    }
    let al = Alignment::new(&sb, &so, &st);
    let sb = al.scene(&sb, Which::Base);
    let so = al.scene(&so, Which::Ours);
    let st = al.scene(&st, Which::Theirs);
    let ghost (vb, vo, vt) = (sb.view_of(), so.view_of(), st.view_of());
    let all = all_ids(&so, &st, &sb);
    let (plan, conflicts) = plan_all(&all, &sb, &so, &st, &al);
    let ghost pv = plan_views(plan@);
    let mut planned: Vec<EntityId> = Vec::new();
    let mut i: usize = 0;
    while i < plan.len()
        invariant
            i <= plan@.len(),
            pv == plan_views(plan@),
            ids_view(planned@) == plan_ids(pv).take(i as int),
        decreases plan@.len() - i,
    {
        let ghost before = planned@;
        let c = copy_id(&plan[i].0);
        planned.push(c);
        proof {
            assert(ids_view(planned@) =~= ids_view(before).push(c@));
            assert(ids_view(planned@) =~= plan_ids(pv).take(i + 1));
        }
        i += 1;
    }
    proof {
        assert(plan_ids(pv).take(i as int) =~= plan_ids(pv));
    }
    let order = order_entities(&so, &st, &planned);
    proof {
        let pl = plan_ids(pv);
        let start = select(vo.ids, pl, true);
        lemma_select_len(vo.ids, pl, true);
        lemma_weave_len(start, vt.ids, pl, vt.ids.len());
        lemma_sort_by_rank_len(weave(start, vt.ids, pl, vt.ids.len()));
    }
    let fin = assign_ids(&order, &so, &st);
    let text = emit(ours, &order, &plan, &so, &st, &fin, &al, opts);
    let conflicts = sort_conflict_list(conflicts);
    if conflicts.len() == 0 {
        if let Ok(merged) = parse_document(text.as_str()) {
            proof {
                assert(parses_to(text@, merged));
                assert forall|d: Document| parses_to(text@, d) implies doc_findings(d) == doc_findings(merged) by {
                    lemma_findings_of_text(text@, d, merged);
                }
            }
            let stranded = stranded_references(base, &merged);
            return MergeOutcome { text, conflicts: stranded };
        }
    }
    MergeOutcome { text, conflicts }
}

// ---------------------------------------------------------------------------
// What a merge promises as a whole.

/// A branch that changed nothing semantic never disturbs the other branch's
/// bytes: against an unchanged `theirs` the merge is ours, verbatim and
/// clean; against an unchanged `ours` (and a changed `theirs`) it is theirs.
pub proof fn lemma_unchanged_side_preserves_the_other(
    base: Document,
    ours: Document,
    theirs: Document,
    opts: MergeOptions,
    nums: NumberForms,
)
    ensures
        diff_changes(scene_of(base, nums.table()), scene_of(theirs, nums.table())).len() == 0 ==> merge_spec(
            base,
            ours,
            theirs,
            opts,
            nums.table(),
        ) == (doc_text(ours), Seq::<ConflictView>::empty()),
        diff_changes(scene_of(base, nums.table()), scene_of(ours, nums.table())).len() == 0 ==> merge_spec(
            base,
            ours,
            theirs,
            opts,
            nums.table(),
        ).0 == if diff_changes(scene_of(base, nums.table()), scene_of(theirs, nums.table())).len() == 0 {
            doc_text(ours)
        } else {
            doc_text(theirs)
        },
{
}

/// Merging a document with itself, on both sides, gives back its own text,
/// with no conflict.
pub proof fn lemma_self_merge_is_identity(d: Document, opts: MergeOptions, nums: NumberForms)
    ensures
        merge_spec(d, d, d, opts, nums.table()) == (doc_text(d), Seq::<ConflictView>::empty()),
{
    lemma_diff_self(scene_of(d, nums.table()));
}


// ---------------------------------------------------------------------------
// Which branch is called ours does not decide whether an entity conflicts.

proof fn lemma_dedup_contains(s: Seq<Seq<char>>, x: Seq<char>)
    ensures
        dedup(s).contains(x) == s.contains(x),
    decreases s.len(),
{
    if s.len() > 0 {
        let d = s.drop_last();
        lemma_dedup_contains(d, x);
        assert(s =~= d.push(s.last()));
        assert(s.contains(x) == (d.contains(x) || x == s.last())) by {
            if d.contains(x) {
                let k = choose|k: int| 0 <= k < d.len() && d[k] == x;
                assert(s[k] == x);
            }
            if x == s.last() {
                assert(s[s.len() - 1] == x);
            }
            if s.contains(x) && x != s.last() {
                let k = choose|k: int| 0 <= k < s.len() && s[k] == x;
                assert(d[k] == x);
            }
        }
        if !dedup(d).contains(s.last()) {
            let e = dedup(d);
            assert(e.push(s.last()).contains(x) == (e.contains(x) || x == s.last())) by {
                if e.contains(x) {
                    let k = choose|k: int| 0 <= k < e.len() && e[k] == x;
                    assert(e.push(s.last())[k] == x);
                }
                if x == s.last() {
                    assert(e.push(s.last())[e.len() as int] == x);
                }
                if e.push(s.last()).contains(x) && x != s.last() {
                    let k = choose|k: int| 0 <= k < e.len() + 1 && e.push(s.last())[k] == x;
                    assert(e[k] == x);
                }
            }
        }
    }
}

/// Whether the items of two sections of one entity clash on `n`.
pub open spec fn field_clash(
    n: Seq<char>,
    base: Option<Section>,
    o: Section,
    t: Section,
    sb: SceneView,
    so: SceneView,
    st: SceneView,
) -> bool {
    pick_spec(
        o.kind.is_derived_spec(n),
        base_field(base, n, sb),
        canon_field(o, n, so.ext, so.sub, so.nums),
        canon_field(t, n, st.ext, st.sub, st.nums),
    ) is Clash
}

pub open spec fn prop_clash(
    k: Seq<char>,
    base: Option<Section>,
    o: Section,
    t: Section,
    sb: SceneView,
    so: SceneView,
    st: SceneView,
) -> bool {
    pick_spec(
        false,
        base_prop(base, k, sb),
        canon_prop(o, k, so.ext, so.sub, so.nums),
        canon_prop(t, k, st.ext, st.sub, st.nums),
    ) is Clash
}

proof fn lemma_field_clash_found(
    names: Seq<Seq<char>>,
    base: Option<Section>,
    o: Section,
    t: Section,
    sb: SceneView,
    so: SceneView,
    st: SceneView,
)
    ensures
        field_picks(names, base, o, t, sb, so, st) is None <==> exists|i: int|
            0 <= i < names.len() && field_clash(#[trigger] names[i], base, o, t, sb, so, st),
    decreases names.len(),
{
    if names.len() > 0 {
        lemma_field_clash_found(names.drop_last(), base, o, t, sb, so, st);
        if exists|i: int| 0 <= i < names.drop_last().len() && field_clash(#[trigger] names.drop_last()[i], base, o, t, sb, so, st) {
            let i = choose|i: int| 0 <= i < names.drop_last().len() && field_clash(#[trigger] names.drop_last()[i], base, o, t, sb, so, st);
            assert(names[i] == names.drop_last()[i]);
        }
        if exists|i: int| 0 <= i < names.len() && field_clash(#[trigger] names[i], base, o, t, sb, so, st) {
            let i = choose|i: int| 0 <= i < names.len() && field_clash(#[trigger] names[i], base, o, t, sb, so, st);
            if i < names.len() - 1 {
                assert(names.drop_last()[i] == names[i]);
            }
        }
    }
}

proof fn lemma_prop_clash_found(
    keys: Seq<Seq<char>>,
    base: Option<Section>,
    o: Section,
    t: Section,
    sb: SceneView,
    so: SceneView,
    st: SceneView,
)
    ensures
        prop_picks(keys, base, o, t, sb, so, st) is None <==> exists|i: int|
            0 <= i < keys.len() && prop_clash(#[trigger] keys[i], base, o, t, sb, so, st),
    decreases keys.len(),
{
    if keys.len() > 0 {
        lemma_prop_clash_found(keys.drop_last(), base, o, t, sb, so, st);
        if exists|i: int| 0 <= i < keys.drop_last().len() && prop_clash(#[trigger] keys.drop_last()[i], base, o, t, sb, so, st) {
            let i = choose|i: int| 0 <= i < keys.drop_last().len() && prop_clash(#[trigger] keys.drop_last()[i], base, o, t, sb, so, st);
            assert(keys[i] == keys.drop_last()[i]);
        }
        if exists|i: int| 0 <= i < keys.len() && prop_clash(#[trigger] keys[i], base, o, t, sb, so, st) {
            let i = choose|i: int| 0 <= i < keys.len() && prop_clash(#[trigger] keys[i], base, o, t, sb, so, st);
            if i < keys.len() - 1 {
                assert(keys.drop_last()[i] == keys[i]);
            }
        }
    }
}

/// Two section kinds that recompute the same items when written.
pub open spec fn derive_alike(a: SectionKind, b: SectionKind) -> bool {
    forall|n: Seq<char>| #[trigger] a.is_derived_spec(n) == b.is_derived_spec(n)
}

proof fn lemma_clash_set(
    a: Seq<Seq<char>>,
    b: Seq<Seq<char>>,
    fwd: spec_fn(Seq<char>) -> bool,
    rev: spec_fn(Seq<char>) -> bool,
)
    requires
        forall|n: Seq<char>| #[trigger] fwd(n) == rev(n),
    ensures
        (exists|i: int| 0 <= i < dedup(a + b).len() && fwd(#[trigger] dedup(a + b)[i])) == (exists|i: int|
            0 <= i < dedup(b + a).len() && rev(#[trigger] dedup(b + a)[i])),
{
    if exists|i: int| 0 <= i < dedup(a + b).len() && fwd(#[trigger] dedup(a + b)[i]) {
        let i = choose|i: int| 0 <= i < dedup(a + b).len() && fwd(#[trigger] dedup(a + b)[i]);
        let x = dedup(a + b)[i];
        assert(dedup(a + b).contains(x));
        lemma_dedup_contains(a + b, x);
        lemma_dedup_contains(b + a, x);
        let j = choose|j: int| 0 <= j < (a + b).len() && (a + b)[j] == x;
        if j < a.len() {
            assert((b + a)[b.len() + j] == x);
        } else {
            assert((b + a)[j - a.len()] == x);
        }
        assert((b + a).contains(x));
        let k = choose|k: int| 0 <= k < dedup(b + a).len() && dedup(b + a)[k] == x;
        assert(rev(dedup(b + a)[k]));
    }
    if exists|i: int| 0 <= i < dedup(b + a).len() && rev(#[trigger] dedup(b + a)[i]) {
        let i = choose|i: int| 0 <= i < dedup(b + a).len() && rev(#[trigger] dedup(b + a)[i]);
        let x = dedup(b + a)[i];
        assert(dedup(b + a).contains(x));
        lemma_dedup_contains(a + b, x);
        lemma_dedup_contains(b + a, x);
        let j = choose|j: int| 0 <= j < (b + a).len() && (b + a)[j] == x;
        if j < b.len() {
            assert((a + b)[a.len() + j] == x);
        } else {
            assert((a + b)[j - b.len()] == x);
        }
        assert((a + b).contains(x));
        let k = choose|k: int| 0 <= k < dedup(a + b).len() && dedup(a + b)[k] == x;
        assert(fwd(dedup(a + b)[k]));
    }
}

/// Two branches that changed one entity merge item by item, or clash,
/// whichever of them is called ours.
pub proof fn lemma_item_merge_is_side_independent(
    base: Option<Section>,
    o: Section,
    t: Section,
    sb: SceneView,
    so: SceneView,
    st: SceneView,
)
    requires
        derive_alike(o.kind, t.kind),
    ensures
        merge_items_spec(base, o, t, sb, so, st) is None <==> merge_items_spec(base, t, o, sb, st, so) is None,
{
    let (fo, ft) = (field_names(o.fields@), field_names(t.fields@));
    let (ko, kt) = (prop_keys(o.props@), prop_keys(t.props@));
    lemma_field_clash_found(dedup(fo + ft), base, o, t, sb, so, st);
    lemma_field_clash_found(dedup(ft + fo), base, t, o, sb, st, so);
    lemma_prop_clash_found(dedup(ko + kt), base, o, t, sb, so, st);
    lemma_prop_clash_found(dedup(kt + ko), base, t, o, sb, st, so);
    let ff = |n: Seq<char>| field_clash(n, base, o, t, sb, so, st);
    let fr = |n: Seq<char>| field_clash(n, base, t, o, sb, st, so);
    assert forall|n: Seq<char>| #[trigger] ff(n) == fr(n) by {
        assert(o.kind.is_derived_spec(n) == t.kind.is_derived_spec(n));
    }
    lemma_clash_set(fo, ft, ff, fr);
    let pf = |k: Seq<char>| prop_clash(k, base, o, t, sb, so, st);
    let pr = |k: Seq<char>| prop_clash(k, base, t, o, sb, st, so);
    assert forall|k: Seq<char>| #[trigger] pf(k) == pr(k) by {}
    lemma_clash_set(ko, kt, pf, pr);
    assert((exists|i: int| 0 <= i < dedup(fo + ft).len() && field_clash(#[trigger] dedup(fo + ft)[i], base, o, t, sb, so, st))
        == (exists|i: int| 0 <= i < dedup(fo + ft).len() && ff(#[trigger] dedup(fo + ft)[i])));
    assert((exists|i: int| 0 <= i < dedup(ft + fo).len() && field_clash(#[trigger] dedup(ft + fo)[i], base, t, o, sb, st, so))
        == (exists|i: int| 0 <= i < dedup(ft + fo).len() && fr(#[trigger] dedup(ft + fo)[i])));
    assert((exists|i: int| 0 <= i < dedup(ko + kt).len() && prop_clash(#[trigger] dedup(ko + kt)[i], base, o, t, sb, so, st))
        == (exists|i: int| 0 <= i < dedup(ko + kt).len() && pf(#[trigger] dedup(ko + kt)[i])));
    assert((exists|i: int| 0 <= i < dedup(kt + ko).len() && prop_clash(#[trigger] dedup(kt + ko)[i], base, t, o, sb, st, so))
        == (exists|i: int| 0 <= i < dedup(kt + ko).len() && pr(#[trigger] dedup(kt + ko)[i])));
}

/// Whether an entity conflicts does not depend on which branch is called
/// ours: resolving it against the two branches swapped raises a conflict
/// exactly when resolving it as given does.
pub proof fn lemma_conflict_is_side_independent(id: EntityIdView, sb: SceneView, so: SceneView, st: SceneView)
    requires
        section_at(so, id) is Some && section_at(st, id) is Some ==> derive_alike(
            section_at(so, id)->Some_0.kind,
            section_at(st, id)->Some_0.kind,
        ),
    ensures
        resolve(id, sb, so, st).1 is Some <==> resolve(id, sb, st, so).1 is Some,
{
    let (cb, co, ct) = (canon_at(sb, id), canon_at(so, id), canon_at(st, id));
    if co is Some && ct is Some {
        lemma_item_merge_is_side_independent(
            section_at(sb, id),
            section_at(so, id)->Some_0,
            section_at(st, id)->Some_0,
            sb,
            so,
            st,
        );
    }
}

/// The entities of `all` that raise a conflict, in order.
pub open spec fn conflicted(all: Seq<EntityIdView>, sb: SceneView, so: SceneView, st: SceneView) -> Seq<EntityIdView>
    decreases all.len(),
{
    if all.len() == 0 {
        seq![]
    } else if resolve(all.last(), sb, so, st).1 is Some {
        conflicted(all.drop_last(), sb, so, st).push(all.last())
    } else {
        conflicted(all.drop_last(), sb, so, st)
    }
}

proof fn lemma_conflicted(
    all: Seq<EntityIdView>,
    sb: SceneView,
    so: SceneView,
    st: SceneView,
    bt: Table,
    c: Seq<Seq<char>>,
)
    ensures
        plan_of(all, sb, so, st, bt, c).1.len() == conflicted(all, sb, so, st).len(),
        forall|x: EntityIdView|
            conflicted(all, sb, so, st).contains(x) <==> all.contains(x) && resolve(x, sb, so, st).1 is Some,
        all.no_duplicates() ==> conflicted(all, sb, so, st).no_duplicates(),
    decreases all.len(),
{
    if all.len() > 0 {
        let d = all.drop_last();
        let e = all.last();
        lemma_conflicted(d, sb, so, st, bt, c);
        let cd = conflicted(d, sb, so, st);
        assert(all =~= d.push(e));
        assert forall|x: EntityIdView| all.contains(x) <==> d.contains(x) || x == e by {
            if d.contains(x) {
                let k = choose|k: int| 0 <= k < d.len() && d[k] == x;
                assert(all[k] == x);
            }
            if x == e {
                assert(all[all.len() - 1] == x);
            }
            if all.contains(x) && x != e {
                let k = choose|k: int| 0 <= k < all.len() && all[k] == x;
                assert(d[k] == x);
            }
        }
        if resolve(e, sb, so, st).1 is Some {
            assert forall|x: EntityIdView| cd.push(e).contains(x) <==> cd.contains(x) || x == e by {
                if cd.contains(x) {
                    let k = choose|k: int| 0 <= k < cd.len() && cd[k] == x;
                    assert(cd.push(e)[k] == x);
                }
                if x == e {
                    assert(cd.push(e)[cd.len() as int] == x);
                }
                if cd.push(e).contains(x) && x != e {
                    let k = choose|k: int| 0 <= k < cd.len() + 1 && cd.push(e)[k] == x;
                    assert(cd[k] == x);
                }
            }
            if all.no_duplicates() {
                assert(!d.contains(e)) by {
                    if d.contains(e) {
                        let k = choose|k: int| 0 <= k < d.len() && d[k] == e;
                        assert(all[k] == all[all.len() - 1]);
                    }
                }
                assert(d.no_duplicates()) by {
                    assert forall|i: int, j: int| 0 <= i < d.len() && 0 <= j < d.len() && i != j implies d[i] != d[j] by {
                        assert(all[i] == d[i] && all[j] == d[j]);
                    }
                }
                assert(cd.push(e).no_duplicates()) by {
                    assert forall|i: int, j: int|
                        0 <= i < cd.push(e).len() && 0 <= j < cd.push(e).len() && i != j implies cd.push(e)[i]
                        != cd.push(e)[j] by {
                        if i < cd.len() && j < cd.len() {
                        } else if i < cd.len() {
                            assert(cd.contains(cd[i]));
                        } else {
                            assert(cd.contains(cd[j]));
                        }
                    }
                }
            }
        } else if all.no_duplicates() {
            assert(d.no_duplicates()) by {
                assert forall|i: int, j: int| 0 <= i < d.len() && 0 <= j < d.len() && i != j implies d[i] != d[j] by {
                    assert(all[i] == d[i] && all[j] == d[j]);
                }
            }
        }
    }
}

/// However many entities conflict does not depend on which branch is
/// called ours: planning the same entities, in any order, against the two
/// branches swapped raises as many conflicts.
pub proof fn lemma_conflict_count_is_side_independent(
    all: Seq<EntityIdView>,
    swapped: Seq<EntityIdView>,
    sb: SceneView,
    so: SceneView,
    st: SceneView,
    bt: Table,
    contested: Seq<Seq<char>>,
)
    requires
        all.no_duplicates(),
        swapped.no_duplicates(),
        all.to_set() == swapped.to_set(),
        forall|id: EntityIdView|
            section_at(so, id) is Some && section_at(st, id) is Some ==> derive_alike(
                (#[trigger] section_at(so, id))->Some_0.kind,
                section_at(st, id)->Some_0.kind,
            ),
    ensures
        plan_of(all, sb, so, st, bt, contested).1.len() == plan_of(swapped, sb, st, so, bt, contested).1.len(),
{
    lemma_conflicted(all, sb, so, st, bt, contested);
    lemma_conflicted(swapped, sb, st, so, bt, contested);
    let (f, r) = (conflicted(all, sb, so, st), conflicted(swapped, sb, st, so));
    assert forall|x: EntityIdView| f.to_set().contains(x) <==> r.to_set().contains(x) by {
        if section_at(so, x) is Some && section_at(st, x) is Some {
            assert(derive_alike(section_at(so, x)->Some_0.kind, section_at(st, x)->Some_0.kind));
        }
        lemma_conflict_is_side_independent(x, sb, so, st);
        assert(all.to_set().contains(x) == all.contains(x));
        assert(swapped.to_set().contains(x) == swapped.contains(x));
        assert(all.to_set().contains(x) == swapped.to_set().contains(x));
        assert(f.to_set().contains(x) == f.contains(x));
        assert(r.to_set().contains(x) == r.contains(x));
    }
    assert(f.to_set() =~= r.to_set());
    f.unique_seq_to_set();
    r.unique_seq_to_set();
}

// ---------------------------------------------------------------------------
// No two resources of the merged file share an id.

proof fn lemma_candidate_injective(stem: Seq<char>, n: nat, m: nat)
    requires
        candidate(stem, n) == candidate(stem, m),
    ensures
        n == m,
{
    let p = stem + "_gdm"@;
    assert(candidate(stem, n).skip(p.len() as int) =~= decimal(n));
    assert(candidate(stem, m).skip(p.len() as int) =~= decimal(m));
    lemma_decimal_injective(n, m);
}

proof fn lemma_mint_search(stem: Seq<char>, used: Seq<Seq<char>>, k: nat)
    ensures
        mint_search(stem, used, k) >= k,
        mint_search(stem, used, k) < used.len() ==> !used.contains(
            candidate(stem, mint_search(stem, used, k)),
        ),
        mint_search(stem, used, k) >= used.len() ==> mint_search(stem, used, k) == if k >= used.len() {
            k
        } else {
            used.len()
        },
        mint_search(stem, used, k) >= used.len() ==> forall|j: nat|
            k <= j < used.len() ==> used.contains(#[trigger] candidate(stem, j)),
    decreases used.len() - k,
{
    if k < used.len() && used.contains(candidate(stem, k)) {
        lemma_mint_search(stem, used, k + 1);
        assert forall|j: nat| k <= j < used.len() && mint_search(stem, used, k) >= used.len()
            implies used.contains(#[trigger] candidate(stem, j)) by {
            if j > k {
                assert(k + 1 <= j);
            }
        }
    }
}

/// A minted id is not among those already used.
proof fn lemma_mint_fresh(stem: Seq<char>, used: Seq<Seq<char>>)
    ensures
        !used.contains(candidate(stem, mint_search(stem, used, 0))),
{
    broadcast use vstd::seq_lib::group_seq_properties, vstd::set::group_set_axioms, vstd::seq_lib::seq_to_set_is_finite;
    lemma_mint_search(stem, used, 0);
    let n = mint_search(stem, used, 0);
    if n >= used.len() {
        let c = Seq::new(used.len(), |j: int| candidate(stem, j as nat));
        assert(c.no_duplicates()) by {
            assert forall|i: int, j: int| 0 <= i < c.len() && 0 <= j < c.len() && i != j implies c[i] != c[j] by {
                if c[i] == c[j] {
                    lemma_candidate_injective(stem, i as nat, j as nat);
                }
            }
        }
        c.unique_seq_to_set();
        used.lemma_cardinality_of_set();
        assert(c.to_set().subset_of(used.to_set())) by {
            assert forall|x: Seq<char>| c.to_set().contains(x) implies used.to_set().contains(x) by {
                assert(c.contains(x));
                let j = choose|j: int| 0 <= j < c.len() && c[j] == x;
                assert(used.contains(candidate(stem, j as nat)));
            }
        }
        vstd::set_lib::lemma_len_subset(c.to_set(), used.to_set());
        vstd::set_lib::lemma_subset_equality(c.to_set(), used.to_set());
        if used.contains(candidate(stem, n)) {
            assert(used.to_set().contains(candidate(stem, n)));
            assert(c.to_set().contains(candidate(stem, n)));
            assert(c.contains(candidate(stem, n)));
            let j = choose|j: int| 0 <= j < c.len() && c[j] == candidate(stem, n);
            lemma_candidate_injective(stem, n, j as nat);
        }
    }
}

/// The ids given out so far, in order.
pub open spec fn fin_values(fin: Seq<(EntityIdView, Seq<char>)>) -> Seq<Seq<char>> {
    Seq::new(fin.len(), |i: int| fin[i].1)
}

proof fn lemma_push_fresh(s: Seq<Seq<char>>, x: Seq<char>)
    requires
        s.no_duplicates(),
        !s.contains(x),
    ensures
        s.push(x).no_duplicates(),
{
    assert forall|i: int, j: int| 0 <= i < s.push(x).len() && 0 <= j < s.push(x).len() && i != j implies s.push(x)[i]
        != s.push(x)[j] by {
        if i < s.len() && j == s.len() {
            assert(s.contains(s[i]));
        } else if j < s.len() && i == s.len() {
            assert(s.contains(s[j]));
        }
    }
}

proof fn lemma_assign_one_fresh(
    id: EntityIdView,
    position: nat,
    so: SceneView,
    st: SceneView,
    used: Seq<Seq<char>>,
    fin: Seq<(EntityIdView, Seq<char>)>,
)
    requires
        used == fin_values(fin),
        used.no_duplicates(),
    ensures
        assign_one(id, position, so, st, used, fin).0 == fin_values(assign_one(id, position, so, st, used, fin).1),
        assign_one(id, position, so, st, used, fin).0.no_duplicates(),
{
    if let Some(sec) = owner_section(id, so, st) {
        let preferred = str_or(field_str_spec(sec, "id"@), seq![]);
        if preferred.len() > 0 && !used.contains(preferred) {
            lemma_push_fresh(used, preferred);
            assert(fin_values(fin.push((id, preferred))) =~= used.push(preferred));
        } else {
            let stem = if id is Sub {
                str_or(field_str_spec(sec, "type"@), "SubResource"@)
            } else {
                decimal(position + 1)
            };
            let c = candidate(stem, mint_search(stem, used, 0));
            lemma_mint_fresh(stem, used);
            lemma_push_fresh(used, c);
            assert(fin_values(fin.push((id, c))) =~= used.push(c));
        }
    }
}

proof fn lemma_assign_pass_fresh(
    res: Seq<EntityIdView>,
    k: nat,
    ours_first: bool,
    so: SceneView,
    st: SceneView,
    used: Seq<Seq<char>>,
    fin: Seq<(EntityIdView, Seq<char>)>,
)
    requires
        k <= res.len(),
        used == fin_values(fin),
        used.no_duplicates(),
    ensures
        assign_pass(res, k, ours_first, so, st, used, fin).0 == fin_values(
            assign_pass(res, k, ours_first, so, st, used, fin).1,
        ),
        assign_pass(res, k, ours_first, so, st, used, fin).0.no_duplicates(),
    decreases k,
{
    if k > 0 {
        lemma_assign_pass_fresh(res, (k - 1) as nat, ours_first, so, st, used, fin);
        let (u, f) = assign_pass(res, (k - 1) as nat, ours_first, so, st, used, fin);
        lemma_assign_one_fresh(res[k - 1], (k - 1) as nat, so, st, u, f);
    }
}

/// No two resources of the merged file are given the same id: ours keep
/// theirs, and one arriving from their side is renamed when its id is taken.
pub proof fn lemma_merged_resource_ids_are_distinct(order: Seq<EntityIdView>, so: SceneView, st: SceneView)
    ensures
        fin_values(assign_spec(order, so, st)).no_duplicates(),
{
    let res = resources(order);
    let e0 = Seq::<(EntityIdView, Seq<char>)>::empty();
    assert(fin_values(e0) =~= Seq::<Seq<char>>::empty());
    lemma_assign_pass_fresh(res, res.len(), true, so, st, seq![], e0);
    let (u1, f1) = assign_pass(res, res.len(), true, so, st, seq![], e0);
    lemma_assign_pass_fresh(res, res.len(), false, so, st, u1, f1);
}

/// The id our file gives the resource `x`.
pub open spec fn own_id(so: SceneView, x: EntityIdView) -> Seq<char> {
    str_or(field_str_spec(section_at(so, x)->0, "id"@), seq![])
}

/// `x` is one of our file's entities.
pub open spec fn ours_has(so: SceneView, x: EntityIdView) -> bool {
    section_at(so, x) is Some
}

/// The ids our file gives its resources among the first `k` of `res`.
pub open spec fn ours_ids(res: Seq<EntityIdView>, k: nat, so: SceneView) -> Seq<Seq<char>>
    decreases k,
{
    if k == 0 {
        seq![]
    } else {
        ours_ids(res, (k - 1) as nat, so) + if ours_has(so, res[k - 1]) {
            seq![own_id(so, res[k - 1])]
        } else {
            seq![]
        }
    }
}

proof fn lemma_ours_ids_from(res: Seq<EntityIdView>, k: nat, so: SceneView, v: Seq<char>)
    requires
        k <= res.len(),
        ours_ids(res, k, so).contains(v),
    ensures
        exists|j: int| 0 <= j < k && ours_has(so, res[j]) && own_id(so, #[trigger] res[j]) == v,
    decreases k,
{
    let prev = ours_ids(res, (k - 1) as nat, so);
    if prev.contains(v) {
        lemma_ours_ids_from(res, (k - 1) as nat, so, v);
        let j = choose|j: int| 0 <= j < k - 1 && ours_has(so, res[j]) && own_id(so, #[trigger] res[j]) == v;
        assert(0 <= j < k && ours_has(so, res[j]) && own_id(so, res[j]) == v);
    } else {
        let m = choose|m: int| 0 <= m < ours_ids(res, k, so).len() && ours_ids(res, k, so)[m] == v;
        assert(m >= prev.len());
        assert(ours_has(so, res[k - 1]) && own_id(so, res[k - 1]) == v);
    }
}

proof fn lemma_ours_pass(res: Seq<EntityIdView>, k: nat, so: SceneView, st: SceneView)
    requires
        k <= res.len(),
        res.no_duplicates(),
        forall|i: int, j: int|
            0 <= i < j < res.len() && ours_has(so, res[i]) && ours_has(so, res[j]) ==> own_id(so, #[trigger] res[i])
                != own_id(so, #[trigger] res[j]),
        forall|i: int| 0 <= i < res.len() && ours_has(so, #[trigger] res[i]) ==> own_id(so, res[i]).len() > 0,
    ensures
        assign_pass(res, k, true, so, st, seq![], seq![]).0 == ours_ids(res, k, so),
        forall|j: int|
            0 <= j < k && ours_has(so, #[trigger] res[j]) ==> final_get(
                assign_pass(res, k, true, so, st, seq![], seq![]).1,
                res[j],
            ) == Some(own_id(so, res[j])),
        forall|j: int|
            k <= j < res.len() ==> final_get(assign_pass(res, k, true, so, st, seq![], seq![]).1, #[trigger] res[j]) is None,
    decreases k,
{
    if k > 0 {
        lemma_ours_pass(res, (k - 1) as nat, so, st);
        let (u, f) = assign_pass(res, (k - 1) as nat, true, so, st, seq![], seq![]);
        let id = res[k - 1];
        if ours_has(so, id) {
            let p = own_id(so, id);
            assert(owner_section(id, so, st) == section_at(so, id));
            assert(!u.contains(p)) by {
                if u.contains(p) {
                    lemma_ours_ids_from(res, (k - 1) as nat, so, p);
                    let j = choose|j: int| 0 <= j < k - 1 && ours_has(so, res[j]) && own_id(so, #[trigger] res[j]) == p;
                    assert(own_id(so, res[j]) != own_id(so, res[k - 1]));
                }
            }
            let (u2, f2) = assign_pass(res, k, true, so, st, seq![], seq![]);
            assert(u2 == u.push(p) && f2 == f.push((id, p)));
            assert(u2 =~= ours_ids(res, k, so));
            assert(f2.drop_last() =~= f);
            assert(f2.last() == (id, p));
            assert forall|j: int| 0 <= j < k && ours_has(so, #[trigger] res[j]) implies final_get(f2, res[j]) == Some(
                own_id(so, res[j]),
            ) by {
                if j < k - 1 {
                    assert(res[j] != res[k - 1]);
                }
            }
            assert forall|j: int| k <= j < res.len() implies final_get(f2, #[trigger] res[j]) is None by {
                assert(res[j] != res[k - 1]);
            }
        } else {
            assert(assign_pass(res, k, true, so, st, seq![], seq![]) == (u, f));
            assert(u =~= ours_ids(res, k, so));
        }
    }
}

proof fn lemma_theirs_pass_keeps_ours(
    res: Seq<EntityIdView>,
    k: nat,
    so: SceneView,
    st: SceneView,
    used: Seq<Seq<char>>,
    fin: Seq<(EntityIdView, Seq<char>)>,
    x: EntityIdView,
)
    requires
        k <= res.len(),
        ours_has(so, x),
    ensures
        final_get(assign_pass(res, k, false, so, st, used, fin).1, x) == final_get(fin, x),
    decreases k,
{
    if k > 0 {
        lemma_theirs_pass_keeps_ours(res, (k - 1) as nat, so, st, used, fin, x);
        let (u, f) = assign_pass(res, (k - 1) as nat, false, so, st, used, fin);
        let id = res[k - 1];
        if !ours_has(so, id) {
            assert(id != x);
            let (u2, f2) = assign_one(id, (k - 1) as nat, so, st, u, f);
            if f2 != f {
                assert(f2.drop_last() =~= f);
                assert(f2.last().0 == id);
            }
        }
    }
}

/// Merging never renumbers a resource our file already had: where our
/// resources have ids, no two alike, each keeps its own id in the merged
/// file; only resources arriving from their side are renamed.
pub proof fn lemma_ours_keep_their_ids(order: Seq<EntityIdView>, so: SceneView, st: SceneView, x: EntityIdView)
    requires
        resources(order).no_duplicates(),
        forall|i: int, j: int|
            0 <= i < j < resources(order).len() && ours_has(so, resources(order)[i]) && ours_has(
                so,
                resources(order)[j],
            ) ==> own_id(so, #[trigger] resources(order)[i]) != own_id(so, #[trigger] resources(order)[j]),
        forall|i: int|
            0 <= i < resources(order).len() && ours_has(so, #[trigger] resources(order)[i]) ==> own_id(
                so,
                resources(order)[i],
            ).len() > 0,
        resources(order).contains(x),
        ours_has(so, x),
    ensures
        final_get(assign_spec(order, so, st), x) == Some(own_id(so, x)),
{
    let res = resources(order);
    lemma_ours_pass(res, res.len(), so, st);
    let (u1, f1) = assign_pass(res, res.len(), true, so, st, seq![], seq![]);
    let j = choose|j: int| 0 <= j < res.len() && res[j] == x;
    assert(final_get(f1, res[j]) == Some(own_id(so, res[j])));
    lemma_theirs_pass_keeps_ours(res, res.len(), so, st, u1, f1, x);
}

/// The version of one item a choice keeps: ours, theirs, or none (the item
/// is left out); `None` for a clash, which keeps no single version.
pub open spec fn kept_item(p: Pick, o: Option<Seq<char>>, t: Option<Seq<char>>) -> Option<Option<Seq<char>>> {
    match p {
        Pick::Side(Side::Ours) => Some(o),
        Pick::Side(Side::Theirs) => Some(t),
        Pick::Drop => Some(None),
        Pick::Clash => None,
    }
}

/// The three-way rule for one item (`None` standing for an item a side does
/// not have): a branch that left the item as the base had it takes the other
/// branch's version, present or deleted; two branches that agree give what
/// they agree on; only three different versions clash. A side is only ever
/// taken where it has the item.
pub proof fn lemma_pick_is_three_way(b: Option<Seq<char>>, o: Option<Seq<char>>, t: Option<Seq<char>>)
    ensures
        (pick_spec(false, b, o, t) is Clash) <==> (o != t && b != o && b != t),
        b == o ==> kept_item(pick_spec(false, b, o, t), o, t) == Some(t),
        b == t ==> kept_item(pick_spec(false, b, o, t), o, t) == Some(o),
        o == t ==> kept_item(pick_spec(false, b, o, t), o, t) == Some(o),
        pick_spec(false, b, o, t) == Pick::Side(Side::Ours) ==> o is Some,
        pick_spec(false, b, o, t) == Pick::Side(Side::Theirs) ==> t is Some,
{
}

/// A derived item follows whichever side still has it, ours first, and is
/// left out only where neither has it.
pub proof fn lemma_derived_pick_follows_presence(b: Option<Seq<char>>, o: Option<Seq<char>>, t: Option<Seq<char>>)
    ensures
        kept_item(pick_spec(true, b, o, t), o, t) == Some(
            if o is Some {
                o
            } else {
                t
            },
        ),
{
}

/// The canonical text of the entity a resolution keeps: absent where the
/// entity is left out, ours or theirs where one side is taken whole; `None`
/// where the entity is rebuilt item by item or conflicts.
pub open spec fn kept_entity(r: Option<ResView>, co: Option<Seq<char>>, ct: Option<Seq<char>>) -> Option<
    Option<Seq<char>>,
> {
    match r {
        None => Some(None),
        Some(ResView::Take(Side::Ours)) => Some(co),
        Some(ResView::Take(Side::Theirs)) => Some(ct),
        _ => None,
    }
}

/// The three-way rule for whole entities: an entity one branch left as the
/// base had it (absent included) becomes what the other branch made of it,
/// kept, changed or deleted, with no conflict; two branches that agree give
/// what they agree on; an entity one branch deleted and the other changed is
/// a conflict.
pub proof fn lemma_entity_is_three_way(id: EntityIdView, sb: SceneView, so: SceneView, st: SceneView)
    ensures
        ({
            let (cb, co, ct) = (canon_at(sb, id), canon_at(so, id), canon_at(st, id));
            let (r, k) = resolve(id, sb, so, st);
            &&& cb == co ==> k is None && kept_entity(r, co, ct) == Some(ct)
            &&& cb == ct ==> k is None && kept_entity(r, co, ct) == Some(co)
            &&& co == ct ==> k is None && kept_entity(r, co, ct) == Some(co)
            &&& (cb is Some && co is Some && co != cb && ct is None) ==> k is Some && r == Some(ResView::Conflict)
            &&& (cb is Some && ct is Some && ct != cb && co is None) ==> k is Some && r == Some(ResView::Conflict)
        }),
{
}

/// Every path the merged file's walk misses, where the common ancestor's
/// walk did not miss the same path at the same place, is reported as a
/// stranded reference, naming the place, the path and what it points at.
pub proof fn lemma_new_misses_are_stranded(
    base: Seq<(ReferenceView, ResolutionView)>,
    merged: Seq<(ReferenceView, ResolutionView)>,
    k: int,
    target: Seq<char>,
)
    requires
        0 <= k < merged.len(),
        merged[k].1 == ResolutionView::Missing(target),
        forall|j: int|
            0 <= j < base.len() ==> !((#[trigger] base[j]).0.site == merged[k].0.site && base[j].0.path
                == merged[k].0.path && base[j].1 is Missing),
    ensures
        stranded(base, merged).contains(stranded_view(merged[k].0, target)),
    decreases merged.len(),
{
    let d = merged.drop_last();
    let rest = stranded(base, d);
    if k < merged.len() - 1 {
        assert(d[k] == merged[k]);
        lemma_new_misses_are_stranded(base, d, k, target);
        let i = choose|i: int| 0 <= i < rest.len() && rest[i] == stranded_view(merged[k].0, target);
        assert(stranded(base, merged) == rest || stranded(base, merged) == rest.push(
            stranded_view(merged.last().0, merged.last().1->Missing_0),
        ));
        assert(stranded(base, merged)[i] == rest[i]);
    } else {
        assert(merged.last() == merged[k]);
        assert(!already_missing(base, merged[k].0));
        let out = rest.push(stranded_view(merged[k].0, target));
        assert(stranded(base, merged) == out);
        assert(out[rest.len() as int] == stranded_view(merged[k].0, target));
    }
}

/// Nothing else is reported: each stranded reference is a miss of the merged
/// file's walk that the common ancestor's walk did not already have.
pub proof fn lemma_stranded_are_only_new_misses(
    base: Seq<(ReferenceView, ResolutionView)>,
    merged: Seq<(ReferenceView, ResolutionView)>,
    i: int,
)
    requires
        0 <= i < stranded(base, merged).len(),
    ensures
        exists|k: int|
            0 <= k < merged.len() && (#[trigger] merged[k]).1 is Missing && stranded(base, merged)[i] == stranded_view(
                merged[k].0,
                merged[k].1->Missing_0,
            ) && forall|j: int|
                0 <= j < base.len() ==> !((#[trigger] base[j]).0.site == merged[k].0.site && base[j].0.path
                    == merged[k].0.path && base[j].1 is Missing),
    decreases merged.len(),
{
    let d = merged.drop_last();
    let rest = stranded(base, d);
    if i < rest.len() {
        assert(stranded(base, merged) == rest || stranded(base, merged) == rest.push(
            stranded_view(merged.last().0, merged.last().1->Missing_0),
        ));
        assert(stranded(base, merged)[i] == rest[i]);
        lemma_stranded_are_only_new_misses(base, d, i);
        let k = choose|k: int|
            0 <= k < d.len() && (#[trigger] d[k]).1 is Missing && rest[i] == stranded_view(d[k].0, d[k].1->Missing_0)
                && forall|j: int|
                0 <= j < base.len() ==> !((#[trigger] base[j]).0.site == d[k].0.site && base[j].0.path == d[k].0.path
                    && base[j].1 is Missing);
        assert(merged[k] == d[k]);
    } else {
        let k = merged.len() - 1;
        assert(merged.last() == merged[k]);
        assert(merged[k].1 is Missing && !already_missing(base, merged[k].0));
        assert forall|j: int| 0 <= j < base.len() implies !((#[trigger] base[j]).0.site == merged[k].0.site
            && base[j].0.path == merged[k].0.path && base[j].1 is Missing) by {
            if base[j].0.site == merged[k].0.site && base[j].0.path == merged[k].0.path && base[j].1 is Missing {
                assert(already_missing(base, merged[k].0));
            }
        }
    }
}

/// The item-wise choice for the property `k` of an entity both branches changed.
pub open spec fn pchoice(base: Option<Section>, o: Section, t: Section, sb: SceneView, so: SceneView, st: SceneView, k: Seq<char>) -> Pick {
    pick_spec(false, base_prop(base, k, sb), canon_prop(o, k, so.ext, so.sub, so.nums), canon_prop(t, k, st.ext, st.sub, st.nums))
}

/// The item-wise choice for the header field `n` of an entity both branches changed.
pub open spec fn fchoice(base: Option<Section>, o: Section, t: Section, sb: SceneView, so: SceneView, st: SceneView, n: Seq<char>) -> Pick {
    pick_spec(
        o.kind.is_derived_spec(n),
        base_field(base, n, sb),
        canon_field(o, n, so.ext, so.sub, so.nums),
        canon_field(t, n, st.ext, st.sub, st.nums),
    )
}

/// Merging the properties of an entity both branches changed goes item by item:
/// it fails exactly when some item clashes, and otherwise the merged entity
/// holds an item exactly when the item-wise choice keeps a version of it,
/// taken from the side chosen.
pub proof fn lemma_prop_picks_follow_items(
    keys: Seq<Seq<char>>,
    base: Option<Section>,
    o: Section,
    t: Section,
    sb: SceneView,
    so: SceneView,
    st: SceneView,
)
    ensures
        (prop_picks(keys, base, o, t, sb, so, st) is None) <==> exists|i: int|
            0 <= i < keys.len() && (#[trigger] pchoice(base, o, t, sb, so, st, keys[i])) is Clash,
        prop_picks(keys, base, o, t, sb, so, st) matches Some(acc) ==> {
            &&& forall|i: int|
                0 <= i < keys.len() ==> ((exists|j: int| 0 <= j < acc.len() && (#[trigger] acc[j]).0 == keys[i])
                    <==> (#[trigger] pchoice(base, o, t, sb, so, st, keys[i])) is Side)
            &&& forall|j: int|
                0 <= j < acc.len() ==> keys.contains((#[trigger] acc[j]).0) && pchoice(base, o, t, sb, so, st, acc[j].0)
                    == Pick::Side(acc[j].1)
        },
    decreases keys.len(),
{
    if keys.len() > 0 {
        let d = keys.drop_last();
        lemma_prop_picks_follow_items(d, base, o, t, sb, so, st);
        let k = keys.last();
        assert(keys[keys.len() - 1] == k);
        assert forall|i: int| 0 <= i < d.len() implies #[trigger] d[i] == keys[i] by {}
        match prop_picks(d, base, o, t, sb, so, st) {
            None => {
                let i = choose|i: int| 0 <= i < d.len() && (#[trigger] pchoice(base, o, t, sb, so, st, d[i])) is Clash;
                assert(pchoice(base, o, t, sb, so, st, keys[i]) is Clash);
            },
            Some(acc0) => {
                if pchoice(base, o, t, sb, so, st, k) is Clash {
                } else {
                    assert(forall|i: int| 0 <= i < d.len() ==> !((#[trigger] pchoice(base, o, t, sb, so, st, d[i])) is Clash));
                    assert forall|i: int| 0 <= i < keys.len() implies !((#[trigger] pchoice(base, o, t, sb, so, st, keys[i])) is Clash) by {
                        if i < d.len() {
                            assert(d[i] == keys[i]);
                        }
                    }
                    let acc = prop_picks(keys, base, o, t, sb, so, st)->Some_0;
                    assert(acc == if pchoice(base, o, t, sb, so, st, k) is Side {
                        acc0.push((k, pchoice(base, o, t, sb, so, st, k)->Side_0))
                    } else {
                        acc0
                    });
                    assert forall|i: int| 0 <= i < keys.len() implies ((exists|j: int|
                        0 <= j < acc.len() && (#[trigger] acc[j]).0 == keys[i]) <==> (#[trigger] pchoice(base, o, t, sb, so, st, keys[i])) is Side) by {
                        if pchoice(base, o, t, sb, so, st, keys[i]) is Side {
                            if i < d.len() {
                                assert(d[i] == keys[i]);
                                let j = choose|j: int| 0 <= j < acc0.len() && (#[trigger] acc0[j]).0 == d[i];
                                assert(acc[j] == acc0[j]);
                            } else if keys[i] == k {
                                assert(acc[acc0.len() as int].0 == keys[i]);
                            }
                        } else {
                            if exists|j: int| 0 <= j < acc.len() && (#[trigger] acc[j]).0 == keys[i] {
                                let j = choose|j: int| 0 <= j < acc.len() && (#[trigger] acc[j]).0 == keys[i];
                                if j < acc0.len() {
                                    assert(acc[j] == acc0[j]);
                                    assert(pchoice(base, o, t, sb, so, st, acc0[j].0) == Pick::Side(acc0[j].1));
                                } else {
                                    assert(acc[j].0 == k);
                                }
                            }
                        }
                    }
                    assert forall|j: int| 0 <= j < acc.len() implies keys.contains((#[trigger] acc[j]).0) && pchoice(base, o, t, sb, so, st, acc[j].0)
                        == Pick::Side(acc[j].1) by {
                        if j < acc0.len() {
                            assert(acc[j] == acc0[j]);
                            let i = choose|i: int| 0 <= i < d.len() && d[i] == acc0[j].0;
                            assert(keys[i] == d[i]);
                        } else {
                            assert(acc[j] == (k, pchoice(base, o, t, sb, so, st, k)->Side_0));
                        }
                    }
                }
            },
        }
    }
}

/// Merging the header fields of an entity both branches changed goes item by item:
/// it fails exactly when some item clashes, and otherwise the merged entity
/// holds an item exactly when the item-wise choice keeps a version of it,
/// taken from the side chosen.
pub proof fn lemma_field_picks_follow_items(
    keys: Seq<Seq<char>>,
    base: Option<Section>,
    o: Section,
    t: Section,
    sb: SceneView,
    so: SceneView,
    st: SceneView,
)
    ensures
        (field_picks(keys, base, o, t, sb, so, st) is None) <==> exists|i: int|
            0 <= i < keys.len() && (#[trigger] fchoice(base, o, t, sb, so, st, keys[i])) is Clash,
        field_picks(keys, base, o, t, sb, so, st) matches Some(acc) ==> {
            &&& forall|i: int|
                0 <= i < keys.len() ==> ((exists|j: int| 0 <= j < acc.len() && (#[trigger] acc[j]).0 == keys[i])
                    <==> (#[trigger] fchoice(base, o, t, sb, so, st, keys[i])) is Side)
            &&& forall|j: int|
                0 <= j < acc.len() ==> keys.contains((#[trigger] acc[j]).0) && fchoice(base, o, t, sb, so, st, acc[j].0)
                    == Pick::Side(acc[j].1)
        },
    decreases keys.len(),
{
    if keys.len() > 0 {
        let d = keys.drop_last();
        lemma_field_picks_follow_items(d, base, o, t, sb, so, st);
        let k = keys.last();
        assert(keys[keys.len() - 1] == k);
        assert forall|i: int| 0 <= i < d.len() implies #[trigger] d[i] == keys[i] by {}
        match field_picks(d, base, o, t, sb, so, st) {
            None => {
                let i = choose|i: int| 0 <= i < d.len() && (#[trigger] fchoice(base, o, t, sb, so, st, d[i])) is Clash;
                assert(fchoice(base, o, t, sb, so, st, keys[i]) is Clash);
            },
            Some(acc0) => {
                if fchoice(base, o, t, sb, so, st, k) is Clash {
                } else {
                    assert(forall|i: int| 0 <= i < d.len() ==> !((#[trigger] fchoice(base, o, t, sb, so, st, d[i])) is Clash));
                    assert forall|i: int| 0 <= i < keys.len() implies !((#[trigger] fchoice(base, o, t, sb, so, st, keys[i])) is Clash) by {
                        if i < d.len() {
                            assert(d[i] == keys[i]);
                        }
                    }
                    let acc = field_picks(keys, base, o, t, sb, so, st)->Some_0;
                    assert(acc == if fchoice(base, o, t, sb, so, st, k) is Side {
                        acc0.push((k, fchoice(base, o, t, sb, so, st, k)->Side_0))
                    } else {
                        acc0
                    });
                    assert forall|i: int| 0 <= i < keys.len() implies ((exists|j: int|
                        0 <= j < acc.len() && (#[trigger] acc[j]).0 == keys[i]) <==> (#[trigger] fchoice(base, o, t, sb, so, st, keys[i])) is Side) by {
                        if fchoice(base, o, t, sb, so, st, keys[i]) is Side {
                            if i < d.len() {
                                assert(d[i] == keys[i]);
                                let j = choose|j: int| 0 <= j < acc0.len() && (#[trigger] acc0[j]).0 == d[i];
                                assert(acc[j] == acc0[j]);
                            } else if keys[i] == k {
                                assert(acc[acc0.len() as int].0 == keys[i]);
                            }
                        } else {
                            if exists|j: int| 0 <= j < acc.len() && (#[trigger] acc[j]).0 == keys[i] {
                                let j = choose|j: int| 0 <= j < acc.len() && (#[trigger] acc[j]).0 == keys[i];
                                if j < acc0.len() {
                                    assert(acc[j] == acc0[j]);
                                    assert(fchoice(base, o, t, sb, so, st, acc0[j].0) == Pick::Side(acc0[j].1));
                                } else {
                                    assert(acc[j].0 == k);
                                }
                            }
                        }
                    }
                    assert forall|j: int| 0 <= j < acc.len() implies keys.contains((#[trigger] acc[j]).0) && fchoice(base, o, t, sb, so, st, acc[j].0)
                        == Pick::Side(acc[j].1) by {
                        if j < acc0.len() {
                            assert(acc[j] == acc0[j]);
                            let i = choose|i: int| 0 <= i < d.len() && d[i] == acc0[j].0;
                            assert(keys[i] == d[i]);
                        } else {
                            assert(acc[j] == (k, fchoice(base, o, t, sb, so, st, k)->Side_0));
                        }
                    }
                }
            },
        }
    }
}

} // verus!
