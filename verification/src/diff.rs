//! The shape of a semantic difference between two documents.
use vstd::prelude::*;

use crate::nodepath::{lemma_lex_irreflexive, lex_less, lex_lt};
use crate::canon::NumberForms;
use crate::doc::{field_index, prop_index, Document, Field, Property, Section};
use crate::scene::{
    canon_field, canon_prop, copy_id, field_derefs, first_index, ids_view, lemma_first_index,
    same_id, sort_kept, sorted_fields, str_or, EntityId, EntityIdView, Scene, SceneView,
    describe_in, describe_view, rank_view, scene_of,
};
use crate::text::push_str;
use crate::text::str_eq;

verus! {

/// A single header field or property that differs.
#[derive(Debug, PartialEq, Eq)]
pub struct PropertyChange {
    pub key: String,
    /// Source text of the old value; `None` when the key was added.
    pub before: Option<String>,
    /// Source text of the new value; `None` when the key was removed.
    pub after: Option<String>,
}

#[derive(Debug, PartialEq, Eq)]
pub enum Change {
    Added { entity: String, id: EntityId },
    Removed { entity: String, id: EntityId },
    /// A node that kept its contents but changed name and/or parent.
    Moved { from: String, to: String, id: EntityId },
    Modified { entity: String, fields: Vec<PropertyChange>, properties: Vec<PropertyChange>, id: EntityId },
    /// Same entity, different position among its siblings.
    Reordered { entity: String, from: usize, to: usize, id: EntityId },
}

impl Change {
    pub open spec fn id_spec(&self) -> EntityId {
        match self {
            Change::Added { id, .. } => *id,
            Change::Removed { id, .. } => *id,
            Change::Moved { id, .. } => *id,
            Change::Modified { id, .. } => *id,
            Change::Reordered { id, .. } => *id,
        }
    }

    /// The entity the change is about.
    pub fn id(&self) -> (r: &EntityId)
        ensures
            *r == self.id_spec(),
    {
        match self {
            Change::Added { id, .. } => id,
            Change::Removed { id, .. } => id,
            Change::Moved { id, .. } => id,
            Change::Modified { id, .. } => id,
            Change::Reordered { id, .. } => id,
        }
    }
}

#[derive(Debug, PartialEq, Eq)]
pub struct Diff {
    pub changes: Vec<Change>,
}

impl Diff {
    pub fn is_empty(&self) -> (r: bool)
        ensures
            r == (self.changes@.len() == 0),
    {
        self.changes.len() == 0
    }
}


// ---------------------------------------------------------------------------
// The order identities sort in: by variant in declaration order, then by
// their strings, as `derive(Ord)` orders them.

pub open spec fn variant_index(id: EntityIdView) -> int {
    match id {
        EntityIdView::Header => 0,
        EntityIdView::Ext(_) => 1,
        EntityIdView::Sub(_) => 2,
        EntityIdView::Node(_) => 3,
        EntityIdView::Connection(..) => 4,
        EntityIdView::Editable(_) => 5,
        EntityIdView::Resource => 6,
    }
}

pub open spec fn id_strings(id: EntityIdView) -> Seq<Seq<char>> {
    match id {
        EntityIdView::Ext(k) => seq![k],
        EntityIdView::Sub(k) => seq![k],
        EntityIdView::Node(p) => seq![p],
        EntityIdView::Connection(a, b, c, d) => seq![a, b, c, d],
        EntityIdView::Editable(p) => seq![p],
        _ => seq![],
    }
}

/// Lexicographic order on equally long lists of strings.
pub open spec fn strs_lt(a: Seq<Seq<char>>, b: Seq<Seq<char>>) -> bool
    decreases a.len(),
{
    if a.len() == 0 || b.len() == 0 {
        false
    } else if a[0] != b[0] {
        lex_lt(a[0], b[0])
    } else {
        strs_lt(a.drop_first(), b.drop_first())
    }
}

pub open spec fn id_lt(a: EntityIdView, b: EntityIdView) -> bool {
    variant_index(a) < variant_index(b) || (variant_index(a) == variant_index(b) && strs_lt(
        id_strings(a),
        id_strings(b),
    ))
}

fn variant_of(id: &EntityId) -> (r: u8)
    ensures
        r as int == variant_index(id@),
{
    match id {
        EntityId::Header => 0,
        EntityId::Ext(_) => 1,
        EntityId::Sub(_) => 2,
        EntityId::Node(_) => 3,
        EntityId::Connection(..) => 4,
        EntityId::Editable(_) => 5,
        EntityId::Resource => 6,
    }
}

/// Whether `a` sorts before `b`.
pub(crate) fn id_less(a: &EntityId, b: &EntityId) -> (r: bool)
    ensures
        r == id_lt(a@, b@),
{
    let (va, vb) = (variant_of(a), variant_of(b));
    if va != vb {
        return va < vb;
    }
    match (a, b) {
        (EntityId::Ext(x), EntityId::Ext(y)) => str_less(x, y),
        (EntityId::Sub(x), EntityId::Sub(y)) => str_less(x, y),
        (EntityId::Node(x), EntityId::Node(y)) => str_less(x, y),
        (EntityId::Editable(x), EntityId::Editable(y)) => str_less(x, y),
        (EntityId::Connection(a1, a2, a3, a4), EntityId::Connection(b1, b2, b3, b4)) => {
            proof {
                lemma_strs4(a1@, a2@, a3@, a4@, b1@, b2@, b3@, b4@);
            }
            if !str_eq(a1.as_str(), b1.as_str()) {
                str_less(a1, b1)
            } else if !str_eq(a2.as_str(), b2.as_str()) {
                str_less(a2, b2)
            } else if !str_eq(a3.as_str(), b3.as_str()) {
                str_less(a3, b3)
            } else if !str_eq(a4.as_str(), b4.as_str()) {
                str_less(a4, b4)
            } else {
                false
            }
        },
        _ => {
            proof {
                assert(id_strings(a@).len() == 0);
            }
            false
        },
    }
}

proof fn lemma_strs4(
    a1: Seq<char>,
    a2: Seq<char>,
    a3: Seq<char>,
    a4: Seq<char>,
    b1: Seq<char>,
    b2: Seq<char>,
    b3: Seq<char>,
    b4: Seq<char>,
)
    ensures
        strs_lt(seq![a1, a2, a3, a4], seq![b1, b2, b3, b4]) == if a1 != b1 {
            lex_lt(a1, b1)
        } else if a2 != b2 {
            lex_lt(a2, b2)
        } else if a3 != b3 {
            lex_lt(a3, b3)
        } else if a4 != b4 {
            lex_lt(a4, b4)
        } else {
            false
        },
{
    let (sa, sb) = (seq![a1, a2, a3, a4], seq![b1, b2, b3, b4]);
    let (ta, tb) = (seq![a2, a3, a4], seq![b2, b3, b4]);
    let (ua, ub) = (seq![a3, a4], seq![b3, b4]);
    let (va, vb) = (seq![a4], seq![b4]);
    assert(sa.drop_first() =~= ta && sb.drop_first() =~= tb);
    assert(ta.drop_first() =~= ua && tb.drop_first() =~= ub);
    assert(ua.drop_first() =~= va && ub.drop_first() =~= vb);
    assert(va.drop_first().len() == 0);
    assert(!strs_lt(va.drop_first(), vb.drop_first()));
    assert(strs_lt(va, vb) == if a4 != b4 { lex_lt(a4, b4) } else { false });
    assert(strs_lt(ua, ub) == if a3 != b3 { lex_lt(a3, b3) } else { strs_lt(va, vb) });
    assert(strs_lt(ta, tb) == if a2 != b2 { lex_lt(a2, b2) } else { strs_lt(ua, ub) });
}

fn str_less(a: &String, b: &String) -> (r: bool)
    ensures
        r == strs_lt(seq![a@], seq![b@]),
{
    proof {
        let (sa, sb) = (seq![a@], seq![b@]);
        assert(sa[0] == a@ && sb[0] == b@);
        assert(sa.drop_first().len() == 0);
        assert(!strs_lt(sa.drop_first(), sb.drop_first()));
        lemma_lex_irreflexive(a@);
        assert(strs_lt(sa, sb) == lex_lt(a@, b@));
    }
    lex_less(a.as_str(), b.as_str())
}

/// `x` added to a list kept sorted and free of repeats.
pub open spec fn set_insert(sorted: Seq<EntityIdView>, x: EntityIdView) -> Seq<EntityIdView>
    decreases sorted.len(),
{
    if sorted.len() == 0 {
        seq![x]
    } else if sorted.last() == x {
        sorted
    } else if id_lt(x, sorted.last()) {
        set_insert(sorted.drop_last(), x).push(sorted.last())
    } else {
        sorted.push(x)
    }
}

/// The distinct identities of `s`, in sorted order.
pub open spec fn id_set(s: Seq<EntityIdView>) -> Seq<EntityIdView>
    decreases s.len(),
{
    if s.len() == 0 {
        seq![]
    } else {
        set_insert(id_set(s.drop_last()), s.last())
    }
}

proof fn lemma_set_insert_at(s: Seq<EntityIdView>, x: EntityIdView, p: int)
    requires
        0 <= p <= s.len(),
        forall|k: int| p <= k < s.len() ==> id_lt(x, #[trigger] s[k]) && s[k] != x,
        p == 0 || !id_lt(x, s[p - 1]),
    ensures
        set_insert(s, x) == if p > 0 && s[p - 1] == x {
            s
        } else {
            s.insert(p, x)
        },
    decreases s.len() - p,
{
    if s.len() == 0 {
        assert(s.insert(p, x) =~= seq![x]);
    } else if p == s.len() {
        if s.last() != x {
            assert(s.insert(p, x) =~= s.push(x));
        }
    } else {
        lemma_set_insert_at(s.drop_last(), x, p);
        if p > 0 && s[p - 1] == x {
            assert(s.drop_last().push(s.last()) =~= s);
        } else {
            assert(s.insert(p, x) =~= s.drop_last().insert(p, x).push(s.last()));
        }
    }
}

fn insert_id(v: &mut Vec<EntityId>, x: &EntityId)
    ensures
        ids_view(final(v)@) == set_insert(ids_view(old(v)@), x@),
{
    let ghost old_v = ids_view(v@);
    let mut p = v.len();
    while p > 0 && id_less(x, &v[p - 1])
        invariant
            p <= v@.len(),
            old_v == ids_view(v@),
            forall|k: int| p <= k < v@.len() ==> id_lt(x@, #[trigger] v@[k]@),
        decreases p,
    {
        p -= 1;
    }
    proof {
        assert forall|k: int| p <= k < old_v.len() implies id_lt(x@, #[trigger] old_v[k]) && old_v[k]
            != x@ by {
            assert(old_v[k] == v@[k]@);
            lemma_id_lt_irreflexive(x@);
        }
        if p > 0 {
            assert(old_v[p - 1] == v@[p - 1]@);
        }
        lemma_set_insert_at(old_v, x@, p as int);
    }
    if p > 0 && same_id(&v[p - 1], x) {
        return;
    }
    let c = copy_id(x);
    v.insert(p, c);
    proof {
        assert(ids_view(v@) =~= old_v.insert(p as int, x@));
    }
}

proof fn lemma_strs_lt_irreflexive(a: Seq<Seq<char>>)
    ensures
        !strs_lt(a, a),
    decreases a.len(),
{
    if a.len() > 0 {
        lemma_strs_lt_irreflexive(a.drop_first());
    }
}

proof fn lemma_id_lt_irreflexive(a: EntityIdView)
    ensures
        !id_lt(a, a),
{
    lemma_strs_lt_irreflexive(id_strings(a));
}

/// The distinct identities of `ids`, sorted.
fn sorted_set(ids: &[EntityId]) -> (r: Vec<EntityId>)
    ensures
        ids_view(r@) == id_set(ids_view(ids@)),
{
    let ghost all = ids_view(ids@);
    let mut out: Vec<EntityId> = Vec::new();
    let mut i: usize = 0;
    while i < ids.len()
        invariant
            i <= ids@.len(),
            all == ids_view(ids@),
            ids_view(out@) == id_set(all.take(i as int)),
        decreases ids@.len() - i,
    {
        proof {
            assert(all.take(i + 1).drop_last() =~= all.take(i as int));
            assert(all[i as int] == ids@[i as int]@);
        }
        insert_id(&mut out, &ids[i]);
        i += 1;
    }
    proof {
        assert(all.take(i as int) =~= all);
    }
    out
}

/// Whether `id` is among `ids`.
pub(crate) fn has_id(ids: &Vec<EntityId>, id: &EntityId) -> (r: bool)
    ensures
        r == ids_view(ids@).contains(id@),
{
    let ghost v = ids_view(ids@);
    let mut i: usize = 0;
    while i < ids.len()
        invariant
            i <= ids@.len(),
            v == ids_view(ids@),
            forall|k: int| 0 <= k < i ==> v[k] != id@,
        decreases ids@.len() - i,
    {
        if same_id(&ids[i], id) {
            proof {
                assert(v[i as int] == id@);
            }
            return true;
        }
        i += 1;
    }
    false
}

/// The members of `s` that are in `other` (`keep`) or not in it (`!keep`),
/// in order.
pub open spec fn select(s: Seq<EntityIdView>, other: Seq<EntityIdView>, keep: bool) -> Seq<EntityIdView>
    decreases s.len(),
{
    if s.len() == 0 {
        seq![]
    } else if other.contains(s.last()) == keep {
        select(s.drop_last(), other, keep).push(s.last())
    } else {
        select(s.drop_last(), other, keep)
    }
}

pub(crate) fn select_ids(s: &Vec<EntityId>, other: &Vec<EntityId>, keep: bool) -> (r: Vec<EntityId>)
    ensures
        ids_view(r@) == select(ids_view(s@), ids_view(other@), keep),
{
    let ghost v = ids_view(s@);
    let mut out: Vec<EntityId> = Vec::new();
    let mut i: usize = 0;
    while i < s.len()
        invariant
            i <= s@.len(),
            v == ids_view(s@),
            ids_view(out@) == select(v.take(i as int), ids_view(other@), keep),
        decreases s@.len() - i,
    {
        proof {
            assert(v.take(i + 1).drop_last() =~= v.take(i as int));
            assert(v[i as int] == s@[i as int]@);
        }
        if has_id(other, &s[i]) == keep {
            let ghost before = out@;
            let c = copy_id(&s[i]);
            out.push(c);
            proof {
                assert(ids_view(out@) =~= ids_view(before).push(c@));
            }
        }
        i += 1;
    }
    proof {
        assert(v.take(i as int) =~= v);
    }
    out
}


// ---------------------------------------------------------------------------
// Views of changes.

pub struct PropertyChangeView {
    pub key: Seq<char>,
    pub before: Option<Seq<char>>,
    pub after: Option<Seq<char>>,
}

pub enum ChangeView {
    Added { entity: Seq<char>, id: EntityIdView },
    Removed { entity: Seq<char>, id: EntityIdView },
    Moved { from: Seq<char>, to: Seq<char>, id: EntityIdView },
    Modified {
        entity: Seq<char>,
        fields: Seq<PropertyChangeView>,
        properties: Seq<PropertyChangeView>,
        id: EntityIdView,
    },
    Reordered { entity: Seq<char>, from: nat, to: nat, id: EntityIdView },
}

pub open spec fn opt_view(o: Option<String>) -> Option<Seq<char>> {
    match o {
        Some(s) => Some(s@),
        None => None,
    }
}

impl View for PropertyChange {
    type V = PropertyChangeView;

    open spec fn view(&self) -> PropertyChangeView {
        PropertyChangeView { key: self.key@, before: opt_view(self.before), after: opt_view(self.after) }
    }
}

pub open spec fn pc_views(s: Seq<PropertyChange>) -> Seq<PropertyChangeView> {
    Seq::new(s.len(), |i: int| s[i]@)
}

impl View for Change {
    type V = ChangeView;

    open spec fn view(&self) -> ChangeView {
        match self {
            Change::Added { entity, id } => ChangeView::Added { entity: entity@, id: id@ },
            Change::Removed { entity, id } => ChangeView::Removed { entity: entity@, id: id@ },
            Change::Moved { from, to, id } => ChangeView::Moved { from: from@, to: to@, id: id@ },
            Change::Modified { entity, fields, properties, id } => ChangeView::Modified {
                entity: entity@,
                fields: pc_views(fields@),
                properties: pc_views(properties@),
                id: id@,
            },
            Change::Reordered { entity, from, to, id } => ChangeView::Reordered {
                entity: entity@,
                from: *from as nat,
                to: *to as nat,
                id: id@,
            },
        }
    }
}

pub open spec fn change_views(s: Seq<Change>) -> Seq<ChangeView> {
    Seq::new(s.len(), |i: int| s[i]@)
}

pub open spec fn change_id(c: ChangeView) -> EntityIdView {
    match c {
        ChangeView::Added { id, .. } => id,
        ChangeView::Removed { id, .. } => id,
        ChangeView::Moved { id, .. } => id,
        ChangeView::Modified { id, .. } => id,
        ChangeView::Reordered { id, .. } => id,
    }
}

// ---------------------------------------------------------------------------
// What a node is apart from where it sits.

/// `#name=value` for each field of `fs`, each value the first of its name in `s`.
pub open spec fn content_fields(fs: Seq<Field>, s: Section, sc: SceneView) -> Seq<char>
    decreases fs.len(),
{
    if fs.len() == 0 {
        seq![]
    } else {
        content_fields(fs.drop_last(), s, sc) + "#"@ + fs.last().name@ + "="@ + str_or(
            canon_field(s, fs.last().name@, sc.ext, sc.sub, sc.nums),
            seq![],
        )
    }
}

pub open spec fn content_props(ps: Seq<Property>, s: Section, sc: SceneView) -> Seq<char>
    decreases ps.len(),
{
    if ps.len() == 0 {
        seq![]
    } else {
        content_props(ps.drop_last(), s, sc) + "\n"@ + ps.last().key@ + "="@ + str_or(
            canon_prop(s, ps.last().key@, sc.ext, sc.sub, sc.nums),
            seq![],
        )
    }
}

/// Canonical content of a node ignoring the fields that define its identity.
pub open spec fn content_key(s: Section, sc: SceneView) -> Seq<char> {
    content_fields(sort_kept(s.fields@, None), s, sc) + content_props(s.props@, s, sc)
}

/// The content key of the section `id` first names.
pub open spec fn content_at(sc: SceneView, id: EntityIdView) -> Option<Seq<char>> {
    match first_index(sc.ids, id) {
        Some(i) => Some(content_key(sc.ss[i], sc)),
        None => None,
    }
}

fn content_key_of(scene: &Scene, index: usize) -> (r: String)
    requires
        index < scene.doc.sections@.len(),
    ensures
        r@ == content_key(scene.doc.sections@[index as int], scene.view_of()),
{
    let s = &scene.doc.sections[index];
    let ghost sc = scene.view_of();
    let mut out = String::new();
    let fields = sorted_fields(&s.fields, None);
    let ghost fs = field_derefs(fields@);
    let mut i: usize = 0;
    while i < fields.len()
        invariant
            i <= fields@.len(),
            fs == field_derefs(fields@),
            sc == scene.view_of(),
            *s == scene.doc.sections@[index as int],
            out@ == content_fields(fs.take(i as int), *s, sc),
        decreases fields@.len() - i,
    {
        proof {
            assert(fs.take(i + 1).drop_last() =~= fs.take(i as int));
            assert(fs[i as int] == *fields@[i as int]);
        }
        push_str(&mut out, "#");
        push_str(&mut out, fields[i].name.as_str());
        push_str(&mut out, "=");
        if let Some(c) = scene.canonical_field(s, fields[i].name.as_str()) {
            push_str(&mut out, c.as_str());
        }
        proof {
            assert(out@ =~= content_fields(fs.take(i + 1), *s, sc));
        }
        i += 1;
    }
    proof {
        assert(fs.take(i as int) =~= fs);
    }
    let ghost head = out@;
    let mut j: usize = 0;
    while j < s.props.len()
        invariant
            j <= s.props@.len(),
            sc == scene.view_of(),
            *s == scene.doc.sections@[index as int],
            out@ == head + content_props(s.props@.take(j as int), *s, sc),
        decreases s.props@.len() - j,
    {
        proof {
            assert(s.props@.take(j + 1).drop_last() =~= s.props@.take(j as int));
        }
        push_str(&mut out, "\n");
        push_str(&mut out, s.props[j].key.as_str());
        push_str(&mut out, "=");
        if let Some(c) = scene.canonical_prop(s, s.props[j].key.as_str()) {
            push_str(&mut out, c.as_str());
        }
        proof {
            assert(out@ =~= head + content_props(s.props@.take(j + 1), *s, sc));
        }
        j += 1;
    }
    proof {
        assert(s.props@.take(j as int) =~= s.props@);
    }
    out
}

/// The content key of the section `id` names in `scene`, if it names one.
pub(crate) fn content_of(scene: &Scene, id: &EntityId) -> (r: Option<String>)
    requires
        scene.wf(),
    ensures
        opt_view(r) == content_at(scene.view_of(), id@),
{
    proof {
        lemma_first_index(scene.id_views(), id@);
    }
    match scene.index_of(id) {
        Some(i) => Some(content_key_of(scene, i)),
        None => None,
    }
}

// ---------------------------------------------------------------------------
// Moves: a removed node and an added one with the same contents.

/// The first of `cands` that is a node with contents `key` in `b` and is not
/// taken yet.
pub open spec fn free_match(
    cands: Seq<EntityIdView>,
    key: Seq<char>,
    b: SceneView,
    taken: Seq<EntityIdView>,
) -> Option<EntityIdView>
    decreases cands.len(),
{
    if cands.len() == 0 {
        None
    } else if cands[0] is Node && content_at(b, cands[0]) == Some(key) && !taken.contains(cands[0]) {
        Some(cands[0])
    } else {
        free_match(cands.drop_first(), key, b, taken)
    }
}

/// Pairs removed and added nodes whose contents are identical: a rename, a
/// reparent, or both; with the added nodes taken so far.
pub open spec fn move_pairs(
    removed: Seq<EntityIdView>,
    added: Seq<EntityIdView>,
    a: SceneView,
    b: SceneView,
) -> (Seq<(EntityIdView, EntityIdView)>, Seq<EntityIdView>)
    decreases removed.len(),
{
    if removed.len() == 0 {
        (seq![], seq![])
    } else {
        let (pairs, taken) = move_pairs(removed.drop_last(), added, a, b);
        let from = removed.last();
        if from is Node && content_at(a, from) is Some {
            match free_match(added, content_at(a, from)->Some_0, b, taken) {
                Some(to) => (pairs.push((from, to)), taken.push(to)),
                None => (pairs, taken),
            }
        } else {
            (pairs, taken)
        }
    }
}

pub open spec fn pair_views(s: Seq<(EntityId, EntityId)>) -> Seq<(EntityIdView, EntityIdView)> {
    Seq::new(s.len(), |i: int| (s[i].0@, s[i].1@))
}

fn detect_moves(a: &Scene, b: &Scene, removed: &Vec<EntityId>, added: &Vec<EntityId>) -> (r: (
    Vec<(EntityId, EntityId)>,
    Vec<EntityId>,
))
    requires
        a.wf(),
        b.wf(),
    ensures
        (pair_views(r.0@), ids_view(r.1@)) == move_pairs(
            ids_view(removed@),
            ids_view(added@),
            a.view_of(),
            b.view_of(),
        ),
{
    let ghost (rv, av, sa, sb) = (ids_view(removed@), ids_view(added@), a.view_of(), b.view_of());
    // The contents of each added node.
    let mut keys: Vec<Option<String>> = Vec::new();
    let mut k: usize = 0;
    while k < added.len()
        invariant
            k <= added@.len(),
            a.wf(),
            b.wf(),
            av == ids_view(added@),
            sb == b.view_of(),
            keys@.len() == k,
            forall|m: int|
                0 <= m < k ==> opt_view(#[trigger] keys@[m]) == if av[m] is Node {
                    content_at(sb, av[m])
                } else {
                    None
                },
        decreases added@.len() - k,
    {
        let key = match &added[k] {
            EntityId::Node(_) => content_of(b, &added[k]),
            _ => None,
        };
        keys.push(key);
        k += 1;
    }
    let mut pairs: Vec<(EntityId, EntityId)> = Vec::new();
    let mut taken: Vec<EntityId> = Vec::new();
    let mut i: usize = 0;
    while i < removed.len()
        invariant
            i <= removed@.len(),
            a.wf(),
            b.wf(),
            rv == ids_view(removed@),
            av == ids_view(added@),
            sa == a.view_of(),
            sb == b.view_of(),
            keys@.len() == added@.len(),
            forall|m: int|
                0 <= m < keys@.len() ==> opt_view(#[trigger] keys@[m]) == if av[m] is Node {
                    content_at(sb, av[m])
                } else {
                    None
                },
            (pair_views(pairs@), ids_view(taken@)) == move_pairs(rv.take(i as int), av, sa, sb),
        decreases removed@.len() - i,
    {
        proof {
            assert(rv.take(i + 1).drop_last() =~= rv.take(i as int));
            assert(rv[i as int] == removed@[i as int]@);
        }
        let from = &removed[i];
        let is_node = match from {
            EntityId::Node(_) => true,
            _ => false,
        };
        if is_node {
            if let Some(key) = content_of(a, from) {
                let ghost tv = ids_view(taken@);
                let mut found: Option<usize> = None;
                let mut j: usize = 0;
                proof {
                    assert(av.skip(0) =~= av);
                }
                while j < added.len() && found.is_none()
                    invariant
                        j <= added@.len(),
                        av == ids_view(added@),
                        tv == ids_view(taken@),
                        sb == b.view_of(),
                        keys@.len() == added@.len(),
                        forall|m: int|
                            0 <= m < keys@.len() ==> opt_view(#[trigger] keys@[m]) == if av[m] is Node {
                                content_at(sb, av[m])
                            } else {
                                None
                            },
                        match found {
                            Some(f) => f < added@.len() && free_match(av, key@, sb, tv) == free_match(
                                av.skip(f as int),
                                key@,
                                sb,
                                tv,
                            ) && free_match(av.skip(f as int), key@, sb, tv) == Some(av[f as int]),
                            None => free_match(av, key@, sb, tv) == free_match(av.skip(j as int), key@, sb, tv),
                        },
                    decreases added@.len() - j,
                {
                    proof {
                        assert(av.skip(j as int).drop_first() =~= av.skip(j + 1));
                        assert(av.skip(j as int)[0] == av[j as int]);
                        assert(av[j as int] == added@[j as int]@);
                    }
                    let hit = match &keys[j] {
                        Some(c) => str_eq(c.as_str(), key.as_str()) && !has_id(&taken, &added[j]),
                        None => false,
                    };
                    if hit {
                        found = Some(j);
                    }
                    j += 1;
                }
                proof {
                    if found is None {
                        assert(av.skip(j as int).len() == 0);
                    }
                }
                if let Some(f) = found {
                    let ghost before = (pairs@, taken@);
                    let p = (copy_id(from), copy_id(&added[f]));
                    pairs.push(p);
                    let t = copy_id(&added[f]);
                    taken.push(t);
                    proof {
                        assert(pair_views(pairs@) =~= pair_views(before.0).push((from@, av[f as int])));
                        assert(ids_view(taken@) =~= ids_view(before.1).push(av[f as int]));
                    }
                }
            }
        }
        i += 1;
    }
    proof {
        assert(rv.take(i as int) =~= rv);
    }
    (pairs, taken)
}


// ---------------------------------------------------------------------------
// What changed inside one entity.

/// `s` without repeats, each kept where it first occurs.
pub open spec fn dedup(s: Seq<Seq<char>>) -> Seq<Seq<char>>
    decreases s.len(),
{
    if s.len() == 0 {
        seq![]
    } else if dedup(s.drop_last()).contains(s.last()) {
        dedup(s.drop_last())
    } else {
        dedup(s.drop_last()).push(s.last())
    }
}

pub open spec fn field_names(fs: Seq<Field>) -> Seq<Seq<char>> {
    Seq::new(fs.len(), |i: int| fs[i].name@)
}

pub open spec fn prop_keys(ps: Seq<Property>) -> Seq<Seq<char>> {
    Seq::new(ps.len(), |i: int| ps[i].key@)
}

/// The source text of the first header field called `name`.
pub open spec fn raw_field(s: Section, name: Seq<char>) -> Option<Seq<char>> {
    match field_index(s.fields@, name) {
        Some(i) => Some(s.fields@[i].value_raw@),
        None => None,
    }
}

/// The source text of the first property whose key is `key`.
pub open spec fn raw_prop(s: Section, key: Seq<char>) -> Option<Seq<char>> {
    match prop_index(s.props@, key) {
        Some(i) => Some(s.props@[i].value_raw@),
        None => None,
    }
}

/// The header fields among `names` whose canonical values differ; derived
/// fields never count.
pub open spec fn field_delta(
    names: Seq<Seq<char>>,
    sa: Section,
    sb: Section,
    a: SceneView,
    b: SceneView,
) -> Seq<PropertyChangeView>
    decreases names.len(),
{
    if names.len() == 0 {
        seq![]
    } else {
        let d = field_delta(names.drop_last(), sa, sb, a, b);
        let n = names.last();
        if !sa.kind.is_derived_spec(n) && canon_field(sa, n, a.ext, a.sub, a.nums) != canon_field(
            sb,
            n,
            b.ext,
            b.sub,
            b.nums,
        ) {
            d.push(PropertyChangeView { key: n, before: raw_field(sa, n), after: raw_field(sb, n) })
        } else {
            d
        }
    }
}

/// The properties among `keys` whose canonical values differ.
pub open spec fn prop_delta(
    keys: Seq<Seq<char>>,
    sa: Section,
    sb: Section,
    a: SceneView,
    b: SceneView,
) -> Seq<PropertyChangeView>
    decreases keys.len(),
{
    if keys.len() == 0 {
        seq![]
    } else {
        let d = prop_delta(keys.drop_last(), sa, sb, a, b);
        let k = keys.last();
        if canon_prop(sa, k, a.ext, a.sub, a.nums) != canon_prop(sb, k, b.ext, b.sub, b.nums) {
            d.push(PropertyChangeView { key: k, before: raw_prop(sa, k), after: raw_prop(sb, k) })
        } else {
            d
        }
    }
}

/// Field-level and property-level delta between two sections of one identity.
pub open spec fn section_delta(sa: Section, sb: Section, a: SceneView, b: SceneView) -> (
    Seq<PropertyChangeView>,
    Seq<PropertyChangeView>,
) {
    (
        field_delta(dedup(field_names(sa.fields@) + field_names(sb.fields@)), sa, sb, a, b),
        prop_delta(dedup(prop_keys(sa.props@) + prop_keys(sb.props@)), sa, sb, a, b),
    )
}

fn push_new(names: &mut Vec<String>, x: &String)
    ensures
        Seq::new(final(names)@.len(), |i: int| final(names)@[i]@) == if Seq::new(
            old(names)@.len(),
            |i: int| old(names)@[i]@,
        ).contains(x@) {
            Seq::new(old(names)@.len(), |i: int| old(names)@[i]@)
        } else {
            Seq::new(old(names)@.len(), |i: int| old(names)@[i]@).push(x@)
        },
{
    let ghost v = Seq::new(names@.len(), |i: int| names@[i]@);
    let mut i: usize = 0;
    while i < names.len()
        invariant
            i <= names@.len(),
            v == Seq::new(names@.len(), |m: int| names@[m]@),
            forall|m: int| 0 <= m < i ==> v[m] != x@,
        decreases names@.len() - i,
    {
        if str_eq(names[i].as_str(), x.as_str()) {
            proof {
                assert(v[i as int] == x@);
            }
            return;
        }
        i += 1;
    }
    names.push(x.clone());
    proof {
        assert(Seq::new(names@.len(), |m: int| names@[m]@) =~= v.push(x@));
    }
}

pub(crate) fn field_name_list(sa: &Section, sb: &Section) -> (r: Vec<String>)
    ensures
        Seq::new(r@.len(), |i: int| r@[i]@) == dedup(field_names(sa.fields@) + field_names(sb.fields@)),
{
    let ghost (xa, xb) = (field_names(sa.fields@), field_names(sb.fields@));
    let mut out: Vec<String> = Vec::new();
    let mut i: usize = 0;
    while i < sa.fields.len()
        invariant
            i <= sa.fields@.len(),
            xa == field_names(sa.fields@),
            Seq::new(out@.len(), |m: int| out@[m]@) == dedup(xa.take(i as int)),
        decreases sa.fields@.len() - i,
    {
        proof {
            assert(xa.take(i + 1).drop_last() =~= xa.take(i as int));
        }
        push_new(&mut out, &sa.fields[i].name);
        i += 1;
    }
    proof {
        assert(xa.take(i as int) =~= xa);
        assert(xa + xb.take(0) =~= xa);
    }
    let mut j: usize = 0;
    while j < sb.fields.len()
        invariant
            j <= sb.fields@.len(),
            xb == field_names(sb.fields@),
            Seq::new(out@.len(), |m: int| out@[m]@) == dedup(xa + xb.take(j as int)),
        decreases sb.fields@.len() - j,
    {
        proof {
            assert((xa + xb.take(j + 1)).drop_last() =~= xa + xb.take(j as int));
        }
        push_new(&mut out, &sb.fields[j].name);
        j += 1;
    }
    proof {
        assert(xb.take(j as int) =~= xb);
    }
    out
}

pub(crate) fn prop_key_list(sa: &Section, sb: &Section) -> (r: Vec<String>)
    ensures
        Seq::new(r@.len(), |i: int| r@[i]@) == dedup(prop_keys(sa.props@) + prop_keys(sb.props@)),
{
    let ghost (xa, xb) = (prop_keys(sa.props@), prop_keys(sb.props@));
    let mut out: Vec<String> = Vec::new();
    let mut i: usize = 0;
    while i < sa.props.len()
        invariant
            i <= sa.props@.len(),
            xa == prop_keys(sa.props@),
            Seq::new(out@.len(), |m: int| out@[m]@) == dedup(xa.take(i as int)),
        decreases sa.props@.len() - i,
    {
        proof {
            assert(xa.take(i + 1).drop_last() =~= xa.take(i as int));
        }
        push_new(&mut out, &sa.props[i].key);
        i += 1;
    }
    proof {
        assert(xa.take(i as int) =~= xa);
        assert(xa + xb.take(0) =~= xa);
    }
    let mut j: usize = 0;
    while j < sb.props.len()
        invariant
            j <= sb.props@.len(),
            xb == prop_keys(sb.props@),
            Seq::new(out@.len(), |m: int| out@[m]@) == dedup(xa + xb.take(j as int)),
        decreases sb.props@.len() - j,
    {
        proof {
            assert((xa + xb.take(j + 1)).drop_last() =~= xa + xb.take(j as int));
        }
        push_new(&mut out, &sb.props[j].key);
        j += 1;
    }
    proof {
        assert(xb.take(j as int) =~= xb);
    }
    out
}

pub(crate) fn opt_string_eq(x: &Option<String>, y: &Option<String>) -> (r: bool)
    ensures
        r == (opt_view(*x) == opt_view(*y)),
{
    match (x, y) {
        (Some(p), Some(q)) => str_eq(p.as_str(), q.as_str()),
        (None, None) => true,
        _ => false,
    }
}

fn raw_of_field(s: &Section, name: &str) -> (r: Option<String>)
    ensures
        opt_view(r) == raw_field(*s, name@),
{
    match s.field(name) {
        Some(f) => Some(f.value_raw.clone()),
        None => None,
    }
}

fn raw_of_prop(s: &Section, key: &str) -> (r: Option<String>)
    ensures
        opt_view(r) == raw_prop(*s, key@),
{
    match s.prop(key) {
        Some(p) => Some(p.value_raw.clone()),
        None => None,
    }
}

fn delta_of(a: &Scene, sa: &Section, b: &Scene, sb: &Section) -> (r: (
    Vec<PropertyChange>,
    Vec<PropertyChange>,
))
    ensures
        (pc_views(r.0@), pc_views(r.1@)) == section_delta(*sa, *sb, a.view_of(), b.view_of()),
{
    let ghost (av, bv) = (a.view_of(), b.view_of());
    let names = field_name_list(sa, sb);
    let ghost nv = Seq::new(names@.len(), |i: int| names@[i]@);
    let mut fields: Vec<PropertyChange> = Vec::new();
    let mut i: usize = 0;
    while i < names.len()
        invariant
            i <= names@.len(),
            nv == Seq::new(names@.len(), |m: int| names@[m]@),
            av == a.view_of(),
            bv == b.view_of(),
            pc_views(fields@) == field_delta(nv.take(i as int), *sa, *sb, av, bv),
        decreases names@.len() - i,
    {
        proof {
            assert(nv.take(i + 1).drop_last() =~= nv.take(i as int));
            assert(nv[i as int] == names@[i as int]@);
        }
        let name = names[i].as_str();
        if !sa.kind.is_derived_field(name) {
            let ca = a.canonical_field(sa, name);
            let cb = b.canonical_field(sb, name);
            if !opt_string_eq(&ca, &cb) {
                let ghost before = fields@;
                let c = PropertyChange {
                    key: names[i].clone(),
                    before: raw_of_field(sa, name),
                    after: raw_of_field(sb, name),
                };
                fields.push(c);
                proof {
                    assert(pc_views(fields@) =~= pc_views(before).push(c@));
                }
            }
        }
        i += 1;
    }
    proof {
        assert(nv.take(i as int) =~= nv);
    }
    let keys = prop_key_list(sa, sb);
    let ghost kv = Seq::new(keys@.len(), |i: int| keys@[i]@);
    let mut props: Vec<PropertyChange> = Vec::new();
    let mut j: usize = 0;
    while j < keys.len()
        invariant
            j <= keys@.len(),
            kv == Seq::new(keys@.len(), |m: int| keys@[m]@),
            av == a.view_of(),
            bv == b.view_of(),
            pc_views(props@) == prop_delta(kv.take(j as int), *sa, *sb, av, bv),
        decreases keys@.len() - j,
    {
        proof {
            assert(kv.take(j + 1).drop_last() =~= kv.take(j as int));
            assert(kv[j as int] == keys@[j as int]@);
        }
        let key = keys[j].as_str();
        let ca = a.canonical_prop(sa, key);
        let cb = b.canonical_prop(sb, key);
        if !opt_string_eq(&ca, &cb) {
            let ghost before = props@;
            let c = PropertyChange {
                key: keys[j].clone(),
                before: raw_of_prop(sa, key),
                after: raw_of_prop(sb, key),
            };
            props.push(c);
            proof {
                assert(pc_views(props@) =~= pc_views(before).push(c@));
            }
        }
        j += 1;
    }
    proof {
        assert(kv.take(j as int) =~= kv);
    }
    (fields, props)
}


// ---------------------------------------------------------------------------
// Positions among entities of the same class.

/// Where `id` last occurs in `ids`.
pub open spec fn last_index(ids: Seq<EntityIdView>, id: EntityIdView) -> Option<int>
    decreases ids.len(),
{
    if ids.len() == 0 {
        None
    } else if ids.last() == id {
        Some(ids.len() - 1)
    } else {
        last_index(ids.drop_last(), id)
    }
}

/// How many of the first `upto` of `ids` are in `other` and of rank `r`.
pub open spec fn rank_count(ids: Seq<EntityIdView>, upto: nat, other: Seq<EntityIdView>, r: u8) -> nat
    decreases upto,
{
    if upto == 0 {
        0
    } else {
        rank_count(ids, (upto - 1) as nat, other, r) + if other.contains(ids[upto - 1])
            && rank_view(ids[upto - 1]) == r {
            1nat
        } else {
            0nat
        }
    }
}

/// The index of `id` among the entities of its class that both sides share,
/// counted at its last occurrence.
pub open spec fn position(ids: Seq<EntityIdView>, other: Seq<EntityIdView>, id: EntityIdView) -> nat {
    match last_index(ids, id) {
        Some(l) => rank_count(ids, l as nat, other, rank_view(id)),
        None => 0,
    }
}

fn position_of(ids: &[EntityId], other: &Vec<EntityId>, id: &EntityId) -> (r: usize)
    ensures
        r == position(ids_view(ids@), ids_view(other@), id@),
{
    let ghost (v, o) = (ids_view(ids@), ids_view(other@));
    let rank = id.rank();
    let mut count: usize = 0;
    let mut result: usize = 0;
    let mut i: usize = 0;
    while i < ids.len()
        invariant
            i <= ids@.len(),
            v == ids_view(ids@),
            o == ids_view(other@),
            rank == rank_view(id@),
            count <= i,
            count == rank_count(v, i as nat, o, rank),
            result == match last_index(v.take(i as int), id@) {
                Some(l) => rank_count(v, l as nat, o, rank),
                None => 0,
            },
        decreases ids@.len() - i,
    {
        proof {
            assert(v.take(i + 1).drop_last() =~= v.take(i as int));
            assert(v[i as int] == ids@[i as int]@);
        }
        if same_id(&ids[i], id) {
            result = count;
        }
        if has_id(other, &ids[i]) && ids[i].rank() == rank {
            count += 1;
        }
        i += 1;
    }
    proof {
        assert(v.take(i as int) =~= v);
    }
    result
}

// ---------------------------------------------------------------------------
// Assembling the changes.

pub open spec fn moved_changes(pairs: Seq<(EntityIdView, EntityIdView)>, a: SceneView, b: SceneView) -> Seq<
    ChangeView,
> {
    Seq::new(
        pairs.len(),
        |i: int|
            ChangeView::Moved {
                from: describe_in(a.ss, a.ids, pairs[i].0),
                to: describe_in(b.ss, b.ids, pairs[i].1),
                id: pairs[i].1,
            },
    )
}

pub open spec fn removed_changes(ids: Seq<EntityIdView>, sc: SceneView) -> Seq<ChangeView> {
    Seq::new(ids.len(), |i: int| ChangeView::Removed { entity: describe_in(sc.ss, sc.ids, ids[i]), id: ids[i] })
}

pub open spec fn added_changes(ids: Seq<EntityIdView>, sc: SceneView) -> Seq<ChangeView> {
    Seq::new(ids.len(), |i: int| ChangeView::Added { entity: describe_in(sc.ss, sc.ids, ids[i]), id: ids[i] })
}

pub open spec fn pair_firsts(pairs: Seq<(EntityIdView, EntityIdView)>) -> Seq<EntityIdView> {
    Seq::new(pairs.len(), |i: int| pairs[i].0)
}

pub open spec fn pair_seconds(pairs: Seq<(EntityIdView, EntityIdView)>) -> Seq<EntityIdView> {
    Seq::new(pairs.len(), |i: int| pairs[i].1)
}

/// A `Modified` change for each shared entity whose items differ.
pub open spec fn modified_changes(shared: Seq<EntityIdView>, a: SceneView, b: SceneView) -> Seq<ChangeView>
    decreases shared.len(),
{
    if shared.len() == 0 {
        seq![]
    } else {
        let m = modified_changes(shared.drop_last(), a, b);
        let id = shared.last();
        match (first_index(a.ids, id), first_index(b.ids, id)) {
            (Some(i), Some(j)) => {
                let (f, p) = section_delta(a.ss[i], b.ss[j], a, b);
                if f.len() > 0 || p.len() > 0 {
                    m.push(
                        ChangeView::Modified {
                            entity: describe_in(b.ss, b.ids, id),
                            fields: f,
                            properties: p,
                            id,
                        },
                    )
                } else {
                    m
                }
            },
            _ => m,
        }
    }
}

/// A `Reordered` change for each shared entity whose position among its
/// class changed. A shift caused purely by an insertion or a deletion
/// elsewhere is not a reordering, as positions count shared entities only.
pub open spec fn reorder_changes(shared: Seq<EntityIdView>, a: SceneView, b: SceneView) -> Seq<ChangeView>
    decreases shared.len(),
{
    if shared.len() == 0 {
        seq![]
    } else {
        let m = reorder_changes(shared.drop_last(), a, b);
        let id = shared.last();
        let from = position(a.ids, b.ids, id);
        let to = position(b.ids, a.ids, id);
        if from != to {
            m.push(ChangeView::Reordered { entity: describe_in(b.ss, b.ids, id), from, to, id })
        } else {
            m
        }
    }
}

/// Changes sort by the class of their entity, then by its label.
pub open spec fn change_lt(x: ChangeView, y: ChangeView) -> bool {
    let (a, b) = (change_id(x), change_id(y));
    rank_view(a) < rank_view(b) || (rank_view(a) == rank_view(b) && lex_lt(
        describe_view(a),
        describe_view(b),
    ))
}

pub open spec fn insert_change(sorted: Seq<ChangeView>, c: ChangeView) -> Seq<ChangeView>
    decreases sorted.len(),
{
    if sorted.len() == 0 {
        seq![c]
    } else if change_lt(c, sorted.last()) {
        insert_change(sorted.drop_last(), c).push(sorted.last())
    } else {
        sorted.push(c)
    }
}

/// A stable sort of `cs` by `change_lt`.
pub open spec fn sort_changes(cs: Seq<ChangeView>) -> Seq<ChangeView>
    decreases cs.len(),
{
    if cs.len() == 0 {
        seq![]
    } else {
        insert_change(sort_changes(cs.drop_last()), cs.last())
    }
}

/// The semantic difference between two scenes.
pub open spec fn diff_changes(a: SceneView, b: SceneView) -> Seq<ChangeView> {
    let (sa, sb) = (id_set(a.ids), id_set(b.ids));
    let removed = select(sa, sb, false);
    let added = select(sb, sa, false);
    let shared = select(sa, sb, true);
    let pairs = move_pairs(removed, added, a, b).0;
    sort_changes(
        moved_changes(pairs, a, b) + removed_changes(select(removed, pair_firsts(pairs), false), a)
            + added_changes(select(added, pair_seconds(pairs), false), b) + modified_changes(
            shared,
            a,
            b,
        ) + reorder_changes(shared, a, b),
    )
}

proof fn lemma_insert_change_at(s: Seq<ChangeView>, c: ChangeView, p: int)
    requires
        0 <= p <= s.len(),
        forall|k: int| p <= k < s.len() ==> change_lt(c, #[trigger] s[k]),
        p == 0 || !change_lt(c, s[p - 1]),
    ensures
        insert_change(s, c) == s.insert(p, c),
    decreases s.len() - p,
{
    if s.len() == 0 {
        assert(s.insert(p, c) =~= seq![c]);
    } else if p == s.len() {
        assert(s.insert(p, c) =~= s.push(c));
    } else {
        lemma_insert_change_at(s.drop_last(), c, p);
        assert(s.insert(p, c) =~= s.drop_last().insert(p, c).push(s.last()));
    }
}

fn change_less(x: &Change, y: &Change) -> (r: bool)
    ensures
        r == change_lt(x@, y@),
{
    let (a, b) = (x.id(), y.id());
    let (ra, rb) = (a.rank(), b.rank());
    if ra != rb {
        return ra < rb;
    }
    let (da, db) = (a.describe(), b.describe());
    lex_less(da.as_str(), db.as_str())
}

fn insert_change_exec(v: &mut Vec<Change>, c: Change)
    ensures
        change_views(final(v)@) == insert_change(change_views(old(v)@), c@),
{
    let ghost old_v = change_views(v@);
    let mut p = v.len();
    while p > 0 && change_less(&c, &v[p - 1])
        invariant
            p <= v@.len(),
            old_v == change_views(v@),
            forall|k: int| p <= k < v@.len() ==> change_lt(c@, #[trigger] v@[k]@),
        decreases p,
    {
        p -= 1;
    }
    proof {
        assert forall|k: int| p <= k < old_v.len() implies change_lt(c@, #[trigger] old_v[k]) by {
            assert(old_v[k] == v@[k]@);
        }
        if p > 0 {
            assert(old_v[p - 1] == v@[p - 1]@);
        }
        lemma_insert_change_at(old_v, c@, p as int);
    }
    let ghost cv = c@;
    v.insert(p, c);
    proof {
        assert(change_views(v@) =~= old_v.insert(p as int, cv));
    }
}

fn sort_all(cs: Vec<Change>) -> (r: Vec<Change>)
    ensures
        change_views(r@) == sort_changes(change_views(cs@)),
{
    let ghost all = change_views(cs@);
    let mut out: Vec<Change> = Vec::new();
    let mut rest = cs;
    let ghost mut taken: int = 0;
    while rest.len() > 0
        invariant
            0 <= taken <= all.len(),
            change_views(rest@) == all.skip(taken),
            change_views(out@) == sort_changes(all.take(taken)),
        decreases rest@.len(),
    {
        let ghost before = rest@;
        let c = rest.remove(0);
        proof {
            assert(change_views(before).len() == before.len());
            assert(taken < all.len());
            assert(c@ == change_views(before)[0]);
            assert(all.skip(taken)[0] == all[taken]);
            assert forall|k: int| 0 <= k < rest@.len() implies #[trigger] change_views(rest@)[k]
                == all.skip(taken + 1)[k] by {
                assert(rest@[k] == before[k + 1]);
                assert(change_views(before)[k + 1] == all.skip(taken)[k + 1]);
            }
            assert(change_views(rest@) =~= all.skip(taken + 1));
            assert(all.take(taken + 1).drop_last() =~= all.take(taken));
        }
        insert_change_exec(&mut out, c);
        proof {
            taken = taken + 1;
        }
    }
    proof {
        assert(all.skip(taken).len() == 0);
        assert(all.take(taken) =~= all);
    }
    out
}

/// Computes the semantic difference between two scenes.
pub fn diff_scenes(a: &Scene, b: &Scene) -> (d: Diff)
    requires
        a.wf(),
        b.wf(),
    ensures
        change_views(d.changes@) == diff_changes(a.view_of(), b.view_of()),
{
    let ghost (av, bv) = (a.view_of(), b.view_of());
    let sa = sorted_set(a.ids());
    let sb = sorted_set(b.ids());
    let removed = select_ids(&sa, &sb, false);
    let added = select_ids(&sb, &sa, false);
    let shared = select_ids(&sa, &sb, true);
    let (pairs, _taken) = detect_moves(a, b, &removed, &added);
    let ghost pv = pair_views(pairs@);
    let mut changes: Vec<Change> = Vec::new();
    let mut froms: Vec<EntityId> = Vec::new();
    let mut tos: Vec<EntityId> = Vec::new();
    let mut i: usize = 0;
    while i < pairs.len()
        invariant
            i <= pairs@.len(),
            a.wf(),
            b.wf(),
            av == a.view_of(),
            bv == b.view_of(),
            pv == pair_views(pairs@),
            change_views(changes@) == moved_changes(pv, av, bv).take(i as int),
            ids_view(froms@) == pair_firsts(pv).take(i as int),
            ids_view(tos@) == pair_seconds(pv).take(i as int),
        decreases pairs@.len() - i,
    {
        let ghost before = (changes@, froms@, tos@);
        let c = Change::Moved {
            from: a.describe(&pairs[i].0),
            to: b.describe(&pairs[i].1),
            id: copy_id(&pairs[i].1),
        };
        changes.push(c);
        let f = copy_id(&pairs[i].0);
        froms.push(f);
        let t = copy_id(&pairs[i].1);
        tos.push(t);
        proof {
            assert(ids_view(froms@) =~= ids_view(before.1).push(f@));
            assert(ids_view(tos@) =~= ids_view(before.2).push(t@));
            assert(change_views(changes@) =~= change_views(before.0).push(c@));
            assert(change_views(changes@) =~= moved_changes(pv, av, bv).take(i + 1));
            assert(ids_view(froms@) =~= pair_firsts(pv).take(i + 1));
            assert(ids_view(tos@) =~= pair_seconds(pv).take(i + 1));
        }
        i += 1;
    }
    proof {
        assert(moved_changes(pv, av, bv).take(i as int) =~= moved_changes(pv, av, bv));
        assert(pair_firsts(pv).take(i as int) =~= pair_firsts(pv));
        assert(pair_seconds(pv).take(i as int) =~= pair_seconds(pv));
    }
    let ghost c0 = change_views(changes@);
    let rem = select_ids(&removed, &froms, false);
    let ghost rv = ids_view(rem@);
    let mut k: usize = 0;
    while k < rem.len()
        invariant
            k <= rem@.len(),
            a.wf(),
            av == a.view_of(),
            rv == ids_view(rem@),
            change_views(changes@) == c0 + removed_changes(rv, av).take(k as int),
        decreases rem@.len() - k,
    {
        let ghost before = changes@;
        let c = Change::Removed { entity: a.describe(&rem[k]), id: copy_id(&rem[k]) };
        changes.push(c);
        proof {
            assert(change_views(changes@) =~= change_views(before).push(c@));
            assert(change_views(changes@) =~= c0 + removed_changes(rv, av).take(k + 1));
        }
        k += 1;
    }
    proof {
        assert(removed_changes(rv, av).take(k as int) =~= removed_changes(rv, av));
    }
    let ghost c1 = change_views(changes@);
    let add = select_ids(&added, &tos, false);
    let ghost dv = ids_view(add@);
    let mut k: usize = 0;
    while k < add.len()
        invariant
            k <= add@.len(),
            b.wf(),
            bv == b.view_of(),
            dv == ids_view(add@),
            change_views(changes@) == c1 + added_changes(dv, bv).take(k as int),
        decreases add@.len() - k,
    {
        let ghost before = changes@;
        let c = Change::Added { entity: b.describe(&add[k]), id: copy_id(&add[k]) };
        changes.push(c);
        proof {
            assert(change_views(changes@) =~= change_views(before).push(c@));
            assert(change_views(changes@) =~= c1 + added_changes(dv, bv).take(k + 1));
        }
        k += 1;
    }
    proof {
        assert(added_changes(dv, bv).take(k as int) =~= added_changes(dv, bv));
    }
    let ghost c2 = change_views(changes@);
    let ghost shv = ids_view(shared@);
    let mut k: usize = 0;
    while k < shared.len()
        invariant
            k <= shared@.len(),
            a.wf(),
            b.wf(),
            av == a.view_of(),
            bv == b.view_of(),
            shv == ids_view(shared@),
            change_views(changes@) == c2 + modified_changes(shv.take(k as int), av, bv),
        decreases shared@.len() - k,
    {
        proof {
            assert(shv.take(k + 1).drop_last() =~= shv.take(k as int));
            assert(shv[k as int] == shared@[k as int]@);
            lemma_first_index(av.ids, shv[k as int]);
            lemma_first_index(bv.ids, shv[k as int]);
        }
        let id = &shared[k];
        if let (Some(sa_), Some(sb_)) = (a.section(id), b.section(id)) {
            let (fields, properties) = delta_of(a, sa_, b, sb_);
            if fields.len() > 0 || properties.len() > 0 {
                let ghost before = changes@;
                let c = Change::Modified { entity: b.describe(id), fields, properties, id: copy_id(id) };
                changes.push(c);
                proof {
                    assert(change_views(changes@) =~= change_views(before).push(c@));
                }
            }
        }
        proof {
            assert(change_views(changes@) =~= c2 + modified_changes(shv.take(k + 1), av, bv));
        }
        k += 1;
    }
    proof {
        assert(shv.take(k as int) =~= shv);
    }
    let ghost c3 = change_views(changes@);
    let mut k: usize = 0;
    while k < shared.len()
        invariant
            k <= shared@.len(),
            b.wf(),
            av == a.view_of(),
            bv == b.view_of(),
            shv == ids_view(shared@),
            change_views(changes@) == c3 + reorder_changes(shv.take(k as int), av, bv),
        decreases shared@.len() - k,
    {
        proof {
            assert(shv.take(k + 1).drop_last() =~= shv.take(k as int));
            assert(shv[k as int] == shared@[k as int]@);
        }
        let id = &shared[k];
        let from = position_of(a.ids(), &b.ids, id);
        let to = position_of(b.ids(), &a.ids, id);
        if from != to {
            let ghost before = changes@;
            let c = Change::Reordered { entity: b.describe(id), from, to, id: copy_id(id) };
            changes.push(c);
            proof {
                assert(change_views(changes@) =~= change_views(before).push(c@));
            }
        }
        proof {
            assert(change_views(changes@) =~= c3 + reorder_changes(shv.take(k + 1), av, bv));
        }
        k += 1;
    }
    proof {
        assert(shv.take(k as int) =~= shv);
        assert(change_views(changes@) =~= moved_changes(pv, av, bv) + removed_changes(
            select(ids_view(removed@), pair_firsts(pv), false),
            av,
        ) + added_changes(select(ids_view(added@), pair_seconds(pv), false), bv) + modified_changes(
            shv,
            av,
            bv,
        ) + reorder_changes(shv, av, bv));
    }
    Diff { changes: sort_all(changes) }
}

/// Computes the semantic difference between two parsed documents, numbers
/// compared by the forms `nums` gives them.
pub fn diff(before: &Document, after: &Document, nums: &NumberForms) -> (d: Diff)
    ensures
        change_views(d.changes@) == diff_changes(
            scene_of(*before, nums.table()),
            scene_of(*after, nums.table()),
        ),
{
    let a = Scene::new(before, nums);
    let b = Scene::new(after, nums);
    diff_scenes(&a, &b)
}


// ---------------------------------------------------------------------------
// A document differs from itself in nothing.

proof fn lemma_select_covered(s: Seq<EntityIdView>, o: Seq<EntityIdView>)
    requires
        forall|k: int| 0 <= k < s.len() ==> o.contains(#[trigger] s[k]),
    ensures
        select(s, o, false).len() == 0,
    decreases s.len(),
{
    if s.len() > 0 {
        assert(o.contains(s[s.len() - 1]));
        lemma_select_covered(s.drop_last(), o);
    }
}

proof fn lemma_field_delta_self(names: Seq<Seq<char>>, s: Section, a: SceneView)
    ensures
        field_delta(names, s, s, a, a).len() == 0,
    decreases names.len(),
{
    if names.len() > 0 {
        lemma_field_delta_self(names.drop_last(), s, a);
    }
}

proof fn lemma_prop_delta_self(keys: Seq<Seq<char>>, s: Section, a: SceneView)
    ensures
        prop_delta(keys, s, s, a, a).len() == 0,
    decreases keys.len(),
{
    if keys.len() > 0 {
        lemma_prop_delta_self(keys.drop_last(), s, a);
    }
}

proof fn lemma_modified_self(shared: Seq<EntityIdView>, a: SceneView)
    ensures
        modified_changes(shared, a, a).len() == 0,
    decreases shared.len(),
{
    if shared.len() > 0 {
        lemma_modified_self(shared.drop_last(), a);
        let id = shared.last();
        if let (Some(i), Some(j)) = (first_index(a.ids, id), first_index(a.ids, id)) {
            let s = a.ss[i];
            lemma_field_delta_self(dedup(field_names(s.fields@) + field_names(s.fields@)), s, a);
            lemma_prop_delta_self(dedup(prop_keys(s.props@) + prop_keys(s.props@)), s, a);
        }
    }
}

proof fn lemma_reorder_self(shared: Seq<EntityIdView>, a: SceneView)
    ensures
        reorder_changes(shared, a, a).len() == 0,
    decreases shared.len(),
{
    if shared.len() > 0 {
        lemma_reorder_self(shared.drop_last(), a);
    }
}

/// Diffing a scene against itself reports no change.
pub proof fn lemma_diff_self(a: SceneView)
    ensures
        diff_changes(a, a).len() == 0,
{
    let sa = id_set(a.ids);
    assert forall|k: int| 0 <= k < sa.len() implies sa.contains(#[trigger] sa[k]) by {}
    lemma_select_covered(sa, sa);
    let shared = select(sa, sa, true);
    lemma_modified_self(shared, a);
    lemma_reorder_self(shared, a);
    let removed = select(sa, sa, false);
    let pairs = move_pairs(removed, removed, a, a).0;
    assert(pairs.len() == 0);
    let all = moved_changes(pairs, a, a) + removed_changes(select(removed, pair_firsts(pairs), false), a)
        + added_changes(select(removed, pair_seconds(pairs), false), a) + modified_changes(shared, a, a)
        + reorder_changes(shared, a, a);
    assert(all.len() == 0);
    assert(all =~= Seq::<ChangeView>::empty());
}

/// A document differs from itself in nothing.
pub proof fn lemma_no_document_differs_from_itself(d: Document, nums: NumberForms)
    ensures
        diff_changes(scene_of(d, nums.table()), scene_of(d, nums.table())).len() == 0,
{
    lemma_diff_self(scene_of(d, nums.table()));
}


// ---------------------------------------------------------------------------
// A move pairs a removed node only with an added one of identical contents.

proof fn lemma_free_match(cands: Seq<EntityIdView>, key: Seq<char>, b: SceneView, taken: Seq<EntityIdView>)
    ensures
        free_match(cands, key, b, taken) matches Some(c) ==> c is Node && content_at(b, c) == Some(key)
            && !taken.contains(c) && cands.contains(c),
    decreases cands.len(),
{
    if cands.len() > 0 {
        lemma_free_match(cands.drop_first(), key, b, taken);
        if let Some(c) = free_match(cands.drop_first(), key, b, taken) {
            if cands.drop_first().contains(c) {
                let k = choose|k: int| 0 <= k < cands.drop_first().len() && cands.drop_first()[k] == c;
                assert(cands[k + 1] == c);
            }
        }
        assert(cands.contains(cands[0]));
    }
}

/// Every move the diff reports pairs a removed node with an added node whose
/// contents, all but name, parent and sibling index, are identical; and no
/// added node is paired twice.
pub proof fn lemma_moves_are_content_preserving(
    removed: Seq<EntityIdView>,
    added: Seq<EntityIdView>,
    a: SceneView,
    b: SceneView,
)
    ensures
        ({
            let (pairs, taken) = move_pairs(removed, added, a, b);
            &&& pairs.len() == taken.len()
            &&& forall|k: int|
                0 <= k < pairs.len() ==> (#[trigger] pairs[k]).0 is Node && pairs[k].1 is Node
                    && content_at(a, pairs[k].0) is Some && content_at(a, pairs[k].0) == content_at(
                    b,
                    pairs[k].1,
                ) && taken[k] == pairs[k].1 && removed.contains(pairs[k].0) && added.contains(
                    pairs[k].1,
                )
            &&& forall|i: int, j: int| 0 <= i < j < taken.len() ==> taken[i] != taken[j]
        }),
    decreases removed.len(),
{
    if removed.len() > 0 {
        let r0 = removed.drop_last();
        lemma_moves_are_content_preserving(r0, added, a, b);
        let (pairs, taken) = move_pairs(r0, added, a, b);
        let from = removed.last();
        assert forall|k: int| 0 <= k < pairs.len() implies removed.contains((#[trigger] pairs[k]).0) by {
            let m = choose|m: int| 0 <= m < r0.len() && r0[m] == pairs[k].0;
            assert(removed[m] == pairs[k].0);
        }
        assert(removed[removed.len() - 1] == from);
        if from is Node && content_at(a, from) is Some {
            lemma_free_match(added, content_at(a, from)->Some_0, b, taken);
        }
    }
}

proof fn lemma_last_index_in(ids: Seq<EntityIdView>, id: EntityIdView)
    ensures
        last_index(ids, id) matches Some(l) ==> 0 <= l < ids.len() && ids[l] == id,
        last_index(ids, id) is None ==> !ids.contains(id),
    decreases ids.len(),
{
    if ids.len() > 0 {
        lemma_last_index_in(ids.drop_last(), id);
        if ids.last() != id && ids.contains(id) {
            let i = choose|i: int| 0 <= i < ids.len() && ids[i] == id;
            assert(ids.drop_last()[i] == id);
        }
    }
}

proof fn lemma_rank_count_prefix(s1: Seq<EntityIdView>, s2: Seq<EntityIdView>, n: nat, o: Seq<EntityIdView>, r: u8)
    requires
        n <= s1.len(),
        n <= s2.len(),
        forall|i: int| 0 <= i < n ==> s1[i] == s2[i],
    ensures
        rank_count(s1, n, o, r) == rank_count(s2, n, o, r),
    decreases n,
{
    if n > 0 {
        lemma_rank_count_prefix(s1, s2, (n - 1) as nat, o, r);
        assert(s1[n - 1] == s2[n - 1]);
    }
}

proof fn lemma_rank_count_other(s: Seq<EntityIdView>, n: nat, o1: Seq<EntityIdView>, o2: Seq<EntityIdView>, r: u8)
    requires
        n <= s.len(),
        forall|i: int| 0 <= i < s.len() ==> (o1.contains(#[trigger] s[i]) == o2.contains(s[i])),
    ensures
        rank_count(s, n, o1, r) == rank_count(s, n, o2, r),
    decreases n,
{
    if n > 0 {
        lemma_rank_count_other(s, (n - 1) as nat, o1, o2, r);
        assert(o1.contains(s[n - 1]) == o2.contains(s[n - 1]));
    }
}

proof fn lemma_rank_count_all(ids: Seq<EntityIdView>, o: Seq<EntityIdView>, r: u8)
    ensures
        rank_count(ids, ids.len(), o, r) == rank_count(select(ids, o, true), select(ids, o, true).len(), o, r),
    decreases ids.len(),
{
    if ids.len() > 0 {
        let d = ids.drop_last();
        let s1 = select(d, o, true);
        lemma_rank_count_all(d, o, r);
        lemma_rank_count_prefix(ids, d, d.len(), o, r);
        if o.contains(ids.last()) {
            let s = s1.push(ids.last());
            lemma_rank_count_prefix(s, s1, s1.len(), o, r);
        }
    }
}

proof fn lemma_select_members(s: Seq<EntityIdView>, o: Seq<EntityIdView>)
    ensures
        forall|i: int| 0 <= i < select(s, o, true).len() ==> s.contains(#[trigger] select(s, o, true)[i]) && o.contains(
            select(s, o, true)[i],
        ),
    decreases s.len(),
{
    if s.len() > 0 {
        lemma_select_members(s.drop_last(), o);
        let t = select(s.drop_last(), o, true);
        assert forall|i: int| 0 <= i < select(s, o, true).len() implies s.contains(#[trigger] select(s, o, true)[i])
            && o.contains(select(s, o, true)[i]) by {
            if i < t.len() {
                assert(select(s, o, true)[i] == t[i]);
                let j = choose|j: int| 0 <= j < s.drop_last().len() && s.drop_last()[j] == t[i];
                assert(s[j] == t[i]);
            } else {
                assert(select(s, o, true)[i] == s[s.len() - 1]);
            }
        }
    }
}

/// The position an entity is compared by counts only the entities the other
/// side also has: leaving out every entity the other side lacks does not move
/// it. So an insertion or a deletion elsewhere never shifts a shared entity.
pub proof fn lemma_position_counts_shared_only(ids: Seq<EntityIdView>, other: Seq<EntityIdView>, id: EntityIdView)
    requires
        other.contains(id),
    ensures
        position(ids, other, id) == position(select(ids, other, true), other, id),
    decreases ids.len(),
{
    let r = rank_view(id);
    if ids.len() > 0 {
        let d = ids.drop_last();
        let s1 = select(d, other, true);
        let s = select(ids, other, true);
        lemma_last_index_in(ids, id);
        lemma_last_index_in(d, id);
        lemma_last_index_in(s1, id);
        lemma_last_index_in(s, id);
        if ids.last() == id {
            assert(s == s1.push(id));
            assert(s.last() == id);
            assert(last_index(s, id) == Some(s1.len() as int));
            lemma_rank_count_prefix(ids, d, d.len(), other, r);
            lemma_rank_count_all(d, other, r);
            lemma_rank_count_prefix(s, s1, s1.len(), other, r);
        } else {
            lemma_position_counts_shared_only(d, other, id);
            assert(last_index(ids, id) == last_index(d, id));
            if let Some(l) = last_index(d, id) {
                lemma_rank_count_prefix(ids, d, l as nat, other, r);
            }
            if other.contains(ids.last()) {
                assert(s == s1.push(ids.last()));
                assert(s.drop_last() =~= s1);
                assert(s.last() != id);
                assert(last_index(s, id) == last_index(s1, id));
                if let Some(l) = last_index(s1, id) {
                    lemma_rank_count_prefix(s, s1, l as nat, other, r);
                }
            } else {
                assert(s == s1);
            }
        }
    }
}

/// An insertion is not a reordering: inserting into a list of entities one
/// that the other side does not have leaves the position of every other
/// entity as it was.
pub proof fn lemma_insertion_keeps_positions(
    ids: Seq<EntityIdView>,
    other: Seq<EntityIdView>,
    x: EntityIdView,
    k: int,
    id: EntityIdView,
)
    requires
        0 <= k <= ids.len(),
        !other.contains(x),
        other.contains(id),
    ensures
        position(ids.insert(k, x), other, id) == position(ids, other, id),
{
    lemma_position_counts_shared_only(ids, other, id);
    lemma_position_counts_shared_only(ids.insert(k, x), other, id);
    assert(select(ids.insert(k, x), other, true) == select(ids, other, true)) by {
        lemma_select_insert_absent(ids, other, x, k);
    }
}

proof fn lemma_select_insert_absent(ids: Seq<EntityIdView>, other: Seq<EntityIdView>, x: EntityIdView, k: int)
    requires
        0 <= k <= ids.len(),
        !other.contains(x),
    ensures
        select(ids.insert(k, x), other, true) == select(ids, other, true),
    decreases ids.len(),
{
    let w = ids.insert(k, x);
    if k == ids.len() {
        assert(w.drop_last() =~= ids);
        assert(w.last() == x);
    } else {
        lemma_select_insert_absent(ids.drop_last(), other, x, k);
        assert(w.drop_last() =~= ids.drop_last().insert(k, x));
        assert(w.last() == ids.last());
    }
}

/// What the diff reports as reordered: where the entities the two sides
/// share come in the same relative order on both, no shared entity is
/// reported reordered, however many entities were added or removed around
/// them.
pub proof fn lemma_insertions_are_not_reorderings(a: SceneView, b: SceneView, shared: Seq<EntityIdView>)
    requires
        select(a.ids, b.ids, true) == select(b.ids, a.ids, true),
        forall|i: int| 0 <= i < shared.len() ==> a.ids.contains(#[trigger] shared[i]) && b.ids.contains(shared[i]),
    ensures
        reorder_changes(shared, a, b) == Seq::<ChangeView>::empty(),
    decreases shared.len(),
{
    if shared.len() > 0 {
        let d = shared.drop_last();
        assert forall|i: int| 0 <= i < d.len() implies a.ids.contains(#[trigger] d[i]) && b.ids.contains(d[i]) by {
            assert(d[i] == shared[i]);
        }
        lemma_insertions_are_not_reorderings(a, b, d);
        let id = shared.last();
        assert(a.ids.contains(shared[shared.len() - 1]));
        let c = select(a.ids, b.ids, true);
        lemma_position_counts_shared_only(a.ids, b.ids, id);
        lemma_position_counts_shared_only(b.ids, a.ids, id);
        lemma_select_members(a.ids, b.ids);
        assert forall|i: int| 0 <= i < c.len() implies (b.ids.contains(#[trigger] c[i]) == a.ids.contains(c[i])) by {
        }
        let r = rank_view(id);
        match last_index(c, id) {
            Some(l) => {
                lemma_last_index_in(c, id);
                lemma_rank_count_other(c, l as nat, b.ids, a.ids, r);
            },
            None => {},
        }
    }
}

/// Splitting one side's entities by the other side: the entities kept are
/// exactly those the other side has (or lacks), in their own order.
pub proof fn lemma_select_is_membership_filter(s: Seq<EntityIdView>, other: Seq<EntityIdView>, keep: bool)
    ensures
        select(s, other, keep) == s.filter(|x: EntityIdView| other.contains(x) == keep),
    decreases s.len(),
{
    reveal(Seq::filter);
    if s.len() > 0 {
        lemma_select_is_membership_filter(s.drop_last(), other, keep);
    }
}

/// A property is reported changed exactly when its canonical value differs
/// between the two versions (added and removed ones included), with its raw
/// text before and after.
pub proof fn lemma_prop_delta_reports_changed_values(
    keys: Seq<Seq<char>>,
    sa: Section,
    sb: Section,
    a: SceneView,
    b: SceneView,
)
    ensures
        forall|k: Seq<char>|
            #![trigger keys.contains(k)]
            keys.contains(k) ==> ((exists|i: int|
                0 <= i < prop_delta(keys, sa, sb, a, b).len() && (#[trigger] prop_delta(keys, sa, sb, a, b)[i]).key
                    == k) <==> canon_prop(sa, k, a.ext, a.sub, a.nums) != canon_prop(sb, k, b.ext, b.sub, b.nums)),
        forall|i: int|
            0 <= i < prop_delta(keys, sa, sb, a, b).len() ==> {
                let c = #[trigger] prop_delta(keys, sa, sb, a, b)[i];
                &&& keys.contains(c.key)
                &&& canon_prop(sa, c.key, a.ext, a.sub, a.nums) != canon_prop(sb, c.key, b.ext, b.sub, b.nums)
                &&& c.before == raw_prop(sa, c.key)
                &&& c.after == raw_prop(sb, c.key)
            },
    decreases keys.len(),
{
    if keys.len() > 0 {
        let d = keys.drop_last();
        lemma_prop_delta_reports_changed_values(d, sa, sb, a, b);
        let pd = prop_delta(d, sa, sb, a, b);
        let full = prop_delta(keys, sa, sb, a, b);
        let l = keys.last();
        let differs = canon_prop(sa, l, a.ext, a.sub, a.nums) != canon_prop(sb, l, b.ext, b.sub, b.nums);
        assert(full == if differs {
            pd.push(PropertyChangeView { key: l, before: raw_prop(sa, l), after: raw_prop(sb, l) })
        } else {
            pd
        });
        assert forall|i: int| 0 <= i < full.len() implies {
            let c = #[trigger] full[i];
            &&& keys.contains(c.key)
            &&& canon_prop(sa, c.key, a.ext, a.sub, a.nums) != canon_prop(sb, c.key, b.ext, b.sub, b.nums)
            &&& c.before == raw_prop(sa, c.key)
            &&& c.after == raw_prop(sb, c.key)
        } by {
            if i < pd.len() {
                assert(full[i] == pd[i]);
                let j = choose|j: int| 0 <= j < d.len() && d[j] == pd[i].key;
                assert(keys[j] == d[j]);
            } else {
                assert(keys[keys.len() - 1] == l);
            }
        }
        assert forall|k: Seq<char>| #![trigger keys.contains(k)] keys.contains(k) implies ((exists|i: int|
            0 <= i < full.len() && (#[trigger] full[i]).key == k) <==> canon_prop(sa, k, a.ext, a.sub, a.nums)
            != canon_prop(sb, k, b.ext, b.sub, b.nums)) by {
            if canon_prop(sa, k, a.ext, a.sub, a.nums) != canon_prop(sb, k, b.ext, b.sub, b.nums) {
                if k == l {
                    assert(full[full.len() - 1].key == k);
                } else {
                    let j = choose|j: int| 0 <= j < keys.len() && keys[j] == k;
                    assert(d[j] == k);
                    assert(d.contains(k));
                    let i = choose|i: int| 0 <= i < pd.len() && (#[trigger] pd[i]).key == k;
                    assert(full[i] == pd[i]);
                }
            } else {
                if exists|i: int| 0 <= i < full.len() && (#[trigger] full[i]).key == k {
                    let i = choose|i: int| 0 <= i < full.len() && (#[trigger] full[i]).key == k;
                    assert(canon_prop(sa, full[i].key, a.ext, a.sub, a.nums) != canon_prop(sb, full[i].key, b.ext, b.sub, b.nums));
                }
            }
        }
    }
}

/// A header field is reported changed exactly when it is not one the file
/// format derives and its canonical value differs between the two versions
/// (added and removed ones included), with its raw text before and after.
pub proof fn lemma_field_delta_reports_changed_values(
    names: Seq<Seq<char>>,
    sa: Section,
    sb: Section,
    a: SceneView,
    b: SceneView,
)
    ensures
        forall|k: Seq<char>|
            #![trigger names.contains(k)]
            names.contains(k) ==> ((exists|i: int|
                0 <= i < field_delta(names, sa, sb, a, b).len() && (#[trigger] field_delta(names, sa, sb, a, b)[i]).key
                    == k) <==> (!sa.kind.is_derived_spec(k) && canon_field(sa, k, a.ext, a.sub, a.nums) != canon_field(sb, k, b.ext, b.sub, b.nums))),
        forall|i: int|
            0 <= i < field_delta(names, sa, sb, a, b).len() ==> {
                let c = #[trigger] field_delta(names, sa, sb, a, b)[i];
                &&& names.contains(c.key)
                &&& (!sa.kind.is_derived_spec(c.key) && canon_field(sa, c.key, a.ext, a.sub, a.nums) != canon_field(sb, c.key, b.ext, b.sub, b.nums))
                &&& c.before == raw_field(sa, c.key)
                &&& c.after == raw_field(sb, c.key)
            },
    decreases names.len(),
{
    if names.len() > 0 {
        let d = names.drop_last();
        lemma_field_delta_reports_changed_values(d, sa, sb, a, b);
        let pd = field_delta(d, sa, sb, a, b);
        let full = field_delta(names, sa, sb, a, b);
        let l = names.last();
        let differs = (!sa.kind.is_derived_spec(l) && canon_field(sa, l, a.ext, a.sub, a.nums) != canon_field(sb, l, b.ext, b.sub, b.nums));
        assert(full == if differs {
            pd.push(PropertyChangeView { key: l, before: raw_field(sa, l), after: raw_field(sb, l) })
        } else {
            pd
        });
        assert forall|i: int| 0 <= i < full.len() implies {
            let c = #[trigger] full[i];
            &&& names.contains(c.key)
            &&& (!sa.kind.is_derived_spec(c.key) && canon_field(sa, c.key, a.ext, a.sub, a.nums) != canon_field(sb, c.key, b.ext, b.sub, b.nums))
            &&& c.before == raw_field(sa, c.key)
            &&& c.after == raw_field(sb, c.key)
        } by {
            if i < pd.len() {
                assert(full[i] == pd[i]);
                let j = choose|j: int| 0 <= j < d.len() && d[j] == pd[i].key;
                assert(names[j] == d[j]);
            } else {
                assert(names[names.len() - 1] == l);
            }
        }
        assert forall|k: Seq<char>| #![trigger names.contains(k)] names.contains(k) implies ((exists|i: int|
            0 <= i < full.len() && (#[trigger] full[i]).key == k) <==> (!sa.kind.is_derived_spec(k) && canon_field(sa, k, a.ext, a.sub, a.nums) != canon_field(sb, k, b.ext, b.sub, b.nums))) by {
            if (!sa.kind.is_derived_spec(k) && canon_field(sa, k, a.ext, a.sub, a.nums) != canon_field(sb, k, b.ext, b.sub, b.nums)) {
                if k == l {
                    assert(full[full.len() - 1].key == k);
                } else {
                    let j = choose|j: int| 0 <= j < names.len() && names[j] == k;
                    assert(d[j] == k);
                    assert(d.contains(k));
                    let i = choose|i: int| 0 <= i < pd.len() && (#[trigger] pd[i]).key == k;
                    assert(full[i] == pd[i]);
                }
            } else {
                if exists|i: int| 0 <= i < full.len() && (#[trigger] full[i]).key == k {
                    let i = choose|i: int| 0 <= i < full.len() && (#[trigger] full[i]).key == k;
                    assert(!sa.kind.is_derived_spec(full[i].key) && canon_field(sa, full[i].key, a.ext, a.sub, a.nums) != canon_field(sb, full[i].key, b.ext, b.sub, b.nums));
                }
            }
        }
    }
}

} // verus!
