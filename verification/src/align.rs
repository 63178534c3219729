//! Matching nodes across versions of a document when their path changed.
//!
//! A node's identity is its scene-tree path, so renaming or reparenting one
//! looks, on its own, like a delete plus an add. Pairing the two back up is the
//! same pairing the semantic diff reports as a move.
//!
//! The pairing is deliberately conservative: two nodes match only when
//! everything about them except their name, parent and sibling index is
//! identical. A branch that renames *and* edits in one step is therefore not
//! matched.
use vstd::prelude::*;

use crate::canon::{lemma_table_view_push, lookup, table_get, table_view, Table};
use crate::diff::{content_at, content_of, has_id, id_less, id_lt, opt_view};
use crate::doc::field_str_spec;
use crate::merge::section_at;
use crate::scene::{
    copy_id, first_index, ids_view, lemma_first_index, same_id, str_or, EntityId, EntityIdView,
    Scene, SceneView,
};
use crate::text::{chars_of, push_chars, push_str, str_eq};
use crate::value::string_views;

verus! {

broadcast use vstd::string::group_string_axioms;

// ---------------------------------------------------------------------------
// Sorting identities, repeats kept.

pub open spec fn insert_by_id(sorted: Seq<EntityIdView>, x: EntityIdView) -> Seq<EntityIdView>
    decreases sorted.len(),
{
    if sorted.len() == 0 {
        seq![x]
    } else if id_lt(x, sorted.last()) {
        insert_by_id(sorted.drop_last(), x).push(sorted.last())
    } else {
        sorted.push(x)
    }
}

/// A stable sort by the order identities have.
pub open spec fn sort_ids(s: Seq<EntityIdView>) -> Seq<EntityIdView>
    decreases s.len(),
{
    if s.len() == 0 {
        seq![]
    } else {
        insert_by_id(sort_ids(s.drop_last()), s.last())
    }
}

proof fn lemma_insert_by_id_at(s: Seq<EntityIdView>, x: EntityIdView, p: int)
    requires
        0 <= p <= s.len(),
        forall|k: int| p <= k < s.len() ==> id_lt(x, #[trigger] s[k]),
        p == 0 || !id_lt(x, s[p - 1]),
    ensures
        insert_by_id(s, x) == s.insert(p, x),
    decreases s.len() - p,
{
    if s.len() == 0 {
        assert(s.insert(p, x) =~= seq![x]);
    } else if p == s.len() {
        assert(s.insert(p, x) =~= s.push(x));
    } else {
        lemma_insert_by_id_at(s.drop_last(), x, p);
        assert(s.insert(p, x) =~= s.drop_last().insert(p, x).push(s.last()));
    }
}

fn insert_sorted_id(v: &mut Vec<EntityId>, x: EntityId)
    ensures
        ids_view(final(v)@) == insert_by_id(ids_view(old(v)@), x@),
{
    let ghost old_v = ids_view(v@);
    let mut p = v.len();
    while p > 0 && id_less(&x, &v[p - 1])
        invariant
            p <= v@.len(),
            old_v == ids_view(v@),
            forall|k: int| p <= k < v@.len() ==> id_lt(x@, #[trigger] v@[k]@),
        decreases p,
    {
        p -= 1;
    }
    proof {
        assert forall|k: int| p <= k < old_v.len() implies id_lt(x@, #[trigger] old_v[k]) by {
            assert(old_v[k] == v@[k]@);
        }
        if p > 0 {
            assert(old_v[p - 1] == v@[p - 1]@);
        }
        lemma_insert_by_id_at(old_v, x@, p as int);
    }
    let ghost xv = x@;
    v.insert(p, x);
    proof {
        assert(ids_view(v@) =~= old_v.insert(p as int, xv));
    }
}

/// The nodes of `from` that `to` does not have, in sorted order.
pub open spec fn missing_nodes(from: Seq<EntityIdView>, to: Seq<EntityIdView>) -> Seq<EntityIdView>
    decreases from.len(),
{
    if from.len() == 0 {
        seq![]
    } else if from.last() is Node && !to.contains(from.last()) {
        missing_nodes(from.drop_last(), to).push(from.last())
    } else {
        missing_nodes(from.drop_last(), to)
    }
}

fn sorted_missing_nodes(from: &[EntityId], to: &[EntityId]) -> (r: Vec<EntityId>)
    ensures
        ids_view(r@) == sort_ids(missing_nodes(ids_view(from@), ids_view(to@))),
{
    let ghost (fv, tv) = (ids_view(from@), ids_view(to@));
    let mut to_list: Vec<EntityId> = Vec::new();
    let mut k: usize = 0;
    while k < to.len()
        invariant
            k <= to@.len(),
            tv == ids_view(to@),
            ids_view(to_list@) == tv.take(k as int),
        decreases to@.len() - k,
    {
        let ghost before = to_list@;
        let c = copy_id(&to[k]);
        to_list.push(c);
        proof {
            assert(to_list@ == before.push(c));
            assert(ids_view(to_list@) =~= ids_view(before).push(c@));
            assert(tv[k as int] == to@[k as int]@);
            assert(ids_view(to_list@) =~= tv.take(k + 1));
        }
        k += 1;
    }
    proof {
        assert(tv.take(k as int) =~= tv);
    }
    let mut out: Vec<EntityId> = Vec::new();
    let mut i: usize = 0;
    while i < from.len()
        invariant
            i <= from@.len(),
            fv == ids_view(from@),
            tv == ids_view(to_list@),
            ids_view(out@) == sort_ids(missing_nodes(fv.take(i as int), tv)),
        decreases from@.len() - i,
    {
        proof {
            assert(fv.take(i + 1).drop_last() =~= fv.take(i as int));
            assert(fv.take(i + 1).last() == fv[i as int]);
            assert(fv[i as int] == from@[i as int]@);
        }
        let is_node = match &from[i] {
            EntityId::Node(_) => true,
            _ => false,
        };
        let ghost m = missing_nodes(fv.take(i as int), tv);
        if is_node && !has_id(&to_list, &from[i]) {
            let c = copy_id(&from[i]);
            insert_sorted_id(&mut out, c);
            proof {
                assert(missing_nodes(fv.take(i + 1), tv) == m.push(fv[i as int]));
                assert(m.push(fv[i as int]).drop_last() =~= m);
            }
        } else {
            proof {
                assert(missing_nodes(fv.take(i + 1), tv) == m);
            }
        }
        i += 1;
    }
    proof {
        assert(fv.take(i as int) =~= fv);
    }
    out
}

// ---------------------------------------------------------------------------
// Node moves.

/// How well a candidate fits a node that left: the reading that changes the
/// least wins, so the same name (a reparent) counts double and the same
/// parent (a rename) once.
pub open spec fn fit(to: SceneView, c: EntityIdView, old_name: Seq<char>, old_parent: Seq<char>) -> nat {
    match section_at(to, c) {
        None => 0,
        Some(s) => (if str_or(field_str_spec(s, "name"@), seq![]) == old_name {
            2nat
        } else {
            0nat
        }) + (if str_or(field_str_spec(s, "parent"@), seq![]) == old_parent {
            1nat
        } else {
            0nat
        }),
    }
}

/// The best of the candidates with contents `key` that are not taken; the
/// last of several equally good ones.
pub open spec fn best_match(
    cands: Seq<EntityIdView>,
    key: Seq<char>,
    to: SceneView,
    taken: Seq<EntityIdView>,
    old_name: Seq<char>,
    old_parent: Seq<char>,
) -> Option<EntityIdView>
    decreases cands.len(),
{
    if cands.len() == 0 {
        None
    } else {
        let best = best_match(cands.drop_last(), key, to, taken, old_name, old_parent);
        let c = cands.last();
        if content_at(to, c) == Some(key) && !taken.contains(c) && (best is None || fit(
            to,
            c,
            old_name,
            old_parent,
        ) >= fit(to, best->Some_0, old_name, old_parent)) {
            Some(c)
        } else {
            best
        }
    }
}

/// Node paths that moved from `from` to `to`, as `(from, to)` pairs, with the
/// new nodes taken so far.
pub open spec fn moves_of(
    gone: Seq<EntityIdView>,
    fresh: Seq<EntityIdView>,
    from: SceneView,
    to: SceneView,
) -> (Seq<(Seq<char>, Seq<char>)>, Seq<EntityIdView>)
    decreases gone.len(),
{
    if gone.len() == 0 {
        (seq![], seq![])
    } else {
        let (pairs, taken) = moves_of(gone.drop_last(), fresh, from, to);
        let old = gone.last();
        match (content_at(from, old), section_at(from, old)) {
            (Some(key), Some(sec)) => match best_match(
                fresh,
                key,
                to,
                taken,
                str_or(field_str_spec(sec, "name"@), seq![]),
                str_or(field_str_spec(sec, "parent"@), seq![]),
            ) {
                Some(t) => (
                    match (old, t) {
                        (EntityIdView::Node(a), EntityIdView::Node(b)) => pairs.push((a, b)),
                        _ => pairs,
                    },
                    taken.push(t),
                ),
                None => (pairs, taken),
            },
            _ => (pairs, taken),
        }
    }
}

/// The node moves between two scenes.
pub open spec fn node_moves_spec(from: SceneView, to: SceneView) -> Seq<(Seq<char>, Seq<char>)> {
    moves_of(
        sort_ids(missing_nodes(from.ids, to.ids)),
        sort_ids(missing_nodes(to.ids, from.ids)),
        from,
        to,
    ).0
}

fn field_or_empty(s: &crate::doc::Section, name: &str) -> (r: String)
    ensures
        r@ == str_or(field_str_spec(*s, name@), seq![]),
{
    let mut out = String::new();
    if let Some(v) = s.field_str(name) {
        push_str(&mut out, v);
    }
    proof {
        assert(out@ =~= str_or(field_str_spec(*s, name@), seq![]));
    }
    out
}

fn fit_of(to: &Scene, c: &EntityId, old_name: &String, old_parent: &String) -> (r: u8)
    requires
        to.wf(),
    ensures
        r as nat == fit(to.view_of(), c@, old_name@, old_parent@),
{
    proof {
        lemma_first_index(to.id_views(), c@);
    }
    match to.section(c) {
        None => 0,
        Some(s) => {
            let name = field_or_empty(s, "name");
            let parent = field_or_empty(s, "parent");
            let a: u8 = if str_eq(name.as_str(), old_name.as_str()) {
                2
            } else {
                0
            };
            let b: u8 = if str_eq(parent.as_str(), old_parent.as_str()) {
                1
            } else {
                0
            };
            a + b
        },
    }
}

/// Node paths that moved between two documents, as `(from, to)` pairs.
pub fn node_moves(from: &Scene, to: &Scene) -> (r: Vec<(String, String)>)
    requires
        from.wf(),
        to.wf(),
    ensures
        table_view(r@) == node_moves_spec(from.view_of(), to.view_of()),
{
    let ghost (fv, tv) = (from.view_of(), to.view_of());
    let gone = sorted_missing_nodes(from.ids(), to.ids());
    let fresh = sorted_missing_nodes(to.ids(), from.ids());
    let ghost (gv, nv) = (ids_view(gone@), ids_view(fresh@));
    // The contents of each new node.
    let mut keys: Vec<Option<String>> = Vec::new();
    let mut k: usize = 0;
    while k < fresh.len()
        invariant
            k <= fresh@.len(),
            to.wf(),
            nv == ids_view(fresh@),
            tv == to.view_of(),
            keys@.len() == k,
            forall|m: int| 0 <= m < k ==> opt_view(#[trigger] keys@[m]) == content_at(tv, nv[m]),
        decreases fresh@.len() - k,
    {
        proof {
            assert(nv[k as int] == fresh@[k as int]@);
        }
        keys.push(content_of(to, &fresh[k]));
        k += 1;
    }
    let mut pairs: Vec<(String, String)> = Vec::new();
    let mut taken: Vec<EntityId> = Vec::new();
    let mut i: usize = 0;
    while i < gone.len()
        invariant
            i <= gone@.len(),
            from.wf(),
            to.wf(),
            gv == ids_view(gone@),
            nv == ids_view(fresh@),
            fv == from.view_of(),
            tv == to.view_of(),
            keys@.len() == fresh@.len(),
            forall|m: int| 0 <= m < keys@.len() ==> opt_view(#[trigger] keys@[m]) == content_at(tv, nv[m]),
            (table_view(pairs@), ids_view(taken@)) == moves_of(gv.take(i as int), nv, fv, tv),
        decreases gone@.len() - i,
    {
        proof {
            assert(gv.take(i + 1).drop_last() =~= gv.take(i as int));
            assert(gv[i as int] == gone@[i as int]@);
            lemma_first_index(from.id_views(), gv[i as int]);
        }
        let old = &gone[i];
        let key = content_of(from, old);
        let section = from.section(old);
        if let (Some(key), Some(sec)) = (key, section) {
            let old_name = field_or_empty(sec, "name");
            let old_parent = field_or_empty(sec, "parent");
            let ghost tk = ids_view(taken@);
            let mut best: Option<usize> = None;
            let mut best_fit: u8 = 0;
            let mut j: usize = 0;
            while j < fresh.len()
                invariant
                    j <= fresh@.len(),
                    to.wf(),
                    nv == ids_view(fresh@),
                    tv == to.view_of(),
                    tk == ids_view(taken@),
                    keys@.len() == fresh@.len(),
                    forall|m: int| 0 <= m < keys@.len() ==> opt_view(#[trigger] keys@[m]) == content_at(tv, nv[m]),
                    match best {
                        Some(b) => b < j && best_match(nv.take(j as int), key@, tv, tk, old_name@, old_parent@)
                            == Some(nv[b as int]) && best_fit as nat == fit(tv, nv[b as int], old_name@, old_parent@),
                        None => best_match(nv.take(j as int), key@, tv, tk, old_name@, old_parent@) is None,
                    },
                decreases fresh@.len() - j,
            {
                proof {
                    assert(nv.take(j + 1).drop_last() =~= nv.take(j as int));
                    assert(nv.take(j + 1).last() == nv[j as int]);
                    assert(nv[j as int] == fresh@[j as int]@);
                }
                let matches = match &keys[j] {
                    Some(c) => str_eq(c.as_str(), key.as_str()),
                    None => false,
                };
                if matches && !has_id(&taken, &fresh[j]) {
                    let f = fit_of(to, &fresh[j], &old_name, &old_parent);
                    if best.is_none() || f >= best_fit {
                        best = Some(j);
                        best_fit = f;
                    }
                }
                j += 1;
            }
            proof {
                assert(nv.take(j as int) =~= nv);
            }
            if let Some(b) = best {
                let ghost (p0, t0) = (table_view(pairs@), ids_view(taken@));
                if let (EntityId::Node(a), EntityId::Node(c)) = (old, &fresh[b]) {
                    let e = (a.clone(), c.clone());
                    proof {
                        lemma_table_view_push(pairs@, e);
                    }
                    pairs.push(e);
                }
                let t = copy_id(&fresh[b]);
                taken.push(t);
                proof {
                    assert(ids_view(taken@) =~= t0.push(nv[b as int]));
                }
            }
        }
        i += 1;
    }
    proof {
        assert(gv.take(i as int) =~= gv);
    }
    pairs
}


// ---------------------------------------------------------------------------
// One shared naming for the three inputs of a merge.

/// Which of the three inputs a lookup refers to.
#[derive(Debug, Clone, Copy, PartialEq, Eq, Structural)]
pub enum Which {
    Base,
    Ours,
    Theirs,
}

/// The three inputs of a merge put into one shared naming: each side gets a
/// table rewriting the node paths it uses into the paths the merged document
/// uses, so an entity one branch renamed is recognised as the one the other
/// branch edited.
#[derive(Debug)]
pub struct Alignment {
    pub base: Vec<(String, String)>,
    pub ours: Vec<(String, String)>,
    pub theirs: Vec<(String, String)>,
    /// Base paths that both branches renamed, to different places.
    pub contested: Vec<String>,
}

/// The tables, and the contested paths, after one base node had its turn.
pub open spec fn align_step(
    b: Seq<char>,
    to_ours: Table,
    to_theirs: Table,
    acc: (Table, Table, Table, Seq<Seq<char>>),
) -> (Table, Table, Table, Seq<Seq<char>>) {
    let o = table_get(to_ours, b);
    let t = table_get(to_theirs, b);
    if o is None && t is None {
        acc
    } else {
        // Both branches moved it somewhere different: our path wins so the
        // file stays coherent.
        let fin = if o is Some { o->Some_0 } else { t->Some_0 };
        (
            acc.0.push((b, fin)),
            acc.1.push((str_or(o, b), fin)),
            acc.2.push((str_or(t, b), fin)),
            if o is Some && t is Some && o != t {
                acc.3.push(b)
            } else {
                acc.3
            },
        )
    }
}

pub open spec fn align_fold(ids: Seq<EntityIdView>, to_ours: Table, to_theirs: Table) -> (
    Table,
    Table,
    Table,
    Seq<Seq<char>>,
)
    decreases ids.len(),
{
    if ids.len() == 0 {
        (seq![], seq![], seq![], seq![])
    } else {
        let acc = align_fold(ids.drop_last(), to_ours, to_theirs);
        match ids.last() {
            EntityIdView::Node(b) => align_step(b, to_ours, to_theirs, acc),
            _ => acc,
        }
    }
}

/// The alignment of a merge's three scenes.
pub open spec fn alignment_spec(base: SceneView, ours: SceneView, theirs: SceneView) -> (
    Table,
    Table,
    Table,
    Seq<Seq<char>>,
) {
    align_fold(base.ids, node_moves_spec(base, ours), node_moves_spec(base, theirs))
}

/// Whether `id` is a node whose merged path is where a base node in
/// `contested` ended up.
pub open spec fn renamed_apart_spec(base_table: Table, contested: Seq<Seq<char>>, id: EntityIdView) -> bool {
    match id {
        EntityIdView::Node(p) => exists|k: int|
            0 <= k < contested.len() && table_get(base_table, #[trigger] contested[k]) == Some(p),
        _ => false,
    }
}

impl Alignment {
    pub open spec fn view_of(&self) -> (Table, Table, Table, Seq<Seq<char>>) {
        (table_view(self.base@), table_view(self.ours@), table_view(self.theirs@), string_views(self.contested@))
    }

    pub open spec fn table_of(&self, which: Which) -> Table {
        match which {
            Which::Base => table_view(self.base@),
            Which::Ours => table_view(self.ours@),
            Which::Theirs => table_view(self.theirs@),
        }
    }

    pub fn new(base: &Scene, ours: &Scene, theirs: &Scene) -> (r: Alignment)
        requires
            base.wf(),
            ours.wf(),
            theirs.wf(),
        ensures
            r.view_of() == alignment_spec(base.view_of(), ours.view_of(), theirs.view_of()),
    {
        let to_ours = node_moves(base, ours);
        let to_theirs = node_moves(base, theirs);
        let ghost (tov, ttv) = (table_view(to_ours@), table_view(to_theirs@));
        let mut r = Alignment { base: Vec::new(), ours: Vec::new(), theirs: Vec::new(), contested: Vec::new() };
        proof {
            assert(r.view_of() =~= (
                Seq::<(Seq<char>, Seq<char>)>::empty(),
                Seq::<(Seq<char>, Seq<char>)>::empty(),
                Seq::<(Seq<char>, Seq<char>)>::empty(),
                Seq::<Seq<char>>::empty(),
            ));
        }
        let ids = base.ids();
        let ghost iv = ids_view(ids@);
        let mut i: usize = 0;
        while i < ids.len()
            invariant
                i <= ids@.len(),
                iv == ids_view(ids@),
                tov == table_view(to_ours@),
                ttv == table_view(to_theirs@),
                r.view_of() == align_fold(iv.take(i as int), tov, ttv),
            decreases ids@.len() - i,
        {
            proof {
                assert(iv.take(i + 1).drop_last() =~= iv.take(i as int));
                assert(iv.take(i + 1).last() == iv[i as int]);
                assert(iv[i as int] == ids@[i as int]@);
            }
            if let EntityId::Node(b) = &ids[i] {
                let o = lookup(&to_ours, b.as_str());
                let t = lookup(&to_theirs, b.as_str());
                if o.is_some() || t.is_some() {
                    let fin: String = match o {
                        Some(x) => x.clone(),
                        None => match t {
                            Some(y) => y.clone(),
                            None => b.clone(),
                        },
                    };
                    if let (Some(x), Some(y)) = (o, t) {
                        if !str_eq(x.as_str(), y.as_str()) {
                            r.contested.push(b.clone());
                        }
                    }
                    let e0 = (b.clone(), fin.clone());
                    proof {
                        lemma_table_view_push(r.base@, e0);
                    }
                    r.base.push(e0);
                    let ok = match o {
                        Some(x) => x.clone(),
                        None => b.clone(),
                    };
                    let e1 = (ok, fin.clone());
                    proof {
                        lemma_table_view_push(r.ours@, e1);
                    }
                    r.ours.push(e1);
                    let tk = match t {
                        Some(y) => y.clone(),
                        None => b.clone(),
                    };
                    let e2 = (tk, fin);
                    proof {
                        lemma_table_view_push(r.theirs@, e2);
                    }
                    r.theirs.push(e2);
                }
            }
            i += 1;
        }
        proof {
            assert(iv.take(i as int) =~= iv);
        }
        r
    }
}


/// The entries of `t` whose two paths differ, each once, in order.
pub open spec fn renames_of(t: Table) -> Table
    decreases t.len(),
{
    if t.len() == 0 {
        seq![]
    } else if t.last().0 == t.last().1 || renames_of(t.drop_last()).contains(t.last()) {
        renames_of(t.drop_last())
    } else {
        renames_of(t.drop_last()).push(t.last())
    }
}

/// `p` rewritten through its longest ancestor that `table` maps, looking at
/// the slashes among its first `cut` characters; `p` itself when none is.
pub open spec fn via_ancestor(table: Table, p: Seq<char>, cut: nat) -> Seq<char>
    decreases cut,
{
    if cut == 0 || cut > p.len() {
        p
    } else if p[cut - 1] == '/' {
        match table_get(table, p.take(cut - 1)) {
            Some(m) => m + p.skip(cut - 1),
            None => via_ancestor(table, p, (cut - 1) as nat),
        }
    } else {
        via_ancestor(table, p, (cut - 1) as nat)
    }
}

/// A node path in a side's naming, in the merged naming. A path with no entry
/// of its own goes through its longest mapped ancestor, so nodes added under a
/// renamed parent follow it.
pub open spec fn align_path(table: Table, p: Seq<char>) -> Seq<char> {
    if table.len() == 0 || p == "."@ {
        p
    } else {
        match table_get(table, p) {
            Some(m) => m,
            None => via_ancestor(table, p, p.len()),
        }
    }
}

/// An identity in a side's naming, in the merged naming.
pub open spec fn align_id(table: Table, id: EntityIdView) -> EntityIdView {
    if table.len() == 0 {
        id
    } else {
        match id {
            EntityIdView::Node(p) => EntityIdView::Node(align_path(table, p)),
            EntityIdView::Connection(from, to, s, m) => EntityIdView::Connection(
                align_path(table, from),
                align_path(table, to),
                s,
                m,
            ),
            EntityIdView::Editable(p) => EntityIdView::Editable(align_path(table, p)),
            _ => id,
        }
    }
}

impl Alignment {
    fn table(&self, which: Which) -> (t: &Vec<(String, String)>)
        ensures
            table_view(t@) == self.table_of(which),
    {
        match which {
            Which::Base => &self.base,
            Which::Ours => &self.ours,
            Which::Theirs => &self.theirs,
        }
    }

    /// Nodes whose path changed, as the base path they had against the path
    /// the merged file gives them.
    pub fn renames(&self) -> (r: Vec<(String, String)>)
        ensures
            table_view(r@) == renames_of(table_view(self.base@)),
    {
        let ghost bv = table_view(self.base@);
        let mut out: Vec<(String, String)> = Vec::new();
        let mut i: usize = 0;
        while i < self.base.len()
            invariant
                i <= self.base@.len(),
                bv == table_view(self.base@),
                table_view(out@) == renames_of(bv.take(i as int)),
            decreases self.base@.len() - i,
        {
            proof {
                assert(bv.take(i + 1).drop_last() =~= bv.take(i as int));
                assert(bv.take(i + 1).last() == bv[i as int]);
            }
            let (before, after) = (&self.base[i].0, &self.base[i].1);
            if !str_eq(before.as_str(), after.as_str()) && !has_pair(&out, before, after) {
                let e = (before.clone(), after.clone());
                proof {
                    lemma_table_view_push(out@, e);
                }
                out.push(e);
            }
            i += 1;
        }
        proof {
            assert(bv.take(i as int) =~= bv);
        }
        out
    }

    /// Whether both branches renamed the base node at `base_path`, to
    /// different places.
    pub fn is_contested(&self, base_path: &str) -> (r: bool)
        ensures
            r == string_views(self.contested@).contains(base_path@),
    {
        let mut i: usize = 0;
        while i < self.contested.len()
            invariant
                i <= self.contested@.len(),
                forall|k: int| 0 <= k < i ==> self.contested@[k]@ != base_path@,
            decreases self.contested@.len() - i,
        {
            if str_eq(self.contested[i].as_str(), base_path) {
                proof {
                    assert(string_views(self.contested@)[i as int] == base_path@);
                }
                return true;
            }
            i += 1;
        }
        proof {
            assert forall|k: int| 0 <= k < string_views(self.contested@).len() implies string_views(
                self.contested@,
            )[k] != base_path@ by {
                assert(string_views(self.contested@)[k] == self.contested@[k]@);
            }
        }
        false
    }

    /// Whether `id` is the node, in the merged naming, that both branches
    /// renamed to different places.
    pub fn renamed_apart(&self, id: &EntityId) -> (r: bool)
        ensures
            r == renamed_apart_spec(table_view(self.base@), string_views(self.contested@), id@),
    {
        match id {
            EntityId::Node(p) => self.lands_contested(p.as_str()),
            _ => false,
        }
    }

    fn lands_contested(&self, p: &str) -> (r: bool)
        ensures
            r == exists|k: int|
                0 <= k < self.contested@.len() && table_get(
                    table_view(self.base@),
                    #[trigger] string_views(self.contested@)[k],
                ) == Some(p@),
    {
        let ghost (bt, cv) = (table_view(self.base@), string_views(self.contested@));
        let mut i: usize = 0;
        while i < self.contested.len()
            invariant
                i <= self.contested@.len(),
                bt == table_view(self.base@),
                cv == string_views(self.contested@),
                forall|k: int| 0 <= k < i ==> table_get(bt, #[trigger] cv[k]) != Some(p@),
            decreases self.contested@.len() - i,
        {
            proof {
                assert(cv[i as int] == self.contested@[i as int]@);
            }
            match lookup(&self.base, self.contested[i].as_str()) {
                Some(q) => {
                    if str_eq(q.as_str(), p) {
                        proof {
                            assert(table_get(bt, cv[i as int]) == Some(p@));
                        }
                        return true;
                    }
                },
                None => {},
            }
            i += 1;
        }
        false
    }

    /// Rewrites one node path from a side's naming into the merged naming.
    pub fn path(&self, which: Which, path: &str) -> (r: String)
        ensures
            r@ == align_path(self.table_of(which), path@),
    {
        let table = self.table(which);
        proof {
            reveal_strlit(".");
        }
        if table.len() == 0 || str_eq(path, ".") {
            return path.to_owned();
        }
        if let Some(mapped) = lookup(table, path) {
            return mapped.clone();
        }
        let cs = chars_of(path);
        let ghost tv = table_view(table@);
        let mut cut = cs.len();
        while cut > 0
            invariant
                cut <= cs@.len(),
                cs@ == path@,
                tv == table_view(table@),
                tv == self.table_of(which),
                tv.len() > 0,
                path@ != "."@,
                table_get(tv, path@) is None,
                via_ancestor(tv, path@, path@.len()) == via_ancestor(tv, path@, cut as nat),
            decreases cut,
        {
            if cs[cut - 1] == '/' {
                let prefix = crate::text::string_of(&cs, 0, cut - 1);
                proof {
                    assert(cs@.subrange(0, cut - 1) =~= path@.take(cut - 1));
                }
                if let Some(mapped) = lookup(table, prefix.as_str()) {
                    let mut out = mapped.clone();
                    push_chars(&mut out, &cs, cut - 1, cs.len());
                    proof {
                        assert(cs@.subrange(cut - 1, cs@.len() as int) =~= path@.skip(cut - 1));
                        assert(path@[cut - 1] == '/');
                        assert(table_get(tv, path@.take(cut - 1)) == Some(mapped@));
                        assert(via_ancestor(tv, path@, cut as nat) == mapped@ + path@.skip(cut - 1));
                    }
                    return out;
                }
            }
            cut -= 1;
        }
        path.to_owned()
    }

    /// Rewrites an identity from a side's naming into the merged naming.
    pub fn id(&self, which: Which, id: &EntityId) -> (r: EntityId)
        ensures
            r@ == align_id(self.table_of(which), id@),
    {
        if self.table(which).len() == 0 {
            return copy_id(id);
        }
        match id {
            EntityId::Node(p) => EntityId::Node(self.path(which, p.as_str())),
            EntityId::Connection(from, to, signal, method) => EntityId::Connection(
                self.path(which, from.as_str()),
                self.path(which, to.as_str()),
                signal.clone(),
                method.clone(),
            ),
            EntityId::Editable(p) => EntityId::Editable(self.path(which, p.as_str())),
            _ => copy_id(id),
        }
    }
}

fn has_pair(t: &Vec<(String, String)>, a: &String, b: &String) -> (r: bool)
    ensures
        r == table_view(t@).contains((a@, b@)),
{
    let ghost tv = table_view(t@);
    let mut i: usize = 0;
    while i < t.len()
        invariant
            i <= t@.len(),
            tv == table_view(t@),
            forall|k: int| 0 <= k < i ==> tv[k] != (a@, b@),
        decreases t@.len() - i,
    {
        if str_eq(t[i].0.as_str(), a.as_str()) && str_eq(t[i].1.as_str(), b.as_str()) {
            proof {
                assert(tv[i as int] == (a@, b@));
            }
            return true;
        }
        i += 1;
    }
    false
}


/// A scene's view with its identities in the merged naming.
pub open spec fn realign(sc: SceneView, table: Table) -> SceneView {
    SceneView {
        ss: sc.ss,
        ids: Seq::new(sc.ids.len(), |i: int| align_id(table, sc.ids[i])),
        ext: sc.ext,
        sub: sc.sub,
        nums: sc.nums,
    }
}

fn copy_table(t: &Vec<(String, String)>) -> (r: Vec<(String, String)>)
    ensures
        table_view(r@) == table_view(t@),
{
    let mut out: Vec<(String, String)> = Vec::new();
    let mut i: usize = 0;
    while i < t.len()
        invariant
            i <= t@.len(),
            table_view(out@) == table_view(t@).take(i as int),
        decreases t@.len() - i,
    {
        let e = (t[i].0.clone(), t[i].1.clone());
        proof {
            lemma_table_view_push(out@, e);
        }
        out.push(e);
        proof {
            assert(table_view(out@) =~= table_view(t@).take(i + 1));
        }
        i += 1;
    }
    proof {
        assert(table_view(t@).take(i as int) =~= table_view(t@));
    }
    out
}

impl Alignment {
    /// `sc` with its identities rewritten from `which`'s naming into the
    /// merged one.
    pub fn scene<'d>(&self, sc: &Scene<'d>, which: Which) -> (r: Scene<'d>)
        requires
            sc.wf(),
        ensures
            r.wf(),
            r.doc == sc.doc,
            r.numbers == sc.numbers,
            r.view_of() == realign(sc.view_of(), self.table_of(which)),
    {
        let ghost t = self.table_of(which);
        let mut ids: Vec<EntityId> = Vec::new();
        let mut i: usize = 0;
        while i < sc.ids.len()
            invariant
                i <= sc.ids@.len(),
                t == self.table_of(which),
                ids@.len() == i,
                forall|k: int| 0 <= k < i ==> (#[trigger] ids@[k])@ == align_id(t, sc.ids@[k]@),
            decreases sc.ids@.len() - i,
        {
            let c = self.id(which, &sc.ids[i]);
            ids.push(c);
            i += 1;
        }
        let r = Scene {
            doc: sc.doc,
            numbers: sc.numbers,
            ids,
            ext_key: copy_table(&sc.ext_key),
            sub_key: copy_table(&sc.sub_key),
        };
        proof {
            assert(r.view_of().ids =~= realign(sc.view_of(), t).ids);
        }
        r
    }
}

} // verus!
