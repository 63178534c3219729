//! What the node-path walk finds in a document depends only on what the
//! document says: the kind of each section, the names and values of its
//! header fields, the keys and values of its properties. Two documents that a
//! text parses to say the same, so the walk finds the same in either, and a
//! merge that re-reads its own text reports the same stranded references on
//! every run.
use vstd::prelude::*;

use crate::doc::{
    doc_items, field_index, field_items, field_str_spec, fields_refs, parses_to, prop_index, prop_items,
    props_refs, section_items, section_wf, sections_of_spec, Document, Field, Property, Section, SectionKind,
};
use crate::nodepath::{
    add_all, binds_refs, doc_findings, doc_references, doc_tree, endpoint_refs, hand_on, is_instancing, is_unique,
    node_bases_spec, node_phase, node_prop_refs, round_spec, sec_refs, section_references, settle, sub_prop_refs,
    sub_step, tree_instanced, tree_nodes, tree_unique, Bases, ReferenceView, ResolutionView,
};
use crate::scene::node_path_spec;
use crate::value::{ref_views, ValueRef};

verus! {

/// `s` and `t` say the same, and each is well formed.
pub open spec fn same_section(s: Section, t: Section) -> bool {
    &&& section_items(s) == section_items(t)
    &&& section_wf(s)
    &&& section_wf(t)
}

/// `a` and `b` say the same, section by section.
pub open spec fn same_sections(a: Seq<Section>, b: Seq<Section>) -> bool {
    &&& a.len() == b.len()
    &&& forall|i: int| 0 <= i < a.len() ==> same_section(#[trigger] a[i], b[i])
}

proof fn lemma_field_items_drop(fs: Seq<Field>, gs: Seq<Field>)
    requires
        field_items(fs) == field_items(gs),
        fs.len() > 0,
    ensures
        fs.len() == gs.len(),
        field_items(fs.drop_last()) == field_items(gs.drop_last()),
        fs.last().name@ == gs.last().name@,
        fs.last().value@ == gs.last().value@,
{
    assert(field_items(fs).len() == fs.len());
    assert(field_items(gs).len() == gs.len());
    assert(field_items(fs)[fs.len() - 1] == field_items(gs)[fs.len() - 1]);
    assert forall|i: int| 0 <= i < fs.len() - 1 implies #[trigger] field_items(fs.drop_last())[i] == field_items(
        gs.drop_last(),
    )[i] by {
        assert(field_items(fs)[i] == field_items(gs)[i]);
    }
    assert(field_items(fs.drop_last()) =~= field_items(gs.drop_last()));
}

proof fn lemma_prop_items_drop(ps: Seq<Property>, qs: Seq<Property>)
    requires
        prop_items(ps) == prop_items(qs),
        ps.len() > 0,
    ensures
        ps.len() == qs.len(),
        prop_items(ps.drop_last()) == prop_items(qs.drop_last()),
        ps.last().key@ == qs.last().key@,
        ps.last().value@ == qs.last().value@,
{
    assert(prop_items(ps).len() == ps.len());
    assert(prop_items(qs).len() == qs.len());
    assert(prop_items(ps)[ps.len() - 1] == prop_items(qs)[ps.len() - 1]);
    assert forall|i: int| 0 <= i < ps.len() - 1 implies #[trigger] prop_items(ps.drop_last())[i] == prop_items(
        qs.drop_last(),
    )[i] by {
        assert(prop_items(ps)[i] == prop_items(qs)[i]);
    }
    assert(prop_items(ps.drop_last()) =~= prop_items(qs.drop_last()));
}

proof fn lemma_field_index_same(fs: Seq<Field>, gs: Seq<Field>, name: Seq<char>)
    requires
        field_items(fs) == field_items(gs),
    ensures
        field_index(fs, name) == field_index(gs, name),
        field_index(fs, name) matches Some(i) ==> 0 <= i < fs.len() && i < gs.len() && fs[i].value@
            == gs[i].value@,
    decreases fs.len(),
{
    assert(field_items(fs).len() == fs.len());
    assert(field_items(gs).len() == gs.len());
    if fs.len() > 0 {
        lemma_field_items_drop(fs, gs);
        lemma_field_index_same(fs.drop_last(), gs.drop_last(), name);
        if let Some(i) = field_index(fs, name) {
            assert(field_items(fs)[i] == field_items(gs)[i]);
        }
    }
}

proof fn lemma_prop_index_same(ps: Seq<Property>, qs: Seq<Property>, key: Seq<char>)
    requires
        prop_items(ps) == prop_items(qs),
    ensures
        prop_index(ps, key) == prop_index(qs, key),
        prop_index(ps, key) matches Some(i) ==> 0 <= i < ps.len() && i < qs.len() && ps[i].value@
            == qs[i].value@,
    decreases ps.len(),
{
    assert(prop_items(ps).len() == ps.len());
    assert(prop_items(qs).len() == qs.len());
    if ps.len() > 0 {
        lemma_prop_items_drop(ps, qs);
        lemma_prop_index_same(ps.drop_last(), qs.drop_last(), key);
        if let Some(i) = prop_index(ps, key) {
            assert(prop_items(ps)[i] == prop_items(qs)[i]);
        }
    }
}

proof fn lemma_field_str_same(s: Section, t: Section, name: Seq<char>)
    requires
        section_items(s) == section_items(t),
    ensures
        field_str_spec(s, name) == field_str_spec(t, name),
{
    lemma_field_index_same(s.fields@, t.fields@, name);
}

proof fn lemma_fields_refs_same(fs: Seq<Field>, gs: Seq<Field>)
    requires
        field_items(fs) == field_items(gs),
        forall|i: int| 0 <= i < fs.len() ==> ref_views(#[trigger] fs[i].refs@) == crate::value::value_refs(fs[i].value@),
        forall|i: int| 0 <= i < gs.len() ==> ref_views(#[trigger] gs[i].refs@) == crate::value::value_refs(gs[i].value@),
    ensures
        ref_views(fields_refs(fs)) == ref_views(fields_refs(gs)),
    decreases fs.len(),
{
    assert(field_items(fs).len() == fs.len());
    assert(field_items(gs).len() == gs.len());
    if fs.len() > 0 {
        lemma_field_items_drop(fs, gs);
        let (a, b) = (fs.drop_last(), gs.drop_last());
        assert forall|i: int| 0 <= i < a.len() implies ref_views(#[trigger] a[i].refs@) == crate::value::value_refs(
            a[i].value@,
        ) by {
            assert(a[i] == fs[i]);
        }
        assert forall|i: int| 0 <= i < b.len() implies ref_views(#[trigger] b[i].refs@) == crate::value::value_refs(
            b[i].value@,
        ) by {
            assert(b[i] == gs[i]);
        }
        lemma_fields_refs_same(a, b);
        assert(ref_views(fs.last().refs@) == ref_views(gs.last().refs@)) by {
            assert(fs.last() == fs[fs.len() - 1]);
            assert(gs.last() == gs[gs.len() - 1]);
        }
        lemma_ref_views_cat(fields_refs(a), fs.last().refs@);
        lemma_ref_views_cat(fields_refs(b), gs.last().refs@);
    }
}

proof fn lemma_props_refs_same(ps: Seq<Property>, qs: Seq<Property>)
    requires
        prop_items(ps) == prop_items(qs),
        forall|i: int| 0 <= i < ps.len() ==> ref_views(#[trigger] ps[i].refs@) == crate::value::value_refs(ps[i].value@),
        forall|i: int| 0 <= i < qs.len() ==> ref_views(#[trigger] qs[i].refs@) == crate::value::value_refs(qs[i].value@),
    ensures
        ref_views(props_refs(ps)) == ref_views(props_refs(qs)),
    decreases ps.len(),
{
    assert(prop_items(ps).len() == ps.len());
    assert(prop_items(qs).len() == qs.len());
    if ps.len() > 0 {
        lemma_prop_items_drop(ps, qs);
        let (a, b) = (ps.drop_last(), qs.drop_last());
        assert forall|i: int| 0 <= i < a.len() implies ref_views(#[trigger] a[i].refs@) == crate::value::value_refs(
            a[i].value@,
        ) by {
            assert(a[i] == ps[i]);
        }
        assert forall|i: int| 0 <= i < b.len() implies ref_views(#[trigger] b[i].refs@) == crate::value::value_refs(
            b[i].value@,
        ) by {
            assert(b[i] == qs[i]);
        }
        lemma_props_refs_same(a, b);
        assert(ref_views(ps.last().refs@) == ref_views(qs.last().refs@)) by {
            assert(ps.last() == ps[ps.len() - 1]);
            assert(qs.last() == qs[qs.len() - 1]);
        }
        lemma_ref_views_cat(props_refs(a), ps.last().refs@);
        lemma_ref_views_cat(props_refs(b), qs.last().refs@);
    }
}

proof fn lemma_ref_views_cat(a: Seq<ValueRef>, b: Seq<ValueRef>)
    ensures
        ref_views(a + b) == ref_views(a) + ref_views(b),
{
    assert(ref_views(a + b) =~= ref_views(a) + ref_views(b));
}

/// The references of two sections that say the same are the same.
proof fn lemma_sec_refs_same(s: Section, t: Section)
    requires
        same_section(s, t),
    ensures
        ref_views(sec_refs(s)) == ref_views(sec_refs(t)),
{
    assert forall|i: int| 0 <= i < s.fields@.len() implies ref_views(#[trigger] s.fields@[i].refs@)
        == crate::value::value_refs(s.fields@[i].value@) by {
        assert(crate::doc::field_wf(s.fields@[i]));
    }
    assert forall|i: int| 0 <= i < t.fields@.len() implies ref_views(#[trigger] t.fields@[i].refs@)
        == crate::value::value_refs(t.fields@[i].value@) by {
        assert(crate::doc::field_wf(t.fields@[i]));
    }
    assert forall|i: int| 0 <= i < s.props@.len() implies ref_views(#[trigger] s.props@[i].refs@)
        == crate::value::value_refs(s.props@[i].value@) by {
        assert(crate::doc::prop_wf(s.props@[i]));
    }
    assert forall|i: int| 0 <= i < t.props@.len() implies ref_views(#[trigger] t.props@[i].refs@)
        == crate::value::value_refs(t.props@[i].value@) by {
        assert(crate::doc::prop_wf(t.props@[i]));
    }
    lemma_fields_refs_same(s.fields@, t.fields@);
    lemma_props_refs_same(s.props@, t.props@);
    lemma_ref_views_cat(fields_refs(s.fields@), props_refs(s.props@));
    lemma_ref_views_cat(fields_refs(t.fields@), props_refs(t.props@));
}

proof fn lemma_add_all_same(m: Bases, r1: Seq<ValueRef>, r2: Seq<ValueRef>, items: Set<Seq<char>>)
    requires
        ref_views(r1) == ref_views(r2),
    ensures
        add_all(m, r1, items) == add_all(m, r2, items),
    decreases r1.len(),
{
    assert(ref_views(r1).len() == r1.len() && ref_views(r2).len() == r2.len());
    if r1.len() > 0 {
        assert(ref_views(r1.drop_last()) =~= ref_views(r2.drop_last())) by {
            assert forall|i: int| 0 <= i < r1.len() - 1 implies #[trigger] ref_views(r1.drop_last())[i] == ref_views(
                r2.drop_last(),
            )[i] by {
                assert(ref_views(r1)[i] == ref_views(r2)[i]);
            }
        }
        assert(ref_views(r1)[r1.len() - 1] == ref_views(r2)[r1.len() - 1]);
        lemma_add_all_same(m, r1.drop_last(), r2.drop_last(), items);
    }
}

proof fn lemma_hand_on_same(m: Bases, r1: Seq<ValueRef>, r2: Seq<ValueRef>, id: Seq<char>, mine: Set<Seq<char>>)
    requires
        ref_views(r1) == ref_views(r2),
    ensures
        hand_on(m, r1, id, mine) == hand_on(m, r2, id, mine),
    decreases r1.len(),
{
    assert(ref_views(r1).len() == r1.len() && ref_views(r2).len() == r2.len());
    if r1.len() > 0 {
        assert(ref_views(r1.drop_last()) =~= ref_views(r2.drop_last())) by {
            assert forall|i: int| 0 <= i < r1.len() - 1 implies #[trigger] ref_views(r1.drop_last())[i] == ref_views(
                r2.drop_last(),
            )[i] by {
                assert(ref_views(r1)[i] == ref_views(r2)[i]);
            }
        }
        assert(ref_views(r1)[r1.len() - 1] == ref_views(r2)[r1.len() - 1]);
        lemma_hand_on_same(m, r1.drop_last(), r2.drop_last(), id, mine);
    }
}

/// What the walk reads of one section is the same for two sections that say
/// the same.
proof fn lemma_section_same(s: Section, t: Section)
    requires
        same_section(s, t),
    ensures
        s.kind == t.kind,
        node_path_spec(s) == node_path_spec(t),
        is_instancing(s) == is_instancing(t),
        is_unique(s) == is_unique(t),
        forall|name: Seq<char>| #[trigger] field_str_spec(s, name) == field_str_spec(t, name),
        forall|p: Seq<char>, h: bool| #[trigger] node_bases_spec(s, p, h) == node_bases_spec(t, p, h),
        ref_views(sec_refs(s)) == ref_views(sec_refs(t)),
        forall|m: Bases| #[trigger] section_references(m, s) == section_references(m, t),
        forall|m: Bases, items: Set<Seq<char>>| #[trigger] add_all(m, sec_refs(s), items) == add_all(
            m,
            sec_refs(t),
            items,
        ),
        forall|m: Bases| #[trigger] sub_step(m, s) == sub_step(m, t),
{
    assert forall|name: Seq<char>| #[trigger] field_str_spec(s, name) == field_str_spec(t, name) by {
        lemma_field_str_same(s, t, name);
    }
    lemma_field_index_same(s.fields@, t.fields@, "instance"@);
    lemma_field_index_same(s.fields@, t.fields@, "instance_placeholder"@);
    lemma_field_index_same(s.fields@, t.fields@, "binds"@);
    lemma_prop_index_same(s.props@, t.props@, "unique_name_in_owner"@);
    lemma_prop_index_same(s.props@, t.props@, "root_node"@);
    assert(node_path_spec(s) == node_path_spec(t)) by {
        lemma_field_str_same(s, t, "name"@);
        lemma_field_str_same(s, t, "parent"@);
    }
    lemma_sec_refs_same(s, t);
    assert forall|m: Bases, items: Set<Seq<char>>| #[trigger] add_all(m, sec_refs(s), items) == add_all(
        m,
        sec_refs(t),
        items,
    ) by {
        lemma_add_all_same(m, sec_refs(s), sec_refs(t), items);
    }
    assert forall|m: Bases| #[trigger] sub_step(m, s) == sub_step(m, t) by {
        lemma_field_str_same(s, t, "id"@);
        if let Some(id) = field_str_spec(s, "id"@) {
            if m.contains_key(id) {
                lemma_hand_on_same(m, sec_refs(s), sec_refs(t), id, m[id]);
            }
        }
    }
    lemma_node_prop_refs_same(s.props@, t.props@);
    lemma_sub_prop_refs_same(s.props@, t.props@);
    assert forall|m: Bases| #[trigger] section_references(m, s) == section_references(m, t) by {
        lemma_field_str_same(s, t, "id"@);
        lemma_field_str_same(s, t, "from"@);
        lemma_field_str_same(s, t, "to"@);
        lemma_field_str_same(s, t, "path"@);
        assert(endpoint_refs(s, "from"@) == endpoint_refs(t, "from"@));
        assert(endpoint_refs(s, "to"@) == endpoint_refs(t, "to"@));
        assert(binds_refs(s) == binds_refs(t));
    }
}

proof fn lemma_node_prop_refs_same(ps: Seq<Property>, qs: Seq<Property>)
    requires
        prop_items(ps) == prop_items(qs),
    ensures
        forall|node: Seq<char>, b: Seq<Seq<char>>| #[trigger] node_prop_refs(node, ps, b) == node_prop_refs(node, qs, b),
    decreases ps.len(),
{
    assert(prop_items(ps).len() == ps.len());
    assert(prop_items(qs).len() == qs.len());
    if ps.len() > 0 {
        lemma_prop_items_drop(ps, qs);
        lemma_node_prop_refs_same(ps.drop_last(), qs.drop_last());
    }
    assert forall|node: Seq<char>, b: Seq<Seq<char>>| #[trigger] node_prop_refs(node, ps, b) == node_prop_refs(node, qs, b) by {
        if ps.len() > 0 {
            assert(node_prop_refs(node, ps.drop_last(), b) == node_prop_refs(node, qs.drop_last(), b));
        }
    }
}

proof fn lemma_sub_prop_refs_same(ps: Seq<Property>, qs: Seq<Property>)
    requires
        prop_items(ps) == prop_items(qs),
    ensures
        forall|id: Seq<char>, b: Seq<Seq<char>>| #[trigger] sub_prop_refs(id, ps, b) == sub_prop_refs(id, qs, b),
    decreases ps.len(),
{
    assert(prop_items(ps).len() == ps.len());
    assert(prop_items(qs).len() == qs.len());
    if ps.len() > 0 {
        lemma_prop_items_drop(ps, qs);
        lemma_sub_prop_refs_same(ps.drop_last(), qs.drop_last());
    }
    assert forall|id: Seq<char>, b: Seq<Seq<char>>| #[trigger] sub_prop_refs(id, ps, b) == sub_prop_refs(id, qs, b) by {
        if ps.len() > 0 {
            assert(sub_prop_refs(id, ps.drop_last(), b) == sub_prop_refs(id, qs.drop_last(), b));
        }
    }
}

proof fn lemma_same_sections_drop(a: Seq<Section>, b: Seq<Section>)
    requires
        same_sections(a, b),
        a.len() > 0,
    ensures
        same_sections(a.drop_last(), b.drop_last()),
        same_section(a.last(), b.last()),
{
    assert(same_section(a[a.len() - 1], b[a.len() - 1]));
    assert forall|i: int| 0 <= i < a.drop_last().len() implies same_section(
        #[trigger] a.drop_last()[i],
        b.drop_last()[i],
    ) by {
        assert(same_section(a[i], b[i]));
    }
}

proof fn lemma_sections_of_same(a: Seq<Section>, b: Seq<Section>, kind: SectionKind)
    requires
        same_sections(a, b),
    ensures
        same_sections(sections_of_spec(a, kind), sections_of_spec(b, kind)),
    decreases a.len(),
{
    if a.len() > 0 {
        lemma_same_sections_drop(a, b);
        lemma_sections_of_same(a.drop_last(), b.drop_last(), kind);
        let (x, y) = (sections_of_spec(a.drop_last(), kind), sections_of_spec(b.drop_last(), kind));
        if a.last().kind == kind {
            assert forall|i: int| 0 <= i < x.push(a.last()).len() implies same_section(
                #[trigger] x.push(a.last())[i],
                y.push(b.last())[i],
            ) by {
                if i < x.len() {
                    assert(same_section(x[i], y[i]));
                }
            }
            assert(sections_of_spec(a, kind) =~= x.push(a.last()));
            assert(sections_of_spec(b, kind) =~= y.push(b.last()));
        } else {
            assert(sections_of_spec(a, kind) =~= x);
            assert(sections_of_spec(b, kind) =~= y);
        }
    }
}

proof fn lemma_tree_same(a: Seq<Section>, b: Seq<Section>)
    requires
        same_sections(a, b),
    ensures
        tree_nodes(a) == tree_nodes(b),
        tree_instanced(a) == tree_instanced(b),
        tree_unique(a) == tree_unique(b),
        node_phase(a) == node_phase(b),
        forall|m: Bases| #[trigger] round_spec(m, a) == round_spec(m, b),
        forall|m: Bases| #[trigger] doc_references(m, a) == doc_references(m, b),
    decreases a.len(),
{
    if a.len() > 0 {
        lemma_same_sections_drop(a, b);
        lemma_tree_same(a.drop_last(), b.drop_last());
        lemma_section_same(a.last(), b.last());
        let (s, t) = (a.last(), b.last());
        assert(field_str_spec(s, "name"@) == field_str_spec(t, "name"@));
        assert(node_bases_spec(s, node_path_spec(s), true) == node_bases_spec(t, node_path_spec(t), true));
        assert(add_all(
            node_phase(a.drop_last()),
            sec_refs(s),
            node_bases_spec(s, node_path_spec(s), true).to_set(),
        ) == add_all(node_phase(a.drop_last()), sec_refs(t), node_bases_spec(s, node_path_spec(s), true).to_set()));
        assert forall|m: Bases| #[trigger] round_spec(m, a) == round_spec(m, b) by {
            let (m1, g1) = round_spec(m, a.drop_last());
            assert(sub_step(m1, s) == sub_step(m1, t));
        }
        assert forall|m: Bases| #[trigger] doc_references(m, a) == doc_references(m, b) by {
            assert(doc_references(m, a.drop_last()) == doc_references(m, b.drop_last()));
            assert(section_references(m, s) == section_references(m, t));
        }
    }
}

proof fn lemma_settle_same(m: Bases, a: Seq<Section>, b: Seq<Section>, round: nat)
    requires
        same_sections(a, b),
    ensures
        settle(m, a, round) == settle(m, b, round),
    decreases a.len() - round,
{
    lemma_tree_same(a, b);
    assert(round_spec(m, a) == round_spec(m, b));
    let (m1, grew) = round_spec(m, a);
    if !(!grew || round >= a.len()) {
        lemma_settle_same(m1, a, b, round + 1);
    }
}

/// The node-path walk finds the same in two documents whose sections say the
/// same.
pub proof fn lemma_findings_same(d1: Document, d2: Document)
    requires
        same_sections(d1.sections@, d2.sections@),
    ensures
        doc_findings(d1) == doc_findings(d2),
{
    let (a, b) = (d1.sections@, d2.sections@);
    lemma_sections_of_same(a, b, SectionKind::Node);
    lemma_sections_of_same(a, b, SectionKind::SubResource);
    let (na, nb) = (sections_of_spec(a, SectionKind::Node), sections_of_spec(b, SectionKind::Node));
    let (sa, sb) = (sections_of_spec(a, SectionKind::SubResource), sections_of_spec(b, SectionKind::SubResource));
    lemma_tree_same(na, nb);
    lemma_settle_same(node_phase(na), sa, sb, 0);
    assert(doc_tree(d1) == doc_tree(d2));
    assert(crate::nodepath::bases_spec(d1) == crate::nodepath::bases_spec(d2));
    lemma_tree_same(a, b);
}

/// Two documents that one text parses to say the same, section by section.
pub proof fn lemma_parses_say_the_same(src: Seq<char>, d1: Document, d2: Document)
    requires
        parses_to(src, d1),
        parses_to(src, d2),
    ensures
        same_sections(d1.sections@, d2.sections@),
{
    let (a, b) = (d1.sections@, d2.sections@);
    assert(doc_items(a) == doc_items(b));
    assert(doc_items(a).len() == a.len() && doc_items(b).len() == b.len());
    assert forall|i: int| 0 <= i < a.len() implies same_section(#[trigger] a[i], b[i]) by {
        assert(doc_items(a)[i] == doc_items(b)[i]);
        assert(section_wf(a[i]));
        assert(section_wf(b[i]));
    }
}

/// What the node-path walk finds in a text is the same whichever document it
/// reads the text as: every document the text parses to gives the same
/// findings.
pub proof fn lemma_findings_of_text(src: Seq<char>, d1: Document, d2: Document)
    requires
        parses_to(src, d1),
        parses_to(src, d2),
    ensures
        doc_findings(d1) == doc_findings(d2),
{
    lemma_parses_say_the_same(src, d1, d2);
    lemma_findings_same(d1, d2);
}

} // verus!
