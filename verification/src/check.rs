//! Structural sanity checks: the same invariants Godot's loader relies on.
use vstd::prelude::*;

use crate::doc::{
    doc_text, field_index, field_str_spec, fields_any_refs, props_any_refs, sections_of_spec, Document,
    Section, SectionKind,
};
use crate::nodepath::{
    is_instancing,
    doc_findings, findings, site_text, starts_with, strings, ReferenceView,
    Resolution, ResolutionView,
};
use crate::scene::{node_path, node_path_spec};
use crate::text::{decimal, decimal_text, push_str, signed_decimal, signed_decimal_text, str_eq};
use crate::value::{godot_to_int, id_text, id_text_spec, int_value, is_legacy_id, RefKind, ValueView};

verus! {

broadcast use vstd::string::group_string_axioms;

#[derive(Debug, Clone, Copy, PartialEq, Eq, PartialOrd, Ord, Structural)]
pub enum Severity {
    /// Godot would fail to load the file, or load it wrongly.
    Error,
    /// Harmless but wrong, such as a stale `load_steps`.
    Warning,
}

#[derive(Debug, PartialEq, Eq)]
pub struct CheckIssue {
    pub severity: Severity,
    pub message: String,
}

#[derive(Debug, PartialEq, Eq)]
pub struct CheckReport {
    pub issues: Vec<CheckIssue>,
}

pub open spec fn issue_views(s: Seq<CheckIssue>) -> Seq<(Severity, Seq<char>)> {
    Seq::new(s.len(), |i: int| (s[i].severity, s[i].message@))
}

pub open spec fn err(m: Seq<char>) -> Seq<(Severity, Seq<char>)> {
    seq![(Severity::Error, m)]
}

pub open spec fn warn(m: Seq<char>) -> Seq<(Severity, Seq<char>)> {
    seq![(Severity::Warning, m)]
}

pub open spec fn error_count(s: Seq<CheckIssue>) -> nat
    decreases s.len(),
{
    if s.len() == 0 {
        0
    } else {
        error_count(s.drop_last()) + if s.last().severity == Severity::Error {
            1nat
        } else {
            0nat
        }
    }
}

pub open spec fn errors_of(s: Seq<CheckIssue>) -> Seq<CheckIssue>
    decreases s.len(),
{
    if s.len() == 0 {
        seq![]
    } else {
        errors_of(s.drop_last()) + if s.last().severity == Severity::Error {
            seq![s.last()]
        } else {
            seq![]
        }
    }
}

pub open spec fn deref_issues(s: Seq<&CheckIssue>) -> Seq<CheckIssue> {
    Seq::new(s.len(), |i: int| *s[i])
}

impl CheckReport {
    pub fn new() -> (r: CheckReport)
        ensures
            r.issues@.len() == 0,
    {
        CheckReport { issues: Vec::new() }
    }

    /// The issues that are errors, in order.
    pub fn errors(&self) -> (r: Vec<&CheckIssue>)
        ensures
            deref_issues(r@) == errors_of(self.issues@),
    {
        let mut out: Vec<&CheckIssue> = Vec::new();
        let mut i: usize = 0;
        while i < self.issues.len()
            invariant
                i <= self.issues@.len(),
                deref_issues(out@) == errors_of(self.issues@.take(i as int)),
            decreases self.issues@.len() - i,
        {
            proof {
                assert(self.issues@.take(i + 1).drop_last() =~= self.issues@.take(i as int));
            }
            if self.issues[i].severity == Severity::Error {
                out.push(&self.issues[i]);
            }
            proof {
                assert(deref_issues(out@) =~= errors_of(self.issues@.take(i + 1)));
            }
            i += 1;
        }
        proof {
            assert(self.issues@.take(i as int) =~= self.issues@);
        }
        out
    }

    pub fn has_errors(&self) -> (r: bool)
        ensures
            r == (errors_of(self.issues@).len() > 0),
    {
        self.errors().len() > 0
    }

    fn error(&mut self, message: String)
        ensures
            issue_views(final(self).issues@) == issue_views(old(self).issues@) + err(message@),
    {
        let ghost before = self.issues@;
        self.issues.push(CheckIssue { severity: Severity::Error, message });
        proof {
            assert(issue_views(self.issues@) =~= issue_views(before) + err(message@));
        }
    }

    fn warn(&mut self, message: String)
        ensures
            issue_views(final(self).issues@) == issue_views(old(self).issues@) + warn(message@),
    {
        let ghost before = self.issues@;
        self.issues.push(CheckIssue { severity: Severity::Warning, message });
        proof {
            assert(issue_views(self.issues@) =~= issue_views(before) + warn(message@));
        }
    }
}

fn cat3(a: &str, b: &str, c: &str) -> (s: String)
    ensures
        s@ == a@ + b@ + c@,
{
    let mut out = String::new();
    push_str(&mut out, a);
    push_str(&mut out, b);
    push_str(&mut out, c);
    out
}

fn cat4(a: &str, b: &str, c: &str, d: &str) -> (s: String)
    ensures
        s@ == a@ + b@ + c@ + d@,
{
    let mut out = String::new();
    push_str(&mut out, a);
    push_str(&mut out, b);
    push_str(&mut out, c);
    push_str(&mut out, d);
    out
}

fn cat5(a: &str, b: &str, c: &str, d: &str, e: &str) -> (s: String)
    ensures
        s@ == a@ + b@ + c@ + d@ + e@,
{
    let mut out = String::new();
    push_str(&mut out, a);
    push_str(&mut out, b);
    push_str(&mut out, c);
    push_str(&mut out, d);
    push_str(&mut out, e);
    out
}

fn vec_contains(v: &Vec<String>, x: &str) -> (r: bool)
    ensures
        r == strings(v@).contains(x@),
{
    let mut i: usize = 0;
    while i < v.len()
        invariant
            i <= v@.len(),
            forall|k: int| 0 <= k < i ==> v@[k]@ != x@,
        decreases v@.len() - i,
    {
        if str_eq(v[i].as_str(), x) {
            proof {
                assert(strings(v@)[i as int] == x@);
            }
            return true;
        }
        i += 1;
    }
    proof {
        if strings(v@).contains(x@) {
            let k = choose|k: int| 0 <= k < strings(v@).len() && strings(v@)[k] == x@;
            assert(v@[k]@ == x@);
        }
    }
    false
}

// ---------------------------------------------------------------------------
// Declarations.

/// What checking the id a resource section declares reports, and the ids seen
/// afterwards.
///
/// Godot 4 quotes resource ids. Godot 3 wrote them as bare integers, and a file
/// that still does is not one that can be merged: the id has no stable
/// spelling to renumber, and the `SubResource( 1 )` references to it are
/// written the same legacy way.
pub open spec fn declared_id_spec(s: Section, tag: Seq<char>, seen: Seq<Seq<char>>) -> (
    Option<Seq<char>>,
    Seq<(Severity, Seq<char>)>,
    Seq<Seq<char>>,
) {
    match field_index(s.fields@, "id"@) {
        None => (None, err("["@ + tag + "] has no id"@), seen),
        Some(i) => match id_text_spec(s.fields@[i].value@) {
            None => (None, err("["@ + tag + "] has an id that is neither a string nor a number"@), seen),
            Some(id) => {
                let legacy = if s.fields@[i].value@ is Num {
                    err(
                        "["@ + tag + " id="@ + id
                            + "] uses the Godot 3 unquoted id form; Godot 4 quotes resource ids"@,
                    )
                } else {
                    seq![]
                };
                if seen.contains(id) {
                    (Some(id), legacy + err("duplicate "@ + tag + " id \""@ + id + "\""@), seen)
                } else {
                    (Some(id), legacy, seen.push(id))
                }
            },
        },
    }
}

fn declared_id(s: &Section, tag: &str, seen: &mut Vec<String>, r: &mut CheckReport) -> (id: Option<String>)
    ensures
        ({
            let (sid, msgs, seen2) = declared_id_spec(*s, tag@, strings(old(seen)@));
            &&& issue_views(final(r).issues@) == issue_views(old(r).issues@) + msgs
            &&& strings(final(seen)@) == seen2
            &&& match sid {
                Some(x) => id matches Some(y) && y@ == x,
                None => id is None,
            }
        }),
{
    let field = match s.field("id") {
        Some(f) => f,
        None => {
            r.error(cat3("[", tag, "] has no id"));
            return None;
        },
    };
    let id = match id_text(&field.value) {
        Some(id) => id,
        None => {
            r.error(cat3("[", tag, "] has an id that is neither a string nor a number"));
            return None;
        },
    };
    let ghost r0 = issue_views(r.issues@);
    if is_legacy_id(&field.value) {
        r.error(
            cat5("[", tag, " id=", id.as_str(), "] uses the Godot 3 unquoted id form; Godot 4 quotes resource ids"),
        );
    }
    let ghost r1 = issue_views(r.issues@);
    if vec_contains(seen, id.as_str()) {
        r.error(cat5("duplicate ", tag, " id \"", id.as_str(), "\""));
    } else {
        let ghost before = seen@;
        seen.push(id.clone());
        proof {
            assert(strings(seen@) =~= strings(before).push(id@));
        }
    }
    proof {
        assert(issue_views(r.issues@) =~= issue_views(old(r).issues@) + declared_id_spec(*s, tag@, strings(old(seen)@)).1);
    }
    Some(id)
}

pub type Issues = Seq<(Severity, Seq<char>)>;

pub open spec fn or_question(id: Option<Seq<char>>) -> Seq<char> {
    match id {
        Some(x) => x,
        None => "?"@,
    }
}

pub open spec fn missing_field(s: Section, field: Seq<char>) -> Issues {
    if field_str_spec(s, field) is None {
        err("[connection] is missing '"@ + field + "'"@)
    } else {
        seq![]
    }
}

/// The ids and counts of the resources declared so far, and what was reported.
pub open spec fn section_decl(
    st: (Seq<Seq<char>>, Seq<Seq<char>>, nat, nat, Issues),
    s: Section,
) -> (Seq<Seq<char>>, Seq<Seq<char>>, nat, nat, Issues) {
    match s.kind {
        SectionKind::ExtResource => {
            let (id, msgs, seen) = declared_id_spec(s, "ext_resource"@, st.0);
            let path_msg = if field_str_spec(s, "path"@) is None {
                err("[ext_resource id=\""@ + or_question(id) + "\"] has no path"@)
            } else {
                seq![]
            };
            (seen, st.1, st.2 + 1, st.3, st.4 + msgs + path_msg)
        },
        SectionKind::SubResource => {
            let (id, msgs, seen) = declared_id_spec(s, "sub_resource"@, st.1);
            let type_msg = if field_str_spec(s, "type"@) is None {
                err("[sub_resource id=\""@ + or_question(id) + "\"] has no type"@)
            } else {
                seq![]
            };
            (st.0, seen, st.2, st.3 + 1, st.4 + msgs + type_msg)
        },
        SectionKind::Node => if field_str_spec(s, "name"@) is None {
            (st.0, st.1, st.2, st.3, st.4 + err("[node] has no name"@))
        } else {
            st
        },
        SectionKind::Connection => (
            st.0,
            st.1,
            st.2,
            st.3,
            st.4 + missing_field(s, "signal"@) + missing_field(s, "from"@) + missing_field(s, "to"@)
                + missing_field(s, "method"@),
        ),
        _ => st,
    }
}

pub open spec fn decl_fold(ss: Seq<Section>) -> (Seq<Seq<char>>, Seq<Seq<char>>, nat, nat, Issues)
    decreases ss.len(),
{
    if ss.len() == 0 {
        (seq![], seq![], 0, 0, seq![])
    } else {
        section_decl(decl_fold(ss.drop_last()), ss.last())
    }
}

fn field_missing(s: &Section, field: &str, r: &mut CheckReport)
    ensures
        issue_views(final(r).issues@) == issue_views(old(r).issues@) + missing_field(*s, field@),
{
    if s.field_str(field).is_none() {
        r.error(cat3("[connection] is missing '", field, "'"));
    } else {
        proof {
            assert(issue_views(r.issues@) =~= issue_views(r.issues@) + missing_field(*s, field@));
        }
    }
}

/// Checks what each section declares: resource ids, and the fields Godot
/// needs. Gives the ids declared and how many resources there are.
#[verifier::spinoff_prover]
#[verifier::rlimit(30)]
fn check_declarations(doc: &Document, r: &mut CheckReport) -> (out: (Vec<String>, Vec<String>, usize, usize))
    requires
        doc.sections@.len() < usize::MAX,
    ensures
        ({
            let st = decl_fold(doc.sections@);
            &&& strings(out.0@) == st.0
            &&& strings(out.1@) == st.1
            &&& out.2 == st.2
            &&& out.3 == st.3
            &&& issue_views(final(r).issues@) == issue_views(old(r).issues@) + st.4
            &&& out.2 + out.3 <= doc.sections@.len()
        }),
{
    let mut ext_ids: Vec<String> = Vec::new();
    let mut sub_ids: Vec<String> = Vec::new();
    let mut ext_count: usize = 0;
    let mut sub_count: usize = 0;
    let ghost start = issue_views(r.issues@);
    let mut i: usize = 0;
    while i < doc.sections.len()
        invariant
            i <= doc.sections@.len(),
            ext_count + sub_count <= i,
            ({
                let st = decl_fold(doc.sections@.take(i as int));
                &&& strings(ext_ids@) == st.0
                &&& strings(sub_ids@) == st.1
                &&& ext_count == st.2
                &&& sub_count == st.3
                &&& issue_views(r.issues@) == start + st.4
            }),
        decreases doc.sections@.len() - i,
    {
        proof {
            assert(doc.sections@.take(i + 1).drop_last() =~= doc.sections@.take(i as int));
        }
        let s = &doc.sections[i];
        let ghost before = issue_views(r.issues@);
        match s.kind {
            SectionKind::ExtResource => {
                ext_count += 1;
                let id = declared_id(s, "ext_resource", &mut ext_ids, r);
                if s.field_str("path").is_none() {
                    let shown = match &id {
                        Some(x) => x.as_str(),
                        None => "?",
                    };
                    r.error(cat3("[ext_resource id=\"", shown, "\"] has no path"));
                }
            },
            SectionKind::SubResource => {
                sub_count += 1;
                let id = declared_id(s, "sub_resource", &mut sub_ids, r);
                if s.field_str("type").is_none() {
                    let shown = match &id {
                        Some(x) => x.as_str(),
                        None => "?",
                    };
                    r.error(cat3("[sub_resource id=\"", shown, "\"] has no type"));
                }
            },
            SectionKind::Node => {
                if s.field_str("name").is_none() {
                    r.error("[node] has no name".to_owned());
                }
            },
            SectionKind::Connection => {
                field_missing(s, "signal", r);
                field_missing(s, "from", r);
                field_missing(s, "to", r);
                field_missing(s, "method", r);
            },
            _ => {},
        }
        proof {
            let st = decl_fold(doc.sections@.take(i + 1));
            assert(issue_views(r.issues@) =~= start + st.4);
        }
        i += 1;
    }
    proof {
        assert(doc.sections@.take(i as int) =~= doc.sections@);
    }
    (ext_ids, sub_ids, ext_count, sub_count)
}

// ---------------------------------------------------------------------------
// References.

pub open spec fn ref_msgs(ext_ids: Seq<Seq<char>>, sub_ids: Seq<Seq<char>>, x: (RefKind, Seq<char>, bool)) -> Issues {
    let (kind, id, legacy) = x;
    let known = match kind {
        RefKind::Ext => ext_ids.contains(id),
        RefKind::Sub => sub_ids.contains(id),
    };
    (if legacy {
        err(kind.ctor_spec() + "("@ + id + ") uses the Godot 3 unquoted id form; Godot 4 quotes resource ids"@)
    } else {
        seq![]
    }) + (if !known {
        err("dangling "@ + kind.ctor_spec() + "(\""@ + id + "\") reference"@)
    } else {
        seq![]
    })
}

pub open spec fn refs_msgs(ext_ids: Seq<Seq<char>>, sub_ids: Seq<Seq<char>>, xs: Seq<(RefKind, Seq<char>, bool)>) -> Issues
    decreases xs.len(),
{
    if xs.len() == 0 {
        seq![]
    } else {
        refs_msgs(ext_ids, sub_ids, xs.drop_last()) + ref_msgs(ext_ids, sub_ids, xs.last())
    }
}

pub open spec fn sections_ref_msgs(ext_ids: Seq<Seq<char>>, sub_ids: Seq<Seq<char>>, ss: Seq<Section>) -> Issues
    decreases ss.len(),
{
    if ss.len() == 0 {
        seq![]
    } else {
        sections_ref_msgs(ext_ids, sub_ids, ss.drop_last()) + refs_msgs(
            ext_ids,
            sub_ids,
            fields_any_refs(ss.last().fields@) + props_any_refs(ss.last().props@),
        )
    }
}

/// Every reference has to name a resource the file declares, and be written
/// the Godot 4 way.
#[verifier::spinoff_prover]
#[verifier::rlimit(30)]
fn check_refs(doc: &Document, ext_ids: &Vec<String>, sub_ids: &Vec<String>, r: &mut CheckReport)
    ensures
        issue_views(final(r).issues@) == issue_views(old(r).issues@) + sections_ref_msgs(
            strings(ext_ids@),
            strings(sub_ids@),
            doc.sections@,
        ),
{
    let ghost start = issue_views(r.issues@);
    let ghost e = strings(ext_ids@);
    let ghost u = strings(sub_ids@);
    let mut i: usize = 0;
    while i < doc.sections.len()
        invariant
            i <= doc.sections@.len(),
            e == strings(ext_ids@),
            u == strings(sub_ids@),
            issue_views(r.issues@) == start + sections_ref_msgs(e, u, doc.sections@.take(i as int)),
        decreases doc.sections@.len() - i,
    {
        proof {
            assert(doc.sections@.take(i + 1).drop_last() =~= doc.sections@.take(i as int));
        }
        let all = doc.sections[i].all_refs();
        let ghost xs = crate::value::any_ref_views(all@);
        let ghost mid = issue_views(r.issues@);
        let mut j: usize = 0;
        while j < all.len()
            invariant
                j <= all@.len(),
                xs == crate::value::any_ref_views(all@),
                e == strings(ext_ids@),
                u == strings(sub_ids@),
                issue_views(r.issues@) == mid + refs_msgs(e, u, xs.take(j as int)),
            decreases all@.len() - j,
        {
            proof {
                assert(xs.take(j + 1).drop_last() =~= xs.take(j as int));
                assert(xs[j as int] == (all@[j as int].0, all@[j as int].1@, all@[j as int].2));
            }
            let (kind, id, legacy) = (all[j].0, all[j].1.as_str(), all[j].2);
            let ghost before = issue_views(r.issues@);
            if legacy {
                r.error(cat4(kind.ctor(), "(", id, ") uses the Godot 3 unquoted id form; Godot 4 quotes resource ids"));
            }
            let ghost after_legacy = issue_views(r.issues@);
            let known = match kind {
                RefKind::Ext => vec_contains(ext_ids, id),
                RefKind::Sub => vec_contains(sub_ids, id),
            };
            if !known {
                r.error(cat5("dangling ", kind.ctor(), "(\"", id, "\") reference"));
            }
            proof {
                assert(issue_views(r.issues@) =~= before + ref_msgs(e, u, xs[j as int]));
                assert(issue_views(r.issues@) =~= mid + refs_msgs(e, u, xs.take(j + 1)));
            }
            j += 1;
        }
        proof {
            assert(xs.take(j as int) =~= xs);
            assert(issue_views(r.issues@) =~= start + sections_ref_msgs(e, u, doc.sections@.take(i + 1)));
        }
        i += 1;
    }
    proof {
        assert(doc.sections@.take(i as int) =~= doc.sections@);
    }
}

// ---------------------------------------------------------------------------
// `load_steps`.

/// The integer Godot's loader reads from a field written either way,
/// `load_steps=2` or `load_steps="2"`.
pub open spec fn int_of(v: ValueView) -> Option<int> {
    match v {
        ValueView::Str(t) => Some(godot_to_int(t)),
        ValueView::Num(t) => Some(godot_to_int(t)),
        _ => None,
    }
}

/// `load_steps` is a loader progress hint. Godot omits it entirely in many
/// saved files, so only a present value is checked.
pub open spec fn load_steps_msgs(header: Section, expected: nat) -> Issues {
    match field_index(header.fields@, "load_steps"@) {
        Some(i) => match int_of(header.fields@[i].value@) {
            Some(n) => if n != expected {
                warn("load_steps is "@ + signed_decimal(n) + " but should be "@ + decimal(expected))
            } else {
                seq![]
            },
            None => seq![],
        },
        None => seq![],
    }
}

fn check_load_steps(header: &Section, expected: usize, r: &mut CheckReport)
    ensures
        issue_views(final(r).issues@) == issue_views(old(r).issues@) + load_steps_msgs(*header, expected as nat),
{
    let ghost before = issue_views(r.issues@);
    if let Some(field) = header.field("load_steps") {
        if let Some(declared) = int_value(&field.value) {
            if declared as i128 != expected as i128 {
                let d = signed_decimal_text(declared);
                let x = decimal_text(expected);
                r.warn(cat4("load_steps is ", d.as_str(), " but should be ", x.as_str()));
            }
        }
    }
    proof {
        assert(issue_views(r.issues@) =~= before + load_steps_msgs(*header, expected as nat));
    }
}

// ---------------------------------------------------------------------------
// Nodes.

/// True when `parent` sits inside a scene instanced by one of `instanced`.
///
/// An instanced node's children are defined by the scene it instances, not by
/// this file, so an undeclared parent under one of them is expected. When the
/// root is an instance (path `.`), every path in the file is covered.
pub open spec fn covered_spec(parent: Seq<char>, instanced: Seq<Seq<char>>) -> bool {
    exists|k: int|
        0 <= k < instanced.len() && (#[trigger] instanced[k] == "."@ || parent == instanced[k] || starts_with(
            parent,
            instanced[k] + "/"@,
        ) || starts_with(instanced[k], parent + "/"@))
}

fn covered_by_instance(parent: &str, instanced: &Vec<String>) -> (r: bool)
    ensures
        r == covered_spec(parent@, strings(instanced@)),
{
    let mut i: usize = 0;
    let mut parent_slash = parent.to_owned();
    push_str(&mut parent_slash, "/");
    while i < instanced.len()
        invariant
            i <= instanced@.len(),
            parent_slash@ == parent@ + "/"@,
            forall|k: int| 0 <= k < i ==> !(#[trigger] strings(instanced@)[k] == "."@ || parent@
                == strings(instanced@)[k] || starts_with(parent@, strings(instanced@)[k] + "/"@)
                || starts_with(strings(instanced@)[k], parent@ + "/"@)),
        decreases instanced@.len() - i,
    {
        let inst = instanced[i].as_str();
        let mut inst_slash = inst.to_owned();
        push_str(&mut inst_slash, "/");
        let hit = str_eq(inst, ".") || str_eq(parent, inst) || crate::nodepath::exec_starts_with(
            parent,
            inst_slash.as_str(),
        ) || crate::nodepath::exec_starts_with(inst, parent_slash.as_str());
        proof {
            assert(strings(instanced@)[i as int] == inst@);
        }
        if hit {
            return true;
        }
        i += 1;
    }
    false
}

/// The declared node paths, instancing nodes and root count after the first
/// pass over the nodes, and what it reported.
pub open spec fn nodes_pass(ns: Seq<Section>) -> (Seq<Seq<char>>, Seq<Seq<char>>, nat, Issues)
    decreases ns.len(),
{
    if ns.len() == 0 {
        (seq![], seq![], 0, seq![])
    } else {
        let (paths, instanced, roots, msgs) = nodes_pass(ns.drop_last());
        let s = ns.last();
        let path = node_path_spec(s);
        let roots2 = if field_index(s.fields@, "parent"@) is None {
            roots + 1
        } else {
            roots
        };
        let (paths2, msgs2) = if paths.contains(path) {
            (paths, msgs + err("duplicate node path \""@ + path + "\""@))
        } else {
            (paths.push(path), msgs)
        };
        let instanced2 = if is_instancing(s) {
            instanced.push(path)
        } else {
            instanced
        };
        (paths2, instanced2, roots2, msgs2)
    }
}

pub open spec fn root_msgs(n_nodes: nat, roots: nat) -> Issues {
    (if n_nodes > 0 && roots == 0 {
        err("scene has no root node (every [node] declares a parent)"@)
    } else {
        seq![]
    }) + (if roots > 1 {
        err("scene has "@ + decimal(roots) + " root nodes; exactly one is allowed"@)
    } else {
        seq![]
    })
}

pub open spec fn parent_msgs(ns: Seq<Section>, paths: Seq<Seq<char>>, instanced: Seq<Seq<char>>) -> Issues
    decreases ns.len(),
{
    if ns.len() == 0 {
        seq![]
    } else {
        let s = ns.last();
        parent_msgs(ns.drop_last(), paths, instanced) + match field_str_spec(s, "parent"@) {
            Some(p) => if p == "."@ || paths.contains(p) || covered_spec(p, instanced) {
                seq![]
            } else {
                err(
                    "node \""@ + node_path_spec(s) + "\" has parent \""@ + p
                        + "\", which is not a node in this file"@,
                )
            },
            None => seq![],
        }
    }
}

/// The (parent, index) slot each node with both occupies, in order.
pub open spec fn index_slots(ns: Seq<Section>) -> Seq<(Seq<char>, int)>
    decreases ns.len(),
{
    if ns.len() == 0 {
        seq![]
    } else {
        let s = ns.last();
        index_slots(ns.drop_last()) + match (field_str_spec(s, "parent"@), field_index(s.fields@, "index"@)) {
            (Some(p), Some(i)) => match int_of(s.fields@[i].value@) {
                Some(n) => seq![(p, n)],
                None => seq![],
            },
            _ => seq![],
        }
    }
}

/// The distinct slots in order of first use, each with how many nodes use it.
pub open spec fn slot_counts(slots: Seq<(Seq<char>, int)>) -> Seq<((Seq<char>, int), nat)>
    decreases slots.len(),
{
    if slots.len() == 0 {
        seq![]
    } else {
        let g = slot_counts(slots.drop_last());
        let x = slots.last();
        if exists|k: int| 0 <= k < g.len() && g[k].0 == x {
            let k = choose|k: int| 0 <= k < g.len() && g[k].0 == x;
            g.update(k, (x, g[k].1 + 1))
        } else {
            g.push((x, 1nat))
        }
    }
}

pub open spec fn slot_msgs(g: Seq<((Seq<char>, int), nat)>) -> Issues
    decreases g.len(),
{
    if g.len() == 0 {
        seq![]
    } else {
        let ((p, n), c) = g.last();
        slot_msgs(g.drop_last()) + if c > 1 {
            err(decimal(c) + " children of \""@ + p + "\" share index "@ + signed_decimal(n))
        } else {
            seq![]
        }
    }
}

pub open spec fn check_nodes_spec(ns: Seq<Section>) -> Issues {
    let (paths, instanced, roots, msgs) = nodes_pass(ns);
    msgs + root_msgs(ns.len(), roots) + parent_msgs(ns, paths, instanced) + slot_msgs(
        slot_counts(index_slots(ns)),
    )
}

pub open spec fn slot_views(g: Seq<(String, i64, usize)>) -> Seq<((Seq<char>, int), nat)> {
    Seq::new(g.len(), |i: int| ((g[i].0@, g[i].1 as int), g[i].2 as nat))
}

pub open spec fn distinct_slots(g: Seq<((Seq<char>, int), nat)>) -> bool {
    forall|a: int, b: int| 0 <= a < b < g.len() ==> (#[trigger] g[a]).0 != (#[trigger] g[b]).0
}

proof fn lemma_slot_counts(slots: Seq<(Seq<char>, int)>)
    ensures
        distinct_slots(slot_counts(slots)),
        slot_counts(slots).len() <= slots.len(),
        forall|k: int| 0 <= k < slot_counts(slots).len() ==> #[trigger] slot_counts(slots)[k].1 <= slots.len(),
    decreases slots.len(),
{
    if slots.len() > 0 {
        lemma_slot_counts(slots.drop_last());
    }
}

#[verifier::spinoff_prover]
#[verifier::rlimit(40)]
fn find_slot(groups: &Vec<(String, i64, usize)>, parent: &str, index: i64) -> (r: Option<usize>)
    ensures
        r matches Some(k) ==> k < groups@.len() && slot_views(groups@)[k as int].0 == (parent@, index as int),
        r is None ==> forall|m: int| 0 <= m < groups@.len() ==> (#[trigger] slot_views(groups@)[m]).0 != (parent@, index as int),
{
    let mut k: usize = 0;
    while k < groups.len()
        invariant
            k <= groups@.len(),
            forall|m: int| 0 <= m < k ==> (#[trigger] slot_views(groups@)[m]).0 != (parent@, index as int),
        decreases groups@.len() - k,
    {
        proof {
            assert(slot_views(groups@)[k as int] == ((groups@[k as int].0@, groups@[k as int].1 as int), groups@[k as int].2 as nat));
        }
        if groups[k].1 == index && str_eq(groups[k].0.as_str(), parent) {
            return Some(k);
        }
        k += 1;
    }
    None
}

fn check_nodes(doc: &Document, r: &mut CheckReport)
    ensures
        issue_views(final(r).issues@) == issue_views(old(r).issues@) + check_nodes_spec(
            sections_of_spec(doc.sections@, SectionKind::Node),
        ),
{
    let nodes = doc.sections_of(SectionKind::Node);
    let ghost ns = crate::doc::derefs(nodes@);
    let ghost start = issue_views(r.issues@);
    let mut paths: Vec<String> = Vec::new();
    let mut instanced: Vec<String> = Vec::new();
    let mut roots: usize = 0;
    let mut i: usize = 0;
    while i < nodes.len()
        invariant
            i <= nodes@.len(),
            ns == crate::doc::derefs(nodes@),
            roots <= i,
            ({
                let (p, inst, rc, msgs) = nodes_pass(ns.take(i as int));
                &&& strings(paths@) == p
                &&& strings(instanced@) == inst
                &&& roots == rc
                &&& issue_views(r.issues@) == start + msgs
            }),
        decreases nodes@.len() - i,
    {
        let s = nodes[i];
        proof {
            assert(ns.take(i + 1).drop_last() =~= ns.take(i as int));
            assert(ns.take(i + 1).last() == *s);
        }
        let path = node_path(s);
        if s.field("parent").is_none() {
            roots += 1;
        }
        if vec_contains(&paths, path.as_str()) {
            r.error(cat3("duplicate node path \"", path.as_str(), "\""));
        } else {
            let ghost before = paths@;
            paths.push(path.clone());
            proof {
                assert(strings(paths@) =~= strings(before).push(path@));
            }
        }
        if s.field("instance").is_some() || s.field("instance_placeholder").is_some() {
            let ghost before = instanced@;
            instanced.push(path);
            proof {
                assert(strings(instanced@) =~= strings(before).push(node_path_spec(*s)));
            }
        }
        i += 1;
    }
    proof {
        assert(ns.take(i as int) =~= ns);
    }
    let ghost after_pass = issue_views(r.issues@);
    if nodes.len() > 0 && roots == 0 {
        r.error("scene has no root node (every [node] declares a parent)".to_owned());
    }
    if roots > 1 {
        let n = decimal_text(roots);
        r.error(cat3("scene has ", n.as_str(), " root nodes; exactly one is allowed"));
    }
    proof {
        assert(issue_views(r.issues@) =~= after_pass + root_msgs(ns.len(), roots as nat));
    }
    let ghost after_roots = issue_views(r.issues@);
    let ghost pv = strings(paths@);
    let ghost iv = strings(instanced@);
    let mut i: usize = 0;
    while i < nodes.len()
        invariant
            i <= nodes@.len(),
            ns == crate::doc::derefs(nodes@),
            pv == strings(paths@),
            iv == strings(instanced@),
            issue_views(r.issues@) == after_roots + parent_msgs(ns.take(i as int), pv, iv),
        decreases nodes@.len() - i,
    {
        let s = nodes[i];
        proof {
            assert(ns.take(i + 1).drop_last() =~= ns.take(i as int));
            assert(ns.take(i + 1).last() == *s);
        }
        i += 1;
        let parent = match s.field_str("parent") {
            Some(p) => p,
            None => {
                proof {
                    assert(issue_views(r.issues@) =~= after_roots + parent_msgs(ns.take(i as int), pv, iv));
                }
                continue;
            },
        };
        if str_eq(parent, ".") || vec_contains(&paths, parent) || covered_by_instance(parent, &instanced) {
            proof {
                assert(issue_views(r.issues@) =~= after_roots + parent_msgs(ns.take(i as int), pv, iv));
            }
            continue;
        }
        let path = node_path(s);
        r.error(
            cat5("node \"", path.as_str(), "\" has parent \"", parent, "\", which is not a node in this file"),
        );
        proof {
            assert(issue_views(r.issues@) =~= after_roots + parent_msgs(ns.take(i as int), pv, iv));
        }
    }
    proof {
        assert(ns.take(i as int) =~= ns);
    }
    let ghost after_parents = issue_views(r.issues@);
    // Slots in order of first use, with how many nodes share each.
    let mut groups: Vec<(String, i64, usize)> = Vec::new();
    let mut i: usize = 0;
    while i < nodes.len()
        invariant
            i <= nodes@.len(),
            ns == crate::doc::derefs(nodes@),
            slot_views(groups@) == slot_counts(index_slots(ns.take(i as int))),
            index_slots(ns.take(i as int)).len() <= i,
        decreases nodes@.len() - i,
    {
        let s = nodes[i];
        proof {
            assert(ns.take(i + 1).drop_last() =~= ns.take(i as int));
            assert(ns.take(i + 1).last() == *s);
            lemma_slot_counts(index_slots(ns.take(i as int)));
        }
        i += 1;
        let parent = match s.field_str("parent") {
            Some(p) => p,
            None => {
                proof {
                    assert(index_slots(ns.take(i as int)) =~= index_slots(ns.take(i - 1)));
                }
                continue;
            },
        };
        let index = match s.field("index") {
            Some(f) => match int_value(&f.value) {
                Some(n) => n,
                None => {
                    proof {
                        assert(index_slots(ns.take(i as int)) =~= index_slots(ns.take(i - 1)));
                    }
                    continue;
                },
            },
            None => {
                proof {
                    assert(index_slots(ns.take(i as int)) =~= index_slots(ns.take(i - 1)));
                }
                continue;
            },
        };
        let ghost slots = index_slots(ns.take(i - 1));
        let ghost x = (parent@, index as int);
        proof {
            assert(index_slots(ns.take(i as int)) =~= slots.push(x));
            assert(slots.push(x).drop_last() =~= slots);
        }
        let ghost g = slot_views(groups@);
        let found = find_slot(&groups, parent, index);
        let k = match found {
            Some(k) => k,
            None => groups.len(),
        };
        if k < groups.len() {
            proof {
                assert(g[k as int].0 == x);
                let c = choose|c: int| 0 <= c < g.len() && g[c].0 == x;
                assert(c == k as int);
            }
            let old_count = groups[k].2;
            let entry = (groups[k].0.clone(), groups[k].1, old_count + 1);
            groups.set(k, entry);
            proof {
                assert(slot_views(groups@) =~= g.update(k as int, (x, g[k as int].1 + 1)));
            }
        } else {
            groups.push((parent.to_owned(), index, 1));
            proof {
                assert(slot_views(groups@) =~= g.push((x, 1nat)));
            }
        }
    }
    proof {
        assert(ns.take(i as int) =~= ns);
    }
    let ghost gv = slot_views(groups@);
    let mut k: usize = 0;
    while k < groups.len()
        invariant
            k <= groups@.len(),
            gv == slot_views(groups@),
            issue_views(r.issues@) == after_parents + slot_msgs(gv.take(k as int)),
        decreases groups@.len() - k,
    {
        proof {
            assert(gv.take(k + 1).drop_last() =~= gv.take(k as int));
        }
        let (parent, index, n) = (groups[k].0.as_str(), groups[k].1, groups[k].2);
        if n > 1 {
            let count = decimal_text(n);
            let idx = signed_decimal_text(index);
            r.error(cat5(count.as_str(), " children of \"", parent, "\" share index ", idx.as_str()));
            proof {
                assert(issue_views(r.issues@) =~= after_parents + slot_msgs(gv.take(k + 1)));
            }
        } else {
            proof {
                assert(issue_views(r.issues@) =~= after_parents + slot_msgs(gv.take(k + 1)));
            }
        }
        k += 1;
    }
    proof {
        assert(gv.take(k as int) =~= gv);
        assert(issue_views(r.issues@) =~= start + check_nodes_spec(ns));
    }
}

// ---------------------------------------------------------------------------
// Node paths.

pub open spec fn finding_msg(r: ReferenceView, res: ResolutionView) -> Issues {
    let head = "NodePath(\""@ + r.path + "\") in "@ + site_text(r.site);
    match res {
        ResolutionView::Missing(target) => err(
            head + " points at \""@ + target + "\", which is not a node in this file"@,
        ),
        ResolutionView::Instanced => warn(head + " reaches into an instanced scene and cannot be checked here"@),
        ResolutionView::UnknownUniqueName { name, supplied_elsewhere } => if supplied_elsewhere {
            warn(
                head + " uses the unique name \"%"@ + name
                    + "\", which this file does not declare; an instanced scene may supply it"@,
            )
        } else {
            err(head + " uses the unique name \"%"@ + name + "\", which no node in this file declares"@)
        },
        _ => seq![],
    }
}

pub open spec fn findings_msgs(f: Seq<(ReferenceView, ResolutionView)>) -> Issues
    decreases f.len(),
{
    if f.len() == 0 {
        seq![]
    } else {
        findings_msgs(f.drop_last()) + finding_msg(f.last().0, f.last().1)
    }
}

/// Every `NodePath` in the file has to name something.
///
/// A path that definitely resolves to nothing is an error: it is a scene wired
/// to a node that is not there, which loads fine and then does nothing. Paths
/// that leave the file, reach into an instanced scene, or use a unique name
/// this file does not declare cannot be judged from here, so they are reported
/// as warnings or not at all rather than guessed at.
fn check_node_paths(doc: &Document, r: &mut CheckReport)
    ensures
        issue_views(final(r).issues@) == issue_views(old(r).issues@) + findings_msgs(doc_findings(*doc)),
{
    let found = findings(doc);
    let ghost fv = crate::nodepath::finding_views(found@);
    let ghost start = issue_views(r.issues@);
    let mut i: usize = 0;
    while i < found.len()
        invariant
            i <= found@.len(),
            fv == crate::nodepath::finding_views(found@),
            issue_views(r.issues@) == start + findings_msgs(fv.take(i as int)),
        decreases found@.len() - i,
    {
        proof {
            assert(fv.take(i + 1).drop_last() =~= fv.take(i as int));
        }
        let (reference, outcome) = (&found[i].0, &found[i].1);
        let site = reference.site.describe();
        let head = cat4("NodePath(\"", reference.path.as_str(), "\") in ", site.as_str());
        match outcome {
            Resolution::Missing(target) => {
                r.error(cat4(head.as_str(), " points at \"", target.as_str(), "\", which is not a node in this file"));
            },
            Resolution::Instanced => {
                r.warn(cat3(head.as_str(), " reaches into an instanced scene and cannot be checked here", ""));
                proof {
                    reveal_strlit("");
                }
            },
            Resolution::UnknownUniqueName { name, supplied_elsewhere } => {
                if *supplied_elsewhere {
                    r.warn(
                        cat4(
                            head.as_str(),
                            " uses the unique name \"%",
                            name.as_str(),
                            "\", which this file does not declare; an instanced scene may supply it",
                        ),
                    );
                } else {
                    r.error(
                        cat4(head.as_str(), " uses the unique name \"%", name.as_str(), "\", which no node in this file declares"),
                    );
                }
            },
            _ => {},
        }
        proof {
            assert(issue_views(r.issues@) =~= start + findings_msgs(fv.take(i + 1)));
        }
        i += 1;
    }
    proof {
        assert(fv.take(i as int) =~= fv);
    }
}

/// The issues a check reports before it walks node paths.
pub open spec fn check_prefix(doc: Document, source: Seq<char>) -> Issues {
    let decl = decl_fold(doc.sections@);
    (if doc_text(doc) != source {
        err("re-serialising the parsed file does not reproduce it byte for byte"@)
    } else {
        seq![]
    }) + decl.4 + sections_ref_msgs(decl.0, decl.1, doc.sections@) + load_steps_msgs(
        doc.sections@[0],
        decl.2 + decl.3 + 1,
    ) + check_nodes_spec(sections_of_spec(doc.sections@, SectionKind::Node))
}

/// Runs every structural check over a parsed document.
///
/// `source` is the original text; it is re-serialised to confirm the round
/// trip is lossless, which is the invariant everything else here depends on.
pub fn check(doc: &Document, source: &str) -> (r: CheckReport)
    requires
        doc.sections@.len() > 0,
        doc.sections@.len() < usize::MAX,
    ensures
        issue_views(r.issues@) == check_prefix(*doc, source@) + findings_msgs(doc_findings(*doc)),
{
    let mut r = CheckReport::new();
    let text = doc.to_source();
    if !str_eq(text.as_str(), source) {
        r.error("re-serialising the parsed file does not reproduce it byte for byte".to_owned());
    }
    let (ext_ids, sub_ids, ext_count, sub_count) = check_declarations(doc, &mut r);
    check_refs(doc, &ext_ids, &sub_ids, &mut r);
    check_load_steps(doc.header(), ext_count + sub_count + 1, &mut r);
    check_nodes(doc, &mut r);
    let ghost before_paths = issue_views(r.issues@);
    proof {
        assert(before_paths =~= check_prefix(*doc, source@));
    }
    check_node_paths(doc, &mut r);
    r
}

/// The id a resource declaration gives itself, quoted or bare.
pub open spec fn declared_resource_id(s: Section) -> Option<Seq<char>> {
    match field_index(s.fields@, "id"@) {
        Some(i) => crate::value::id_text_spec(s.fields@[i].value@),
        None => None,
    }
}

/// The section kind of external (`true`) or sub-resource (`false`)
/// declarations, and its tag.
pub open spec fn resource_kind(ext: bool) -> SectionKind {
    if ext {
        SectionKind::ExtResource
    } else {
        SectionKind::SubResource
    }
}

pub open spec fn resource_tag(ext: bool) -> Seq<char> {
    if ext {
        "ext_resource"@
    } else {
        "sub_resource"@
    }
}

/// The ids recorded so far for one kind of resource.
pub open spec fn seen_ids(st: (Seq<Seq<char>>, Seq<Seq<char>>, nat, nat, Issues), ext: bool) -> Seq<Seq<char>> {
    if ext {
        st.0
    } else {
        st.1
    }
}

proof fn lemma_seq_contains_cat(a: Issues, b: Issues, e: (Severity, Seq<char>))
    requires
        a.contains(e) || b.contains(e),
    ensures
        (a + b).contains(e),
{
    if a.contains(e) {
        let i = choose|i: int| 0 <= i < a.len() && a[i] == e;
        assert((a + b)[i] == e);
    } else {
        let i = choose|i: int| 0 <= i < b.len() && b[i] == e;
        assert((a + b)[a.len() + i] == e);
    }
}

proof fn lemma_decl_keeps_issues(st: (Seq<Seq<char>>, Seq<Seq<char>>, nat, nat, Issues), s: Section, e: (Severity, Seq<char>))
    requires
        st.4.contains(e),
    ensures
        section_decl(st, s).4.contains(e),
{
    let t = section_decl(st, s).4;
    let i = choose|i: int| 0 <= i < st.4.len() && st.4[i] == e;
    assert(t.len() >= st.4.len() && t[i] == st.4[i]) by {
        match s.kind {
            SectionKind::ExtResource => {
                let (id, msgs, seen) = declared_id_spec(s, "ext_resource"@, st.0);
                let pm = if field_str_spec(s, "path"@) is None {
                    err("[ext_resource id=\""@ + or_question(id) + "\"] has no path"@)
                } else {
                    seq![]
                };
                assert(t == st.4 + msgs + pm);
                assert((st.4 + msgs + pm)[i] == st.4[i]);
            },
            SectionKind::SubResource => {
                let (id, msgs, seen) = declared_id_spec(s, "sub_resource"@, st.1);
                let tm = if field_str_spec(s, "type"@) is None {
                    err("[sub_resource id=\""@ + or_question(id) + "\"] has no type"@)
                } else {
                    seq![]
                };
                assert(t == st.4 + msgs + tm);
                assert((st.4 + msgs + tm)[i] == st.4[i]);
            },
            SectionKind::Node => {},
            SectionKind::Connection => {
                let x = missing_field(s, "signal"@) + missing_field(s, "from"@) + missing_field(s, "to"@)
                    + missing_field(s, "method"@);
                assert(t == st.4 + x);
                assert((st.4 + x)[i] == st.4[i]);
            },
            _ => {},
        }
    }
}

proof fn lemma_decl_fold_keeps(ss: Seq<Section>, k: int, e: (Severity, Seq<char>))
    requires
        0 <= k <= ss.len(),
        decl_fold(ss.take(k)).4.contains(e),
    ensures
        decl_fold(ss).4.contains(e),
    decreases ss.len() - k,
{
    if k == ss.len() {
        assert(ss.take(k) =~= ss);
    } else {
        assert(ss.take(k + 1).drop_last() =~= ss.take(k));
        assert(ss.take(k + 1).last() == ss[k]);
        lemma_decl_keeps_issues(decl_fold(ss.take(k)), ss[k], e);
        lemma_decl_fold_keeps(ss, k + 1, e);
    }
}

/// Every id declared by a resource of one kind is recorded as seen.
proof fn lemma_decl_seen(ss: Seq<Section>, i: int, ext: bool, x: Seq<char>)
    requires
        0 <= i < ss.len(),
        ss[i].kind == resource_kind(ext),
        declared_resource_id(ss[i]) == Some(x),
    ensures
        seen_ids(decl_fold(ss), ext).contains(x),
    decreases ss.len(),
{
    let d = ss.drop_last();
    let st = decl_fold(d);
    let s = ss.last();
    if i < ss.len() - 1 {
        assert(d[i] == ss[i]);
        lemma_decl_seen(d, i, ext, x);
        let prev = seen_ids(st, ext);
        let j = choose|j: int| 0 <= j < prev.len() && prev[j] == x;
        if s.kind == resource_kind(ext) {
            let (id, msgs, seen) = declared_id_spec(s, resource_tag(ext), prev);
            assert(seen == prev || seen == prev.push(id->0));
            assert(seen[j] == x);
        }
    } else {
        assert(s == ss[i]);
        let prev = seen_ids(st, ext);
        let (id, msgs, seen) = declared_id_spec(s, resource_tag(ext), prev);
        if prev.contains(x) {
            let j = choose|j: int| 0 <= j < prev.len() && prev[j] == x;
            assert(seen[j] == x);
        } else {
            assert(seen == prev.push(x));
            assert(seen[prev.len() as int] == x);
        }
    }
}

/// Two declarations of one kind of resource that carry the same id are an
/// error of the check, which names the id: `check` reports no errors only
/// where the ids of each kind are pairwise distinct.
pub proof fn lemma_duplicate_ids_are_errors(doc: Document, src: Seq<char>, ext: bool, i: int, j: int, x: Seq<char>)
    requires
        doc.sections@.len() > 0,
        0 <= i < j < doc.sections@.len(),
        doc.sections@[i].kind == resource_kind(ext),
        doc.sections@[j].kind == resource_kind(ext),
        declared_resource_id(doc.sections@[i]) == Some(x),
        declared_resource_id(doc.sections@[j]) == Some(x),
    ensures
        (check_prefix(doc, src) + findings_msgs(doc_findings(doc))).contains(
            (Severity::Error, "duplicate "@ + resource_tag(ext) + " id \""@ + x + "\""@),
        ),
{
    let ss = doc.sections@;
    let e = (Severity::Error, "duplicate "@ + resource_tag(ext) + " id \""@ + x + "\""@);
    let pre = ss.take(j);
    assert(pre[i] == ss[i]);
    lemma_decl_seen(pre, i, ext, x);
    let st = decl_fold(pre);
    assert(ss.take(j + 1).drop_last() =~= pre);
    assert(ss.take(j + 1).last() == ss[j]);
    let s = ss[j];
    let (id, msgs, seen) = declared_id_spec(s, resource_tag(ext), seen_ids(st, ext));
    assert(id == Some(x));
    let dup = err("duplicate "@ + resource_tag(ext) + " id \""@ + x + "\""@);
    assert(dup[0] == e);
    assert(dup.contains(e));
    let legacy = if s.fields@[field_index(s.fields@, "id"@)->0].value@ is Num {
        err("["@ + resource_tag(ext) + " id="@ + x + "] uses the Godot 3 unquoted id form; Godot 4 quotes resource ids"@)
    } else {
        seq![]
    };
    assert(msgs == legacy + dup);
    lemma_seq_contains_cat(legacy, dup, e);
    let after = decl_fold(ss.take(j + 1));
    if ext {
        let pm = if field_str_spec(s, "path"@) is None {
            err("[ext_resource id=\""@ + or_question(id) + "\"] has no path"@)
        } else {
            seq![]
        };
        assert(after.4 == st.4 + msgs + pm);
        lemma_seq_contains_cat(st.4, msgs, e);
        lemma_seq_contains_cat(st.4 + msgs, pm, e);
    } else {
        let tm = if field_str_spec(s, "type"@) is None {
            err("[sub_resource id=\""@ + or_question(id) + "\"] has no type"@)
        } else {
            seq![]
        };
        assert(after.4 == st.4 + msgs + tm);
        lemma_seq_contains_cat(st.4, msgs, e);
        lemma_seq_contains_cat(st.4 + msgs, tm, e);
    }
    lemma_decl_fold_keeps(ss, j + 1, e);
    let decl = decl_fold(ss);
    let head = if doc_text(doc) != src {
        err("re-serialising the parsed file does not reproduce it byte for byte"@)
    } else {
        seq![]
    };
    lemma_seq_contains_cat(head, decl.4, e);
    let rest = sections_ref_msgs(decl.0, decl.1, ss) + load_steps_msgs(ss[0], decl.2 + decl.3 + 1)
        + check_nodes_spec(sections_of_spec(ss, SectionKind::Node));
    lemma_seq_contains_cat(head + decl.4, sections_ref_msgs(decl.0, decl.1, ss), e);
    lemma_seq_contains_cat(head + decl.4 + sections_ref_msgs(decl.0, decl.1, ss), load_steps_msgs(ss[0], decl.2 + decl.3 + 1), e);
    lemma_seq_contains_cat(
        head + decl.4 + sections_ref_msgs(decl.0, decl.1, ss) + load_steps_msgs(ss[0], decl.2 + decl.3 + 1),
        check_nodes_spec(sections_of_spec(ss, SectionKind::Node)),
        e,
    );
    lemma_seq_contains_cat(check_prefix(doc, src), findings_msgs(doc_findings(doc)), e);
}

/// The kind of reference to external (`true`) or sub-resources (`false`).
pub open spec fn ref_kind_of(ext: bool) -> RefKind {
    if ext {
        RefKind::Ext
    } else {
        RefKind::Sub
    }
}

/// Only ids some declaration of the kind gives itself are recorded as seen.
proof fn lemma_decl_seen_only(ss: Seq<Section>, ext: bool, x: Seq<char>)
    requires
        seen_ids(decl_fold(ss), ext).contains(x),
    ensures
        exists|i: int| 0 <= i < ss.len() && ss[i].kind == resource_kind(ext) && declared_resource_id(#[trigger] ss[i]) == Some(x),
    decreases ss.len(),
{
    if ss.len() > 0 {
        let d = ss.drop_last();
        let st = decl_fold(d);
        let s = ss.last();
        let prev = seen_ids(st, ext);
        if prev.contains(x) {
            lemma_decl_seen_only(d, ext, x);
            let i = choose|i: int| 0 <= i < d.len() && d[i].kind == resource_kind(ext) && declared_resource_id(#[trigger] d[i]) == Some(x);
            assert(ss[i] == d[i]);
        } else {
            assert(s == ss[ss.len() - 1]);
            if s.kind == resource_kind(ext) {
                let (id, msgs, seen) = declared_id_spec(s, resource_tag(ext), prev);
                assert(seen == prev || (seen == prev.push(id->0) && id == declared_resource_id(s)));
                if seen == prev.push(id->0) {
                    let k = choose|k: int| 0 <= k < seen.len() && seen[k] == x;
                    assert(k == prev.len());
                }
            } else {
                assert(seen_ids(decl_fold(ss), ext) == prev);
            }
        }
    }
}

proof fn lemma_refs_msgs_has(
    e: Seq<Seq<char>>,
    u: Seq<Seq<char>>,
    xs: Seq<(RefKind, Seq<char>, bool)>,
    q: int,
    m: (Severity, Seq<char>),
)
    requires
        0 <= q < xs.len(),
        ref_msgs(e, u, xs[q]).contains(m),
    ensures
        refs_msgs(e, u, xs).contains(m),
    decreases xs.len(),
{
    let d = xs.drop_last();
    if q < xs.len() - 1 {
        assert(d[q] == xs[q]);
        lemma_refs_msgs_has(e, u, d, q, m);
        lemma_seq_contains_cat(refs_msgs(e, u, d), ref_msgs(e, u, xs.last()), m);
    } else {
        lemma_seq_contains_cat(refs_msgs(e, u, d), ref_msgs(e, u, xs.last()), m);
    }
}

proof fn lemma_sections_ref_msgs_has(
    e: Seq<Seq<char>>,
    u: Seq<Seq<char>>,
    ss: Seq<Section>,
    j: int,
    m: (Severity, Seq<char>),
)
    requires
        0 <= j < ss.len(),
        refs_msgs(e, u, fields_any_refs(ss[j].fields@) + props_any_refs(ss[j].props@)).contains(m),
    ensures
        sections_ref_msgs(e, u, ss).contains(m),
    decreases ss.len(),
{
    let d = ss.drop_last();
    let last = refs_msgs(e, u, fields_any_refs(ss.last().fields@) + props_any_refs(ss.last().props@));
    if j < ss.len() - 1 {
        assert(d[j] == ss[j]);
        lemma_sections_ref_msgs_has(e, u, d, j, m);
        lemma_seq_contains_cat(sections_ref_msgs(e, u, d), last, m);
    } else {
        assert(ss.last() == ss[j]);
        lemma_seq_contains_cat(sections_ref_msgs(e, u, d), last, m);
    }
}

/// A reference to a resource that no declaration of its kind gives the id
/// it names is an error of the check, which names the reference.
pub proof fn lemma_dangling_references_are_errors(
    doc: Document,
    src: Seq<char>,
    j: int,
    q: int,
    ext: bool,
    id: Seq<char>,
    legacy: bool,
)
    requires
        doc.sections@.len() > 0,
        0 <= j < doc.sections@.len(),
        0 <= q < (fields_any_refs(doc.sections@[j].fields@) + props_any_refs(doc.sections@[j].props@)).len(),
        (fields_any_refs(doc.sections@[j].fields@) + props_any_refs(doc.sections@[j].props@))[q] == (
            ref_kind_of(ext),
            id,
            legacy,
        ),
        forall|i: int|
            0 <= i < doc.sections@.len() && doc.sections@[i].kind == resource_kind(ext) ==> declared_resource_id(
                #[trigger] doc.sections@[i],
            ) != Some(id),
    ensures
        (check_prefix(doc, src) + findings_msgs(doc_findings(doc))).contains(
            (
                Severity::Error,
                "dangling "@ + (if ext {
                    "ExtResource"@
                } else {
                    "SubResource"@
                }) + "(\""@ + id + "\") reference"@,
            ),
        ),
{
    let ss = doc.sections@;
    let decl = decl_fold(ss);
    let m = (
        Severity::Error,
        "dangling "@ + (if ext {
            "ExtResource"@
        } else {
            "SubResource"@
        }) + "(\""@ + id + "\") reference"@,
    );
    assert(!seen_ids(decl, ext).contains(id)) by {
        if seen_ids(decl, ext).contains(id) {
            lemma_decl_seen_only(ss, ext, id);
        }
    }
    let x = (ref_kind_of(ext), id, legacy);
    let lm = if legacy {
        err(ref_kind_of(ext).ctor_spec() + "("@ + id + ") uses the Godot 3 unquoted id form; Godot 4 quotes resource ids"@)
    } else {
        seq![]
    };
    let dm = err("dangling "@ + ref_kind_of(ext).ctor_spec() + "(\""@ + id + "\") reference"@);
    assert(ref_msgs(decl.0, decl.1, x) == lm + dm);
    assert(dm[0] == m);
    lemma_seq_contains_cat(lm, dm, m);
    lemma_refs_msgs_has(decl.0, decl.1, fields_any_refs(ss[j].fields@) + props_any_refs(ss[j].props@), q, m);
    lemma_sections_ref_msgs_has(decl.0, decl.1, ss, j, m);
    let head = if doc_text(doc) != src {
        err("re-serialising the parsed file does not reproduce it byte for byte"@)
    } else {
        seq![]
    };
    lemma_seq_contains_cat(head + decl.4, sections_ref_msgs(decl.0, decl.1, ss), m);
    lemma_seq_contains_cat(head + decl.4 + sections_ref_msgs(decl.0, decl.1, ss), load_steps_msgs(ss[0], decl.2 + decl.3 + 1), m);
    lemma_seq_contains_cat(
        head + decl.4 + sections_ref_msgs(decl.0, decl.1, ss) + load_steps_msgs(ss[0], decl.2 + decl.3 + 1),
        check_nodes_spec(sections_of_spec(ss, SectionKind::Node)),
        m,
    );
    lemma_seq_contains_cat(check_prefix(doc, src), findings_msgs(doc_findings(doc)), m);
}

proof fn lemma_decl_counts(ss: Seq<Section>)
    ensures
        decl_fold(ss).2 == sections_of_spec(ss, SectionKind::ExtResource).len(),
        decl_fold(ss).3 == sections_of_spec(ss, SectionKind::SubResource).len(),
    decreases ss.len(),
{
    if ss.len() > 0 {
        lemma_decl_counts(ss.drop_last());
    }
}

/// A `load_steps` that is not one more than the number of resources the file
/// declares is reported, with the number it should be.
pub proof fn lemma_stale_load_steps_are_reported(doc: Document, src: Seq<char>, i: int, n: int)
    requires
        doc.sections@.len() > 0,
        field_index(doc.sections@[0].fields@, "load_steps"@) == Some(i),
        int_of(doc.sections@[0].fields@[i].value@) == Some(n),
        n != sections_of_spec(doc.sections@, SectionKind::ExtResource).len() + sections_of_spec(
            doc.sections@,
            SectionKind::SubResource,
        ).len() + 1,
    ensures
        (check_prefix(doc, src) + findings_msgs(doc_findings(doc))).contains(
            (
                Severity::Warning,
                "load_steps is "@ + signed_decimal(n) + " but should be "@ + decimal(
                    (sections_of_spec(doc.sections@, SectionKind::ExtResource).len() + sections_of_spec(
                        doc.sections@,
                        SectionKind::SubResource,
                    ).len() + 1) as nat,
                ),
            ),
        ),
{
    let ss = doc.sections@;
    let decl = decl_fold(ss);
    lemma_decl_counts(ss);
    let expected = (decl.2 + decl.3 + 1) as nat;
    let m = (Severity::Warning, "load_steps is "@ + signed_decimal(n) + " but should be "@ + decimal(expected));
    let lm = load_steps_msgs(ss[0], expected);
    assert(lm[0] == m);
    assert(lm.contains(m));
    let head = if doc_text(doc) != src {
        err("re-serialising the parsed file does not reproduce it byte for byte"@)
    } else {
        seq![]
    };
    lemma_seq_contains_cat(head + decl.4 + sections_ref_msgs(decl.0, decl.1, ss), lm, m);
    lemma_seq_contains_cat(
        head + decl.4 + sections_ref_msgs(decl.0, decl.1, ss) + lm,
        check_nodes_spec(sections_of_spec(ss, SectionKind::Node)),
        m,
    );
    lemma_seq_contains_cat(check_prefix(doc, src), findings_msgs(doc_findings(doc)), m);
}

proof fn lemma_nodes_pass_seen(ns: Seq<Section>, i: int)
    requires
        0 <= i < ns.len(),
    ensures
        nodes_pass(ns).0.contains(node_path_spec(ns[i])),
    decreases ns.len(),
{
    let d = ns.drop_last();
    let prev = nodes_pass(d).0;
    if i < ns.len() - 1 {
        assert(d[i] == ns[i]);
        lemma_nodes_pass_seen(d, i);
        let k = choose|k: int| 0 <= k < prev.len() && prev[k] == node_path_spec(ns[i]);
        assert(nodes_pass(ns).0 == prev || nodes_pass(ns).0 == prev.push(node_path_spec(ns.last())));
        assert(nodes_pass(ns).0[k] == prev[k]);
    } else {
        assert(ns.last() == ns[i]);
        let path = node_path_spec(ns[i]);
        if prev.contains(path) {
            let k = choose|k: int| 0 <= k < prev.len() && prev[k] == path;
            assert(nodes_pass(ns).0[k] == path);
        } else {
            assert(nodes_pass(ns).0 == prev.push(path));
            assert(nodes_pass(ns).0[prev.len() as int] == path);
        }
    }
}

proof fn lemma_nodes_pass_keeps(ns: Seq<Section>, k: int, m: (Severity, Seq<char>))
    requires
        0 <= k <= ns.len(),
        nodes_pass(ns.take(k)).3.contains(m),
    ensures
        nodes_pass(ns).3.contains(m),
    decreases ns.len() - k,
{
    if k == ns.len() {
        assert(ns.take(k) =~= ns);
    } else {
        let p = ns.take(k + 1);
        assert(p.drop_last() =~= ns.take(k));
        assert(p.last() == ns[k]);
        let prev = nodes_pass(ns.take(k)).3;
        let path = node_path_spec(ns[k]);
        let extra = if nodes_pass(ns.take(k)).0.contains(path) {
            err("duplicate node path \""@ + path + "\""@)
        } else {
            seq![]
        };
        assert(nodes_pass(p).3 == prev + extra);
        lemma_seq_contains_cat(prev, extra, m);
        lemma_nodes_pass_keeps(ns, k + 1, m);
    }
}

/// Two nodes at the same path are an error of the check, which names the
/// path.
pub proof fn lemma_duplicate_node_paths_are_errors(doc: Document, src: Seq<char>, i: int, j: int)
    requires
        doc.sections@.len() > 0,
        0 <= i < j < sections_of_spec(doc.sections@, SectionKind::Node).len(),
        node_path_spec(sections_of_spec(doc.sections@, SectionKind::Node)[i]) == node_path_spec(
            sections_of_spec(doc.sections@, SectionKind::Node)[j],
        ),
    ensures
        (check_prefix(doc, src) + findings_msgs(doc_findings(doc))).contains(
            (
                Severity::Error,
                "duplicate node path \""@ + node_path_spec(sections_of_spec(doc.sections@, SectionKind::Node)[j])
                    + "\""@,
            ),
        ),
{
    let ss = doc.sections@;
    let ns = sections_of_spec(ss, SectionKind::Node);
    let path = node_path_spec(ns[j]);
    let m = (Severity::Error, "duplicate node path \""@ + path + "\""@);
    let pre = ns.take(j);
    assert(pre[i] == ns[i]);
    lemma_nodes_pass_seen(pre, i);
    let p = ns.take(j + 1);
    assert(p.drop_last() =~= pre);
    assert(p.last() == ns[j]);
    let dup = err("duplicate node path \""@ + path + "\""@);
    assert(nodes_pass(p).3 == nodes_pass(pre).3 + dup);
    assert(dup[0] == m);
    lemma_seq_contains_cat(nodes_pass(pre).3, dup, m);
    lemma_nodes_pass_keeps(ns, j + 1, m);
    let (paths, instanced, roots, msgs) = nodes_pass(ns);
    let tail = root_msgs(ns.len(), roots) + parent_msgs(ns, paths, instanced) + slot_msgs(slot_counts(index_slots(ns)));
    assert(check_nodes_spec(ns) =~= msgs + tail);
    lemma_seq_contains_cat(msgs, tail, m);
    assert(check_nodes_spec(ns).contains(m));
    let decl = decl_fold(ss);
    let head = if doc_text(doc) != src {
        err("re-serialising the parsed file does not reproduce it byte for byte"@)
    } else {
        seq![]
    };
    lemma_seq_contains_cat(
        head + decl.4 + sections_ref_msgs(decl.0, decl.1, ss) + load_steps_msgs(ss[0], decl.2 + decl.3 + 1),
        check_nodes_spec(ns),
        m,
    );
    lemma_seq_contains_cat(check_prefix(doc, src), findings_msgs(doc_findings(doc)), m);
}

proof fn lemma_roots_counted(ns: Seq<Section>)
    ensures
        nodes_pass(ns).2 <= ns.len(),
        nodes_pass(ns).2 == 0 <==> forall|i: int| 0 <= i < ns.len() ==> field_index((#[trigger] ns[i]).fields@, "parent"@) is Some,
        forall|i: int, j: int|
            0 <= i < j < ns.len() && field_index((#[trigger] ns[i]).fields@, "parent"@) is None && field_index(
                (#[trigger] ns[j]).fields@,
                "parent"@,
            ) is None ==> nodes_pass(ns).2 >= 2,
        forall|i: int| 0 <= i < ns.len() && field_index((#[trigger] ns[i]).fields@, "parent"@) is None ==> nodes_pass(ns).2 >= 1,
    decreases ns.len(),
{
    if ns.len() > 0 {
        let d = ns.drop_last();
        lemma_roots_counted(d);
        assert forall|i: int| 0 <= i < d.len() implies #[trigger] d[i] == ns[i] by {}
        if forall|i: int| 0 <= i < ns.len() ==> field_index((#[trigger] ns[i]).fields@, "parent"@) is Some {
            assert forall|i: int| 0 <= i < d.len() implies field_index((#[trigger] d[i]).fields@, "parent"@) is Some by {
                assert(d[i] == ns[i]);
            }
            assert(field_index(ns[ns.len() - 1].fields@, "parent"@) is Some);
        }
        assert forall|i: int, j: int|
            0 <= i < j < ns.len() && field_index((#[trigger] ns[i]).fields@, "parent"@) is None && field_index(
                (#[trigger] ns[j]).fields@,
                "parent"@,
            ) is None implies nodes_pass(ns).2 >= 2 by {
            assert(d[i] == ns[i]);
            if j < ns.len() - 1 {
                assert(d[j] == ns[j]);
            } else {
                assert(ns.last() == ns[j]);
            }
        }
        assert forall|i: int| 0 <= i < ns.len() && field_index((#[trigger] ns[i]).fields@, "parent"@) is None implies nodes_pass(ns).2 >= 1 by {
            if i < ns.len() - 1 {
                assert(d[i] == ns[i]);
            } else {
                assert(ns.last() == ns[i]);
            }
        }
    }
}

/// A scene has exactly one root: nodes that all declare a parent leave it
/// without one, and two nodes without a parent give it several; either is
/// an error of the check.
pub proof fn lemma_root_count_is_checked(doc: Document, src: Seq<char>)
    requires
        doc.sections@.len() > 0,
    ensures
        ({
            let ns = sections_of_spec(doc.sections@, SectionKind::Node);
            let all = check_prefix(doc, src) + findings_msgs(doc_findings(doc));
            &&& (ns.len() > 0 && forall|i: int| 0 <= i < ns.len() ==> field_index((#[trigger] ns[i]).fields@, "parent"@) is Some)
                ==> all.contains((Severity::Error, "scene has no root node (every [node] declares a parent)"@))
            &&& (exists|i: int, j: int|
                0 <= i < j < ns.len() && field_index((#[trigger] ns[i]).fields@, "parent"@) is None && field_index(
                    (#[trigger] ns[j]).fields@,
                    "parent"@,
                ) is None) ==> exists|n: nat|
                n >= 2 && all.contains((Severity::Error, "scene has "@ + decimal(n) + " root nodes; exactly one is allowed"@))
        }),
{
    let ss = doc.sections@;
    let ns = sections_of_spec(ss, SectionKind::Node);
    lemma_roots_counted(ns);
    let (paths, instanced, roots, msgs) = nodes_pass(ns);
    let rm = root_msgs(ns.len(), roots);
    let rest = parent_msgs(ns, paths, instanced) + slot_msgs(slot_counts(index_slots(ns)));
    assert(check_nodes_spec(ns) =~= msgs + rm + rest);
    let decl = decl_fold(ss);
    let head = if doc_text(doc) != src {
        err("re-serialising the parsed file does not reproduce it byte for byte"@)
    } else {
        seq![]
    };
    let front = head + decl.4 + sections_ref_msgs(decl.0, decl.1, ss) + load_steps_msgs(ss[0], decl.2 + decl.3 + 1);
    let no_root = (Severity::Error, "scene has no root node (every [node] declares a parent)"@);
    let many = (Severity::Error, "scene has "@ + decimal(roots) + " root nodes; exactly one is allowed"@);
    if ns.len() > 0 && roots == 0 {
        let a = err("scene has no root node (every [node] declares a parent)"@);
        assert(a[0] == no_root);
        lemma_seq_contains_cat(a, if roots > 1 { err("scene has "@ + decimal(roots) + " root nodes; exactly one is allowed"@) } else { seq![] }, no_root);
        lemma_seq_contains_cat(msgs, rm, no_root);
        lemma_seq_contains_cat(msgs + rm, rest, no_root);
        lemma_seq_contains_cat(front, check_nodes_spec(ns), no_root);
        lemma_seq_contains_cat(check_prefix(doc, src), findings_msgs(doc_findings(doc)), no_root);
    }
    if roots > 1 {
        let a = if ns.len() > 0 && roots == 0 { err("scene has no root node (every [node] declares a parent)"@) } else { seq![] };
        let b = err("scene has "@ + decimal(roots) + " root nodes; exactly one is allowed"@);
        assert(b[0] == many);
        lemma_seq_contains_cat(a, b, many);
        lemma_seq_contains_cat(msgs, rm, many);
        lemma_seq_contains_cat(msgs + rm, rest, many);
        lemma_seq_contains_cat(front, check_nodes_spec(ns), many);
        lemma_seq_contains_cat(check_prefix(doc, src), findings_msgs(doc_findings(doc)), many);
    }
}

proof fn lemma_nodes_pass_only(ns: Seq<Section>)
    ensures
        forall|k: int|
            #![trigger nodes_pass(ns).0[k]]
            0 <= k < nodes_pass(ns).0.len() ==> exists|i: int|
                0 <= i < ns.len() && node_path_spec(#[trigger] ns[i]) == nodes_pass(ns).0[k],
    decreases ns.len(),
{
    if ns.len() > 0 {
        let d = ns.drop_last();
        lemma_nodes_pass_only(d);
        let (p0, i0, r0, m0) = nodes_pass(d);
        let (p1, i1, r1, m1) = nodes_pass(ns);
        let last = ns.len() - 1;
        assert(ns.last() == ns[last]);
        assert forall|k: int| #![trigger p1[k]] 0 <= k < p1.len() implies exists|i: int|
            0 <= i < ns.len() && node_path_spec(#[trigger] ns[i]) == p1[k] by {
            if k < p0.len() {
                assert(p1[k] == p0[k]);
                let i = choose|i: int| 0 <= i < d.len() && node_path_spec(#[trigger] d[i]) == p0[k];
                assert(ns[i] == d[i]);
            } else {
                assert(node_path_spec(ns[last]) == p1[k]);
            }
        }
    }
}

/// The paths recorded as instancing are those of nodes that instance.
pub open spec fn instanced_at(ns: Seq<Section>, x: Seq<char>) -> bool {
    exists|i: int| 0 <= i < ns.len() && is_instancing(#[trigger] ns[i]) && node_path_spec(ns[i]) == x
}

proof fn lemma_nodes_pass_instanced(ns: Seq<Section>, k: int)
    requires
        0 <= k < nodes_pass(ns).1.len(),
    ensures
        instanced_at(ns, nodes_pass(ns).1[k]),
    decreases ns.len(),
{
    let d = ns.drop_last();
    let (p0, i0, r0, m0) = nodes_pass(d);
    let i1 = nodes_pass(ns).1;
    let last = ns.len() - 1;
    assert(ns.last() == ns[last]);
    assert(i1 == if is_instancing(ns.last()) {
        i0.push(node_path_spec(ns.last()))
    } else {
        i0
    });
    if k < i0.len() {
        assert(i1[k] == i0[k]);
        lemma_nodes_pass_instanced(d, k);
        let i = choose|i: int| 0 <= i < d.len() && is_instancing(#[trigger] d[i]) && node_path_spec(d[i]) == i0[k];
        assert(ns[i] == d[i]);
    } else {
        assert(is_instancing(ns[last]) && node_path_spec(ns[last]) == i1[k]);
    }
}

proof fn lemma_parent_msgs_has(ns: Seq<Section>, paths: Seq<Seq<char>>, instanced: Seq<Seq<char>>, j: int, p: Seq<char>)
    requires
        0 <= j < ns.len(),
        field_str_spec(ns[j], "parent"@) == Some(p),
        p != "."@,
        !paths.contains(p),
        !covered_spec(p, instanced),
    ensures
        parent_msgs(ns, paths, instanced).contains(
            (Severity::Error, "node \""@ + node_path_spec(ns[j]) + "\" has parent \""@ + p + "\", which is not a node in this file"@),
        ),
    decreases ns.len(),
{
    let m = (Severity::Error, "node \""@ + node_path_spec(ns[j]) + "\" has parent \""@ + p + "\", which is not a node in this file"@);
    let d = ns.drop_last();
    let s = ns.last();
    let here = match field_str_spec(s, "parent"@) {
        Some(q) => if q == "."@ || paths.contains(q) || covered_spec(q, instanced) {
            seq![]
        } else {
            err("node \""@ + node_path_spec(s) + "\" has parent \""@ + q + "\", which is not a node in this file"@)
        },
        None => seq![],
    };
    assert(parent_msgs(ns, paths, instanced) == parent_msgs(d, paths, instanced) + here);
    if j < ns.len() - 1 {
        assert(d[j] == ns[j]);
        lemma_parent_msgs_has(d, paths, instanced, j, p);
        lemma_seq_contains_cat(parent_msgs(d, paths, instanced), here, m);
    } else {
        assert(s == ns[j]);
        assert(here[0] == m);
        lemma_seq_contains_cat(parent_msgs(d, paths, instanced), here, m);
    }
}

/// A node whose parent is neither the root, nor a node of the file, nor
/// under (or above) a node that instances another scene is an error of the
/// check, which names the node and the parent.
pub proof fn lemma_missing_parents_are_errors(doc: Document, src: Seq<char>, j: int, p: Seq<char>)
    requires
        doc.sections@.len() > 0,
        0 <= j < sections_of_spec(doc.sections@, SectionKind::Node).len(),
        field_str_spec(sections_of_spec(doc.sections@, SectionKind::Node)[j], "parent"@) == Some(p),
        p != "."@,
        forall|i: int|
            0 <= i < sections_of_spec(doc.sections@, SectionKind::Node).len() ==> node_path_spec(
                #[trigger] sections_of_spec(doc.sections@, SectionKind::Node)[i],
            ) != p,
        forall|i: int|
            0 <= i < sections_of_spec(doc.sections@, SectionKind::Node).len() && is_instancing(
                #[trigger] sections_of_spec(doc.sections@, SectionKind::Node)[i],
            ) ==> {
                let x = node_path_spec(sections_of_spec(doc.sections@, SectionKind::Node)[i]);
                !(x == "."@ || p == x || starts_with(p, x + "/"@) || starts_with(x, p + "/"@))
            },
    ensures
        (check_prefix(doc, src) + findings_msgs(doc_findings(doc))).contains(
            (
                Severity::Error,
                "node \""@ + node_path_spec(sections_of_spec(doc.sections@, SectionKind::Node)[j]) + "\" has parent \""@
                    + p + "\", which is not a node in this file"@,
            ),
        ),
{
    let ss = doc.sections@;
    let ns = sections_of_spec(ss, SectionKind::Node);
    let (paths, instanced, roots, msgs) = nodes_pass(ns);
    lemma_nodes_pass_only(ns);
    assert(!paths.contains(p)) by {
        if paths.contains(p) {
            let k = choose|k: int| 0 <= k < paths.len() && paths[k] == p;
            let i = choose|i: int| 0 <= i < ns.len() && node_path_spec(#[trigger] ns[i]) == paths[k];
        }
    }
    assert(!covered_spec(p, instanced)) by {
        if covered_spec(p, instanced) {
            let k = choose|k: int|
                0 <= k < instanced.len() && (#[trigger] instanced[k] == "."@ || p == instanced[k] || starts_with(
                    p,
                    instanced[k] + "/"@,
                ) || starts_with(instanced[k], p + "/"@));
            lemma_nodes_pass_instanced(ns, k);
            let i = choose|i: int| 0 <= i < ns.len() && is_instancing(#[trigger] ns[i]) && node_path_spec(ns[i]) == instanced[k];
        }
    }
    let m = (
        Severity::Error,
        "node \""@ + node_path_spec(ns[j]) + "\" has parent \""@ + p + "\", which is not a node in this file"@,
    );
    lemma_parent_msgs_has(ns, paths, instanced, j, p);
    let pm = parent_msgs(ns, paths, instanced);
    let sm = slot_msgs(slot_counts(index_slots(ns)));
    assert(check_nodes_spec(ns) =~= msgs + root_msgs(ns.len(), roots) + pm + sm);
    lemma_seq_contains_cat(msgs + root_msgs(ns.len(), roots), pm, m);
    lemma_seq_contains_cat(msgs + root_msgs(ns.len(), roots) + pm, sm, m);
    let decl = decl_fold(ss);
    let head = if doc_text(doc) != src {
        err("re-serialising the parsed file does not reproduce it byte for byte"@)
    } else {
        seq![]
    };
    lemma_seq_contains_cat(
        head + decl.4 + sections_ref_msgs(decl.0, decl.1, ss) + load_steps_msgs(ss[0], decl.2 + decl.3 + 1),
        check_nodes_spec(ns),
        m,
    );
    lemma_seq_contains_cat(check_prefix(doc, src), findings_msgs(doc_findings(doc)), m);
}

} // verus!
