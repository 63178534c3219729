//! Resolving `NodePath` values against the scene tree the file describes.
//!
//! A merge that renames a node and leaves a `NodePath` pointing at the old name
//! produces a scene that loads but is wired to nothing. Catching that means
//! actually walking the paths, which is more involved than it looks: a path is
//! relative to whatever holds it, most of them live in animation sub-resources
//! that are not in the tree at all, and several forms cannot be decided from one
//! file. The rule throughout is that anything uncertain is a warning and only a
//! path that definitely resolves to nothing is an error, because a false alarm
//! on a valid scene is worse than a missed one.
use vstd::prelude::*;

use crate::doc::{deref_refs, derefs, field_index, field_str_spec, fields_refs, prop_index, props_refs, sections_of_spec, str_payload, Document, Property, Section, SectionKind};
use crate::scene::{node_path, node_path_spec};
use crate::text::{chars_of, push_chars, push_str, str_eq};
use crate::value::{collect_paths, string_views, value_paths, RefKind, Value, ValueRef, ValueView};

verus! {

broadcast use vstd::string::group_string_axioms;

// ---------------------------------------------------------------------------
// Paths as text.

/// Splitting on `/` one character at a time: the pieces finished so far and
/// the piece being read. Empty pieces are dropped.
pub open spec fn split_state(s: Seq<char>) -> (Seq<Seq<char>>, Seq<char>)
    decreases s.len(),
{
    if s.len() == 0 {
        (seq![], seq![])
    } else {
        let (done, cur) = split_state(s.drop_last());
        if s.last() == '/' {
            (if cur.len() > 0 {
                done.push(cur)
            } else {
                done
            }, seq![])
        } else {
            (done, cur.push(s.last()))
        }
    }
}

/// The non-empty `/`-separated pieces of `s`.
pub open spec fn split_slash(s: Seq<char>) -> Seq<Seq<char>> {
    let (done, cur) = split_state(s);
    if cur.len() > 0 {
        done.push(cur)
    } else {
        done
    }
}

/// The nodes a path names from the root: none for `.` or the empty path.
pub open spec fn segments_spec(path: Seq<char>) -> Seq<Seq<char>> {
    if path == "."@ || path.len() == 0 {
        seq![]
    } else {
        split_slash(path)
    }
}

pub fn split_pieces(s: &str) -> (r: Vec<String>)
    ensures
        strings(r@) == split_slash(s@),
{
    let cs = chars_of(s);
    let n = cs.len();
    let mut done: Vec<String> = Vec::new();
    let mut cur = String::new();
    let mut i: usize = 0;
    while i < n
        invariant
            n == cs@.len(),
            cs@ == s@,
            i <= n,
            (strings(done@), cur@) == split_state(cs@.take(i as int)),
        decreases n - i,
    {
        proof {
            assert(cs@.take(i + 1).drop_last() =~= cs@.take(i as int));
        }
        let c = cs[i];
        if c == '/' {
            if !cur.as_str().is_empty() {
                proof {
                    lemma_strings_push(done@, cur);
                }
                done.push(cur);
            }
            cur = String::new();
        } else {
            cur.push(c);
        }
        i += 1;
    }
    proof {
        assert(cs@.take(i as int) =~= cs@);
    }
    if !cur.as_str().is_empty() {
        proof {
            lemma_strings_push(done@, cur);
        }
        done.push(cur);
    }
    done
}

pub open spec fn strings(s: Seq<String>) -> Seq<Seq<char>> {
    Seq::new(s.len(), |i: int| s[i]@)
}

proof fn lemma_strings_push(s: Seq<String>, x: String)
    ensures
        strings(s.push(x)) == strings(s).push(x@),
{
    assert(strings(s.push(x)) =~= strings(s).push(x@));
}

fn segments(path: &str) -> (r: Vec<String>)
    ensures
        strings(r@) == segments_spec(path@),
{
    if str_eq(path, ".") || path.is_empty() {
        proof {
            assert(path@.len() == 0 ==> path@ =~= Seq::<char>::empty());
        }
        return Vec::new();
    }
    split_pieces(path)
}

/// The pieces joined with `/`, without the leading one.
pub open spec fn join_rest(parts: Seq<Seq<char>>) -> Seq<char>
    decreases parts.len(),
{
    if parts.len() <= 1 {
        if parts.len() == 1 {
            parts[0]
        } else {
            seq![]
        }
    } else {
        join_rest(parts.drop_last()) + "/"@ + parts.last()
    }
}

/// A node path from its pieces; the root is `.`.
pub open spec fn join_spec(parts: Seq<Seq<char>>) -> Seq<char> {
    if parts.len() == 0 {
        "."@
    } else {
        join_rest(parts)
    }
}

fn join(parts: &Vec<String>) -> (r: String)
    ensures
        r@ == join_spec(strings(parts@)),
{
    let mut out = String::new();
    if parts.len() == 0 {
        push_str(&mut out, ".");
        return out;
    }
    push_str(&mut out, parts[0].as_str());
    let mut i: usize = 1;
    proof {
        assert(strings(parts@).take(1) =~= seq![parts@[0]@]);
    }
    while i < parts.len()
        invariant
            1 <= i <= parts@.len(),
            out@ == join_rest(strings(parts@).take(i as int)),
        decreases parts@.len() - i,
    {
        proof {
            assert(strings(parts@).take(i + 1).drop_last() =~= strings(parts@).take(i as int));
        }
        push_str(&mut out, "/");
        push_str(&mut out, parts[i].as_str());
        proof {
            assert(out@ =~= join_rest(strings(parts@).take(i + 1)));
        }
        i += 1;
    }
    proof {
        assert(strings(parts@).take(i as int) =~= strings(parts@));
    }
    out
}

/// The node part of a path: everything before the first `:`, which starts
/// the property selection.
pub open spec fn node_part_spec(s: Seq<char>) -> Seq<char>
    decreases s.len(),
{
    if s.len() == 0 || s[0] == ':' {
        seq![]
    } else {
        seq![s[0]] + node_part_spec(s.drop_first())
    }
}

fn node_part(s: &str) -> (r: String)
    ensures
        r@ == node_part_spec(s@),
{
    let cs = chars_of(s);
    let n = cs.len();
    let mut end: usize = 0;
    proof {
        assert(cs@.subrange(0, n as int) =~= cs@);
        assert(cs@.subrange(0, 0) + cs@ =~= cs@);
    }
    while end < n && cs[end] != ':'
        invariant
            n == cs@.len(),
            end <= n,
            node_part_spec(cs@) == cs@.subrange(0, end as int) + node_part_spec(cs@.subrange(end as int, n as int)),
        decreases n - end,
    {
        proof {
            let rest = cs@.subrange(end as int, n as int);
            assert(rest.drop_first() =~= cs@.subrange(end + 1, n as int));
            assert(cs@.subrange(0, end + 1) =~= cs@.subrange(0, end as int) + seq![cs@[end as int]]);
            assert(cs@.subrange(0, end as int) + (seq![cs@[end as int]] + node_part_spec(cs@.subrange(end + 1, n as int)))
                =~= cs@.subrange(0, end + 1) + node_part_spec(cs@.subrange(end + 1, n as int)));
        }
        end += 1;
    }
    proof {
        assert(cs@.subrange(0, n as int) =~= cs@);
        assert(node_part_spec(cs@.subrange(end as int, n as int)) =~= Seq::<char>::empty());
        assert(cs@.subrange(0, end as int) + Seq::<char>::empty() =~= cs@.subrange(0, end as int));
    }
    let mut out = String::new();
    push_chars(&mut out, cs.as_slice(), 0, end);
    out
}

pub open spec fn starts_with(s: Seq<char>, p: Seq<char>) -> bool {
    p.len() <= s.len() && s.subrange(0, p.len() as int) == p
}

pub fn exec_starts_with(s: &str, p: &str) -> (r: bool)
    ensures
        r == starts_with(s@, p@),
{
    let a = chars_of(s);
    let b = chars_of(p);
    if b.len() > a.len() {
        return false;
    }
    let mut i: usize = 0;
    while i < b.len()
        invariant
            b@.len() <= a@.len(),
            a@ == s@,
            b@ == p@,
            i <= b@.len(),
            forall|j: int| 0 <= j < i ==> a@[j] == b@[j],
        decreases b@.len() - i,
    {
        if a[i] != b[i] {
            proof {
                assert(a@.subrange(0, b@.len() as int)[i as int] != b@[i as int]);
            }
            return false;
        }
        i += 1;
    }
    proof {
        assert(a@.subrange(0, b@.len() as int) =~= b@);
    }
    true
}

/// Whether the scene root is a sensible thing to measure a path from.
///
/// Which node a path is relative to depends on the property holding it, and
/// Godot has no shortage of them: an animation track resolves against
/// `root_node`, a `ViewportTexture` against the scene root, an exported
/// property against the node itself. Rather than encode that table and be wrong
/// about the entries it misses, a path is accepted if it resolves from any
/// plausible base. A path beginning with `..` is the exception: it is only
/// meaningful from a node, so the root is not offered and the common case of a
/// sibling reference left behind by a rename is still caught.
pub fn root_is_plausible(path: &str) -> (r: bool)
    ensures
        r == !starts_with(path@, ".."@),
{
    !exec_starts_with(path, "..")
}

/// Applies a plain relative path to a node path, one piece at a time, or
/// `None` once it climbs out.
pub open spec fn walk_pieces(here: Seq<Seq<char>>, parts: Seq<Seq<char>>) -> Option<Seq<Seq<char>>>
    decreases parts.len(),
{
    if parts.len() == 0 {
        Some(here)
    } else {
        let part = parts[0];
        if part == "."@ {
            walk_pieces(here, parts.drop_first())
        } else if part == ".."@ {
            if here.len() == 0 {
                None
            } else {
                walk_pieces(here.drop_last(), parts.drop_first())
            }
        } else {
            walk_pieces(here.push(part), parts.drop_first())
        }
    }
}

pub open spec fn walk_spec(from: Seq<char>, relative: Seq<char>) -> Option<Seq<char>> {
    match walk_pieces(segments_spec(from), split_slash(relative)) {
        Some(parts) => Some(join_spec(parts)),
        None => None,
    }
}

/// Applies a plain relative path to a node path, or `None` if it climbs out.
fn walk(from: &str, relative: &str) -> (r: Option<String>)
    ensures
        match walk_spec(from@, relative@) {
            Some(p) => r matches Some(x) && x@ == p,
            None => r is None,
        },
{
    let mut here = segments(from);
    let parts = split_pieces(relative);
    let mut i: usize = 0;
    proof {
        assert(strings(parts@).skip(0) =~= strings(parts@));
    }
    while i < parts.len()
        invariant
            i <= parts@.len(),
            walk_pieces(segments_spec(from@), split_slash(relative@)) == walk_pieces(
                strings(here@),
                strings(parts@).skip(i as int),
            ),
        decreases parts@.len() - i,
    {
        proof {
            assert(strings(parts@).skip(i as int).drop_first() =~= strings(parts@).skip(i + 1));
            assert(strings(parts@).skip(i as int)[0] == parts@[i as int]@);
        }
        let part = &parts[i];
        if str_eq(part.as_str(), ".") {
        } else if str_eq(part.as_str(), "..") {
            if here.len() == 0 {
                return None;
            }
            let ghost h = here@;
            here.pop();
            proof {
                assert(strings(here@) =~= strings(h).drop_last());
            }
        } else {
            let ghost h = here@;
            let owned = part.clone();
            proof {
                lemma_strings_push(h, owned);
            }
            here.push(owned);
        }
        i += 1;
    }
    proof {
        assert(strings(parts@).skip(i as int) =~= Seq::<Seq<char>>::empty());
    }
    Some(join(&here))
}

// ---------------------------------------------------------------------------
// The node tree of a document.

/// Where a path ended up.
#[derive(Debug, PartialEq, Eq)]
pub enum Resolution {
    /// Names a node this file declares.
    Node(String),
    /// Leaves the file: absolute, or walks above the root. A parent scene
    /// decides what it means, so it cannot be judged here.
    Outside,
    /// Lands inside a scene this file instances, whose contents live elsewhere.
    Instanced,
    /// A unique name (`%Thing`) this file does not declare. `supplied_elsewhere`
    /// is true when the file instances a scene that could be providing it, in
    /// which case nothing can be concluded; when it is false the name is
    /// definitely not there.
    UnknownUniqueName { name: String, supplied_elsewhere: bool },
    /// Resolves to a path this file does not have. This is the real failure.
    Missing(String),
}

pub enum ResolutionView {
    Node(Seq<char>),
    Outside,
    Instanced,
    UnknownUniqueName { name: Seq<char>, supplied_elsewhere: bool },
    Missing(Seq<char>),
}

impl View for Resolution {
    type V = ResolutionView;

    open spec fn view(&self) -> ResolutionView {
        match self {
            Resolution::Node(p) => ResolutionView::Node(p@),
            Resolution::Outside => ResolutionView::Outside,
            Resolution::Instanced => ResolutionView::Instanced,
            Resolution::UnknownUniqueName { name, supplied_elsewhere } => ResolutionView::UnknownUniqueName {
                name: name@,
                supplied_elsewhere: *supplied_elsewhere,
            },
            Resolution::Missing(p) => ResolutionView::Missing(p@),
        }
    }
}

/// The node tree of a single document.
pub struct Tree {
    /// Every declared node path.
    pub nodes: Vec<String>,
    /// Nodes that instance another scene, whose children live in that scene.
    pub instanced: Vec<String>,
    /// `unique_name_in_owner` nodes: the name a `%` path would use, and the
    /// node's path. A later declaration of a name wins.
    pub unique: Vec<(String, String)>,
}

/// A node tree as the specifications see it.
pub struct TreeView {
    pub nodes: Seq<Seq<char>>,
    pub instanced: Seq<Seq<char>>,
    pub unique: Seq<(Seq<char>, Seq<char>)>,
}

impl View for Tree {
    type V = TreeView;

    open spec fn view(&self) -> TreeView {
        TreeView { nodes: strings(self.nodes@), instanced: strings(self.instanced@), unique: pairs(self.unique@) }
    }
}

/// The node tree a document describes: its node sections' paths, the ones
/// that instance another scene, and the unique names they declare.
pub open spec fn doc_tree(doc: Document) -> TreeView {
    let ns = sections_of_spec(doc.sections@, SectionKind::Node);
    TreeView { nodes: tree_nodes(ns), instanced: tree_instanced(ns), unique: tree_unique(ns) }
}

pub open spec fn pairs(s: Seq<(String, String)>) -> Seq<(Seq<char>, Seq<char>)> {
    Seq::new(s.len(), |i: int| (s[i].0@, s[i].1@))
}

/// The path registered last under `name`.
pub open spec fn unique_lookup(u: Seq<(Seq<char>, Seq<char>)>, name: Seq<char>) -> Option<Seq<char>>
    decreases u.len(),
{
    if u.len() == 0 {
        None
    } else if u.last().0 == name {
        Some(u.last().1)
    } else {
        unique_lookup(u.drop_last(), name)
    }
}

/// Whether `v` is the literal `true`.
pub open spec fn is_true_spec(v: ValueView) -> bool {
    v == ValueView::Ident("true"@)
}

pub open spec fn is_instancing(s: Section) -> bool {
    field_index(s.fields@, "instance"@) is Some || field_index(s.fields@, "instance_placeholder"@) is Some
}

pub open spec fn is_unique(s: Section) -> bool {
    match prop_index(s.props@, "unique_name_in_owner"@) {
        Some(i) => is_true_spec(s.props@[i].value@),
        None => false,
    }
}

pub open spec fn tree_nodes(ns: Seq<Section>) -> Seq<Seq<char>>
    decreases ns.len(),
{
    if ns.len() == 0 {
        seq![]
    } else {
        tree_nodes(ns.drop_last()).push(node_path_spec(ns.last()))
    }
}

pub open spec fn tree_instanced(ns: Seq<Section>) -> Seq<Seq<char>>
    decreases ns.len(),
{
    if ns.len() == 0 {
        seq![]
    } else {
        tree_instanced(ns.drop_last()) + if is_instancing(ns.last()) {
            seq![node_path_spec(ns.last())]
        } else {
            seq![]
        }
    }
}

pub open spec fn tree_unique(ns: Seq<Section>) -> Seq<(Seq<char>, Seq<char>)>
    decreases ns.len(),
{
    if ns.len() == 0 {
        seq![]
    } else {
        tree_unique(ns.drop_last()) + if is_unique(ns.last()) && field_str_spec(ns.last(), "name"@) is Some {
            seq![(field_str_spec(ns.last(), "name"@)->0, node_path_spec(ns.last()))]
        } else {
            seq![]
        }
    }
}

fn is_true(v: &Value) -> (r: bool)
    ensures
        r == is_true_spec(v@),
{
    match v {
        Value::Ident(s) => str_eq(s.as_str(), "true"),
        _ => false,
    }
}

impl Tree {
    pub fn new(doc: &Document) -> (t: Tree)
        ensures
            t@ == doc_tree(*doc),
    {
        let ns = doc.sections_of(SectionKind::Node);
        let ghost all = derefs(ns@);
        let mut nodes: Vec<String> = Vec::new();
        let mut instanced: Vec<String> = Vec::new();
        let mut unique: Vec<(String, String)> = Vec::new();
        let mut i: usize = 0;
        while i < ns.len()
            invariant
                i <= ns@.len(),
                all == derefs(ns@),
                strings(nodes@) == tree_nodes(all.take(i as int)),
                strings(instanced@) == tree_instanced(all.take(i as int)),
                pairs(unique@) == tree_unique(all.take(i as int)),
            decreases ns@.len() - i,
        {
            let s = ns[i];
            proof {
                assert(all.take(i + 1).drop_last() =~= all.take(i as int));
                assert(all.take(i + 1).last() == *s);
            }
            let path = node_path(s);
            if s.field("instance").is_some() || s.field("instance_placeholder").is_some() {
                let ghost before = instanced@;
                let p = path.clone();
                proof {
                    lemma_strings_push(before, p);
                }
                instanced.push(p);
            } else {
                proof {
                    assert(strings(instanced@) =~= tree_instanced(all.take(i + 1)));
                }
            }
            let flagged = match s.prop("unique_name_in_owner") {
                Some(p) => is_true(&p.value),
                None => false,
            };
            let mut added = false;
            if flagged {
                if let Some(name) = s.field_str("name") {
                    let ghost before = unique@;
                    let entry = (name.to_owned(), path.clone());
                    unique.push(entry);
                    added = true;
                    proof {
                        assert(pairs(unique@) =~= pairs(before).push((entry.0@, entry.1@)));
                    }
                }
            }
            if !added {
                proof {
                    assert(pairs(unique@) =~= tree_unique(all.take(i + 1)));
                }
            }
            let ghost before = nodes@;
            proof {
                lemma_strings_push(before, path);
            }
            nodes.push(path);
            i += 1;
        }
        proof {
            assert(all.take(i as int) =~= all);
        }
        Tree { nodes, instanced, unique }
    }
}

/// Whether `path` lies inside a scene one of `instanced` brings in.
pub open spec fn inside_instance_spec(instanced: Seq<Seq<char>>, path: Seq<char>) -> bool {
    exists|k: int|
        0 <= k < instanced.len() && (#[trigger] instanced[k] == "."@ || path == instanced[k] || starts_with(
            path,
            instanced[k] + "/"@,
        ))
}

/// Walking the node part of a path, one piece at a time, from `here`: the
/// pieces reached, or where the walk ended early.
pub open spec fn resolve_walk(
    unique: Seq<(Seq<char>, Seq<char>)>,
    any_instance: bool,
    here: Seq<Seq<char>>,
    parts: Seq<Seq<char>>,
) -> Result<Seq<Seq<char>>, ResolutionView>
    decreases parts.len(),
{
    if parts.len() == 0 {
        Ok(here)
    } else {
        let part = parts[0];
        if part == "."@ {
            resolve_walk(unique, any_instance, here, parts.drop_first())
        } else if part == ".."@ {
            if here.len() == 0 {
                // Above the root of this scene; a parent scene decides.
                Err(ResolutionView::Outside)
            } else {
                resolve_walk(unique, any_instance, here.drop_last(), parts.drop_first())
            }
        } else if part.len() > 0 && part[0] == '%' {
            match unique_lookup(unique, part.drop_first()) {
                Some(target) => resolve_walk(unique, any_instance, segments_spec(target), parts.drop_first()),
                None => Err(
                    ResolutionView::UnknownUniqueName {
                        name: part.drop_first(),
                        supplied_elsewhere: any_instance,
                    },
                ),
            }
        } else {
            resolve_walk(unique, any_instance, here.push(part), parts.drop_first())
        }
    }
}

impl TreeView {
    /// Walks `path` from `base`, the way Godot's `get_node` would.
    pub open spec fn resolve_spec(self, base: Seq<char>, path: Seq<char>) -> ResolutionView {
        let np = node_part_spec(path);
        if path.len() == 0 {
            ResolutionView::Outside
        } else if np.len() == 0 {
            // ":property" means a property of the base node itself.
            ResolutionView::Node(base)
        } else if np[0] == '/' {
            ResolutionView::Outside
        } else {
            match resolve_walk(self.unique, self.instanced.len() > 0, segments_spec(base), split_slash(np)) {
                Err(r) => r,
                Ok(here) => {
                    // Whether the path passed through an instanced node on the way
                    // does not matter: a node declared here is an override of one
                    // inside that scene, and a perfectly good target.
                    let target = join_spec(here);
                    if self.nodes.contains(target) {
                        ResolutionView::Node(target)
                    } else if inside_instance_spec(self.instanced, target) {
                        ResolutionView::Instanced
                    } else {
                        ResolutionView::Missing(target)
                    }
                },
            }
        }
    }
}

proof fn lemma_walk_errors(
    unique: Seq<(Seq<char>, Seq<char>)>,
    any_instance: bool,
    here: Seq<Seq<char>>,
    parts: Seq<Seq<char>>,
)
    ensures
        resolve_walk(unique, any_instance, here, parts) matches Err(r) ==> (r is Outside || r is UnknownUniqueName),
    decreases parts.len(),
{
    if parts.len() > 0 {
        let part = parts[0];
        lemma_walk_errors(unique, any_instance, here, parts.drop_first());
        if here.len() > 0 {
            lemma_walk_errors(unique, any_instance, here.drop_last(), parts.drop_first());
        }
        if part.len() > 0 && part[0] == '%' {
            if let Some(target) = unique_lookup(unique, part.drop_first()) {
                lemma_walk_errors(unique, any_instance, segments_spec(target), parts.drop_first());
            }
        }
        lemma_walk_errors(unique, any_instance, here.push(part), parts.drop_first());
    }
}

/// A walk lands on a node only where the file declares that node, or, for a
/// path that names just a property, on the node holding it; it reports a path
/// as pointing at nothing only where no declared node and no instanced scene
/// could supply its target.
pub proof fn lemma_resolution_is_sound(t: TreeView, base: Seq<char>, path: Seq<char>)
    ensures
        t.resolve_spec(base, path) matches ResolutionView::Node(x) ==> t.nodes.contains(x) || (x == base
            && node_part_spec(path).len() == 0),
        t.resolve_spec(base, path) matches ResolutionView::Missing(x) ==> !t.nodes.contains(x)
            && !inside_instance_spec(t.instanced, x),
        t.resolve_spec(base, path) is Instanced ==> exists|x: Seq<char>|
            !t.nodes.contains(x) && inside_instance_spec(t.instanced, x),
{
    let np = node_part_spec(path);
    if path.len() > 0 && np.len() > 0 && np[0] != '/' {
        lemma_walk_errors(t.unique, t.instanced.len() > 0, segments_spec(base), split_slash(np));
        if let Ok(here) = resolve_walk(t.unique, t.instanced.len() > 0, segments_spec(base), split_slash(np)) {
            let target = join_spec(here);
            if !t.nodes.contains(target) && inside_instance_spec(t.instanced, target) {
                assert(!t.nodes.contains(target) && inside_instance_spec(t.instanced, target));
            }
        }
    }
}

proof fn lemma_walk_cat(
    unique: Seq<(Seq<char>, Seq<char>)>,
    any_instance: bool,
    here: Seq<Seq<char>>,
    a: Seq<Seq<char>>,
    b: Seq<Seq<char>>,
)
    ensures
        resolve_walk(unique, any_instance, here, a + b) == match resolve_walk(unique, any_instance, here, a) {
            Ok(h) => resolve_walk(unique, any_instance, h, b),
            Err(e) => Err(e),
        },
    decreases a.len(),
{
    if a.len() > 0 {
        assert((a + b)[0] == a[0]);
        assert((a + b).drop_first() =~= a.drop_first() + b);
        let part = a[0];
        if part == "."@ {
            lemma_walk_cat(unique, any_instance, here, a.drop_first(), b);
        } else if part == ".."@ {
            if here.len() > 0 {
                lemma_walk_cat(unique, any_instance, here.drop_last(), a.drop_first(), b);
            }
        } else if part.len() > 0 && part[0] == '%' {
            if let Some(target) = unique_lookup(unique, part.drop_first()) {
                lemma_walk_cat(unique, any_instance, segments_spec(target), a.drop_first(), b);
            }
        } else {
            lemma_walk_cat(unique, any_instance, here.push(part), a.drop_first(), b);
        }
    } else {
        assert(a + b =~= b);
    }
}

/// Going down to a child by name and back up with `..` returns to where the
/// walk was, and `.` stays put: after any start, appending `name/..` or `.`
/// to a path does not change where it leads.
pub proof fn lemma_walk_down_and_up(
    unique: Seq<(Seq<char>, Seq<char>)>,
    any_instance: bool,
    here: Seq<Seq<char>>,
    parts: Seq<Seq<char>>,
    name: Seq<char>,
)
    requires
        name != "."@,
        name != ".."@,
        !(name.len() > 0 && name[0] == '%'),
    ensures
        resolve_walk(unique, any_instance, here, parts + seq![name, ".."@]) == resolve_walk(
            unique,
            any_instance,
            here,
            parts,
        ),
        resolve_walk(unique, any_instance, here, parts + seq!["."@]) == resolve_walk(unique, any_instance, here, parts),
{
    reveal_strlit("..");
    reveal_strlit(".");
    assert(".."@ != "."@) by {
        assert(".."@.len() != "."@.len());
    }
    lemma_walk_cat(unique, any_instance, here, parts, seq![name, ".."@]);
    lemma_walk_cat(unique, any_instance, here, parts, seq!["."@]);
    if let Ok(h) = resolve_walk(unique, any_instance, here, parts) {
        let e = Seq::<Seq<char>>::empty();
        assert(resolve_walk(unique, any_instance, h, e) == Ok::<Seq<Seq<char>>, ResolutionView>(h));
        assert(resolve_walk(unique, any_instance, h.push(name), seq![".."@]) == resolve_walk(
            unique,
            any_instance,
            h.push(name).drop_last(),
            seq![".."@].drop_first(),
        ));
        let two = seq![name, ".."@];
        assert(two[0] == name);
        assert(two.drop_first() =~= seq![".."@]);
        assert(seq![".."@][0] == ".."@);
        assert(seq![".."@].drop_first() =~= Seq::<Seq<char>>::empty());
        assert(h.push(name).drop_last() =~= h);
        let one = seq!["."@];
        assert(one[0] == "."@);
        assert(one.drop_first() =~= Seq::<Seq<char>>::empty());
        assert(resolve_walk(unique, any_instance, h, two) == resolve_walk(unique, any_instance, h.push(name), seq![".."@]));
        assert(resolve_walk(unique, any_instance, h, one) == resolve_walk(unique, any_instance, h, e));
    }
}

impl Tree {
    fn contains_node(&self, path: &str) -> (r: bool)
        ensures
            r == strings(self.nodes@).contains(path@),
    {
        let mut i: usize = 0;
        while i < self.nodes.len()
            invariant
                i <= self.nodes@.len(),
                forall|k: int| 0 <= k < i ==> self.nodes@[k]@ != path@,
            decreases self.nodes@.len() - i,
        {
            if str_eq(self.nodes[i].as_str(), path) {
                proof {
                    assert(strings(self.nodes@)[i as int] == path@);
                }
                return true;
            }
            i += 1;
        }
        proof {
            if strings(self.nodes@).contains(path@) {
                let k = choose|k: int| 0 <= k < strings(self.nodes@).len() && strings(self.nodes@)[k] == path@;
                assert(self.nodes@[k]@ == path@);
            }
        }
        false
    }

    fn inside_instance(&self, path: &str) -> (r: bool)
        ensures
            r == inside_instance_spec(strings(self.instanced@), path@),
    {
        let mut i: usize = 0;
        while i < self.instanced.len()
            invariant
                i <= self.instanced@.len(),
                forall|k: int| 0 <= k < i ==> !(#[trigger] strings(self.instanced@)[k] == "."@ || path@ == strings(self.instanced@)[k]
                    || starts_with(path@, strings(self.instanced@)[k] + "/"@)),
            decreases self.instanced@.len() - i,
        {
            let inst = self.instanced[i].as_str();
            let mut prefix = inst.to_owned();
            push_str(&mut prefix, "/");
            if str_eq(inst, ".") || str_eq(path, inst) || exec_starts_with(path, prefix.as_str()) {
                proof {
                    assert(strings(self.instanced@)[i as int] == inst@);
                }
                return true;
            }
            proof {
                assert(strings(self.instanced@)[i as int] == inst@);
            }
            i += 1;
        }
        false
    }

    fn lookup_unique(&self, name: &str) -> (r: Option<&String>)
        ensures
            match unique_lookup(pairs(self.unique@), name@) {
                Some(t) => r matches Some(x) && x@ == t,
                None => r is None,
            },
    {
        let mut i = self.unique.len();
        proof {
            assert(pairs(self.unique@).take(i as int) =~= pairs(self.unique@));
        }
        while i > 0
            invariant
                i <= self.unique@.len(),
                unique_lookup(pairs(self.unique@), name@) == unique_lookup(pairs(self.unique@).take(i as int), name@),
            decreases i,
        {
            proof {
                assert(pairs(self.unique@).take(i as int).drop_last() =~= pairs(self.unique@).take(i - 1));
            }
            if str_eq(self.unique[i - 1].0.as_str(), name) {
                return Some(&self.unique[i - 1].1);
            }
            i -= 1;
        }
        proof {
            assert(pairs(self.unique@).take(0) =~= Seq::<(Seq<char>, Seq<char>)>::empty());
        }
        None
    }

    /// Walks `path` from `base`, the way Godot's `get_node` would.
    pub fn resolve(&self, base: &str, path: &str) -> (r: Resolution)
        ensures
            r@ == self@.resolve_spec(base@, path@),
    {
        // Everything from the first colon on selects a property, not a node.
        let np = node_part(path);
        if path.is_empty() {
            return Resolution::Outside;
        }
        let npc = chars_of(np.as_str());
        if npc.len() == 0 {
            return Resolution::Node(base.to_owned());
        }
        if npc[0] == '/' {
            return Resolution::Outside;
        }
        let mut here = segments(base);
        let parts = split_pieces(np.as_str());
        let any_instance = self.instanced.len() > 0;
        let ghost u = pairs(self.unique@);
        let mut i: usize = 0;
        proof {
            assert(strings(parts@).skip(0) =~= strings(parts@));
        }
        while i < parts.len()
            invariant
                i <= parts@.len(),
                any_instance == (self.instanced@.len() > 0),
                u == pairs(self.unique@),
                path@.len() > 0,
                np@ == node_part_spec(path@),
                np@.len() > 0,
                np@[0] != '/',
                resolve_walk(u, any_instance, segments_spec(base@), split_slash(np@)) == resolve_walk(
                    u,
                    any_instance,
                    strings(here@),
                    strings(parts@).skip(i as int),
                ),
            decreases parts@.len() - i,
        {
            proof {
                assert(strings(parts@).skip(i as int).drop_first() =~= strings(parts@).skip(i + 1));
                assert(strings(parts@).skip(i as int)[0] == parts@[i as int]@);
            }
            let part = &parts[i];
            let pc = chars_of(part.as_str());
            proof {
                reveal_strlit(".");
                reveal_strlit("..");
            }
            if str_eq(part.as_str(), ".") {
            } else if str_eq(part.as_str(), "..") {
                if here.len() == 0 {
                    return Resolution::Outside;
                }
                let ghost h = here@;
                here.pop();
                proof {
                    assert(strings(here@) =~= strings(h).drop_last());
                }
            } else if pc.len() > 0 && pc[0] == '%' {
                let mut name = String::new();
                push_chars(&mut name, pc.as_slice(), 1, pc.len());
                proof {
                    assert(pc@.subrange(1, pc@.len() as int) =~= part@.drop_first());
                }
                match self.lookup_unique(name.as_str()) {
                    Some(target) => {
                        here = segments(target.as_str());
                    },
                    None => {
                        return Resolution::UnknownUniqueName { name, supplied_elsewhere: any_instance };
                    },
                }
            } else {
                let ghost h = here@;
                let owned = part.clone();
                proof {
                    lemma_strings_push(h, owned);
                }
                here.push(owned);
            }
            i += 1;
        }
        proof {
            assert(strings(parts@).skip(i as int) =~= Seq::<Seq<char>>::empty());
        }
        let target = join(&here);
        if self.contains_node(target.as_str()) {
            return Resolution::Node(target);
        }
        if self.inside_instance(target.as_str()) {
            return Resolution::Instanced;
        }
        Resolution::Missing(target)
    }
}

// ---------------------------------------------------------------------------
// Ordering node paths.

/// Lexicographic order on characters, which is the order of their UTF-8 bytes
/// that `String`'s `Ord` uses.
pub open spec fn lex_lt(a: Seq<char>, b: Seq<char>) -> bool
    decreases a.len(),
{
    if a.len() == 0 {
        b.len() > 0
    } else if b.len() == 0 {
        false
    } else if a[0] != b[0] {
        a[0] < b[0]
    } else {
        lex_lt(a.drop_first(), b.drop_first())
    }
}

pub(crate) proof fn lemma_lex_irreflexive(a: Seq<char>)
    ensures
        !lex_lt(a, a),
    decreases a.len(),
{
    if a.len() > 0 {
        lemma_lex_irreflexive(a.drop_first());
    }
}

pub(crate) proof fn lemma_lex_transitive(a: Seq<char>, b: Seq<char>, c: Seq<char>)
    requires
        lex_lt(a, b),
        lex_lt(b, c),
    ensures
        lex_lt(a, c),
    decreases a.len(),
{
    if a.len() > 0 && b.len() > 0 && c.len() > 0 && a[0] == b[0] && b[0] == c[0] {
        lemma_lex_transitive(a.drop_first(), b.drop_first(), c.drop_first());
    }
}

pub(crate) proof fn lemma_lex_total(a: Seq<char>, b: Seq<char>)
    ensures
        a == b || lex_lt(a, b) || lex_lt(b, a),
    decreases a.len(),
{
    if a.len() > 0 && b.len() > 0 && a[0] == b[0] {
        lemma_lex_total(a.drop_first(), b.drop_first());
        if a.drop_first() == b.drop_first() {
            assert(a =~= seq![a[0]] + a.drop_first());
            assert(b =~= seq![b[0]] + b.drop_first());
        }
    } else if a.len() == 0 && b.len() == 0 {
        assert(a =~= b);
    }
}

pub(crate) fn lex_less(a: &str, b: &str) -> (r: bool)
    ensures
        r == lex_lt(a@, b@),
{
    let x = chars_of(a);
    let y = chars_of(b);
    let mut i: usize = 0;
    proof {
        assert(x@.skip(0) =~= x@);
        assert(y@.skip(0) =~= y@);
    }
    while i < x.len() && i < y.len() && x[i] == y[i]
        invariant
            x@ == a@,
            y@ == b@,
            i <= x@.len(),
            i <= y@.len(),
            lex_lt(a@, b@) == lex_lt(x@.skip(i as int), y@.skip(i as int)),
        decreases x@.len() - i,
    {
        proof {
            assert(x@.skip(i as int).drop_first() =~= x@.skip(i + 1));
            assert(y@.skip(i as int).drop_first() =~= y@.skip(i + 1));
        }
        i += 1;
    }
    if i == x.len() {
        proof {
            assert(x@.skip(i as int).len() == 0);
        }
        i < y.len()
    } else if i == y.len() {
        false
    } else {
        proof {
            assert(x@.skip(i as int)[0] == x@[i as int]);
            assert(y@.skip(i as int)[0] == y@[i as int]);
        }
        x[i] < y[i]
    }
}

/// Strictly increasing, so also free of repeats.
pub open spec fn strictly_sorted(s: Seq<Seq<char>>) -> bool {
    forall|i: int, j: int| 0 <= i < j < s.len() ==> lex_lt(#[trigger] s[i], #[trigger] s[j])
}

/// Adds `x` to a strictly sorted list unless it is already there.
fn insert_sorted(v: &mut Vec<String>, x: &str)
    requires
        strictly_sorted(string_views(old(v)@)),
    ensures
        strictly_sorted(string_views(final(v)@)),
        string_views(final(v)@).to_set() == string_views(old(v)@).to_set().insert(x@),
{
    let ghost old_v = string_views(v@);
    let mut p: usize = 0;
    while p < v.len() && lex_less(v[p].as_str(), x)
        invariant
            p <= v@.len(),
            string_views(v@) == old_v,
            strictly_sorted(old_v),
            forall|k: int| 0 <= k < p ==> lex_lt(#[trigger] old_v[k], x@),
        decreases v@.len() - p,
    {
        p += 1;
    }
    if p < v.len() && str_eq(v[p].as_str(), x) {
        proof {
            assert(old_v[p as int] == x@);
            assert(old_v.to_set().insert(x@) =~= old_v.to_set());
        }
        return;
    }
    proof {
        if p < v@.len() {
            lemma_lex_total(old_v[p as int], x@);
            assert(lex_lt(x@, old_v[p as int]));
        }
    }
    v.insert(p, x.to_owned());
    proof {
        let nv = string_views(v@);
        assert(nv =~= old_v.insert(p as int, x@));
        assert forall|i: int, j: int| 0 <= i < j < nv.len() implies lex_lt(#[trigger] nv[i], #[trigger] nv[j]) by {
            if j < p {
            } else if j == p {
                assert(lex_lt(old_v[i], x@));
            } else if i == p {
                assert(nv[j] == old_v[j - 1]);
                if j - 1 > p {
                    assert(lex_lt(old_v[p as int], old_v[j - 1]));
                    lemma_lex_transitive(x@, old_v[p as int], old_v[j - 1]);
                }
            } else if i < p {
                assert(nv[j] == old_v[j - 1]);
                if j - 1 == i {
                } else {
                    assert(lex_lt(old_v[i], old_v[j - 1]));
                }
            } else {
                assert(nv[i] == old_v[i - 1]);
                assert(nv[j] == old_v[j - 1]);
            }
        }
        assert(nv.to_set() =~= old_v.to_set().insert(x@)) by {
            assert forall|y: Seq<char>| nv.to_set().contains(y) <==> old_v.to_set().insert(x@).contains(y) by {
                if nv.to_set().contains(y) {
                    let k = choose|k: int| 0 <= k < nv.len() && nv[k] == y;
                    if k < p {
                        assert(old_v[k] == y);
                    } else if k > p {
                        assert(old_v[k - 1] == y);
                    }
                }
                if old_v.to_set().contains(y) {
                    let k = choose|k: int| 0 <= k < old_v.len() && old_v[k] == y;
                    if k < p {
                        assert(nv[k] == y);
                    } else {
                        assert(nv[k + 1] == y);
                    }
                }
                if y == x@ {
                    assert(nv[p as int] == y);
                }
            }
        }
    }
}

// ---------------------------------------------------------------------------
// Where paths are held, and what they are measured from.

/// What a reference is attached to, for the message.
#[derive(Debug, PartialEq, Eq)]
pub enum Site {
    NodeProperty { node: String, property: String },
    SubResourceProperty { id: String, property: String },
    Connection { field: &'static str, from: String, to: String },
    Editable,
}

pub enum SiteView {
    NodeProperty { node: Seq<char>, property: Seq<char> },
    SubResourceProperty { id: Seq<char>, property: Seq<char> },
    Connection { field: Seq<char>, from: Seq<char>, to: Seq<char> },
    Editable,
}

impl View for Site {
    type V = SiteView;

    open spec fn view(&self) -> SiteView {
        match self {
            Site::NodeProperty { node, property } => SiteView::NodeProperty { node: node@, property: property@ },
            Site::SubResourceProperty { id, property } => SiteView::SubResourceProperty {
                id: id@,
                property: property@,
            },
            Site::Connection { field, from, to } => SiteView::Connection { field: field@, from: from@, to: to@ },
            Site::Editable => SiteView::Editable,
        }
    }
}

pub open spec fn site_text(s: SiteView) -> Seq<char> {
    match s {
        SiteView::NodeProperty { node, property } => property + " on node \""@ + node + "\""@,
        SiteView::SubResourceProperty { id, property } => property + " on sub_resource \""@ + id + "\""@,
        SiteView::Connection { field, from, to } => "the "@ + field + " of the connection from \""@ + from
            + "\" to \""@ + to + "\""@,
        SiteView::Editable => "an [editable] path"@,
    }
}

impl Site {
    pub fn describe(&self) -> (r: String)
        ensures
            r@ == site_text(self@),
    {
        let mut out = String::new();
        match self {
            Site::NodeProperty { node, property } => {
                push_str(&mut out, property.as_str());
                push_str(&mut out, " on node \"");
                push_str(&mut out, node.as_str());
                push_str(&mut out, "\"");
            },
            Site::SubResourceProperty { id, property } => {
                push_str(&mut out, property.as_str());
                push_str(&mut out, " on sub_resource \"");
                push_str(&mut out, id.as_str());
                push_str(&mut out, "\"");
            },
            Site::Connection { field, from, to } => {
                push_str(&mut out, "the ");
                push_str(&mut out, field);
                push_str(&mut out, " of the connection from \"");
                push_str(&mut out, from.as_str());
                push_str(&mut out, "\" to \"");
                push_str(&mut out, to.as_str());
                push_str(&mut out, "\"");
            },
            Site::Editable => push_str(&mut out, "an [editable] path"),
        }
        proof {
            assert(out@ =~= site_text(self@));
        }
        out
    }
}

/// One `NodePath` found in the file, with the nodes it could be relative to.
#[derive(Debug)]
pub struct Reference {
    pub site: Site,
    pub path: String,
    /// A path is accepted if it resolves from any of these. Sub-resources are
    /// shared, so one can genuinely have several.
    pub bases: Vec<String>,
}

pub struct ReferenceView {
    pub site: SiteView,
    pub path: Seq<char>,
    pub bases: Seq<Seq<char>>,
}

pub open spec fn reference_view(r: Reference) -> ReferenceView {
    ReferenceView { site: r.site@, path: r.path@, bases: strings(r.bases@) }
}

pub open spec fn reference_views(s: Seq<Reference>) -> Seq<ReferenceView> {
    Seq::new(s.len(), |i: int| reference_view(s[i]))
}

/// The path a property holds, whether it is written `NodePath("x")` or `"x"`.
pub open spec fn path_of_spec(v: ValueView) -> Option<Seq<char>> {
    if value_paths(v).len() > 0 {
        Some(value_paths(v)[0])
    } else {
        str_payload(v)
    }
}

fn path_of(property: &Property) -> (r: Option<String>)
    ensures
        match path_of_spec(property.value@) {
            Some(p) => r matches Some(x) && x@ == p,
            None => r is None,
        },
{
    let mut found: Vec<String> = Vec::new();
    collect_paths(&property.value, &mut found);
    proof {
        assert(string_views(found@) =~= value_paths(property.value@));
    }
    if found.len() > 0 {
        return Some(found[0].clone());
    }
    match property.value.as_str() {
        Some(s) => Some(s.to_owned()),
        None => None,
    }
}

/// The nodes a property on `s`, whose node path is `path`, might be measured
/// from: the node itself, and wherever its `root_node` points, which is what
/// an `AnimationPlayer` or `AnimationTree` resolves tracks and root motion
/// against. `default_hop` decides whether an absent `root_node` still means
/// "my parent".
pub open spec fn node_bases_spec(s: Section, path: Seq<char>, default_hop: bool) -> Seq<Seq<char>> {
    let explicit = match prop_index(s.props@, "root_node"@) {
        Some(i) => path_of_spec(s.props@[i].value@),
        None => None,
    };
    let root = match explicit {
        Some(r) => Some(r),
        None => if default_hop {
            Some(".."@)
        } else {
            None
        },
    };
    match root {
        Some(r) => match walk_spec(path, r) {
            Some(t) => if t != path {
                seq![path, t]
            } else {
                seq![path]
            },
            None => seq![path],
        },
        None => seq![path],
    }
}

fn node_bases(s: &Section, path: &str, default_hop: bool) -> (r: Vec<String>)
    ensures
        strings(r@) == node_bases_spec(*s, path@, default_hop),
{
    let mut bases: Vec<String> = Vec::new();
    bases.push(path.to_owned());
    let explicit = match s.prop("root_node") {
        Some(p) => path_of(p),
        None => None,
    };
    let root = match explicit {
        Some(r) => Some(r),
        None => {
            if default_hop {
                Some("..".to_owned())
            } else {
                None
            }
        },
    };
    if let Some(root) = root {
        if let Some(target) = walk(path, root.as_str()) {
            if !str_eq(target.as_str(), path) {
                bases.push(target);
            }
        }
    }
    proof {
        assert(strings(bases@) =~= node_bases_spec(*s, path@, default_hop));
    }
    bases
}

// ---------------------------------------------------------------------------
// Sub-resources, which are resolved against whichever nodes use them.

fn copy_strings(v: &Vec<String>) -> (r: Vec<String>)
    ensures
        strings(r@) == strings(v@),
{
    let mut out: Vec<String> = Vec::new();
    let mut i: usize = 0;
    while i < v.len()
        invariant
            i <= v@.len(),
            strings(out@) == strings(v@).take(i as int),
        decreases v@.len() - i,
    {
        let ghost before = out@;
        let x = v[i].clone();
        proof {
            lemma_strings_push(before, x);
            assert(strings(v@).take(i + 1) =~= strings(v@).take(i as int).push(v@[i as int]@));
        }
        out.push(x);
        i += 1;
    }
    proof {
        assert(strings(v@).take(i as int) =~= strings(v@));
    }
    out
}

/// Index of `key` among `keys`.
fn find_key(keys: &Vec<String>, key: &str) -> (r: Option<usize>)
    ensures
        r matches Some(i) ==> i < keys@.len() && keys@[i as int]@ == key@ && forall|k: int| 0 <= k < i ==> keys@[k]@ != key@,
        r is None ==> !strings(keys@).contains(key@),
{
    let mut i: usize = 0;
    while i < keys.len()
        invariant
            i <= keys@.len(),
            forall|k: int| 0 <= k < i ==> keys@[k]@ != key@,
        decreases keys@.len() - i,
    {
        if str_eq(keys[i].as_str(), key) {
            return Some(i);
        }
        i += 1;
    }
    proof {
        if strings(keys@).contains(key@) {
            let k = choose|k: int| 0 <= k < strings(keys@).len() && strings(keys@)[k] == key@;
            assert(keys@[k]@ == key@);
        }
    }
    None
}

/// The nodes each sub-resource could be resolved against, by its id.
pub type Bases = Map<Seq<char>, Set<Seq<char>>>;

/// What `m` holds for `key`; nothing where it has no entry.
pub open spec fn held(m: Bases, key: Seq<char>) -> Set<Seq<char>> {
    if m.contains_key(key) {
        m[key]
    } else {
        Set::empty()
    }
}

/// `m` with `items` added to the bases of `key`, whose entry is made if it
/// was missing.
pub open spec fn add_spec(m: Bases, key: Seq<char>, items: Set<Seq<char>>) -> Bases {
    m.insert(key, held(m, key).union(items))
}

/// Every resource reference of a section, in order.
pub open spec fn sec_refs(s: Section) -> Seq<ValueRef> {
    fields_refs(s.fields@) + props_refs(s.props@)
}

/// Each sub-resource among `refs` gets `items`.
pub open spec fn add_all(m: Bases, refs: Seq<ValueRef>, items: Set<Seq<char>>) -> Bases
    decreases refs.len(),
{
    if refs.len() == 0 {
        m
    } else {
        let m1 = add_all(m, refs.drop_last(), items);
        if refs.last().kind is Sub {
            add_spec(m1, refs.last().id@, items)
        } else {
            m1
        }
    }
}

/// The bases the node sections `ns` give the sub-resources they use: the
/// node itself, and what it resolves tracks against.
pub open spec fn node_phase(ns: Seq<Section>) -> Bases
    decreases ns.len(),
{
    if ns.len() == 0 {
        Map::empty()
    } else {
        let s = ns.last();
        add_all(node_phase(ns.drop_last()), sec_refs(s), node_bases_spec(s, node_path_spec(s), true).to_set())
    }
}

/// A sub-resource `id` handing its bases `mine` on to the sub-resources
/// among `refs` it uses: the bases after, and whether any grew.
pub open spec fn hand_on(m: Bases, refs: Seq<ValueRef>, id: Seq<char>, mine: Set<Seq<char>>) -> (Bases, bool)
    decreases refs.len(),
{
    if refs.len() == 0 {
        (m, false)
    } else {
        let (m1, grew) = hand_on(m, refs.drop_last(), id, mine);
        let r = refs.last();
        if !(r.kind is Sub) || r.id@ == id {
            (m1, grew)
        } else {
            (add_spec(m1, r.id@, mine), grew || !mine.subset_of(held(m1, r.id@)))
        }
    }
}

/// One sub-resource section's turn in a round.
pub open spec fn sub_step(m: Bases, s: Section) -> (Bases, bool) {
    match field_str_spec(s, "id"@) {
        Some(id) => if m.contains_key(id) {
            hand_on(m, sec_refs(s), id, m[id])
        } else {
            (m, false)
        },
        None => (m, false),
    }
}

/// One round over the sub-resource sections, each seeing what the ones
/// before it handed on.
pub open spec fn round_spec(m: Bases, subs: Seq<Section>) -> (Bases, bool)
    decreases subs.len(),
{
    if subs.len() == 0 {
        (m, false)
    } else {
        let (m1, g1) = round_spec(m, subs.drop_last());
        let (m2, g2) = sub_step(m1, subs.last());
        (m2, g1 || g2)
    }
}

/// Rounds until nothing grows, or one more round than there are
/// sub-resources, by which time every chain of uses has been followed.
pub open spec fn settle(m: Bases, subs: Seq<Section>, round: nat) -> Bases
    decreases subs.len() - round,
{
    let (m1, grew) = round_spec(m, subs);
    if !grew || round >= subs.len() {
        m1
    } else {
        settle(m1, subs, round + 1)
    }
}

/// The bases of every sub-resource of `doc`.
pub open spec fn bases_spec(doc: Document) -> Bases {
    settle(
        node_phase(sections_of_spec(doc.sections@, SectionKind::Node)),
        sections_of_spec(doc.sections@, SectionKind::SubResource),
        0,
    )
}

/// The strictly sorted list of a finite set of paths.
pub open spec fn sorted_of(s: Set<Seq<char>>) -> Seq<Seq<char>> {
    choose|q: Seq<Seq<char>>| strictly_sorted(q) && q.to_set() == s
}

/// The bases recorded for `id`, in order.
pub open spec fn map_bases(m: Bases, id: Seq<char>) -> Option<Seq<Seq<char>>> {
    if m.contains_key(id) {
        Some(sorted_of(m[id]))
    } else {
        None
    }
}

/// `keys` and `vals` hold `m`: one entry per key, each a strictly sorted list.
pub open spec fn represents(keys: Seq<String>, vals: Seq<Vec<String>>, m: Bases) -> bool {
    &&& keys.len() == vals.len()
    &&& strings(keys).no_duplicates()
    &&& forall|k: int| 0 <= k < vals.len() ==> strictly_sorted(strings(#[trigger] vals[k]@))
    &&& forall|k: int|
        0 <= k < keys.len() ==> m.contains_key(#[trigger] keys[k]@) && strings(vals[k]@).to_set() == m[keys[k]@]
    &&& forall|x: Seq<char>| m.contains_key(x) ==> strings(keys).contains(x)
}

proof fn lemma_sorted_no_duplicates(s: Seq<Seq<char>>)
    requires
        strictly_sorted(s),
    ensures
        s.no_duplicates(),
{
    assert forall|i: int, j: int| 0 <= i < s.len() && 0 <= j < s.len() && i != j implies s[i] != s[j] by {
        if i < j {
            assert(lex_lt(s[i], s[j]));
            lemma_lex_irreflexive(s[i]);
        } else {
            assert(lex_lt(s[j], s[i]));
            lemma_lex_irreflexive(s[j]);
        }
    }
}

/// A strictly sorted list is the only one of its set.
proof fn lemma_sorted_unique(a: Seq<Seq<char>>, b: Seq<Seq<char>>)
    requires
        strictly_sorted(a),
        strictly_sorted(b),
        a.to_set() == b.to_set(),
    ensures
        a == b,
    decreases a.len(),
{
    if a.len() == 0 {
        if b.len() > 0 {
            assert(b.to_set().contains(b[0]));
        }
        assert(a =~= b);
    } else {
        if b.len() == 0 {
            assert(a.to_set().contains(a[0]));
        }
        let (x, y) = (a.last(), b.last());
        assert(a.to_set().contains(x));
        assert(b.to_set().contains(y));
        let i = choose|i: int| 0 <= i < b.len() && b[i] == x;
        let j = choose|j: int| 0 <= j < a.len() && a[j] == y;
        if x != y {
            if i < b.len() - 1 {
                assert(lex_lt(x, y));
            }
            if j < a.len() - 1 {
                assert(lex_lt(y, x));
            }
            lemma_lex_transitive(x, y, x);
            lemma_lex_irreflexive(x);
        }
        let (da, db) = (a.drop_last(), b.drop_last());
        assert forall|z: Seq<char>| da.to_set().contains(z) <==> db.to_set().contains(z) by {
            if da.to_set().contains(z) {
                let k = choose|k: int| 0 <= k < da.len() && da[k] == z;
                assert(lex_lt(a[k], x));
                lemma_lex_irreflexive(z);
                assert(a.to_set().contains(z));
                let m = choose|m: int| 0 <= m < b.len() && b[m] == z;
                assert(m != b.len() - 1);
                assert(db[m] == z);
            }
            if db.to_set().contains(z) {
                let k = choose|k: int| 0 <= k < db.len() && db[k] == z;
                assert(lex_lt(b[k], y));
                lemma_lex_irreflexive(z);
                assert(b.to_set().contains(z));
                let m = choose|m: int| 0 <= m < a.len() && a[m] == z;
                assert(m != a.len() - 1);
                assert(da[m] == z);
            }
        }
        assert(da.to_set() =~= db.to_set());
        lemma_sorted_unique(da, db);
        assert(a =~= da.push(x));
        assert(b =~= db.push(y));
    }
}

/// The list `keys`/`vals` hold for `id` is the sorted list of its bases.
proof fn lemma_represents_at(keys: Seq<String>, vals: Seq<Vec<String>>, m: Bases, k: int)
    requires
        represents(keys, vals, m),
        0 <= k < keys.len(),
    ensures
        map_bases(m, keys[k]@) == Some(strings(vals[k]@)),
{
    let q = strings(vals[k]@);
    assert(strictly_sorted(q));
    assert(q.to_set() == m[keys[k]@]);
    let c = sorted_of(m[keys[k]@]);
    assert(strictly_sorted(c) && c.to_set() == m[keys[k]@]);
    lemma_sorted_unique(c, q);
}

proof fn lemma_represents_absent(keys: Seq<String>, vals: Seq<Vec<String>>, m: Bases, id: Seq<char>)
    requires
        represents(keys, vals, m),
        !strings(keys).contains(id),
    ensures
        map_bases(m, id) is None,
{
}

/// Adds `items` to the bases of `key`; whether that added anything.
fn add_bases(
    keys: &mut Vec<String>,
    vals: &mut Vec<Vec<String>>,
    key: &str,
    items: &Vec<String>,
    Ghost(m): Ghost<Bases>,
) -> (changed: bool)
    requires
        represents(old(keys)@, old(vals)@, m),
    ensures
        represents(final(keys)@, final(vals)@, add_spec(m, key@, strings(items@).to_set())),
        changed == !strings(items@).to_set().subset_of(held(m, key@)),
{
    broadcast use vstd::set::group_set_axioms, vstd::seq_lib::seq_to_set_is_finite;
    let ghost iset = strings(items@).to_set();
    let ghost h = held(m, key@);
    let idx = match find_key(keys, key) {
        Some(i) => i,
        None => {
            let ghost (k0, v0) = (keys@, vals@);
            keys.push(key.to_owned());
            vals.push(Vec::new());
            proof {
                lemma_strings_push(k0, keys@[keys@.len() - 1]);
                assert(strings(vals@[vals@.len() - 1]@) =~= Seq::<Seq<char>>::empty());
                assert(!m.contains_key(key@));
                assert(strings(keys@).no_duplicates()) by {
                    assert forall|i: int, j: int|
                        0 <= i < strings(keys@).len() && 0 <= j < strings(keys@).len() && i != j implies strings(
                        keys@,
                    )[i] != strings(keys@)[j] by {
                        if i < k0.len() && j < k0.len() {
                            assert(strings(keys@)[i] == strings(k0)[i]);
                            assert(strings(keys@)[j] == strings(k0)[j]);
                        } else if i < k0.len() {
                            assert(strings(k0).contains(strings(k0)[i]));
                        } else {
                            assert(strings(k0).contains(strings(k0)[j]));
                        }
                    }
                }
            }
            keys.len() - 1
        },
    };
    // Now `m` is held with the entry for `key` in place.
    let ghost m1 = m.insert(key@, h);
    proof {
        assert forall|x: Seq<char>| strings(old(keys)@).contains(x) implies strings(keys@).contains(x) by {
            let k = choose|k: int| 0 <= k < strings(old(keys)@).len() && strings(old(keys)@)[k] == x;
            assert(keys@[k] == old(keys)@[k]);
            assert(strings(keys@)[k] == x);
        }
        assert(strings(vals@[idx as int]@).to_set() =~= h);
        assert(represents(keys@, vals@, m1)) by {
            assert forall|k: int| 0 <= k < keys@.len() implies m1.contains_key(#[trigger] keys@[k]@) && strings(
                vals@[k]@,
            ).to_set() == m1[keys@[k]@] by {
                if k != idx {
                    assert(strings(keys@)[k] != strings(keys@)[idx as int]);
                }
            }
            assert forall|x: Seq<char>| m1.contains_key(x) implies strings(keys@).contains(x) by {
                if x == key@ {
                    assert(strings(keys@)[idx as int] == x);
                }
            }
        }
    }
    let mut list = copy_strings(&vals[idx]);
    let before = list.len();
    proof {
        lemma_sorted_no_duplicates(strings(list@));
        strings(list@).unique_seq_to_set();
    }
    let mut j: usize = 0;
    while j < items.len()
        invariant
            j <= items@.len(),
            strictly_sorted(strings(list@)),
            strings(list@).to_set() == h.union(strings(items@).take(j as int).to_set()),
            iset == strings(items@).to_set(),
        decreases items@.len() - j,
    {
        proof {
            assert(string_views(list@) =~= strings(list@));
        }
        insert_sorted(&mut list, items[j].as_str());
        proof {
            assert(string_views(list@) =~= strings(list@));
            assert(strings(items@).take(j + 1) =~= strings(items@).take(j as int).push(items@[j as int]@));
            strings(items@).take(j as int).lemma_push_to_set_commute(items@[j as int]@);
            assert(strings(items@).take(j + 1).to_set() =~= strings(items@).take(j as int).to_set().insert(items@[j as int]@));
            assert(strings(list@).to_set() =~= h.union(strings(items@).take(j + 1).to_set()));
        }
        j += 1;
    }
    let changed = list.len() != before;
    proof {
        assert(strings(items@).take(j as int) =~= strings(items@));
        let after = strings(list@).to_set();
        assert(after == h.union(iset));
        lemma_sorted_no_duplicates(strings(list@));
        strings(list@).unique_seq_to_set();
        if iset.subset_of(h) {
            assert(after =~= h);
        } else {
            let x = choose|x: Seq<char>| iset.contains(x) && !h.contains(x);
            vstd::set_lib::lemma_len_subset(h.insert(x), after);
        }
    }
    vals.set(idx, list);
    proof {
        let m2 = add_spec(m, key@, iset);
        assert(represents(keys@, vals@, m2)) by {
            assert forall|k: int| 0 <= k < vals@.len() implies strictly_sorted(strings(#[trigger] vals@[k]@)) by {}
            assert forall|k: int| 0 <= k < keys@.len() implies m2.contains_key(#[trigger] keys@[k]@) && strings(
                vals@[k]@,
            ).to_set() == m2[keys@[k]@] by {
                if k != idx {
                    assert(strings(keys@)[k] != strings(keys@)[idx as int]);
                }
            }
            assert forall|x: Seq<char>| m2.contains_key(x) implies strings(keys@).contains(x) by {
                if x == key@ {
                    assert(strings(keys@)[idx as int] == x);
                }
            }
        }
    }
    changed
}

/// The nodes each sub-resource could be resolved against, as parallel lists
/// of ids and strictly sorted node paths.
///
/// A sub-resource is not in the tree, so its paths are relative to whichever
/// node uses it, reached through however many other sub-resources. An
/// `AnimationPlayer` resolves its tracks against `root_node`, which defaults to
/// its own parent, so that node is offered as well. Both are accepted rather
/// than one being chosen, because guessing wrong would mean rejecting a valid
/// file.
fn sub_resource_bases(doc: &Document) -> (r: (Vec<String>, Vec<Vec<String>>))
    ensures
        represents(r.0@, r.1@, bases_spec(*doc)),
{
    let mut keys: Vec<String> = Vec::new();
    let mut vals: Vec<Vec<String>> = Vec::new();
    let nodes = doc.sections_of(SectionKind::Node);
    let ghost ns = derefs(nodes@);
    proof {
        assert(represents(keys@, vals@, node_phase(ns.take(0)))) by {
            assert(ns.take(0) =~= Seq::<Section>::empty());
        }
    }
    let mut i: usize = 0;
    while i < nodes.len()
        invariant
            i <= nodes@.len(),
            ns == derefs(nodes@),
            represents(keys@, vals@, node_phase(ns.take(i as int))),
        decreases nodes@.len() - i,
    {
        let s = nodes[i];
        proof {
            assert(ns.take(i + 1).drop_last() =~= ns.take(i as int));
            assert(ns.take(i + 1).last() == *s);
        }
        let path = node_path(s);
        let candidates = node_bases(s, path.as_str(), true);
        let ghost cset = strings(candidates@).to_set();
        let ghost start = node_phase(ns.take(i as int));
        let refs = s.refs();
        let ghost rs = deref_refs(refs@);
        let mut j: usize = 0;
        proof {
            assert(rs.take(0) =~= Seq::<ValueRef>::empty());
        }
        while j < refs.len()
            invariant
                j <= refs@.len(),
                rs == deref_refs(refs@),
                cset == strings(candidates@).to_set(),
                represents(keys@, vals@, add_all(start, rs.take(j as int), cset)),
            decreases refs@.len() - j,
        {
            let r = refs[j];
            proof {
                assert(rs.take(j + 1).drop_last() =~= rs.take(j as int));
                assert(rs.take(j + 1).last() == *r);
            }
            if r.kind == RefKind::Sub {
                add_bases(&mut keys, &mut vals, r.id.as_str(), &candidates, Ghost(add_all(start, rs.take(j as int), cset)));
            }
            j += 1;
        }
        proof {
            assert(rs.take(j as int) =~= rs);
            assert(rs == sec_refs(*s));
        }
        i += 1;
    }
    proof {
        assert(ns.take(i as int) =~= ns);
    }
    // A sub-resource used by another sub-resource inherits its bases.
    let subs = doc.sections_of(SectionKind::SubResource);
    let ghost ss = derefs(subs@);
    let ghost target = bases_spec(*doc);
    let ghost mut cur = node_phase(ns);
    let mut round: usize = 0;
    loop
        invariant_except_break
            round <= subs@.len(),
            ss == derefs(subs@),
            represents(keys@, vals@, cur),
            settle(cur, ss, round as nat) == target,
        ensures
            represents(keys@, vals@, target),
        decreases subs@.len() - round,
    {
        let ghost start = cur;
        let mut changed = false;
        let mut i: usize = 0;
        proof {
            assert(ss.take(0) =~= Seq::<Section>::empty());
        }
        while i < subs.len()
            invariant
                i <= subs@.len(),
                ss == derefs(subs@),
                represents(keys@, vals@, round_spec(start, ss.take(i as int)).0),
                changed == round_spec(start, ss.take(i as int)).1,
            decreases subs@.len() - i,
        {
            let s = subs[i];
            let ghost here = round_spec(start, ss.take(i as int)).0;
            proof {
                assert(ss.take(i + 1).drop_last() =~= ss.take(i as int));
                assert(ss.take(i + 1).last() == *s);
            }
            i += 1;
            let id = match s.field_str("id") {
                Some(id) => id,
                None => continue,
            };
            let mine = match find_key(&keys, id) {
                Some(k) => {
                    proof {
                        assert(strings(keys@)[k as int] == id@);
                    }
                    copy_strings(&vals[k])
                },
                None => {
                    proof {
                        assert(!here.contains_key(id@));
                    }
                    continue;
                },
            };
            let ghost mset = strings(mine@).to_set();
            proof {
                assert(here.contains_key(id@));
                assert(mset == here[id@]);
            }
            let refs = s.refs();
            let ghost rs = deref_refs(refs@);
            let ghost grew_before = changed;
            let mut j: usize = 0;
            proof {
                assert(rs.take(0) =~= Seq::<ValueRef>::empty());
            }
            while j < refs.len()
                invariant
                    j <= refs@.len(),
                    rs == deref_refs(refs@),
                    mset == strings(mine@).to_set(),
                    represents(keys@, vals@, hand_on(here, rs.take(j as int), id@, mset).0),
                    changed == (grew_before || hand_on(here, rs.take(j as int), id@, mset).1),
                decreases refs@.len() - j,
            {
                let r = refs[j];
                proof {
                    assert(rs.take(j + 1).drop_last() =~= rs.take(j as int));
                    assert(rs.take(j + 1).last() == *r);
                }
                j += 1;
                if r.kind != RefKind::Sub || str_eq(r.id.as_str(), id) {
                    continue;
                }
                if add_bases(&mut keys, &mut vals, r.id.as_str(), &mine, Ghost(hand_on(here, rs.take(j - 1), id@, mset).0)) {
                    changed = true;
                }
            }
            proof {
                assert(rs.take(j as int) =~= rs);
                assert(rs == sec_refs(*s));
            }
        }
        proof {
            assert(ss.take(i as int) =~= ss);
        }
        if !changed || round >= subs.len() {
            break;
        }
        round += 1;
        proof {
            cur = round_spec(start, ss).0;
        }
    }
    (keys, vals)
}

// ---------------------------------------------------------------------------
// Every `NodePath` in a document.

pub open spec fn path_refs(site: SiteView, paths: Seq<Seq<char>>, bases: Seq<Seq<char>>) -> Seq<ReferenceView> {
    Seq::new(paths.len(), |i: int| ReferenceView { site, path: paths[i], bases })
}

pub open spec fn node_prop_refs(node: Seq<char>, props: Seq<Property>, bases: Seq<Seq<char>>) -> Seq<ReferenceView>
    decreases props.len(),
{
    if props.len() == 0 {
        seq![]
    } else {
        node_prop_refs(node, props.drop_last(), bases) + path_refs(
            SiteView::NodeProperty { node, property: props.last().key@ },
            value_paths(props.last().value@),
            bases,
        )
    }
}

pub open spec fn sub_prop_refs(id: Seq<char>, props: Seq<Property>, bases: Seq<Seq<char>>) -> Seq<ReferenceView>
    decreases props.len(),
{
    if props.len() == 0 {
        seq![]
    } else {
        sub_prop_refs(id, props.drop_last(), bases) + path_refs(
            SiteView::SubResourceProperty { id, property: props.last().key@ },
            value_paths(props.last().value@),
            bases,
        )
    }
}

pub open spec fn or_empty(o: Option<Seq<char>>) -> Seq<char> {
    match o {
        Some(x) => x,
        None => seq![],
    }
}

/// A connection's `from` or `to`, resolved from the root.
pub open spec fn endpoint_refs(s: Section, field: Seq<char>) -> Seq<ReferenceView> {
    match field_str_spec(s, field) {
        Some(v) => seq![
            ReferenceView {
                site: SiteView::Connection {
                    field,
                    from: or_empty(field_str_spec(s, "from"@)),
                    to: or_empty(field_str_spec(s, "to"@)),
                },
                path: v,
                bases: seq!["."@],
            },
        ],
        None => seq![],
    }
}

/// Bound arguments are resolved by the receiver, from the root.
pub open spec fn binds_refs(s: Section) -> Seq<ReferenceView> {
    match field_index(s.fields@, "binds"@) {
        Some(i) => path_refs(
            SiteView::Connection {
                field: "binds"@,
                from: or_empty(field_str_spec(s, "from"@)),
                to: or_empty(field_str_spec(s, "to"@)),
            },
            value_paths(s.fields@[i].value@),
            seq!["."@],
        ),
        None => seq![],
    }
}

/// The references one section holds, with what each is relative to.
pub open spec fn section_references(m: Bases, s: Section) -> Seq<ReferenceView> {
    match s.kind {
        SectionKind::Node => {
            let base = node_path_spec(s);
            node_prop_refs(base, s.props@, node_bases_spec(s, base, false))
        },
        SectionKind::SubResource => match field_str_spec(s, "id"@) {
            Some(id) => match map_bases(m, id) {
                Some(b) => if b.len() > 0 {
                    sub_prop_refs(id, s.props@, b)
                } else {
                    seq![]
                },
                None => seq![],
            },
            None => seq![],
        },
        SectionKind::Connection => endpoint_refs(s, "from"@) + endpoint_refs(s, "to"@) + binds_refs(s),
        SectionKind::Editable => match field_str_spec(s, "path"@) {
            Some(p) => seq![ReferenceView { site: SiteView::Editable, path: p, bases: seq!["."@] }],
            None => seq![],
        },
        _ => seq![],
    }
}

pub open spec fn doc_references(m: Bases, ss: Seq<Section>) -> Seq<ReferenceView>
    decreases ss.len(),
{
    if ss.len() == 0 {
        seq![]
    } else {
        doc_references(m, ss.drop_last()) + section_references(m, ss.last())
    }
}

/// Appends a reference for each of `paths`.
fn push_path_refs(out: &mut Vec<Reference>, site_of: &Site, paths: &Vec<String>, bases: &Vec<String>)
    ensures
        reference_views(final(out)@) == reference_views(old(out)@) + path_refs(site_of@, strings(paths@), strings(bases@)),
{
    let ghost start = reference_views(out@);
    let mut i: usize = 0;
    while i < paths.len()
        invariant
            i <= paths@.len(),
            reference_views(out@) == start + path_refs(site_of@, strings(paths@).take(i as int), strings(bases@)),
        decreases paths@.len() - i,
    {
        let site = copy_site(site_of);
        let r = Reference { site, path: paths[i].clone(), bases: copy_strings(bases) };
        let ghost before = out@;
        out.push(r);
        proof {
            assert(reference_views(out@) =~= reference_views(before).push(reference_view(r)));
            assert(path_refs(site_of@, strings(paths@).take(i + 1), strings(bases@)) =~= path_refs(
                site_of@,
                strings(paths@).take(i as int),
                strings(bases@),
            ).push(reference_view(r)));
        }
        i += 1;
    }
    proof {
        assert(strings(paths@).take(i as int) =~= strings(paths@));
    }
}

fn copy_site(s: &Site) -> (r: Site)
    ensures
        r@ == s@,
{
    match s {
        Site::NodeProperty { node, property } => Site::NodeProperty { node: node.clone(), property: property.clone() },
        Site::SubResourceProperty { id, property } => Site::SubResourceProperty {
            id: id.clone(),
            property: property.clone(),
        },
        Site::Connection { field, from, to } => Site::Connection { field, from: from.clone(), to: to.clone() },
        Site::Editable => Site::Editable,
    }
}

fn value_path_list(v: &Value) -> (r: Vec<String>)
    ensures
        strings(r@) == value_paths(v@),
{
    let mut out: Vec<String> = Vec::new();
    collect_paths(v, &mut out);
    proof {
        assert(string_views(out@) =~= strings(out@));
    }
    out
}

fn props_refs_with(out: &mut Vec<Reference>, props: &Vec<Property>, node_site: bool, owner: &str, bases: &Vec<String>)
    ensures
        reference_views(final(out)@) == reference_views(old(out)@) + if node_site {
            node_prop_refs(owner@, props@, strings(bases@))
        } else {
            sub_prop_refs(owner@, props@, strings(bases@))
        },
{
    let ghost start = reference_views(out@);
    let mut i: usize = 0;
    while i < props.len()
        invariant
            i <= props@.len(),
            reference_views(out@) == start + if node_site {
                node_prop_refs(owner@, props@.take(i as int), strings(bases@))
            } else {
                sub_prop_refs(owner@, props@.take(i as int), strings(bases@))
            },
        decreases props@.len() - i,
    {
        proof {
            assert(props@.take(i + 1).drop_last() =~= props@.take(i as int));
        }
        let p = &props[i];
        let site = if node_site {
            Site::NodeProperty { node: owner.to_owned(), property: p.key.clone() }
        } else {
            Site::SubResourceProperty { id: owner.to_owned(), property: p.key.clone() }
        };
        let paths = value_path_list(&p.value);
        push_path_refs(out, &site, &paths, bases);
        i += 1;
    }
    proof {
        assert(props@.take(i as int) =~= props@);
    }
}

fn endpoint(out: &mut Vec<Reference>, s: &Section, field: &'static str)
    ensures
        reference_views(final(out)@) == reference_views(old(out)@) + endpoint_refs(*s, field@),
{
    if let Some(value) = s.field_str(field) {
        let from = match s.field_str("from") {
            Some(x) => x.to_owned(),
            None => String::new(),
        };
        let to = match s.field_str("to") {
            Some(x) => x.to_owned(),
            None => String::new(),
        };
        let mut bases: Vec<String> = Vec::new();
        bases.push(".".to_owned());
        let r = Reference { site: Site::Connection { field, from, to }, path: value.to_owned(), bases };
        let ghost before = out@;
        out.push(r);
        proof {
            assert(strings(bases@) =~= seq!["."@]);
            assert(reference_views(out@) =~= reference_views(before) + endpoint_refs(*s, field@));
        }
    } else {
        proof {
            assert(reference_views(out@) =~= reference_views(out@) + endpoint_refs(*s, field@));
        }
    }
}

fn section_refs_into(
    out: &mut Vec<Reference>,
    keys: &Vec<String>,
    vals: &Vec<Vec<String>>,
    s: &Section,
    Ghost(m): Ghost<Bases>,
)
    requires
        represents(keys@, vals@, m),
    ensures
        reference_views(final(out)@) == reference_views(old(out)@) + section_references(m, *s),
{
    let ghost start = reference_views(out@);
    match s.kind {
        SectionKind::Node => {
            let base = node_path(s);
            let bases = node_bases(s, base.as_str(), false);
            props_refs_with(out, &s.props, true, base.as_str(), &bases);
        },
        SectionKind::SubResource => {
            if let Some(id) = s.field_str("id") {
                if let Some(k) = find_key(keys, id) {
                    proof {
                        lemma_represents_at(keys@, vals@, m, k as int);
                    }
                    let bases = copy_strings(&vals[k]);
                    if bases.len() > 0 {
                        props_refs_with(out, &s.props, false, id, &bases);
                    } else {
                        proof {
                            assert(reference_views(out@) =~= start + section_references(m, *s));
                        }
                    }
                } else {
                    proof {
                        lemma_represents_absent(keys@, vals@, m, id@);
                        assert(reference_views(out@) =~= start + section_references(m, *s));
                    }
                }
            } else {
                proof {
                    assert(reference_views(out@) =~= start + section_references(m, *s));
                }
            }
        },
        SectionKind::Connection => {
            endpoint(out, s, "from");
            endpoint(out, s, "to");
            let ghost mid = reference_views(out@);
            match s.field("binds") {
                Some(binds) => {
                    let from = match s.field_str("from") {
                        Some(x) => x.to_owned(),
                        None => String::new(),
                    };
                    let to = match s.field_str("to") {
                        Some(x) => x.to_owned(),
                        None => String::new(),
                    };
                    let mut bases: Vec<String> = Vec::new();
                    bases.push(".".to_owned());
                    proof {
                        assert(strings(bases@) =~= seq!["."@]);
                    }
                    let paths = value_path_list(&binds.value);
                    push_path_refs(out, &Site::Connection { field: "binds", from, to }, &paths, &bases);
                },
                None => {},
            }
            proof {
                assert(reference_views(out@) =~= start + section_references(m, *s));
            }
        },
        SectionKind::Editable => {
            if let Some(path) = s.field_str("path") {
                let mut bases: Vec<String> = Vec::new();
                bases.push(".".to_owned());
                let r = Reference { site: Site::Editable, path: path.to_owned(), bases };
                let ghost before = out@;
                out.push(r);
                proof {
                    assert(strings(bases@) =~= seq!["."@]);
                    assert(reference_views(out@) =~= reference_views(before) + section_references(m, *s));
                }
            } else {
                proof {
                    assert(reference_views(out@) =~= start + section_references(m, *s));
                }
            }
        },
        _ => {
            proof {
                assert(reference_views(out@) =~= start + section_references(m, *s));
            }
        },
    }
}

/// Every `NodePath` in the document, with what it is relative to: the node
/// holding it, sub-resources through the nodes that use them, and connection
/// endpoints and `[editable]` paths from the root.
pub fn references(doc: &Document) -> (r: Vec<Reference>)
    ensures
        reference_views(r@) == doc_references(bases_spec(*doc), doc.sections@),
{
    let (keys, vals) = sub_resource_bases(doc);
    let mut out: Vec<Reference> = Vec::new();
    let mut i: usize = 0;
    while i < doc.sections.len()
        invariant
            i <= doc.sections@.len(),
            represents(keys@, vals@, bases_spec(*doc)),
            reference_views(out@) == doc_references(bases_spec(*doc), doc.sections@.take(i as int)),
        decreases doc.sections@.len() - i,
    {
        proof {
            assert(doc.sections@.take(i + 1).drop_last() =~= doc.sections@.take(i as int));
        }
        section_refs_into(&mut out, &keys, &vals, &doc.sections[i], Ghost(bases_spec(*doc)));
        i += 1;
    }
    proof {
        assert(doc.sections@.take(i as int) =~= doc.sections@);
    }
    out
}

// ---------------------------------------------------------------------------
// What did not resolve.

/// The outcome worth reporting among unresolved ones: a definite miss is more
/// useful than a vague one, but anything uncertain takes precedence over it,
/// because uncertainty is the reason not to call the file broken. So the first
/// outcome that is not a miss, or else the first miss.
pub open spec fn worst(outs: Seq<ResolutionView>) -> Option<ResolutionView>
    decreases outs.len(),
{
    if outs.len() == 0 {
        None
    } else {
        let w = worst(outs.drop_last());
        let o = outs.last();
        if w is None || (w matches Some(ResolutionView::Missing(_)) && !(o is Missing)) {
            Some(o)
        } else {
            w
        }
    }
}

pub open spec fn is_fine(r: ResolutionView) -> bool {
    r is Node || r is Outside
}

/// The bases a reference is tried from: its own, plus the root where the root
/// is plausible and not already among them.
pub open spec fn tried_bases(r: ReferenceView) -> Seq<Seq<char>> {
    if !starts_with(r.path, ".."@) && !r.bases.contains("."@) {
        r.bases.push("."@)
    } else {
        r.bases
    }
}

impl TreeView {
    pub open spec fn outcomes(self, bases: Seq<Seq<char>>, path: Seq<char>) -> Seq<ResolutionView> {
        Seq::new(bases.len(), |i: int| self.resolve_spec(bases[i], path))
    }

    /// What a reference amounts to: nothing when it resolves from any one
    /// plausible base, and otherwise the worst outcome.
    pub open spec fn finding(self, r: ReferenceView) -> Option<ResolutionView> {
        let outs = self.outcomes(tried_bases(r), r.path);
        if exists|i: int| 0 <= i < outs.len() && is_fine(#[trigger] outs[i]) {
            None
        } else {
            worst(outs)
        }
    }
}

pub open spec fn findings_spec(t: TreeView, refs: Seq<ReferenceView>) -> Seq<(ReferenceView, ResolutionView)>
    decreases refs.len(),
{
    if refs.len() == 0 {
        seq![]
    } else {
        findings_spec(t, refs.drop_last()) + match t.finding(refs.last()) {
            Some(o) => seq![(refs.last(), o)],
            None => seq![],
        }
    }
}

/// What walking every `NodePath` of `doc` finds unresolved, with why.
pub open spec fn doc_findings(doc: Document) -> Seq<(ReferenceView, ResolutionView)> {
    findings_spec(doc_tree(doc), doc_references(bases_spec(doc), doc.sections@))
}

pub open spec fn finding_views(s: Seq<(Reference, Resolution)>) -> Seq<(ReferenceView, ResolutionView)> {
    Seq::new(s.len(), |i: int| (reference_view(s[i].0), s[i].1@))
}

fn contains_str(v: &Vec<String>, x: &str) -> (r: bool)
    ensures
        r == strings(v@).contains(x@),
{
    let mut i: usize = 0;
    while i < v.len()
        invariant
            i <= v@.len(),
            forall|k: int| 0 <= k < i ==> v@[k]@ != x@,
        decreases v@.len() - i,
    {
        if str_eq(v[i].as_str(), x) {
            proof {
                assert(strings(v@)[i as int] == x@);
            }
            return true;
        }
        i += 1;
    }
    proof {
        if strings(v@).contains(x@) {
            let k = choose|k: int| 0 <= k < strings(v@).len() && strings(v@)[k] == x@;
            assert(v@[k]@ == x@);
        }
    }
    false
}

fn is_missing(r: &Resolution) -> (b: bool)
    ensures
        b == (r@ is Missing),
{
    matches!(r, Resolution::Missing(_))
}

impl Tree {
    /// What one reference amounts to.
    pub fn judge(&self, reference: &Reference) -> (r: Option<Resolution>)
        ensures
            match self@.finding(reference_view(*reference)) {
                Some(o) => r matches Some(x) && x@ == o,
                None => r is None,
            },
    {
        let mut bases = copy_strings(&reference.bases);
        if root_is_plausible(reference.path.as_str()) && !contains_str(&bases, ".") {
            let ghost before = bases@;
            let dot = ".".to_owned();
            proof {
                lemma_strings_push(before, dot);
            }
            bases.push(dot);
        }
        let ghost tried = tried_bases(reference_view(*reference));
        let ghost outs = self@.outcomes(tried, reference.path@);
        assert(strings(bases@) == tried);
        let mut worst_so_far: Option<Resolution> = None;
        let mut i: usize = 0;
        while i < bases.len()
            invariant
                i <= bases@.len(),
                strings(bases@) == tried,
                tried == tried_bases(reference_view(*reference)),
                outs == self@.outcomes(tried, reference.path@),
                forall|k: int| 0 <= k < i ==> !is_fine(#[trigger] outs[k]),
                match worst(outs.take(i as int)) {
                    Some(w) => worst_so_far matches Some(x) && x@ == w,
                    None => worst_so_far is None,
                },
            decreases bases@.len() - i,
        {
            let outcome = self.resolve(bases[i].as_str(), reference.path.as_str());
            proof {
                assert(outs[i as int] == outcome@);
                assert(outs.take(i + 1).drop_last() =~= outs.take(i as int));
            }
            match outcome {
                Resolution::Node(_) | Resolution::Outside => {
                    // Resolving from any one plausible base is enough.
                    proof {
                        assert(is_fine(outs[i as int]));
                    }
                    return None;
                },
                other => {
                    let keep = match &worst_so_far {
                        None => true,
                        Some(w) => is_missing(w) && !is_missing(&other),
                    };
                    if keep {
                        worst_so_far = Some(other);
                    }
                },
            }
            i += 1;
        }
        proof {
            assert(outs.take(i as int) =~= outs);
        }
        worst_so_far
    }
}

/// Every reference that did not resolve cleanly, with why.
///
/// `check` turns these into messages, so the walking happens once.
pub fn findings(doc: &Document) -> (r: Vec<(Reference, Resolution)>)
    ensures
        finding_views(r@) == doc_findings(*doc),
{
    let tree = Tree::new(doc);
    let refs = references(doc);
    let ghost rv = reference_views(refs@);
    let mut out: Vec<(Reference, Resolution)> = Vec::new();
    let mut i: usize = 0;
    while i < refs.len()
        invariant
            i <= refs@.len(),
            rv == reference_views(refs@),
            tree@ == doc_tree(*doc),
            finding_views(out@) == findings_spec(tree@, rv.take(i as int)),
        decreases refs@.len() - i,
    {
        proof {
            assert(rv.take(i + 1).drop_last() =~= rv.take(i as int));
            assert(rv[i as int] == reference_view(refs@[i as int]));
        }
        let judged = tree.judge(&refs[i]);
        match judged {
            Some(outcome) => {
                let ghost before = out@;
                let item = (copy_reference(&refs[i]), outcome);
                out.push(item);
                proof {
                    assert(finding_views(out@) =~= finding_views(before).push((reference_view(item.0), item.1@)));
                }
            },
            None => {},
        }
        i += 1;
    }
    proof {
        assert(rv.take(i as int) =~= rv);
    }
    out
}

fn copy_reference(r: &Reference) -> (c: Reference)
    ensures
        reference_view(c) == reference_view(*r),
{
    Reference { site: copy_site(&r.site), path: r.path.clone(), bases: copy_strings(&r.bases) }
}
} // verus!
