//! A structure-preserving model of a Godot variant literal, and its parser.
//!
//! The model records the *shape* of a literal (`Name(args...)`,
//! `Array[T]([...])`, `Object(Type, "k": v)`, ...) without knowing Godot's type
//! list, so a future engine type parses without a change here. It is used for
//! comparison only; output always replays the original source text, which is
//! what makes round-tripping lossless.
use std::ops::Range;

use vstd::prelude::*;

use crate::error::ParseError;
use crate::lex::{lemma_lex_at_bounds, lex_at, Cursor, Tok, TokView, Token, MAX_DEPTH};
use crate::text::str_eq;

verus! {

/// Which table a resource reference points into.
#[derive(Debug, Clone, Copy, PartialEq, Eq, Hash, Structural)]
pub enum RefKind {
    Ext,
    Sub,
}

impl RefKind {
    pub open spec fn ctor_spec(self) -> Seq<char> {
        match self {
            RefKind::Ext => "ExtResource"@,
            RefKind::Sub => "SubResource"@,
        }
    }

    /// The constructor a reference of this kind is written with.
    pub fn ctor(self) -> (s: &'static str)
        ensures
            s@ == self.ctor_spec(),
    {
        match self {
            RefKind::Ext => "ExtResource",
            RefKind::Sub => "SubResource",
        }
    }
}

/// An `ExtResource("id")` / `SubResource("id")` occurrence, with the range of
/// the quoted id *including* its quotes.
#[derive(Debug, PartialEq, Eq)]
pub struct ValueRef {
    pub kind: RefKind,
    pub id: String,
    pub span: Range<usize>,
}

/// A `NodePath("path")` occurrence, with the range of the quoted path
/// including its quotes.
#[derive(Debug, PartialEq, Eq)]
pub struct PathRef {
    pub path: String,
    pub span: Range<usize>,
}

/// What value parsing found that a rewrite may need to touch.
#[derive(Debug, PartialEq, Eq)]
pub struct Pointers {
    pub refs: Vec<ValueRef>,
    pub paths: Vec<PathRef>,
}

/// A parsed variant literal.
#[derive(Debug, PartialEq, Eq)]
pub enum Value {
    /// `true`, `false`, `null`, `nan`, `inf`, `-inf`, and bare type names.
    Ident(String),
    /// A number, as its exact source text.
    Num(String),
    Str(String),
    /// `&"..."` StringName.
    Name(String),
    /// `#rrggbb[aa]`, stored without the `#`.
    Color(String),
    Array(Vec<Value>),
    Dict(Vec<(Value, Value)>),
    /// `Name(a, b, ...)`: every constructor, including `ExtResource("1_a")`.
    Call { name: String, args: Vec<Value> },
    /// `Array[T]([...])`.
    TypedArray { ty: Box<Value>, items: Vec<Value> },
    /// `Dictionary[K, V]({...})`.
    TypedDict { key: Box<Value>, val: Box<Value>, entries: Vec<(Value, Value)> },
    /// `Object(Type, "prop": value, ...)`.
    Object { ty: String, props: Vec<(String, Value)> },
}

/// The mathematical content of a [`Value`].
pub enum ValueView {
    Ident(Seq<char>),
    Num(Seq<char>),
    Str(Seq<char>),
    Name(Seq<char>),
    Color(Seq<char>),
    Array(Seq<ValueView>),
    Dict(Seq<(ValueView, ValueView)>),
    Call { name: Seq<char>, args: Seq<ValueView> },
    TypedArray { ty: Box<ValueView>, items: Seq<ValueView> },
    TypedDict { key: Box<ValueView>, val: Box<ValueView>, entries: Seq<(ValueView, ValueView)> },
    Object { ty: Seq<char>, props: Seq<(Seq<char>, ValueView)> },
}

pub open spec fn vview(v: Value) -> ValueView
    decreases v,
{
    match v {
        Value::Ident(s) => ValueView::Ident(s@),
        Value::Num(s) => ValueView::Num(s@),
        Value::Str(s) => ValueView::Str(s@),
        Value::Name(s) => ValueView::Name(s@),
        Value::Color(s) => ValueView::Color(s@),
        Value::Array(items) => ValueView::Array(views(items@)),
        Value::Dict(entries) => ValueView::Dict(entry_views(entries@)),
        Value::Call { name, args } => ValueView::Call { name: name@, args: views(args@) },
        Value::TypedArray { ty, items } => ValueView::TypedArray {
            ty: Box::new(vview(*ty)),
            items: views(items@),
        },
        Value::TypedDict { key, val, entries } => ValueView::TypedDict {
            key: Box::new(vview(*key)),
            val: Box::new(vview(*val)),
            entries: entry_views(entries@),
        },
        Value::Object { ty, props } => ValueView::Object { ty: ty@, props: prop_views(props@) },
    }
}

pub open spec fn views(s: Seq<Value>) -> Seq<ValueView>
    decreases s,
{
    if s.len() == 0 {
        seq![]
    } else {
        views(s.drop_last()).push(vview(s.last()))
    }
}

pub open spec fn entry_views(s: Seq<(Value, Value)>) -> Seq<(ValueView, ValueView)>
    decreases s,
{
    if s.len() == 0 {
        seq![]
    } else {
        entry_views(s.drop_last()).push((vview(s.last().0), vview(s.last().1)))
    }
}

pub open spec fn prop_views(s: Seq<(String, Value)>) -> Seq<(Seq<char>, ValueView)>
    decreases s,
{
    if s.len() == 0 {
        seq![]
    } else {
        prop_views(s.drop_last()).push((s.last().0@, vview(s.last().1)))
    }
}

impl View for Value {
    type V = ValueView;

    open spec fn view(&self) -> ValueView {
        vview(*self)
    }
}

pub(crate) proof fn lemma_views_push(s: Seq<Value>, v: Value)
    ensures
        views(s.push(v)) == views(s).push(vview(v)),
{
    assert(s.push(v).drop_last() =~= s);
}

pub(crate) proof fn lemma_entry_views_push(s: Seq<(Value, Value)>, e: (Value, Value))
    ensures
        entry_views(s.push(e)) == entry_views(s).push((vview(e.0), vview(e.1))),
{
    assert(s.push(e).drop_last() =~= s);
}

pub(crate) proof fn lemma_prop_views_push(s: Seq<(String, Value)>, e: (String, Value))
    ensures
        prop_views(s.push(e)) == prop_views(s).push((e.0@, vview(e.1))),
{
    assert(s.push(e).drop_last() =~= s);
}

/// Which reference constructor `name` is, if any.
pub open spec fn ref_kind_spec(name: Seq<char>) -> Option<RefKind> {
    if name == "ExtResource"@ {
        Some(RefKind::Ext)
    } else if name == "SubResource"@ {
        Some(RefKind::Sub)
    } else {
        None
    }
}

pub fn ref_kind(name: &str) -> (k: Option<RefKind>)
    ensures
        k == ref_kind_spec(name@),
{
    if str_eq(name, "ExtResource") {
        Some(RefKind::Ext)
    } else if str_eq(name, "SubResource") {
        Some(RefKind::Sub)
    } else {
        None
    }
}


// ---------------------------------------------------------------------------
// What a value points at: resource references and node paths, in the order
// they occur.

/// The reference a call `name(args)` itself makes, if it is one.
pub open spec fn call_ref(name: Seq<char>, args: Seq<ValueView>) -> Seq<(RefKind, Seq<char>)> {
    match ref_kind_spec(name) {
        Some(k) => if args.len() > 0 && args[0] is Str {
            seq![(k, args[0]->Str_0)]
        } else {
            seq![]
        },
        None => seq![],
    }
}

/// The node path a call `name(args)` itself holds, if it is one.
pub open spec fn call_path(name: Seq<char>, args: Seq<ValueView>) -> Seq<Seq<char>> {
    if name == "NodePath"@ && args.len() > 0 && args[0] is Str {
        seq![args[0]->Str_0]
    } else {
        seq![]
    }
}

/// Every quoted `ExtResource` / `SubResource` reference in a value, in order.
pub open spec fn value_refs(v: ValueView) -> Seq<(RefKind, Seq<char>)>
    decreases v,
{
    match v {
        ValueView::Array(items) => seq_refs(items),
        ValueView::Dict(entries) => entry_refs(entries),
        ValueView::Call { name, args } => call_ref(name, args) + seq_refs(args),
        ValueView::TypedArray { ty, items } => value_refs(*ty) + seq_refs(items),
        ValueView::TypedDict { key, val, entries } => value_refs(*key) + value_refs(*val)
            + entry_refs(entries),
        ValueView::Object { props, .. } => prop_refs(props),
        _ => seq![],
    }
}

pub open spec fn seq_refs(s: Seq<ValueView>) -> Seq<(RefKind, Seq<char>)>
    decreases s,
{
    if s.len() == 0 {
        seq![]
    } else {
        seq_refs(s.drop_last()) + value_refs(s.last())
    }
}

pub open spec fn entry_refs(s: Seq<(ValueView, ValueView)>) -> Seq<(RefKind, Seq<char>)>
    decreases s,
{
    if s.len() == 0 {
        seq![]
    } else {
        entry_refs(s.drop_last()) + value_refs(s.last().0) + value_refs(s.last().1)
    }
}

pub open spec fn prop_refs(s: Seq<(Seq<char>, ValueView)>) -> Seq<(RefKind, Seq<char>)>
    decreases s,
{
    if s.len() == 0 {
        seq![]
    } else {
        prop_refs(s.drop_last()) + value_refs(s.last().1)
    }
}

/// Every `NodePath("...")` in a value, in order.
pub open spec fn value_paths(v: ValueView) -> Seq<Seq<char>>
    decreases v,
{
    match v {
        ValueView::Array(items) => seq_paths(items),
        ValueView::Dict(entries) => entry_paths(entries),
        ValueView::Call { name, args } => call_path(name, args) + seq_paths(args),
        ValueView::TypedArray { ty, items } => value_paths(*ty) + seq_paths(items),
        ValueView::TypedDict { key, val, entries } => value_paths(*key) + value_paths(*val)
            + entry_paths(entries),
        ValueView::Object { props, .. } => prop_paths(props),
        _ => seq![],
    }
}

pub open spec fn seq_paths(s: Seq<ValueView>) -> Seq<Seq<char>>
    decreases s,
{
    if s.len() == 0 {
        seq![]
    } else {
        seq_paths(s.drop_last()) + value_paths(s.last())
    }
}

pub open spec fn entry_paths(s: Seq<(ValueView, ValueView)>) -> Seq<Seq<char>>
    decreases s,
{
    if s.len() == 0 {
        seq![]
    } else {
        entry_paths(s.drop_last()) + value_paths(s.last().0) + value_paths(s.last().1)
    }
}

pub open spec fn prop_paths(s: Seq<(Seq<char>, ValueView)>) -> Seq<Seq<char>>
    decreases s,
{
    if s.len() == 0 {
        seq![]
    } else {
        prop_paths(s.drop_last()) + value_paths(s.last().1)
    }
}

pub open spec fn ref_views(s: Seq<ValueRef>) -> Seq<(RefKind, Seq<char>)> {
    Seq::new(s.len(), |i: int| (s[i].kind, s[i].id@))
}

pub open spec fn path_views(s: Seq<PathRef>) -> Seq<Seq<char>> {
    Seq::new(s.len(), |i: int| s[i].path@)
}

impl Pointers {
    pub fn new() -> (p: Pointers)
        ensures
            p.refs@.len() == 0,
            p.paths@.len() == 0,
    {
        Pointers { refs: Vec::new(), paths: Vec::new() }
    }

    /// Every span from index `from` on lies inside `[lo, hi]`.
    pub open spec fn spans_within(&self, from: (int, int), lo: int, hi: int) -> bool {
        &&& forall|i: int|
            from.0 <= i < self.refs@.len() ==> lo <= #[trigger] self.refs@[i].span.start
                <= self.refs@[i].span.end <= hi
        &&& forall|i: int|
            from.1 <= i < self.paths@.len() ==> lo <= #[trigger] self.paths@[i].span.start
                <= self.paths@[i].span.end <= hi
    }

    /// What was recorded since `old`: its references and paths followed by `refs` and
    /// `paths`.
    #[verifier::opaque]
    pub open spec fn extends(&self, old: &Pointers, refs: Seq<(RefKind, Seq<char>)>, paths: Seq<Seq<char>>) -> bool {
        &&& ref_views(self.refs@) == ref_views(old.refs@) + refs
        &&& path_views(self.paths@) == path_views(old.paths@) + paths
        &&& self.refs@.len() >= old.refs@.len()
        &&& self.paths@.len() >= old.paths@.len()
        &&& self.refs@.take(old.refs@.len() as int) == old.refs@
        &&& self.paths@.take(old.paths@.len() as int) == old.paths@
    }
}

// ---------------------------------------------------------------------------
// The value grammar, as spec functions. Each takes the position the next token
// is looked for from and the current nesting depth, and gives the value and
// the position just past its last token, or `None` where the parser fails.

/// A whole value at `p`. This is where nesting is counted.
pub open spec fn grammar_value(s: Seq<char>, p: int, d: nat) -> Option<(ValueView, int)>
    decreases s.len() - p, 6nat,
{
    if p < 0 || p > s.len() {
        None
    } else {
        match lex_at(s, p) {
            Err(_) => None,
            Ok(_) => if d >= MAX_DEPTH {
                None
            } else {
                grammar_inner(s, p, d + 1)
            },
        }
    }
}

/// A value at `p`, one level deeper.
pub open spec fn grammar_inner(s: Seq<char>, p: int, d: nat) -> Option<(ValueView, int)>
    decreases s.len() - p, 5nat,
{
    if p < 0 || p > s.len() {
        None
    } else {
        match lex_at(s, p) {
            Err(_) => None,
            Ok((t, a, e)) => {
                proof {
                    lemma_lex_at_bounds(s, p);
                }
                match t {
                    TokView::Num(x) => Some((ValueView::Num(x), e)),
                    TokView::Color(x) => Some((ValueView::Color(x), e)),
                    TokView::Str { value, name } => Some(
                        (
                            if name {
                                ValueView::Name(value)
                            } else {
                                ValueView::Str(value)
                            },
                            e,
                        ),
                    ),
                    TokView::LBracket => grammar_items(s, e, d, seq![]),
                    TokView::LBrace => grammar_entries(s, e, d, seq![]),
                    TokView::Ident(name) => grammar_after_ident(s, e, d, name),
                    _ => None,
                }
            },
        }
    }
}

/// Array items from `p` (just past `[` or a `,`), `acc` read so far.
pub open spec fn grammar_items(s: Seq<char>, p: int, d: nat, acc: Seq<ValueView>) -> Option<
    (ValueView, int),
>
    decreases s.len() - p, 7nat,
{
    if p < 0 || p > s.len() {
        None
    } else {
        match lex_at(s, p) {
            Err(_) => None,
            Ok((t, _, e)) => if t is RBracket {
                Some((ValueView::Array(acc), e))
            } else {
                match grammar_value(s, p, d) {
                    None => None,
                    Some((v, q)) => if q <= p || q > s.len() {
                        None
                    } else {
                        match lex_at(s, q) {
                            Err(_) => None,
                            Ok((t2, _, e2)) => {
                                proof {
            lemma_lex_at_bounds(s, q);
                                }
                                if t2 is Comma {
                                    grammar_items(s, e2, d, acc.push(v))
                                } else if t2 is RBracket {
                                    Some((ValueView::Array(acc.push(v)), e2))
                                } else {
                                    None
                                }
                            },
                        }
                    },
                }
            },
        }
    }
}

/// Dictionary entries from `p` (just past `{` or a `,`).
pub open spec fn grammar_entries(
    s: Seq<char>,
    p: int,
    d: nat,
    acc: Seq<(ValueView, ValueView)>,
) -> Option<(ValueView, int)>
    decreases s.len() - p, 7nat,
{
    if p < 0 || p > s.len() {
        None
    } else {
        match lex_at(s, p) {
            Err(_) => None,
            Ok((t, _, e)) => if t is RBrace {
                Some((ValueView::Dict(acc), e))
            } else {
                match grammar_value(s, p, d) {
                    None => None,
                    Some((k, q1)) => if q1 <= p || q1 > s.len() {
                        None
                    } else {
                        match lex_at(s, q1) {
                            Ok((TokView::Colon, _, e1)) => {
                                proof {
            lemma_lex_at_bounds(s, q1);
                                }
                                match grammar_value(s, e1, d) {
                                    None => None,
                                    Some((v, q2)) => if q2 <= p || q2 > s.len() {
                                        None
                                    } else {
                                        match lex_at(s, q2) {
                                            Err(_) => None,
                                            Ok((t3, _, e3)) => {
                                                proof {
            lemma_lex_at_bounds(s, q2);
                                                }
                                                if t3 is Comma {
                                                    grammar_entries(s, e3, d, acc.push((k, v)))
                                                } else if t3 is RBrace {
                                                    Some((ValueView::Dict(acc.push((k, v))), e3))
                                                } else {
                                                    None
                                                }
                                            },
                                        }
                                    },
                                }
                            },
                            _ => None,
                        }
                    },
                }
            },
        }
    }
}

/// What follows an identifier `name` that ended at `p`.
pub open spec fn grammar_after_ident(s: Seq<char>, p: int, d: nat, name: Seq<char>) -> Option<
    (ValueView, int),
>
    decreases s.len() - p, 4nat,
{
    if p < 0 || p > s.len() {
        None
    } else {
        match lex_at(s, p) {
            Err(_) => None,
            Ok((t, _, _)) => if t is LParen {
                grammar_call(s, p, d, name)
            } else if t is LBracket && name == "Array"@ {
                grammar_typed_array(s, p, d)
            } else if t is LBracket && name == "Dictionary"@ {
                grammar_typed_dict(s, p, d)
            } else {
                Some((ValueView::Ident(name), p))
            },
        }
    }
}

/// `name(...)` with the `(` at `p`; `Object(...)` has a grammar of its own.
pub open spec fn grammar_call(s: Seq<char>, p: int, d: nat, name: Seq<char>) -> Option<
    (ValueView, int),
>
    decreases s.len() - p, 3nat,
{
    if p < 0 || p > s.len() {
        None
    } else if name == "Object"@ {
        grammar_object(s, p, d)
    } else {
        match lex_at(s, p) {
            Ok((TokView::LParen, _, e)) => {
                proof {
                    lemma_lex_at_bounds(s, p);
                    lemma_lex_at_bounds(s, e);
                }
                match lex_at(s, e) {
                    Err(_) => None,
                    Ok((t2, _, e2)) => if t2 is RParen {
                        Some((ValueView::Call { name, args: seq![] }, e2))
                    } else {
                        match grammar_value(s, e, d) {
                            None => None,
                            Some((v, q)) => if q <= p || q > s.len() {
                                None
                            } else {
                                grammar_args(s, q, d, name, seq![v])
                            },
                        }
                    },
                }
            },
            _ => None,
        }
    }
}

/// The rest of a call's arguments from `p`, just past an argument.
pub open spec fn grammar_args(
    s: Seq<char>,
    p: int,
    d: nat,
    name: Seq<char>,
    acc: Seq<ValueView>,
) -> Option<(ValueView, int)>
    decreases s.len() - p, 1nat,
{
    if p < 0 || p > s.len() {
        None
    } else {
        match lex_at(s, p) {
            Err(_) => None,
            Ok((t, _, e)) => {
                proof {
                    lemma_lex_at_bounds(s, p);
                }
                if t is Comma {
                    match grammar_value(s, e, d) {
                        None => None,
                        Some((v, q)) => if q <= p || q > s.len() {
                            None
                        } else {
                            grammar_args(s, q, d, name, acc.push(v))
                        },
                    }
                } else if t is RParen {
                    Some((ValueView::Call { name, args: acc }, e))
                } else {
                    None
                }
            },
        }
    }
}

/// `Object(Type, "k": v, ...)` with the `(` at `p`.
pub open spec fn grammar_object(s: Seq<char>, p: int, d: nat) -> Option<(ValueView, int)>
    decreases s.len() - p, 2nat,
{
    if p < 0 || p > s.len() {
        None
    } else {
        match lex_at(s, p) {
            Ok((TokView::LParen, _, e1)) => {
                proof {
                    lemma_lex_at_bounds(s, p);
                    lemma_lex_at_bounds(s, e1);
                }
                match lex_at(s, e1) {
                    Ok((TokView::Ident(ty), _, e2)) => grammar_props(s, e2, d, ty, seq![]),
                    _ => None,
                }
            },
            _ => None,
        }
    }
}

/// An object's properties from `p`, just past its type or a property.
pub open spec fn grammar_props(
    s: Seq<char>,
    p: int,
    d: nat,
    ty: Seq<char>,
    acc: Seq<(Seq<char>, ValueView)>,
) -> Option<(ValueView, int)>
    decreases s.len() - p, 1nat,
{
    if p < 0 || p > s.len() {
        None
    } else {
        match lex_at(s, p) {
            Err(_) => None,
            Ok((t, _, e)) => {
                proof {
                    lemma_lex_at_bounds(s, p);
                }
                if t is RParen {
                    Some((ValueView::Object { ty, props: acc }, e))
                } else if t is Comma {
                    proof {
                        lemma_lex_at_bounds(s, e);
                    }
                    match lex_at(s, e) {
                        Err(_) => None,
                        Ok((t2, _, e2)) => if t2 is RParen {
                            Some((ValueView::Object { ty, props: acc }, e2))
                        } else if t2 is Str {
                            proof {
                                lemma_lex_at_bounds(s, e2);
                            }
                            match lex_at(s, e2) {
                                Ok((TokView::Colon, _, e3)) => {
                                    match grammar_value(s, e3, d) {
                                        None => None,
                                        Some((v, q)) => if q <= p || q > s.len() {
                                            None
                                        } else {
                                            grammar_props(
                                                s,
                                                q,
                                                d,
                                                ty,
                                                acc.push((t2->value, v)),
                                            )
                                        },
                                    }
                                },
                                _ => None,
                            }
                        } else {
                            None
                        },
                    }
                } else {
                    None
                }
            },
        }
    }
}

/// The `T` of `Array[T]` / `Dictionary[K, V]`: an identifier, or a call such
/// as `ExtResource("1_a")`.
pub open spec fn grammar_type_slot(s: Seq<char>, p: int, d: nat) -> Option<(ValueView, int)>
    decreases s.len() - p, 1nat,
{
    if p < 0 || p > s.len() {
        None
    } else {
        match lex_at(s, p) {
            Ok((TokView::Ident(name), _, e)) => {
                proof {
                    lemma_lex_at_bounds(s, p);
                }
                match lex_at(s, e) {
                    Err(_) => None,
                    Ok((t2, _, _)) => if t2 is LParen {
                        grammar_call(s, e, d, name)
                    } else {
                        Some((ValueView::Ident(name), e))
                    },
                }
            },
            _ => None,
        }
    }
}

/// `Array[T]([...])` with the first `[` at `p`.
pub open spec fn grammar_typed_array(s: Seq<char>, p: int, d: nat) -> Option<(ValueView, int)>
    decreases s.len() - p, 3nat,
{
    if p < 0 || p > s.len() {
        None
    } else {
        match lex_at(s, p) {
            Ok((TokView::LBracket, _, e1)) => {
                proof {
                    lemma_lex_at_bounds(s, p);
                }
                match grammar_type_slot(s, e1, d) {
                    None => None,
                    Some((ty, q1)) => if q1 <= p || q1 > s.len() {
                        None
                    } else {
                        proof {
                            lemma_expect3(s, q1, TokView::RBracket, TokView::LParen, TokView::LBracket);
                        }
                        match expect3(s, q1, TokView::RBracket, TokView::LParen, TokView::LBracket) {
                            None => None,
                            Some(e4) => match grammar_items(s, e4, d, seq![]) {
                                Some((ValueView::Array(items), q5)) => if q5 <= p || q5 > s.len() {
                                    None
                                } else {
                                    match lex_at(s, q5) {
                                        Ok((TokView::RParen, _, e6)) => Some(
                                            (ValueView::TypedArray { ty: Box::new(ty), items }, e6),
                                        ),
                                        _ => None,
                                    }
                                },
                                _ => None,
                            },
                        }
                    },
                }
            },
            _ => None,
        }
    }
}

/// `Dictionary[K, V]({...})` with the first `[` at `p`.
pub open spec fn grammar_typed_dict(s: Seq<char>, p: int, d: nat) -> Option<(ValueView, int)>
    decreases s.len() - p, 3nat,
{
    if p < 0 || p > s.len() {
        None
    } else {
        match lex_at(s, p) {
            Ok((TokView::LBracket, _, e1)) => {
                proof {
                    lemma_lex_at_bounds(s, p);
                }
                match grammar_type_slot(s, e1, d) {
                    None => None,
                    Some((key, q1)) => if q1 <= p || q1 > s.len() {
                        None
                    } else {
                        match lex_at(s, q1) {
                            Ok((TokView::Comma, _, e2)) => {
                                proof {
            lemma_lex_at_bounds(s, q1);
                                }
                                match grammar_type_slot(s, e2, d) {
                                    None => None,
                                    Some((val, q3)) => if q3 <= p || q3 > s.len() {
                                        None
                                    } else {
                                        proof {
                                            lemma_expect3(
                                                s,
                                                q3,
                                                TokView::RBracket,
                                                TokView::LParen,
                                                TokView::LBrace,
                                            );
                                        }
                                        match expect3(
                                            s,
                                            q3,
                                            TokView::RBracket,
                                            TokView::LParen,
                                            TokView::LBrace,
                                        ) {
                                            None => None,
                                            Some(e6) => match grammar_entries(s, e6, d, seq![]) {
                                                Some((ValueView::Dict(entries), q7)) => if q7 <= p
                                                    || q7 > s.len() {
                                                    None
                                                } else {
                                                    match lex_at(s, q7) {
                                                        Ok((TokView::RParen, _, e8)) => Some(
                                                            (
                                                                ValueView::TypedDict {
                                                                    key: Box::new(key),
                                                                    val: Box::new(val),
                                                                    entries,
                                                                },
                                                                e8,
                                                            ),
                                                        ),
                                                        _ => None,
                                                    }
                                                },
                                                _ => None,
                                            },
                                        }
                                    },
                                }
                            },
                            _ => None,
                        }
                    },
                }
            },
            _ => None,
        }
    }
}

/// Three tokens of the given variants in a row from `p`; the position after.
pub open spec fn expect3(s: Seq<char>, p: int, a: TokView, b: TokView, c: TokView) -> Option<int> {
    match lex_at(s, p) {
        Ok((t1, _, e1)) => if crate::lex::same_variant(t1, a) {
            match lex_at(s, e1) {
                Ok((t2, _, e2)) => if crate::lex::same_variant(t2, b) {
                    match lex_at(s, e2) {
                        Ok((t3, _, e3)) => if crate::lex::same_variant(t3, c) {
                            Some(e3)
                        } else {
                            None
                        },
                        Err(_) => None,
                    }
                } else {
                    None
                },
                Err(_) => None,
            }
        } else {
            None
        },
        Err(_) => None,
    }
}


// ---------------------------------------------------------------------------
// The parser.

/// What a parse of a value owes: where the grammar accepts, that value, the
/// cursor just past it, and every reference and path in it recorded in order
/// with spans between `lo` and the end; where it does not, an error.
pub open spec fn outcome(
    spec: Option<(ValueView, int)>,
    r: Result<Value, ParseError>,
    cur: Cursor,
    ptrs: Pointers,
    old_ptrs: Pointers,
    lo: int,
) -> bool {
    match spec {
        Some((v, q)) => {
            &&& r matches Ok(x) && x@ == v
            &&& cur.at() == q
            &&& cur.last() == q
            &&& ptrs.extends(&old_ptrs, value_refs(v), value_paths(v))
            &&& ptrs.spans_within((old_ptrs.refs@.len() as int, old_ptrs.paths@.len() as int), lo, q)
        },
        None => r is Err,
    }
}

proof fn lemma_spans_grow(a: Pointers, b: Pointers, from: (int, int), lo: int, lo2: int, mid: int, hi: int, r: Seq<(RefKind, Seq<char>)>, p: Seq<Seq<char>>)
    requires
        0 <= from.0 <= a.refs@.len(),
        0 <= from.1 <= a.paths@.len(),
        a.spans_within(from, lo, mid),
        b.spans_within((a.refs@.len() as int, a.paths@.len() as int), lo2, hi),
        lo <= lo2,
        mid <= hi,
        b.extends(&a, r, p),
    ensures
        b.spans_within(from, lo, hi),
        from.0 <= b.refs@.len(),
        from.1 <= b.paths@.len(),
{
    lemma_extends_len(a, b, r, p);
    reveal(Pointers::extends);
    assert forall|i: int| from.0 <= i < b.refs@.len() implies lo <= #[trigger] b.refs@[i].span.start
        <= b.refs@[i].span.end <= hi by {
        if i < a.refs@.len() {
            assert(b.refs@[i] == b.refs@.take(a.refs@.len() as int)[i]);
        }
    }
    assert forall|i: int| from.1 <= i < b.paths@.len() implies lo <= #[trigger] b.paths@[i].span.start
        <= b.paths@[i].span.end <= hi by {
        if i < a.paths@.len() {
            assert(b.paths@[i] == b.paths@.take(a.paths@.len() as int)[i]);
        }
    }
}

proof fn lemma_extends_len(a: Pointers, b: Pointers, r: Seq<(RefKind, Seq<char>)>, p: Seq<Seq<char>>)
    requires
        b.extends(&a, r, p),
    ensures
        b.refs@.len() >= a.refs@.len(),
        b.paths@.len() >= a.paths@.len(),
        b.refs@.take(a.refs@.len() as int) == a.refs@,
        b.paths@.take(a.paths@.len() as int) == a.paths@,
{
    reveal(Pointers::extends);
}

proof fn lemma_extends_trans(a: Pointers, b: Pointers, c: Pointers, r1: Seq<(RefKind, Seq<char>)>, p1: Seq<Seq<char>>, r2: Seq<(RefKind, Seq<char>)>, p2: Seq<Seq<char>>)
    requires
        b.extends(&a, r1, p1),
        c.extends(&b, r2, p2),
    ensures
        c.extends(&a, r1 + r2, p1 + p2),
{
    reveal(Pointers::extends);
    assert(c.refs@.take(a.refs@.len() as int) =~= c.refs@.take(b.refs@.len() as int).take(a.refs@.len() as int));
    assert(c.paths@.take(a.paths@.len() as int) =~= c.paths@.take(b.paths@.len() as int).take(a.paths@.len() as int));
    assert(ref_views(a.refs@) + r1 + r2 =~= ref_views(a.refs@) + (r1 + r2));
    assert(path_views(a.paths@) + p1 + p2 =~= path_views(a.paths@) + (p1 + p2));
}

proof fn lemma_seq_refs_push(s: Seq<ValueView>, v: ValueView)
    ensures
        seq_refs(s.push(v)) == seq_refs(s) + value_refs(v),
        seq_paths(s.push(v)) == seq_paths(s) + value_paths(v),
{
    assert(s.push(v).drop_last() =~= s);
}

proof fn lemma_entry_refs_push(s: Seq<(ValueView, ValueView)>, k: ValueView, v: ValueView)
    ensures
        entry_refs(s.push((k, v))) == entry_refs(s) + value_refs(k) + value_refs(v),
        entry_paths(s.push((k, v))) == entry_paths(s) + value_paths(k) + value_paths(v),
{
    assert(s.push((k, v)).drop_last() =~= s);
}

proof fn lemma_prop_refs_push(s: Seq<(Seq<char>, ValueView)>, k: Seq<char>, v: ValueView)
    ensures
        prop_refs(s.push((k, v))) == prop_refs(s) + value_refs(v),
        prop_paths(s.push((k, v))) == prop_paths(s) + value_paths(v),
{
    assert(s.push((k, v)).drop_last() =~= s);
}

proof fn lemma_extends_refl(a: Pointers)
    ensures
        a.extends(&a, seq![], seq![]),
{
    reveal(Pointers::extends);
    assert(a.refs@.take(a.refs@.len() as int) =~= a.refs@);
    assert(a.paths@.take(a.paths@.len() as int) =~= a.paths@);
    assert(ref_views(a.refs@) + seq![] =~= ref_views(a.refs@));
    assert(path_views(a.paths@) + seq![] =~= path_views(a.paths@));
}

/// Parses one variant literal. `ptrs` collects every resource reference and
/// node path in it, with spans into the cursor's text.
pub fn parse_value(cur: &mut Cursor, ptrs: &mut Pointers) -> (r: Result<Value, ParseError>)
    requires
        old(cur).wf(),
    ensures
        final(cur).wf(),
        final(cur).text() == old(cur).text(),
        r is Ok ==> final(cur).depth() == old(cur).depth(),
        r is Ok ==> final(cur).at() == final(cur).last(),
        r is Ok ==> final(cur).last() > old(cur).at(),
        outcome(
            grammar_value(old(cur).text(), old(cur).at(), old(cur).depth()),
            r,
            *final(cur),
            *final(ptrs),
            *old(ptrs),
            old(cur).at(),
        ),
    decreases old(cur).text().len() - old(cur).at(), 6nat,
{
    let ghost p = cur.at();
    proof {
        cur.lemma_wf();
    }
    let tok = cur.next()?;
    proof {
        lemma_lex_at_bounds(cur.text(), p);
    }
    parse_value_from(cur, tok, ptrs, Ghost(p))
}

/// Parses the value whose first token, `tok`, was read from position `p`.
pub fn parse_value_from(cur: &mut Cursor, tok: Token, ptrs: &mut Pointers, Ghost(p): Ghost<int>) -> (r: Result<Value, ParseError>)
    requires
        old(cur).wf(),
        0 <= p <= old(cur).text().len(),
        crate::lex::token_matches(old(cur).text(), p, Ok(tok)),
        old(cur).at() == tok.span.end,
        old(cur).last() == tok.span.end,
    ensures
        final(cur).wf(),
        final(cur).text() == old(cur).text(),
        r is Ok ==> final(cur).depth() == old(cur).depth(),
        r is Ok ==> final(cur).at() == final(cur).last(),
        r is Ok ==> final(cur).last() > p,
        outcome(
            grammar_value(old(cur).text(), p, old(cur).depth()),
            r,
            *final(cur),
            *final(ptrs),
            *old(ptrs),
            p,
        ),
    decreases old(cur).text().len() - p, 5nat,
{
    proof {
        cur.lemma_wf();
        lemma_lex_at_bounds(cur.text(), p);
    }
    cur.enter()?;
    let r = parse_value_inner(cur, tok, ptrs, Ghost(p));
    match r {
        Ok(v) => {
            cur.leave();
            Ok(v)
        },
        Err(e) => Err(e),
    }
}

fn parse_value_inner(cur: &mut Cursor, tok: Token, ptrs: &mut Pointers, Ghost(p): Ghost<int>) -> (r: Result<Value, ParseError>)
    requires
        old(cur).wf(),
        0 <= p <= old(cur).text().len(),
        crate::lex::token_matches(old(cur).text(), p, Ok(tok)),
        old(cur).at() == tok.span.end,
        old(cur).last() == tok.span.end,
    ensures
        final(cur).wf(),
        final(cur).text() == old(cur).text(),
        r is Ok ==> final(cur).depth() == old(cur).depth(),
        r is Ok ==> final(cur).at() == final(cur).last(),
        r is Ok ==> final(cur).last() > p,
        outcome(
            grammar_inner(old(cur).text(), p, old(cur).depth()),
            r,
            *final(cur),
            *final(ptrs),
            *old(ptrs),
            p,
        ),
    decreases old(cur).text().len() - p, 4nat,
{
    let ghost s = cur.text();
    proof {
        lemma_lex_at_bounds(s, p);
        lemma_extends_refl(*ptrs);
    }
    match tok.tok {
        Tok::Num(n) => Ok(Value::Num(n)),
        Tok::Color(c) => Ok(Value::Color(c)),
        Tok::Str { value, name } => Ok(
            if name {
                Value::Name(value)
            } else {
                Value::Str(value)
            },
        ),
        Tok::LBracket => {
            let items = parse_array_body(cur, ptrs)?;
            Ok(Value::Array(items))
        },
        Tok::LBrace => {
            let entries = parse_dict_body(cur, ptrs)?;
            Ok(Value::Dict(entries))
        },
        Tok::Ident(name) => parse_after_ident(cur, name, ptrs),
        other => Err(
            cur.error(
                tok.span.start,
                crate::error::ParseErrorKind::Expected("a value", other.describe().to_owned()),
            ),
        ),
    }
}

/// Array items, with the cursor just past the `[`.
fn parse_array_body(cur: &mut Cursor, ptrs: &mut Pointers) -> (r: Result<Vec<Value>, ParseError>)
    requires
        old(cur).wf(),
        old(cur).at() == old(cur).last(),
    ensures
        final(cur).wf(),
        final(cur).text() == old(cur).text(),
        r is Ok ==> final(cur).depth() == old(cur).depth(),
        r is Ok ==> final(cur).at() == final(cur).last(),
        r is Ok ==> final(cur).last() > old(cur).at(),
        outcome(
            grammar_items(old(cur).text(), old(cur).at(), old(cur).depth(), seq![]),
            match r {
                Ok(items) => Ok(Value::Array(items)),
                Err(e) => Err(e),
            },
            *final(cur),
            *final(ptrs),
            *old(ptrs),
            old(cur).at(),
        ),
    decreases old(cur).text().len() - old(cur).at(), 8nat,
{
    let ghost s = cur.text();
    let ghost d = cur.depth();
    let ghost lo = cur.at();
    let ghost from = (ptrs.refs@.len() as int, ptrs.paths@.len() as int);
    let ghost goal = grammar_items(s, cur.at(), d, seq![]);
    let mut items: Vec<Value> = Vec::new();
    proof {
        lemma_extends_refl(*ptrs);
        cur.lemma_wf();
    }
    loop
        invariant
            cur.wf(),
            cur.text() == s,
            cur.depth() == d,
            s == old(cur).text(),
            d == old(cur).depth(),
            lo == old(cur).at(),
            from == (old(ptrs).refs@.len() as int, old(ptrs).paths@.len() as int),
            from.0 <= ptrs.refs@.len(),
            from.1 <= ptrs.paths@.len(),
            goal == grammar_items(old(cur).text(), old(cur).at(), old(cur).depth(), seq![]),
            goal == grammar_items(s, cur.at(), d, views(items@)),
            cur.at() == cur.last(),
            lo <= cur.at() <= s.len(),
            items@.len() > 0 ==> lo < cur.at(),
            ptrs.extends(old(ptrs), seq_refs(views(items@)), seq_paths(views(items@))),
            ptrs.spans_within(from, lo, cur.last()),
        decreases s.len() - cur.at(),
    {
        let ghost at = cur.at();
        proof {
            cur.lemma_wf();
        }
        let t = cur.peek()?;
        if let Tok::RBracket = t.tok {
            cur.next()?;
            proof {
                lemma_lex_at_bounds(s, at);
            }
            return Ok(items);
        }
        let ghost before = *ptrs;
        let item = parse_value(cur, ptrs)?;
        let ghost q = cur.at();
        proof {
            lemma_spans_grow(before, *ptrs, from, lo, at, at, q, value_refs(item@), value_paths(item@));
            lemma_seq_refs_push(views(items@), item@);
            lemma_views_push(items@, item);
            lemma_extends_trans(*old(ptrs), before, *ptrs, seq_refs(views(items@)), seq_paths(views(items@)), value_refs(item@), value_paths(item@));
            cur.lemma_wf();
            lemma_lex_at_bounds(s, q);
        }
        items.push(item);
        let tok = cur.next()?;
        match tok.tok {
            Tok::Comma => {},
            Tok::RBracket => return Ok(items),
            other => {
                return Err(
                    cur.error(
                        tok.span.start,
                        crate::error::ParseErrorKind::Expected("',' or ']'", other.describe().to_owned()),
                    ),
                );
            },
        }
    }
}


/// Dictionary entries, with the cursor just past the `{`.
fn parse_dict_body(cur: &mut Cursor, ptrs: &mut Pointers) -> (r: Result<Vec<(Value, Value)>, ParseError>)
    requires
        old(cur).wf(),
        old(cur).at() == old(cur).last(),
    ensures
        final(cur).wf(),
        final(cur).text() == old(cur).text(),
        r is Ok ==> final(cur).depth() == old(cur).depth(),
        r is Ok ==> final(cur).at() == final(cur).last(),
        r is Ok ==> final(cur).last() > old(cur).at(),
        outcome(
            grammar_entries(old(cur).text(), old(cur).at(), old(cur).depth(), seq![]),
            match r {
                Ok(entries) => Ok(Value::Dict(entries)),
                Err(e) => Err(e),
            },
            *final(cur),
            *final(ptrs),
            *old(ptrs),
            old(cur).at(),
        ),
    decreases old(cur).text().len() - old(cur).at(), 8nat,
{
    let ghost s = cur.text();
    let ghost d = cur.depth();
    let ghost lo = cur.at();
    let ghost from = (ptrs.refs@.len() as int, ptrs.paths@.len() as int);
    let ghost goal = grammar_entries(s, cur.at(), d, seq![]);
    let mut entries: Vec<(Value, Value)> = Vec::new();
    proof {
        lemma_extends_refl(*ptrs);
        cur.lemma_wf();
    }
    loop
        invariant
            cur.wf(),
            cur.text() == s,
            cur.depth() == d,
            s == old(cur).text(),
            d == old(cur).depth(),
            lo == old(cur).at(),
            from == (old(ptrs).refs@.len() as int, old(ptrs).paths@.len() as int),
            from.0 <= ptrs.refs@.len(),
            from.1 <= ptrs.paths@.len(),
            goal == grammar_entries(old(cur).text(), old(cur).at(), old(cur).depth(), seq![]),
            goal == grammar_entries(s, cur.at(), d, entry_views(entries@)),
            cur.at() == cur.last(),
            lo <= cur.at() <= s.len(),
            entries@.len() > 0 ==> lo < cur.at(),
            ptrs.extends(old(ptrs), entry_refs(entry_views(entries@)), entry_paths(entry_views(entries@))),
            ptrs.spans_within(from, lo, cur.last()),
        decreases s.len() - cur.at(),
    {
        let ghost at = cur.at();
        proof {
            cur.lemma_wf();
        }
        let t = cur.peek()?;
        if let Tok::RBrace = t.tok {
            cur.next()?;
            proof {
                lemma_lex_at_bounds(s, at);
            }
            return Ok(entries);
        }
        let ghost before = *ptrs;
        let key = parse_value(cur, ptrs)?;
        let ghost mid = *ptrs;
        let ghost q1 = cur.at();
        proof {
            lemma_spans_grow(before, mid, from, lo, at, at, q1, value_refs(key@), value_paths(key@));
            cur.lemma_wf();
            lemma_lex_at_bounds(s, q1);
        }
        cur.expect(&Tok::Colon, "':'")?;
        let ghost e1 = cur.at();
        let val = parse_value(cur, ptrs)?;
        let ghost q2 = cur.at();
        proof {
            lemma_spans_grow(mid, *ptrs, from, lo, e1, q1, q2, value_refs(val@), value_paths(val@));
            lemma_entry_refs_push(entry_views(entries@), key@, val@);
            lemma_entry_views_push(entries@, (key, val));
            lemma_extends_trans(*old(ptrs), before, mid, entry_refs(entry_views(entries@)), entry_paths(entry_views(entries@)), value_refs(key@), value_paths(key@));
            lemma_extends_trans(*old(ptrs), mid, *ptrs, entry_refs(entry_views(entries@)) + value_refs(key@), entry_paths(entry_views(entries@)) + value_paths(key@), value_refs(val@), value_paths(val@));
            cur.lemma_wf();
            lemma_lex_at_bounds(s, q2);
        }
        entries.push((key, val));
        let tok = cur.next()?;
        match tok.tok {
            Tok::Comma => {},
            Tok::RBrace => return Ok(entries),
            other => {
                return Err(
                    cur.error(
                        tok.span.start,
                        crate::error::ParseErrorKind::Expected("',' or '}'", other.describe().to_owned()),
                    ),
                );
            },
        }
    }
}

/// What follows the identifier `name`, with the cursor just past it.
fn parse_after_ident(cur: &mut Cursor, name: String, ptrs: &mut Pointers) -> (r: Result<Value, ParseError>)
    requires
        old(cur).wf(),
        old(cur).at() == old(cur).last(),
    ensures
        final(cur).wf(),
        final(cur).text() == old(cur).text(),
        r is Ok ==> final(cur).depth() == old(cur).depth(),
        r is Ok ==> final(cur).at() == final(cur).last(),
        r is Ok ==> final(cur).last() >= old(cur).at(),
        outcome(
            grammar_after_ident(old(cur).text(), old(cur).at(), old(cur).depth(), name@),
            r,
            *final(cur),
            *final(ptrs),
            *old(ptrs),
            old(cur).at(),
        ),
    decreases old(cur).text().len() - old(cur).at(), 3nat,
{
    let ghost p = cur.at();
    proof {
        lemma_extends_refl(*ptrs);
        cur.lemma_wf();
        lemma_lex_at_bounds(cur.text(), p);
    }
    let t = cur.peek()?;
    match t.tok {
        Tok::LParen => parse_call(cur, name, ptrs),
        Tok::LBracket => {
            if str_eq(name.as_str(), "Array") {
                parse_typed_array(cur, ptrs)
            } else if str_eq(name.as_str(), "Dictionary") {
                parse_typed_dict(cur, ptrs)
            } else {
                Ok(Value::Ident(name))
            }
        },
        _ => Ok(Value::Ident(name)),
    }
}

/// `name(...)`, with the `(` next.
fn parse_call(cur: &mut Cursor, name: String, ptrs: &mut Pointers) -> (r: Result<Value, ParseError>)
    requires
        old(cur).wf(),
        old(cur).at() == old(cur).last(),
    ensures
        final(cur).wf(),
        final(cur).text() == old(cur).text(),
        r is Ok ==> final(cur).depth() == old(cur).depth(),
        r is Ok ==> final(cur).at() == final(cur).last(),
        r is Ok ==> final(cur).last() > old(cur).at(),
        outcome(
            grammar_call(old(cur).text(), old(cur).at(), old(cur).depth(), name@),
            r,
            *final(cur),
            *final(ptrs),
            *old(ptrs),
            old(cur).at(),
        ),
    decreases old(cur).text().len() - old(cur).at(), 2nat,
{
    let ghost s = cur.text();
    let ghost d = cur.depth();
    let ghost p = cur.at();
    let ghost from = (ptrs.refs@.len() as int, ptrs.paths@.len() as int);
    proof {
        lemma_extends_refl(*ptrs);
        cur.lemma_wf();
        lemma_lex_at_bounds(s, p);
    }
    if str_eq(name.as_str(), "Object") {
        return parse_object(cur, ptrs);
    }
    let lp = cur.next()?;
    if let Tok::LParen = lp.tok {
    } else {
        return Err(cur.error(lp.span.start, crate::error::ParseErrorKind::Expected("'('", lp.tok.describe().to_owned())));
    }
    let ghost e = cur.at();
    proof {
        lemma_lex_at_bounds(s, e);
    }
    let t = cur.peek()?;
    if let Tok::RParen = t.tok {
        cur.next()?;
        let args: Vec<Value> = Vec::new();
        proof {
            assert(views(args@) =~= Seq::<ValueView>::empty());
            assert(call_ref(name@, views(args@)) + seq_refs(views(args@)) =~= Seq::<(RefKind, Seq<char>)>::empty());
            assert(call_path(name@, views(args@)) + seq_paths(views(args@)) =~= Seq::<Seq<char>>::empty());
        }
        return Ok(Value::Call { name, args });
    }
    let ghost p1 = cur.at();
    let first = cur.next()?;
    proof {
        lemma_lex_at_bounds(s, p1);
    }
    let ghost before = *ptrs;
    let span = first.span.start..first.span.end;
    let v = parse_value_from(cur, first, ptrs, Ghost(p1))?;
    let ghost parsed = *ptrs;
    proof {
        cur.lemma_wf();
        lemma_extends_len(before, parsed, value_refs(v@), value_paths(v@));
        lemma_value_str(s, p1, d);
    }
    // A string argument holds no references of its own, so recording the
    // call's own reference after parsing it keeps them in source order.
    if let Value::Str(id) = &v {
        if let Some(kind) = ref_kind(name.as_str()) {
            ptrs.refs.push(ValueRef { kind, id: id.clone(), span: span.start..span.end });
        }
        if str_eq(name.as_str(), "NodePath") {
            ptrs.paths.push(PathRef { path: id.clone(), span: span.start..span.end });
        }
    }
    proof {
        reveal(Pointers::extends);
        let cr = call_ref(name@, seq![v@]);
        let cp = call_path(name@, seq![v@]);
        assert(value_refs(v@) == Seq::<(RefKind, Seq<char>)>::empty() ==> true);
        if v@ is Str {
            assert(value_refs(v@) =~= Seq::<(RefKind, Seq<char>)>::empty());
            assert(value_paths(v@) =~= Seq::<Seq<char>>::empty());
        } else {
            assert(cr =~= Seq::<(RefKind, Seq<char>)>::empty());
            assert(cp =~= Seq::<Seq<char>>::empty());
        }
        assert(ref_views(ptrs.refs@) =~= ref_views(before.refs@) + (cr + value_refs(v@)));
        assert(path_views(ptrs.paths@) =~= path_views(before.paths@) + (cp + value_paths(v@)));
        assert(ptrs.refs@.take(before.refs@.len() as int) =~= before.refs@) by {
            assert(parsed.refs@.take(before.refs@.len() as int) == before.refs@);
        }
        assert(ptrs.paths@.take(before.paths@.len() as int) =~= before.paths@) by {
            assert(parsed.paths@.take(before.paths@.len() as int) == before.paths@);
        }
        assert(ptrs.extends(&before, cr + value_refs(v@), cp + value_paths(v@)));
        assert forall|i: int| from.0 <= i < ptrs.refs@.len() implies p <= #[trigger] ptrs.refs@[i].span.start
            <= ptrs.refs@[i].span.end <= cur.last() by {
            if i < parsed.refs@.len() {
                assert(ptrs.refs@[i] == parsed.refs@[i]);
            }
        }
        assert forall|i: int| from.1 <= i < ptrs.paths@.len() implies p <= #[trigger] ptrs.paths@[i].span.start
            <= ptrs.paths@[i].span.end <= cur.last() by {
            if i < parsed.paths@.len() {
                assert(ptrs.paths@[i] == parsed.paths@[i]);
            }
        }
    }
    let mut args: Vec<Value> = Vec::new();
    args.push(v);
    assert(views(args@) == seq![v@]) by {
        lemma_views_push(Seq::<Value>::empty(), v);
        assert(Seq::<Value>::empty().push(v) =~= args@);
    }
    proof {
        let cr = call_ref(name@, seq![v@]);
        let cp = call_path(name@, seq![v@]);
        lemma_seq_refs_push(Seq::<ValueView>::empty(), v@);
        assert(seq![v@] =~= Seq::<ValueView>::empty().push(v@));
        assert(seq_refs(Seq::<ValueView>::empty()) =~= Seq::<(RefKind, Seq<char>)>::empty());
        assert(seq_paths(Seq::<ValueView>::empty()) =~= Seq::<Seq<char>>::empty());
        assert(cr + value_refs(v@) =~= call_ref(name@, views(args@)) + seq_refs(views(args@)));
        assert(cp + value_paths(v@) =~= call_path(name@, views(args@)) + seq_paths(views(args@)));
    }
    let ghost head = views(args@)[0];
    loop
        invariant
            cur.wf(),
            cur.text() == s,
            cur.depth() == d,
            s == old(cur).text(),
            d == old(cur).depth(),
            p == old(cur).at(),
            from == (old(ptrs).refs@.len() as int, old(ptrs).paths@.len() as int),
            from.0 <= ptrs.refs@.len(),
            from.1 <= ptrs.paths@.len(),
            grammar_call(s, p, d, name@) == grammar_args(s, cur.at(), d, name@, views(args@)),
            cur.at() == cur.last(),
            p < cur.at() <= s.len(),
            args@.len() > 0,
            views(args@)[0] == head,
            ptrs.extends(old(ptrs), call_ref(name@, views(args@)) + seq_refs(views(args@)), call_path(name@, views(args@)) + seq_paths(views(args@))),
            ptrs.spans_within(from, p, cur.last()),
        decreases s.len() - cur.at(),
    {
        let ghost at = cur.at();
        proof {
            cur.lemma_wf();
            lemma_lex_at_bounds(s, at);
        }
        let tok = cur.next()?;
        match tok.tok {
            Tok::Comma => {
                let ghost before2 = *ptrs;
                let ghost e = cur.at();
                let a = parse_value(cur, ptrs)?;
                proof {
                    lemma_spans_grow(before2, *ptrs, from, p, e, at, cur.at(), value_refs(a@), value_paths(a@));
                    cur.lemma_wf();
                    lemma_seq_refs_push(views(args@), a@);
                    lemma_views_push(args@, a);
                    lemma_extends_trans(*old(ptrs), before2, *ptrs, call_ref(name@, views(args@)) + seq_refs(views(args@)), call_path(name@, views(args@)) + seq_paths(views(args@)), value_refs(a@), value_paths(a@));
                    assert(call_ref(name@, views(args@)) + seq_refs(views(args@)) + value_refs(a@) =~= call_ref(name@, views(args@).push(a@)) + (seq_refs(views(args@)) + value_refs(a@)));
                    assert(call_path(name@, views(args@)) + seq_paths(views(args@)) + value_paths(a@) =~= call_path(name@, views(args@).push(a@)) + (seq_paths(views(args@)) + value_paths(a@)));
                }
                args.push(a);
            },
            Tok::RParen => return Ok(Value::Call { name, args }),
            other => {
                return Err(
                    cur.error(
                        tok.span.start,
                        crate::error::ParseErrorKind::Expected("',' or ')'", other.describe().to_owned()),
                    ),
                );
            },
        }
    }
}

/// `Object(Type, "k": v, ...)`, with the `(` next.
fn parse_object(cur: &mut Cursor, ptrs: &mut Pointers) -> (r: Result<Value, ParseError>)
    requires
        old(cur).wf(),
        old(cur).at() == old(cur).last(),
    ensures
        final(cur).wf(),
        final(cur).text() == old(cur).text(),
        r is Ok ==> final(cur).depth() == old(cur).depth(),
        r is Ok ==> final(cur).at() == final(cur).last(),
        r is Ok ==> final(cur).last() > old(cur).at(),
        outcome(
            grammar_object(old(cur).text(), old(cur).at(), old(cur).depth()),
            r,
            *final(cur),
            *final(ptrs),
            *old(ptrs),
            old(cur).at(),
        ),
    decreases old(cur).text().len() - old(cur).at(), 1nat,
{
    let ghost s = cur.text();
    let ghost d = cur.depth();
    let ghost p = cur.at();
    let ghost from = (ptrs.refs@.len() as int, ptrs.paths@.len() as int);
    proof {
        lemma_extends_refl(*ptrs);
        cur.lemma_wf();
        lemma_lex_at_bounds(s, p);
    }
    cur.expect(&Tok::LParen, "'('")?;
    proof {
        cur.lemma_wf();
        lemma_lex_at_bounds(s, cur.at());
    }
    let tok = cur.next()?;
    let ty = match tok.tok {
        Tok::Ident(ty) => ty,
        other => {
            return Err(
                cur.error(
                    tok.span.start,
                    crate::error::ParseErrorKind::Expected("an object type", other.describe().to_owned()),
                ),
            );
        },
    };
    let mut props: Vec<(String, Value)> = Vec::new();
    loop
        invariant
            cur.wf(),
            cur.text() == s,
            cur.depth() == d,
            s == old(cur).text(),
            d == old(cur).depth(),
            p == old(cur).at(),
            from == (old(ptrs).refs@.len() as int, old(ptrs).paths@.len() as int),
            from.0 <= ptrs.refs@.len(),
            from.1 <= ptrs.paths@.len(),
            grammar_object(s, p, d) == grammar_props(s, cur.at(), d, ty@, prop_views(props@)),
            cur.at() == cur.last(),
            p < cur.at() <= s.len(),
            ptrs.extends(old(ptrs), prop_refs(prop_views(props@)), prop_paths(prop_views(props@))),
            ptrs.spans_within(from, p, cur.last()),
        decreases s.len() - cur.at(),
    {
        let ghost at = cur.at();
        proof {
            cur.lemma_wf();
            lemma_lex_at_bounds(s, at);
        }
        let tok = cur.next()?;
        match tok.tok {
            Tok::RParen => return Ok(Value::Object { ty, props }),
            Tok::Comma => {},
            other => {
                return Err(
                    cur.error(
                        tok.span.start,
                        crate::error::ParseErrorKind::Expected("',' or ')'", other.describe().to_owned()),
                    ),
                );
            },
        }
        proof {
            cur.lemma_wf();
        lemma_lex_at_bounds(s, cur.at());
        }
        let tok = cur.next()?;
        match tok.tok {
            Tok::RParen => return Ok(Value::Object { ty, props }),
            Tok::Str { value, .. } => {
                proof {
                    cur.lemma_wf();
        lemma_lex_at_bounds(s, cur.at());
                }
                cur.expect(&Tok::Colon, "':'")?;
                let ghost before = *ptrs;
                let ghost e3 = cur.at();
                let v = parse_value(cur, ptrs)?;
                proof {
                    lemma_spans_grow(before, *ptrs, from, p, e3, at, cur.at(), value_refs(v@), value_paths(v@));
                    cur.lemma_wf();
                    lemma_prop_refs_push(prop_views(props@), value@, v@);
                    lemma_prop_views_push(props@, (value, v));
                    lemma_extends_trans(*old(ptrs), before, *ptrs, prop_refs(prop_views(props@)), prop_paths(prop_views(props@)), value_refs(v@), value_paths(v@));
                }
                props.push((value, v));
            },
            other => {
                return Err(
                    cur.error(
                        tok.span.start,
                        crate::error::ParseErrorKind::Expected("a property name", other.describe().to_owned()),
                    ),
                );
            },
        }
    }
}

/// The `T` in `Array[T]` / `Dictionary[K, V]`.
fn parse_type_slot(cur: &mut Cursor, ptrs: &mut Pointers) -> (r: Result<Value, ParseError>)
    requires
        old(cur).wf(),
        old(cur).at() == old(cur).last(),
    ensures
        final(cur).wf(),
        final(cur).text() == old(cur).text(),
        r is Ok ==> final(cur).depth() == old(cur).depth(),
        r is Ok ==> final(cur).at() == final(cur).last(),
        r is Ok ==> final(cur).last() > old(cur).at(),
        outcome(
            grammar_type_slot(old(cur).text(), old(cur).at(), old(cur).depth()),
            r,
            *final(cur),
            *final(ptrs),
            *old(ptrs),
            old(cur).at(),
        ),
    decreases old(cur).text().len() - old(cur).at(), 1nat,
{
    let ghost s = cur.text();
    proof {
        lemma_extends_refl(*ptrs);
        cur.lemma_wf();
        lemma_lex_at_bounds(s, cur.at());
    }
    let tok = cur.next()?;
    let name = match tok.tok {
        Tok::Ident(name) => name,
        other => {
            return Err(
                cur.error(
                    tok.span.start,
                    crate::error::ParseErrorKind::Expected("a type identifier", other.describe().to_owned()),
                ),
            );
        },
    };
    proof {
        cur.lemma_wf();
        lemma_lex_at_bounds(s, cur.at());
    }
    let t = cur.peek()?;
    if let Tok::LParen = t.tok {
        let ghost before = *ptrs;
        let ghost e = cur.at();
        let r = parse_call(cur, name, ptrs);
        proof {
            if r is Ok {
                lemma_spans_grow(before, *ptrs, (before.refs@.len() as int, before.paths@.len() as int), old(cur).at(), e, old(cur).at(), cur.at(), value_refs(r->Ok_0@), value_paths(r->Ok_0@));
            }
        }
        return r;
    }
    Ok(Value::Ident(name))
}

/// `Array[T]([...])`, with the first `[` next.
fn parse_typed_array(cur: &mut Cursor, ptrs: &mut Pointers) -> (r: Result<Value, ParseError>)
    requires
        old(cur).wf(),
        old(cur).at() == old(cur).last(),
    ensures
        final(cur).wf(),
        final(cur).text() == old(cur).text(),
        r is Ok ==> final(cur).depth() == old(cur).depth(),
        r is Ok ==> final(cur).at() == final(cur).last(),
        r is Ok ==> final(cur).last() > old(cur).at(),
        outcome(
            grammar_typed_array(old(cur).text(), old(cur).at(), old(cur).depth()),
            r,
            *final(cur),
            *final(ptrs),
            *old(ptrs),
            old(cur).at(),
        ),
    decreases old(cur).text().len() - old(cur).at(), 2nat,
{
    let ghost s = cur.text();
    let ghost p = cur.at();
    proof {
        lemma_extends_refl(*ptrs);
        cur.lemma_wf();
        lemma_lex_at_bounds(s, p);
    }
    cur.expect(&Tok::LBracket, "'['")?;
    let ghost p0 = *ptrs;
    let ty = parse_type_slot(cur, ptrs)?;
    let ghost p1 = *ptrs;
    let ghost q1 = cur.at();
    proof {
        cur.lemma_wf();
        lemma_lex_at_bounds(s, cur.at());
    }
    cur.expect(&Tok::RBracket, "']'")?;
    proof {
        cur.lemma_wf();
        lemma_lex_at_bounds(s, cur.at());
    }
    cur.expect(&Tok::LParen, "'('")?;
    proof {
        cur.lemma_wf();
        lemma_lex_at_bounds(s, cur.at());
    }
    cur.expect(&Tok::LBracket, "'['")?;
    let ghost e4 = cur.at();
    let items = parse_array_body(cur, ptrs)?;
    proof {
        cur.lemma_wf();
        lemma_lex_at_bounds(s, cur.at());
        lemma_extends_trans(p0, p1, *ptrs, value_refs(ty@), value_paths(ty@), seq_refs(views(items@)), seq_paths(views(items@)));
        let from = (p0.refs@.len() as int, p0.paths@.len() as int);
        lemma_extends_refl(p0);
        lemma_spans_grow(p0, p1, from, p, p, p, q1, value_refs(ty@), value_paths(ty@));
        lemma_spans_grow(p1, *ptrs, from, p, e4, q1, cur.at(), seq_refs(views(items@)), seq_paths(views(items@)));
    }
    let ghost q5 = cur.at();
    cur.expect(&Tok::RParen, "')'")?;
    proof {
        let from = (p0.refs@.len() as int, p0.paths@.len() as int);
        lemma_extends_refl(*ptrs);
        lemma_spans_grow(*ptrs, *ptrs, from, p, cur.at(), q5, cur.at(), seq![], seq![]);
    }
    Ok(Value::TypedArray { ty: Box::new(ty), items })
}

/// `Dictionary[K, V]({...})`, with the first `[` next.
fn parse_typed_dict(cur: &mut Cursor, ptrs: &mut Pointers) -> (r: Result<Value, ParseError>)
    requires
        old(cur).wf(),
        old(cur).at() == old(cur).last(),
    ensures
        final(cur).wf(),
        final(cur).text() == old(cur).text(),
        r is Ok ==> final(cur).depth() == old(cur).depth(),
        r is Ok ==> final(cur).at() == final(cur).last(),
        r is Ok ==> final(cur).last() > old(cur).at(),
        outcome(
            grammar_typed_dict(old(cur).text(), old(cur).at(), old(cur).depth()),
            r,
            *final(cur),
            *final(ptrs),
            *old(ptrs),
            old(cur).at(),
        ),
    decreases old(cur).text().len() - old(cur).at(), 2nat,
{
    let ghost s = cur.text();
    let ghost p = cur.at();
    proof {
        lemma_extends_refl(*ptrs);
        cur.lemma_wf();
        lemma_lex_at_bounds(s, p);
    }
    cur.expect(&Tok::LBracket, "'['")?;
    let ghost p0 = *ptrs;
    let key = parse_type_slot(cur, ptrs)?;
    let ghost p1 = *ptrs;
    let ghost q1 = cur.at();
    proof {
        cur.lemma_wf();
        lemma_lex_at_bounds(s, cur.at());
    }
    cur.expect(&Tok::Comma, "','")?;
    let ghost e2 = cur.at();
    let val = parse_type_slot(cur, ptrs)?;
    let ghost p2 = *ptrs;
    let ghost q2 = cur.at();
    proof {
        cur.lemma_wf();
        lemma_lex_at_bounds(s, cur.at());
    }
    cur.expect(&Tok::RBracket, "']'")?;
    proof {
        cur.lemma_wf();
        lemma_lex_at_bounds(s, cur.at());
    }
    cur.expect(&Tok::LParen, "'('")?;
    proof {
        cur.lemma_wf();
        lemma_lex_at_bounds(s, cur.at());
    }
    cur.expect(&Tok::LBrace, "'{'")?;
    let ghost e5 = cur.at();
    let entries = parse_dict_body(cur, ptrs)?;
    proof {
        cur.lemma_wf();
        lemma_lex_at_bounds(s, cur.at());
        lemma_extends_trans(p0, p1, p2, value_refs(key@), value_paths(key@), value_refs(val@), value_paths(val@));
        lemma_extends_trans(p0, p2, *ptrs, value_refs(key@) + value_refs(val@), value_paths(key@) + value_paths(val@), entry_refs(entry_views(entries@)), entry_paths(entry_views(entries@)));
        let from = (p0.refs@.len() as int, p0.paths@.len() as int);
        lemma_extends_refl(p0);
        lemma_spans_grow(p0, p1, from, p, p, p, q1, value_refs(key@), value_paths(key@));
        lemma_spans_grow(p1, p2, from, p, e2, q1, q2, value_refs(val@), value_paths(val@));
        lemma_spans_grow(p2, *ptrs, from, p, e5, q2, cur.at(), entry_refs(entry_views(entries@)), entry_paths(entry_views(entries@)));
    }
    let ghost q6 = cur.at();
    cur.expect(&Tok::RParen, "')'")?;
    proof {
        let from = (p0.refs@.len() as int, p0.paths@.len() as int);
        lemma_extends_refl(*ptrs);
        lemma_spans_grow(*ptrs, *ptrs, from, p, cur.at(), q6, cur.at(), seq![], seq![]);
    }
    Ok(Value::TypedDict { key: Box::new(key), val: Box::new(val), entries })
}


// ---------------------------------------------------------------------------
// References in either spelling.

/// The reference a call `name(args)` makes in either spelling: the kind, the id
/// text, and whether it is the unquoted form Godot 3 wrote (`SubResource( 1 )`).
pub open spec fn call_any_ref(name: Seq<char>, args: Seq<ValueView>) -> Seq<(RefKind, Seq<char>, bool)> {
    match ref_kind_spec(name) {
        Some(k) => if args.len() > 0 && args[0] is Str {
            seq![(k, args[0]->Str_0, false)]
        } else if args.len() > 0 && args[0] is Num {
            seq![(k, args[0]->Num_0, true)]
        } else {
            seq![]
        },
        None => seq![],
    }
}

/// Every resource reference in a value, quoted or not, in order.
pub open spec fn any_refs(v: ValueView) -> Seq<(RefKind, Seq<char>, bool)>
    decreases v,
{
    match v {
        ValueView::Array(items) => seq_any_refs(items),
        ValueView::Dict(entries) => entry_any_refs(entries),
        ValueView::Call { name, args } => call_any_ref(name, args) + seq_any_refs(args),
        ValueView::TypedArray { ty, items } => any_refs(*ty) + seq_any_refs(items),
        ValueView::TypedDict { key, val, entries } => any_refs(*key) + any_refs(*val)
            + entry_any_refs(entries),
        ValueView::Object { props, .. } => prop_any_refs(props),
        _ => seq![],
    }
}

pub open spec fn seq_any_refs(s: Seq<ValueView>) -> Seq<(RefKind, Seq<char>, bool)>
    decreases s,
{
    if s.len() == 0 {
        seq![]
    } else {
        seq_any_refs(s.drop_last()) + any_refs(s.last())
    }
}

pub open spec fn entry_any_refs(s: Seq<(ValueView, ValueView)>) -> Seq<(RefKind, Seq<char>, bool)>
    decreases s,
{
    if s.len() == 0 {
        seq![]
    } else {
        entry_any_refs(s.drop_last()) + any_refs(s.last().0) + any_refs(s.last().1)
    }
}

pub open spec fn prop_any_refs(s: Seq<(Seq<char>, ValueView)>) -> Seq<(RefKind, Seq<char>, bool)>
    decreases s,
{
    if s.len() == 0 {
        seq![]
    } else {
        prop_any_refs(s.drop_last()) + any_refs(s.last().1)
    }
}

pub open spec fn any_ref_views(s: Seq<(RefKind, String, bool)>) -> Seq<(RefKind, Seq<char>, bool)> {
    Seq::new(s.len(), |i: int| (s[i].0, s[i].1@, s[i].2))
}

proof fn lemma_any_ref_views_push(s: Seq<(RefKind, String, bool)>, x: (RefKind, String, bool))
    ensures
        any_ref_views(s.push(x)) == any_ref_views(s).push((x.0, x.1@, x.2)),
{
    assert(any_ref_views(s.push(x)) =~= any_ref_views(s).push((x.0, x.1@, x.2)));
}

/// Appends every resource reference in `v`, in either spelling, to `out`.
pub fn collect_refs(v: &Value, out: &mut Vec<(RefKind, String, bool)>)
    ensures
        any_ref_views(final(out)@) == any_ref_views(old(out)@) + any_refs(v@),
    decreases v,
{
    let ghost start = any_ref_views(out@);
    match v {
        Value::Array(items) => {
            collect_seq_refs(items, out);
        },
        Value::Dict(entries) => {
            collect_entry_refs(entries, out);
        },
        Value::Call { name, args } => {
            if let Some(kind) = ref_kind(name.as_str()) {
                if args.len() > 0 {
                    match &args[0] {
                        Value::Str(id) => {
                            let ghost o = out@;
                            let x = (kind, id.clone(), false);
                            proof {
                                lemma_any_ref_views_push(o, x);
                            }
                            out.push(x);
                        },
                        Value::Num(id) => {
                            let ghost o = out@;
                            let x = (kind, id.clone(), true);
                            proof {
                                lemma_any_ref_views_push(o, x);
                            }
                            out.push(x);
                        },
                        _ => {},
                    }
                }
            }
            let ghost mid = any_ref_views(out@);
            proof {
                assert(views(args@).len() == args@.len()) by {
                    lemma_views_len(args@);
                }
                if args@.len() > 0 {
                    lemma_views_index(args@, 0);
                }
                assert(mid =~= start + call_any_ref(name@, views(args@)));
            }
            collect_seq_refs(args, out);
        },
        Value::TypedArray { ty, items } => {
            collect_refs(ty, out);
            collect_seq_refs(items, out);
        },
        Value::TypedDict { key, val, entries } => {
            collect_refs(key, out);
            collect_refs(val, out);
            collect_entry_refs(entries, out);
        },
        Value::Object { props, .. } => {
            collect_prop_refs(props, out);
        },
        _ => {},
    }
    proof {
        assert(any_ref_views(out@) =~= start + any_refs(v@));
    }
}

fn collect_seq_refs(items: &Vec<Value>, out: &mut Vec<(RefKind, String, bool)>)
    ensures
        any_ref_views(final(out)@) == any_ref_views(old(out)@) + seq_any_refs(views(items@)),
    decreases items,
{
    let ghost start = any_ref_views(out@);
    let mut i: usize = 0;
    while i < items.len()
        invariant
            i <= items@.len(),
            any_ref_views(out@) == start + seq_any_refs(views(items@.take(i as int))),
        decreases items@.len() - i,
    {
        proof {
            assert(items@.take(i + 1) =~= items@.take(i as int).push(items@[i as int]));
            lemma_views_push(items@.take(i as int), items@[i as int]);
            assert(views(items@.take(i + 1)).drop_last() =~= views(items@.take(i as int)));
        }
        collect_refs(&items[i], out);
        i += 1;
    }
    proof {
        assert(items@.take(i as int) =~= items@);
    }
}

fn collect_entry_refs(entries: &Vec<(Value, Value)>, out: &mut Vec<(RefKind, String, bool)>)
    ensures
        any_ref_views(final(out)@) == any_ref_views(old(out)@) + entry_any_refs(entry_views(entries@)),
    decreases entries,
{
    let ghost start = any_ref_views(out@);
    let mut i: usize = 0;
    while i < entries.len()
        invariant
            i <= entries@.len(),
            any_ref_views(out@) == start + entry_any_refs(entry_views(entries@.take(i as int))),
        decreases entries@.len() - i,
    {
        proof {
            assert(entries@.take(i + 1) =~= entries@.take(i as int).push(entries@[i as int]));
            lemma_entry_views_push(entries@.take(i as int), entries@[i as int]);
            assert(entry_views(entries@.take(i + 1)).drop_last() =~= entry_views(entries@.take(i as int)));
        }
        collect_refs(&entries[i].0, out);
        collect_refs(&entries[i].1, out);
        i += 1;
    }
    proof {
        assert(entries@.take(i as int) =~= entries@);
    }
}

fn collect_prop_refs(props: &Vec<(String, Value)>, out: &mut Vec<(RefKind, String, bool)>)
    ensures
        any_ref_views(final(out)@) == any_ref_views(old(out)@) + prop_any_refs(prop_views(props@)),
    decreases props,
{
    let ghost start = any_ref_views(out@);
    let mut i: usize = 0;
    while i < props.len()
        invariant
            i <= props@.len(),
            any_ref_views(out@) == start + prop_any_refs(prop_views(props@.take(i as int))),
        decreases props@.len() - i,
    {
        proof {
            assert(props@.take(i + 1) =~= props@.take(i as int).push(props@[i as int]));
            lemma_prop_views_push(props@.take(i as int), props@[i as int]);
            assert(prop_views(props@.take(i + 1)).drop_last() =~= prop_views(props@.take(i as int)));
        }
        collect_refs(&props[i].1, out);
        i += 1;
    }
    proof {
        assert(props@.take(i as int) =~= props@);
    }
}

pub(crate) proof fn lemma_views_len(s: Seq<Value>)
    ensures
        views(s).len() == s.len(),
    decreases s.len(),
{
    if s.len() > 0 {
        lemma_views_len(s.drop_last());
    }
}

pub(crate) proof fn lemma_views_index(s: Seq<Value>, i: int)
    requires
        0 <= i < s.len(),
    ensures
        views(s)[i] == vview(s[i]),
    decreases s.len(),
{
    lemma_views_len(s.drop_last());
    if i < s.len() - 1 {
        lemma_views_index(s.drop_last(), i);
    }
}

pub open spec fn string_views(s: Seq<String>) -> Seq<Seq<char>> {
    Seq::new(s.len(), |i: int| s[i]@)
}

proof fn lemma_string_views_push(s: Seq<String>, x: String)
    ensures
        string_views(s.push(x)) == string_views(s).push(x@),
{
    assert(string_views(s.push(x)) =~= string_views(s).push(x@));
}

/// Appends every `NodePath("...")` in `v` to `out`, in order.
pub fn collect_paths(v: &Value, out: &mut Vec<String>)
    ensures
        string_views(final(out)@) == string_views(old(out)@) + value_paths(v@),
    decreases v,
{
    let ghost start = string_views(out@);
    match v {
        Value::Array(items) => {
            collect_seq_paths(items, out);
        },
        Value::Dict(entries) => {
            collect_entry_paths(entries, out);
        },
        Value::Call { name, args } => {
            if str_eq(name.as_str(), "NodePath") && args.len() > 0 {
                if let Value::Str(p) = &args[0] {
                    let ghost o = out@;
                    let x = p.clone();
                    proof {
                        lemma_string_views_push(o, x);
                    }
                    out.push(x);
                }
            }
            proof {
                lemma_views_len(args@);
                if args@.len() > 0 {
                    lemma_views_index(args@, 0);
                }
                assert(string_views(out@) =~= start + call_path(name@, views(args@)));
            }
            collect_seq_paths(args, out);
        },
        Value::TypedArray { ty, items } => {
            collect_paths(ty, out);
            collect_seq_paths(items, out);
        },
        Value::TypedDict { key, val, entries } => {
            collect_paths(key, out);
            collect_paths(val, out);
            collect_entry_paths(entries, out);
        },
        Value::Object { props, .. } => {
            collect_prop_paths(props, out);
        },
        _ => {},
    }
    proof {
        assert(string_views(out@) =~= start + value_paths(v@));
    }
}

fn collect_seq_paths(items: &Vec<Value>, out: &mut Vec<String>)
    ensures
        string_views(final(out)@) == string_views(old(out)@) + seq_paths(views(items@)),
    decreases items,
{
    let ghost start = string_views(out@);
    let mut i: usize = 0;
    while i < items.len()
        invariant
            i <= items@.len(),
            string_views(out@) == start + seq_paths(views(items@.take(i as int))),
        decreases items@.len() - i,
    {
        proof {
            assert(items@.take(i + 1) =~= items@.take(i as int).push(items@[i as int]));
            lemma_views_push(items@.take(i as int), items@[i as int]);
            assert(views(items@.take(i + 1)).drop_last() =~= views(items@.take(i as int)));
        }
        collect_paths(&items[i], out);
        i += 1;
    }
    proof {
        assert(items@.take(i as int) =~= items@);
    }
}

fn collect_entry_paths(entries: &Vec<(Value, Value)>, out: &mut Vec<String>)
    ensures
        string_views(final(out)@) == string_views(old(out)@) + entry_paths(entry_views(entries@)),
    decreases entries,
{
    let ghost start = string_views(out@);
    let mut i: usize = 0;
    while i < entries.len()
        invariant
            i <= entries@.len(),
            string_views(out@) == start + entry_paths(entry_views(entries@.take(i as int))),
        decreases entries@.len() - i,
    {
        proof {
            assert(entries@.take(i + 1) =~= entries@.take(i as int).push(entries@[i as int]));
            lemma_entry_views_push(entries@.take(i as int), entries@[i as int]);
            assert(entry_views(entries@.take(i + 1)).drop_last() =~= entry_views(entries@.take(i as int)));
        }
        collect_paths(&entries[i].0, out);
        collect_paths(&entries[i].1, out);
        i += 1;
    }
    proof {
        assert(entries@.take(i as int) =~= entries@);
    }
}

fn collect_prop_paths(props: &Vec<(String, Value)>, out: &mut Vec<String>)
    ensures
        string_views(final(out)@) == string_views(old(out)@) + prop_paths(prop_views(props@)),
    decreases props,
{
    let ghost start = string_views(out@);
    let mut i: usize = 0;
    while i < props.len()
        invariant
            i <= props@.len(),
            string_views(out@) == start + prop_paths(prop_views(props@.take(i as int))),
        decreases props@.len() - i,
    {
        proof {
            assert(props@.take(i + 1) =~= props@.take(i as int).push(props@[i as int]));
            lemma_prop_views_push(props@.take(i as int), props@[i as int]);
            assert(prop_views(props@.take(i + 1)).drop_last() =~= prop_views(props@.take(i as int)));
        }
        collect_paths(&props[i].1, out);
        i += 1;
    }
    proof {
        assert(props@.take(i as int) =~= props@);
    }
}

impl Value {
    /// The string payload of a `"..."` or `&"..."` literal, if this is one.
    pub fn as_str(&self) -> (r: Option<&str>)
        ensures
            r matches Some(x) ==> (self@ == ValueView::Str(x@) || self@ == ValueView::Name(x@)),
            r is None ==> !(self@ is Str) && !(self@ is Name),
    {
        match self {
            Value::Str(s) => Some(s.as_str()),
            Value::Name(s) => Some(s.as_str()),
            _ => None,
        }
    }
}

/// The text of a resource id as a declaration writes it: a quoted string, or
/// the bare number of the Godot 3 form.
pub open spec fn id_text_spec(v: ValueView) -> Option<Seq<char>> {
    match v {
        ValueView::Str(s) => Some(s),
        ValueView::Num(n) => Some(n),
        _ => None,
    }
}

pub fn id_text(v: &Value) -> (r: Option<String>)
    ensures
        r matches Some(x) ==> id_text_spec(v@) == Some(x@),
        r is None ==> id_text_spec(v@) is None,
{
    match v {
        Value::Str(s) => Some(s.clone()),
        Value::Num(n) => Some(n.clone()),
        _ => None,
    }
}

/// Whether a declared id is written the Godot 3 way, as a bare number.
pub fn is_legacy_id(v: &Value) -> (r: bool)
    ensures
        r == (v@ is Num),
{
    matches!(v, Value::Num(_))
}

// ---------------------------------------------------------------------------
// Reading text as an integer the way Godot's `String::to_int` does.

/// Godot's `String::to_int`, one character at a time: the digits read so far,
/// the sign, and whether a `.` has ended the integer part. Digits anywhere
/// before the `.` count, a `-` flips the sign while no digit has been read, and
/// everything else is skipped.
pub open spec fn to_int_state(s: Seq<char>) -> (int, int, bool)
    decreases s.len(),
{
    if s.len() == 0 {
        (0, 1, false)
    } else {
        let (i, sg, stop) = to_int_state(s.drop_last());
        let c = s.last();
        if stop || c == '.' {
            (i, sg, true)
        } else if '0' <= c && c <= '9' {
            (i * 10 + ((c as u32) - 48), sg, false)
        } else if i == 0 && c == '-' {
            (i, -sg, false)
        } else {
            (i, sg, false)
        }
    }
}

/// `String::to_int`: the value read, saturated to the `i64` range as Godot
/// saturates it.
pub open spec fn godot_to_int(s: Seq<char>) -> int {
    let (i, sg, _) = to_int_state(s);
    let v = i * sg;
    if v > i64::MAX {
        i64::MAX as int
    } else if v < i64::MIN {
        i64::MIN as int
    } else {
        v
    }
}

proof fn lemma_to_int_state(s: Seq<char>)
    ensures
        to_int_state(s).0 >= 0,
        to_int_state(s).1 == 1 || to_int_state(s).1 == -1,
    decreases s.len(),
{
    if s.len() > 0 {
        lemma_to_int_state(s.drop_last());
    }
}

/// The integer Godot reads from `text` with `String::to_int`.
pub fn godot_int(text: &str) -> (r: i64)
    ensures
        r == godot_to_int(text@),
{
    let cs = crate::text::chars_of(text);
    let cap: u128 = 0x1_0000_0000_0000_0000;
    let mut acc: u128 = 0;
    let mut negative = false;
    let mut stop = false;
    let mut j: usize = 0;
    while j < cs.len()
        invariant
            j <= cs@.len(),
            cs@ == text@,
            cap == 0x1_0000_0000_0000_0000,
            ({
                let st = to_int_state(cs@.take(j as int));
                &&& acc as int == if st.0 < cap { st.0 } else { cap as int }
                &&& (st.1 == -1) == negative
                &&& st.2 == stop
            }),
        decreases cs@.len() - j,
    {
        let c = cs[j];
        proof {
            assert(cs@.take(j + 1).drop_last() =~= cs@.take(j as int));
            lemma_to_int_state(cs@.take(j as int));
        }
        if stop || c == '.' {
            stop = true;
        } else if '0' <= c && c <= '9' {
            let d = (c as u32 - 48) as u128;
            if acc < cap {
                let next = acc * 10 + d;
                acc = if next < cap { next } else { cap };
            }
        } else if acc == 0 && c == '-' {
            negative = !negative;
        }
        j += 1;
    }
    proof {
        assert(cs@.take(j as int) =~= cs@);
        lemma_to_int_state(cs@);
    }
    if !negative {
        if acc > 0x7fff_ffff_ffff_ffff {
            i64::MAX
        } else {
            acc as i64
        }
    } else {
        if acc > 0x8000_0000_0000_0000 {
            i64::MIN
        } else if acc == 0x8000_0000_0000_0000 {
            i64::MIN
        } else {
            -(acc as i64)
        }
    }
}

/// The integer Godot's loader reads from a header field written either way,
/// `index=0` or `index="0"`.
pub fn int_value(v: &Value) -> (r: Option<i64>)
    ensures
        r matches Some(x) ==> (v@ matches ValueView::Str(t) && x == godot_to_int(t)) || (
        v@ matches ValueView::Num(t) && x == godot_to_int(t)),
        r is None ==> !(v@ is Str) && !(v@ is Num),
{
    match v {
        Value::Str(t) => Some(godot_int(t.as_str())),
        Value::Num(t) => Some(godot_int(t.as_str())),
        _ => None,
    }
}

/// No array, dictionary, call or object parse gives a plain string.
pub open spec fn not_str(o: Option<(ValueView, int)>) -> bool {
    o matches Some((v, _)) ==> !(v is Str)
}

proof fn lemma_items_not_str(s: Seq<char>, p: int, d: nat, acc: Seq<ValueView>)
    ensures
        not_str(grammar_items(s, p, d, acc)),
    decreases s.len() - p,
{
    if 0 <= p <= s.len() {
        if let Ok((t, _, e)) = lex_at(s, p) {
            if !(t is RBracket) {
                if let Some((v, q)) = grammar_value(s, p, d) {
                    if q > p && q <= s.len() {
                        lemma_lex_at_bounds(s, q);
                        if let Ok((t2, _, e2)) = lex_at(s, q) {
                            if t2 is Comma {
                                lemma_items_not_str(s, e2, d, acc.push(v));
                            }
                        }
                    }
                }
            }
        }
    }
}

proof fn lemma_entries_not_str(s: Seq<char>, p: int, d: nat, acc: Seq<(ValueView, ValueView)>)
    ensures
        not_str(grammar_entries(s, p, d, acc)),
    decreases s.len() - p,
{
    if 0 <= p <= s.len() {
        if let Ok((t, _, e)) = lex_at(s, p) {
            if !(t is RBrace) {
                if let Some((k, q1)) = grammar_value(s, p, d) {
                    if q1 > p && q1 <= s.len() {
                        if let Ok((TokView::Colon, _, e1)) = lex_at(s, q1) {
                            lemma_lex_at_bounds(s, q1);
                            if let Some((v, q2)) = grammar_value(s, e1, d) {
                                if q2 > p && q2 <= s.len() {
                                    lemma_lex_at_bounds(s, q2);
                                    if let Ok((t3, _, e3)) = lex_at(s, q2) {
                                        if t3 is Comma {
                                            lemma_entries_not_str(s, e3, d, acc.push((k, v)));
                                        }
                                    }
                                }
                            }
                        }
                    }
                }
            }
        }
    }
}

proof fn lemma_args_not_str(s: Seq<char>, p: int, d: nat, name: Seq<char>, acc: Seq<ValueView>)
    ensures
        not_str(grammar_args(s, p, d, name, acc)),
    decreases s.len() - p,
{
    if 0 <= p <= s.len() {
        lemma_lex_at_bounds(s, p);
        if let Ok((t, _, e)) = lex_at(s, p) {
            if t is Comma {
                if let Some((v, q)) = grammar_value(s, e, d) {
                    if q > p && q <= s.len() {
                        lemma_args_not_str(s, q, d, name, acc.push(v));
                    }
                }
            }
        }
    }
}

proof fn lemma_props_not_str(s: Seq<char>, p: int, d: nat, ty: Seq<char>, acc: Seq<(Seq<char>, ValueView)>)
    ensures
        not_str(grammar_props(s, p, d, ty, acc)),
    decreases s.len() - p,
{
    if 0 <= p <= s.len() {
        lemma_lex_at_bounds(s, p);
        if let Ok((t, _, e)) = lex_at(s, p) {
            if t is Comma {
                lemma_lex_at_bounds(s, e);
                if let Ok((t2, _, e2)) = lex_at(s, e) {
                    if t2 is Str {
                        lemma_lex_at_bounds(s, e2);
                        if let Ok((TokView::Colon, _, e3)) = lex_at(s, e2) {
                            if let Some((v, q)) = grammar_value(s, e3, d) {
                                if q > p && q <= s.len() {
                                    lemma_props_not_str(s, q, d, ty, acc.push((t2->value, v)));
                                }
                            }
                        }
                    }
                }
            }
        }
    }
}

/// A value that parses to a plain string is exactly one string token.
pub proof fn lemma_value_str(s: Seq<char>, p: int, d: nat)
    requires
        0 <= p <= s.len(),
    ensures
        grammar_value(s, p, d) matches Some((ValueView::Str(x), q)) ==> lex_at(s, p) matches Ok(
            (TokView::Str { value, name }, _, e),
        ) && !name && e == q && value == x,
{
    if let Ok((t, _, e)) = lex_at(s, p) {
        if d < MAX_DEPTH {
            let d1 = (d + 1) as nat;
            match t {
                TokView::LBracket => lemma_items_not_str(s, e, d1, seq![]),
                TokView::LBrace => lemma_entries_not_str(s, e, d1, seq![]),
                TokView::Ident(name) => {
                    lemma_lex_at_bounds(s, p);
                    lemma_lex_at_bounds(s, e);
                    if let Ok((_, _, e1)) = lex_at(s, e) {
                        lemma_lex_at_bounds(s, e1);
                        if let Ok((TokView::Ident(ty), _, e2)) = lex_at(s, e1) {
                            lemma_props_not_str(s, e2, d1, ty, seq![]);
                        }
                        assert(not_str(grammar_object(s, e, d1)));
                        if let Some((v, q)) = grammar_value(s, e1, d1) {
                            lemma_args_not_str(s, q, d1, name, seq![v]);
                        }
                        assert(not_str(grammar_call(s, e, d1, name)));
                        assert(not_str(grammar_typed_array(s, e, d1)));
                        assert(not_str(grammar_typed_dict(s, e, d1)));
                    }
                    assert(not_str(grammar_after_ident(s, e, d1, name)));
                    assert(grammar_inner(s, p, d1) == grammar_after_ident(s, e, d1, name));
                },
                _ => {},
            }
        }
    }
}

pub proof fn lemma_expect3(s: Seq<char>, p: int, a: TokView, b: TokView, c: TokView)
    requires
        0 <= p <= s.len(),
        !(a is Eof),
    ensures
        expect3(s, p, a, b, c) matches Some(e) ==> p < e <= s.len(),
{
    lemma_lex_at_bounds(s, p);
    if let Ok((t1, _, e1)) = lex_at(s, p) {
        lemma_lex_at_bounds(s, e1);
        if let Ok((t2, _, e2)) = lex_at(s, e1) {
            lemma_lex_at_bounds(s, e2);
        }
    }
}

proof fn lemma_to_int_of_digits(p: Seq<char>, n: nat, sg: int)
    requires
        to_int_state(p) == (0int, sg, false),
    ensures
        to_int_state(p + crate::text::decimal(n)) == (n as int, sg, false),
    decreases n,
{
    let d = crate::text::decimal(n);
    let c = crate::text::digit_char(n % 10);
    assert((c as u32) == n % 10 + 48) by {
        assert(n % 10 < 10);
    }
    if n < 10 {
        assert(p + d =~= p.push(c));
        assert((p + d).drop_last() =~= p);
    } else {
        lemma_to_int_of_digits(p, n / 10, sg);
        let q = p + crate::text::decimal(n / 10);
        assert(p + d =~= q.push(c));
        assert((p + d).drop_last() =~= q);
        assert((n / 10) * 10 + n % 10 == n);
    }
}

/// Godot reads a number back from its decimal spelling: the digits of any
/// `i64` value, with a `-` before them for a negative one, read as that value.
pub proof fn lemma_to_int_reads_decimal(n: nat)
    ensures
        n <= i64::MAX ==> godot_to_int(crate::text::decimal(n)) == n,
        n <= i64::MAX + 1 ==> godot_to_int(seq!['-'] + crate::text::decimal(n)) == -n,
{
    let e = Seq::<char>::empty();
    lemma_to_int_of_digits(e, n, 1);
    assert(e + crate::text::decimal(n) =~= crate::text::decimal(n));
    let m = seq!['-'];
    assert(m.drop_last() =~= e);
    assert(m.last() == '-');
    assert(to_int_state(e) == (0int, 1int, false));
    assert(('-' as u32) == 45);
    assert(!('0' <= '-'));
    assert(to_int_state(m) == (0int, -1int, false));
    lemma_to_int_of_digits(m, n, -1);
    let t = m + crate::text::decimal(n);
    assert(to_int_state(t) == (n as int, -1int, false));
    let (ti, tsg, _) = to_int_state(t);
    assert(ti == n && tsg == -1);
    assert(ti * tsg == -n) by (nonlinear_arith)
        requires
            ti == n,
            tsg == -1,
    ;
    assert(to_int_state(crate::text::decimal(n)).0 * to_int_state(crate::text::decimal(n)).1 == n);
}

} // verus!
