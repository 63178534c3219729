//! Lossless parsing, semantic modelling, diffing and 3-way merging of Godot 4
//! text scene and resource files (`.tscn` / `.tres`).
//!
//! Parsing keeps every character of the input, so [`Document::to_source`]
//! reproduces the original file exactly; the semantic layer on top (identities,
//! canonical forms, node paths, structural checks) is what diffing and merging
//! reason about.
mod text;
mod error;
mod lex;
mod value;
mod doc;
mod canon;
mod scene;
mod nodepath;
mod check;
mod show;
mod merge;
mod align;
mod diff;
mod driver;
mod reparse;
mod report;
pub mod fuzz;
mod fallback;
mod gitcfg;

pub use align::{node_moves, Alignment, Which};
pub use canon::{number_literals, NumberForms};
pub use check::{check, CheckIssue, CheckReport, Severity};
pub use diff::{diff, diff_scenes, Change, Diff, PropertyChange};
pub use driver::{driver_step, fallback_status, mergeability, DriverStep, Unmergeable};
pub use doc::{parse_document, quote, splice, Document, Field, Property, Rewrite, Section, SectionKind};
pub use fallback::{line_merge, Fallback};
pub use gitcfg::{add_rules, remove_rules};
pub use error::{ParseError, ParseErrorKind};
pub use lex::{Cursor, Lexer, Tok, Token};
pub use merge::{merge, stranded_references, Conflict, ConflictRow, MergeOptions, MergeOutcome, Side};
pub use nodepath::{findings, references, Reference, Resolution, Site, Tree};
pub use report::{plain, table};
pub use scene::{node_path, EntityId, Scene};
pub use show::{elide, shown, MAX_ELIDED, MAX_SHOWN};
pub use text::{chars_of, decimal_text};
pub use value::{godot_int, PathRef, Pointers, RefKind, Value, ValueRef};
