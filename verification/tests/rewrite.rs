//! Rewriting references and node paths while replaying a document.
use tscn::{quote, Document, RefKind, Rewrite};

const SRC: &str = "[gd_scene load_steps=2 format=3]\n\n\
                   [ext_resource type=\"Script\" path=\"res://a.gd\" id=\"1_a\"]\n\n\
                   [node name=\"Root\" type=\"Node2D\"]\n\
                   script = ExtResource(\"1_a\")\n\
                   target = NodePath(\"Hero/Arm\")\n\
                   both = [ExtResource( \"1_a\" ), NodePath(\"Hero\")]\n";

#[test]
fn a_rewrite_that_changes_nothing_replays_the_source() {
    let doc = Document::parse(SRC).unwrap();
    assert_eq!(doc.render(&Rewrite::none()), SRC);
    assert_eq!(doc.render(&Rewrite::none()), doc.to_source());
}

#[test]
fn ids_and_paths_are_rewritten_in_place() {
    let doc = Document::parse(SRC).unwrap();
    let rewrite = Rewrite {
        ids: vec![(RefKind::Ext, "1_a".to_string(), "7_z".to_string())],
        paths: vec![("Hero".to_string(), "Player \"one\"".to_string())],
    };
    let out = doc.render(&rewrite);
    let expected = SRC
        .replace("ExtResource(\"1_a\")", "ExtResource(\"7_z\")")
        .replace("ExtResource( \"1_a\" )", "ExtResource( \"7_z\" )")
        .replace("NodePath(\"Hero\")", "NodePath(\"Player \\\"one\\\"\")");
    assert_eq!(out, expected);
    // A rewrite of another kind of reference leaves the id alone.
    let other = Rewrite { ids: vec![(RefKind::Sub, "1_a".to_string(), "x".to_string())], paths: vec![] };
    assert_eq!(doc.render(&other), SRC);
}

#[test]
fn quoting_escapes_quotes_and_backslashes() {
    assert_eq!(quote("a\"b\\c"), "\"a\\\"b\\\\c\"");
    assert_eq!(quote(""), "\"\"");
}

/// What `quote` writes, Godot's reader reads back exactly: one string token
/// covering the whole quoted text, holding the original.
#[test]
fn quoted_text_reads_back_as_itself() {
    for text in ["", "plain", "a\"b\\c", "two\nlines", "\\\"", "é ∑ 🎮"] {
        let quoted = quote(text);
        let token = tscn::Lexer::new(&quoted).next_token();
        assert_eq!(
            token,
            Ok(tscn::Token {
                tok: tscn::Tok::Str { value: text.to_string(), name: false },
                span: 0..quoted.chars().count(),
            }),
            "{quoted}"
        );
    }
}
