//! The document layer: lossless round trips, lookups and the errors of the
//! grammar.
use tscn::{Document, EntityId, ParseErrorKind, SectionKind};

const SCENE: &str = "; a scene\n[gd_scene load_steps=2 format=3 uid=\"uid://x\"]\n\n\
                     [ext_resource type=\"Script\" path=\"res://a.gd\" id=\"1_a\"]\n\n\
                     [node name=\"Root\" type=\"Node2D\"]\n\
                     script = ExtResource(\"1_a\")\n\
                     \"quoted key\" = Vector2( 1, 2 )\n\
                     position = Vector2(3, 4) ; trailing comment\n\n\
                     [node name=\"Child\" parent=\".\"]\n";

#[test]
fn a_document_replays_its_text_exactly() {
    let doc = Document::parse(SCENE).unwrap();
    assert_eq!(doc.to_source(), SCENE);
    assert!(doc.is_scene());
    assert_eq!(doc.sections.len(), 4);
    assert_eq!(doc.newline(), "\n");
}

#[test]
fn crlf_documents_replay_and_report_their_line_ending() {
    let src = SCENE.replace('\n', "\r\n");
    let doc = Document::parse(&src).unwrap();
    assert_eq!(doc.to_source(), src);
    assert_eq!(doc.newline(), "\r\n");
}

#[test]
fn fields_and_properties_are_found_by_name() {
    let doc = Document::parse(SCENE).unwrap();
    let root = &doc.sections[2];
    assert_eq!(root.kind, SectionKind::Node);
    assert_eq!(root.field_str("name"), Some("Root"));
    assert!(root.field("parent").is_none());
    assert_eq!(root.prop("quoted key").unwrap().value_raw, "Vector2( 1, 2 )");
    assert_eq!(root.prop("position").unwrap().value_raw, "Vector2(3, 4)");
    let refs = root.refs();
    assert_eq!(refs.len(), 1);
    assert_eq!(refs[0].id, "1_a");
    assert_eq!(&root.prop("script").unwrap().value_raw[refs[0].span.clone()], "\"1_a\"");
    assert_eq!(tscn::node_path(&doc.sections[3]), "Child");
    assert_eq!(tscn::node_path(root), ".");
    assert_eq!(doc.sections_of(SectionKind::Node).len(), 2);
    assert_eq!(doc.header().kind, SectionKind::GdScene);
}

#[test]
fn a_property_before_any_section_is_refused() {
    let err = Document::parse("key = 1\n").unwrap_err();
    assert_eq!(err.kind, ParseErrorKind::PropertyOutsideSection);
    assert_eq!((err.line, err.column), (1, 1));
}

#[test]
fn a_file_without_a_header_is_not_a_godot_resource() {
    let err = Document::parse("[node name=\"A\"]\n").unwrap_err();
    assert_eq!(err.kind, ParseErrorKind::NotAGodotTextResource);
    let err = Document::parse("").unwrap_err();
    assert_eq!(err.kind, ParseErrorKind::NotAGodotTextResource);
}

#[test]
fn an_unknown_or_suffixed_section_is_refused_with_its_name() {
    let err = Document::parse("[gd_scene format=3]\n[weird]\n").unwrap_err();
    assert_eq!(err.kind, ParseErrorKind::UnknownSection("weird".to_string()));
    assert_eq!((err.line, err.column), (2, 2));
    let err = Document::parse("[gd_scene format=3]\n[node.Android]\n").unwrap_err();
    assert_eq!(err.kind, ParseErrorKind::UnknownSection("node.Android".to_string()));
}

#[test]
fn an_unquoted_key_without_an_equals_sign_is_trailing_garbage() {
    let err = Document::parse("[gd_scene format=3]\nnonsense\n").unwrap_err();
    assert_eq!(err.kind, ParseErrorKind::TrailingGarbage);
    assert_eq!((err.line, err.column), (2, 1));
}

#[test]
fn unquoted_keys_drop_their_white_space() {
    let doc = Document::parse("[gd_scene format=3]\nmy key = 1\n").unwrap();
    let p = &doc.sections[0].props[0];
    assert_eq!(p.key, "mykey");
    assert_eq!(p.key_raw, "my key");
    assert_eq!(p.sep_eq, " ");
}

#[test]
fn tags_and_derived_fields() {
    assert_eq!(SectionKind::SubResource.tag(), "sub_resource");
    assert!(SectionKind::GdScene.is_derived_field("load_steps"));
    assert!(SectionKind::ExtResource.is_derived_field("id"));
    assert!(!SectionKind::Node.is_derived_field("id"));
}

#[test]
fn entity_descriptions_and_ranks() {
    assert_eq!(EntityId::Node(".".to_string()).describe(), "root node");
    assert_eq!(EntityId::Node("A/B".to_string()).describe(), "node A/B");
    assert_eq!(EntityId::Ext("uid://x".to_string()).describe(), "ext_resource uid://x");
    assert_eq!(
        EntityId::Connection("a".into(), "b".into(), "s".into(), "m".into()).describe(),
        "connection a.s -> b.m()"
    );
    let sub = EntityId::Sub("sub_resource#type=\"Shape\"\nsize=1".to_string()).describe();
    assert!(sub.starts_with("sub_resource Shape ("), "{sub}");
    assert_eq!(sub.chars().count(), "sub_resource Shape (12345678)".chars().count());
    assert_eq!(EntityId::Header.rank(), 0);
    assert_eq!(EntityId::Editable(String::new()).rank(), 6);
}

#[test]
fn the_fuzz_entry_points_accept_anything() {
    assert_eq!(tscn::fuzz::tokenize("[a = 1]"), 5);
    assert_eq!(tscn::fuzz::tokenize("\"open"), 0);
    let (text, ptrs) = tscn::fuzz::parse_value("[SubResource(\"a\"), NodePath(\"b\")]").expect("parses");
    assert!(text.contains("SubResource"));
    assert!(ptrs.refs.iter().all(|r| r.span.end <= 36) && ptrs.paths.iter().all(|p| p.span.end <= 36));
    assert_eq!(ptrs.refs.len(), 1);
    assert_eq!(ptrs.paths.len(), 1);
    assert!(tscn::fuzz::parse_value("Vector2(1, 2)").is_some());
    assert!(tscn::fuzz::parse_value("Vector2(1, ").is_none());
    assert!(tscn::fuzz::parse_document(SCENE));
    assert!(!tscn::fuzz::parse_document("nonsense"));
}

#[test]
fn error_columns_count_utf8_bytes() {
    let src: Vec<char> = "éa\nbc".chars().collect();
    let e = tscn::ParseError::new(&src, 1, tscn::ParseErrorKind::TrailingGarbage);
    assert_eq!((e.line, e.column), (1, 3));
    let e = tscn::ParseError::new(&src, 4, tscn::ParseErrorKind::TrailingGarbage);
    assert_eq!((e.line, e.column), (2, 2));
    let e = tscn::ParseError::new(&src, 99, tscn::ParseErrorKind::TrailingGarbage);
    assert_eq!((e.line, e.column), (2, 3));
}
