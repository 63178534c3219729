//! Structural checks that are not about `NodePath` values.
use tscn::{Document, Severity};

fn issues(src: &str, severity: Severity) -> Vec<String> {
    let doc = Document::parse(src).unwrap_or_else(|e| panic!("parse failed: {}\n{src}", e.message()));
    tscn::check(&doc, src)
        .issues
        .iter()
        .filter(|i| i.severity == severity)
        .map(|i| i.message.clone())
        .collect()
}

fn errors(src: &str) -> Vec<String> {
    issues(src, Severity::Error)
}

fn warnings(src: &str) -> Vec<String> {
    issues(src, Severity::Warning)
}

const HEADER: &str =
    "[gd_scene format=3 uid=\"uid://check\"]\n\n[node name=\"Root\" type=\"Node2D\"]\n\n";

fn siblings(a: &str, b: &str) -> String {
    format!(
        "{HEADER}[node name=\"A\" type=\"Node\" parent=\".\" {a}]\n\n\
         [node name=\"B\" type=\"Node\" parent=\".\" {b}]\n"
    )
}

#[test]
fn colliding_quoted_sibling_indices_are_an_error() {
    let errors = errors(&siblings("index=\"0\"", "index=\"0\""));
    assert_eq!(errors, vec!["2 children of \".\" share index 0".to_string()]);
}

#[test]
fn colliding_bare_sibling_indices_are_an_error() {
    let errors = errors(&siblings("index=0", "index=0"));
    assert_eq!(errors, vec!["2 children of \".\" share index 0".to_string()]);
}

#[test]
fn a_quoted_and_a_bare_index_collide_when_they_name_the_same_slot() {
    let errors = errors(&siblings("index=\"0\"", "index=0"));
    assert_eq!(errors, vec!["2 children of \".\" share index 0".to_string()]);
}

#[test]
fn sibling_indices_that_godot_reads_as_the_same_number_collide() {
    let expected = vec!["2 children of \".\" share index 0".to_string()];
    assert_eq!(errors(&siblings("index=\"abc\"", "index=\"abc\"")), expected);
    assert_eq!(errors(&siblings("index=\"abc\"", "index=\"0\"")), expected);
}

#[test]
fn quoted_indices_that_read_as_different_numbers_are_accepted() {
    assert!(errors(&siblings("index=\"-1\"", "index=\"1\"")).is_empty());
}

#[test]
fn distinct_sibling_indices_are_accepted() {
    assert!(errors(&siblings("index=\"0\"", "index=\"1\"")).is_empty());
}

#[test]
fn the_same_index_under_different_parents_is_accepted() {
    let src = format!(
        "{HEADER}[node name=\"A\" type=\"Node\" parent=\".\"]\n\n\
         [node name=\"B\" type=\"Node\" parent=\".\"]\n\n\
         [node name=\"C\" type=\"Node\" parent=\"A\" index=\"0\"]\n\n\
         [node name=\"D\" type=\"Node\" parent=\"B\" index=\"0\"]\n"
    );
    assert!(errors(&src).is_empty());
}

#[test]
fn a_quoted_load_steps_is_checked_for_staleness() {
    let src = "[gd_scene load_steps=\"99\" format=3]\n\n[node name=\"Root\" type=\"Node2D\"]\n";
    assert_eq!(warnings(src), vec!["load_steps is 99 but should be 1".to_string()]);
    assert!(errors(src).is_empty());
}

#[test]
fn a_quoted_load_steps_that_is_right_is_accepted() {
    let src = "[gd_scene load_steps=\"1\" format=3]\n\n[node name=\"Root\" type=\"Node2D\"]\n";
    assert!(warnings(src).is_empty(), "{:?}", warnings(src));
    assert!(errors(src).is_empty());
}

const SHAPE: &str = "[gd_scene load_steps=2 format=3]\n\n\
                     [sub_resource type=\"RectangleShape2D\" id=\"1\"]\n\
                     size = Vector2(1, 1)\n\n\
                     [node name=\"Root\" type=\"CollisionShape2D\"]\n";

#[test]
fn a_legacy_reference_to_a_quoted_declaration_is_an_error() {
    let errors = errors(&format!("{SHAPE}shape = SubResource( 1 )\n"));
    assert_eq!(
        errors,
        vec!["SubResource(1) uses the Godot 3 unquoted id form; Godot 4 quotes resource ids"
            .to_string()]
    );
}

#[test]
fn a_quoted_reference_to_a_quoted_declaration_is_accepted() {
    assert!(errors(&format!("{SHAPE}shape = SubResource(\"1\")\n")).is_empty());
}

#[test]
fn a_dangling_reference_is_an_error() {
    let errors = errors(&format!("{SHAPE}shape = SubResource(\"2\")\n"));
    assert_eq!(errors, vec!["dangling SubResource(\"2\") reference".to_string()]);
}

#[test]
fn a_legacy_declaration_is_reported_with_its_number() {
    let src = "[gd_scene load_steps=2 format=3]\n\n\
               [sub_resource type=\"RectangleShape2D\" id=1]\n\n\
               [node name=\"Root\" type=\"Node2D\"]\n";
    assert_eq!(
        errors(src),
        vec!["[sub_resource id=1] uses the Godot 3 unquoted id form; Godot 4 quotes resource ids"
            .to_string()]
    );
}

#[test]
fn declarations_missing_their_fields_are_errors() {
    let src = "[gd_scene load_steps=3 format=3]\n\n\
               [ext_resource type=\"Script\" id=\"1_a\"]\n\n\
               [sub_resource id=\"2\"]\n\n\
               [sub_resource type=\"Shape\" id=\"2\"]\n\n\
               [node type=\"Node2D\"]\n\n\
               [connection signal=\"pressed\" to=\".\"]\n";
    let errs = errors(src);
    assert_eq!(
        errs,
        vec![
            "[ext_resource id=\"1_a\"] has no path".to_string(),
            "[sub_resource id=\"2\"] has no type".to_string(),
            "duplicate sub_resource id \"2\"".to_string(),
            "[node] has no name".to_string(),
            "[connection] is missing 'from'".to_string(),
            "[connection] is missing 'method'".to_string(),
        ]
    );
}

#[test]
fn root_count_and_parents_are_checked() {
    let src = "[gd_scene format=3]\n\n\
               [node name=\"A\" type=\"Node\"]\n\n\
               [node name=\"B\" type=\"Node\"]\n\n\
               [node name=\"C\" type=\"Node\" parent=\"Nowhere\"]\n\n\
               [node name=\"C\" type=\"Node\" parent=\"Nowhere\"]\n";
    assert_eq!(
        errors(src),
        vec![
            "duplicate node path \".\"".to_string(),
            "duplicate node path \"Nowhere/C\"".to_string(),
            "scene has 2 root nodes; exactly one is allowed".to_string(),
            "node \"Nowhere/C\" has parent \"Nowhere\", which is not a node in this file".to_string(),
            "node \"Nowhere/C\" has parent \"Nowhere\", which is not a node in this file".to_string(),
        ]
    );
}

#[test]
fn a_parent_inside_an_instanced_scene_is_accepted() {
    let src = "[gd_scene load_steps=2 format=3]\n\n\
               [ext_resource type=\"PackedScene\" path=\"res://e.tscn\" id=\"1_e\"]\n\n\
               [node name=\"Root\" type=\"Node2D\"]\n\n\
               [node name=\"Enemy\" parent=\".\" instance=ExtResource(\"1_e\")]\n\n\
               [node name=\"Extra\" type=\"Node\" parent=\"Enemy/Body\"]\n";
    assert!(errors(src).is_empty(), "{:?}", errors(src));
}

#[test]
fn godot_reads_integers_the_way_string_to_int_does() {
    assert_eq!(tscn::godot_int("42"), 42);
    assert_eq!(tscn::godot_int("-7"), -7);
    assert_eq!(tscn::godot_int("abc"), 0);
    assert_eq!(tscn::godot_int("1.9"), 1);
    assert_eq!(tscn::godot_int("a1b2"), 12);
    assert_eq!(tscn::godot_int("99999999999999999999"), i64::MAX);
    assert_eq!(tscn::godot_int("-99999999999999999999"), i64::MIN);
}
