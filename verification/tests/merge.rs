//! The semantic diff and the three-way merge, end to end through the library.

use tscn::{Change, Document, MergeOptions, NumberForms};

/// The canonical spelling of a number literal: the shortest text that reads
/// back as the same `f64`, with `-0` folded into `0`.
fn number_form(literal: &str) -> String {
    match literal.parse::<f64>() {
        Ok(n) if n == 0.0 => "0.0".to_string(),
        Ok(n) => format!("{n:?}"),
        Err(_) => literal.to_string(),
    }
}

fn forms(docs: &[&Document]) -> NumberForms {
    let mut forms = Vec::new();
    for doc in docs {
        for literal in tscn::number_literals(doc) {
            let form = number_form(&literal);
            forms.push((literal, form));
        }
    }
    NumberForms { forms }
}

fn doc(src: &str) -> Document {
    Document::parse(src).unwrap_or_else(|e| panic!("parse failed: {e:?}\n{src}"))
}

fn merged(base: &str, ours: &str, theirs: &str) -> tscn::MergeOutcome {
    let (b, o, t) = (doc(base), doc(ours), doc(theirs));
    let nums = forms(&[&b, &o, &t]);
    tscn::merge(&b, &o, &t, &MergeOptions::default(), &nums)
}

fn diffed(before: &str, after: &str) -> tscn::Diff {
    let (a, b) = (doc(before), doc(after));
    let nums = forms(&[&a, &b]);
    tscn::diff(&a, &b, &nums)
}

const BASE: &str = "\
[gd_scene load_steps=2 format=3 uid=\"uid://cli_demo\"]

[ext_resource type=\"Texture2D\" uid=\"uid://tex_ground\" path=\"res://ground.png\" id=\"1_ground\"]

[node name=\"Level\" type=\"Node2D\"]

[node name=\"Ground\" type=\"Sprite2D\" parent=\".\"]
texture = ExtResource(\"1_ground\")
";

// Both branches add a resource in the same place, and Godot happened to mint the
// same id for each.
const OURS: &str = "\
[gd_scene load_steps=3 format=3 uid=\"uid://cli_demo\"]

[ext_resource type=\"Texture2D\" uid=\"uid://tex_ground\" path=\"res://ground.png\" id=\"1_ground\"]
[ext_resource type=\"Texture2D\" uid=\"uid://tex_player\" path=\"res://player.png\" id=\"2_added\"]

[node name=\"Level\" type=\"Node2D\"]

[node name=\"Ground\" type=\"Sprite2D\" parent=\".\"]
texture = ExtResource(\"1_ground\")

[node name=\"Player\" type=\"Sprite2D\" parent=\".\"]
texture = ExtResource(\"2_added\")
";

const THEIRS: &str = "\
[gd_scene load_steps=3 format=3 uid=\"uid://cli_demo\"]

[ext_resource type=\"Texture2D\" uid=\"uid://tex_ground\" path=\"res://ground.png\" id=\"1_ground\"]
[ext_resource type=\"AudioStream\" uid=\"uid://snd_step\" path=\"res://step.ogg\" id=\"2_added\"]

[node name=\"Level\" type=\"Node2D\"]

[node name=\"Ground\" type=\"Sprite2D\" parent=\".\"]
texture = ExtResource(\"1_ground\")

[node name=\"Steps\" type=\"AudioStreamPlayer\" parent=\".\"]
stream = ExtResource(\"2_added\")
";

#[test]
fn diff_reports_semantic_changes() {
    let d = diffed(BASE, OURS);
    let added: Vec<&str> = d
        .changes
        .iter()
        .filter_map(|c| match c {
            Change::Added { entity, .. } => Some(entity.as_str()),
            _ => None,
        })
        .collect();
    assert_eq!(added, vec!["ext_resource uid://tex_player", "node Player"]);
    assert_eq!(d.changes.len(), 2, "{:?}", d.changes);
}

#[test]
fn diff_of_identical_files_is_empty() {
    assert!(diffed(BASE, BASE).is_empty());
}

#[test]
fn merge_resolves_colliding_resource_ids() {
    let outcome = merged(BASE, OURS, THEIRS);
    assert!(outcome.is_clean(), "{:?}", outcome.conflicts);
    let expected = "\
[gd_scene load_steps=4 format=3 uid=\"uid://cli_demo\"]

[ext_resource type=\"Texture2D\" uid=\"uid://tex_ground\" path=\"res://ground.png\" id=\"1_ground\"]
[ext_resource type=\"AudioStream\" uid=\"uid://snd_step\" path=\"res://step.ogg\" id=\"2_gdm0\"]
[ext_resource type=\"Texture2D\" uid=\"uid://tex_player\" path=\"res://player.png\" id=\"2_added\"]

[node name=\"Level\" type=\"Node2D\"]

[node name=\"Ground\" type=\"Sprite2D\" parent=\".\"]
texture = ExtResource(\"1_ground\")

[node name=\"Steps\" type=\"AudioStreamPlayer\" parent=\".\"]
stream = ExtResource(\"2_gdm0\")

[node name=\"Player\" type=\"Sprite2D\" parent=\".\"]
texture = ExtResource(\"2_added\")
";
    assert_eq!(outcome.text, expected);
    // The two resources arrived with the same id; exactly one keeps it.
    assert_eq!(outcome.text.matches("id=\"2_added\"").count(), 1);
}

#[test]
fn merge_conflicts_are_localised() {
    let ours = BASE.replace(
        "[node name=\"Level\" type=\"Node2D\"]",
        "[node name=\"Level\" type=\"Node2D\"]\nrotation = 1.0",
    );
    let theirs = BASE.replace(
        "[node name=\"Level\" type=\"Node2D\"]",
        "[node name=\"Level\" type=\"Node2D\"]\nrotation = 2.0",
    );
    let outcome = merged(BASE, &ours, &theirs);
    assert!(!outcome.is_clean());
    assert_eq!(outcome.conflicts.len(), 1);
    assert_eq!(outcome.conflicts[0].entity, "root node \"Level\"");
    assert_eq!(outcome.conflicts[0].detail, "rotation changed differently on both sides");
    // The conflict lays the whole node out, one item per row.
    let rows = &outcome.conflicts[0].rows;
    let keys: Vec<&str> = rows.iter().map(|r| r.key.as_str()).collect();
    assert_eq!(keys, vec!["name", "type", "rotation"]);
    assert!(!rows[0].differs && !rows[1].differs && rows[2].differs);
    assert_eq!(rows[2].base, None);
    assert_eq!(rows[2].ours.as_deref(), Some("1.0"));
    assert_eq!(rows[2].theirs.as_deref(), Some("2.0"));
    assert_eq!(rows[0].base.as_deref(), Some("\"Level\""));
    assert!(outcome.text.contains("<<<<<<< ours\n[node name=\"Level\" type=\"Node2D\"]\nrotation = 1.0\n=======\n"));
    assert!(outcome.text.contains("rotation = 2.0\n>>>>>>> theirs"));
    // Only the conflicting node is wrapped; the untouched node stays clean.
    assert!(outcome.text.contains("\n\n[node name=\"Ground\" type=\"Sprite2D\" parent=\".\"]\n"));
}

#[test]
fn conflict_markers_follow_the_options() {
    let ours = BASE.replace("[node name=\"Level\" type=\"Node2D\"]", "[node name=\"Level\" type=\"Node2D\"]\nx = 1");
    let theirs = BASE.replace("[node name=\"Level\" type=\"Node2D\"]", "[node name=\"Level\" type=\"Node2D\"]\nx = 2");
    let (b, o, t) = (doc(BASE), doc(&ours), doc(&theirs));
    let opts = MergeOptions { ours_label: "HEAD".to_string(), theirs_label: "feature".to_string(), marker_size: 3 };
    let outcome = tscn::merge(&b, &o, &t, &opts, &forms(&[&b, &o, &t]));
    assert!(outcome.text.contains("<<< HEAD\n"));
    assert!(outcome.text.contains("\n===\n"));
    assert!(outcome.text.contains("\n>>> feature"));
}

#[test]
fn disjoint_edits_of_one_node_merge() {
    let ours = BASE.replace("texture = ExtResource(\"1_ground\")", "texture = ExtResource(\"1_ground\")\nposition = Vector2(1, 2)");
    let theirs = BASE.replace("[node name=\"Ground\" type=\"Sprite2D\" parent=\".\"]", "[node name=\"Ground\" type=\"Sprite2D\" parent=\".\" visible=false]");
    let outcome = merged(BASE, &ours, &theirs);
    assert!(outcome.is_clean(), "{:?}", outcome.conflicts);
    assert!(outcome.text.contains("[node name=\"Ground\" type=\"Sprite2D\" parent=\".\" visible=false]\ntexture = ExtResource(\"1_ground\")\nposition = Vector2(1, 2)\n"), "{}", outcome.text);
}

#[test]
fn a_delete_against_a_modify_conflicts() {
    let ours = BASE.replace("[node name=\"Ground\" type=\"Sprite2D\" parent=\".\"]\ntexture = ExtResource(\"1_ground\")\n", "");
    let ours = ours.trim_end().to_string() + "\n";
    let theirs = BASE.replace("texture = ExtResource(\"1_ground\")", "texture = ExtResource(\"1_ground\")\nz_index = 3");
    let outcome = merged(BASE, &ours, &theirs);
    assert_eq!(outcome.conflicts.len(), 1);
    assert_eq!(outcome.conflicts[0].entity, "node Ground");
    assert_eq!(outcome.conflicts[0].detail, "deleted by ours, modified by theirs");
    assert!(outcome.text.contains("<<<<<<< ours\n=======\n[node name=\"Ground\""), "{}", outcome.text);
}

#[test]
fn a_delete_of_an_untouched_entity_merges() {
    let ours = BASE.replace("[node name=\"Ground\" type=\"Sprite2D\" parent=\".\"]\ntexture = ExtResource(\"1_ground\")\n", "");
    let ours = ours.trim_end().to_string() + "\n";
    let theirs = BASE.replace("[node name=\"Level\" type=\"Node2D\"]", "[node name=\"Level\" type=\"Node2D\"]\nscale = Vector2(2, 2)");
    let outcome = merged(BASE, &ours, &theirs);
    assert!(outcome.is_clean(), "{:?}", outcome.conflicts);
    assert!(!outcome.text.contains("Ground\""), "{}", outcome.text);
    assert!(outcome.text.contains("scale = Vector2(2, 2)"), "{}", outcome.text);
}

#[test]
fn numbers_compare_by_value() {
    let before = "[gd_scene format=3]\n\n[node name=\"R\" type=\"Node\"]\nx = 1\ny = 0.50\n";
    let after = "[gd_scene format=3]\n\n[node name=\"R\" type=\"Node\"]\nx = 1.0\ny = 5e-1\n";
    assert!(diffed(before, after).is_empty());
    let changed = "[gd_scene format=3]\n\n[node name=\"R\" type=\"Node\"]\nx = 1.5\ny = 0.5\n";
    let d = diffed(before, changed);
    assert_eq!(d.changes.len(), 1);
    match &d.changes[0] {
        Change::Modified { entity, fields, properties, .. } => {
            assert_eq!(entity, "root node \"R\"");
            assert!(fields.is_empty());
            assert_eq!(properties.len(), 1);
            assert_eq!(properties[0].key, "x");
            assert_eq!(properties[0].before.as_deref(), Some("1"));
            assert_eq!(properties[0].after.as_deref(), Some("1.5"));
        }
        other => panic!("expected a modification, got {other:?}"),
    }
}

#[test]
fn a_resource_id_alone_is_no_change() {
    let after = BASE.replace("1_ground", "7_other");
    assert!(diffed(BASE, &after).is_empty());
}

#[test]
fn a_reordering_among_siblings_is_reported() {
    let before = "[gd_scene format=3]\n\n[node name=\"R\" type=\"Node\"]\n\n[node name=\"A\" type=\"Node\" parent=\".\"]\n\n[node name=\"B\" type=\"Node\" parent=\".\"]\n";
    let after = "[gd_scene format=3]\n\n[node name=\"R\" type=\"Node\"]\n\n[node name=\"B\" type=\"Node\" parent=\".\"]\n\n[node name=\"A\" type=\"Node\" parent=\".\"]\n";
    let d = diffed(before, after);
    let moves: Vec<(String, usize, usize)> = d
        .changes
        .iter()
        .filter_map(|c| match c {
            Change::Reordered { entity, from, to, .. } => Some((entity.clone(), *from, *to)),
            _ => None,
        })
        .collect();
    assert_eq!(moves, vec![("node A".to_string(), 1, 2), ("node B".to_string(), 2, 1)]);
}

#[test]
fn crlf_files_merge_with_crlf_separators() {
    let base = BASE.replace('\n', "\r\n");
    let ours = OURS.replace('\n', "\r\n");
    let theirs = THEIRS.replace('\n', "\r\n");
    let outcome = merged(&base, &ours, &theirs);
    let lone_lf = outcome.text.as_bytes().windows(2).filter(|w| w[1] == b'\n' && w[0] != b'\r').count();
    assert_eq!(lone_lf, 0, "{}", outcome.text);
}

#[test]
fn an_unchanged_side_keeps_the_other_verbatim() {
    let outcome = merged(BASE, OURS, BASE);
    assert!(outcome.is_clean());
    assert_eq!(outcome.text, OURS);
    let outcome = merged(BASE, BASE, THEIRS);
    assert!(outcome.is_clean());
    assert_eq!(outcome.text, THEIRS);
}

const RENAME_BASE: &str = "\
[gd_scene format=3 uid=\"uid://rename\"]

[node name=\"Root\" type=\"Node2D\"]

[node name=\"Hero\" type=\"CharacterBody2D\" parent=\".\"]
speed = 100.0
";

const RENAMED: &str = "\
[gd_scene format=3 uid=\"uid://rename\"]

[node name=\"Root\" type=\"Node2D\"]

[node name=\"Player\" type=\"CharacterBody2D\" parent=\".\"]
speed = 100.0
";

const EDITED: &str = "\
[gd_scene format=3 uid=\"uid://rename\"]

[node name=\"Root\" type=\"Node2D\"]

[node name=\"Hero\" type=\"CharacterBody2D\" parent=\".\"]
speed = 250.0
";

#[test]
fn the_diff_reports_a_rename_as_a_move() {
    let d = diffed(RENAME_BASE, RENAMED);
    let moves: Vec<_> = d
        .changes
        .iter()
        .filter_map(|c| match c {
            Change::Moved { from, to, .. } => Some((from.clone(), to.clone())),
            _ => None,
        })
        .collect();
    assert_eq!(moves, vec![("node Hero".to_string(), "node Player".to_string())]);
}

/// Pairing is deliberately conservative: a branch that renames and edits in one
/// step is not matched, and the merge reports the delete against the modify.
#[test]
fn a_rename_combined_with_an_edit_is_not_matched() {
    let ours = RENAMED.replace("speed = 100.0", "speed = 175.0");
    let outcome = merged(RENAME_BASE, &ours, EDITED);
    assert!(!outcome.is_clean());
    assert!(
        outcome.conflicts.iter().any(|c| c.detail.contains("deleted by ours")),
        "{:?}",
        outcome.conflicts
    );
}

#[test]
fn a_rename_merges_with_an_edit_from_the_other_branch() {
    let outcome = merged(RENAME_BASE, RENAMED, EDITED);
    assert!(outcome.is_clean(), "{:?}", outcome.conflicts);
    assert!(outcome.text.contains("name=\"Player\""), "{}", outcome.text);
    assert!(outcome.text.contains("speed = 250.0"), "{}", outcome.text);
    assert!(!outcome.text.contains("Hero"), "the old name should be gone:\n{}", outcome.text);
}

/// The same merge with the sides swapped has to reach the same file.
#[test]
fn rename_and_edit_is_order_independent() {
    let forward = merged(RENAME_BASE, RENAMED, EDITED);
    let reverse = merged(RENAME_BASE, EDITED, RENAMED);
    assert!(reverse.is_clean(), "{:?}", reverse.conflicts);
    assert_eq!(forward.text, reverse.text);
}

#[test]
fn a_reparent_merges_with_an_edit_from_the_other_branch() {
    let base = "\
[gd_scene format=3 uid=\"uid://reparent\"]

[node name=\"Root\" type=\"Node2D\"]

[node name=\"Holder\" type=\"Node2D\" parent=\".\"]

[node name=\"Item\" type=\"Sprite2D\" parent=\".\"]
offset = Vector2(1, 1)
";
    let ours = base.replace(
        "name=\"Item\" type=\"Sprite2D\" parent=\".\"",
        "name=\"Item\" type=\"Sprite2D\" parent=\"Holder\"",
    );
    let theirs = base.replace("offset = Vector2(1, 1)", "offset = Vector2(8, 8)");

    let outcome = merged(base, &ours, &theirs);
    assert!(outcome.is_clean(), "{:?}", outcome.conflicts);
    assert!(outcome.text.contains("parent=\"Holder\""), "{}", outcome.text);
    assert!(outcome.text.contains("offset = Vector2(8, 8)"), "{}", outcome.text);
}

#[test]
fn renaming_to_two_different_names_conflicts() {
    let theirs = RENAMED.replace("Player", "Protagonist");
    let outcome = merged(RENAME_BASE, RENAMED, &theirs);
    assert!(!outcome.is_clean());
    assert_eq!(outcome.conflicts.len(), 1);
    assert_eq!(outcome.conflicts[0].detail, "renamed differently on both sides");
    assert!(outcome.text.contains("Player"), "{}", outcome.text);
    assert!(outcome.text.contains("Protagonist"), "{}", outcome.text);
}

/// Renaming a node moves everything under it, and everything that names it.
#[test]
fn renaming_a_parent_carries_its_subtree() {
    let base = "\
[gd_scene format=3 uid=\"uid://subtree\"]

[node name=\"Root\" type=\"Node2D\"]

[node name=\"Holder\" type=\"Node2D\" parent=\".\"]

[node name=\"Item\" type=\"Sprite2D\" parent=\"Holder\"]
offset = Vector2(1, 1)
";
    let ours = base
        .replace("name=\"Holder\"", "name=\"Box\"")
        .replace("parent=\"Holder\"", "parent=\"Box\"");
    let theirs = format!(
        "{base}\n[node name=\"Label\" type=\"Label\" parent=\"Holder\"]\ntext = \"hi\"\n\n\
         [connection signal=\"pressed\" from=\"Holder\" to=\".\" method=\"_on_pressed\"]\n\n\
         [editable path=\"Holder\"]\n"
    );

    let outcome = merged(base, &ours, &theirs);
    assert!(outcome.is_clean(), "{:?}", outcome.conflicts);
    // Everything that pointed at Holder now points at Box.
    assert!(!outcome.text.contains("Holder"), "a stale path survived:\n{}", outcome.text);
    assert!(
        outcome.text.contains("[node name=\"Label\" type=\"Label\" parent=\"Box\"]"),
        "{}",
        outcome.text
    );
    assert!(outcome.text.contains("from=\"Box\""), "{}", outcome.text);
    assert!(outcome.text.contains("[editable path=\"Box\"]"), "{}", outcome.text);

    // And the result is still a structurally sound scene.
    let parsed = Document::parse(&outcome.text).expect("merged output parses");
    let report = tscn::check(&parsed, &outcome.text);
    let errors: Vec<_> = report.errors().iter().map(|i| i.message.clone()).collect();
    assert!(errors.is_empty(), "{errors:?}");
}

/// A node added under a subtree the other branch renamed still lands in the
/// right place, which is what keeps the merged file loadable.
#[test]
fn an_added_child_follows_a_renamed_parent() {
    let base = "\
[gd_scene format=3 uid=\"uid://added\"]

[node name=\"Root\" type=\"Node2D\"]

[node name=\"Holder\" type=\"Node2D\" parent=\".\"]
";
    let ours = base.replace("name=\"Holder\"", "name=\"Box\"");
    let theirs = format!("{base}\n[node name=\"New\" type=\"Node2D\" parent=\"Holder\"]\n");

    let outcome = merged(base, &ours, &theirs);
    assert!(outcome.is_clean(), "{:?}", outcome.conflicts);
    assert!(outcome.text.contains("parent=\"Box\""), "{}", outcome.text);
    let parsed = Document::parse(&outcome.text).expect("merged output parses");
    assert!(!tscn::check(&parsed, &outcome.text).has_errors());
}

#[test]
fn conflicts_are_listed_by_entity() {
    let base = "[gd_scene format=3]\n\n[node name=\"R\" type=\"Node\"]\n\n[node name=\"B\" type=\"Node\" parent=\".\"]\n\n[node name=\"A\" type=\"Node\" parent=\".\"]\n";
    let ours = base.replace("parent=\".\"]", "parent=\".\"]\nx = 1");
    let theirs = base.replace("parent=\".\"]", "parent=\".\"]\nx = 2");
    let outcome = merged(base, &ours, &theirs);
    let entities: Vec<&str> = outcome.conflicts.iter().map(|c| c.entity.as_str()).collect();
    assert_eq!(entities, vec!["node A", "node B"]);
}

#[test]
fn number_literals_are_listed_in_file_order() {
    let d = doc("[gd_scene load_steps=2 format=3]\n\n[node name=\"R\" type=\"Node\"]\nv = Vector2(1.5, -2)\nl = [3, {\"k\": 4e2}]\n");
    assert_eq!(tscn::number_literals(&d), vec!["2", "3", "1.5", "-2", "3", "4e2"]);
}

#[test]
fn canonical_values_resolve_ids_and_spell_numbers() {
    let d = doc("[gd_scene format=3]\n\n[node name=\"R\" type=\"Node\"]\nv = [ExtResource(\"1_a\"), SubResource(\"x\"), 2, #FFaa00, &\"n\"]\n");
    let value = &d.sections[1].prop("v").unwrap().value;
    let ext = vec![("1_a".to_string(), "uid://a".to_string())];
    let sub = Vec::new();
    let nums = NumberForms { forms: vec![("2".to_string(), "2.0".to_string())] };
    assert_eq!(
        value.canonical(&ext, &sub, &nums),
        "[ExtResource(\"uid://a\"),SubResource(\"?x\"),2.0,#ffaa00,&\"n\"]"
    );
}

#[test]
fn swapping_the_branches_keeps_whether_and_how_often_it_conflicts() {
    let base = "[gd_scene format=3]\n\n[node name=\"R\" type=\"Node\"]\n\n[node name=\"B\" type=\"Node\" parent=\".\"]\nx = 0\n\n[node name=\"A\" type=\"Node\" parent=\".\"]\ny = 0\n";
    let ours = base.replace("x = 0", "x = 1").replace("y = 0", "y = 5");
    let theirs = base.replace("x = 0", "x = 2").replace("[node name=\"R\" type=\"Node\"]", "[node name=\"R\" type=\"Node\"]\nz = 3");
    let forward = merged(base, &ours, &theirs);
    let reverse = merged(base, &theirs, &ours);
    assert_eq!(forward.is_clean(), reverse.is_clean());
    assert_eq!(forward.conflicts.len(), 1);
    assert_eq!(reverse.conflicts.len(), 1);
    assert_eq!(forward.conflicts[0].entity, "node B");
}

#[test]
fn the_driver_hands_unparseable_or_invalid_inputs_to_a_text_merge() {
    assert!(matches!(tscn::mergeability("not a scene file\n"), Err(tscn::Unmergeable::Parse(_))));
    assert!(tscn::mergeability(BASE).is_ok());
    let dangling = BASE.replace("texture = ExtResource(\"1_ground\")", "texture = ExtResource(\"9_missing\")");
    assert!(matches!(tscn::mergeability(&dangling), Err(tscn::Unmergeable::FailsCheck(_))));
}

#[test]
fn the_driver_writes_a_merge_with_the_status_its_conflicts_give() {
    let clean = merged(BASE, OURS, BASE);
    assert_eq!(tscn::driver_step(&clean), tscn::DriverStep::Write { status: 0 });
    let ours = BASE.replace("[node name=\"Level\" type=\"Node2D\"]", "[node name=\"Level\" type=\"Node2D\"]\nx = 1");
    let theirs = BASE.replace("[node name=\"Level\" type=\"Node2D\"]", "[node name=\"Level\" type=\"Node2D\"]\nx = 2");
    let conflicted = merged(BASE, &ours, &theirs);
    assert_eq!(tscn::driver_step(&conflicted), tscn::DriverStep::Write { status: 1 });
    let broken = tscn::MergeOutcome { text: "garbage".to_string(), conflicts: Vec::new() };
    assert_eq!(tscn::driver_step(&broken), tscn::DriverStep::TextMerge);
    assert_eq!(tscn::fallback_status(0), 0);
    assert_eq!(tscn::fallback_status(3), 1);
}

#[test]
fn several_clashing_items_are_all_named() {
    let base = "[gd_scene format=3]\n\n[node name=\"R\" type=\"Node\"]\na = 0\nb = 0\n";
    let ours = base.replace("a = 0\nb = 0", "a = 1\nb = 1");
    let theirs = base.replace("a = 0\nb = 0", "a = 2\nb = 2");
    let outcome = merged(base, &ours, &theirs);
    assert_eq!(outcome.conflicts.len(), 1);
    assert_eq!(outcome.conflicts[0].detail, "a, b changed differently on both sides");
}

#[test]
fn a_delete_against_a_modify_carries_the_rows_of_the_side_that_kept_it() {
    let base = "[gd_scene format=3]\n\n[node name=\"R\" type=\"Node\"]\n\n[node name=\"A\" type=\"Node\" parent=\".\"]\nx = 0\n";
    let ours = base.replace("x = 0", "x = 5");
    let theirs = base.replace("\n\n[node name=\"A\" type=\"Node\" parent=\".\"]\nx = 0", "");
    let outcome = merged(base, &ours, &theirs);
    assert_eq!(outcome.conflicts.len(), 1);
    let x = outcome.conflicts[0].rows.iter().find(|r| r.key == "x").expect("a row for x");
    assert_eq!((x.base.as_deref(), x.ours.as_deref(), x.theirs.as_deref(), x.differs), (Some("0"), Some("5"), None, true));
}

#[test]
fn tables_that_resolve_alike_give_the_same_canonical_form() {
    let v = tscn::Value::Array(vec![
        tscn::Value::Call { name: "ExtResource".to_string(), args: vec![tscn::Value::Str("1_a".to_string())] },
        tscn::Value::Num("2".to_string()),
    ]);
    let one = vec![("1_a".to_string(), "uid://x".to_string())];
    let two = vec![("1_a".to_string(), "uid://old".to_string()), ("1_a".to_string(), "uid://x".to_string())];
    let sub: Vec<(String, String)> = Vec::new();
    let nums = NumberForms::none();
    assert_eq!(v.canonical(&one, &sub, &nums), v.canonical(&two, &sub, &nums));
    let other = vec![("1_a".to_string(), "uid://y".to_string())];
    assert_ne!(v.canonical(&one, &sub, &nums), v.canonical(&other, &sub, &nums));
}
