//! Pairing renamed and reparented nodes across versions of a document.

use tscn::{Alignment, Document, EntityId, NumberForms, Scene, Which};

fn doc(src: &str) -> Document {
    Document::parse(src).unwrap_or_else(|e| panic!("parse failed: {e:?}\n{src}"))
}

const BASE: &str = "\
[gd_scene format=3 uid=\"uid://rename\"]

[node name=\"Root\" type=\"Node2D\"]

[node name=\"Hero\" type=\"CharacterBody2D\" parent=\".\"]
speed = 100.0

[node name=\"Hat\" type=\"Sprite2D\" parent=\"Hero\"]
";

fn renamed(to: &str) -> String {
    BASE.replace("name=\"Hero\"", &format!("name=\"{to}\"")).replace("parent=\"Hero\"", &format!("parent=\"{to}\""))
}

#[test]
fn a_rename_is_a_move_of_the_node_and_its_children() {
    let nums = NumberForms::none();
    let (a, b) = (doc(BASE), doc(&renamed("Player")));
    let (sa, sb) = (Scene::new(&a, &nums), Scene::new(&b, &nums));
    let moves = tscn::node_moves(&sa, &sb);
    assert_eq!(
        moves,
        vec![
            ("Hero".to_string(), "Player".to_string()),
            ("Hero/Hat".to_string(), "Player/Hat".to_string()),
        ]
    );
}

#[test]
fn an_edited_node_is_not_paired() {
    let nums = NumberForms::none();
    let edited = renamed("Player").replace("speed = 100.0", "speed = 7.0");
    let (a, b) = (doc(BASE), doc(&edited));
    let (sa, sb) = (Scene::new(&a, &nums), Scene::new(&b, &nums));
    assert_eq!(tscn::node_moves(&sa, &sb), vec![("Hero/Hat".to_string(), "Player/Hat".to_string())]);
}

#[test]
fn the_alignment_maps_each_side_into_the_merged_naming() {
    let nums = NumberForms::none();
    let (b, o, t) = (doc(BASE), doc(&renamed("Player")), doc(BASE));
    let (sb, so, st) = (Scene::new(&b, &nums), Scene::new(&o, &nums), Scene::new(&t, &nums));
    let al = Alignment::new(&sb, &so, &st);
    assert_eq!(
        al.renames(),
        vec![
            ("Hero".to_string(), "Player".to_string()),
            ("Hero/Hat".to_string(), "Player/Hat".to_string()),
        ]
    );
    assert!(!al.is_contested("Hero"));
    assert_eq!(al.path(Which::Theirs, "Hero"), "Player");
    assert_eq!(al.path(Which::Ours, "Player"), "Player");
    // A path with no entry of its own follows its nearest mapped ancestor.
    assert_eq!(al.path(Which::Theirs, "Hero/Hat/Feather"), "Player/Hat/Feather");
    assert_eq!(al.path(Which::Theirs, "Elsewhere"), "Elsewhere");
    assert_eq!(al.path(Which::Theirs, "."), ".");
    let conn = EntityId::Connection("Hero".into(), ".".into(), "hit".into(), "_on_hit".into());
    assert_eq!(
        al.id(Which::Theirs, &conn),
        EntityId::Connection("Player".into(), ".".into(), "hit".into(), "_on_hit".into())
    );
    assert_eq!(al.id(Which::Base, &EntityId::Node("Hero".into())), EntityId::Node("Player".into()));
    assert_eq!(al.id(Which::Base, &EntityId::Header), EntityId::Header);
}

#[test]
fn two_different_renames_contest_the_node_and_ours_wins() {
    let nums = NumberForms::none();
    let (b, o, t) = (doc(BASE), doc(&renamed("Player")), doc(&renamed("Protagonist")));
    let (sb, so, st) = (Scene::new(&b, &nums), Scene::new(&o, &nums), Scene::new(&t, &nums));
    let al = Alignment::new(&sb, &so, &st);
    assert!(al.is_contested("Hero"));
    assert_eq!(al.path(Which::Base, "Hero"), "Player");
    assert_eq!(al.path(Which::Theirs, "Protagonist"), "Player");
    assert!(al.renamed_apart(&EntityId::Node("Player".to_string())));
    assert!(al.renamed_apart(&EntityId::Node("Player/Hat".to_string())));
    assert!(!al.renamed_apart(&EntityId::Node(".".to_string())));
    assert!(!al.renamed_apart(&EntityId::Node("Hero".to_string())));
}
