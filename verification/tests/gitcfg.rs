//! Adding and removing the attribute rules.
use tscn::{add_rules, remove_rules};

#[test]
fn rules_are_appended_after_existing_content() {
    assert_eq!(
        add_rules("*.png binary").unwrap(),
        "*.png binary\n\n# gdmerge\n*.tscn merge=gdmerge\n*.tres merge=gdmerge\n"
    );
    assert_eq!(add_rules("").unwrap(), "# gdmerge\n*.tscn merge=gdmerge\n*.tres merge=gdmerge\n");
}

#[test]
fn rules_already_present_are_not_added_twice() {
    assert_eq!(add_rules("  *.tres merge=gdmerge\r\n*.tscn merge=gdmerge\n"), None);
    assert!(add_rules("*.tscn merge=gdmerge\n").is_some());
}

#[test]
fn removing_takes_out_only_the_rules() {
    let added = add_rules("*.png binary\n").unwrap();
    assert_eq!(remove_rules(&added).unwrap(), "*.png binary\n");
    assert_eq!(remove_rules("*.png binary\n"), None);
    assert_eq!(remove_rules("# gdmerge\n*.tscn merge=gdmerge\n\n").unwrap(), "");
}
