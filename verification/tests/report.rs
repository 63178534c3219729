use tscn::{plain, table, Conflict, ConflictRow, MergeOptions, MergeOutcome};

fn conflict() -> Conflict {
    Conflict {
        entity: "node Hero".to_string(),
        detail: "speed changed on both sides".to_string(),
        rows: vec![
            ConflictRow {
                key: "speed".to_string(),
                base: Some("100.0".to_string()),
                ours: Some("200.0".to_string()),
                theirs: Some("250.0".to_string()),
                differs: true,
            },
            ConflictRow {
                key: "name".to_string(),
                base: Some("\"Hero\"".to_string()),
                ours: Some("\"Hero\"".to_string()),
                theirs: None,
                differs: false,
            },
        ],
    }
}

#[test]
fn plain_lists_only_the_rows_that_differ() {
    assert_eq!(
        plain(&vec![conflict()]),
        "gdmerge: conflict in node Hero (speed changed on both sides)\n\
         gdmerge:   speed: ours 200.0 / theirs 250.0\n"
    );
}

#[test]
fn table_lays_the_sides_out_in_columns() {
    let out = table(&vec![conflict()]);
    let expected = [
        "Conflict 1 of 1: node Hero\n",
        "  speed changed on both sides\n",
        "\n",
        "     property  base    ours    theirs\n",
        "     --------  ------  ------  --------\n",
        "  >  speed     100.0   200.0   250.0\n",
        "     name      \"Hero\"  \"Hero\"  (absent)\n",
        "\n",
        "Rows marked with > are the ones to resolve. Edit the file, remove the conflict\n",
        "markers, then stage it.\n",
    ]
    .join("");
    assert_eq!(out, expected);
    assert_eq!(table(&vec![]), "");
}

#[test]
fn an_outcome_without_conflicts_is_clean() {
    let outcome = MergeOutcome { text: String::new(), conflicts: vec![] };
    assert!(outcome.is_clean());
    let options = MergeOptions::default();
    assert_eq!((options.ours_label.as_str(), options.theirs_label.as_str(), options.marker_size), ("ours", "theirs", 7));
}
