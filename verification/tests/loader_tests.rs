use yaml_expand::loader::{build_replacements, txt_stem, LoadError};

fn files(entries: &[(&str, &[&str])]) -> Vec<(String, Vec<String>)> {
    entries
        .iter()
        .map(|(stem, lines)| {
            (
                stem.to_string(),
                lines.iter().map(|l| l.to_string()).collect(),
            )
        })
        .collect()
}

#[test]
fn lines_are_trimmed_and_keyed_by_wrapped_stem() {
    let loaded = build_replacements(&files(&[("color", &["red", " blue "])])).unwrap();

    assert_eq!(
        loaded,
        vec![(
            "%color%".to_string(),
            vec!["red".to_string(), "blue".to_string()]
        )]
    );
}

#[test]
fn no_files_at_all_is_the_not_found_error() {
    let loaded = build_replacements(&files(&[]));

    assert_eq!(loaded, Err(LoadError::NoReplacementsFound));
}

#[test]
fn only_empty_files_is_the_not_found_error() {
    let loaded = build_replacements(&files(&[("color", &[])]));

    assert_eq!(loaded, Err(LoadError::NoReplacementsFound));
}

#[test]
fn empty_files_are_skipped_but_others_kept() {
    let loaded = build_replacements(&files(&[("a", &[]), ("b", &["v"])])).unwrap();

    assert_eq!(loaded, vec![("%b%".to_string(), vec!["v".to_string()])]);
}

#[test]
fn lines_that_trim_to_nothing_are_kept() {
    let loaded = build_replacements(&files(&[("a", &["", "  "])])).unwrap();

    assert_eq!(
        loaded,
        vec![("%a%".to_string(), vec![String::new(), String::new()])]
    );
}

#[test]
fn entries_keep_directory_order() {
    let loaded =
        build_replacements(&files(&[("one", &["1"]), ("two", &["2"]), ("three", &["3"])]))
            .unwrap();

    let keys: Vec<&str> = loaded.iter().map(|(k, _)| k.as_str()).collect();
    assert_eq!(keys, vec!["%one%", "%two%", "%three%"]);
}

#[test]
fn txt_names_give_their_stem() {
    assert_eq!(txt_stem("color.txt"), Some("color".to_string()));
    assert_eq!(txt_stem("a.b.txt"), Some("a.b".to_string()));
}

#[test]
fn other_names_give_no_stem() {
    assert_eq!(txt_stem("notes.md"), None);
    assert_eq!(txt_stem(".txt"), None);
    assert_eq!(txt_stem("txt"), None);
    assert_eq!(txt_stem("color.txt.bak"), None);
}
