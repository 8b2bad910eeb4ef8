use yaml_expand::document::Document;
use yaml_expand::expand::{process_value, process_yaml};

fn s(text: &str) -> Document {
    Document::Str(text.to_string())
}

fn pair(key: &str, value: Document) -> (Document, Document) {
    (s(key), value)
}

fn reps(entries: &[(&str, &[&str])]) -> Vec<(String, Vec<String>)> {
    entries
        .iter()
        .map(|(token, values)| {
            (
                token.to_string(),
                values.iter().map(|v| v.to_string()).collect(),
            )
        })
        .collect()
}

#[test]
fn test_process_yaml() {
    let doc = Document::Mapping(vec![
        pair("key1", s("value1")),
        pair("key2|expand", s("test%placeholder%")),
        pair(
            "key3",
            Document::Mapping(vec![
                pair("subkey1|expand", s("%placeholder%")),
                pair("subkey2", s("subvalue2")),
            ]),
        ),
        pair("key4|expand", Document::Sequence(vec![s("item1")])),
    ]);
    let replacements = reps(&[("%placeholder%", &["replace_value1", "replace_value2"])]);

    let processed_yaml = process_yaml(&doc, &replacements);

    let expected = Document::Mapping(vec![
        pair("key1", s("value1")),
        pair(
            "key2",
            Document::Sequence(vec![s("testreplace_value1"), s("testreplace_value2")]),
        ),
        pair(
            "key3",
            Document::Mapping(vec![
                pair(
                    "subkey1",
                    Document::Sequence(vec![s("replace_value1"), s("replace_value2")]),
                ),
                pair("subkey2", s("subvalue2")),
            ]),
        ),
        pair("key4", Document::Sequence(vec![s("item1")])),
    ]);
    assert!(processed_yaml.1);
    assert_eq!(processed_yaml.0, expected);
}

#[test]
fn test_process_value() {
    let doc = Document::Mapping(vec![pair("key2|expand", s("test%placeholder%"))]);
    let replacements = reps(&[("%placeholder%", &["replace_value1", "replace_value2"])]);

    let value = match &doc {
        Document::Mapping(pairs) => &pairs[0].1,
        _ => panic!("not a mapping"),
    };
    let processed_value = process_value(value, &replacements);

    let expected_value =
        Document::Sequence(vec![s("testreplace_value1"), s("testreplace_value2")]);
    assert_eq!(processed_value, expected_value);
}

#[test]
fn untagged_document_is_unchanged_with_false_flags() {
    let doc = Document::Mapping(vec![
        pair("alpha", s("a%p%b")),
        pair(
            "beta",
            Document::Sequence(vec![s("one"), Document::Int(2), Document::Bool(true)]),
        ),
        pair("gamma", Document::Null),
    ]);
    let replacements = reps(&[("%p%", &["x", "y"])]);

    let (out, found, substituted) = process_yaml(&doc, &replacements);

    assert_eq!(out, doc);
    assert!(!found);
    assert!(!substituted);
}

#[test]
fn tagged_string_expands_to_sequence() {
    let doc = Document::Mapping(vec![pair("k|expand", s("a%p%b"))]);
    let replacements = reps(&[("%p%", &["x", "y"])]);

    let (out, found, substituted) = process_yaml(&doc, &replacements);

    let expected =
        Document::Mapping(vec![pair("k", Document::Sequence(vec![s("axb"), s("ayb")]))]);
    assert_eq!(out, expected);
    assert!(found);
    assert!(substituted);
}

#[test]
fn tagged_string_without_match_keeps_value() {
    let doc = Document::Mapping(vec![pair("k|expand", s("novalue"))]);
    let replacements = reps(&[("%p%", &["x", "y"])]);

    let (out, found, substituted) = process_yaml(&doc, &replacements);

    let expected = Document::Mapping(vec![pair("k", s("novalue"))]);
    assert_eq!(out, expected);
    assert!(found);
    assert!(!substituted);
}

#[test]
fn tagged_sequence_value_is_not_substituted() {
    let doc = Document::Mapping(vec![pair(
        "k|expand",
        Document::Sequence(vec![s("item1")]),
    )]);
    let replacements = reps(&[("%p%", &["x", "y"])]);

    let (out, found, substituted) = process_yaml(&doc, &replacements);

    let expected = Document::Mapping(vec![pair("k", Document::Sequence(vec![s("item1")]))]);
    assert_eq!(out, expected);
    assert!(found);
    assert!(!substituted);
}

#[test]
fn expanding_the_output_again_is_a_no_op() {
    let doc = Document::Mapping(vec![
        pair("k|expand", s("a%p%b")),
        pair("plain", Document::Mapping(vec![pair("inner|expand", s("%p%"))])),
    ]);
    let replacements = reps(&[("%p%", &["x", "y"])]);

    let (once, _, _) = process_yaml(&doc, &replacements);
    let (twice, found, substituted) = process_yaml(&once, &replacements);

    assert_eq!(twice, once);
    assert!(!found);
    assert!(!substituted);
}

#[test]
fn nested_tag_is_honored_but_raises_no_outer_flag() {
    let doc = Document::Mapping(vec![pair(
        "outer",
        Document::Mapping(vec![pair("inner|expand", s("%p%"))]),
    )]);
    let replacements = reps(&[("%p%", &["x", "y"])]);

    let (out, found, substituted) = process_yaml(&doc, &replacements);

    let expected = Document::Mapping(vec![pair(
        "outer",
        Document::Mapping(vec![pair("inner", Document::Sequence(vec![s("x"), s("y")]))]),
    )]);
    assert_eq!(out, expected);
    assert!(!found);
    assert!(!substituted);
}

#[test]
fn two_matching_placeholders_expand_additively() {
    let doc = Document::Mapping(vec![pair("k|expand", s("a%p%%q%"))]);
    let replacements = reps(&[("%p%", &["1"]), ("%q%", &["2"])]);

    let (out, found, substituted) = process_yaml(&doc, &replacements);

    let expected = Document::Mapping(vec![pair(
        "k",
        Document::Sequence(vec![s("a1%q%"), s("a%p%2")]),
    )]);
    assert_eq!(out, expected);
    assert!(found);
    assert!(substituted);
}

#[test]
fn every_occurrence_of_a_placeholder_is_replaced() {
    let value = s("x%p%y%p%");
    let replacements = reps(&[("%p%", &["z"])]);

    let out = process_value(&value, &replacements);

    assert_eq!(out, Document::Sequence(vec![s("xzyz")]));
}

#[test]
fn only_the_first_tag_occurrence_is_stripped_from_the_key() {
    let doc = Document::Mapping(vec![pair("pre|expandpost", s("novalue"))]);
    let replacements = reps(&[("%p%", &["x"])]);

    let (out, found, substituted) = process_yaml(&doc, &replacements);

    let expected = Document::Mapping(vec![pair("prepost", s("novalue"))]);
    assert_eq!(out, expected);
    assert!(found);
    assert!(!substituted);
}

#[test]
fn scalars_pass_through_unchanged() {
    let replacements = reps(&[("%p%", &["x"])]);

    let (out, found, substituted) = process_yaml(&Document::Int(7), &replacements);
    assert_eq!(out, Document::Int(7));
    assert!(!found);
    assert!(!substituted);

    let (out, found, substituted) = process_yaml(&s("%p%"), &replacements);
    assert_eq!(out, s("%p%"));
    assert!(!found);
    assert!(!substituted);
}

#[test]
fn tagged_mapping_value_is_expanded_recursively() {
    let value = Document::Mapping(vec![pair("inner|expand", s("%p%"))]);
    let replacements = reps(&[("%p%", &["x"])]);

    let out = process_value(&value, &replacements);

    let expected = Document::Mapping(vec![pair("inner", Document::Sequence(vec![s("x")]))]);
    assert_eq!(out, expected);
}
