use just_enough_vcs::constants::extract_placeholder_params;

#[test]
fn placeholder_params_in_order() {
    assert_eq!(extract_placeholder_params("{root}/sheets/{name}.st"), vec!["root".to_string(), "name".to_string()]);
}

#[test]
fn placeholder_params_none() {
    assert!(extract_placeholder_params("plain text").is_empty());
    assert!(extract_placeholder_params("").is_empty());
}

#[test]
fn placeholder_params_edge_cases() {
    // An empty name is skipped.
    assert_eq!(extract_placeholder_params("x{ab}{}"), vec!["ab".to_string()]);
    // A `{` inside a name belongs to it.
    assert_eq!(extract_placeholder_params("{a{b}c}"), vec!["a{b".to_string()]);
    // An unclosed `{` ends the scan.
    assert_eq!(extract_placeholder_params("{a}{b"), vec!["a".to_string()]);
    // A lone `}` is ignored.
    assert_eq!(extract_placeholder_params("}{z}"), vec!["z".to_string()]);
}
