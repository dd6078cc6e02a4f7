use just_enough_vcs::mapping::LocalMappingForward;
use just_enough_vcs::mapping_macros::{
    local_mapping, mapping, mapping_buf, parse_id_version, parse_path_string, parse_sheet_path, LocalMappingParts,
};

fn forward_of(input: &str) -> LocalMappingForward {
    local_mapping(input).unwrap().unwrap().forward().clone()
}

#[test]
fn macro_mapping_buf_reads() {
    let m = mapping_buf("\"your_sheet:/your_dir/your_file.suffix\" => \"12/3\"").unwrap();
    assert_eq!(m.sheet_name(), "your_sheet");
    assert_eq!(m.value(), &vec!["your_dir".to_string(), "your_file.suffix".to_string()]);
    assert!(m.index_source().is_remote());
    assert_eq!(m.mapped_id(), 12);
    assert_eq!(m.mapped_version(), 3);
    let local = mapping_buf("\"s:/a\" => \"~7/8\"").unwrap();
    assert!(!local.index_source().is_remote());
}

#[test]
fn macro_mapping_reads() {
    let (sheet, path, source) = mapping("\"your_sheet:/your_dir/your_file.suffix\" => \"1/2\"").unwrap();
    assert_eq!(sheet, "your_sheet");
    assert_eq!(path, "your_dir/your_file.suffix");
    assert!(source.is_remote());
    assert_eq!(source.id(), 1);
    assert_eq!(source.version(), 2);
}

#[test]
fn macro_local_mapping_forms() {
    let m = local_mapping("\"A.png\" => \"1/2\"").unwrap().unwrap();
    assert_eq!(m.value(), &vec!["A.png".to_string()]);
    assert!(m.index_source().is_remote());
    assert!(matches!(m.forward(), LocalMappingForward::Latest));
    let v = local_mapping("\"A.png\" == \"~1/2\"").unwrap().unwrap();
    assert!(!v.index_source().is_remote());
    assert!(matches!(v.forward(), LocalMappingForward::Version { version: 2 }));
    match forward_of("\"A.png\" => \"1/2\" => \"ref\"") {
        LocalMappingForward::Ref { sheet_name } => assert_eq!(sheet_name, "ref"),
        _ => panic!("expected a ref"),
    }
    assert!(matches!(forward_of("\"A.png\" => \"1/2\" => \"3\""), LocalMappingForward::Version { version: 3 }));
    assert!(matches!(forward_of("\"A.png\" => \"1/2\" == \"3\""), LocalMappingForward::Version { version: 3 }));
    assert!(matches!(forward_of("\"A.png\"=>\"~1/2\"==\"3\""), LocalMappingForward::Version { version: 3 }));
    let nested = local_mapping("\"dir / sub / A.png\" => \"1/2\"").unwrap().unwrap();
    assert_eq!(nested.value(), &vec!["dir".to_string(), "sub".to_string(), "A.png".to_string()]);
    assert!(matches!(
        LocalMappingParts::parse("\"p\" => \"1/2\" => \"x\"").unwrap(),
        LocalMappingParts::WithRef(_, true, 1, 2, _)
    ));
}

#[test]
fn macro_local_mapping_errors() {
    assert_eq!(
        local_mapping("\"s:/a\" => \"1/2\"").unwrap_err(),
        "local_mapping is not related to sheets. Do not use 'sheet:/' prefix."
    );
    assert_eq!(
        local_mapping("\"a\" == \"1/2\" => \"b\"").unwrap_err(),
        "Ambiguous forward direction. Use either '==' for version or '=>' for ref, or use 'path' => 'id/ver' == 'ver2' syntax."
    );
    assert_eq!(
        local_mapping("\"a\" == \"1/2\" == \"3\"").unwrap_err(),
        "Invalid local_mapping syntax with '=='. Expected: local_mapping!(\"path\" == \"id/ver\")"
    );
    assert!(local_mapping("\"a\"").unwrap_err().starts_with("Invalid local_mapping syntax. Expected:"));
    assert_eq!(
        local_mapping("\"a\" => \"x/2\"").unwrap_err(),
        "Failed to parse id as u32: invalid digit found in string"
    );
    assert_eq!(
        local_mapping("\"a\" => \"1/99999\"").unwrap_err(),
        "Failed to parse version as u16: number too large to fit in target type"
    );
    assert_eq!(local_mapping("\"a\" => \"/2\"").unwrap_err(), "ID cannot be empty");
    assert_eq!(local_mapping("\"a\" => \"1/ \"").unwrap_err(), "Version cannot be empty");
    assert_eq!(
        local_mapping("\"a\" => \"1\"").unwrap_err(),
        "Invalid id/version syntax. Expected: id/ver or ~id/ver, got: 1"
    );
    assert_eq!(
        local_mapping("\"a\" => \"1/2\" == \"x\"").unwrap_err(),
        "Failed to parse target version as u16: invalid digit found in string"
    );
}

#[test]
fn macro_sheet_mapping_errors() {
    assert_eq!(
        mapping_buf("\"sheetpath\" => \"1/2\"").unwrap_err(),
        "Invalid sheet path syntax. Expected: sheet:/path, got: sheetpath"
    );
    assert_eq!(mapping_buf("\"s:/\" => \"1/2\"").unwrap_err(), "Path cannot be empty");
    assert_eq!(
        mapping_buf("\"a\"").unwrap_err(),
        "Invalid mapping_buf syntax. Expected: mapping_buf!(\"sheet:/path\" => \"id/ver\")"
    );
    assert_eq!(
        mapping("\"a\" => \"1/2\" => \"3\"").unwrap_err(),
        "Invalid mapping syntax. Expected: mapping!(\"sheet:/path\" => \"id/ver\")"
    );
}

#[test]
fn macro_helpers() {
    assert_eq!(parse_path_string(" a / b "), vec!["a".to_string(), "b".to_string()]);
    assert_eq!(parse_id_version(" ~5/6 ").unwrap(), (false, 5, 6));
    assert_eq!(parse_id_version("+5/6").unwrap(), (true, 5, 6));
    assert_eq!(
        parse_id_version("+/6").unwrap_err(),
        "Failed to parse id as u32: invalid digit found in string"
    );
    let (sheet, parts) = parse_sheet_path("main:/a/b").unwrap();
    assert_eq!(sheet, "main");
    assert_eq!(parts, vec!["a".to_string(), "b".to_string()]);
}
