use just_enough_vcs::string_proc::format_path::{
    format_path, format_path_str, format_path_str_with_config, format_path_with_config, PathFormatConfig,
};
use std::path::PathBuf;

#[test]
fn format_path_str_doc_examples() {
    assert_eq!(format_path_str("C:\\Users\\\\test").unwrap(), "C:/Users/test");
    assert_eq!(
        format_path_str("/path/with/*unfriendly?chars").unwrap(),
        "/path/with/unfriendlychars"
    );
    assert_eq!(format_path_str("\x1b[31m/path\x1b[0m").unwrap(), "/path");
    assert_eq!(format_path_str("/home/user/dir/").unwrap(), "/home/user/dir/");
    assert_eq!(format_path_str("/home/user/file.txt").unwrap(), "/home/user/file.txt");
    assert_eq!(
        format_path_str("/home/my_user/DOCS/JVCS_TEST/Workspace/../Vault/").unwrap(),
        "/home/my_user/DOCS/JVCS_TEST/Vault/"
    );
    assert_eq!(format_path_str("./home/file.txt").unwrap(), "home/file.txt");
    assert_eq!(format_path_str("./home/path/").unwrap(), "home/path/");
    assert_eq!(format_path_str("./").unwrap(), "");
}

#[test]
fn format_path_parent_dirs() {
    assert_eq!(format_path_str("a/b/../../..").unwrap(), ".");
    assert_eq!(format_path_str("/../a").unwrap(), "a");
    assert_eq!(format_path_str("a/./b/.").unwrap(), "a/b");
    assert_eq!(format_path_str("").unwrap(), ".");
    assert_eq!(format_path_str("/").unwrap(), "/");
}

#[test]
fn format_path_with_steps_off() {
    let none = PathFormatConfig {
        strip_ansi: false,
        strip_unfriendly_chars: false,
        resolve_parent_dirs: false,
        collapse_consecutive_slashes: false,
        escape_backslashes: false,
    };
    assert_eq!(format_path_str_with_config("a//b/../c*", &none).unwrap(), "a//b/../c*");
    // With escaping off, backslashes are kept.
    assert_eq!(format_path_str_with_config("a\\b", &none).unwrap(), "a\\b");
    let resolve_only = PathFormatConfig { resolve_parent_dirs: true, ..none };
    assert_eq!(format_path_str_with_config("x/../a\\b", &resolve_only).unwrap(), "a\\b");
    let keep_ansi = PathFormatConfig { strip_ansi: false, ..PathFormatConfig::default() };
    assert_eq!(
        format_path_str_with_config("\x1b[31m/path", &keep_ansi).unwrap(),
        "\x1b[31m/path"
    );
    let no_collapse = PathFormatConfig {
        collapse_consecutive_slashes: false,
        resolve_parent_dirs: false,
        ..PathFormatConfig::default()
    };
    assert_eq!(format_path_str_with_config("a//b", &no_collapse).unwrap(), "a//b");
    assert_eq!(PathFormatConfig::default(), PathFormatConfig {
        strip_ansi: true,
        strip_unfriendly_chars: true,
        resolve_parent_dirs: true,
        collapse_consecutive_slashes: true,
        escape_backslashes: true,
    });
}

#[test]
fn format_path_buf() {
    let p = format_path(PathBuf::from("./dir//sub/../file.txt")).unwrap();
    assert_eq!(p, PathBuf::from("dir/file.txt"));
    let none = PathFormatConfig {
        strip_ansi: false,
        strip_unfriendly_chars: false,
        resolve_parent_dirs: false,
        collapse_consecutive_slashes: false,
        escape_backslashes: false,
    };
    let q = format_path_with_config(PathBuf::from("a/b"), &none).unwrap();
    assert_eq!(q, PathBuf::from("a/b"));
}
