use just_enough_vcs::asset::{
    lock_file_name, prefixed_file_name, temp_file_name, DataReadError, FooData, HandleLockError, PrecheckFailed, ReadOnlyAsset,
};
use std::path::PathBuf;

#[test]
fn asset_lock_path_doc_example() {
    let foo_asset = ReadOnlyAsset::<FooData>::from("my/foo.txt");
    let lock_path = foo_asset.get_lock_path().unwrap();
    assert_eq!(lock_path.to_string_lossy(), "my/~foo.txt");
}

#[test]
fn asset_temp_path_doc_example() {
    let foo_asset = ReadOnlyAsset::<FooData>::from("my/foo.txt");
    let temp_path = foo_asset.get_temp_path().unwrap();
    assert_eq!(temp_path.to_string_lossy(), "my/.tmp_foo.txt");
}

#[test]
fn asset_lock_on_lock_file_is_refused() {
    let lock = ReadOnlyAsset::<FooData>::from(PathBuf::from("my/~foo.txt"));
    assert!(matches!(
        lock.get_lock_path(),
        Err(HandleLockError::PrecheckFailed(PrecheckFailed::LockOnLockFile))
    ));
    let temp = ReadOnlyAsset::<FooData>::from(String::from("my/.tmp_foo.txt"));
    assert!(matches!(
        temp.get_temp_path(),
        Err(HandleLockError::PrecheckFailed(PrecheckFailed::TempForTempFile))
    ));
    let root = ReadOnlyAsset::<FooData>::from("/");
    assert!(matches!(root.get_lock_path(), Err(HandleLockError::ReadFileNameFailed)));
    let back: PathBuf = ReadOnlyAsset::<FooData>::from("a/b.txt").into();
    assert_eq!(back, PathBuf::from("a/b.txt"));
}

#[test]
fn asset_file_names() {
    assert_eq!(lock_file_name("foo.txt").unwrap(), "~foo.txt");
    assert_eq!(temp_file_name("foo.txt").unwrap(), ".tmp_foo.txt");
    assert_eq!(lock_file_name("~foo.txt"), Err(PrecheckFailed::LockOnLockFile));
    assert_eq!(lock_file_name(".tmp_foo.txt"), Err(PrecheckFailed::TempForTempFile));
    assert_eq!(temp_file_name(".tmp").unwrap(), ".tmp_.tmp");
}

#[test]
fn foo_data_text() {
    let d = FooData::parse("Alice=-42").unwrap();
    assert_eq!(d.name, "Alice");
    assert_eq!(d.age, -42);
    assert_eq!(d.to_text(), "Alice=-42");
    let sample = FooData::test_data();
    assert_eq!(sample.age, 24);
    assert_eq!(sample.name, "OneOneFourFiveOneFour");
    assert_eq!(FooData::parse(&sample.to_text()).unwrap().age, 24);
    assert!(FooData::verify_data(sample.clone(), FooData::test_data()));
    assert!(!FooData::verify_data(sample, d));
    assert_eq!(FooData::parse("x=-2147483648").unwrap().age, i32::MIN);
    assert_eq!(FooData { age: i32::MIN, name: "m".to_string() }.to_text(), "m=-2147483648");
}

#[test]
fn foo_data_errors() {
    match FooData::parse("no equals sign") {
        Err(DataReadError::ParseError(m)) => assert_eq!(m, "Invalid format"),
        _ => panic!("expected a format error"),
    }
    match FooData::parse("a=b=c") {
        Err(DataReadError::ParseError(m)) => assert_eq!(m, "Invalid format"),
        _ => panic!("expected a format error"),
    }
    for bad in ["a=", "a=-", "a=+", "a=-+1", "a=2147483648", "a=1x"] {
        match FooData::parse(bad) {
            Err(DataReadError::ParseError(m)) => assert_eq!(m, "Invalid age"),
            _ => panic!("expected an age error for {}", bad),
        }
    }
    assert_eq!(FooData::parse("a=+7").unwrap().age, 7);
}

#[test]
fn prefixed_file_names() {
    assert_eq!(prefixed_file_name(Some("foo.txt".to_string()), true).unwrap(), "~foo.txt");
    assert_eq!(prefixed_file_name(Some("foo.txt".to_string()), false).unwrap(), ".tmp_foo.txt");
    assert!(matches!(prefixed_file_name(None, true), Err(HandleLockError::ReadFileNameFailed)));
    assert!(matches!(
        prefixed_file_name(Some("~a".to_string()), false),
        Err(HandleLockError::PrecheckFailed(PrecheckFailed::LockOnLockFile))
    ));
    assert!(matches!(
        prefixed_file_name(Some(".tmp_a".to_string()), true),
        Err(HandleLockError::PrecheckFailed(PrecheckFailed::TempForTempFile))
    ));
}

#[test]
fn asset_paths_refuse_each_others_files() {
    let temp = ReadOnlyAsset::<FooData>::from("my/.tmp_foo.txt");
    assert!(matches!(
        temp.get_lock_path(),
        Err(HandleLockError::PrecheckFailed(PrecheckFailed::TempForTempFile))
    ));
    let lock = ReadOnlyAsset::<FooData>::from("my/~foo.txt");
    assert!(matches!(
        lock.get_temp_path(),
        Err(HandleLockError::PrecheckFailed(PrecheckFailed::LockOnLockFile))
    ));
    let root = ReadOnlyAsset::<FooData>::from("/");
    assert!(matches!(root.get_temp_path(), Err(HandleLockError::ReadFileNameFailed)));
}
