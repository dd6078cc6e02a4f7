use just_enough_vcs::workspace::WorkspaceConfig;

#[test]
fn workspace_config_fields() {
    let c = WorkspaceConfig::default();
    assert_eq!(c.upstream(), "");
    assert!(c.uuid().is_none());
    assert!(c.account().is_none());
    let mut c = c
        .with_upstream("127.0.0.1:25331".to_string())
        .with_uuid("1234".to_string())
        .with_account("alice".to_string());
    assert_eq!(c.upstream(), "127.0.0.1:25331");
    assert_eq!(c.uuid().unwrap(), "1234");
    assert_eq!(c.account().unwrap(), "alice");
    c.erase_uuid();
    c.erase_account();
    assert!(c.uuid().is_none() && c.account().is_none());
    c.set_uuid("5678".to_string());
    c.set_account("bob".to_string());
    c.set_upstream("host".to_string());
    assert_eq!(c.uuid().unwrap(), "5678");
    assert_eq!(c.account().unwrap(), "bob");
    assert_eq!(c.upstream(), "host");
    assert!(c.same_as(&c.clone()));
    assert!(!c.same_as(&WorkspaceConfig::default()));
}
