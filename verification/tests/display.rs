use just_enough_vcs::index_source::IndexSource;
use just_enough_vcs::mapping::{LocalMapping, LocalMappingForward, Mapping, MappingBuf};
use just_enough_vcs::sheet::SheetEditItem;

fn lm(path: &[&str], source: IndexSource, forward: LocalMappingForward) -> LocalMapping {
    LocalMapping::new(path.iter().map(|s| s.to_string()).collect(), source, forward).unwrap()
}

#[test]
fn local_mapping_display_forms() {
    let src = IndexSource::new(true, 1, 2);
    assert_eq!(lm(&["A.png"], src, LocalMappingForward::Latest).to_display_string(), "\"A.png\" => \"1/2\"");
    assert_eq!(
        lm(&["dir", "A.png"], IndexSource::new(false, 1, 2), LocalMappingForward::Version { version: 2 })
            .to_display_string(),
        "\"dir/A.png\" == \"~1/2\""
    );
    assert_eq!(
        lm(&["A.png"], src, LocalMappingForward::Version { version: 3 }).to_display_string(),
        "\"A.png\" => \"1/2\" == \"3\""
    );
    assert_eq!(
        lm(&["A.png"], src, LocalMappingForward::Ref { sheet_name: "ref".to_string() }).to_display_string(),
        "\"A.png\" => \"1/2\" => \"ref\""
    );
}

#[test]
fn local_mapping_display_reads_back() {
    let src = IndexSource::new(false, 7, 9);
    for forward in [
        LocalMappingForward::Latest,
        LocalMappingForward::Version { version: 9 },
        LocalMappingForward::Version { version: 4 },
        LocalMappingForward::Ref { sheet_name: "main".to_string() },
    ] {
        let m = lm(&["dir", "file.txt"], src, forward);
        let back = LocalMapping::try_from(m.to_display_string().as_str()).unwrap();
        assert_eq!(back.to_display_string(), m.to_display_string());
    }
}

#[test]
fn index_source_display_reads_back() {
    for (remote, id, ver) in [(true, 0, 0), (false, 4294967295, 65535), (true, 12, 3)] {
        let s = IndexSource::new(remote, id, ver);
        let back = IndexSource::parse(&s.to_display_string()).unwrap();
        assert_eq!(back.is_remote(), remote);
        assert_eq!(back.id(), id);
        assert_eq!(back.version(), ver);
    }
}

#[test]
fn sheet_mapping_display() {
    let buf = MappingBuf::new("MySheet".to_string(), vec!["dir".to_string(), "a.txt".to_string()], IndexSource::new(true, 5, 6));
    assert_eq!(buf.to_display_string(), "\"my_sheet:/dir/a.txt\" => \"5/6\"");
    let m = Mapping::new("main", "dir//b.txt", IndexSource::new(false, 1, 1));
    assert_eq!(m.to_display_string(), "\"main:/dir/b.txt\" => \"~1/1\"");
}

#[test]
fn sheet_edit_display() {
    let node = vec!["dir".to_string(), "a.txt".to_string()];
    let other = vec!["b.txt".to_string()];
    assert_eq!(SheetEditItem::DoNothing.to_display_string(), "");
    assert_eq!(
        SheetEditItem::Move { from_node: node.clone(), to_node: other.clone() }.to_display_string(),
        "Move \"dir/a.txt\" -> \"b.txt\""
    );
    assert_eq!(
        SheetEditItem::Swap { node_a: node.clone(), node_b: other.clone() }.to_display_string(),
        "Swap \"dir/a.txt\" <-> \"b.txt\""
    );
    assert_eq!(SheetEditItem::EraseMapping { node: node.clone() }.to_display_string(), "Earse \"dir/a.txt\"");
    assert_eq!(
        SheetEditItem::InsertMapping { mapping: lm(&["x"], IndexSource::new(true, 1, 2), LocalMappingForward::Latest) }
            .to_display_string(),
        "Insert \"x\" => \"1/2\""
    );
    assert_eq!(
        SheetEditItem::ReplaceSource { node: node.clone(), source: IndexSource::new(false, 3, 4) }.to_display_string(),
        "Replace \"dir/a.txt\" => \"~3/4\""
    );
    assert_eq!(
        SheetEditItem::UpdateForward { node: node.clone(), forward: LocalMappingForward::Latest }.to_display_string(),
        "Update \"dir/a.txt\" => Latest"
    );
    assert_eq!(
        SheetEditItem::UpdateForward {
            node: node.clone(),
            forward: LocalMappingForward::Ref { sheet_name: "r".to_string() }
        }
        .to_display_string(),
        "Update \"dir/a.txt\" => Ref(\"r\")"
    );
    assert_eq!(
        SheetEditItem::UpdateForward { node, forward: LocalMappingForward::Version { version: 12 } }
            .to_display_string(),
        "Update \"dir/a.txt\" => Ver(\"12\")"
    );
}

#[test]
fn index_source_try_from_examples() {
    let s = IndexSource::try_from("~1/2").unwrap();
    assert!(!s.is_remote());
    assert_eq!((s.id(), s.version()), (1, 2));
    let r = IndexSource::try_from("12/3").unwrap();
    assert!(r.is_remote());
    assert_eq!((r.id(), r.version()), (12, 3));
    assert!(IndexSource::try_from("1/2/3").is_err());
    assert!(IndexSource::try_from("/2").is_err());
    assert!(IndexSource::try_from("1/70000").is_err());
}
