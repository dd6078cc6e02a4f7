use just_enough_vcs::index_source::IndexSource;
use just_enough_vcs::mapping::{LocalMapping, LocalMappingForward};
use just_enough_vcs::sheet::SheetData;
use just_enough_vcs::sheet_tree::SheetDataTree;

fn frames_data() -> SheetData {
    let mut data = SheetData::empty();
    (0..20).for_each(|n| {
        let added = data.insert_mapping(
            LocalMapping::new(
                vec!["Assets".to_string(), format!("Player_Frame_{}.png", n)],
                IndexSource::new(true, n, 2),
                LocalMappingForward::Latest,
            )
            .unwrap(),
        );
        assert!(added);
    });
    data
}

#[test]
fn test_sheet_tree_build() {
    let data = frames_data();

    let tree: SheetDataTree = (&data).into();
    assert!(tree.root().next("Assets").unwrap().is_dir());
    assert!(
        tree.root()
            .next("Assets")
            .unwrap()
            .next("Player_Frame_5.png")
            .unwrap()
            .is_mapping()
    );
    assert!(tree.root().next("Binary").is_none());

    assert!(tree.root().next("Assets").unwrap().is_dir());
    assert!(tree
        .root()
        .next("Assets")
        .unwrap()
        .next("Player_Frame_12.png")
        .unwrap()
        .is_mapping());

    assert!(
        tree.root()
            .next("Assets")
            .unwrap()
            .next("Player_Frame_15.png")
            .unwrap()
            .unwrap_mapping()
            .index_source()
            .id()
            == 15
    );

    assert!(tree.root().next("Assets").unwrap().unwrap_dir().len() == 20);
}

#[test]
fn tree_leaf_and_directory_share_a_name() {
    let mut data = SheetData::empty();
    assert!(data.insert_mapping(
        LocalMapping::new(
            vec!["a".to_string()],
            IndexSource::new(false, 1, 1),
            LocalMappingForward::Latest,
        )
        .unwrap(),
    ));
    assert!(data.insert_mapping(
        LocalMapping::new(
            vec!["a".to_string(), "b".to_string()],
            IndexSource::new(false, 2, 1),
            LocalMappingForward::Latest,
        )
        .unwrap(),
    ));
    let tree = SheetDataTree::from_data(&data);
    let root = tree.root();
    assert!(root.is_dir());
    assert_eq!(root.unwrap_dir().len(), 2);
    // The leaf came first, so it is the child found by name.
    let first = root.next("a").unwrap();
    assert!(first.is_mapping());
    assert_eq!(first.unwrap_mapping().index_source().id(), 1);
    assert!(first.next("b").is_none());
    assert!(first.dir().is_none());
    let dir = &root.unwrap_dir()[1];
    assert!(dir.is_dir());
    assert!(dir.mapping().is_none());
    assert_eq!(dir.next("b").unwrap().unwrap_mapping().index_source().id(), 2);
    assert_eq!(tree.data().mappings().len(), 2);
}

#[test]
fn tree_unwrap_fallbacks() {
    let data = frames_data();
    let tree = SheetDataTree::from_data(&data);
    let assets = tree.root().next("Assets").unwrap();
    let leaf = assets.next("Player_Frame_3.png").unwrap();
    let spare = LocalMapping::new(
        vec!["spare".to_string()],
        IndexSource::new(false, 99, 1),
        LocalMappingForward::Latest,
    )
    .unwrap();
    assert_eq!(leaf.unwrap_mapping_or(&spare).index_source().id(), 3);
    assert_eq!(assets.unwrap_mapping_or(&spare).index_source().id(), 99);
    assert_eq!(assets.unwrap_mapping_or_else(|| &spare).index_source().id(), 99);
    let empty = Vec::new();
    assert_eq!(leaf.unwrap_dir_or(&empty).len(), 0);
    assert_eq!(assets.unwrap_dir_or(&empty).len(), 20);
    assert_eq!(leaf.unwrap_dir_or_else(|| &empty).len(), 0);
}

#[test]
fn tree_nodes_compare_and_equal() {
    let mut data = SheetData::empty();
    for path in [vec!["a", "x.txt"], vec!["a", "item2"], vec!["a", "item10"], vec!["b"]] {
        let added = data.insert_mapping(
            LocalMapping::new(path.iter().map(|s| s.to_string()).collect(), IndexSource::new(true, 1, 1), LocalMappingForward::Latest)
                .unwrap(),
        );
        assert!(added);
    }
    let tree: SheetDataTree = (&data).into();
    let dir_a = tree.root().next("a").unwrap();
    let leaf_b = tree.root().next("b").unwrap();
    assert_eq!(dir_a.name(), "a");
    assert_eq!(leaf_b.name(), "b");
    // Directories come before mappings, whatever the names.
    assert_eq!(dir_a.compare(leaf_b), std::cmp::Ordering::Less);
    assert_eq!(leaf_b.compare(dir_a), std::cmp::Ordering::Greater);
    // Mappings of one directory compare by name, digit runs by value.
    let item2 = dir_a.next("item2").unwrap();
    let item10 = dir_a.next("item10").unwrap();
    assert_eq!(item2.compare(item10), std::cmp::Ordering::Less);
    assert_eq!(item10.compare(item10), std::cmp::Ordering::Equal);
    // Equality: same kind and same name.
    assert!(*dir_a == *dir_a);
    assert!(*item2 != *item10);
    assert!(*dir_a != *leaf_b);
    assert!(*item2 == "item2");
    assert!(*dir_a == "a");
    assert!(*leaf_b != "a");
}
