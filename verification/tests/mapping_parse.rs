use just_enough_vcs::index_source::IndexSource;
use just_enough_vcs::mapping::{LocalMapping, LocalMappingForward};
use just_enough_vcs::mapping::parse::ParseMappingError;

#[test]
fn test_local_mapping_parse() {
        let local_mapping = LocalMapping::new(
            vec!["A.png".to_string()],
            IndexSource::new(true, 1u32, 2u16),
            LocalMappingForward::Latest,
        )
        .unwrap();
        let local_mapping_gen = LocalMapping::try_from("\"A.png\" => \"1/2\"").unwrap();
        assert_eq!(local_mapping, local_mapping_gen);
        assert_eq!(local_mapping.forward(), local_mapping_gen.forward());
        assert_eq!(local_mapping.index_source(), local_mapping_gen.index_source());

        let local_mapping = LocalMapping::new(
            vec!["A.png".to_string()],
            IndexSource::new(true, 1u32, 2u16),
            LocalMappingForward::Version { version: 2u16 },
        )
        .unwrap();
        let local_mapping_gen = LocalMapping::try_from("\"A.png\" == \"1/2\"").unwrap();
        assert_eq!(local_mapping, local_mapping_gen);
        assert_eq!(local_mapping.forward(), local_mapping_gen.forward());
        assert_eq!(local_mapping.index_source(), local_mapping_gen.index_source());

        let local_mapping = LocalMapping::new(
            vec!["A.png".to_string()],
            IndexSource::new(true, 1u32, 2u16),
            LocalMappingForward::Ref {
                sheet_name: "ref".to_string(),
            },
        )
        .unwrap();
        let local_mapping_gen = LocalMapping::try_from("\"A.png\" => \"1/2\" => \"ref\"").unwrap();
        assert_eq!(local_mapping, local_mapping_gen);
        assert_eq!(local_mapping.forward(), local_mapping_gen.forward());
        assert_eq!(local_mapping.index_source(), local_mapping_gen.index_source());

        let local_mapping = LocalMapping::new(
            vec!["A.png".to_string()],
            IndexSource::new(true, 1u32, 2u16),
            LocalMappingForward::Version { version: 3u16 },
        )
        .unwrap();
        let local_mapping_gen = LocalMapping::try_from("\"A.png\" => \"1/2\" == \"3\"").unwrap();
        assert_eq!(local_mapping, local_mapping_gen);
        assert_eq!(local_mapping.forward(), local_mapping_gen.forward());
        assert_eq!(local_mapping.index_source(), local_mapping_gen.index_source());

        let local_mapping = LocalMapping::new(
            vec!["A.png".to_string()],
            IndexSource::new(false, 1u32, 2u16),
            LocalMappingForward::Latest,
        )
        .unwrap();
        let local_mapping_gen = LocalMapping::try_from("\"A.png\" => \"~1/2\"").unwrap();
        assert_eq!(local_mapping, local_mapping_gen);
        assert_eq!(local_mapping.forward(), local_mapping_gen.forward());
        assert_eq!(local_mapping.index_source(), local_mapping_gen.index_source());

        let local_mapping = LocalMapping::new(
            vec!["A.png".to_string()],
            IndexSource::new(false, 1u32, 2u16),
            LocalMappingForward::Version { version: 2u16 },
        )
        .unwrap();
        let local_mapping_gen = LocalMapping::try_from("\"A.png\" == \"~1/2\"").unwrap();
        assert_eq!(local_mapping, local_mapping_gen);
        assert_eq!(local_mapping.forward(), local_mapping_gen.forward());
        assert_eq!(local_mapping.index_source(), local_mapping_gen.index_source());

        let local_mapping = LocalMapping::new(
            vec!["A.png".to_string()],
            IndexSource::new(false, 1u32, 2u16),
            LocalMappingForward::Ref {
                sheet_name: "ref".to_string(),
            },
        )
        .unwrap();
        let local_mapping_gen = LocalMapping::try_from("\"A.png\" => \"~1/2\" => \"ref\"").unwrap();
        assert_eq!(local_mapping, local_mapping_gen);
        assert_eq!(local_mapping.forward(), local_mapping_gen.forward());
        assert_eq!(local_mapping.index_source(), local_mapping_gen.index_source());

        let local_mapping = LocalMapping::new(
            vec!["A.png".to_string()],
            IndexSource::new(false, 1u32, 2u16),
            LocalMappingForward::Version { version: 3u16 },
        )
        .unwrap();
        let local_mapping_gen = LocalMapping::try_from("\"A.png\" => \"~1/2\" == \"3\"").unwrap();
        assert_eq!(local_mapping, local_mapping_gen);
        assert_eq!(local_mapping.forward(), local_mapping_gen.forward());
        assert_eq!(local_mapping.index_source(), local_mapping_gen.index_source());

        let local_mapping = LocalMapping::new(
            vec!["A.png".to_string()],
            IndexSource::new(true, 1u32, 2u16),
            LocalMappingForward::Latest,
        )
        .unwrap();
        let local_mapping_gen = LocalMapping::try_from("\"A.png\"=>\"1/2\"").unwrap();
        assert_eq!(local_mapping, local_mapping_gen);
        assert_eq!(local_mapping.forward(), local_mapping_gen.forward());
        assert_eq!(local_mapping.index_source(), local_mapping_gen.index_source());

        let local_mapping = LocalMapping::new(
            vec!["A.png".to_string()],
            IndexSource::new(true, 1u32, 2u16),
            LocalMappingForward::Version { version: 2u16 },
        )
        .unwrap();
        let local_mapping_gen = LocalMapping::try_from("\"A.png\"==\"1/2\"").unwrap();
        assert_eq!(local_mapping, local_mapping_gen);
        assert_eq!(local_mapping.forward(), local_mapping_gen.forward());
        assert_eq!(local_mapping.index_source(), local_mapping_gen.index_source());

        let local_mapping = LocalMapping::new(
            vec!["A.png".to_string()],
            IndexSource::new(true, 1u32, 2u16),
            LocalMappingForward::Ref {
                sheet_name: "ref".to_string(),
            },
        )
        .unwrap();
        let local_mapping_gen = LocalMapping::try_from("\"A.png\"=>\"1/2\"=>\"ref\"").unwrap();
        assert_eq!(local_mapping, local_mapping_gen);
        assert_eq!(local_mapping.forward(), local_mapping_gen.forward());
        assert_eq!(local_mapping.index_source(), local_mapping_gen.index_source());

        let local_mapping = LocalMapping::new(
            vec!["A.png".to_string()],
            IndexSource::new(true, 1u32, 2u16),
            LocalMappingForward::Version { version: 3u16 },
        )
        .unwrap();
        let local_mapping_gen = LocalMapping::try_from("\"A.png\"=>\"1/2\"==\"3\"").unwrap();
        assert_eq!(local_mapping, local_mapping_gen);
        assert_eq!(local_mapping.forward(), local_mapping_gen.forward());
        assert_eq!(local_mapping.index_source(), local_mapping_gen.index_source());

        let local_mapping = LocalMapping::new(
            vec!["A.png".to_string()],
            IndexSource::new(false, 1u32, 2u16),
            LocalMappingForward::Latest,
        )
        .unwrap();
        let local_mapping_gen = LocalMapping::try_from("\"A.png\"=>\"~1/2\"").unwrap();
        assert_eq!(local_mapping, local_mapping_gen);
        assert_eq!(local_mapping.forward(), local_mapping_gen.forward());
        assert_eq!(local_mapping.index_source(), local_mapping_gen.index_source());

        let local_mapping = LocalMapping::new(
            vec!["A.png".to_string()],
            IndexSource::new(false, 1u32, 2u16),
            LocalMappingForward::Version { version: 2u16 },
        )
        .unwrap();
        let local_mapping_gen = LocalMapping::try_from("\"A.png\"==\"~1/2\"").unwrap();
        assert_eq!(local_mapping, local_mapping_gen);
        assert_eq!(local_mapping.forward(), local_mapping_gen.forward());
        assert_eq!(local_mapping.index_source(), local_mapping_gen.index_source());

        let local_mapping = LocalMapping::new(
            vec!["A.png".to_string()],
            IndexSource::new(false, 1u32, 2u16),
            LocalMappingForward::Ref {
                sheet_name: "ref".to_string(),
            },
        )
        .unwrap();
        let local_mapping_gen = LocalMapping::try_from("\"A.png\"=>\"~1/2\"=>\"ref\"").unwrap();
        assert_eq!(local_mapping, local_mapping_gen);
        assert_eq!(local_mapping.forward(), local_mapping_gen.forward());
        assert_eq!(local_mapping.index_source(), local_mapping_gen.index_source());

        let local_mapping = LocalMapping::new(
            vec!["A.png".to_string()],
            IndexSource::new(false, 1u32, 2u16),
            LocalMappingForward::Version { version: 3u16 },
        )
        .unwrap();
        let local_mapping_gen = LocalMapping::try_from("\"A.png\"=>\"~1/2\"==\"3\"").unwrap();
        assert_eq!(local_mapping, local_mapping_gen);
        assert_eq!(local_mapping.forward(), local_mapping_gen.forward());
        assert_eq!(local_mapping.index_source(), local_mapping_gen.index_source());


        let local_mapping = LocalMapping::new(
            vec!["A.png".to_string()],
            IndexSource::new(true, 1u32, 2u16),
            LocalMappingForward::Latest,
        )
        .unwrap();
        let local_mapping_gen = LocalMapping::try_from("\"A.png\"     =>\"1/2\"").unwrap();
        assert_eq!(local_mapping, local_mapping_gen);
        assert_eq!(local_mapping.forward(), local_mapping_gen.forward());
        assert_eq!(local_mapping.index_source(), local_mapping_gen.index_source());

        let local_mapping = LocalMapping::new(
            vec!["A.png".to_string()],
            IndexSource::new(true, 1u32, 2u16),
            LocalMappingForward::Version { version: 2u16 },
        )
        .unwrap();
        let local_mapping_gen = LocalMapping::try_from("\"A.png\"==    \"1/2\"").unwrap();
        assert_eq!(local_mapping, local_mapping_gen);
        assert_eq!(local_mapping.forward(), local_mapping_gen.forward());
        assert_eq!(local_mapping.index_source(), local_mapping_gen.index_source());

        let local_mapping = LocalMapping::new(
            vec!["A.png".to_string()],
            IndexSource::new(true, 1u32, 2u16),
            LocalMappingForward::Ref {
                sheet_name: "ref".to_string(),
            },
        )
        .unwrap();
        let local_mapping_gen =
            LocalMapping::try_from("\"A.png\" =>  \"1/2\"   =>\"ref\"").unwrap();
        assert_eq!(local_mapping, local_mapping_gen);
        assert_eq!(local_mapping.forward(), local_mapping_gen.forward());
        assert_eq!(local_mapping.index_source(), local_mapping_gen.index_source());

        let local_mapping = LocalMapping::new(
            vec!["A.png".to_string()],
            IndexSource::new(true, 1u32, 2u16),
            LocalMappingForward::Version { version: 3u16 },
        )
        .unwrap();
        let local_mapping_gen = LocalMapping::try_from("\"A.png\"=> \"1/2\"    ==\"3\"").unwrap();
        assert_eq!(local_mapping, local_mapping_gen);
        assert_eq!(local_mapping.forward(), local_mapping_gen.forward());
        assert_eq!(local_mapping.index_source(), local_mapping_gen.index_source());

        let local_mapping = LocalMapping::new(
            vec!["A.png".to_string()],
            IndexSource::new(false, 1u32, 2u16),
            LocalMappingForward::Latest,
        )
        .unwrap();
        let local_mapping_gen = LocalMapping::try_from("   \"A.png\"=>\"~1/2\"").unwrap();
        assert_eq!(local_mapping, local_mapping_gen);
        assert_eq!(local_mapping.forward(), local_mapping_gen.forward());
        assert_eq!(local_mapping.index_source(), local_mapping_gen.index_source());

        let local_mapping = LocalMapping::new(
            vec!["A.png".to_string()],
            IndexSource::new(false, 1u32, 2u16),
            LocalMappingForward::Version { version: 2u16 },
        )
        .unwrap();
        let local_mapping_gen = LocalMapping::try_from("\"A.png\"   ==\"~1/2\"   ").unwrap();
        assert_eq!(local_mapping, local_mapping_gen);
        assert_eq!(local_mapping.forward(), local_mapping_gen.forward());
        assert_eq!(local_mapping.index_source(), local_mapping_gen.index_source());

        let local_mapping = LocalMapping::new(
            vec!["A.png".to_string()],
            IndexSource::new(false, 1u32, 2u16),
            LocalMappingForward::Ref {
                sheet_name: "ref".to_string(),
            },
        )
        .unwrap();
        let local_mapping_gen =
            LocalMapping::try_from("\"A.png\"=>    \"~1/2\"=>  \"ref\"").unwrap();
        assert_eq!(local_mapping, local_mapping_gen);
        assert_eq!(local_mapping.forward(), local_mapping_gen.forward());
        assert_eq!(local_mapping.index_source(), local_mapping_gen.index_source());

        let local_mapping = LocalMapping::new(
            vec!["A.png".to_string()],
            IndexSource::new(false, 1u32, 2u16),
            LocalMappingForward::Version { version: 3u16 },
        )
        .unwrap();
        let local_mapping_gen = LocalMapping::try_from("\"A.png\"=>   \"~1/2\" ==\"3\"").unwrap();
        assert_eq!(local_mapping, local_mapping_gen);
        assert_eq!(local_mapping.forward(), local_mapping_gen.forward());
        assert_eq!(local_mapping.index_source(), local_mapping_gen.index_source());
    }

#[test]
fn parse_applies_the_length_rule() {
    let long = "p".repeat(300);
    let text = format!("\"{}\" => \"1/2\"", long);
    assert!(matches!(LocalMapping::try_from(text.as_str()), Err(ParseMappingError::InvalidMapping)));
    let fits = format!("\"{}\" => \"1/2\"", "p".repeat(255));
    assert_eq!(LocalMapping::try_from(fits.as_str()).unwrap().value().join("/").len(), 255);
    let long_ref = format!("\"a\" => \"1/2\" => \"{}\"", "r".repeat(256));
    assert!(matches!(LocalMapping::try_from(long_ref.as_str()), Err(ParseMappingError::InvalidMapping)));
}
