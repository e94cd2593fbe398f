use glass::ident::Id;
use glass::rainfusion::Mod;
use glass::rainfusion::ModDependency;
use glass::rainfusion::ModType;
use glass::rainfusion::Sortable;
use glass::rainfusion::Test;
use glass::rainfusion::string_to_type;

fn example_id() -> Id {
    Id { value: 0x2b770fa6_749f_4aee_b49d_7bc4a0fe5dbe }
}

fn example_mod() -> Mod {
    Mod {
        name: Some("Example Mod".to_owned()),
        author: Some("Example Author".to_owned()),
        img_url: Some("localhost".to_owned()),
        summary: Some("Example Summary".to_owned()),
        description: Some("Example Description".to_owned()),
        version: Some("0.0.1".to_owned()),
        item_type: ModType::Mod,
        dependencies: Some(vec![(
            example_id(),
            ModDependency {
                name: "Example Dependency".to_string(),
                summary: "Example Summary".to_string(),
                version: "0.0.1".to_string(),
            },
        )]),
        tags: Some(vec!["test".to_owned(), "test2".to_owned()]),
    }
}

#[test]
fn test_type_tokens() {
    assert_eq!(ModType::Mod.type_to_string(), "mod");
    assert_eq!(ModType::Library.type_to_string(), "lib");
}

#[test]
fn test_string_to_type() {
    assert_eq!(string_to_type("mod"), ModType::Mod);
    assert_eq!(string_to_type("lib"), ModType::Library);
    // unrecognized tokens fall back to the default variant
    assert_eq!(string_to_type("plugin"), ModType::Mod);
    assert_eq!(string_to_type(""), ModType::Mod);
}

#[test]
fn test_match_accessors() {
    let m = example_mod();
    assert_eq!(m.match_name(), "Example Mod");
    assert_eq!(m.match_author(), "Example Author");
    assert_eq!(m.match_url(), "localhost");
    assert_eq!(m.match_summary(), "Example Summary");
    assert_eq!(m.match_description(), "Example Description");
    assert_eq!(m.match_version(), "0.0.1");
    let empty = Mod::new();
    assert_eq!(empty.match_name(), "N/A");
    assert_eq!(empty.match_author(), "N/A");
    assert_eq!(empty.match_url(), "N/A");
    assert_eq!(empty.match_summary(), "N/A");
    assert_eq!(empty.match_description(), "N/A");
    assert_eq!(empty.match_version(), "N/A");
}

#[test]
fn test_flatten_field_order() {
    let pairs = example_mod().convert_to_field_map().unwrap();
    let names: Vec<&str> = pairs.iter().map(|p| p.0.as_str()).collect();
    assert_eq!(
        names,
        vec![
            "name",
            "author",
            "img_url",
            "summary",
            "description",
            "version",
            "item_type",
            "dependencies",
            "tags",
        ]
    );
}

#[test]
fn test_flatten_values() {
    let pairs = example_mod().convert_to_field_map().unwrap();
    assert_eq!(pairs[0].1, "Example Mod");
    assert_eq!(pairs[5].1, "0.0.1");
    assert_eq!(pairs[6].1, "mod");
    assert_eq!(
        pairs[7].1,
        r#"[["2b770fa6-749f-4aee-b49d-7bc4a0fe5dbe",["Example Dependency","Example Summary","0.0.1"]]]"#
    );
    assert_eq!(pairs[8].1, r#"["test","test2"]"#);
}

#[test]
fn test_flatten_absent_fields() {
    let pairs = Mod::new().convert_to_field_map().unwrap();
    assert_eq!(pairs[0].1, "N/A");
    assert_eq!(pairs[1].1, "N/A");
    assert_eq!(pairs[6].1, "mod");
    // an absent dependency list is written as an empty one
    assert_eq!(pairs[7].1, "[]");
    // an absent tag list is written as a payload that reads back absent
    assert_eq!(pairs[8].1, "null");
}

#[test]
fn test_round_trip_all_present() {
    let m = example_mod();
    let pairs = m.convert_to_field_map().unwrap();
    assert_eq!(Mod::from_field_map(pairs), m);
}

#[test]
fn test_round_trip_library_type() {
    let mut m = example_mod();
    m.item_type = ModType::Library;
    let pairs = m.convert_to_field_map().unwrap();
    assert_eq!(Mod::from_field_map(pairs), m);
}

#[test]
fn test_unflatten_empty_map() {
    assert_eq!(Mod::from_field_map(Vec::new()), Mod::new());
}

#[test]
fn test_unflatten_absent_defaults() {
    // what an all-absent record wrote reads back with "N/A" scalars, an
    // empty dependency list and no tags
    let pairs = Mod::new().convert_to_field_map().unwrap();
    let back = Mod::from_field_map(pairs);
    assert_eq!(back.name, Some("N/A".to_owned()));
    assert_eq!(back.item_type, ModType::Mod);
    assert_eq!(back.dependencies, Some(Vec::new()));
    assert_eq!(back.tags, None);
}

#[test]
fn test_unflatten_malformed_payload() {
    // a corrupt complex payload degrades to an absent list, it never
    // blocks reconstruction of the rest of the record
    let pairs: Vec<(String, String)> = vec![
        ("name".to_owned(), "kept".to_owned()),
        ("author".to_owned(), "a".to_owned()),
        ("img_url".to_owned(), "u".to_owned()),
        ("summary".to_owned(), "s".to_owned()),
        ("description".to_owned(), "d".to_owned()),
        ("version".to_owned(), "v".to_owned()),
        ("item_type".to_owned(), "lib".to_owned()),
        ("dependencies".to_owned(), "{not json".to_owned()),
        ("tags".to_owned(), "{not json".to_owned()),
    ];
    let m = Mod::from_field_map(pairs);
    assert_eq!(m.name, Some("kept".to_owned()));
    assert_eq!(m.item_type, ModType::Library);
    assert_eq!(m.dependencies, None);
    assert_eq!(m.tags, None);
}

#[test]
fn test_unflatten_bad_dependency_id() {
    // a dependency whose identifier does not parse voids the whole list
    let mut pairs = example_mod().convert_to_field_map().unwrap();
    pairs[7].1 = r#"[["zz70fa6-749f-4aee-b49d-7bc4a0fe5dbe",["a","b","c"]]]"#.to_owned();
    let m = Mod::from_field_map(pairs);
    assert_eq!(m.dependencies, None);
    assert_eq!(m.name, Some("Example Mod".to_owned()));
}

#[test]
fn test_unflatten_by_name() {
    // fields are recovered under their names, wherever they stand
    let pairs: Vec<(String, String)> = vec![
        ("version".to_owned(), "2.0".to_owned()),
        ("name".to_owned(), "Example Mod".to_owned()),
        ("item_type".to_owned(), "lib".to_owned()),
    ];
    let m = Mod::from_field_map(pairs);
    assert_eq!(m.name, Some("Example Mod".to_owned()));
    assert_eq!(m.version, Some("2.0".to_owned()));
    assert_eq!(m.item_type, ModType::Library);
    assert_eq!(m.author, None);
    assert_eq!(m.dependencies, None);
    assert_eq!(m.tags, None);
}

#[test]
fn test_unflatten_missing_middle_field() {
    // a missing field resolves to its own default and shifts nothing
    let mut pairs = example_mod().convert_to_field_map().unwrap();
    pairs.remove(3);  // drop "summary"
    let m = Mod::from_field_map(pairs);
    assert_eq!(m.summary, None);
    assert_eq!(m.name, Some("Example Mod".to_owned()));
    assert_eq!(m.description, Some("Example Description".to_owned()));
    assert_eq!(m.version, Some("0.0.1".to_owned()));
    assert_eq!(m.tags, Some(vec!["test".to_owned(), "test2".to_owned()]));
}

#[test]
fn test_unflatten_first_entry_wins() {
    // only a field name's first entry counts
    let pairs: Vec<(String, String)> = vec![
        ("name".to_owned(), "first".to_owned()),
        ("name".to_owned(), "second".to_owned()),
    ];
    let m = Mod::from_field_map(pairs);
    assert_eq!(m.name, Some("first".to_owned()));
}

#[test]
fn test_mod_fields() {
    assert_eq!(
        Mod::fields(),
        vec![
            "name",
            "author",
            "img_url",
            "summary",
            "description",
            "version",
            "item_type",
            "dependencies",
            "tags",
        ]
    );
}

#[test]
fn test_metadata_table() {
    assert_eq!(
        Test::fields(),
        vec!["name", "author", "img_url", "summary", "description", "version"]
    );
}

#[test]
fn test_sortable_round_trip() {
    assert_eq!(<Mod as Sortable>::object_to_index(), "mods");
    let m = example_mod();
    let map = m.object_to_map();
    assert_eq!(Mod::map_to_object(map), m);
}

#[test]
fn test_default_matches_new() {
    assert_eq!(Mod::default(), Mod::new());
    assert_eq!(ModType::default(), ModType::Mod);
}
