use parts::config::{default_directory, default_true, Config};
use parts::document::{ConfigFile, NamedConfig};
use parts::error::Error;
use parts::resolve::{try_find_config_file, try_parse_config_file, Candidate, Skipped};
use parts::toml_tree::{parse_toml, TomlEntry, TomlNode};

fn entry(key: &str, value: TomlNode) -> TomlEntry {
    TomlEntry { key: key.to_string(), value }
}

fn text(s: &str) -> TomlNode {
    TomlNode::String(s.to_string())
}

fn strings(items: &[&str]) -> Vec<String> {
    items.iter().map(|s| s.to_string()).collect()
}

const TWO_PARTS: &str = "default = \"a\"\n\n[a]\nglobs = [\"*.rs\"]\n\n[b]\ndirectory = \"src\"\nignore_hidden = false\n";

#[test]
fn parse_toml_builds_the_tree() {
    let tree = parse_toml("name = \"x\"\ncount = 3\nflag = true\nlist = [\"a\", \"b\"]\n[t]\nk = \"v\"\n").unwrap();
    assert_eq!(
        tree,
        TomlNode::Table(vec![
            entry("count", TomlNode::Integer(3)),
            entry("flag", TomlNode::Boolean(true)),
            entry("list", TomlNode::Array(vec![text("a"), text("b")])),
            entry("name", text("x")),
            entry("t", TomlNode::Table(vec![entry("k", text("v"))])),
        ])
    );
}

#[test]
fn parse_toml_keeps_floats_and_datetimes_as_marks() {
    let tree = parse_toml("f = 1.5\nd = 1979-05-27T07:32:00Z\n").unwrap();
    assert_eq!(tree, TomlNode::Table(vec![entry("d", TomlNode::Datetime), entry("f", TomlNode::Float)]));
}

#[test]
fn parse_toml_of_the_empty_text_is_the_empty_table() {
    assert_eq!(parse_toml("").unwrap(), TomlNode::Table(vec![]));
}

#[test]
fn parse_toml_refuses_malformed_text() {
    assert!(matches!(parse_toml("a = = 1"), Err(Error::TomlDecode { .. })));
    assert!(matches!(parse_toml("[unclosed"), Err(Error::TomlDecode { .. })));
    assert!(matches!(parse_toml("a = 1\na = 2\n"), Err(Error::TomlDecode { .. })));
}

#[test]
fn take_key_finds_the_value() {
    let table = TomlNode::Table(vec![entry("a", TomlNode::Integer(1)), entry("b", TomlNode::Integer(2))]);
    assert_eq!(table.take_key("b", "f.toml"), Ok(TomlNode::Integer(2)));
}

#[test]
fn take_key_reports_a_missing_key() {
    let table = TomlNode::Table(vec![entry("a", TomlNode::Integer(1))]);
    assert_eq!(
        table.take_key("z", "f.toml"),
        Err(Error::KeysNotFound { keys: "z".to_string(), path: "f.toml".to_string() })
    );
}

#[test]
fn take_key_reports_a_value_that_is_no_table() {
    assert_eq!(
        TomlNode::Integer(1).take_key("a", "f.toml"),
        Err(Error::ValueIsNotTable { path: "f.toml".to_string() })
    );
}

#[test]
fn descend_without_keys_is_the_value_itself() {
    assert_eq!(TomlNode::Boolean(true).descend(&vec![], "f.toml"), Ok(TomlNode::Boolean(true)));
}

#[test]
fn descend_goes_one_table_per_key() {
    let tree = parse_toml("[tool.parts]\ndefault = \"x\"\n[tool.other]\nk = 1\n").unwrap();
    assert_eq!(
        tree.descend(&vec!["tool", "parts"], "pyproject.toml"),
        Ok(TomlNode::Table(vec![entry("default", text("x"))]))
    );
}

#[test]
fn descend_stops_at_the_first_missing_key() {
    let tree = parse_toml("[tool.parts]\n").unwrap();
    assert_eq!(
        tree.descend(&vec!["tool", "nothing", "deeper"], "p.toml"),
        Err(Error::KeysNotFound { keys: "nothing".to_string(), path: "p.toml".to_string() })
    );
}

#[test]
fn descend_through_a_scalar_fails() {
    let tree = parse_toml("[tool]\nparts = 3\n").unwrap();
    assert_eq!(
        tree.descend(&vec!["tool", "parts", "x"], "p.toml"),
        Err(Error::ValueIsNotTable { path: "p.toml".to_string() })
    );
}

#[test]
fn a_part_without_fields_has_the_defaults() {
    let config = Config::decode("p", &TomlNode::Table(vec![])).unwrap();
    assert_eq!(
        config,
        Config {
            directory: "./".to_string(),
            ignore_hidden: true,
            use_gitignore: true,
            regexes: vec![],
            globs: vec![],
            exclude_regexes: vec![],
            exclude_globs: vec![],
        }
    );
    assert_eq!(config, Config::default());
    assert_eq!(default_directory(), "./");
    assert!(default_true());
}

#[test]
fn a_part_with_every_field() {
    let tree = parse_toml(
        "directory = \"src\"\nignore_hidden = false\nuse_gitignore = false\nregexes = [\"a+\"]\nglobs = [\"*.rs\", \"*.toml\"]\nexclude_regexes = [\"^target/\"]\nexclude_globs = [\"*.bak\"]\n",
    )
    .unwrap();
    assert_eq!(
        Config::decode("p", &tree),
        Ok(Config {
            directory: "src".to_string(),
            ignore_hidden: false,
            use_gitignore: false,
            regexes: strings(&["a+"]),
            globs: strings(&["*.rs", "*.toml"]),
            exclude_regexes: strings(&["^target/"]),
            exclude_globs: strings(&["*.bak"]),
        })
    );
}

#[test]
fn a_part_must_be_a_table() {
    assert_eq!(Config::decode("p", &text("x")), Err(Error::PartIsNotTable { part: "p".to_string() }));
}

#[test]
fn a_part_refuses_unknown_fields() {
    let table = TomlNode::Table(vec![entry("globs", TomlNode::Array(vec![])), entry("colour", text("red"))]);
    assert_eq!(
        Config::decode("p", &table),
        Err(Error::UnknownField { part: "p".to_string(), field: "colour".to_string() })
    );
}

#[test]
fn a_part_refuses_values_of_the_wrong_type() {
    let cases = [
        entry("directory", TomlNode::Integer(1)),
        entry("ignore_hidden", text("yes")),
        entry("use_gitignore", TomlNode::Integer(0)),
        entry("regexes", text("a+")),
        entry("globs", TomlNode::Array(vec![text("*.rs"), TomlNode::Integer(1)])),
        entry("exclude_regexes", TomlNode::Boolean(true)),
        entry("exclude_globs", TomlNode::Table(vec![])),
    ];
    for case in cases {
        let field = case.key.clone();
        assert_eq!(
            Config::decode("p", &TomlNode::Table(vec![case])),
            Err(Error::InvalidField { part: "p".to_string(), field })
        );
    }
}

#[test]
fn the_first_bad_field_is_reported() {
    let table = TomlNode::Table(vec![
        entry("directory", text("d")),
        entry("zzz", text("x")),
        entry("globs", TomlNode::Integer(1)),
    ]);
    assert_eq!(
        Config::decode("p", &table),
        Err(Error::UnknownField { part: "p".to_string(), field: "zzz".to_string() })
    );
}

#[test]
fn is_field_knows_the_seven_fields() {
    for field in
        ["directory", "ignore_hidden", "use_gitignore", "regexes", "globs", "exclude_regexes", "exclude_globs"]
    {
        assert!(Config::is_field(field));
    }
    assert!(!Config::is_field("default"));
    assert!(!Config::is_field("Directory"));
    assert!(!Config::is_field(""));
}

#[test]
fn decode_document_with_default_and_parts() {
    let tree = parse_toml(TWO_PARTS).unwrap();
    let doc = ConfigFile::decode(&tree).unwrap();
    assert_eq!(doc.config_file, "");
    assert_eq!(doc.default, Some("a".to_string()));
    assert_eq!(doc.names(), strings(&["a", "b"]));
    assert_eq!(doc.configs[0].config.globs, strings(&["*.rs"]));
    assert_eq!(doc.configs[1].config.directory, "src");
    assert!(!doc.configs[1].config.ignore_hidden);
    assert!(doc.configs[1].config.use_gitignore);
}

#[test]
fn decode_document_of_an_empty_table() {
    let doc = ConfigFile::decode(&TomlNode::Table(vec![])).unwrap();
    assert_eq!(doc, ConfigFile { config_file: String::new(), default: None, configs: vec![] });
}

#[test]
fn a_document_must_be_a_table() {
    assert_eq!(ConfigFile::decode(&TomlNode::Integer(3)), Err(Error::DocumentIsNotTable));
    assert_eq!(ConfigFile::decode(&TomlNode::Array(vec![])), Err(Error::DocumentIsNotTable));
}

#[test]
fn default_must_be_a_string() {
    let table = TomlNode::Table(vec![entry("default", TomlNode::Integer(1))]);
    assert_eq!(ConfigFile::decode(&table), Err(Error::DefaultIsNotString));
}

#[test]
fn every_other_entry_must_be_a_part() {
    let table = TomlNode::Table(vec![entry("a", TomlNode::Table(vec![])), entry("b", text("x"))]);
    assert_eq!(ConfigFile::decode(&table), Err(Error::PartIsNotTable { part: "b".to_string() }));
}

#[test]
fn two_parts_of_one_name_are_refused() {
    let table = TomlNode::Table(vec![
        entry("a", TomlNode::Table(vec![])),
        entry("b", TomlNode::Table(vec![])),
        entry("a", TomlNode::Table(vec![])),
    ]);
    assert_eq!(ConfigFile::decode(&table), Err(Error::DuplicatePart { part: "a".to_string() }));
}

#[test]
fn an_unknown_field_in_a_part_fails_the_document() {
    let tree = parse_toml("[a]\nglob = [\"*.rs\"]\n").unwrap();
    assert_eq!(
        ConfigFile::decode(&tree),
        Err(Error::UnknownField { part: "a".to_string(), field: "glob".to_string() })
    );
}

fn named(name: &str, directory: &str) -> NamedConfig {
    NamedConfig { name: name.to_string(), config: Config { directory: directory.to_string(), ..Config::default() } }
}

#[test]
fn a_new_document_keeps_what_it_is_given() {
    let doc = ConfigFile::new("p.toml".to_string(), Some("b".to_string()), vec![named("a", "x"), named("b", "y")])
        .unwrap();
    assert_eq!(doc.config_file, "p.toml");
    assert_eq!(doc.default, Some("b".to_string()));
    assert_eq!(doc.configs, vec![named("a", "x"), named("b", "y")]);
    assert_eq!(doc.get(None).unwrap().directory, "y");
    assert_eq!(ConfigFile::new(String::new(), None, vec![]).unwrap().configs, vec![]);
}

#[test]
fn a_new_document_refuses_two_parts_of_one_name() {
    let made = ConfigFile::new(
        String::new(),
        None,
        vec![named("a", "1"), named("b", "2"), named("c", "3"), named("b", "4"), named("a", "5")],
    );
    assert_eq!(made, Err(Error::DuplicatePart { part: "b".to_string() }));
    let twice = ConfigFile::new(String::new(), None, vec![named("x", "1"), named("x", "1")]);
    assert_eq!(twice, Err(Error::DuplicatePart { part: "x".to_string() }));
}

#[test]
fn get_without_a_name_gives_the_default_part() {
    let doc = try_parse_config_file("parts.toml", TWO_PARTS, vec![]).unwrap();
    assert!(doc.get(None).is_some());
    assert_eq!(doc.get(None), doc.get(Some("a")));
    assert_eq!(doc.get(None), doc.get_default_config());
    assert_eq!(doc.get(None).unwrap().globs, strings(&["*.rs"]));
    assert_ne!(doc.get(None), doc.get(Some("b")));
}

#[test]
fn get_of_a_missing_name_gives_nothing() {
    let doc = try_parse_config_file("parts.toml", TWO_PARTS, vec![]).unwrap();
    assert_eq!(doc.get(Some("missing")), None);
    assert_eq!(doc.find("missing"), None);
    assert!(!doc.has_name("missing"));
    assert!(doc.has_name("b"));
}

#[test]
fn part_named_names_what_is_missing() {
    let doc = try_parse_config_file("parts.toml", TWO_PARTS, vec![]).unwrap();
    assert_eq!(doc.part_named("b").unwrap().directory, "src");
    assert_eq!(doc.part_named("nope"), Err(Error::UnknownPart { part: "nope".to_string() }));
}

#[test]
fn get_without_a_default_gives_nothing() {
    let doc = try_parse_config_file("parts.toml", "[a]\n[b]\n", vec![]).unwrap();
    assert_eq!(doc.get(None), None);
    assert_eq!(doc.get_default_config(), None);
    assert!(doc.get(Some("a")).is_some());
}

#[test]
fn a_default_that_names_no_part_gives_nothing() {
    let doc = try_parse_config_file("parts.toml", "default = \"zzz\"\n[a]\n", vec![]).unwrap();
    assert_eq!(doc.get(None), None);
}

#[test]
fn matches_default_compares_with_the_default_name() {
    let doc = try_parse_config_file("parts.toml", TWO_PARTS, vec![]).unwrap();
    assert!(doc.matches_default("a"));
    assert!(!doc.matches_default("b"));
    let none = try_parse_config_file("parts.toml", "[a]\n", vec![]).unwrap();
    assert!(!none.matches_default("a"));
}

#[test]
fn lookup_does_not_depend_on_the_order_of_the_parts() {
    let a = NamedConfig { name: "a".to_string(), config: Config { directory: "one".to_string(), ..Config::default() } };
    let b = NamedConfig { name: "b".to_string(), config: Config { directory: "two".to_string(), ..Config::default() } };
    let first = ConfigFile { config_file: String::new(), default: None, configs: vec![a.clone(), b.clone()] };
    let second = ConfigFile { config_file: String::new(), default: None, configs: vec![b, a] };
    assert_eq!(first.get(Some("a")), second.get(Some("a")));
    assert_eq!(first.get(Some("b")), second.get(Some("b")));
    assert_eq!(first.get(Some("b")).unwrap().directory, "two");
}

#[test]
fn an_explicit_source_carries_its_name() {
    let doc = try_parse_config_file("parts.toml", TWO_PARTS, vec![]).unwrap();
    assert_eq!(doc.config_file, "parts.toml");
    let nested = try_parse_config_file("x.toml", "[a.b]\ndefault = \"p\"\n[a.b.p]\n", vec!["a", "b"]).unwrap();
    assert_eq!(nested.config_file, "x.toml:a.b");
    assert_eq!(nested.default, Some("p".to_string()));
    assert_eq!(nested.names(), strings(&["p"]));
}

#[test]
fn an_explicit_source_fails_on_malformed_text() {
    assert!(matches!(try_parse_config_file("p.toml", "a = ", vec![]), Err(Error::TomlDecode { .. })));
    assert!(matches!(try_parse_config_file("p.toml", "a = ", vec!["x"]), Err(Error::TomlDecode { .. })));
}

#[test]
fn an_explicit_source_fails_on_a_missing_key() {
    assert_eq!(
        try_parse_config_file("Cargo.toml", "[package]\nname = \"x\"\n", vec!["metadata", "parts"]),
        Err(Error::KeysNotFound { keys: "metadata".to_string(), path: "Cargo.toml".to_string() })
    );
}

#[test]
fn an_explicit_source_fails_where_a_key_leads_through_a_scalar() {
    assert_eq!(
        try_parse_config_file("Cargo.toml", "metadata = 1\n", vec!["metadata", "parts"]),
        Err(Error::ValueIsNotTable { path: "Cargo.toml".to_string() })
    );
}

#[test]
fn an_explicit_source_fails_on_a_schema_violation() {
    assert_eq!(
        try_parse_config_file("p.toml", "[a]\nunknown = 1\n", vec![]),
        Err(Error::UnknownField { part: "a".to_string(), field: "unknown".to_string() })
    );
    assert_eq!(try_parse_config_file("p.toml", "[t]\nx = 1\n", vec!["t", "x"]), Err(Error::DocumentIsNotTable));
}

fn candidate(source: &str, content: Option<&str>) -> Candidate {
    Candidate { source: source.to_string(), content: content.map(|s| s.to_string()) }
}

fn find(candidates: &Vec<Candidate>) -> Result<ConfigFile, Error> {
    try_find_config_file(candidates, &mut Vec::new())
}

#[test]
fn discovery_finds_the_nested_cargo_metadata() {
    let cargo = "[package]\nname = \"demo\"\n\n[metadata.parts]\ndefault = \"src\"\n\n[metadata.parts.src]\nglobs = [\"*.rs\"]\n";
    let candidates = vec![
        candidate("parts.toml", None),
        candidate(".parts.toml", None),
        candidate("Cargo.toml:metadata.parts", Some(cargo)),
        candidate("pyproject.toml:tool.parts", None),
    ];
    let doc = find(&candidates).unwrap();
    assert_eq!(doc.config_file, "Cargo.toml:metadata.parts");
    assert_eq!(doc.default, Some("src".to_string()));
    assert_eq!(doc.get(None).unwrap().globs, strings(&["*.rs"]));
}

#[test]
fn discovery_takes_the_first_candidate_that_holds_a_document() {
    let candidates = vec![
        candidate("parts.toml", Some("[first]\n")),
        candidate(".parts.toml", Some("[second]\n")),
    ];
    let doc = find(&candidates).unwrap();
    assert_eq!(doc.config_file, "parts.toml");
    assert_eq!(doc.names(), strings(&["first"]));
}

#[test]
fn discovery_without_candidates_finds_nothing() {
    assert_eq!(find(&vec![]), Err(Error::NoConfigFileFound));
}

#[test]
fn discovery_over_missing_files_finds_nothing() {
    let candidates: Vec<Candidate> =
        parts::resolve::possible_config_paths().into_iter().map(|s| candidate(s, None)).collect();
    assert_eq!(find(&candidates), Err(Error::NoConfigFileFound));
}

#[test]
fn discovery_passes_over_a_missing_key() {
    let candidates = vec![
        candidate("Cargo.toml:metadata.parts", Some("[package]\nname = \"x\"\n")),
        candidate("pyproject.toml:tool.parts", Some("[tool.parts.docs]\nglobs = [\"*.md\"]\n")),
    ];
    let doc = find(&candidates).unwrap();
    assert_eq!(doc.config_file, "pyproject.toml:tool.parts");
    assert_eq!(doc.names(), strings(&["docs"]));
}

#[test]
fn discovery_passes_over_a_schema_violation() {
    let candidates = vec![
        candidate("parts.toml", Some("[a]\nunknown = 1\n")),
        candidate(".parts.toml", Some("[b]\n")),
    ];
    let doc = find(&candidates).unwrap();
    assert_eq!(doc.config_file, ".parts.toml");
}

#[test]
fn discovery_stops_at_malformed_text() {
    let candidates = vec![
        candidate("parts.toml", None),
        candidate(".parts.toml", Some("this is = = not toml")),
        candidate("Cargo.toml:metadata.parts", Some("[metadata.parts.a]\n")),
    ];
    assert!(matches!(find(&candidates), Err(Error::TomlDecode { .. })));
}

#[test]
fn discovery_reports_what_it_passed_over() {
    let candidates = vec![
        candidate("parts.toml", None),
        candidate(".parts.toml", Some("[a]\nunknown = 1\n")),
        candidate("Cargo.toml:metadata.parts", Some("[package]\nname = \"x\"\n")),
        candidate("pyproject.toml:tool.parts", Some("[tool.parts.docs]\n")),
        candidate("later.toml", Some("[never]\nread = 1\n")),
    ];
    let earlier =
        Skipped { source: "earlier".to_string(), error: Error::NoConfigFileFound };
    let mut skipped = vec![earlier.clone()];
    let doc = try_find_config_file(&candidates, &mut skipped).unwrap();
    assert_eq!(doc.config_file, "pyproject.toml:tool.parts");
    assert_eq!(
        skipped,
        vec![
            earlier,
            Skipped {
                source: ".parts.toml".to_string(),
                error: Error::UnknownField { part: "a".to_string(), field: "unknown".to_string() },
            },
            Skipped {
                source: "Cargo.toml:metadata.parts".to_string(),
                error: Error::KeysNotFound { keys: "metadata".to_string(), path: "Cargo.toml".to_string() },
            },
        ]
    );
}

#[test]
fn discovery_reports_nothing_after_malformed_text() {
    let candidates = vec![
        candidate("parts.toml", Some("value = 3\n[value]\n")),
        candidate(".parts.toml", Some("not toml at all [")),
    ];
    let mut skipped = Vec::new();
    let found = try_find_config_file(&candidates, &mut skipped);
    assert!(matches!(found, Err(Error::TomlDecode { .. })));
    assert!(skipped.is_empty());
}

#[test]
fn discovery_that_finds_nothing_reports_every_candidate_read() {
    let candidates = vec![
        candidate("parts.toml", Some("x = 1\n")),
        candidate(".parts.toml", None),
        candidate("Cargo.toml:metadata.parts", Some("metadata = 1\n")),
    ];
    let mut skipped = Vec::new();
    assert_eq!(try_find_config_file(&candidates, &mut skipped), Err(Error::NoConfigFileFound));
    assert_eq!(
        skipped,
        vec![
            Skipped { source: "parts.toml".to_string(), error: Error::PartIsNotTable { part: "x".to_string() } },
            Skipped {
                source: "Cargo.toml:metadata.parts".to_string(),
                error: Error::ValueIsNotTable { path: "Cargo.toml".to_string() },
            },
        ]
    );
}

#[test]
fn only_malformed_text_is_fatal() {
    assert!(Error::TomlDecode { message: String::new() }.is_fatal());
    assert!(!Error::NoConfigFileFound.is_fatal());
    assert!(!Error::KeysNotFound { keys: String::new(), path: String::new() }.is_fatal());
    assert!(!Error::ValueIsNotTable { path: String::new() }.is_fatal());
    assert!(!Error::DocumentIsNotTable.is_fatal());
    assert!(!Error::UnknownField { part: String::new(), field: String::new() }.is_fatal());
}
