use parts::error::Error;
use parts::resolve::possible_config_paths;
use parts::source::{source_string, split_path_and_keys, validate_config_file_value, validated};

#[test]
fn split_path_with_two_keys() {
    let (path, keys) = split_path_and_keys("a.toml:x.y");
    assert_eq!(path, "a.toml");
    assert_eq!(keys, vec!["x", "y"]);
}

#[test]
fn split_path_without_keys() {
    let (path, keys) = split_path_and_keys(".parts.toml");
    assert_eq!(path, ".parts.toml");
    assert!(keys.is_empty());
}

#[test]
fn split_nested_metadata_source() {
    let (path, keys) = split_path_and_keys("Cargo.toml:metadata.parts");
    assert_eq!(path, "Cargo.toml");
    assert_eq!(keys, vec!["metadata", "parts"]);
}

#[test]
fn split_happens_on_the_first_colon_only() {
    let (path, keys) = split_path_and_keys("a:b:c.d");
    assert_eq!(path, "a");
    assert_eq!(keys, vec!["b:c", "d"]);
}

#[test]
fn split_keeps_empty_keys() {
    let (path, keys) = split_path_and_keys("a.toml:");
    assert_eq!(path, "a.toml");
    assert_eq!(keys, vec![""]);

    let (path, keys) = split_path_and_keys("a.toml:x..y.");
    assert_eq!(path, "a.toml");
    assert_eq!(keys, vec!["x", "", "y", ""]);
}

#[test]
fn split_of_the_empty_source() {
    let (path, keys) = split_path_and_keys("");
    assert_eq!(path, "");
    assert!(keys.is_empty());
}

#[test]
fn split_single_key() {
    let (path, keys) = split_path_and_keys("file:key");
    assert_eq!(path, "file");
    assert_eq!(keys, vec!["key"]);
}

#[test]
fn split_handles_text_beyond_ascii() {
    let (path, keys) = split_path_and_keys("dossier/été.toml:clé.naïve");
    assert_eq!(path, "dossier/été.toml");
    assert_eq!(keys, vec!["clé", "naïve"]);
}

#[test]
fn source_string_joins_what_split_parted() {
    for source in [
        "a.toml:x.y",
        ".parts.toml",
        "Cargo.toml:metadata.parts",
        "a:b:c.d",
        "a.toml:",
        "a.toml:x..y.",
        "",
        ":",
        "pyproject.toml:tool.parts",
    ] {
        let (path, keys) = split_path_and_keys(source);
        assert_eq!(source_string(path, &keys), source);
    }
}

#[test]
fn source_string_without_keys_is_the_path() {
    assert_eq!(source_string("parts.toml", &vec![]), "parts.toml");
}

#[test]
fn source_string_with_keys() {
    assert_eq!(source_string("Cargo.toml", &vec!["metadata", "parts"]), "Cargo.toml:metadata.parts");
    assert_eq!(source_string("x", &vec!["only"]), "x:only");
}

#[test]
fn no_key_holds_a_dot_and_no_path_a_colon() {
    for source in ["a.b:c.d.e", "x:y:z", "plain", "a.toml:k1.k2:k3.k4"] {
        let (path, keys) = split_path_and_keys(source);
        assert!(!path.contains(':'));
        for key in keys {
            assert!(!key.contains('.'));
        }
    }
}

#[test]
fn validated_accepts_an_existing_path() {
    assert_eq!(validated("x.toml:a.b", true), Ok("x.toml:a.b".to_string()));
}

#[test]
fn validated_refuses_a_missing_path() {
    assert_eq!(
        validated("x.toml:a.b", false),
        Err(Error::ConfigFileDoesNotExist { value: "x.toml:a.b".to_string() })
    );
}

#[test]
fn validate_looks_at_the_path_only() {
    assert_eq!(validate_config_file_value("/:no.such.keys"), Ok("/:no.such.keys".to_string()));
    assert_eq!(validate_config_file_value("/"), Ok("/".to_string()));
}

#[test]
fn validate_refuses_a_path_that_does_not_exist() {
    let value = "/no/such/directory/parts.toml:tool.parts";
    assert_eq!(
        validate_config_file_value(value),
        Err(Error::ConfigFileDoesNotExist { value: value.to_string() })
    );
}

#[test]
fn conventional_sources_in_order() {
    assert_eq!(
        possible_config_paths(),
        vec!["parts.toml", ".parts.toml", "Cargo.toml:metadata.parts", "pyproject.toml:tool.parts"]
    );
}
