use parts::config::Config;
use parts::document::{ConfigFile, NamedConfig};
use parts::listing::{decimal_string, list_layout, Span, Style};
use parts::status::StatusCommand;

fn span(text: &str, style: Style) -> Span {
    Span { text: text.to_string(), style }
}

fn plain(text: &str) -> Span {
    span(text, Style::Plain)
}

fn bold(text: &str) -> Span {
    span(text, Style::Bold)
}

fn document(source: &str, default: Option<&str>, names: &[&str]) -> ConfigFile {
    ConfigFile {
        config_file: source.to_string(),
        default: default.map(|s| s.to_string()),
        configs: names.iter().map(|n| NamedConfig { name: n.to_string(), config: Config::default() }).collect(),
    }
}

#[test]
fn decimal_string_writes_numbers() {
    assert_eq!(decimal_string(0), "0");
    assert_eq!(decimal_string(7), "7");
    assert_eq!(decimal_string(9), "9");
    assert_eq!(decimal_string(10), "10");
    assert_eq!(decimal_string(42), "42");
    assert_eq!(decimal_string(100), "100");
    assert_eq!(decimal_string(1234567890), "1234567890");
    assert_eq!(decimal_string(usize::MAX), usize::MAX.to_string());
}

#[test]
fn listing_of_a_document_without_parts() {
    let doc = document("parts.toml", None, &[]);
    assert_eq!(
        doc.write_list(),
        vec![plain("Found not part in file: "), span("parts.toml", Style::Underline), plain("\n")]
    );
}

#[test]
fn listing_of_a_document_with_one_part() {
    let doc = document(".parts.toml", None, &["only"]);
    assert_eq!(
        doc.write_list(),
        vec![
            plain("Found 1 part in file: "),
            span(".parts.toml", Style::Underline),
            plain("\n"),
            plain("\n"),
            plain("- "),
            plain("only"),
            plain("\n"),
        ]
    );
}

#[test]
fn listing_sorts_the_names_and_marks_the_default() {
    let doc = document("Cargo.toml:metadata.parts", Some("docs"), &["src", "docs", "all"]);
    assert_eq!(
        doc.write_list(),
        vec![
            plain("Found 3 part in file: "),
            span("Cargo.toml", Style::Underline),
            plain(" -> "),
            bold("metadata"),
            plain(" -> "),
            bold("parts"),
            plain("\n"),
            plain("\n"),
            plain("- "),
            plain("all"),
            plain("\n"),
            plain("- "),
            bold("docs (default)\n"),
            plain("- "),
            plain("src"),
            plain("\n"),
        ]
    );
}

#[test]
fn listing_sorts_by_the_order_of_strings() {
    let doc = document("p.toml", None, &["b", "a10", "B", "a2", "ab", "a", "é", "z"]);
    let names: Vec<String> =
        doc.write_list().into_iter().skip(4).filter(|s| s.text != "- " && s.text != "\n").map(|s| s.text).collect();
    assert_eq!(names, vec!["B", "a", "a10", "a2", "ab", "b", "z", "é"]);
}

#[test]
fn listing_counts_many_parts() {
    let names: Vec<String> = (0..12).map(|i| format!("part{}", i)).collect();
    let refs: Vec<&str> = names.iter().map(|s| s.as_str()).collect();
    let doc = document("parts.toml", None, &refs);
    let spans = doc.write_list();
    assert_eq!(spans[0], plain("Found 12 part in file: "));
    assert_eq!(spans.len(), 4 + 3 * 12);
}

#[test]
fn a_default_that_names_no_part_marks_nothing() {
    let doc = document("parts.toml", Some("gone"), &["a"]);
    assert!(doc.write_list().iter().all(|s| s.style != Style::Bold));
}

#[test]
fn layout_lists_the_names_in_the_order_given() {
    let names = vec!["z".to_string(), "a".to_string()];
    let spans = list_layout("f.toml:k", &names, &Some("z".to_string()));
    assert_eq!(
        spans,
        vec![
            plain("Found 2 part in file: "),
            span("f.toml", Style::Underline),
            plain(" -> "),
            bold("k"),
            plain("\n"),
            plain("\n"),
            plain("- "),
            bold("z (default)\n"),
            plain("- "),
            plain("a"),
            plain("\n"),
        ]
    );
}

#[test]
fn names_stand_as_in_the_document() {
    let doc = document("p.toml", None, &["b", "a"]);
    assert_eq!(doc.names(), vec!["b", "a"]);
}

#[test]
fn status_command_keeps_its_path() {
    let command = StatusCommand::new("some/where".to_string());
    assert_eq!(command.path(), "some/where");
}
