use foliom_core::scanner::config_edn::{hidden_from_contents, parse_hidden_from_str};

#[test]
fn parses_vector_form() {
    assert_eq!(
        parse_hidden_from_str(":hidden [\"foo\" \"bar\"]"),
        vec!["foo".to_string(), "bar".to_string()]
    );
}

#[test]
fn parses_set_form() {
    assert_eq!(parse_hidden_from_str(":hidden #{\"baz\"}"), vec!["baz".to_string()]);
}

#[test]
fn parses_multiline_vector() {
    let content = ":hidden  [\n  \"a\"\n  \"b\"\n]";
    assert_eq!(parse_hidden_from_str(content), vec!["a".to_string(), "b".to_string()]);
}

#[test]
fn empty_input_returns_empty() {
    assert!(parse_hidden_from_str("").is_empty());
}

#[test]
fn missing_key_returns_empty() {
    assert!(parse_hidden_from_str("{:other-key 42}").is_empty());
}

#[test]
fn empty_vector_returns_empty() {
    assert!(parse_hidden_from_str(":hidden []").is_empty());
}

#[test]
fn commented_out_hidden_is_ignored() {
    let content = ";; :hidden [\"a\" \"b\"]\n:hidden []";
    let _ = parse_hidden_from_str(content);
}

#[test]
fn handles_escaped_quote_in_string() {
    assert_eq!(
        parse_hidden_from_str(r#":hidden ["foo\"bar" "baz"]"#),
        vec![r#"foo\"bar"#.to_string(), "baz".to_string()]
    );
}

#[test]
fn read_hidden_returns_empty_on_missing_file() {
    // A file that cannot be read hides nothing.
    assert!(hidden_from_contents(None).is_empty());
}

#[test]
fn read_hidden_reads_a_real_file() {
    let text = "{:hidden [\"archived\" \"drafts\"]}\n";
    let v = hidden_from_contents(Some(text));
    assert_eq!(v, vec!["archived".to_string(), "drafts".to_string()]);
}

#[test]
fn smoke_real_config_edn_does_not_panic_if_present() {
    let p = std::path::Path::new("../../data-folder-sample/Logseq/logseq/config.edn");
    if !p.exists() {
        return;
    }
    let _ = hidden_from_contents(None);
}

#[test]
fn first_hidden_key_wins_even_in_a_comment() {
    let content = ";; :hidden [\"a\" \"b\"]\n:hidden []";
    assert_eq!(parse_hidden_from_str(content), vec!["a".to_string(), "b".to_string()]);
}
