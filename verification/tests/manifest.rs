use schema_catalog::manifest::{names_a_source, parse_manifest, ManifestError, SOURCE_LIST_HEADER};

#[test]
fn header_is_the_fixed_line() {
    assert_eq!(SOURCE_LIST_HEADER, "=== InfoAPI schema list ===");
}

#[test]
fn manifest_with_two_locators() {
    let text = "=== InfoAPI schema list ===\nhttp://one/schema.json\nhttp://two/schema.json";
    assert_eq!(
        parse_manifest(text),
        Ok(vec!["http://one/schema.json".to_string(), "http://two/schema.json".to_string()])
    );
}

#[test]
fn manifest_skips_blank_lines_and_comments() {
    let text = "=== InfoAPI schema list ===\n\n# a comment\nfirst\n\nsecond\n#third\n";
    assert_eq!(parse_manifest(text), Ok(vec!["first".to_string(), "second".to_string()]));
}

#[test]
fn manifest_of_the_header_alone_has_no_locator() {
    assert_eq!(parse_manifest("=== InfoAPI schema list ==="), Ok(Vec::new()));
    assert_eq!(parse_manifest("=== InfoAPI schema list ===\n"), Ok(Vec::new()));
}

#[test]
fn manifest_without_the_header_is_refused() {
    assert_eq!(parse_manifest("first\nsecond"), Err(ManifestError::NotASchemaList));
    assert_eq!(
        parse_manifest("=== InfoAPI schema list === \nfirst"),
        Err(ManifestError::NotASchemaList)
    );
    assert_eq!(
        parse_manifest("\n=== InfoAPI schema list ===\nfirst"),
        Err(ManifestError::NotASchemaList)
    );
}

#[test]
fn empty_manifest_is_refused() {
    assert_eq!(parse_manifest(""), Err(ManifestError::Empty));
}

#[test]
fn manifest_gives_as_many_locators_as_lines_that_name_one() {
    let mut text = String::from("=== InfoAPI schema list ===");
    for i in 0..7 {
        text.push_str(&format!("\nsource-{i}"));
    }
    let locators = parse_manifest(&text).unwrap();
    assert_eq!(locators.len(), 7);
    assert_eq!(locators[6], "source-6");
}

#[test]
fn lines_that_name_a_source() {
    assert!(names_a_source("x"));
    assert!(names_a_source(" #x"));
    assert!(!names_a_source(""));
    assert!(!names_a_source("#"));
    assert!(!names_a_source("#x"));
}
