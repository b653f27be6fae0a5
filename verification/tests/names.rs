use schema_catalog::names::{threads_through, MappingName};
use schema_catalog::text::split_on;

fn name(s: &str) -> MappingName {
    MappingName(s.to_string())
}

fn names(list: &[&str]) -> Vec<MappingName> {
    list.iter().map(|s| name(s)).collect()
}

fn strings(list: &[&str]) -> Vec<String> {
    list.iter().map(|s| s.to_string()).collect()
}

#[test]
fn last_of_a_qualified_name_is_its_final_segment() {
    assert_eq!(name("a:b:c").last(), "c");
    assert_eq!(name("c").last(), "c");
}

#[test]
fn last_of_edge_names() {
    assert_eq!(name("").last(), "");
    assert_eq!(name("a:").last(), "");
    assert_eq!(name(":x").last(), "x");
    assert_eq!(name("é:ü:ß").last(), "ß");
}

#[test]
fn split_on_keeps_empty_pieces() {
    assert_eq!(split_on("a:b:c", ':'), strings(&["a", "b", "c"]));
    assert_eq!(split_on("", ':'), strings(&[""]));
    assert_eq!(split_on("a::b", ':'), strings(&["a", "", "b"]));
    assert_eq!(split_on(":", ':'), strings(&["", ""]));
    assert_eq!(split_on("one\ntwo", '\n'), strings(&["one", "two"]));
}

#[test]
fn threads_through_is_an_ordered_scan() {
    let hay = strings(&["x", "a", "y", "b"]);
    assert!(threads_through(&hay, 4, &strings(&["a", "b"]), 2));
    assert!(!threads_through(&hay, 4, &strings(&["b", "a"]), 2));
    assert!(threads_through(&hay, 4, &strings(&["b", "a"]), 1));
    assert!(!threads_through(&hay, 3, &strings(&["a", "b"]), 2));
    assert!(threads_through(&hay, 0, &strings(&["a"]), 0));
    assert!(!threads_through(&hay, 0, &strings(&["a"]), 1));
}

#[test]
fn minify_without_collision_is_last() {
    let siblings = names(&["a:b:leaf", "a:b:other", "x:y:third"]);
    assert_eq!(name("a:b:leaf").minify(&siblings), "leaf");
    assert_eq!(name("a:b:leaf").minify(&Vec::new()), "leaf");
}

#[test]
fn minify_does_not_count_the_name_itself() {
    let siblings = names(&["a:b:leaf", "a:b:leaf"]);
    assert_eq!(name("a:b:leaf").minify(&siblings), "leaf");
}

#[test]
fn minify_keeps_one_segment_when_the_first_threads_through() {
    let siblings = names(&["a:b:leaf", "a:x:leaf"]);
    assert_eq!(name("a:b:leaf").minify(&siblings), "b:leaf");
    assert_eq!(name("a:x:leaf").minify(&siblings), "x:leaf");
}

#[test]
fn minify_keeps_the_whole_name_when_nothing_resolves() {
    let siblings = names(&["a:b:leaf", "x:b:leaf"]);
    assert_eq!(name("a:b:leaf").minify(&siblings), "a:b:leaf");
    let others = names(&["a:b:leaf", "c:d:leaf"]);
    assert_eq!(name("a:b:leaf").minify(&others), "a:b:leaf");
}

#[test]
fn minify_needs_every_collision_resolved() {
    let siblings = names(&["a:b:leaf", "a:x:leaf", "q:leaf"]);
    assert_eq!(name("a:b:leaf").minify(&siblings), "a:b:leaf");
}

#[test]
fn minify_of_a_name_without_colon_is_the_name() {
    let siblings = names(&["leaf", "x:leaf", "y:z:leaf"]);
    assert_eq!(name("leaf").minify(&siblings), "leaf");
}

#[test]
fn minify_against_a_shorter_sibling() {
    let siblings = names(&["leaf", "x:leaf"]);
    assert_eq!(name("x:leaf").minify(&siblings), "x:leaf");
}

#[test]
fn minify_gives_the_same_answer_again() {
    let siblings = names(&["a:b:leaf", "a:x:leaf", "k:other"]);
    let first = name("a:b:leaf").minify(&siblings);
    let second = name("a:b:leaf").minify(&siblings);
    assert_eq!(first, second);
}

#[test]
fn minify_ignores_order_and_repetition_of_siblings() {
    let one = names(&["a:b:leaf", "a:x:leaf", "k:other"]);
    let two = names(&["k:other", "a:x:leaf", "a:x:leaf", "a:b:leaf"]);
    assert_eq!(name("a:b:leaf").minify(&one), name("a:b:leaf").minify(&two));
}
