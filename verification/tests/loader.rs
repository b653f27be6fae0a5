use schema_catalog::catalog::AggregateError;
use schema_catalog::filter::{tag_position, PluginFilter};
use schema_catalog::loader::{outcome_of, Aggregation, Fetched};
use schema_catalog::manifest::ManifestError;
use schema_catalog::names::MappingName;
use schema_catalog::schema::{
    KindDef, KindId, KnownKindMetadata, KnownMappingMetadata, MappingDef, SourceError,
    SourceSchema,
};

fn a_kind(id: &str) -> (KindId, KindDef) {
    (
        KindId(id.to_string()),
        KindDef { help: String::new(), can_display: true, metadata: KnownKindMetadata::default() },
    )
}

fn a_mapping(source: &str, name: &str) -> MappingDef {
    MappingDef {
        source_kind: KindId(source.to_string()),
        target_kind: KindId("t".to_string()),
        name: MappingName(name.to_string()),
        is_implicit: true,
        parameters: Vec::new(),
        mutable: false,
        help: "h".to_string(),
        metadata: KnownMappingMetadata::default(),
    }
}

#[test]
fn outcome_of_a_schema_is_the_schema() {
    let schema = SourceSchema::new(vec![a_kind("k")], Vec::new());
    let r = outcome_of(&"loc".to_string(), Fetched::Schema(schema)).ok().unwrap();
    assert_eq!(r.kinds.len(), 1);
}

#[test]
fn outcome_of_a_failure_names_the_locator() {
    let r = outcome_of(&"loc".to_string(), Fetched::Unreachable("HTTP 500".to_string()));
    assert!(matches!(
        r,
        Err(SourceError::Fetch { locator, detail }) if locator == "loc" && detail == "HTTP 500"
    ));
    let r = outcome_of(&"loc".to_string(), Fetched::Malformed("not json".to_string()));
    assert!(matches!(
        r,
        Err(SourceError::Parse { locator, detail }) if locator == "loc" && detail == "not json"
    ));
}

#[test]
fn aggregation_of_two_sources_one_of_which_fails() {
    let text = "=== InfoAPI schema list ===\nhttp://one\nhttp://two";
    let mut agg = Aggregation::start(text).ok().unwrap();
    assert_eq!(agg.locators, vec!["http://one".to_string(), "http://two".to_string()]);
    assert_eq!(agg.done, vec![false, false]);
    assert!(!agg.is_complete());
    agg.absorb(1, Fetched::Unreachable("HTTP 500".to_string()));
    assert_eq!(agg.done, vec![false, true]);
    assert!(!agg.is_complete());
    let schema = SourceSchema::new(
        vec![a_kind("a"), a_kind("b"), a_kind("c")],
        vec![a_mapping("a", "x:one"), a_mapping("a", "x:two")],
    );
    agg.absorb(0, Fetched::Schema(schema));
    assert!(agg.is_complete());
    let data = agg.finish().ok().unwrap();
    let all = data.catalog();
    assert_eq!(all.kinds.len(), 3);
    assert_eq!(all.mappings.len(), 2);
    assert_eq!(all.errors.len(), 1);
    assert!(matches!(&all.errors[0], SourceError::Fetch { locator, .. } if locator == "http://two"));
}

#[test]
fn aggregation_without_a_source_list() {
    assert!(matches!(
        Aggregation::start(""),
        Err(AggregateError::Manifest(ManifestError::Empty))
    ));
    assert!(matches!(
        Aggregation::start("<html>"),
        Err(AggregateError::Manifest(ManifestError::NotASchemaList))
    ));
}

#[test]
fn aggregation_in_which_every_source_fails() {
    let text = "=== InfoAPI schema list ===\none\ntwo\nthree";
    let mut agg = Aggregation::start(text).ok().unwrap();
    agg.absorb(2, Fetched::Malformed("x".to_string()));
    agg.absorb(0, Fetched::Unreachable("y".to_string()));
    agg.absorb(1, Fetched::Unreachable("z".to_string()));
    assert!(agg.is_complete());
    assert_eq!(agg.catalog.errors.len(), 3);
    assert!(matches!(agg.finish(), Err(AggregateError::EmptyCatalog)));
}

#[test]
fn aggregation_of_an_empty_list_is_complete_and_empty() {
    let agg = Aggregation::start("=== InfoAPI schema list ===\n# nothing\n").ok().unwrap();
    assert!(agg.locators.is_empty());
    assert!(agg.is_complete());
    assert!(matches!(agg.finish(), Err(AggregateError::EmptyCatalog)));
}

#[test]
fn filter_shows_untagged_mappings_and_known_tags() {
    let filter = PluginFilter::from_tags(vec!["p".to_string(), "q".to_string(), "p".to_string()]);
    assert_eq!(filter.shown, vec!["p".to_string(), "q".to_string()]);
    assert!(filter.contains(None));
    assert!(filter.contains(Some(&"p".to_string())));
    assert!(!filter.contains(Some(&"r".to_string())));
}

#[test]
fn filter_toggle_switches_off_and_on() {
    let mut filter = PluginFilter::from_tags(vec!["p".to_string(), "q".to_string()]);
    filter.toggle("p".to_string());
    assert_eq!(filter.shown, vec!["q".to_string()]);
    assert!(!filter.contains(Some(&"p".to_string())));
    filter.toggle("r".to_string());
    assert_eq!(filter.shown, vec!["q".to_string(), "r".to_string()]);
    filter.toggle("p".to_string());
    assert!(filter.contains(Some(&"p".to_string())));
    filter.toggle("p".to_string());
    filter.toggle("q".to_string());
    filter.toggle("r".to_string());
    assert!(filter.shown.is_empty());
}

#[test]
fn tag_position_finds_the_first_place() {
    let tags = vec!["a".to_string(), "b".to_string()];
    assert_eq!(tag_position(&tags, &"b".to_string()), Some(1));
    assert_eq!(tag_position(&tags, &"c".to_string()), None);
}
