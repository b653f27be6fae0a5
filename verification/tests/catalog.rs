use schema_catalog::catalog::{aggregate, AggregateError, All, Data};
use schema_catalog::names::MappingName;
use schema_catalog::schema::{
    KindDef, KindId, KnownKindMetadata, KnownMappingMetadata, MappingDef, SourceError,
    SourceSchema,
};

fn kind_id(s: &str) -> KindId {
    KindId(s.to_string())
}

fn kind(id: &str, help: &str) -> (KindId, KindDef) {
    (
        kind_id(id),
        KindDef { help: help.to_string(), can_display: false, metadata: KnownKindMetadata::default() },
    )
}

fn mapping(source: &str, name: &str, target: &str, plugin: Option<&str>) -> MappingDef {
    MappingDef {
        source_kind: kind_id(source),
        target_kind: kind_id(target),
        name: MappingName(name.to_string()),
        is_implicit: false,
        parameters: Vec::new(),
        mutable: false,
        help: String::new(),
        metadata: KnownMappingMetadata {
            source_plugin: plugin.map(|p| p.to_string()),
            alias_of: None,
        },
    }
}

fn fetch_failure(locator: &str) -> SourceError {
    SourceError::Fetch { locator: locator.to_string(), detail: "HTTP 500".to_string() }
}

fn catalog_of(data: &Data) -> &All {
    data.catalog()
}

#[test]
fn default_metadata_is_blank() {
    let k = KnownKindMetadata::default();
    assert!(!k.is_root);
    assert!(k.template_name.is_none());
    assert!(k.source_plugin.is_none());
    let m = KnownMappingMetadata::default();
    assert!(m.source_plugin.is_none());
    assert!(m.alias_of.is_none());
}

#[test]
fn one_good_source_and_one_failed_source() {
    let good = SourceSchema::new(
        vec![kind("player", ""), kind("world", ""), kind("item", "")],
        vec![
            mapping("player", "core:world", "world", Some("core")),
            mapping("player", "core:item", "item", None),
        ],
    );
    let data = aggregate(vec![Ok(good), Err(fetch_failure("http://two"))]).unwrap();
    let all = catalog_of(&data);
    assert_eq!(all.kinds.len(), 3);
    assert_eq!(all.mappings.len(), 2);
    assert_eq!(all.errors.len(), 1);
    assert!(matches!(&all.errors[0], SourceError::Fetch { locator, .. } if locator == "http://two"));
    assert_eq!(all.known_plugins, vec!["core".to_string()]);
}

#[test]
fn all_sources_failed() {
    let r = aggregate(vec![
        Err(fetch_failure("a")),
        Err(SourceError::Parse { locator: "b".to_string(), detail: "bad".to_string() }),
    ]);
    assert!(matches!(r, Err(AggregateError::EmptyCatalog)));
}

#[test]
fn no_source_at_all() {
    assert!(matches!(aggregate(Vec::new()), Err(AggregateError::EmptyCatalog)));
}

#[test]
fn sources_without_kinds_give_no_catalog() {
    let empty = SourceSchema::new(Vec::new(), vec![mapping("a", "x:y", "b", Some("p"))]);
    assert!(matches!(aggregate(vec![Ok(empty)]), Err(AggregateError::EmptyCatalog)));
}

#[test]
fn failures_are_counted_when_a_source_succeeds() {
    let good = SourceSchema::new(vec![kind("k", "")], Vec::new());
    let data = aggregate(vec![
        Err(fetch_failure("a")),
        Ok(good),
        Err(fetch_failure("c")),
        Ok(SourceSchema::new(Vec::new(), Vec::new())),
    ])
    .unwrap();
    let all = catalog_of(&data);
    assert_eq!(all.errors.len(), 2);
    assert!(matches!(&all.errors[0], SourceError::Fetch { locator, .. } if locator == "a"));
    assert!(matches!(&all.errors[1], SourceError::Fetch { locator, .. } if locator == "c"));
    assert_eq!(all.kinds.len(), 1);
}

#[test]
fn later_definition_of_a_kind_replaces_the_earlier() {
    let first = SourceSchema::new(vec![kind("k", "first"), kind("only", "one")], Vec::new());
    let second = SourceSchema::new(vec![kind("k", "second")], Vec::new());
    let mut all = All::new();
    all.extend(vec![Ok(first), Ok(second)]);
    assert_eq!(all.kinds.len(), 2);
    assert_eq!(all.kind(&kind_id("k")).unwrap().help, "second");
    assert_eq!(all.kind(&kind_id("only")).unwrap().help, "one");
    assert!(all.kind(&kind_id("none")).is_none());
}

#[test]
fn later_kind_within_one_source_replaces_the_earlier() {
    let mut all = All::new();
    all.merge(SourceSchema::new(vec![kind("k", "first"), kind("k", "second")], Vec::new()));
    assert_eq!(all.kinds.len(), 1);
    assert_eq!(all.kind(&kind_id("k")).unwrap().help, "second");
}

#[test]
fn disjoint_sources_merge_the_same_in_either_order() {
    let a = || {
        SourceSchema::new(vec![kind("a", "A")], vec![mapping("a", "p:one", "b", Some("p"))])
    };
    let b = || {
        SourceSchema::new(vec![kind("b", "B")], vec![mapping("b", "q:two", "a", Some("q"))])
    };
    let mut ab = All::new();
    ab.extend(vec![Ok(a()), Ok(b())]);
    let mut ba = All::new();
    ba.extend(vec![Ok(b()), Ok(a())]);
    for id in ["a", "b"] {
        assert_eq!(ab.kind(&kind_id(id)).unwrap().help, ba.kind(&kind_id(id)).unwrap().help);
    }
    assert_eq!(ab.mappings.len(), 2);
    assert_eq!(ba.mappings.len(), 2);
    for (source, name) in [("a", "p:one"), ("b", "q:two")] {
        let x = ab.mapping(&kind_id(source), &MappingName(name.to_string())).unwrap();
        let y = ba.mapping(&kind_id(source), &MappingName(name.to_string())).unwrap();
        assert_eq!(x.target_kind, y.target_kind);
    }
    for tag in ["p", "q"] {
        assert!(ab.knows_plugin(&tag.to_string()));
        assert!(ba.knows_plugin(&tag.to_string()));
    }
}

#[test]
fn mapping_with_the_same_key_is_overwritten() {
    let mut all = All::new();
    all.put_mapping(mapping("a", "p:one", "b", Some("p")));
    all.put_mapping(mapping("a", "p:one", "c", Some("p")));
    all.put_mapping(mapping("b", "p:one", "c", None));
    assert_eq!(all.mappings.len(), 2);
    let found = all.mapping(&kind_id("a"), &MappingName("p:one".to_string())).unwrap();
    assert_eq!(found.target_kind, kind_id("c"));
    assert!(all.mapping(&kind_id("c"), &MappingName("p:one".to_string())).is_none());
    assert_eq!(all.known_plugins, vec!["p".to_string()]);
}

#[test]
fn every_mapping_stands_under_its_own_key() {
    let mut all = All::new();
    all.merge(SourceSchema::new(
        vec![kind("a", "")],
        vec![mapping("a", "p:one", "b", None), mapping("b", "p:two", "a", None)],
    ));
    for def in all.mappings.iter() {
        let found = all.mapping(&def.source_kind, &def.name).unwrap();
        assert_eq!(found.source_kind, def.source_kind);
        assert_eq!(found.name, def.name);
    }
}

#[test]
fn plugin_tags_are_kept_once() {
    let mut all = All::new();
    all.note_plugin(&"p".to_string());
    all.note_plugin(&"q".to_string());
    all.note_plugin(&"p".to_string());
    assert_eq!(all.known_plugins, vec!["p".to_string(), "q".to_string()]);
    assert!(all.knows_plugin(&"q".to_string()));
    assert!(!all.knows_plugin(&"r".to_string()));
}

#[test]
fn positions_of_kinds_and_mappings() {
    let mut all = All::new();
    all.put_kind(kind_id("a"), kind("a", "").1);
    all.put_kind(kind_id("b"), kind("b", "").1);
    assert_eq!(all.kind_position(&kind_id("b")), Some(1));
    assert_eq!(all.kind_position(&kind_id("c")), None);
    all.put_mapping(mapping("a", "n", "b", None));
    assert_eq!(all.mapping_position(&kind_id("a"), &MappingName("n".to_string())), Some(0));
    assert_eq!(all.mapping_position(&kind_id("a"), &MappingName("m".to_string())), None);
}

#[test]
fn sibling_names_feed_minify() {
    let mut all = All::new();
    all.merge(SourceSchema::new(
        vec![kind("player", "")],
        vec![
            mapping("player", "a:b:leaf", "x", None),
            mapping("world", "z:leaf", "x", None),
            mapping("player", "a:x:leaf", "x", None),
        ],
    ));
    let siblings = all.sibling_names(&kind_id("player"));
    assert_eq!(
        siblings,
        vec![MappingName("a:b:leaf".to_string()), MappingName("a:x:leaf".to_string())]
    );
    assert_eq!(siblings[0].minify(&siblings), "b:leaf");
    assert!(all.sibling_names(&kind_id("nobody")).is_empty());
}

#[test]
fn record_failure_appends() {
    let mut all = All::new();
    all.record_failure(fetch_failure("one"));
    all.record_failure(fetch_failure("two"));
    assert_eq!(all.errors.len(), 2);
    assert!(matches!(&all.errors[1], SourceError::Fetch { locator, .. } if locator == "two"));
}

#[test]
fn handles_are_equal_when_they_share_a_snapshot() {
    let build = || {
        let mut all = All::new();
        all.put_kind(kind_id("a"), kind("a", "").1);
        Data::new(all)
    };
    let one = build();
    let shared = one.clone();
    let other = build();
    assert!(one.same_snapshot(&shared));
    assert!(!one.same_snapshot(&other));
    assert_eq!(one.catalog().kinds.len(), 1);
}

#[test]
fn short_name_among_the_mappings_of_a_kind() {
    let mut all = All::new();
    all.merge(SourceSchema::new(
        vec![kind("player", "")],
        vec![
            mapping("player", "a:b:leaf", "x", None),
            mapping("player", "a:x:leaf", "x", None),
            mapping("player", "a:b:twig", "x", None),
            mapping("world", "q:twig", "x", None),
        ],
    ));
    let player = kind_id("player");
    assert_eq!(all.short_name(&player, &MappingName("a:b:leaf".to_string())), "b:leaf");
    assert_eq!(all.short_name(&player, &MappingName("a:b:twig".to_string())), "twig");
    assert_eq!(all.short_name(&kind_id("world"), &MappingName("q:twig".to_string())), "twig");
}
