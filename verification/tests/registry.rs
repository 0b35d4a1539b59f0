use delete_images::registry::{
    api_root, catalog_url, created_timestamp, group_tags_by_digest, manifest_url, order_by_created, tags_url,
    CreatedError, Layer, Manifest, Tag, TagGroup,
};

fn tag(name: &str, digest: &str) -> Tag {
    Tag {
        name: name.to_string(),
        manifest: Manifest { digest: digest.to_string(), layers: vec![Layer { size: 1, digest: "l".to_string() }] },
    }
}

fn group(digest: &str, created: i64) -> TagGroup {
    TagGroup { digest: digest.to_string(), created, tags: vec![] }
}

#[test]
fn grouping_keeps_each_digest_once_and_tag_order() {
    let groups = group_tags_by_digest(vec![tag("a", "d1"), tag("b", "d2"), tag("c", "d1"), tag("d", "d3"), tag("e", "d2")]);
    let shape: Vec<(String, Vec<String>)> =
        groups.iter().map(|(d, ts)| (d.clone(), ts.iter().map(|t| t.name.clone()).collect())).collect();
    assert_eq!(
        shape,
        vec![
            ("d1".to_string(), vec!["a".to_string(), "c".to_string()]),
            ("d2".to_string(), vec!["b".to_string(), "e".to_string()]),
            ("d3".to_string(), vec!["d".to_string()]),
        ]
    );
}

#[test]
fn grouping_nothing_gives_nothing() {
    assert!(group_tags_by_digest(vec![]).is_empty());
}

#[test]
fn groups_are_ordered_by_creation_stably() {
    let ordered = order_by_created(vec![group("c", 30), group("a", 10), group("b1", 20), group("b2", 20), group("z", -5)]);
    let digests: Vec<&str> = ordered.iter().map(|g| g.digest.as_str()).collect();
    assert_eq!(digests, vec!["z", "a", "b1", "b2", "c"]);
}

#[test]
fn creation_dates_drop_fractions_of_seconds() {
    assert_eq!(created_timestamp("2023-01-02T03:04:05.123456789Z").unwrap(), 1672628645);
    assert_eq!(created_timestamp("1970-01-01T00:00:00.5").unwrap(), 0);
    assert_eq!(created_timestamp("2023-01-02T03:04:05").unwrap(), 1672628645);
}

#[test]
fn creation_dates_with_other_layouts_are_refused() {
    assert!(matches!(created_timestamp("2023-01-02T03:04:05Z"), Err(CreatedError::Unparsable)));
    assert!(matches!(created_timestamp("yesterday"), Err(CreatedError::Unparsable)));
    assert!(matches!(created_timestamp(""), Err(CreatedError::Unparsable)));
}

#[test]
fn endpoint_urls() {
    let root = api_root("https://registry.example");
    assert_eq!(root, "https://registry.example/v2/");
    assert_eq!(catalog_url(&root), "https://registry.example/v2/_catalog");
    assert_eq!(tags_url(&root, "dpe/agenda-web"), "https://registry.example/v2/dpe/agenda-web/tags/list");
    assert_eq!(
        manifest_url(&root, "dpe/agenda-web", "sha256:0165"),
        "https://registry.example/v2/dpe/agenda-web/manifests/sha256:0165"
    );
}
