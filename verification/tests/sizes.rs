use delete_images::registry::{Layer, Manifest, ScanElement, Tag, TagGroup};
use delete_images::sizes::{calculate, order_by_dedup_size};

fn layer(size: usize, digest: &str) -> Layer {
    Layer { size, digest: digest.to_string() }
}

fn tag(name: &str, layers: Vec<Layer>) -> Tag {
    Tag { name: name.to_string(), manifest: Manifest { digest: format!("m-{}", name), layers } }
}

fn repo(name: &str, groups: Vec<Vec<Tag>>) -> ScanElement {
    ScanElement {
        repository: name.to_string(),
        tags_grouped_by_digest: groups
            .into_iter()
            .enumerate()
            .map(|(i, tags)| TagGroup { digest: format!("g{}", i), created: 0, tags })
            .collect(),
    }
}

fn sizes_of(table: &delete_images::sizes::SizeTable, name: &str) -> (usize, usize) {
    let s = table.get(&name.to_string()).expect("present");
    (s.size, s.size_dedup_global)
}

#[test]
fn each_shared_layer_counts_once_for_the_first_repository() {
    let elements = vec![
        repo("alpine", vec![vec![tag("a1", vec![layer(100, "base"), layer(10, "x")])]]),
        repo("app", vec![vec![tag("b1", vec![layer(100, "base"), layer(5, "y")]), tag("b2", vec![layer(5, "y")])]]),
    ];
    let table = calculate(&elements);
    assert_eq!(sizes_of(&table, "alpine"), (110, 110));
    assert_eq!(sizes_of(&table, "app"), (110, 5));
    assert_eq!(sizes_of(&table, "TOTALS"), (220, 115));
}

#[test]
fn fully_shared_repository_shows_zero_deduplicated_size() {
    let elements = vec![
        repo("first", vec![vec![tag("t", vec![layer(7, "a"), layer(9, "b")])]]),
        repo("second", vec![vec![tag("u", vec![layer(9, "b"), layer(7, "a")])]]),
    ];
    let table = calculate(&elements);
    assert_eq!(sizes_of(&table, "first"), (16, 16));
    assert_eq!(sizes_of(&table, "second"), (16, 0));
    assert_eq!(sizes_of(&table, "TOTALS"), (32, 16));
}

#[test]
fn empty_scan_has_zero_totals() {
    let table = calculate(&vec![]);
    assert_eq!(sizes_of(&table, "TOTALS"), (0, 0));
    assert!(table.get(&"anything".to_string()).is_none());
}

#[test]
fn a_repository_named_totals_is_replaced_by_the_totals() {
    let elements = vec![repo("TOTALS", vec![vec![tag("t", vec![layer(3, "a")])]]), repo("r", vec![vec![tag("t", vec![layer(4, "b")])]])];
    let table = calculate(&elements);
    assert_eq!(sizes_of(&table, "TOTALS"), (7, 7));
}

#[test]
fn a_later_repository_of_the_same_name_wins() {
    let elements = vec![repo("r", vec![vec![tag("t", vec![layer(3, "a")])]]), repo("r", vec![vec![tag("t", vec![layer(4, "a")])]])];
    let table = calculate(&elements);
    assert_eq!(sizes_of(&table, "r"), (4, 0));
}

#[test]
fn repositories_are_ordered_by_deduplicated_size_largest_first() {
    let elements = vec![
        repo("small", vec![vec![tag("t", vec![layer(1, "a")])]]),
        repo("big", vec![vec![tag("t", vec![layer(50, "b")])]]),
        repo("tie1", vec![vec![tag("t", vec![layer(10, "c")])]]),
        repo("shared", vec![vec![tag("t", vec![layer(50, "b")])]]),
        repo("tie2", vec![vec![tag("t", vec![layer(10, "d")])]]),
    ];
    let table = calculate(&elements);
    let ordered = order_by_dedup_size(elements, &table);
    let names: Vec<&str> = ordered.iter().map(|e| e.repository.as_str()).collect();
    assert_eq!(names, vec!["big", "tie1", "tie2", "small", "shared"]);
}

#[test]
fn distinct_layers_lose_nothing_to_deduplication() {
    let elements = vec![
        repo("a", vec![vec![tag("t", vec![layer(1, "x"), layer(2, "y")])]]),
        repo("b", vec![vec![tag("t", vec![layer(4, "z")])], vec![tag("u", vec![layer(8, "w")])]]),
    ];
    let table = calculate(&elements);
    assert_eq!(sizes_of(&table, "a"), (3, 3));
    assert_eq!(sizes_of(&table, "b"), (12, 12));
    assert_eq!(sizes_of(&table, "TOTALS"), (15, 15));
}

#[test]
fn reordering_repositories_keeps_the_totals() {
    let first = || repo("alpine", vec![vec![tag("a1", vec![layer(100, "base"), layer(10, "x")])]]);
    let second = || repo("app", vec![vec![tag("b1", vec![layer(100, "base"), layer(5, "y")]), tag("b2", vec![layer(5, "y")])]]);
    let third = || repo("tool", vec![vec![tag("c1", vec![layer(10, "x"), layer(1, "z")])]]);
    let one = calculate(&vec![first(), second(), third()]);
    let other = calculate(&vec![third(), second(), first()]);
    assert_eq!(sizes_of(&one, "TOTALS"), (231, 116));
    assert_eq!(sizes_of(&other, "TOTALS"), (231, 116));
    // Only the split of the deduplicated size among the repositories moves.
    assert_eq!(sizes_of(&one, "alpine"), (110, 110));
    assert_eq!(sizes_of(&other, "alpine"), (110, 0));
    assert_eq!(sizes_of(&one, "tool"), (11, 1));
    assert_eq!(sizes_of(&other, "tool"), (11, 11));
}
