use delete_images::registry::{Layer, Manifest, ScanElement, Tag, TagGroup};
use delete_images::report::layer_shares;

fn layer(size: usize, digest: &str) -> Layer {
    Layer { size, digest: digest.to_string() }
}

fn tag(layers: Vec<Layer>) -> Tag {
    Tag { name: "t".to_string(), manifest: Manifest { digest: "m".to_string(), layers } }
}

fn repo(groups: Vec<Vec<Tag>>) -> ScanElement {
    ScanElement {
        repository: "r".to_string(),
        tags_grouped_by_digest: groups.into_iter().map(|tags| TagGroup { digest: "g".to_string(), created: 0, tags }).collect(),
    }
}

fn flags(e: &Vec<Vec<Vec<delete_images::report::LayerShare>>>) -> Vec<(usize, bool, bool, bool)> {
    e.iter()
        .flatten()
        .flatten()
        .map(|s| (s.size, s.first_in_repository, s.first_in_scan, s.in_first_tag))
        .collect()
}

#[test]
fn layers_are_marked_first_in_repository_and_scan() {
    let scan = vec![
        repo(vec![vec![tag(vec![layer(10, "base"), layer(1, "a")]), tag(vec![layer(10, "base")])]]),
        repo(vec![vec![tag(vec![layer(10, "base")])], vec![tag(vec![layer(2, "b"), layer(2, "b")])]]),
    ];
    let shares = layer_shares(&scan);
    assert_eq!(shares.len(), 2);
    assert_eq!(
        flags(&shares[0]),
        vec![(10, true, true, true), (1, true, true, true), (10, false, false, false)]
    );
    assert_eq!(
        flags(&shares[1]),
        vec![(10, true, false, true), (2, true, true, true), (2, false, false, true)]
    );
}

#[test]
fn nesting_follows_groups_and_tags() {
    let scan = vec![repo(vec![vec![tag(vec![]), tag(vec![layer(1, "x")])], vec![]])];
    let shares = layer_shares(&scan);
    assert_eq!(shares[0].len(), 2);
    assert_eq!(shares[0][0].len(), 2);
    assert!(shares[0][0][0].is_empty());
    assert_eq!(shares[0][0][1].len(), 1);
    assert!(shares[0][1].is_empty());
}

#[test]
fn report_sums_agree_with_the_size_table() {
    let scan = vec![
        ScanElement { repository: "one".to_string(), ..repo(vec![vec![tag(vec![layer(10, "base"), layer(3, "a")]), tag(vec![layer(3, "a")])]]) },
        ScanElement { repository: "two".to_string(), ..repo(vec![vec![tag(vec![layer(10, "base"), layer(4, "b")])]]) },
    ];
    let table = delete_images::sizes::calculate(&scan);
    let shares = layer_shares(&scan);
    for (e, s) in scan.iter().zip(shares.iter()) {
        let all: usize = s.iter().flatten().flatten().map(|l| l.size).sum();
        let fresh: usize = s.iter().flatten().flatten().filter(|l| l.first_in_scan).map(|l| l.size).sum();
        let sizes = table.get(&e.repository).unwrap();
        assert_eq!(all, sizes.size);
        assert_eq!(fresh, sizes.size_dedup_global);
    }
    let repo_fresh: usize = shares[0].iter().flatten().flatten().filter(|l| l.first_in_repository).map(|l| l.size).sum();
    assert_eq!(repo_fresh, 13);
}
