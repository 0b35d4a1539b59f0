use delete_images::main_menu::{MainMenu, MenuChoice};
use delete_images::pattern::TagPattern;
use delete_images::registry::{Layer, Manifest, ScanElement, Tag, TagGroup};
use delete_images::sizes::calculate;
use delete_images::tags_menu::TagsMenu;

fn tag(name: &str) -> Tag {
    Tag { name: name.to_string(), manifest: Manifest { digest: "m".to_string(), layers: vec![Layer { size: 1, digest: "l".to_string() }] } }
}

fn group(names: &[&str], created: i64) -> TagGroup {
    TagGroup { digest: format!("sha256:{}", created), created, tags: names.iter().map(|n| tag(n)).collect() }
}

fn repo(groups: Vec<TagGroup>) -> ScanElement {
    ScanElement { repository: "dpe/agenda-web".to_string(), tags_grouped_by_digest: groups }
}

const DAY: i64 = 86400;

#[test]
fn main_menu_numbers_select_repository_gc_exit() {
    assert_eq!(MainMenu::select(0, 3), MenuChoice::Repository(0));
    assert_eq!(MainMenu::select(2, 3), MenuChoice::Repository(2));
    assert_eq!(MainMenu::select(3, 3), MenuChoice::GarbageCollection);
    assert_eq!(MainMenu::select(4, 3), MenuChoice::Exit);
    assert_eq!(MainMenu::select(5, 3), MenuChoice::Invalid);
    assert_eq!(MainMenu::select(usize::MAX, usize::MAX), MenuChoice::GarbageCollection);
    assert_eq!(MainMenu::select(0, 0), MenuChoice::GarbageCollection);
}

#[test]
fn option_999_always_runs_garbage_collection() {
    assert_eq!(MainMenu::select(999, 3), MenuChoice::GarbageCollection);
    assert_eq!(MainMenu::select(999, 0), MenuChoice::GarbageCollection);
    assert_eq!(MainMenu::select(999, 2000), MenuChoice::GarbageCollection);
    assert_eq!(MainMenu::select(998, 2000), MenuChoice::Repository(998));
    assert_eq!(MainMenu::select(1000, 999), MenuChoice::Exit);
}

fn sized_repo(name: &str, layers: Vec<(usize, &str)>) -> ScanElement {
    let layers = layers.into_iter().map(|(size, digest)| Layer { size, digest: digest.to_string() }).collect();
    let t = Tag { name: "latest".to_string(), manifest: Manifest { digest: "m".to_string(), layers } };
    ScanElement { repository: name.to_string(), tags_grouped_by_digest: vec![TagGroup { digest: "g".to_string(), created: 0, tags: vec![t] }] }
}

const MIB: usize = 1048576;

#[test]
fn main_menu_table_lists_repositories_and_commands() {
    let scan = vec![repo(vec![group(&["a", "b"], 1), group(&["c"], 2)])];
    let sizes = calculate(&scan);
    let table = MainMenu::table(&scan, &sizes);
    assert!(table.contains("repository"));
    assert!(table.contains("disk usage"));
    assert!(table.contains("total layers size"));
    assert!(table.contains("dpe/agenda-web"));
    assert!(table.contains("| 3 "));
    assert!(table.contains("Run Garbage Collection"));
    assert!(table.contains("Exit"));
    assert!(table.lines().count() >= 5);
    assert!(table.lines().all(|l| l.starts_with('|') && l.ends_with('|')));
    assert!(table.contains("|-"));
}

#[test]
fn main_menu_table_shows_the_sizes_of_each_repository() {
    let scan = vec![sized_repo("big", vec![(1000 * MIB, "base")]), sized_repo("app", vec![(1000 * MIB, "base"), (MIB, "own")])];
    let sizes = calculate(&scan);
    let table = MainMenu::table(&scan, &sizes);
    let big = table.lines().find(|l| l.contains("big")).unwrap();
    assert_eq!(big.matches("0.98   GB").count(), 2);
    let app = table.lines().find(|l| l.contains("app")).unwrap();
    assert!(app.contains("1.00   MB"));
    assert!(app.contains("0.98   GB"));
    assert!(app.find("1.00   MB").unwrap() < app.find("0.98   GB").unwrap());
    assert!(!table.contains("0.00   MB"));
}

#[test]
fn main_menu_totals_show_the_scan_totals() {
    let scan = vec![sized_repo("big", vec![(1000 * MIB, "base")]), sized_repo("app", vec![(1000 * MIB, "base"), (MIB, "own")])];
    let sizes = calculate(&scan);
    let totals = sizes.get(&"TOTALS".to_string()).unwrap();
    assert_eq!(MainMenu::totals(&totals), "\nTotal Dedup: 0.98   GB\nTotal:       1.95   GB\n");
    let empty = calculate(&vec![]);
    let totals = empty.get(&"TOTALS".to_string()).unwrap();
    assert_eq!(MainMenu::totals(&totals), "\nTotal Dedup: 0.00   MB\nTotal:       0.00   MB\n");
}

#[test]
fn single_number_selects_one_group_or_return() {
    assert_eq!(TagsMenu::select_range("2", 5), Some((2, 2)));
    assert_eq!(TagsMenu::select_range("  5 ", 5), Some((5, 5)));
    assert_eq!(TagsMenu::select_range("6", 5), None);
    assert_eq!(TagsMenu::select_range("+0", 5), Some((0, 0)));
    assert_eq!(TagsMenu::select_range("x", 5), None);
    assert_eq!(TagsMenu::select_range("", 5), None);
}

#[test]
fn ranges_stay_below_the_return_entry() {
    assert_eq!(TagsMenu::select_range("0..3", 5), Some((0, 3)));
    assert_eq!(TagsMenu::select_range(" 1 .. 4 ", 5), Some((1, 4)));
    assert_eq!(TagsMenu::select_range("0..5", 5), None);
    assert_eq!(TagsMenu::select_range("3..3", 5), None);
    assert_eq!(TagsMenu::select_range("4..2", 5), None);
    assert_eq!(TagsMenu::select_range("1..2..3", 5), None);
    assert_eq!(TagsMenu::select_range("1...3", 5), None);
    assert_eq!(TagsMenu::select_range("0", 0), Some((0, 0)));
}

#[test]
fn taking_a_selection_removes_exactly_it() {
    let mut r = repo(vec![group(&["a"], 1), group(&["b"], 2), group(&["c"], 3), group(&["d"], 4)]);
    let removed = TagsMenu::take_selection(&mut r, 1, 2).unwrap();
    let gone: Vec<i64> = removed.iter().map(|g| g.created).collect();
    let kept: Vec<i64> = r.tags_grouped_by_digest.iter().map(|g| g.created).collect();
    assert_eq!(gone, vec![2, 3]);
    assert_eq!(kept, vec![1, 4]);
}

#[test]
fn selecting_return_keeps_everything() {
    let mut r = repo(vec![group(&["a"], 1), group(&["b"], 2)]);
    assert!(TagsMenu::take_selection(&mut r, 2, 2).is_none());
    assert_eq!(r.tags_grouped_by_digest.len(), 2);
}

#[test]
fn release_pattern_matches_version_tags() {
    let p = TagPattern::release_tags().unwrap();
    let now = 1000 * DAY;
    // A single old release group: not enough kept, so no suggestion.
    assert_eq!(TagsMenu::suggestion(&repo(vec![group(&["v1.0.0"], 0)]), &p, now), None);
    // "version1.0" has no digit right after a `v`; "v1x" no dot: both are
    // other groups, so after group 0 three releases and two others stay.
    let groups = vec![
        group(&["v0.9"], 0),
        group(&["version1.0"], 1),
        group(&["v1x"], 2),
        group(&["v1.0"], 3),
        group(&["v2.0"], 4),
        group(&["v3.0"], 5),
    ];
    assert_eq!(TagsMenu::suggestion(&repo(groups), &p, now), Some(0));
}

#[test]
fn suggestion_keeps_enough_and_young_groups() {
    let p = TagPattern::release_tags().unwrap();
    let now = 1000 * DAY;
    let old = now - 30 * DAY;
    let groups = vec![
        group(&["123"], old),
        group(&["v1.0.0"], old + 1),
        group(&["456"], old + 2),
        group(&["v1.1.0", "latest"], old + 3),
        group(&["789"], old + 4),
        group(&["v1.2.0"], old + 5),
        group(&["v1.3.0"], old + 6),
        group(&["999"], old + 7),
    ];
    // After index 2: releases 3 (v1.1, v1.2, v1.3), others 2 (789, 999).
    // After index 3: only two others and two releases.
    assert_eq!(TagsMenu::suggestion(&repo(groups), &p, now), Some(2));

    let young = now - DAY;
    let groups = vec![
        group(&["1"], old),
        group(&["v0.1"], old),
        group(&["2"], young),
        group(&["3"], young),
        group(&["v1.0"], young),
        group(&["v2.0"], young),
        group(&["v3.0"], young),
    ];
    // Enough would stay after index 2 or 3, but those groups are young.
    assert_eq!(TagsMenu::suggestion(&repo(groups), &p, now), Some(1));
}

#[test]
fn suggestion_never_deletes_one_of_the_three_newest_releases() {
    let p = TagPattern::release_tags().unwrap();
    let now = 1000 * DAY;
    let old = now - 30 * DAY;
    let groups = vec![
        group(&["v1.0"], old),
        group(&["v2.0"], old + 1),
        group(&["v3.0"], old + 2),
        group(&["a"], old + 3),
        group(&["b"], old + 4),
        group(&["c"], old + 5),
    ];
    assert_eq!(TagsMenu::suggestion(&repo(groups), &p, now), None);
    let groups = vec![
        group(&["v0.1"], old),
        group(&["v1.0"], old),
        group(&["v2.0"], old + 1),
        group(&["v3.0"], old + 2),
        group(&["a"], old + 3),
        group(&["b"], old + 4),
    ];
    assert_eq!(TagsMenu::suggestion(&repo(groups), &p, now), Some(0));
}

#[test]
fn nothing_to_suggest_for_few_groups() {
    let p = TagPattern::release_tags().unwrap();
    assert_eq!(TagsMenu::suggestion(&repo(vec![]), &p, 0), None);
    assert!(TagsMenu::delete_suggestion(&repo(vec![])).unwrap().is_none());
}

#[test]
fn suggestion_messages() {
    assert_eq!(TagsMenu::suggestion_message(Some(12)), "\nOur delete suggestion is: 0..12");
    assert_eq!(TagsMenu::suggestion_message(None), "\nThis repository SGTM. We suggest you to delete nothing.");
}

#[test]
fn tags_table_shows_names_dates_digests() {
    let r = repo(vec![group(&["v1.0", "latest"], 1672628645)]);
    let table = TagsMenu::table(&r).unwrap();
    assert!(table.contains("v1.0, latest"));
    assert!(table.contains("2023-01-02 03:04:05 UTC"));
    assert!(table.contains("sha256:1672628645"));
    assert!(table.contains("RETURN"));
    assert!(table.contains("created"));
    assert!(table.lines().all(|l| l.starts_with('|') && l.ends_with('|')));
}

#[test]
fn tags_table_without_a_calendar_date_is_refused() {
    let r = repo(vec![group(&["x"], i64::MAX)]);
    assert!(TagsMenu::table(&r).is_none());
}
