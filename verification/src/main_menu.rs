//! The main menu: the table of repositories and the reading of a choice.

use vstd::prelude::*;
use crate::external::{indexed_markdown_table, render_indexed_markdown};
use crate::formats::{format_size, size_text};
use crate::registry::{ScanElement, TagGroup};
use crate::sizes::{Sizes, SizeTable};
use crate::text::{decimal, decimal_string, push_char};

verus! {

/// The main menu: a row per repository, then the commands.
pub struct MainMenu {}

/// What a number typed in the main menu selects.
#[derive(Debug, PartialEq, Eq, Structural)]
pub enum MenuChoice {
    /// The repository at this position.
    Repository(usize),
    /// Run the registry's garbage collection.
    GarbageCollection,
    /// Leave the program.
    Exit,
    /// No entry has this number.
    Invalid,
}

/// The number of tags of the first `n` groups.
pub open spec fn tags_in_groups(gs: Seq<TagGroup>, n: int) -> nat
    decreases n,
{
    if n <= 0 {
        0
    } else {
        tags_in_groups(gs, n - 1) + gs[n - 1].tags@.len()
    }
}

/// The number of tags of a repository.
pub open spec fn tag_count(e: ScanElement) -> nat {
    tags_in_groups(e.tags_grouped_by_digest@, e.tags_grouped_by_digest@.len() as int)
}

/// The columns of the repositories table.
pub open spec fn repository_columns() -> Seq<Seq<char>> {
    seq!["repository"@, "tags"@, "disk usage"@, "total layers size"@]
}

/// The row of a repository: its name, its number of tags, its disk usage
/// (its deduplicated size, `sizes.size_dedup_global`) and the total size of
/// its layers (`sizes.size`).
pub open spec fn repository_record(e: ScanElement, sizes: Sizes) -> Seq<Seq<char>> {
    seq![
        e.repository@,
        decimal(tag_count(e)),
        size_text(sizes.size_dedup_global as nat),
        size_text(sizes.size as nat),
    ]
}

/// The rows of the repositories table: a row per repository, with the
/// sizes that `sizes` holds under its name, then the commands.
pub open spec fn repository_records(
    es: Seq<ScanElement>,
    sizes: Map<Seq<char>, Sizes>,
) -> Seq<Seq<Seq<char>>> {
    es.map_values(|e: ScanElement| repository_record(e, sizes[e.repository@])).push(
        seq!["Run Garbage Collection"@],
    ).push(seq!["Exit"@])
}

/// The number that always selects garbage collection, whatever the number
/// of repositories.
pub open spec fn garbage_collection_option() -> nat {
    999
}

/// `s` padded with spaces on the left to at least `width` characters.
pub open spec fn pad_left(s: Seq<char>, width: nat) -> Seq<char> {
    if s.len() < width {
        Seq::new((width - s.len()) as nat, |i: int| ' ') + s
    } else {
        s
    }
}

/// The lines under the table: the deduplicated total of the scan, then its
/// total right-aligned in fifteen columns.
pub open spec fn totals_text(totals: Sizes) -> Seq<char> {
    "\nTotal Dedup: "@ + size_text(totals.size_dedup_global as nat) + "\nTotal: "@ + pad_left(
        size_text(totals.size as nat),
        15,
    ) + "\n"@
}

impl MainMenu {
    /// What the number `selected` selects when the menu lists
    /// `repositories` repositories: 999 always runs garbage collection;
    /// otherwise each repository by its position, then garbage collection,
    /// then exit.
    pub fn select(selected: usize, repositories: usize) -> (c: MenuChoice)
        ensures
            c == (if selected == garbage_collection_option() {
                MenuChoice::GarbageCollection
            } else if selected < repositories {
                MenuChoice::Repository(selected)
            } else if selected == repositories {
                MenuChoice::GarbageCollection
            } else if selected == repositories + 1 {
                MenuChoice::Exit
            } else {
                MenuChoice::Invalid
            }),
    {
        if selected == 999 {
            MenuChoice::GarbageCollection
        } else if selected < repositories {
            MenuChoice::Repository(selected)
        } else if selected == repositories {
            MenuChoice::GarbageCollection
        } else if selected - repositories == 1 {
            MenuChoice::Exit
        } else {
            MenuChoice::Invalid
        }
    }

    fn tag_count_of(e: &ScanElement) -> (n: usize)
        requires
            tag_count(*e) <= usize::MAX,
        ensures
            n == tag_count(*e),
    {
        let ghost gs = e.tags_grouped_by_digest@;
        let mut n: usize = 0;
        let mut k: usize = 0;
        while k < e.tags_grouped_by_digest.len()
            invariant
                gs == e.tags_grouped_by_digest@,
                k <= gs.len(),
                n == tags_in_groups(gs, k as int),
                tags_in_groups(gs, gs.len() as int) <= usize::MAX,
            decreases gs.len() - k,
        {
            proof {
                lemma_tags_in_groups_grow(gs, k + 1, gs.len() as int);
            }
            n = n + e.tags_grouped_by_digest[k].tags.len();
            k = k + 1;
        }
        n
    }

    /// The table of the repositories of a scan (`print`), with an index
    /// column, in markdown; each repository's sizes are those that `sizes`
    /// holds under its name.
    pub fn table(scan_result: &Vec<ScanElement>, sizes: &SizeTable) -> (s: String)
        requires
            forall|i: int|
                0 <= i < scan_result@.len() ==> tag_count(#[trigger] scan_result@[i]) <= usize::MAX,
            forall|i: int|
                0 <= i < scan_result@.len() ==> sizes@.contains_key(
                    (#[trigger] scan_result@[i]).repository@,
                ),
        ensures
            s@ == indexed_markdown_table(
                repository_columns(),
                repository_records(scan_result@, sizes@),
            ),
    {
        let ghost es = scan_result@;
        let mut records: Vec<Vec<String>> = Vec::new();
        let mut i: usize = 0;
        while i < scan_result.len()
            invariant
                es == scan_result@,
                i <= es.len(),
                forall|j: int| 0 <= j < es.len() ==> tag_count(#[trigger] es[j]) <= usize::MAX,
                forall|j: int| 0 <= j < es.len() ==> sizes@.contains_key((#[trigger] es[j]).repository@),
                records@.len() == i,
                forall|j: int|
                    0 <= j < i ==> (#[trigger] records@[j]).deep_view() == repository_record(
                        es[j],
                        sizes@[es[j].repository@],
                    ),
            decreases es.len() - i,
        {
            let e = &scan_result[i];
            let count = Self::tag_count_of(e);
            let repo_sizes = match sizes.get(&e.repository) {
                Some(v) => v,
                None => {
                    assert(sizes@.contains_key(es[i as int].repository@));
                    Sizes { size: 0, size_dedup_global: 0 }
                },
            };
            let row = vec![
                e.repository.clone(),
                decimal_string(count as u64),
                format_size(&repo_sizes.size_dedup_global),
                format_size(&repo_sizes.size),
            ];
            assert(row.deep_view() =~= repository_record(es[i as int], sizes@[es[i as int].repository@]));
            records.push(row);
            i = i + 1;
        }
        records.push(vec![String::from_str("Run Garbage Collection")]);
        records.push(vec![String::from_str("Exit")]);
        assert(records.deep_view() =~= repository_records(es, sizes@)) by {
            assert(records@[es.len() as int].deep_view() =~= seq!["Run Garbage Collection"@]);
            assert(records@[es.len() + 1int].deep_view() =~= seq!["Exit"@]);
        }
        let columns = vec![
            String::from_str("repository"),
            String::from_str("tags"),
            String::from_str("disk usage"),
            String::from_str("total layers size"),
        ];
        assert(columns.deep_view() =~= repository_columns());
        render_indexed_markdown(columns, records)
    }

    /// The lines that `print` writes under the table, from the totals of
    /// the scan.
    pub fn totals(totals: &Sizes) -> (s: String)
        ensures
            s@ == totals_text(*totals),
    {
        let mut s = String::from_str("\nTotal Dedup: ");
        let dedup = format_size(&totals.size_dedup_global);
        s.append(dedup.as_str());
        s.append("\nTotal: ");
        let total = format_size(&totals.size);
        let ghost before = s@;
        let len = total.as_str().unicode_len();
        let mut k = len;
        while k < 15
            invariant
                s@ == before + Seq::new((k - len) as nat, |i: int| ' '),
                len == total@.len(),
                len <= k <= 15 || (len > 15 && k == len),
            decreases 15 - k,
        {
            push_char(&mut s, ' ');
            k = k + 1;
            assert(s@ =~= before + Seq::new((k - len) as nat, |i: int| ' '));
        }
        s.append(total.as_str());
        s.append("\n");
        proof {
            reveal_strlit("\nTotal Dedup: ");
            reveal_strlit("\nTotal: ");
            reveal_strlit("\n");
        }
        assert(s@ =~= totals_text(*totals));
        s
    }
}

proof fn lemma_tags_in_groups_grow(gs: Seq<TagGroup>, a: int, b: int)
    requires
        a <= b,
    ensures
        tags_in_groups(gs, a) <= tags_in_groups(gs, b),
    decreases b - a,
{
    if a < b {
        lemma_tags_in_groups_grow(gs, a, b - 1);
    }
}

/// Row `k` of the repositories table is repository `k`, the one that the
/// number `k` selects: its name, its number of tags, its deduplicated size
/// and its total size as `sizes` holds them under its name. The two rows
/// after the repositories run garbage collection and exit, in that order.
pub proof fn lemma_repository_table_rows(es: Seq<ScanElement>, sizes: Map<Seq<char>, Sizes>)
    ensures
        repository_records(es, sizes).len() == es.len() + 2,
        forall|k: int|
            0 <= k < es.len() ==> #[trigger] repository_records(es, sizes)[k] == seq![
                es[k].repository@,
                decimal(tag_count(es[k])),
                size_text(sizes[es[k].repository@].size_dedup_global as nat),
                size_text(sizes[es[k].repository@].size as nat),
            ],
        repository_records(es, sizes)[es.len() as int] == seq!["Run Garbage Collection"@],
        repository_records(es, sizes)[es.len() + 1int] == seq!["Exit"@],
{
}

} // verus!
