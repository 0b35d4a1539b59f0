//! The menu of the tags of one repository: what it shows, how it reads a
//! selection of tag groups, which groups a selection removes, and which
//! groups it suggests deleting.

use vstd::prelude::*;
use crate::external::{indexed_markdown_table, render_indexed_markdown, utc_datetime_text, utc_now_timestamp, utc_text};
use crate::pattern::{regex_compiles, regex_is_match, TagPattern};
use crate::registry::{created_key, ScanElement, TagGroup, Tag};
use crate::sorting::{is_stable_sort_by, stable_sort_witness};
use crate::text::{
    chars_of, decimal, join, parse_usize, parse_usize_in, push_decimal, split_dots,
    split_dots_bounds, trim, trim_bounds,
};

verus! {

/// The menu of the tags of a repository.
pub struct TagsMenu {}

/// The bounds of a part of a selection, trimmed and read as a number.
pub open spec fn part_value(parts: Seq<Seq<char>>, k: int) -> Option<nat> {
    parse_usize(trim(parts[k]))
}

/// The selection holds two parts that both read as numbers.
pub open spec fn is_two_number_range(line: Seq<char>) -> bool {
    let parts = split_dots(trim(line));
    parts.len() == 2 && part_value(parts, 0) is Some && part_value(parts, 1) is Some
}

/// The tag groups that a line typed in the menu selects, among `max`
/// groups followed by the return entry (numbered `max`): one number `n` up
/// to `max` selects `n..=n`; two numbers `a..b` with `a < b < max` select
/// `a..=b`; anything else selects nothing.
pub open spec fn selection(line: Seq<char>, max: nat) -> Option<(nat, nat)> {
    let parts = split_dots(trim(line));
    if parts.len() == 1 {
        match part_value(parts, 0) {
            Some(v) => if v <= max {
                Some((v, v))
            } else {
                None
            },
            None => None,
        }
    } else if parts.len() == 2 {
        match (part_value(parts, 0), part_value(parts, 1)) {
            (Some(a), Some(b)) => if b <= max - 1 && a < b {
                Some((a, b))
            } else {
                None
            },
            _ => None,
        }
    } else {
        None
    }
}

/// Some tag of the group matches the release pattern.
pub open spec fn is_release(g: TagGroup, pattern: Seq<char>) -> bool {
    exists|k: int| 0 <= k < g.tags@.len() && regex_is_match(pattern, (#[trigger] g.tags@[k]).name@)
}

/// The number of release groups from position `i` on.
pub open spec fn releases_from(gs: Seq<TagGroup>, pattern: Seq<char>, i: int) -> nat
    decreases gs.len() - i,
{
    if i < 0 || i >= gs.len() {
        0
    } else {
        releases_from(gs, pattern, i + 1) + if is_release(gs[i], pattern) {
            1nat
        } else {
            0nat
        }
    }
}

/// The number of other groups from position `i` on.
pub open spec fn others_from(gs: Seq<TagGroup>, pattern: Seq<char>, i: int) -> nat
    decreases gs.len() - i,
{
    if i < 0 || i >= gs.len() {
        0
    } else {
        others_from(gs, pattern, i + 1) + if is_release(gs[i], pattern) {
            0nat
        } else {
            1nat
        }
    }
}

/// Fourteen days, in seconds.
pub open spec fn two_weeks() -> int {
    1209600
}

/// The group's image was created less than two weeks before `now`.
pub open spec fn is_young(g: TagGroup, now: int) -> bool {
    g.created > now - two_weeks()
}

/// Enough groups stay: the three newest releases and the two newest other
/// groups, at least.
pub open spec fn keeps_enough(releases: nat, others: nat) -> bool {
    releases >= 3 && others >= 2
}

/// Deleting the groups up to position `i`, that one included, may be
/// suggested: the group at `i` is not young, and enough groups stay after
/// it.
pub open spec fn may_suggest(gs: Seq<TagGroup>, pattern: Seq<char>, now: int, i: int) -> bool {
    &&& 0 <= i < gs.len()
    &&& !is_young(gs[i], now)
    &&& keeps_enough(releases_from(gs, pattern, i + 1), others_from(gs, pattern, i + 1))
}

/// `s` is the suggestion for `gs`: the last position up to which deletion
/// may be suggested, or `None` if there is none.
pub open spec fn is_suggestion(gs: Seq<TagGroup>, pattern: Seq<char>, now: int, s: Option<usize>) -> bool {
    match s {
        Some(i) => may_suggest(gs, pattern, now, i as int) && forall|j: int|
            i < j < gs.len() ==> !#[trigger] may_suggest(gs, pattern, now, j),
        None => forall|j: int| 0 <= j < gs.len() ==> !#[trigger] may_suggest(gs, pattern, now, j),
    }
}

/// Why no suggestion could be made.
#[derive(Debug)]
pub enum SuggestionError {
    /// The regex crate refused the pattern of release tags.
    PatternRejected,
}

/// The columns of the tags table.
pub open spec fn tag_columns() -> Seq<Seq<char>> {
    seq!["tags"@, "created"@, "digest"@]
}

/// The names of the tags of a group.
pub open spec fn tag_names(g: TagGroup) -> Seq<Seq<char>> {
    g.tags@.map_values(|t: Tag| t.name@)
}

/// The row of a group: its tag names, its creation date, its digest.
pub open spec fn group_record(g: TagGroup) -> Seq<Seq<char>> {
    seq![join(tag_names(g), ", "@), utc_text(g.created as int)->0, g.digest@]
}

/// The rows of the tags table: a row per group, then the return entry.
pub open spec fn tag_records(gs: Seq<TagGroup>) -> Seq<Seq<Seq<char>>> {
    gs.map_values(|g: TagGroup| group_record(g)).push(seq!["RETURN"@])
}

/// The text of a suggestion.
pub open spec fn suggestion_text(s: Option<usize>) -> Seq<char> {
    match s {
        Some(i) => "\nOur delete suggestion is: 0.."@ + decimal(i as nat),
        None => "\nThis repository SGTM. We suggest you to delete nothing."@,
    }
}

impl TagsMenu {
    /// Reads a selection typed in the menu (`select_range`): see `selection`.
    /// With no groups, a range of two numbers cannot be checked against the
    /// last group.
    pub fn select_range(input: &str, max: usize) -> (r: Option<(usize, usize)>)
        requires
            max > 0 || !is_two_number_range(input@),
        ensures
            match r {
                Some(p) => selection(input@, max as nat) == Some((p.0 as nat, p.1 as nat)),
                None => selection(input@, max as nat) is None,
            },
    {
        let cs = chars_of(input);
        assert(cs@.subrange(0, cs@.len() as int) =~= input@);
        let (lo, hi) = trim_bounds(&cs, 0, cs.len());
        let parts = split_dots_bounds(&cs, lo, hi);
        let ghost ps = split_dots(trim(input@));
        if parts.len() == 1 {
            let (a, b) = trim_bounds(&cs, parts[0].0, parts[0].1);
            match parse_usize_in(&cs, a, b) {
                Some(v) => if v <= max {
                    Some((v, v))
                } else {
                    None
                },
                None => None,
            }
        } else if parts.len() == 2 {
            let (a0, b0) = trim_bounds(&cs, parts[0].0, parts[0].1);
            let (a1, b1) = trim_bounds(&cs, parts[1].0, parts[1].1);
            let start = parse_usize_in(&cs, a0, b0);
            let end = parse_usize_in(&cs, a1, b1);
            match (start, end) {
                (Some(s), Some(e)) => {
                    assert(is_two_number_range(input@));
                    if e <= max - 1 && s < e {
                        Some((s, e))
                    } else {
                        None
                    }
                },
                _ => None,
            }
        } else {
            None
        }
    }

    /// Whether a line typed in the menu holds two numbers separated by `..`
    /// (see `is_two_number_range`).
    pub fn is_range_of_two_numbers(input: &str) -> (b: bool)
        ensures
            b == is_two_number_range(input@),
    {
        let cs = chars_of(input);
        assert(cs@.subrange(0, cs@.len() as int) =~= input@);
        let (lo, hi) = trim_bounds(&cs, 0, cs.len());
        let parts = split_dots_bounds(&cs, lo, hi);
        if parts.len() != 2 {
            return false;
        }
        let (a0, b0) = trim_bounds(&cs, parts[0].0, parts[0].1);
        let (a1, b1) = trim_bounds(&cs, parts[1].0, parts[1].1);
        parse_usize_in(&cs, a0, b0).is_some() && parse_usize_in(&cs, a1, b1).is_some()
    }

    /// Applies a selection `first..=last` to the groups of a repository:
    /// selecting the return entry (`last` equal to the number of groups)
    /// leaves them as they are and gives `None`; otherwise the selected
    /// groups are taken out, in order, and returned.
    pub fn take_selection(repository: &mut ScanElement, first: usize, last: usize) -> (removed:
        Option<Vec<TagGroup>>)
        requires
            last <= old(repository).tags_grouped_by_digest@.len(),
            first <= last + 1,
        ensures
            final(repository).repository == old(repository).repository,
            match removed {
                None => last == old(repository).tags_grouped_by_digest@.len()
                    && final(repository).tags_grouped_by_digest@
                    == old(repository).tags_grouped_by_digest@,
                Some(gs) => {
                    &&& last < old(repository).tags_grouped_by_digest@.len()
                    &&& gs@ == old(repository).tags_grouped_by_digest@.subrange(
                        first as int,
                        last + 1,
                    )
                    &&& final(repository).tags_grouped_by_digest@
                        == old(repository).tags_grouped_by_digest@.subrange(0, first as int)
                        + old(repository).tags_grouped_by_digest@.subrange(
                        last + 1,
                        old(repository).tags_grouped_by_digest@.len() as int,
                    )
                },
            },
    {
        if last == repository.tags_grouped_by_digest.len() {
            return None;
        }
        let ghost all = repository.tags_grouped_by_digest@;
        let mut tail = repository.tags_grouped_by_digest.split_off(last + 1);
        let removed = repository.tags_grouped_by_digest.split_off(first);
        repository.tags_grouped_by_digest.append(&mut tail);
        assert(removed@ =~= all.subrange(first as int, last + 1));
        assert(repository.tags_grouped_by_digest@ =~= all.subrange(0, first as int) + all.subrange(
            last + 1,
            all.len() as int,
        ));
        Some(removed)
    }

    fn group_is_release(g: &TagGroup, pattern: &TagPattern) -> (b: bool)
        ensures
            b == is_release(*g, pattern.source()),
    {
        let mut k: usize = 0;
        while k < g.tags.len()
            invariant
                k <= g.tags@.len(),
                forall|q: int|
                    0 <= q < k ==> !regex_is_match(pattern.source(), (#[trigger] g.tags@[q]).name@),
            decreases g.tags@.len() - k,
        {
            if pattern.is_match(g.tags[k].name.as_str()) {
                return true;
            }
            k = k + 1;
        }
        false
    }

    /// The delete suggestion for the groups of a repository, oldest first:
    /// walking from the newest group, the first position `i` at which the
    /// group is older than two weeks before `now` and the groups after `i`
    /// hold at least three releases and at least two others. Deleting the
    /// groups `0..=i` is suggested.
    pub fn suggestion(repository: &ScanElement, pattern: &TagPattern, now: i64) -> (s: Option<
        usize,
    >)
        requires
            now >= i64::MIN + 1209600,
        ensures
            is_suggestion(repository.tags_grouped_by_digest@, pattern.source(), now as int, s),
            s matches Some(i) ==> {
                &&& i < repository.tags_grouped_by_digest@.len()
                &&& repository.tags_grouped_by_digest@[i as int].created <= now - 1209600
                &&& releases_from(repository.tags_grouped_by_digest@, pattern.source(), i + 1) >= 3
                &&& others_from(repository.tags_grouped_by_digest@, pattern.source(), i + 1) >= 2
            },
    {
        let ghost gs = repository.tags_grouped_by_digest@;
        let ghost p = pattern.source();
        let cutoff: i64 = now - 1209600;
        let n = repository.tags_grouped_by_digest.len();
        let mut releases: usize = 0;
        let mut others: usize = 0;
        let mut i = n;
        while i > 0
            invariant
                gs == repository.tags_grouped_by_digest@,
                p == pattern.source(),
                cutoff == now - two_weeks(),
                n == gs.len(),
                i <= n,
                releases == releases_from(gs, p, i as int),
                others == others_from(gs, p, i as int),
                releases + others == n - i,
                forall|j: int| i <= j < n ==> !#[trigger] may_suggest(gs, p, now as int, j),
            decreases i,
        {
            let j = i - 1;
            let g = &repository.tags_grouped_by_digest[j];
            if g.created <= cutoff && releases >= 3 && others >= 2 {
                return Some(j);
            }
            if Self::group_is_release(g, pattern) {
                releases = releases + 1;
            } else {
                others = others + 1;
            }
            i = j;
        }
        None
    }

    /// `print_delete_suggestion`'s decision at the time `now`: compiles the
    /// release pattern and gives `suggestion` for `now`. It fails only where
    /// the regex crate refuses the pattern.
    pub fn delete_suggestion_at(repository: &ScanElement, now: i64) -> (r: Result<
        Option<usize>,
        SuggestionError,
    >)
        requires
            now >= i64::MIN + 1209600,
        ensures
            r is Err <==> !regex_compiles(TagPattern::release_source()),
            r matches Ok(s) ==> is_suggestion(
                repository.tags_grouped_by_digest@,
                TagPattern::release_source(),
                now as int,
                s,
            ),
            r matches Ok(Some(i)) ==> {
                &&& i < repository.tags_grouped_by_digest@.len()
                &&& repository.tags_grouped_by_digest@[i as int].created <= now - 1209600
            },
    {
        let pattern = match TagPattern::release_tags() {
            Ok(p) => p,
            Err(_) => {
                return Err(SuggestionError::PatternRejected);
            },
        };
        Ok(Self::suggestion(repository, &pattern, now))
    }

    /// `print_delete_suggestion`'s decision: reads the clock and gives
    /// `delete_suggestion_at` for that time. It fails only where the regex
    /// crate refuses the pattern.
    pub fn delete_suggestion(repository: &ScanElement) -> (r: Result<Option<usize>, SuggestionError>)
        ensures
            r is Err <==> !regex_compiles(TagPattern::release_source()),
            r matches Ok(s) ==> exists|now: int|
                now >= 0 && is_suggestion(
                    repository.tags_grouped_by_digest@,
                    TagPattern::release_source(),
                    now,
                    s,
                ),
    {
        let now = utc_now_timestamp();
        let r = Self::delete_suggestion_at(repository, now);
        assert(r matches Ok(s) ==> is_suggestion(
            repository.tags_grouped_by_digest@,
            TagPattern::release_source(),
            now as int,
            s,
        ));
        r
    }

    /// The message that shows a suggestion.
    pub fn suggestion_message(s: Option<usize>) -> (m: String)
        ensures
            m@ == suggestion_text(s),
    {
        match s {
            Some(i) => {
                let mut m = String::from_str("\nOur delete suggestion is: 0..");
                push_decimal(&mut m, i as u64);
                m
            },
            None => String::from_str("\nThis repository SGTM. We suggest you to delete nothing."),
        }
    }

    fn joined_tag_names(g: &TagGroup) -> (s: String)
        ensures
            s@ == join(tag_names(*g), ", "@),
    {
        let ghost names = tag_names(*g);
        let mut s = String::new();
        let mut k: usize = 0;
        while k < g.tags.len()
            invariant
                k <= g.tags@.len(),
                names == tag_names(*g),
                s@ == join(names.subrange(0, k as int), ", "@),
            decreases g.tags@.len() - k,
        {
            assert(names.subrange(0, k + 1).drop_last() =~= names.subrange(0, k as int));
            assert(names[k as int] == g.tags@[k as int].name@);
            if k > 0 {
                s.append(", ");
            }
            s.append(g.tags[k].name.as_str());
            k = k + 1;
            assert(s@ =~= join(names.subrange(0, k as int), ", "@));
        }
        assert(names.subrange(0, k as int) =~= names);
        s
    }

    /// The table of the groups of a repository (`print`): per group its
    /// tag names, its creation date and its digest, then the return entry,
    /// with an index column, in markdown. `None` if chrono has no date for
    /// the creation time of some group.
    pub fn table(repository: &ScanElement) -> (r: Option<String>)
        ensures
            match r {
                Some(s) => (forall|i: int|
                    0 <= i < repository.tags_grouped_by_digest@.len() ==> utc_text(
                        (#[trigger] repository.tags_grouped_by_digest@[i]).created as int,
                    ) is Some) && s@ == indexed_markdown_table(
                    tag_columns(),
                    tag_records(repository.tags_grouped_by_digest@),
                ),
                None => exists|i: int|
                    0 <= i < repository.tags_grouped_by_digest@.len() && utc_text(
                        (#[trigger] repository.tags_grouped_by_digest@[i]).created as int,
                    ) is None,
            },
    {
        let ghost gs = repository.tags_grouped_by_digest@;
        let mut records: Vec<Vec<String>> = Vec::new();
        let mut i: usize = 0;
        while i < repository.tags_grouped_by_digest.len()
            invariant
                gs == repository.tags_grouped_by_digest@,
                i <= gs.len(),
                records@.len() == i,
                forall|j: int| 0 <= j < i ==> utc_text((#[trigger] gs[j]).created as int) is Some,
                forall|j: int| 0 <= j < i ==> (#[trigger] records@[j]).deep_view() == group_record(gs[j]),
            decreases gs.len() - i,
        {
            let g = &repository.tags_grouped_by_digest[i];
            let created = match utc_datetime_text(g.created) {
                Some(t) => t,
                None => {
                    return None;
                },
            };
            let row = vec![Self::joined_tag_names(g), created, g.digest.clone()];
            assert(row.deep_view() =~= group_record(gs[i as int]));
            records.push(row);
            i = i + 1;
        }
        records.push(vec![String::from_str("RETURN")]);
        assert(records.deep_view() =~= tag_records(gs)) by {
            assert(records@[gs.len() as int].deep_view() =~= seq!["RETURN"@]);
        }
        let columns = vec![String::from_str("tags"), String::from_str("created"), String::from_str("digest")];
        assert(columns.deep_view() =~= tag_columns());
        Some(render_indexed_markdown(columns, records))
    }
}


/// A selection never goes past the return entry, is never reversed, and
/// selects the return entry only on its own.
pub proof fn lemma_selection_in_bounds(line: Seq<char>, max: nat)
    ensures
        selection(line, max) matches Some(p) ==> p.0 <= p.1 <= max && (p.1 == max ==> p.0 == p.1),
{
}

/// After a suggested position, which the suggestion deletes, at least
/// three release groups and at least two other groups stay.
pub proof fn lemma_suggestion_keeps_releases(gs: Seq<TagGroup>, pattern: Seq<char>, now: int, i: int)
    requires
        may_suggest(gs, pattern, now, i),
    ensures
        releases_from(gs, pattern, i + 1) >= 3,
        others_from(gs, pattern, i + 1) >= 2,
{
}

/// When the groups are ordered from the oldest to the newest, no group
/// created within the two weeks before `now` is among the groups up to a
/// suggested position.
pub proof fn lemma_suggestion_spares_young(gs: Seq<TagGroup>, pattern: Seq<char>, now: int, i: int)
    requires
        forall|a: int, b: int| 0 <= a < b < gs.len() ==> (#[trigger] gs[a]).created <= (#[trigger] gs[b]).created,
        may_suggest(gs, pattern, now, i),
    ensures
        forall|j: int| 0 <= j <= i ==> !is_young(#[trigger] gs[j], now),
{
    assert forall|j: int| 0 <= j <= i implies !is_young(#[trigger] gs[j], now) by {
        if j < i {
            assert(gs[j].created <= gs[i].created);
        }
    }
}


/// Groups as `order_by_created` leaves them: a suggestion never reaches a
/// group created within the two weeks before `now`.
pub proof fn lemma_ordered_groups_spare_young(
    ordered: Seq<TagGroup>,
    groups: Seq<TagGroup>,
    pattern: Seq<char>,
    now: int,
    i: int,
)
    requires
        is_stable_sort_by(ordered, groups, |g: TagGroup| created_key(g)),
        may_suggest(ordered, pattern, now, i),
    ensures
        forall|j: int| 0 <= j <= i ==> !is_young(#[trigger] ordered[j], now),
{
    let key = |g: TagGroup| created_key(g);
    let perm = choose|perm: Seq<int>| stable_sort_witness(ordered, groups, key, perm);
    assert forall|a: int, b: int| 0 <= a < b < ordered.len() implies (#[trigger] ordered[a]).created
        <= (#[trigger] ordered[b]).created by {
        assert(key(ordered[a]) <= key(ordered[b]));
    }
    lemma_suggestion_spares_young(ordered, pattern, now, i);
}

/// One number typed in the menu selects that entry alone when it is at
/// most `max` (the return entry), and nothing when it is larger.
pub proof fn lemma_typed_number_selects_it(line: Seq<char>, max: nat, v: nat)
    requires
        split_dots(trim(line)).len() == 1,
        parse_usize(trim(split_dots(trim(line))[0])) == Some(v),
    ensures
        v <= max ==> selection(line, max) == Some((v, v)),
        v > max ==> selection(line, max) is None,
{
}

/// Two numbers `a..b` typed in the menu select the groups `a` to `b`
/// whenever `a < b` and `b` is a group (below the return entry `max`),
/// adjacent groups included; otherwise they select nothing.
pub proof fn lemma_typed_range_selects_it(line: Seq<char>, max: nat, a: nat, b: nat)
    requires
        split_dots(trim(line)).len() == 2,
        parse_usize(trim(split_dots(trim(line))[0])) == Some(a),
        parse_usize(trim(split_dots(trim(line))[1])) == Some(b),
    ensures
        a < b && b < max ==> selection(line, max) == Some((a, b)),
        !(a < b && b < max) ==> selection(line, max) is None,
{
}

/// A line that is neither one number nor two numbers separated by `..`
/// selects nothing.
pub proof fn lemma_other_lines_select_nothing(line: Seq<char>, max: nat)
    requires
        ({
            let parts = split_dots(trim(line));
            (parts.len() != 1 && parts.len() != 2) || exists|k: int|
                0 <= k < parts.len() && parse_usize(trim(#[trigger] parts[k])) is None
        }),
    ensures
        selection(line, max) is None,
{
}

/// Row `k` of the tags table is group `k` (the number shown beside it is
/// the one that selects it): its tag names joined by commas, its creation
/// date as chrono writes it, its digest; after the groups comes the
/// return entry, numbered with the number of groups.
pub proof fn lemma_tags_table_rows(gs: Seq<TagGroup>)
    ensures
        tag_records(gs).len() == gs.len() + 1,
        forall|k: int|
            0 <= k < gs.len() ==> #[trigger] tag_records(gs)[k] == seq![
                join(gs[k].tags@.map_values(|t: Tag| t.name@), ", "@),
                utc_text(gs[k].created as int)->0,
                gs[k].digest@,
            ],
        tag_records(gs)[gs.len() as int] == seq!["RETURN"@],
{
}

/// A suggestion names a group created at least 1209600 seconds (two weeks)
/// before `now`, after which at least three release groups and at least two
/// other groups stay; and every later group is younger than that or has
/// fewer releases or fewer others after it. With no suggestion, every group
/// is so.
pub proof fn lemma_suggestion_is_old_and_keeps(
    gs: Seq<TagGroup>,
    pattern: Seq<char>,
    now: int,
    s: Option<usize>,
)
    requires
        is_suggestion(gs, pattern, now, s),
    ensures
        s matches Some(i) ==> {
            &&& i < gs.len()
            &&& gs[i as int].created <= now - 1209600
            &&& releases_from(gs, pattern, i + 1) >= 3
            &&& others_from(gs, pattern, i + 1) >= 2
        },
        forall|j: int|
            (match s {
                Some(i) => i < j < gs.len(),
                None => 0 <= j < gs.len(),
            }) ==> (#[trigger] gs[j]).created > now - 1209600 || releases_from(gs, pattern, j + 1)
                < 3 || others_from(gs, pattern, j + 1) < 2,
{
    assert forall|j: int|
        (match s {
            Some(i) => i < j < gs.len(),
            None => 0 <= j < gs.len(),
        }) implies (#[trigger] gs[j]).created > now - 1209600 || releases_from(gs, pattern, j + 1)
            < 3 || others_from(gs, pattern, j + 1) < 2 by {
        assert(!may_suggest(gs, pattern, now, j));
    }
}

} // verus!
