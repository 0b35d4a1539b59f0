//! How much space the repositories of a scan take: per repository the sum
//! of its layer sizes, and the sum of the layers whose digest no repository
//! checked before it showed (each shared layer is counted once, for the
//! first repository that has it); with the totals of both under `TOTALS`.

use vstd::prelude::*;
use crate::registry::{Layer, ScanElement, Tag, TagGroup};
use crate::sorting::{is_stable_sort_by, stable_sort_by_key};

verus! {

/// The sizes of one repository, or the totals of a scan.
#[derive(Clone, Copy, Debug)]
pub struct Sizes {
    pub size: usize,
    pub size_dedup_global: usize,
}

/// The concatenation of a sequence of sequences.
pub open spec fn flatten<A>(s: Seq<Seq<A>>) -> Seq<A>
    decreases s.len(),
{
    if s.len() == 0 {
        Seq::empty()
    } else {
        flatten(s.drop_last()) + s.last()
    }
}

/// The layers of the manifest of a tag.
pub open spec fn tag_layers(t: Tag) -> Seq<Layer> {
    t.manifest.layers@
}

/// `tag_layers` as a function value.
pub open spec fn tag_layers_fn() -> spec_fn(Tag) -> Seq<Layer> {
    |t: Tag| tag_layers(t)
}

/// The layers of all tags of a group, tag after tag.
pub open spec fn group_layers(g: TagGroup) -> Seq<Layer> {
    flatten(g.tags@.map_values(tag_layers_fn()))
}

/// `group_layers` as a function value.
pub open spec fn group_layers_fn() -> spec_fn(TagGroup) -> Seq<Layer> {
    |g: TagGroup| group_layers(g)
}

/// The layers of all groups of a repository, group after group.
pub open spec fn element_layers(e: ScanElement) -> Seq<Layer> {
    flatten(e.tags_grouped_by_digest@.map_values(group_layers_fn()))
}

/// `element_layers` as a function value.
pub open spec fn element_layers_fn() -> spec_fn(ScanElement) -> Seq<Layer> {
    |e: ScanElement| element_layers(e)
}

/// The layers of a whole scan, repository after repository.
pub open spec fn scan_layers(es: Seq<ScanElement>) -> Seq<Layer> {
    flatten(es.map_values(element_layers_fn()))
}

/// The sum of the sizes of the layers.
pub open spec fn total_size(ls: Seq<Layer>) -> nat
    decreases ls.len(),
{
    if ls.len() == 0 {
        0
    } else {
        total_size(ls.drop_last()) + ls.last().size as nat
    }
}

/// Some layer of `ls` has the digest `d`.
pub open spec fn digest_seen(ls: Seq<Layer>, d: Seq<char>) -> bool {
    exists|j: int| 0 <= j < ls.len() && (#[trigger] ls[j]).digest@ == d
}

/// The sum of the sizes of the layers of `ls` whose digest occurs neither in
/// `seen` nor earlier in `ls`.
pub open spec fn fresh_size(ls: Seq<Layer>, seen: Seq<Layer>) -> nat
    decreases ls.len(),
{
    if ls.len() == 0 {
        0
    } else {
        fresh_size(ls.drop_last(), seen) + if digest_seen(seen + ls.drop_last(), ls.last().digest@) {
            0
        } else {
            ls.last().size as nat
        }
    }
}

/// The size of the repository `es[i]`, and the size of its layers that no
/// repository before it in `es` has.
pub open spec fn element_sizes(es: Seq<ScanElement>, i: int) -> Sizes {
    Sizes {
        size: total_size(element_layers(es[i])) as usize,
        size_dedup_global: fresh_size(element_layers(es[i]), scan_layers(es.subrange(0, i))) as usize,
    }
}

/// The totals of a scan.
pub open spec fn scan_totals(es: Seq<ScanElement>) -> Sizes {
    Sizes {
        size: total_size(scan_layers(es)) as usize,
        size_dedup_global: fresh_size(scan_layers(es), Seq::empty()) as usize,
    }
}

/// The sizes of the first `i` repositories by name; a later repository of
/// the same name replaces an earlier one.
pub open spec fn sizes_upto(es: Seq<ScanElement>, i: int) -> Map<Seq<char>, Sizes>
    decreases i,
{
    if i <= 0 {
        Map::empty()
    } else {
        sizes_upto(es, i - 1).insert(es[i - 1].repository@, element_sizes(es, i - 1))
    }
}

/// The name under which a table holds the totals.
pub open spec fn totals_key() -> Seq<char> {
    "TOTALS"@
}

/// The table that `calculate` returns: the sizes of each repository by
/// name, and the totals under `TOTALS`, which replace a repository of that
/// name.
pub open spec fn size_table(es: Seq<ScanElement>) -> Map<Seq<char>, Sizes> {
    sizes_upto(es, es.len() as int).insert(totals_key(), scan_totals(es))
}

// ---------------------------------------------------------------------
// Facts about sums and flattening.

pub proof fn lemma_flatten_concat<A>(a: Seq<Seq<A>>, b: Seq<Seq<A>>)
    ensures
        flatten(a + b) == flatten(a) + flatten(b),
    decreases b.len(),
{
    if b.len() == 0 {
        assert(a + b =~= a);
        assert(flatten(a) + flatten(b) =~= flatten(a));
    } else {
        assert((a + b).drop_last() =~= a + b.drop_last());
        lemma_flatten_concat(a, b.drop_last());
        assert(flatten(a + b) =~= flatten(a) + flatten(b));
    }
}

pub proof fn lemma_total_size_concat(a: Seq<Layer>, b: Seq<Layer>)
    ensures
        total_size(a + b) == total_size(a) + total_size(b),
    decreases b.len(),
{
    if b.len() == 0 {
        assert(a + b =~= a);
    } else {
        assert((a + b).drop_last() =~= a + b.drop_last());
        lemma_total_size_concat(a, b.drop_last());
    }
}

pub proof fn lemma_fresh_size_concat(a: Seq<Layer>, b: Seq<Layer>, seen: Seq<Layer>)
    ensures
        fresh_size(a + b, seen) == fresh_size(a, seen) + fresh_size(b, seen + a),
    decreases b.len(),
{
    if b.len() == 0 {
        assert(a + b =~= a);
    } else {
        assert((a + b).drop_last() =~= a + b.drop_last());
        assert(seen + (a + b).drop_last() =~= (seen + a) + b.drop_last());
        lemma_fresh_size_concat(a, b.drop_last(), seen);
    }
}

pub proof fn lemma_fresh_at_most_total(ls: Seq<Layer>, seen: Seq<Layer>)
    ensures
        fresh_size(ls, seen) <= total_size(ls),
    decreases ls.len(),
{
    if ls.len() > 0 {
        lemma_fresh_at_most_total(ls.drop_last(), seen);
    }
}

proof fn lemma_prefix_total(ls: Seq<Layer>, k: int)
    requires
        0 <= k <= ls.len(),
    ensures
        total_size(ls.subrange(0, k)) <= total_size(ls),
{
    assert(ls =~= ls.subrange(0, k) + ls.subrange(k, ls.len() as int));
    lemma_total_size_concat(ls.subrange(0, k), ls.subrange(k, ls.len() as int));
}

pub(crate) proof fn lemma_flatten_step<A, B>(s: Seq<A>, f: spec_fn(A) -> Seq<B>, k: int)
    requires
        0 <= k < s.len(),
    ensures
        flatten(s.subrange(0, k + 1).map_values(f)) == flatten(s.subrange(0, k).map_values(f))
            + f(s[k]),
{
    assert(s.subrange(0, k + 1).map_values(f).drop_last() =~= s.subrange(0, k).map_values(f));
}

proof fn lemma_flatten_prefix_total<A>(s: Seq<A>, f: spec_fn(A) -> Seq<Layer>, k: int)
    requires
        0 <= k <= s.len(),
    ensures
        total_size(flatten(s.subrange(0, k).map_values(f))) <= total_size(flatten(s.map_values(f))),
{
    assert(s.map_values(f) =~= s.subrange(0, k).map_values(f) + s.subrange(k, s.len() as int).map_values(f));
    lemma_flatten_concat(s.subrange(0, k).map_values(f), s.subrange(k, s.len() as int).map_values(f));
    lemma_total_size_concat(
        flatten(s.subrange(0, k).map_values(f)),
        flatten(s.subrange(k, s.len() as int).map_values(f)),
    );
}

// ---------------------------------------------------------------------
// The running sums of a scan.

/// The sums being accumulated: of the current repository and of the scan.
struct Tally {
    size: usize,
    dedup: usize,
    total: usize,
    total_dedup: usize,
}

/// `tracker` holds exactly the digests of the layers `seen`.
pub(crate) open spec fn tracks(tracker: Seq<String>, seen: Seq<Layer>) -> bool {
    forall|d: Seq<char>|
        (exists|j: int| 0 <= j < tracker.len() && (#[trigger] tracker[j])@ == d) <==> digest_seen(
            seen,
            d,
        )
}

/// The running sums grow by the sizes of `ls`, of which the layers whose
/// digest is not in `seen` count toward the deduplicated sums.
spec fn tally_grew(t0: Tally, t1: Tally, ls: Seq<Layer>, seen: Seq<Layer>) -> bool {
    &&& t1.size == t0.size + total_size(ls)
    &&& t1.total == t0.total + total_size(ls)
    &&& t1.dedup == t0.dedup + fresh_size(ls, seen)
    &&& t1.total_dedup == t0.total_dedup + fresh_size(ls, seen)
}

spec fn tally_bounded(t: Tally) -> bool {
    t.size <= t.total && t.dedup <= t.total && t.total_dedup <= t.total
}

fn contains_digest(tracker: &Vec<String>, d: &String) -> (b: bool)
    ensures
        b == exists|j: int| 0 <= j < tracker@.len() && (#[trigger] tracker@[j])@ == d@,
{
    let mut j: usize = 0;
    while j < tracker.len()
        invariant
            j <= tracker@.len(),
            forall|q: int| 0 <= q < j ==> (#[trigger] tracker@[q])@ != d@,
        decreases tracker@.len() - j,
    {
        if tracker[j] == *d {
            return true;
        }
        j = j + 1;
    }
    false
}

/// Records the digest of `layer` in `tracker`, if it is not there yet.
pub(crate) fn note_digest(tracker: &mut Vec<String>, layer: &Layer, Ghost(seen): Ghost<Seq<Layer>>) -> (fresh: bool)
    requires
        tracks(old(tracker)@, seen),
    ensures
        fresh == !digest_seen(seen, layer.digest@),
        tracks(final(tracker)@, seen.push(*layer)),
{
    let ghost tr0 = tracker@;
    let present = contains_digest(tracker, &layer.digest);
    if !present {
        tracker.push(layer.digest.clone());
    }
    assert(present ==> tracker@ == tr0);
    assert(!present ==> tracker@ == tr0.push(layer.digest));
    let ghost now_seen = seen.push(*layer);
    assert forall|d: Seq<char>|
        (exists|q: int| 0 <= q < tracker@.len() && (#[trigger] tracker@[q])@ == d)
            <==> digest_seen(now_seen, d) by {
        if digest_seen(now_seen, d) {
            let w = choose|w: int| 0 <= w < now_seen.len() && (#[trigger] now_seen[w]).digest@ == d;
            if w < now_seen.len() - 1 {
                assert(seen[w] == now_seen[w]);
                assert(digest_seen(seen, d));
                assert(exists|q: int| 0 <= q < tr0.len() && (#[trigger] tr0[q])@ == d);
                let q = choose|q: int| 0 <= q < tr0.len() && (#[trigger] tr0[q])@ == d;
                assert(tracker@[q] == tr0[q]);
            } else if !present {
                assert(tracker@[tracker@.len() - 1]@ == d);
            } else {
                assert(exists|q: int| 0 <= q < tr0.len() && (#[trigger] tr0[q])@ == d);
            }
        }
        if exists|q: int| 0 <= q < tracker@.len() && (#[trigger] tracker@[q])@ == d {
            let q = choose|q: int| 0 <= q < tracker@.len() && (#[trigger] tracker@[q])@ == d;
            if q < tr0.len() {
                assert(tracker@[q] == tr0[q]);
                assert(exists|q: int| 0 <= q < tr0.len() && (#[trigger] tr0[q])@ == d);
                assert(digest_seen(seen, d));
                let w = choose|w: int| 0 <= w < seen.len() && (#[trigger] seen[w]).digest@ == d;
                assert(now_seen[w] == seen[w]);
            } else {
                assert(now_seen[now_seen.len() - 1] == *layer);
            }
        }
    }
    !present
}

fn add_layers(
    layers: &Vec<Layer>,
    tracker: &mut Vec<String>,
    tally: &mut Tally,
    Ghost(seen): Ghost<Seq<Layer>>,
)
    requires
        tracks(old(tracker)@, seen),
        tally_bounded(*old(tally)),
        old(tally).total + total_size(layers@) <= usize::MAX,
    ensures
        tracks(final(tracker)@, seen + layers@),
        tally_grew(*old(tally), *final(tally), layers@, seen),
        tally_bounded(*final(tally)),
{
    let ghost t0 = *tally;
    let ghost ls = layers@;
    let mut j: usize = 0;
    while j < layers.len()
        invariant
            ls == layers@,
            j <= ls.len(),
            tracks(tracker@, seen + ls.subrange(0, j as int)),
            tally_grew(t0, *tally, ls.subrange(0, j as int), seen),
            tally_bounded(t0),
            tally_bounded(*tally),
            t0.total + total_size(ls) <= usize::MAX,
        decreases ls.len() - j,
    {
        let ghost pre = ls.subrange(0, j as int);
        let ghost next = ls.subrange(0, j + 1);
        assert(next.drop_last() =~= pre);
        proof {
            lemma_prefix_total(ls, j + 1);
            lemma_fresh_at_most_total(next, seen);
            lemma_fresh_at_most_total(pre, seen);
        }
        let layer = &layers[j];
        assert(next.last() == *layer);
        let fresh = note_digest(tracker, layer, Ghost(seen + pre));
        assert((seen + pre).push(*layer) =~= seen + next);
        tally.size = tally.size + layer.size;
        tally.total = tally.total + layer.size;
        if fresh {
            tally.dedup = tally.dedup + layer.size;
            tally.total_dedup = tally.total_dedup + layer.size;
        }
        j = j + 1;
    }
    assert(ls.subrange(0, j as int) =~= ls);
}


proof fn lemma_grew_concat(t0: Tally, t1: Tally, t2: Tally, a: Seq<Layer>, b: Seq<Layer>, seen: Seq<Layer>)
    requires
        tally_grew(t0, t1, a, seen),
        tally_grew(t1, t2, b, seen + a),
    ensures
        tally_grew(t0, t2, a + b, seen),
{
    lemma_total_size_concat(a, b);
    lemma_fresh_size_concat(a, b, seen);
}

fn add_group(g: &TagGroup, tracker: &mut Vec<String>, tally: &mut Tally, Ghost(seen): Ghost<Seq<Layer>>)
    requires
        tracks(old(tracker)@, seen),
        tally_bounded(*old(tally)),
        old(tally).total + total_size(group_layers(*g)) <= usize::MAX,
    ensures
        tracks(final(tracker)@, seen + group_layers(*g)),
        tally_grew(*old(tally), *final(tally), group_layers(*g), seen),
        tally_bounded(*final(tally)),
{
    let ghost t0 = *tally;
    let ghost f = tag_layers_fn();
    let ghost ts = g.tags@;
    assert(group_layers(*g) == flatten(ts.map_values(f)));
    let mut k: usize = 0;
    assert(flatten(ts.subrange(0, 0).map_values(f)) =~= Seq::<Layer>::empty());
    assert(seen + Seq::<Layer>::empty() =~= seen);
    while k < g.tags.len()
        invariant
            ts == g.tags@,
            f == tag_layers_fn(),
            k <= ts.len(),
            tracks(tracker@, seen + flatten(ts.subrange(0, k as int).map_values(f))),
            tally_grew(t0, *tally, flatten(ts.subrange(0, k as int).map_values(f)), seen),
            tally_bounded(*tally),
            t0.total + total_size(group_layers(*g)) <= usize::MAX,
            group_layers(*g) == flatten(ts.map_values(f)),
        decreases ts.len() - k,
    {
        let ghost pre = flatten(ts.subrange(0, k as int).map_values(f));
        let ghost t1 = *tally;
        proof {
            lemma_flatten_step(ts, f, k as int);
            lemma_flatten_prefix_total(ts, f, k + 1);
            lemma_total_size_concat(pre, tag_layers(ts[k as int]));
            assert(f(ts[k as int]) == g.tags@[k as int].manifest.layers@);
        }
        add_layers(&g.tags[k].manifest.layers, tracker, tally, Ghost(seen + pre));
        proof {
            lemma_grew_concat(t0, t1, *tally, pre, tag_layers(ts[k as int]), seen);
            assert(seen + pre + tag_layers(ts[k as int]) =~= seen + (pre + tag_layers(ts[k as int])));
        }
        k = k + 1;
    }
    assert(ts.subrange(0, k as int) =~= ts);
}

fn add_element(e: &ScanElement, tracker: &mut Vec<String>, tally: &mut Tally, Ghost(seen): Ghost<Seq<Layer>>)
    requires
        tracks(old(tracker)@, seen),
        tally_bounded(*old(tally)),
        old(tally).total + total_size(element_layers(*e)) <= usize::MAX,
    ensures
        tracks(final(tracker)@, seen + element_layers(*e)),
        tally_grew(*old(tally), *final(tally), element_layers(*e), seen),
        tally_bounded(*final(tally)),
{
    let ghost t0 = *tally;
    let ghost f = group_layers_fn();
    let ghost gs = e.tags_grouped_by_digest@;
    assert(element_layers(*e) == flatten(gs.map_values(f)));
    let mut k: usize = 0;
    assert(flatten(gs.subrange(0, 0).map_values(f)) =~= Seq::<Layer>::empty());
    assert(seen + Seq::<Layer>::empty() =~= seen);
    while k < e.tags_grouped_by_digest.len()
        invariant
            gs == e.tags_grouped_by_digest@,
            f == group_layers_fn(),
            k <= gs.len(),
            tracks(tracker@, seen + flatten(gs.subrange(0, k as int).map_values(f))),
            tally_grew(t0, *tally, flatten(gs.subrange(0, k as int).map_values(f)), seen),
            tally_bounded(*tally),
            t0.total + total_size(element_layers(*e)) <= usize::MAX,
            element_layers(*e) == flatten(gs.map_values(f)),
        decreases gs.len() - k,
    {
        let ghost pre = flatten(gs.subrange(0, k as int).map_values(f));
        let ghost t1 = *tally;
        proof {
            lemma_flatten_step(gs, f, k as int);
            lemma_flatten_prefix_total(gs, f, k + 1);
            lemma_total_size_concat(pre, group_layers(gs[k as int]));
            assert(f(gs[k as int]) == group_layers(e.tags_grouped_by_digest@[k as int]));
        }
        add_group(&e.tags_grouped_by_digest[k], tracker, tally, Ghost(seen + pre));
        proof {
            lemma_grew_concat(t0, t1, *tally, pre, group_layers(gs[k as int]), seen);
            assert(seen + pre + group_layers(gs[k as int]) =~= seen + (pre + group_layers(gs[k as int])));
        }
        k = k + 1;
    }
    assert(gs.subrange(0, k as int) =~= gs);
}


// ---------------------------------------------------------------------
// The table of sizes by repository name.

/// Sizes by name. Each name occurs once.
pub struct SizeTable {
    entries: Vec<(String, Sizes)>,
}

/// The names in `entries` are pairwise distinct.
pub open spec fn distinct_names(entries: Seq<(String, Sizes)>) -> bool {
    forall|a: int, b: int|
        0 <= a < b < entries.len() ==> (#[trigger] entries[a]).0@ != (#[trigger] entries[b]).0@
}

/// Some entry is named `name`.
pub open spec fn has_name(entries: Seq<(String, Sizes)>, name: Seq<char>) -> bool {
    exists|i: int| 0 <= i < entries.len() && (#[trigger] entries[i]).0@ == name
}

/// The position of the entry named `name`.
pub open spec fn name_index(entries: Seq<(String, Sizes)>, name: Seq<char>) -> int {
    choose|i: int| 0 <= i < entries.len() && (#[trigger] entries[i]).0@ == name
}

/// The map from names to sizes that `entries` hold.
pub open spec fn entries_map(entries: Seq<(String, Sizes)>) -> Map<Seq<char>, Sizes> {
    Map::new(
        |name: Seq<char>| has_name(entries, name),
        |name: Seq<char>| entries[name_index(entries, name)].1,
    )
}

impl View for SizeTable {
    type V = Map<Seq<char>, Sizes>;

    closed spec fn view(&self) -> Map<Seq<char>, Sizes> {
        entries_map(self.entries@)
    }
}

impl SizeTable {
    #[verifier::type_invariant]
    closed spec fn names_are_distinct(self) -> bool {
        distinct_names(self.entries@)
    }

    fn new() -> (t: SizeTable)
        ensures
            t@ == Map::<Seq<char>, Sizes>::empty(),
    {
        let t = SizeTable { entries: Vec::new() };
        assert(t@ =~= Map::<Seq<char>, Sizes>::empty());
        t
    }

    /// Sets the sizes of `name`, replacing those it had.
    fn insert(&mut self, name: String, sizes: Sizes)
        ensures
            final(self)@ == old(self)@.insert(name@, sizes),
    {
        proof {
            use_type_invariant(&*self);
        }
        let ghost old_entries = self.entries@;
        let mut j: usize = 0;
        while j < self.entries.len() && self.entries[j].0 != name
            invariant
                j <= self.entries@.len(),
                forall|q: int| 0 <= q < j ==> (#[trigger] self.entries@[q]).0@ != name@,
            decreases self.entries@.len() - j,
        {
            j = j + 1;
        }
        let ghost k = name@;
        let mut entries = Vec::new();
        std::mem::swap(&mut entries, &mut self.entries);
        if j < entries.len() {
            entries.remove(j);
            entries.insert(j, (name, sizes));
        } else {
            entries.push((name, sizes));
        }
        let ghost ne = entries@;
        assert(distinct_names(ne)) by {
            assert forall|a: int, b: int| 0 <= a < b < ne.len() implies (#[trigger] ne[a]).0@ != (
            #[trigger] ne[b]).0@ by {
                if a != j && b != j {
                    assert(ne[a] == old_entries[a] && ne[b] == old_entries[b]);
                } else if a == j {
                    if b < old_entries.len() {
                        assert(ne[b] == old_entries[b]);
                    }
                } else {
                    assert(ne[a] == old_entries[a]);
                }
            }
        }
        assert(entries_map(ne) =~= entries_map(old_entries).insert(k, sizes)) by {
            assert forall|n: Seq<char>| #[trigger] has_name(ne, n) == (has_name(old_entries, n) || n == k) by {
                if has_name(ne, n) {
                    let i = choose|i: int| 0 <= i < ne.len() && (#[trigger] ne[i]).0@ == n;
                    if i != j {
                        assert(ne[i] == old_entries[i]);
                    }
                }
                if has_name(old_entries, n) {
                    let i = choose|i: int| 0 <= i < old_entries.len() && (#[trigger] old_entries[i]).0@ == n;
                    if i != j {
                        assert(ne[i] == old_entries[i]);
                    } else {
                        assert(ne[j as int].0@ == k);
                    }
                }
                if n == k {
                    assert(ne[j as int].0@ == k);
                }
            }
            assert forall|n: Seq<char>| has_name(ne, n) implies #[trigger] ne[name_index(ne, n)].1 == (
            if n == k { sizes } else { old_entries[name_index(old_entries, n)].1 }) by {
                let i = name_index(ne, n);
                if n == k {
                    assert(ne[j as int].0@ == k);
                } else {
                    assert(i != j);
                    assert(ne[i] == old_entries[i]);
                    assert(has_name(old_entries, n));
                    let i2 = name_index(old_entries, n);
                    if i2 != i {
                        if i2 < i {
                            assert(old_entries[i2].0@ != old_entries[i].0@);
                        } else {
                            assert(old_entries[i].0@ != old_entries[i2].0@);
                        }
                    }
                }
            }
        }
        self.entries = entries;
    }

    /// The sizes of `name`, if the table has them.
    pub fn get(&self, name: &String) -> (r: Option<Sizes>)
        ensures
            r == (if self@.contains_key(name@) {
                Some(self@[name@])
            } else {
                None::<Sizes>
            }),
    {
        proof {
            use_type_invariant(self);
        }
        let mut j: usize = 0;
        while j < self.entries.len()
            invariant
                j <= self.entries@.len(),
                distinct_names(self.entries@),
                forall|q: int| 0 <= q < j ==> (#[trigger] self.entries@[q]).0@ != name@,
            decreases self.entries@.len() - j,
        {
            if self.entries[j].0 == *name {
                proof {
                    let es = self.entries@;
                    let i = name_index(es, name@);
                    assert(es[j as int].0@ == name@);
                    if i != j {
                        if i < j {
                            assert(es[i].0@ != es[j as int].0@);
                        } else {
                            assert(es[j as int].0@ != es[i].0@);
                        }
                    }
                }
                return Some(self.entries[j].1);
            }
            j = j + 1;
        }
        None
    }
}


/// `calculate(elements)`: the sizes of each repository of a scan, by name,
/// and the totals of the scan under `TOTALS`. A layer counts toward the
/// deduplicated size of the first repository, in scan order, that has its
/// digest, and of no other.
pub fn calculate(elements: &Vec<ScanElement>) -> (table: SizeTable)
    requires
        total_size(scan_layers(elements@)) <= usize::MAX,
    ensures
        table@ == size_table(elements@),
{
    let ghost es = elements@;
    let ghost f = element_layers_fn();
    let mut table = SizeTable::new();
    let mut tracker: Vec<String> = Vec::new();
    let mut tally = Tally { size: 0, dedup: 0, total: 0, total_dedup: 0 };
    let mut i: usize = 0;
    assert(flatten(es.subrange(0, 0).map_values(f)) =~= Seq::<Layer>::empty());
    assert(tracks(tracker@, scan_layers(es.subrange(0, 0))));
    while i < elements.len()
        invariant
            es == elements@,
            f == element_layers_fn(),
            i <= es.len(),
            total_size(scan_layers(es)) <= usize::MAX,
            table@ == sizes_upto(es, i as int),
            tracks(tracker@, scan_layers(es.subrange(0, i as int))),
            tally.total == total_size(scan_layers(es.subrange(0, i as int))),
            tally.total_dedup == fresh_size(scan_layers(es.subrange(0, i as int)), Seq::empty()),
            tally.total_dedup <= tally.total,
        decreases es.len() - i,
    {
        let ghost pre = scan_layers(es.subrange(0, i as int));
        let ghost el = element_layers(es[i as int]);
        proof {
            lemma_flatten_step(es, f, i as int);
            lemma_flatten_prefix_total(es, f, i + 1);
            lemma_total_size_concat(pre, el);
            lemma_fresh_size_concat(pre, el, Seq::empty());
            assert(Seq::<Layer>::empty() + pre =~= pre);
            assert(f(es[i as int]) == el);
        }
        tally.size = 0;
        tally.dedup = 0;
        add_element(&elements[i], &mut tracker, &mut tally, Ghost(pre));
        let sizes = Sizes { size: tally.size, size_dedup_global: tally.dedup };
        assert(sizes == element_sizes(es, i as int));
        table.insert(elements[i].repository.clone(), sizes);
        i = i + 1;
    }
    assert(es.subrange(0, i as int) =~= es);
    let totals = Sizes { size: tally.total, size_dedup_global: tally.total_dedup };
    table.insert(String::from_str("TOTALS"), totals);
    table
}

/// The key by which `order_by_dedup_size` orders: the deduplicated size of
/// the repository, largest first.
pub open spec fn dedup_order_key(sizes: Map<Seq<char>, Sizes>, e: ScanElement) -> int {
    -(sizes[e.repository@].size_dedup_global as int)
}

/// Orders the repositories of a scan from the largest deduplicated size to
/// the smallest, keeping the scan order of repositories of equal size.
pub fn order_by_dedup_size(elements: Vec<ScanElement>, sizes: &SizeTable) -> (ordered: Vec<
    ScanElement,
>)
    requires
        forall|i: int|
            0 <= i < elements@.len() ==> sizes@.contains_key((#[trigger] elements@[i]).repository@),
    ensures
        is_stable_sort_by(ordered@, elements@, |e: ScanElement| dedup_order_key(sizes@, e)),
{
    let mut keys: Vec<i128> = Vec::new();
    let mut i: usize = 0;
    while i < elements.len()
        invariant
            i <= elements@.len(),
            keys@.len() == i,
            forall|j: int|
                0 <= j < elements@.len() ==> sizes@.contains_key((#[trigger] elements@[j]).repository@),
            forall|j: int|
                0 <= j < i ==> keys@[j] as int == dedup_order_key(sizes@, #[trigger] elements@[j]),
        decreases elements@.len() - i,
    {
        let v = sizes.get(&elements[i].repository).unwrap();
        keys.push(-(v.size_dedup_global as i128));
        i = i + 1;
    }
    stable_sort_by_key(elements, keys, Ghost(|e: ScanElement| dedup_order_key(sizes@, e)))
}


// ---------------------------------------------------------------------
// Laws of the sizes.

/// The sum of the sizes of the first `n` repositories.
pub open spec fn sum_of_sizes(es: Seq<ScanElement>, n: int) -> nat
    decreases n,
{
    if n <= 0 {
        0
    } else {
        sum_of_sizes(es, n - 1) + total_size(element_layers(es[n - 1]))
    }
}

/// The sum of the deduplicated sizes of the first `n` repositories.
pub open spec fn sum_of_dedup_sizes(es: Seq<ScanElement>, n: int) -> nat
    decreases n,
{
    if n <= 0 {
        0
    } else {
        sum_of_dedup_sizes(es, n - 1) + fresh_size(
            element_layers(es[n - 1]),
            scan_layers(es.subrange(0, n - 1)),
        )
    }
}

/// The totals add up: the total size of a scan is the sum of the sizes of
/// its repositories, and its total deduplicated size the sum of their
/// deduplicated sizes.
pub proof fn lemma_totals_add_up(es: Seq<ScanElement>, n: int)
    requires
        0 <= n <= es.len(),
    ensures
        total_size(scan_layers(es.subrange(0, n))) == sum_of_sizes(es, n),
        fresh_size(scan_layers(es.subrange(0, n)), Seq::empty()) == sum_of_dedup_sizes(es, n),
    decreases n,
{
    if n == 0 {
        assert(es.subrange(0, 0).map_values(element_layers_fn()) =~= Seq::<Seq<Layer>>::empty());
    } else {
        lemma_totals_add_up(es, n - 1);
        let pre = scan_layers(es.subrange(0, n - 1));
        let el = element_layers(es[n - 1]);
        lemma_flatten_step(es, element_layers_fn(), n - 1);
        lemma_total_size_concat(pre, el);
        lemma_fresh_size_concat(pre, el, Seq::empty());
        assert(Seq::<Layer>::empty() + pre =~= pre);
    }
}

/// A repository's deduplicated size is never more than its size, and the
/// same holds of the totals.
pub proof fn lemma_dedup_at_most_size(es: Seq<ScanElement>, i: int)
    requires
        0 <= i < es.len(),
    ensures
        fresh_size(element_layers(es[i]), scan_layers(es.subrange(0, i))) <= total_size(
            element_layers(es[i]),
        ),
        fresh_size(scan_layers(es), Seq::empty()) <= total_size(scan_layers(es)),
{
    lemma_fresh_at_most_total(element_layers(es[i]), scan_layers(es.subrange(0, i)));
    lemma_fresh_at_most_total(scan_layers(es), Seq::empty());
}

/// Layers whose digests were all seen before add nothing to a deduplicated
/// size: a repository whose layers all occur in earlier repositories has a
/// deduplicated size of zero.
pub proof fn lemma_shared_layers_count_once(ls: Seq<Layer>, seen: Seq<Layer>)
    requires
        forall|j: int| 0 <= j < ls.len() ==> digest_seen(seen, (#[trigger] ls[j]).digest@),
    ensures
        fresh_size(ls, seen) == 0,
    decreases ls.len(),
{
    if ls.len() > 0 {
        assert forall|j: int| 0 <= j < ls.drop_last().len() implies digest_seen(
            seen,
            (#[trigger] ls.drop_last()[j]).digest@,
        ) by {
            assert(ls.drop_last()[j] == ls[j]);
        }
        lemma_shared_layers_count_once(ls.drop_last(), seen);
        assert(digest_seen(seen, ls[ls.len() - 1].digest@));
        let w = choose|w: int| 0 <= w < seen.len() && (#[trigger] seen[w]).digest@ == ls.last().digest@;
        assert((seen + ls.drop_last())[w] == seen[w]);
    }
}

/// When no two layers share a digest, deduplication removes nothing.
pub proof fn lemma_distinct_digests_keep_size(ls: Seq<Layer>)
    requires
        forall|a: int, b: int|
            0 <= a < b < ls.len() ==> (#[trigger] ls[a]).digest@ != (#[trigger] ls[b]).digest@,
    ensures
        fresh_size(ls, Seq::empty()) == total_size(ls),
    decreases ls.len(),
{
    if ls.len() > 0 {
        let pre = ls.drop_last();
        assert forall|a: int, b: int| 0 <= a < b < pre.len() implies (#[trigger] pre[a]).digest@ != (
        #[trigger] pre[b]).digest@ by {
            assert(pre[a] == ls[a] && pre[b] == ls[b]);
        }
        lemma_distinct_digests_keep_size(pre);
        assert(Seq::<Layer>::empty() + pre =~= pre);
        if digest_seen(pre, ls.last().digest@) {
            let w = choose|w: int| 0 <= w < pre.len() && (#[trigger] pre[w]).digest@ == ls.last().digest@;
            assert(ls[w] == pre[w]);
        }
    }
}

/// Two layers of `ls` with the same digest have the same size.
pub open spec fn sizes_agree(ls: Seq<Layer>) -> bool {
    forall|a: Layer, b: Layer|
        #[trigger] ls.contains(a) && #[trigger] ls.contains(b) && a.digest@ == b.digest@ ==> a.size
            == b.size
}

/// The digests of the layers of `ls`.
pub open spec fn digests_of(ls: Seq<Layer>) -> Set<Seq<char>> {
    Set::new(|d: Seq<char>| digest_seen(ls, d))
}

/// The size of a layer of `ls` with the digest `d`.
spec fn size_of_digest(ls: Seq<Layer>, d: Seq<char>) -> nat {
    (choose|l: Layer| ls.contains(l) && l.digest@ == d).size as nat
}

/// Adds the size that layers of `ls` with the digest have.
spec fn add_digest_size(ls: Seq<Layer>) -> spec_fn(nat, Seq<char>) -> nat {
    |acc: nat, d: Seq<char>| acc + size_of_digest(ls, d)
}

/// Adds the size of a repository.
spec fn add_element_size() -> spec_fn(nat, ScanElement) -> nat {
    |acc: nat, e: ScanElement| acc + total_size(element_layers(e))
}

proof fn lemma_flatten_contains<A>(s: Seq<Seq<A>>, x: A)
    ensures
        flatten(s).contains(x) <==> exists|i: int| 0 <= i < s.len() && (#[trigger] s[i]).contains(x),
    decreases s.len(),
{
    if s.len() > 0 {
        let pre = s.drop_last();
        lemma_flatten_contains(pre, x);
        let a = flatten(pre);
        let b = s.last();
        assert(flatten(s) == a + b);
        if flatten(s).contains(x) {
            let k = choose|k: int| 0 <= k < flatten(s).len() && flatten(s)[k] == x;
            if k < a.len() {
                assert(a[k] == x);
                let i = choose|i: int| 0 <= i < pre.len() && (#[trigger] pre[i]).contains(x);
                assert(pre[i] == s[i]);
            } else {
                assert(b[k - a.len()] == x);
                assert(s[s.len() - 1].contains(x));
            }
        }
        if exists|i: int| 0 <= i < s.len() && (#[trigger] s[i]).contains(x) {
            let i = choose|i: int| 0 <= i < s.len() && (#[trigger] s[i]).contains(x);
            if i < s.len() - 1 {
                assert(pre[i] == s[i]);
                let k = choose|k: int| 0 <= k < a.len() && a[k] == x;
                assert(flatten(s)[k] == x);
            } else {
                let k = choose|k: int| 0 <= k < b.len() && b[k] == x;
                assert(flatten(s)[a.len() + k] == x);
            }
        }
    }
}

/// A layer is in a scan exactly when it is in one of its repositories.
proof fn lemma_scan_layers_contains(es: Seq<ScanElement>, l: Layer)
    ensures
        scan_layers(es).contains(l) <==> exists|i: int|
            0 <= i < es.len() && element_layers(#[trigger] es[i]).contains(l),
{
    let s = es.map_values(element_layers_fn());
    lemma_flatten_contains(s, l);
    if scan_layers(es).contains(l) {
        let i = choose|i: int| 0 <= i < s.len() && (#[trigger] s[i]).contains(l);
        assert(element_layers(es[i]).contains(l));
    }
    if exists|i: int| 0 <= i < es.len() && element_layers(#[trigger] es[i]).contains(l) {
        let i = choose|i: int| 0 <= i < es.len() && element_layers(#[trigger] es[i]).contains(l);
        assert(s[i].contains(l));
    }
}

/// Scans with the same repositories, in any order, have the same layers.
proof fn lemma_reordered_scan_layers(es1: Seq<ScanElement>, es2: Seq<ScanElement>, l: Layer)
    requires
        es1.to_multiset() == es2.to_multiset(),
        scan_layers(es1).contains(l),
    ensures
        scan_layers(es2).contains(l),
{
    broadcast use vstd::seq_lib::group_to_multiset_ensures;

    lemma_scan_layers_contains(es1, l);
    lemma_scan_layers_contains(es2, l);
    let i = choose|i: int| 0 <= i < es1.len() && element_layers(#[trigger] es1[i]).contains(l);
    let e = es1[i];
    assert(es1.contains(e));
    assert(es1.to_multiset().count(e) > 0);
    assert(es2.contains(e));
    let j = choose|j: int| 0 <= j < es2.len() && es2[j] == e;
    assert(element_layers(es2[j]).contains(l));
}

proof fn lemma_digests_of_push(ls: Seq<Layer>)
    requires
        ls.len() > 0,
    ensures
        digests_of(ls) == digests_of(ls.drop_last()).insert(ls.last().digest@),
{
    let pre = ls.drop_last();
    assert forall|d: Seq<char>|
        digests_of(ls).contains(d) <==> #[trigger] digests_of(pre).insert(ls.last().digest@).contains(
            d,
        ) by {
        if digest_seen(ls, d) {
            let j = choose|j: int| 0 <= j < ls.len() && (#[trigger] ls[j]).digest@ == d;
            if j < ls.len() - 1 {
                assert(pre[j] == ls[j]);
            }
        }
        if digest_seen(pre, d) {
            let j = choose|j: int| 0 <= j < pre.len() && (#[trigger] pre[j]).digest@ == d;
            assert(ls[j] == pre[j]);
        }
        if d == ls.last().digest@ {
            assert(ls[ls.len() - 1].digest@ == d);
        }
    }
    assert(digests_of(ls) =~= digests_of(pre).insert(ls.last().digest@));
}

/// Where every layer of `ls` has the size that `size_of_digest(of, ..)`
/// gives its digest, the deduplicated size of `ls` is the sum of those
/// sizes over its digests.
proof fn lemma_fresh_size_by_digests(ls: Seq<Layer>, of: Seq<Layer>)
    requires
        forall|j: int| 0 <= j < ls.len() ==> size_of_digest(of, (#[trigger] ls[j]).digest@) == ls[j].size,
    ensures
        digests_of(ls).finite(),
        fresh_size(ls, Seq::empty()) == digests_of(ls).fold(0nat, add_digest_size(of)),
    decreases ls.len(),
{
    let f = add_digest_size(of);
    assert(vstd::set::fold::is_fun_commutative(f)) by {
        assert forall|a1: Seq<char>, a2: Seq<char>, b: nat| #[trigger] f(f(b, a2), a1) == f(f(b, a1), a2) by {}
    }
    if ls.len() == 0 {
        assert(digests_of(ls) =~= Set::<Seq<char>>::empty());
        vstd::set::fold::lemma_fold_empty(0nat, f);
    } else {
        let pre = ls.drop_last();
        assert forall|j: int| 0 <= j < pre.len() implies size_of_digest(of, (#[trigger] pre[j]).digest@)
            == pre[j].size by {
            assert(pre[j] == ls[j]);
        }
        lemma_fresh_size_by_digests(pre, of);
        lemma_digests_of_push(ls);
        assert(Seq::<Layer>::empty() + pre =~= pre);
        let d = ls.last().digest@;
        if digest_seen(pre, d) {
            assert(digests_of(pre).insert(d) =~= digests_of(pre));
        } else {
            assert(!digests_of(pre).contains(d));
            vstd::set::fold::lemma_fold_insert(digests_of(pre), 0nat, f, d);
            assert(size_of_digest(of, ls[ls.len() - 1].digest@) == ls[ls.len() - 1].size);
        }
    }
}

proof fn lemma_sum_of_sizes_fold(es: Seq<ScanElement>, n: int)
    requires
        0 <= n <= es.len(),
    ensures
        sum_of_sizes(es, n) == es.subrange(0, n).fold_left(0nat, add_element_size()),
    decreases n,
{
    if n > 0 {
        lemma_sum_of_sizes_fold(es, n - 1);
        assert(es.subrange(0, n).drop_last() =~= es.subrange(0, n - 1));
    }
}

/// The totals of a scan do not depend on the order of its repositories,
/// provided that layers with the same digest have the same size: a new
/// order changes how the deduplicated size is split among the
/// repositories, not the total size nor the total deduplicated size.
pub proof fn lemma_totals_ignore_order(es1: Seq<ScanElement>, es2: Seq<ScanElement>)
    requires
        es1.to_multiset() == es2.to_multiset(),
        sizes_agree(scan_layers(es1)),
    ensures
        total_size(scan_layers(es2)) == total_size(scan_layers(es1)),
        fresh_size(scan_layers(es2), Seq::empty()) == fresh_size(scan_layers(es1), Seq::empty()),
        scan_totals(es2) == scan_totals(es1),
        size_table(es2)[totals_key()] == size_table(es1)[totals_key()],
{
    let ls1 = scan_layers(es1);
    let ls2 = scan_layers(es2);
    assert forall|l: Layer| ls1.contains(l) <==> #[trigger] ls2.contains(l) by {
        if ls1.contains(l) {
            lemma_reordered_scan_layers(es1, es2, l);
        }
        if ls2.contains(l) {
            lemma_reordered_scan_layers(es2, es1, l);
        }
    }
    // The total size: a sum over the repositories, in any order.
    let step = add_element_size();
    assert(vstd::seq_lib::commutative_foldl(step)) by {
        assert forall|x: ScanElement, y: ScanElement, v: nat| #[trigger] step(step(v, x), y) == step(
            step(v, y),
            x,
        ) by {}
    }
    lemma_totals_add_up(es1, es1.len() as int);
    lemma_totals_add_up(es2, es2.len() as int);
    lemma_sum_of_sizes_fold(es1, es1.len() as int);
    lemma_sum_of_sizes_fold(es2, es2.len() as int);
    assert(es1.subrange(0, es1.len() as int) =~= es1);
    assert(es2.subrange(0, es2.len() as int) =~= es2);
    vstd::seq_lib::lemma_fold_left_permutation(es1, es2, step, 0nat);
    // The deduplicated size: a sum over the digests, which are the same.
    assert forall|j: int| 0 <= j < ls1.len() implies size_of_digest(ls1, (#[trigger] ls1[j]).digest@)
        == ls1[j].size by {
        assert(ls1.contains(ls1[j]));
        let l = choose|l: Layer| ls1.contains(l) && l.digest@ == ls1[j].digest@;
    }
    assert forall|j: int| 0 <= j < ls2.len() implies size_of_digest(ls1, (#[trigger] ls2[j]).digest@)
        == ls2[j].size by {
        assert(ls2.contains(ls2[j]));
        assert(ls1.contains(ls2[j]));
        let l = choose|l: Layer| ls1.contains(l) && l.digest@ == ls2[j].digest@;
    }
    assert forall|d: Seq<char>| digests_of(ls1).contains(d) <==> #[trigger] digests_of(ls2).contains(d) by {
        if digest_seen(ls1, d) {
            let j = choose|j: int| 0 <= j < ls1.len() && (#[trigger] ls1[j]).digest@ == d;
            assert(ls1.contains(ls1[j]));
            assert(ls2.contains(ls1[j]));
            let k = choose|k: int| 0 <= k < ls2.len() && ls2[k] == ls1[j];
            assert(ls2[k].digest@ == d);
        }
        if digest_seen(ls2, d) {
            let j = choose|j: int| 0 <= j < ls2.len() && (#[trigger] ls2[j]).digest@ == d;
            assert(ls2.contains(ls2[j]));
            assert(ls1.contains(ls2[j]));
            let k = choose|k: int| 0 <= k < ls1.len() && ls1[k] == ls2[j];
            assert(ls1[k].digest@ == d);
        }
    }
    assert(digests_of(ls1) =~= digests_of(ls2));
    lemma_fresh_size_by_digests(ls1, ls1);
    lemma_fresh_size_by_digests(ls2, ls1);
}

} // verus!
