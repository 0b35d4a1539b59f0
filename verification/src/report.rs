//! The accounting of the size report: for each layer of a scan, whether it
//! is the first of its digest in its repository and in the whole scan.
//! (The report sums these sizes as floating-point megabytes.)

use vstd::prelude::*;
use crate::registry::{Layer, ScanElement, TagGroup};
use crate::sizes::{
    digest_seen, element_layers, element_layers_fn, flatten, fresh_size, group_layers,
    group_layers_fn, lemma_flatten_step, lemma_fresh_size_concat, lemma_total_size_concat,
    note_digest, scan_layers, tag_layers, tag_layers_fn, total_size, tracks,
};

verus! {

/// How one layer counts in the size report.
#[derive(Clone, Copy, Debug)]
pub struct LayerShare {
    pub size: usize,
    /// No earlier layer of the same repository has this digest.
    pub first_in_repository: bool,
    /// No earlier layer of the scan has this digest.
    pub first_in_scan: bool,
    /// The layer belongs to the first tag of its group.
    pub in_first_tag: bool,
}

impl DeepView for LayerShare {
    type V = LayerShare;

    open spec fn deep_view(&self) -> LayerShare {
        *self
    }
}

/// How a layer counts, given the layers of its repository and of the scan
/// that come before it.
pub open spec fn layer_share(
    l: Layer,
    repository_before: Seq<Layer>,
    scan_before: Seq<Layer>,
    in_first_tag: bool,
) -> LayerShare {
    LayerShare {
        size: l.size,
        first_in_repository: !digest_seen(repository_before, l.digest@),
        first_in_scan: !digest_seen(scan_before, l.digest@),
        in_first_tag,
    }
}

/// How the layers `ls` of a tag count.
pub open spec fn tag_shares(
    ls: Seq<Layer>,
    repository_before: Seq<Layer>,
    scan_before: Seq<Layer>,
    first_tag: bool,
) -> Seq<LayerShare> {
    Seq::new(
        ls.len(),
        |k: int|
            layer_share(
                ls[k],
                repository_before + ls.subrange(0, k),
                scan_before + ls.subrange(0, k),
                first_tag,
            ),
    )
}

/// How the layers of the tags of a group count, tag by tag.
pub open spec fn group_shares(g: TagGroup, repository_before: Seq<Layer>, scan_before: Seq<Layer>) -> Seq<Seq<LayerShare>> {
    Seq::new(
        g.tags@.len(),
        |t: int|
            tag_shares(
                tag_layers(g.tags@[t]),
                repository_before + flatten(g.tags@.subrange(0, t).map_values(tag_layers_fn())),
                scan_before + flatten(g.tags@.subrange(0, t).map_values(tag_layers_fn())),
                t == 0,
            ),
    )
}

/// How the layers of a repository count, group by group and tag by tag.
pub open spec fn element_shares(e: ScanElement, scan_before: Seq<Layer>) -> Seq<Seq<Seq<LayerShare>>> {
    Seq::new(
        e.tags_grouped_by_digest@.len(),
        |g: int|
            group_shares(
                e.tags_grouped_by_digest@[g],
                flatten(e.tags_grouped_by_digest@.subrange(0, g).map_values(group_layers_fn())),
                scan_before + flatten(e.tags_grouped_by_digest@.subrange(0, g).map_values(group_layers_fn())),
            ),
    )
}

/// How every layer of a scan counts, repository by repository, group by
/// group, tag by tag.
pub open spec fn scan_shares(es: Seq<ScanElement>) -> Seq<Seq<Seq<Seq<LayerShare>>>> {
    Seq::new(es.len(), |i: int| element_shares(es[i], scan_layers(es.subrange(0, i))))
}

fn share_tag(
    layers: &Vec<Layer>,
    repository_tracker: &mut Vec<String>,
    scan_tracker: &mut Vec<String>,
    Ghost(repository_before): Ghost<Seq<Layer>>,
    Ghost(scan_before): Ghost<Seq<Layer>>,
    first_tag: bool,
) -> (shares: Vec<LayerShare>)
    requires
        tracks(old(repository_tracker)@, repository_before),
        tracks(old(scan_tracker)@, scan_before),
    ensures
        tracks(final(repository_tracker)@, repository_before + layers@),
        tracks(final(scan_tracker)@, scan_before + layers@),
        shares@ == tag_shares(layers@, repository_before, scan_before, first_tag),
{
    let ghost ls = layers@;
    let mut shares: Vec<LayerShare> = Vec::new();
    let mut k: usize = 0;
    assert(repository_before + ls.subrange(0, 0) =~= repository_before);
    assert(scan_before + ls.subrange(0, 0) =~= scan_before);
    while k < layers.len()
        invariant
            ls == layers@,
            k <= ls.len(),
            tracks(repository_tracker@, repository_before + ls.subrange(0, k as int)),
            tracks(scan_tracker@, scan_before + ls.subrange(0, k as int)),
            shares@.len() == k,
            forall|j: int|
                0 <= j < k ==> (#[trigger] shares@[j]) == layer_share(
                    ls[j],
                    repository_before + ls.subrange(0, j),
                    scan_before + ls.subrange(0, j),
                    first_tag,
                ),
        decreases ls.len() - k,
    {
        let layer = &layers[k];
        let in_repository = note_digest(
            repository_tracker,
            layer,
            Ghost(repository_before + ls.subrange(0, k as int)),
        );
        let in_scan = note_digest(scan_tracker, layer, Ghost(scan_before + ls.subrange(0, k as int)));
        shares.push(
            LayerShare {
                size: layer.size,
                first_in_repository: in_repository,
                first_in_scan: in_scan,
                in_first_tag: first_tag,
            },
        );
        assert((repository_before + ls.subrange(0, k as int)).push(*layer) =~= repository_before
            + ls.subrange(0, k + 1));
        assert((scan_before + ls.subrange(0, k as int)).push(*layer) =~= scan_before + ls.subrange(
            0,
            k + 1,
        ));
        k = k + 1;
    }
    assert(ls.subrange(0, k as int) =~= ls);
    assert(shares@ =~= tag_shares(ls, repository_before, scan_before, first_tag));
    shares
}

fn share_group(
    g: &TagGroup,
    repository_tracker: &mut Vec<String>,
    scan_tracker: &mut Vec<String>,
    Ghost(repository_before): Ghost<Seq<Layer>>,
    Ghost(scan_before): Ghost<Seq<Layer>>,
) -> (shares: Vec<Vec<LayerShare>>)
    requires
        tracks(old(repository_tracker)@, repository_before),
        tracks(old(scan_tracker)@, scan_before),
    ensures
        tracks(final(repository_tracker)@, repository_before + group_layers(*g)),
        tracks(final(scan_tracker)@, scan_before + group_layers(*g)),
        shares.deep_view() == group_shares(*g, repository_before, scan_before),
{
    let ghost ts = g.tags@;
    let ghost f = tag_layers_fn();
    let mut shares: Vec<Vec<LayerShare>> = Vec::new();
    let mut t: usize = 0;
    assert(flatten(ts.subrange(0, 0).map_values(f)) =~= Seq::<Layer>::empty());
    assert(repository_before + Seq::<Layer>::empty() =~= repository_before);
    assert(scan_before + Seq::<Layer>::empty() =~= scan_before);
    while t < g.tags.len()
        invariant
            ts == g.tags@,
            f == tag_layers_fn(),
            t <= ts.len(),
            tracks(repository_tracker@, repository_before + flatten(ts.subrange(0, t as int).map_values(f))),
            tracks(scan_tracker@, scan_before + flatten(ts.subrange(0, t as int).map_values(f))),
            shares@.len() == t,
            forall|j: int|
                0 <= j < t ==> (#[trigger] shares@[j])@ == group_shares(*g, repository_before, scan_before)[j],
        decreases ts.len() - t,
    {
        let ghost pre = flatten(ts.subrange(0, t as int).map_values(f));
        proof {
            lemma_flatten_step(ts, f, t as int);
            assert(f(ts[t as int]) == g.tags@[t as int].manifest.layers@);
        }
        let row = share_tag(
            &g.tags[t].manifest.layers,
            repository_tracker,
            scan_tracker,
            Ghost(repository_before + pre),
            Ghost(scan_before + pre),
            t == 0,
        );
        shares.push(row);
        assert(repository_before + pre + f(ts[t as int]) =~= repository_before + (pre + f(ts[t as int])));
        assert(scan_before + pre + f(ts[t as int]) =~= scan_before + (pre + f(ts[t as int])));
        t = t + 1;
    }
    assert(ts.subrange(0, t as int) =~= ts);
    assert(group_layers(*g) == flatten(ts.map_values(f)));
    assert(shares.deep_view() =~= group_shares(*g, repository_before, scan_before)) by {
        assert forall|j: int| 0 <= j < shares@.len() implies #[trigger] shares.deep_view()[j]
            == group_shares(*g, repository_before, scan_before)[j] by {
            assert(shares@[j].deep_view() =~= shares@[j]@);
        }
    }
    shares
}

fn share_element(
    e: &ScanElement,
    scan_tracker: &mut Vec<String>,
    Ghost(scan_before): Ghost<Seq<Layer>>,
) -> (shares: Vec<Vec<Vec<LayerShare>>>)
    requires
        tracks(old(scan_tracker)@, scan_before),
    ensures
        tracks(final(scan_tracker)@, scan_before + crate::sizes::element_layers(*e)),
        shares.deep_view() == element_shares(*e, scan_before),
{
    let ghost gs = e.tags_grouped_by_digest@;
    let ghost f = group_layers_fn();
    let mut repository_tracker: Vec<String> = Vec::new();
    let mut shares: Vec<Vec<Vec<LayerShare>>> = Vec::new();
    let mut k: usize = 0;
    assert(flatten(gs.subrange(0, 0).map_values(f)) =~= Seq::<Layer>::empty());
    assert(scan_before + Seq::<Layer>::empty() =~= scan_before);
    while k < e.tags_grouped_by_digest.len()
        invariant
            gs == e.tags_grouped_by_digest@,
            f == group_layers_fn(),
            k <= gs.len(),
            tracks(repository_tracker@, flatten(gs.subrange(0, k as int).map_values(f))),
            tracks(scan_tracker@, scan_before + flatten(gs.subrange(0, k as int).map_values(f))),
            shares@.len() == k,
            forall|j: int|
                0 <= j < k ==> (#[trigger] shares@[j]).deep_view() == element_shares(*e, scan_before)[j],
        decreases gs.len() - k,
    {
        let ghost pre = flatten(gs.subrange(0, k as int).map_values(f));
        proof {
            lemma_flatten_step(gs, f, k as int);
            assert(f(gs[k as int]) == group_layers(e.tags_grouped_by_digest@[k as int]));
        }
        let block = share_group(
            &e.tags_grouped_by_digest[k],
            &mut repository_tracker,
            scan_tracker,
            Ghost(pre),
            Ghost(scan_before + pre),
        );
        shares.push(block);
        assert(scan_before + pre + f(gs[k as int]) =~= scan_before + (pre + f(gs[k as int])));
        k = k + 1;
    }
    assert(gs.subrange(0, k as int) =~= gs);
    assert(crate::sizes::element_layers(*e) == flatten(gs.map_values(f)));
    assert(shares.deep_view() =~= element_shares(*e, scan_before)) by {
        assert forall|j: int| 0 <= j < shares@.len() implies #[trigger] shares.deep_view()[j]
            == element_shares(*e, scan_before)[j] by {
        }
    }
    shares
}

/// How every layer of a scan counts in the size report: for repository
/// `i`, group `g`, tag `t` and layer `l`, the layer's size, whether no
/// earlier layer of the repository has its digest, and whether no earlier
/// layer of the scan has it.
pub fn layer_shares(elements: &Vec<ScanElement>) -> (shares: Vec<Vec<Vec<Vec<LayerShare>>>>)
    ensures
        shares.deep_view() == scan_shares(elements@),
{
    let ghost es = elements@;
    let ghost f = element_layers_fn();
    let mut scan_tracker: Vec<String> = Vec::new();
    let mut shares: Vec<Vec<Vec<Vec<LayerShare>>>> = Vec::new();
    let mut i: usize = 0;
    assert(flatten(es.subrange(0, 0).map_values(f)) =~= Seq::<Layer>::empty());
    while i < elements.len()
        invariant
            es == elements@,
            f == element_layers_fn(),
            i <= es.len(),
            tracks(scan_tracker@, scan_layers(es.subrange(0, i as int))),
            shares@.len() == i,
            forall|j: int| 0 <= j < i ==> (#[trigger] shares@[j]).deep_view() == scan_shares(es)[j],
        decreases es.len() - i,
    {
        let ghost pre = scan_layers(es.subrange(0, i as int));
        proof {
            lemma_flatten_step(es, f, i as int);
            assert(f(es[i as int]) == crate::sizes::element_layers(es[i as int]));
        }
        let block = share_element(&elements[i], &mut scan_tracker, Ghost(pre));
        shares.push(block);
        i = i + 1;
    }
    assert(shares.deep_view() =~= scan_shares(es)) by {
        assert forall|j: int| 0 <= j < shares@.len() implies #[trigger] shares.deep_view()[j]
            == scan_shares(es)[j] by {
        }
    }
    shares
}


// ---------------------------------------------------------------------
// The report agrees with the size table.

/// Which layers a sum of the report takes.
pub enum Pick {
    /// Every layer.
    All,
    /// The layers first of their digest in their repository.
    FirstInRepository,
    /// The layers first of their digest in the scan.
    FirstInScan,
}

/// Whether a sum takes the layer.
pub open spec fn picks(p: Pick, s: LayerShare) -> bool {
    match p {
        Pick::All => true,
        Pick::FirstInRepository => s.first_in_repository,
        Pick::FirstInScan => s.first_in_scan,
    }
}

/// The sum of the sizes of the layers that `p` takes.
pub open spec fn picked_size(s: Seq<LayerShare>, p: Pick) -> nat
    decreases s.len(),
{
    if s.len() == 0 {
        0
    } else {
        picked_size(s.drop_last(), p) + if picks(p, s.last()) {
            s.last().size as nat
        } else {
            0
        }
    }
}

/// `picked_size` over the tags of a group.
pub open spec fn picked_size2(s: Seq<Seq<LayerShare>>, p: Pick) -> nat
    decreases s.len(),
{
    if s.len() == 0 {
        0
    } else {
        picked_size2(s.drop_last(), p) + picked_size(s.last(), p)
    }
}

/// `picked_size` over the groups of a repository.
pub open spec fn picked_size3(s: Seq<Seq<Seq<LayerShare>>>, p: Pick) -> nat
    decreases s.len(),
{
    if s.len() == 0 {
        0
    } else {
        picked_size3(s.drop_last(), p) + picked_size2(s.last(), p)
    }
}

/// What a sum amounts to over layers `ls` that follow `repository_before`
/// in their repository and `scan_before` in the scan.
pub open spec fn expected_sum(ls: Seq<Layer>, repository_before: Seq<Layer>, scan_before: Seq<Layer>, p: Pick) -> nat {
    match p {
        Pick::All => total_size(ls),
        Pick::FirstInRepository => fresh_size(ls, repository_before),
        Pick::FirstInScan => fresh_size(ls, scan_before),
    }
}

proof fn lemma_expected_concat(a: Seq<Layer>, b: Seq<Layer>, rb: Seq<Layer>, sb: Seq<Layer>, p: Pick)
    ensures
        expected_sum(a + b, rb, sb, p) == expected_sum(a, rb, sb, p) + expected_sum(b, rb + a, sb + a, p),
{
    lemma_total_size_concat(a, b);
    lemma_fresh_size_concat(a, b, rb);
    lemma_fresh_size_concat(a, b, sb);
}

proof fn lemma_tag_sum(ls: Seq<Layer>, rb: Seq<Layer>, sb: Seq<Layer>, first_tag: bool, p: Pick)
    ensures
        picked_size(tag_shares(ls, rb, sb, first_tag), p) == expected_sum(ls, rb, sb, p),
    decreases ls.len(),
{
    if ls.len() > 0 {
        let pre = ls.drop_last();
        assert(tag_shares(ls, rb, sb, first_tag).drop_last() =~= tag_shares(pre, rb, sb, first_tag)) by {
            assert forall|k: int| 0 <= k < pre.len() implies pre.subrange(0, k) == ls.subrange(0, k) by {
                assert(pre.subrange(0, k) =~= ls.subrange(0, k));
            }
        }
        assert(ls.subrange(0, ls.len() - 1) =~= pre);
        lemma_tag_sum(pre, rb, sb, first_tag, p);
    }
}

proof fn lemma_group_sum(g: TagGroup, rb: Seq<Layer>, sb: Seq<Layer>, p: Pick, m: int)
    requires
        0 <= m <= g.tags@.len(),
    ensures
        picked_size2(group_shares(g, rb, sb).subrange(0, m), p) == expected_sum(
            flatten(g.tags@.subrange(0, m).map_values(tag_layers_fn())),
            rb,
            sb,
            p,
        ),
    decreases m,
{
    let f = tag_layers_fn();
    let ts = g.tags@;
    if m == 0 {
        assert(ts.subrange(0, 0).map_values(f) =~= Seq::<Seq<Layer>>::empty());
        assert(flatten(ts.subrange(0, 0).map_values(f)) =~= Seq::<Layer>::empty());
    } else {
        lemma_group_sum(g, rb, sb, p, m - 1);
        let pre = flatten(ts.subrange(0, m - 1).map_values(f));
        lemma_flatten_step(ts, f, m - 1);
        assert(group_shares(g, rb, sb).subrange(0, m).drop_last() =~= group_shares(g, rb, sb).subrange(
            0,
            m - 1,
        ));
        lemma_tag_sum(tag_layers(ts[m - 1]), rb + pre, sb + pre, m - 1 == 0, p);
        lemma_expected_concat(pre, tag_layers(ts[m - 1]), rb, sb, p);
    }
}

proof fn lemma_element_sum(e: ScanElement, sb: Seq<Layer>, p: Pick, m: int)
    requires
        0 <= m <= e.tags_grouped_by_digest@.len(),
    ensures
        picked_size3(element_shares(e, sb).subrange(0, m), p) == expected_sum(
            flatten(e.tags_grouped_by_digest@.subrange(0, m).map_values(group_layers_fn())),
            Seq::empty(),
            sb,
            p,
        ),
    decreases m,
{
    let f = group_layers_fn();
    let gs = e.tags_grouped_by_digest@;
    if m == 0 {
        assert(gs.subrange(0, 0).map_values(f) =~= Seq::<Seq<Layer>>::empty());
        assert(flatten(gs.subrange(0, 0).map_values(f)) =~= Seq::<Layer>::empty());
    } else {
        lemma_element_sum(e, sb, p, m - 1);
        let pre = flatten(gs.subrange(0, m - 1).map_values(f));
        lemma_flatten_step(gs, f, m - 1);
        assert(element_shares(e, sb).subrange(0, m).drop_last() =~= element_shares(e, sb).subrange(
            0,
            m - 1,
        ));
        let g = gs[m - 1];
        lemma_group_sum(g, pre, sb + pre, p, g.tags@.len() as int);
        assert(group_shares(g, pre, sb + pre).subrange(0, g.tags@.len() as int) =~= group_shares(
            g,
            pre,
            sb + pre,
        ));
        assert(g.tags@.subrange(0, g.tags@.len() as int) =~= g.tags@);
        assert(Seq::<Layer>::empty() + pre =~= pre);
        lemma_expected_concat(pre, group_layers(g), Seq::empty(), sb, p);
    }
}

/// The report and the size table count alike: in the report of a scan, the
/// sizes of the layers of repository `i` add up to its size; those first
/// of their digest in the scan add up to its deduplicated size in the
/// table of `calculate`; and those first of their digest in the repository
/// add up to its size without repeated layers.
pub proof fn lemma_report_agrees_with_sizes(es: Seq<ScanElement>, i: int)
    requires
        0 <= i < es.len(),
    ensures
        picked_size3(scan_shares(es)[i], Pick::All) == total_size(element_layers(es[i])),
        picked_size3(scan_shares(es)[i], Pick::FirstInScan) == fresh_size(
            element_layers(es[i]),
            scan_layers(es.subrange(0, i)),
        ),
        picked_size3(scan_shares(es)[i], Pick::FirstInRepository) == fresh_size(
            element_layers(es[i]),
            Seq::empty(),
        ),
{
    let e = es[i];
    let sb = scan_layers(es.subrange(0, i));
    let n = e.tags_grouped_by_digest@.len() as int;
    assert(element_shares(e, sb).subrange(0, n) =~= element_shares(e, sb));
    assert(e.tags_grouped_by_digest@.subrange(0, n) =~= e.tags_grouped_by_digest@);
    lemma_element_sum(e, sb, Pick::All, n);
    lemma_element_sum(e, sb, Pick::FirstInScan, n);
    lemma_element_sum(e, sb, Pick::FirstInRepository, n);
}

} // verus!
