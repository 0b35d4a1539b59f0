//! What a scan of the registry yields: repositories, their tags grouped by
//! the manifest digest they point to, and the layers of each manifest; and
//! the rules that shape it (grouping, ordering, dates, endpoint paths).

use vstd::prelude::*;
use crate::external::{utc_datetime_from_str, utc_timestamp};
use crate::sorting::{is_stable_sort_by, stable_sort_by_key};
use crate::text::{chars_of, push_char};

verus! {

/// A layer of an image: its compressed size in bytes and its digest.
pub struct Layer {
    pub size: usize,
    pub digest: String,
}

/// A v2 image manifest: its digest and its layers.
pub struct Manifest {
    pub digest: String,
    pub layers: Vec<Layer>,
}

/// A tag of a repository and the manifest it points to.
pub struct Tag {
    pub name: String,
    pub manifest: Manifest,
}

/// The tags of a repository that point to the same manifest digest, with
/// the creation time of the image, in seconds since the Unix epoch.
pub struct TagGroup {
    pub digest: String,
    pub created: i64,
    pub tags: Vec<Tag>,
}

/// One repository of the registry and its tags grouped by digest.
pub struct ScanElement {
    pub repository: String,
    pub tags_grouped_by_digest: Vec<TagGroup>,
}

/// The tags of `tags` that point to the manifest digest `digest`, in order.
pub open spec fn tags_with_digest(tags: Seq<Tag>, digest: Seq<char>) -> Seq<Tag>
    decreases tags.len(),
{
    if tags.len() == 0 {
        tags
    } else {
        let rest = tags_with_digest(tags.drop_last(), digest);
        if tags.last().manifest.digest@ == digest {
            rest.push(tags.last())
        } else {
            rest
        }
    }
}

/// Some tag of `tags` points to the manifest digest `digest`.
pub open spec fn has_digest(tags: Seq<Tag>, digest: Seq<char>) -> bool {
    exists|i: int| 0 <= i < tags.len() && (#[trigger] tags[i]).manifest.digest@ == digest
}

/// `groups` holds the tags of `tags` grouped by manifest digest: one group
/// per digest that occurs, each with the tags of that digest in the
/// order of `tags`.
pub open spec fn is_grouping(groups: Seq<(String, Vec<Tag>)>, tags: Seq<Tag>) -> bool {
    &&& forall|a: int, b: int|
        0 <= a < b < groups.len() ==> (#[trigger] groups[a]).0@ != (#[trigger] groups[b]).0@
    &&& forall|k: int|
        0 <= k < groups.len() ==> has_digest(tags, (#[trigger] groups[k]).0@) && groups[k].1@
            == tags_with_digest(tags, groups[k].0@)
    &&& forall|i: int|
        0 <= i < tags.len() ==> exists|k: int|
            0 <= k < groups.len() && (#[trigger] groups[k]).0@ == (#[trigger] tags[i]).manifest.digest@
}

/// Some tag with the digest `first` comes before every tag with the
/// digest `second`.
pub open spec fn occurs_before(tags: Seq<Tag>, first: Seq<char>, second: Seq<char>) -> bool {
    exists|i: int|
        0 <= i < tags.len() && (#[trigger] tags[i]).manifest.digest@ == first && forall|j: int|
            0 <= j <= i ==> (#[trigger] tags[j]).manifest.digest@ != second
}

/// The groups come in the order in which their digests first occur.
pub open spec fn in_first_occurrence_order(groups: Seq<(String, Vec<Tag>)>, tags: Seq<Tag>) -> bool {
    forall|a: int, b: int|
        0 <= a < b < groups.len() ==> occurs_before(
            tags,
            (#[trigger] groups[a]).0@,
            (#[trigger] groups[b]).0@,
        )
}

proof fn lemma_no_digest_no_tags(tags: Seq<Tag>, digest: Seq<char>)
    requires
        !has_digest(tags, digest),
    ensures
        tags_with_digest(tags, digest) == Seq::<Tag>::empty(),
    decreases tags.len(),
{
    if tags.len() > 0 {
        assert(!has_digest(tags.drop_last(), digest)) by {
            if has_digest(tags.drop_last(), digest) {
                let i = choose|i: int|
                    0 <= i < tags.drop_last().len() && (#[trigger] tags.drop_last()[i]).manifest.digest@
                        == digest;
                assert(tags[i] == tags.drop_last()[i]);
            }
        }
        assert(tags[tags.len() - 1] == tags.last());
        lemma_no_digest_no_tags(tags.drop_last(), digest);
    }
}

proof fn lemma_order_extends(
    old_groups: Seq<(String, Vec<Tag>)>,
    groups: Seq<(String, Vec<Tag>)>,
    done: Seq<Tag>,
    tag: Tag,
)
    requires
        in_first_occurrence_order(old_groups, done),
        forall|k: int| 0 <= k < old_groups.len() ==> has_digest(done, (#[trigger] old_groups[k]).0@),
        groups.len() == old_groups.len() || groups.len() == old_groups.len() + 1,
        forall|k: int| 0 <= k < old_groups.len() ==> (#[trigger] groups[k]).0@ == old_groups[k].0@,
        groups.len() == old_groups.len() + 1 ==> groups.last().0@ == tag.manifest.digest@
            && !has_digest(done, tag.manifest.digest@),
    ensures
        in_first_occurrence_order(groups, done.push(tag)),
{
    let next = done.push(tag);
    assert forall|a: int, b: int| 0 <= a < b < groups.len() implies occurs_before(
        next,
        (#[trigger] groups[a]).0@,
        (#[trigger] groups[b]).0@,
    ) by {
        assert(groups[a].0@ == old_groups[a].0@);
        if b < old_groups.len() {
            assert(groups[b].0@ == old_groups[b].0@);
            assert(occurs_before(done, old_groups[a].0@, old_groups[b].0@));
            let w = choose|w: int|
                0 <= w < done.len() && (#[trigger] done[w]).manifest.digest@ == old_groups[a].0@
                    && forall|j: int| 0 <= j <= w ==> (#[trigger] done[j]).manifest.digest@
                        != old_groups[b].0@;
            assert(next[w] == done[w]);
            assert forall|j: int| 0 <= j <= w implies (#[trigger] next[j]).manifest.digest@
                != groups[b].0@ by {
                assert(next[j] == done[j]);
            }
        } else {
            assert(groups[b] == groups.last());
            assert(has_digest(done, old_groups[a].0@));
            let w = choose|w: int|
                0 <= w < done.len() && (#[trigger] done[w]).manifest.digest@ == old_groups[a].0@;
            assert(next[w] == done[w]);
            assert forall|j: int| 0 <= j <= w implies (#[trigger] next[j]).manifest.digest@
                != groups[b].0@ by {
                assert(next[j] == done[j]);
                assert(!has_digest(done, tag.manifest.digest@));
                if next[j].manifest.digest@ == groups[b].0@ {
                    assert(done[j].manifest.digest@ == tag.manifest.digest@);
                }
            }
        }
    }
}

/// Groups tags by the digest of their manifest. Groups come in the order in
/// which their digest first occurs; within a group the tags keep their order.
#[verifier::rlimit(40)]
pub fn group_tags_by_digest(tags: Vec<Tag>) -> (groups: Vec<(String, Vec<Tag>)>)
    ensures
        is_grouping(groups@, tags@),
        in_first_occurrence_order(groups@, tags@),
{
    let ghost inp = tags@;
    let n = tags.len();
    let mut rest = tags;
    let mut groups: Vec<(String, Vec<Tag>)> = Vec::new();
    let mut i: usize = 0;
    while i < n
        invariant
            n == inp.len(),
            i <= n,
            rest@ == inp.subrange(i as int, n as int),
            is_grouping(groups@, inp.subrange(0, i as int)),
            in_first_occurrence_order(groups@, inp.subrange(0, i as int)),
        decreases n - i,
    {
        let ghost done = inp.subrange(0, i as int);
        let ghost next = inp.subrange(0, i + 1);
        assert(next.drop_last() =~= done);
        let tag = rest.remove(0);
        assert(tag == inp[i as int]);
        assert(next.last() == tag);
        let mut k: usize = 0;
        while k < groups.len() && groups[k].0 != tag.manifest.digest
            invariant
                k <= groups@.len(),
                forall|j: int| 0 <= j < k ==> (#[trigger] groups@[j]).0@ != tag.manifest.digest@,
            decreases groups@.len() - k,
        {
            k = k + 1;
        }
        let ghost old_groups = groups@;
        if k < groups.len() {
            let ghost d = groups@[k as int].0@;
            let mut g = groups.remove(k);
            g.1.push(tag);
            groups.insert(k, g);
            assert forall|j: int| 0 <= j < groups@.len() implies has_digest(
                next,
                (#[trigger] groups@[j]).0@,
            ) && groups@[j].1@ == tags_with_digest(next, groups@[j].0@) by {
                if j != k {
                    assert(groups@[j] == old_groups[j]);
                    let w = choose|w: int|
                        0 <= w < done.len() && (#[trigger] done[w]).manifest.digest@
                            == groups@[j].0@;
                    assert(next[w] == done[w]);
                } else {
                    let w = choose|w: int|
                        0 <= w < done.len() && (#[trigger] done[w]).manifest.digest@ == d;
                    assert(next[w] == done[w]);
                }
            }
            assert forall|w: int| 0 <= w < next.len() implies exists|j: int|
                0 <= j < groups@.len() && (#[trigger] groups@[j]).0@ == (
                #[trigger] next[w]).manifest.digest@ by {
                if w < i {
                    assert(next[w] == done[w]);
                    let j = choose|j: int|
                        0 <= j < old_groups.len() && (#[trigger] old_groups[j]).0@ == (
                        #[trigger] done[w]).manifest.digest@;
                    assert(groups@[j].0@ == old_groups[j].0@);
                } else {
                    assert(groups@[k as int].0@ == next[w].manifest.digest@);
                }
            }
            assert forall|a: int, b: int| 0 <= a < b < groups@.len() implies (
            #[trigger] groups@[a]).0@ != (#[trigger] groups@[b]).0@ by {
                assert(groups@[a].0@ == old_groups[a].0@);
                assert(groups@[b].0@ == old_groups[b].0@);
            }
        } else {
            assert(!has_digest(done, tag.manifest.digest@)) by {
                if has_digest(done, tag.manifest.digest@) {
                    let w = choose|w: int|
                        0 <= w < done.len() && (#[trigger] done[w]).manifest.digest@
                            == tag.manifest.digest@;
                    let j = choose|j: int|
                        0 <= j < old_groups.len() && (#[trigger] old_groups[j]).0@ == (
                        #[trigger] done[w]).manifest.digest@;
                }
            }
            proof {
                lemma_no_digest_no_tags(done, tag.manifest.digest@);
            }
            let digest = tag.manifest.digest.clone();
            let mut members: Vec<Tag> = Vec::new();
            members.push(tag);
            groups.push((digest, members));
            assert forall|j: int| 0 <= j < groups@.len() implies has_digest(
                next,
                (#[trigger] groups@[j]).0@,
            ) && groups@[j].1@ == tags_with_digest(next, groups@[j].0@) by {
                if j < k {
                    assert(groups@[j] == old_groups[j]);
                    let w = choose|w: int|
                        0 <= w < done.len() && (#[trigger] done[w]).manifest.digest@
                            == groups@[j].0@;
                    assert(next[w] == done[w]);
                } else {
                    assert(next[i as int].manifest.digest@ == groups@[j].0@);
                    assert(groups@[j].1@ =~= tags_with_digest(done, groups@[j].0@).push(
                        next.last(),
                    ));
                }
            }
            assert forall|w: int| 0 <= w < next.len() implies exists|j: int|
                0 <= j < groups@.len() && (#[trigger] groups@[j]).0@ == (
                #[trigger] next[w]).manifest.digest@ by {
                if w < i {
                    assert(next[w] == done[w]);
                    let j = choose|j: int|
                        0 <= j < old_groups.len() && (#[trigger] old_groups[j]).0@ == (
                        #[trigger] done[w]).manifest.digest@;
                    assert(groups@[j] == old_groups[j]);
                } else {
                    assert(groups@[k as int].0@ == next[w].manifest.digest@);
                }
            }
        }
        proof {
            lemma_order_extends(old_groups, groups@, done, tag);
            assert(next =~= done.push(tag));
        }
        i = i + 1;
        assert(rest@ =~= inp.subrange(i as int, n as int));
    }
    assert(inp.subrange(0, n as int) =~= inp);
    groups
}


/// The creation time of a group, the key by which groups are ordered.
pub open spec fn created_key(g: TagGroup) -> int {
    g.created as int
}

/// Orders tag groups from the oldest to the newest image, keeping the order
/// of groups created at the same second.
pub fn order_by_created(groups: Vec<TagGroup>) -> (ordered: Vec<TagGroup>)
    ensures
        is_stable_sort_by(ordered@, groups@, |g: TagGroup| created_key(g)),
{
    let mut keys: Vec<i128> = Vec::new();
    let mut i: usize = 0;
    while i < groups.len()
        invariant
            i <= groups@.len(),
            keys@.len() == i,
            forall|j: int| 0 <= j < i ==> keys@[j] as int == (#[trigger] groups@[j]).created as int,
        decreases groups@.len() - i,
    {
        keys.push(groups[i].created as i128);
        i = i + 1;
    }
    stable_sort_by_key(groups, keys, Ghost(|g: TagGroup| created_key(g)))
}


/// The part of `s` before its first `.`, or all of `s` if it has none
/// (the first item of `s.split(".")`).
pub open spec fn before_first_dot(s: Seq<char>) -> Seq<char>
    decreases s.len(),
{
    if s.len() == 0 {
        s
    } else if s[0] == '.' {
        Seq::empty()
    } else {
        seq![s[0]] + before_first_dot(s.drop_first())
    }
}

/// The layout of a creation date in a v1 manifest, once its fraction of a
/// second is cut off.
pub open spec fn created_format() -> Seq<char> {
    "%Y-%m-%dT%H:%M:%S"@
}

/// Why a creation date could not be read.
#[derive(Debug)]
pub enum CreatedError {
    /// chrono does not read the date with the expected layout.
    Unparsable,
}

proof fn lemma_before_first_dot(s: Seq<char>, p: int)
    requires
        0 <= p <= s.len(),
        forall|j: int| 0 <= j < p ==> s[j] != '.',
        p == s.len() || s[p] == '.',
    ensures
        before_first_dot(s) == s.subrange(0, p),
    decreases p,
{
    if p > 0 {
        lemma_before_first_dot(s.drop_first(), p - 1);
        assert(s.subrange(0, p) =~= seq![s[0]] + s.drop_first().subrange(0, p - 1));
    } else {
        assert(s.subrange(0, p) =~= Seq::<char>::empty());
    }
}

/// The creation time, in seconds since the Unix epoch, of an image whose v1
/// manifest history gives `created` (such as `2023-01-02T03:04:05.123Z`):
/// the text before the first `.`, read by chrono as
/// `%Y-%m-%dT%H:%M:%S` in UTC.
pub fn created_timestamp(created: &str) -> (r: Result<i64, CreatedError>)
    ensures
        match r {
            Ok(t) => utc_timestamp(before_first_dot(created@), created_format()) == Some(
                t as int,
            ),
            Err(_) => utc_timestamp(before_first_dot(created@), created_format()) is None,
        },
{
    let cs = chars_of(created);
    let mut text = String::new();
    let mut p: usize = 0;
    while p < cs.len() && cs[p] != '.'
        invariant
            p <= cs@.len(),
            cs@ == created@,
            forall|j: int| 0 <= j < p ==> cs@[j] != '.',
            text@ == cs@.subrange(0, p as int),
        decreases cs@.len() - p,
    {
        push_char(&mut text, cs[p]);
        p = p + 1;
        assert(text@ =~= cs@.subrange(0, p as int));
    }
    proof {
        lemma_before_first_dot(cs@, p as int);
    }
    match utc_datetime_from_str(text.as_str(), "%Y-%m-%dT%H:%M:%S") {
        Ok(t) => Ok(t),
        Err(_) => Err(CreatedError::Unparsable),
    }
}

/// The root of the registry's HTTP API V2 at `registry_url`.
pub fn api_root(registry_url: &str) -> (r: String)
    ensures
        r@ == registry_url@ + "/v2/"@,
{
    let mut r = String::from_str(registry_url);
    r.append("/v2/");
    r
}

/// The URL that lists the repositories of the registry.
pub fn catalog_url(root: &str) -> (r: String)
    ensures
        r@ == root@ + "_catalog"@,
{
    let mut r = String::from_str(root);
    r.append("_catalog");
    r
}

/// The URL that lists the tags of `repository`.
pub fn tags_url(root: &str, repository: &str) -> (r: String)
    ensures
        r@ == root@ + repository@ + "/tags/list"@,
{
    let mut r = String::from_str(root);
    r.append(repository);
    r.append("/tags/list");
    r
}

/// The URL of the manifest of `repository` that `reference` (a tag or a
/// digest) names.
pub fn manifest_url(root: &str, repository: &str, reference: &str) -> (r: String)
    ensures
        r@ == root@ + repository@ + "/manifests/"@ + reference@,
{
    let mut r = String::from_str(root);
    r.append(repository);
    r.append("/manifests/");
    r.append(reference);
    r
}

} // verus!
