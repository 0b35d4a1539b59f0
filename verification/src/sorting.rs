//! Stable sorting by an integer key.

use vstd::prelude::*;

verus! {

/// `perm` shows that `out` is `inp` stably sorted by `key`: `out[k]` is
/// `inp[perm[k]]`, every position of `inp` is used once, the keys do not
/// decrease, and items with equal keys keep their relative order.
pub open spec fn stable_sort_witness<T>(
    out: Seq<T>,
    inp: Seq<T>,
    key: spec_fn(T) -> int,
    perm: Seq<int>,
) -> bool {
    &&& out.len() == inp.len()
    &&& perm.len() == inp.len()
    &&& forall|k: int|
        0 <= k < out.len() ==> 0 <= #[trigger] perm[k] < inp.len() && out[k] == inp[perm[k]]
    &&& forall|a: int, b: int| 0 <= a < b < out.len() ==> #[trigger] perm[a] != #[trigger] perm[b]
    &&& forall|a: int, b: int|
        0 <= a < b < out.len() ==> key(#[trigger] out[a]) <= key(#[trigger] out[b])
    &&& forall|a: int, b: int|
        0 <= a < b < out.len() && key(#[trigger] out[a]) == key(#[trigger] out[b]) ==> perm[a]
            < perm[b]
}

/// `out` is `inp` sorted by `key`, stably (what `slice::sort_by` gives).
pub open spec fn is_stable_sort_by<T>(out: Seq<T>, inp: Seq<T>, key: spec_fn(T) -> int) -> bool {
    exists|perm: Seq<int>| stable_sort_witness(out, inp, key, perm)
}

/// The key of a keyed item.
pub open spec fn pair_key<T>(p: (i128, T)) -> int {
    p.0 as int
}

/// Sorts keyed items by their keys, stably.
pub fn stable_sort_pairs<T>(items: Vec<(i128, T)>) -> (out: Vec<(i128, T)>)
    ensures
        is_stable_sort_by(out@, items@, |p: (i128, T)| pair_key(p)),
{
    let ghost inp = items@;
    let ghost key = |p: (i128, T)| pair_key(p);
    let n = items.len();
    let mut rest = items;
    let mut out: Vec<(i128, T)> = Vec::new();
    let ghost mut perm: Seq<int> = seq![];
    let mut i: usize = 0;
    while i < n
        invariant
            n == inp.len(),
            i <= n,
            rest@ == inp.subrange(i as int, n as int),
            out@.len() == i,
            perm.len() == i,
            forall|k: int| 0 <= k < i ==> 0 <= #[trigger] perm[k] < i && out@[k] == inp[perm[k]],
            forall|a: int, b: int| 0 <= a < b < i ==> #[trigger] perm[a] != #[trigger] perm[b],
            forall|a: int, b: int| 0 <= a < b < i ==> (#[trigger] out@[a]).0 <= (#[trigger] out@[b]).0,
            forall|a: int, b: int|
                0 <= a < b < i && (#[trigger] out@[a]).0 == (#[trigger] out@[b]).0 ==> perm[a]
                    < perm[b],
        decreases n - i,
    {
        let item = rest.remove(0);
        assert(item == inp[i as int]);
        let k = item.0;
        let mut p: usize = 0;
        while p < out.len() && out[p].0 <= k
            invariant
                p <= out@.len(),
                forall|q: int| 0 <= q < p ==> (#[trigger] out@[q]).0 <= k,
            decreases out@.len() - p,
        {
            p = p + 1;
        }
        assert(forall|q: int| p <= q < out@.len() ==> (#[trigger] out@[q]).0 > k) by {
            if p < out@.len() {
                assert(out@[p as int].0 > k);
                assert forall|q: int| p <= q < out@.len() implies (#[trigger] out@[q]).0 > k by {
                    if q > p {
                        assert(out@[p as int].0 <= out@[q].0);
                    }
                }
            }
        }
        let ghost old_out = out@;
        let ghost old_perm = perm;
        out.insert(p, item);
        proof {
            perm = perm.insert(p as int, i as int);
            assert forall|q: int| 0 <= q <= i implies 0 <= #[trigger] perm[q] < i + 1 && out@[q]
                == inp[perm[q]] by {
                if q < p {
                    assert(perm[q] == old_perm[q]);
                } else if q > p {
                    assert(perm[q] == old_perm[q - 1]);
                }
            }
            assert forall|a: int, b: int| 0 <= a < b <= i implies #[trigger] perm[a]
                != #[trigger] perm[b] by {
                if a != p && b != p {
                    let oa = if a < p { a } else { a - 1 };
                    let ob = if b < p { b } else { b - 1 };
                    assert(perm[a] == old_perm[oa] && perm[b] == old_perm[ob]);
                } else if a == p {
                    assert(perm[b] == old_perm[b - 1]);
                } else {
                    assert(perm[a] == old_perm[a]);
                }
            }
            assert forall|a: int, b: int| 0 <= a < b <= i implies (#[trigger] out@[a]).0 <= (
            #[trigger] out@[b]).0 by {
                if a != p && b != p {
                    let oa = if a < p { a } else { a - 1 };
                    let ob = if b < p { b } else { b - 1 };
                    assert(out@[a] == old_out[oa] && out@[b] == old_out[ob]);
                } else if a == p {
                    assert(out@[b] == old_out[b - 1]);
                } else {
                    assert(out@[a] == old_out[a]);
                }
            }
            assert forall|a: int, b: int|
                0 <= a < b <= i && (#[trigger] out@[a]).0 == (#[trigger] out@[b]).0 implies perm[a]
                < perm[b] by {
                if a != p && b != p {
                    let oa = if a < p { a } else { a - 1 };
                    let ob = if b < p { b } else { b - 1 };
                    assert(out@[a] == old_out[oa] && out@[b] == old_out[ob]);
                    assert(perm[a] == old_perm[oa] && perm[b] == old_perm[ob]);
                } else if a == p {
                    assert(out@[b] == old_out[b - 1]);
                } else {
                    assert(out@[a] == old_out[a]);
                    assert(perm[a] == old_perm[a]);
                }
            }
        }
        i = i + 1;
        assert(rest@ =~= inp.subrange(i as int, n as int));
    }
    assert(stable_sort_witness(out@, inp, key, perm));
    out
}


/// Sorts `items` stably by `key`, given the key of each item in `keys`.
pub(crate) fn stable_sort_by_key<T>(items: Vec<T>, keys: Vec<i128>, Ghost(key): Ghost<
    spec_fn(T) -> int,
>) -> (out: Vec<T>)
    requires
        keys@.len() == items@.len(),
        forall|i: int| 0 <= i < items@.len() ==> keys@[i] as int == key(#[trigger] items@[i]),
    ensures
        is_stable_sort_by(out@, items@, key),
{
    let ghost inp = items@;
    let n = items.len();
    let mut rest = items;
    let mut pairs: Vec<(i128, T)> = Vec::new();
    let mut i: usize = 0;
    while i < n
        invariant
            n == inp.len(),
            keys@.len() == n,
            forall|j: int| 0 <= j < n ==> keys@[j] as int == key(#[trigger] inp[j]),
            i <= n,
            rest@ == inp.subrange(i as int, n as int),
            pairs@.len() == i,
            forall|j: int| 0 <= j < i ==> (#[trigger] pairs@[j]).1 == inp[j] && pairs@[j].0 == keys@[j],
        decreases n - i,
    {
        let item = rest.remove(0);
        pairs.push((keys[i], item));
        i = i + 1;
        assert(rest@ =~= inp.subrange(i as int, n as int));
    }
    let ghost pin = pairs@;
    let sorted = stable_sort_pairs(pairs);
    let ghost pkey = |p: (i128, T)| pair_key(p);
    let ghost perm = choose|perm: Seq<int>| stable_sort_witness(sorted@, pin, pkey, perm);
    let ghost pout = sorted@;
    let mut rest = sorted;
    let mut out: Vec<T> = Vec::new();
    let mut i: usize = 0;
    while i < n
        invariant
            n == pout.len(),
            i <= n,
            rest@ == pout.subrange(i as int, n as int),
            out@.len() == i,
            forall|j: int| 0 <= j < i ==> (#[trigger] out@[j]) == pout[j].1,
        decreases n - i,
    {
        let p = rest.remove(0);
        out.push(p.1);
        i = i + 1;
        assert(rest@ =~= pout.subrange(i as int, n as int));
    }
    assert forall|k: int| 0 <= k < out@.len() implies key(#[trigger] out@[k]) == pout[k].0 as int by {
        assert(pout[k] == pin[perm[k]]);
    }
    assert(stable_sort_witness(out@, inp, key, perm)) by {
        assert forall|k: int| 0 <= k < out@.len() implies 0 <= #[trigger] perm[k] < inp.len()
            && out@[k] == inp[perm[k]] by {
            assert(pout[k] == pin[perm[k]]);
        }
        assert forall|a: int, b: int| 0 <= a < b < out@.len() implies key(#[trigger] out@[a]) <= key(
            #[trigger] out@[b],
        ) by {
            assert(pkey(pout[a]) <= pkey(pout[b]));
            assert(key(out@[a]) == pout[a].0 as int);
            assert(key(out@[b]) == pout[b].0 as int);
        }
        assert forall|a: int, b: int|
            0 <= a < b < out@.len() && key(#[trigger] out@[a]) == key(#[trigger] out@[b]) implies perm[a]
            < perm[b] by {
            assert(key(out@[a]) == pout[a].0 as int);
            assert(key(out@[b]) == pout[b].0 as int);
            assert(pkey(pout[a]) == pkey(pout[b]));
        }
    }
    out
}

} // verus!
