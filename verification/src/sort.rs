use vstd::prelude::*;

verus! {

/// Number of leading elements of `s` whose key is at most `k`: the place where
/// an element with key `k` goes when it is inserted after its equals.
pub open spec fn insertion_point(s: Seq<usize>, keys: Seq<u64>, k: u64) -> nat
    decreases s.len(),
{
    if s.len() == 0 {
        0
    } else if keys[s[0] as int] <= k {
        1 + insertion_point(s.drop_first(), keys, k)
    } else {
        0
    }
}

/// The stable ascending sort of `s` by `keys[element]`: each element is placed
/// after every earlier element whose key is not greater than its own.
pub open spec fn stable_sorted(s: Seq<usize>, keys: Seq<u64>) -> Seq<usize>
    decreases s.len(),
{
    if s.len() == 0 {
        Seq::empty()
    } else {
        let r = stable_sorted(s.drop_last(), keys);
        let x = s.last();
        r.insert(insertion_point(r, keys, keys[x as int]) as int, x)
    }
}

/// Every element of `s` indexes into `keys`.
pub open spec fn keyed(s: Seq<usize>, keys: Seq<u64>) -> bool {
    forall|i: int| 0 <= i < s.len() ==> (#[trigger] s[i]) < keys.len()
}

/// `s` is in ascending key order.
pub open spec fn ascending(s: Seq<usize>, keys: Seq<u64>) -> bool {
    forall|i: int, j: int|
        0 <= i < j < s.len() ==> keys[#[trigger] s[i] as int] <= keys[#[trigger] s[j] as int]
}

proof fn lemma_insertion_point_bound(s: Seq<usize>, keys: Seq<u64>, k: u64)
    ensures
        insertion_point(s, keys, k) <= s.len(),
        forall|i: int| 0 <= i < insertion_point(s, keys, k) ==> keys[#[trigger] s[i] as int] <= k,
        insertion_point(s, keys, k) < s.len() ==> keys[s[insertion_point(s, keys, k) as int] as int] > k,
    decreases s.len(),
{
    if s.len() > 0 && keys[s[0] as int] <= k {
        lemma_insertion_point_bound(s.drop_first(), keys, k);
        assert forall|i: int| 0 <= i < insertion_point(s, keys, k) implies keys[#[trigger] s[i] as int] <= k by {
            if i > 0 {
                assert(s[i] == s.drop_first()[i - 1]);
            }
        }
    }
}

/// The stable sort is an ascending rearrangement of its input.
pub proof fn lemma_stable_sorted(s: Seq<usize>, keys: Seq<u64>)
    requires
        keyed(s, keys),
    ensures
        ascending(stable_sorted(s, keys), keys),
        stable_sorted(s, keys).to_multiset() =~= s.to_multiset(),
        stable_sorted(s, keys).len() == s.len(),
        keyed(stable_sorted(s, keys), keys),
    decreases s.len(),
{
    broadcast use vstd::seq_lib::group_to_multiset_ensures;

    if s.len() > 0 {
        let r = stable_sorted(s.drop_last(), keys);
        let x = s.last();
        lemma_stable_sorted(s.drop_last(), keys);
        let p = insertion_point(r, keys, keys[x as int]);
        lemma_insertion_point_bound(r, keys, keys[x as int]);
        r.insert_ensures(p as int, x);
        let out = r.insert(p as int, x);
        assert forall|i: int, j: int| 0 <= i < j < out.len() implies keys[#[trigger] out[i] as int]
            <= keys[#[trigger] out[j] as int] by {
            if j < p {
            } else if j == p {
            } else if i < p {
                assert(out[j] == r[j - 1]);
                if p < r.len() {
                    assert(keys[r[p as int] as int] <= keys[r[j - 1] as int]);
                }
            } else if i == p {
                assert(out[j] == r[j - 1]);
                assert(keys[r[p as int] as int] <= keys[r[j - 1] as int]);
            } else {
                assert(out[i] == r[i - 1]);
                assert(out[j] == r[j - 1]);
            }
        }
        assert(s.drop_last().push(x) =~= s);
        assert(out =~= r.subrange(0, p as int).push(x) + r.subrange(p as int, r.len() as int));
        assert(r =~= r.subrange(0, p as int) + r.subrange(p as int, r.len() as int));
        vstd::seq_lib::lemma_multiset_commutative(r.subrange(0, p as int).push(x), r.subrange(p as int, r.len() as int));
        vstd::seq_lib::lemma_multiset_commutative(r.subrange(0, p as int), r.subrange(p as int, r.len() as int));
        assert forall|i: int| 0 <= i < out.len() implies (#[trigger] out[i]) < keys.len() by {
            if i < p {
            } else if i > p {
                assert(out[i] == r[i - 1]);
            }
        }
    }
}

/// The sort is stable: two elements with equal keys come out in the order
/// in which they went in.
pub proof fn lemma_stable_sorted_keeps_ties(s: Seq<usize>, keys: Seq<u64>)
    requires
        keyed(s, keys),
        s.no_duplicates(),
    ensures
        forall|a: int, b: int|
            0 <= a < b < s.len() && keys[#[trigger] s[a] as int] == keys[#[trigger] s[b] as int] ==> exists|i: int, j: int|
                0 <= i < j < s.len() && stable_sorted(s, keys)[i] == s[a] && stable_sorted(s, keys)[j] == s[b],
    decreases s.len(),
{
    broadcast use vstd::seq_lib::group_to_multiset_ensures;

    if s.len() > 0 {
        let rest = s.drop_last();
        let r = stable_sorted(rest, keys);
        let x = s.last();
        let k = keys[x as int];
        lemma_stable_sorted_keeps_ties(rest, keys);
        lemma_stable_sorted(rest, keys);
        lemma_stable_sorted(s, keys);
        let p = insertion_point(r, keys, k) as int;
        lemma_insertion_point_bound(r, keys, k);
        r.insert_ensures(p, x);
        let out = stable_sorted(s, keys);
        assert forall|a: int, b: int|
            0 <= a < b < s.len() && keys[#[trigger] s[a] as int] == keys[#[trigger] s[b] as int] implies exists|i: int, j: int|
                0 <= i < j < s.len() && out[i] == s[a] && out[j] == s[b] by {
            if b < s.len() - 1 {
                assert(rest[a] == s[a] && rest[b] == s[b]);
                let (i, j) = choose|i: int, j: int| 0 <= i < j < rest.len() && r[i] == rest[a] && r[j] == rest[b];
                let i2 = if i < p { i } else { i + 1 };
                let j2 = if j < p { j } else { j + 1 };
                assert(out[i2] == s[a] && out[j2] == s[b]);
            } else {
                assert(rest[a] == s[a]);
                assert(rest.contains(s[a]));
                assert(r.to_multiset().count(s[a]) > 0);
                let i = choose|i: int| 0 <= i < r.len() && r[i] == s[a];
                if i >= p {
                    assert(keys[r[p] as int] > k);
                    if i > p {
                        assert(keys[r[p] as int] <= keys[r[i] as int]);
                    }
                    assert(false);
                }
                assert(out[i] == s[a]);
                assert(out[p] == s[b]);
            }
        }
    }
}

/// Sorts `items` stably in ascending order of `keys[item]`.
pub fn stable_sort_by_key(items: &[usize], keys: &[u64]) -> (sorted: Vec<usize>)
    requires
        keyed(items@, keys@),
    ensures
        sorted@ == stable_sorted(items@, keys@),
{
    let mut sorted: Vec<usize> = Vec::new();
    let mut i: usize = 0;
    while i < items.len()
        invariant
            i <= items@.len(),
            keyed(items@, keys@),
            sorted@ == stable_sorted(items@.take(i as int), keys@),
        decreases items@.len() - i,
    {
        let x = items[i];
        let k = keys[x];
        let mut p: usize = 0;
        proof {
            assert(keyed(items@.take(i as int), keys@));
            lemma_stable_sorted(items@.take(i as int), keys@);
            assert(sorted@.skip(0) =~= sorted@);
        }
        while p < sorted.len() && keys[sorted[p]] <= k
            invariant
                p <= sorted@.len(),
                keyed(items@, keys@),
                keyed(sorted@, keys@),
                k == keys@[x as int],
                insertion_point(sorted@, keys@, k) == p + insertion_point(sorted@.skip(p as int), keys@, k),
            decreases sorted@.len() - p,
        {
            assert(sorted@.skip(p as int).drop_first() =~= sorted@.skip(p + 1));
            p = p + 1;
        }
        proof {
            assert(insertion_point(sorted@.skip(p as int), keys@, k) == 0);
            assert(items@.take(i + 1).drop_last() =~= items@.take(i as int));
        }
        sorted.insert(p, x);
        i = i + 1;
    }
    assert(items@.take(i as int) =~= items@);
    sorted
}

} // verus!
