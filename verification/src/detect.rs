use vstd::prelude::*;

use crate::sort::{ascending, keyed, lemma_stable_sorted, lemma_stable_sorted_keeps_ties, stable_sort_by_key, stable_sorted};

verus! {

/// `sup` is an `n` × `n` table.
pub open spec fn square(sup: Seq<Vec<bool>>, n: int) -> bool {
    &&& sup.len() == n
    &&& forall|i: int| 0 <= i < n ==> (#[trigger] sup[i])@.len() == n
}

/// No element of `kept` suppresses `x`.
pub open spec fn unsuppressed(kept: Seq<usize>, sup: Seq<Vec<bool>>, x: usize) -> bool {
    forall|t: int| 0 <= t < kept.len() ==> !sup[#[trigger] kept[t] as int]@[x as int]
}

/// Greedy suppression over the first `n` elements of `order`: an element is
/// kept when no element kept before it suppresses it.
pub open spec fn survivors(order: Seq<usize>, sup: Seq<Vec<bool>>, n: int) -> Seq<usize>
    decreases n,
{
    if n <= 0 {
        Seq::empty()
    } else {
        let prev = survivors(order, sup, n - 1);
        if unsuppressed(prev, sup, order[n - 1]) {
            prev.push(order[n - 1])
        } else {
            prev
        }
    }
}

/// Greedy suppression over `order`: walks `order` and keeps each element that
/// no already kept element suppresses (`sup[kept][element]`).
fn suppress_greedy(order: &Vec<usize>, sup: &Vec<Vec<bool>>) -> (kept: Vec<usize>)
    requires
        square(sup@, sup@.len() as int),
        forall|i: int| 0 <= i < order@.len() ==> (#[trigger] order@[i]) < sup@.len(),
    ensures
        kept@ == survivors(order@, sup@, order@.len() as int),
{
    let mut kept: Vec<usize> = Vec::new();
    let mut k: usize = 0;
    while k < order.len()
        invariant
            k <= order@.len(),
            square(sup@, sup@.len() as int),
            forall|i: int| 0 <= i < order@.len() ==> (#[trigger] order@[i]) < sup@.len(),
            kept@ == survivors(order@, sup@, k as int),
            forall|u: int| 0 <= u < kept@.len() ==> (#[trigger] kept@[u]) < sup@.len(),
        decreases order@.len() - k,
    {
        let j = order[k];
        let mut alive = true;
        let mut t: usize = 0;
        while t < kept.len()
            invariant
                t <= kept@.len(),
                j == order@[k as int],
                j < sup@.len(),
                square(sup@, sup@.len() as int),
                forall|u: int| 0 <= u < kept@.len() ==> (#[trigger] kept@[u]) < sup@.len(),
                alive == (forall|u: int| 0 <= u < t ==> !sup@[#[trigger] kept@[u] as int]@[j as int]),
            decreases kept@.len() - t,
        {
            if sup[kept[t]][j] {
                alive = false;
            }
            t = t + 1;
        }
        if alive {
            kept.push(j);
        }
        k = k + 1;
    }
    kept
}


/// Sort keys that put higher scores first.
pub open spec fn descending_keys(score_keys: Seq<u32>) -> Seq<u64> {
    Seq::new(score_keys.len(), |i: int| (u32::MAX - score_keys[i]) as u64)
}

/// `candidates` in descending score order, equal scores in their given order.
pub open spec fn by_score(candidates: Seq<usize>, score_keys: Seq<u32>) -> Seq<usize> {
    stable_sorted(candidates, descending_keys(score_keys))
}

/// Non-maximum suppression: the candidates visited in descending score order,
/// each kept unless a kept candidate suppresses it.
pub open spec fn nms_selection(candidates: Seq<usize>, score_keys: Seq<u32>, sup: Seq<Vec<bool>>) -> Seq<usize> {
    let order = by_score(candidates, score_keys);
    survivors(order, sup, order.len() as int)
}

/// Every candidate indexes into a table of `n` detections.
pub open spec fn indexes_into(candidates: Seq<usize>, n: int) -> bool {
    forall|i: int| 0 <= i < candidates.len() ==> (#[trigger] candidates[i]) < n
}

fn descending_key_table(score_keys: &[u32]) -> (keys: Vec<u64>)
    ensures
        keys@ == descending_keys(score_keys@),
{
    let mut keys: Vec<u64> = Vec::new();
    let mut i: usize = 0;
    while i < score_keys.len()
        invariant
            i <= score_keys@.len(),
            keys@ =~= descending_keys(score_keys@).take(i as int),
        decreases score_keys@.len() - i,
    {
        keys.push((u32::MAX - score_keys[i]) as u64);
        i = i + 1;
    }
    keys
}

/// Non-maximum suppression over `candidates` (indices of detections):
/// candidates are taken in descending order of `score_keys` (ties in the
/// given order), and each is kept unless an already kept candidate
/// suppresses it; `suppresses[a][b]` says that detection `a` suppresses `b`.
/// Returns the kept candidates in the order they were kept.
pub fn nms(candidates: &[usize], score_keys: &[u32], suppresses: &Vec<Vec<bool>>) -> (kept: Vec<usize>)
    requires
        square(suppresses@, score_keys@.len() as int),
        indexes_into(candidates@, score_keys@.len() as int),
    ensures
        kept@ == nms_selection(candidates@, score_keys@, suppresses@),
{
    let keys = descending_key_table(score_keys);
    proof {
        assert(keyed(candidates@, keys@));
        lemma_stable_sorted(candidates@, keys@);
    }
    let order = stable_sort_by_key(candidates, &keys);
    suppress_greedy(&order, suppresses)
}

/// Index of the largest key; among equal largest keys the last one
/// (0 for an empty slice).
pub fn best_class(keys: &[u32]) -> (best: usize)
    ensures
        keys@.len() == 0 ==> best == 0,
        keys@.len() > 0 ==> {
            &&& best < keys@.len()
            &&& forall|i: int| 0 <= i < keys@.len() ==> keys@[i] <= keys@[best as int]
            &&& forall|i: int| best < i < keys@.len() ==> keys@[i] < keys@[best as int]
        },
{
    let mut best: usize = 0;
    let mut i: usize = 1;
    while i < keys.len()
        invariant
            keys@.len() > 0 ==> 1 <= i <= keys@.len(),
            keys@.len() == 0 ==> best == 0,
            keys@.len() > 0 ==> best < i,
            forall|j: int| 0 <= j < i && j < keys@.len() ==> keys@[j] <= keys@[best as int],
            forall|j: int| best < j < i && j < keys@.len() ==> keys@[j] < keys@[best as int],
        decreases keys@.len() - i,
    {
        if keys[i] >= keys[best] {
            best = i;
        }
        i = i + 1;
    }
    best
}


/// Number of leading elements of `s` smaller than `c`.
pub open spec fn lower_bound(s: Seq<i32>, c: i32) -> nat
    decreases s.len(),
{
    if s.len() == 0 {
        0
    } else if s[0] < c {
        1 + lower_bound(s.drop_first(), c)
    } else {
        0
    }
}

/// The ascending list `s` with `c` added in its place unless already present.
pub open spec fn with_class(s: Seq<i32>, c: i32) -> Seq<i32> {
    let p = lower_bound(s, c) as int;
    if p < s.len() && s[p] == c {
        s
    } else {
        s.insert(p, c)
    }
}

/// The distinct values of `class_ids`, ascending.
pub open spec fn class_list(class_ids: Seq<i32>) -> Seq<i32>
    decreases class_ids.len(),
{
    if class_ids.len() == 0 {
        Seq::empty()
    } else {
        with_class(class_list(class_ids.drop_last()), class_ids.last())
    }
}

/// `s` is strictly ascending.
pub open spec fn strictly_ascending(s: Seq<i32>) -> bool {
    forall|i: int, j: int| 0 <= i < j < s.len() ==> #[trigger] s[i] < #[trigger] s[j]
}

proof fn lemma_lower_bound(s: Seq<i32>, c: i32)
    ensures
        lower_bound(s, c) <= s.len(),
        forall|i: int| 0 <= i < lower_bound(s, c) ==> #[trigger] s[i] < c,
        lower_bound(s, c) < s.len() ==> s[lower_bound(s, c) as int] >= c,
    decreases s.len(),
{
    if s.len() > 0 && s[0] < c {
        lemma_lower_bound(s.drop_first(), c);
        assert forall|i: int| 0 <= i < lower_bound(s, c) implies #[trigger] s[i] < c by {
            if i > 0 {
                assert(s[i] == s.drop_first()[i - 1]);
            }
        }
    }
}

/// The class list is strictly ascending and holds exactly the classes that occur.
pub proof fn lemma_class_list(class_ids: Seq<i32>)
    ensures
        strictly_ascending(class_list(class_ids)),
        forall|c: i32| #[trigger] class_list(class_ids).contains(c) <==> class_ids.contains(c),
    decreases class_ids.len(),
{
    if class_ids.len() > 0 {
        let prev = class_list(class_ids.drop_last());
        let c = class_ids.last();
        lemma_class_list(class_ids.drop_last());
        lemma_lower_bound(prev, c);
        let p = lower_bound(prev, c) as int;
        let cur = class_list(class_ids);
        if !(p < prev.len() && prev[p] == c) {
            prev.insert_ensures(p, c);
            assert forall|i: int, j: int| 0 <= i < j < cur.len() implies #[trigger] cur[i] < #[trigger] cur[j] by {
                if j < p {
                } else if j == p {
                } else if i < p {
                    assert(cur[j] == prev[j - 1]);
                    assert(prev[p] >= c);
                    if j - 1 > p {
                        assert(prev[p] < prev[j - 1]);
                    }
                } else if i == p {
                    assert(cur[j] == prev[j - 1]);
                    if j - 1 > p {
                        assert(prev[p] < prev[j - 1]);
                    }
                } else {
                    assert(cur[i] == prev[i - 1]);
                    assert(cur[j] == prev[j - 1]);
                }
            }
            assert forall|d: i32| #[trigger] cur.contains(d) <==> class_ids.contains(d) by {
                if cur.contains(d) {
                    let i = choose|i: int| 0 <= i < cur.len() && cur[i] == d;
                    if i < p {
                        assert(prev.contains(d));
                    } else if i > p {
                        assert(cur[i] == prev[i - 1]);
                        assert(prev.contains(d));
                    }
                    if d != c {
                        assert(class_ids.drop_last().contains(d));
                        let k = choose|k: int| 0 <= k < class_ids.drop_last().len() && class_ids.drop_last()[k] == d;
                        assert(class_ids[k] == d);
                    } else {
                        assert(class_ids[class_ids.len() - 1] == d);
                    }
                }
                if class_ids.contains(d) {
                    let k = choose|k: int| 0 <= k < class_ids.len() && class_ids[k] == d;
                    if k < class_ids.len() - 1 {
                        assert(class_ids.drop_last()[k] == d);
                        assert(prev.contains(d));
                        let i = choose|i: int| 0 <= i < prev.len() && prev[i] == d;
                        if i < p {
                            assert(cur[i] == d);
                        } else {
                            assert(cur[i + 1] == d);
                        }
                    } else {
                        assert(cur[p] == d);
                    }
                }
            }
        } else {
            assert forall|d: i32| #[trigger] cur.contains(d) <==> class_ids.contains(d) by {
                if cur.contains(d) {
                    if d != c {
                        assert(class_ids.drop_last().contains(d));
                        let k = choose|k: int| 0 <= k < class_ids.drop_last().len() && class_ids.drop_last()[k] == d;
                        assert(class_ids[k] == d);
                    } else {
                        assert(class_ids[class_ids.len() - 1] == d);
                    }
                }
                if class_ids.contains(d) {
                    let k = choose|k: int| 0 <= k < class_ids.len() && class_ids[k] == d;
                    if k < class_ids.len() - 1 {
                        assert(class_ids.drop_last()[k] == d);
                    } else {
                        assert(cur[p] == d);
                    }
                }
            }
        }
    }
}

/// The distinct class ids in ascending order.
fn distinct_classes(class_ids: &[i32]) -> (classes: Vec<i32>)
    ensures
        classes@ == class_list(class_ids@),
{
    let mut classes: Vec<i32> = Vec::new();
    let mut i: usize = 0;
    while i < class_ids.len()
        invariant
            i <= class_ids@.len(),
            classes@ == class_list(class_ids@.take(i as int)),
        decreases class_ids@.len() - i,
    {
        let c = class_ids[i];
        let mut p: usize = 0;
        proof {
            assert(classes@.skip(0) =~= classes@);
        }
        while p < classes.len() && classes[p] < c
            invariant
                p <= classes@.len(),
                lower_bound(classes@, c) == p + lower_bound(classes@.skip(p as int), c),
            decreases classes@.len() - p,
        {
            assert(classes@.skip(p as int).drop_first() =~= classes@.skip(p + 1));
            p = p + 1;
        }
        proof {
            assert(lower_bound(classes@.skip(p as int), c) == 0);
            assert(class_ids@.take(i + 1).drop_last() =~= class_ids@.take(i as int));
        }
        if !(p < classes.len() && classes[p] == c) {
            classes.insert(p, c);
        }
        i = i + 1;
    }
    assert(class_ids@.take(i as int) =~= class_ids@);
    classes
}


/// Indices among the first `n` detections whose class is `c`, ascending.
pub open spec fn class_members(class_ids: Seq<i32>, c: i32, n: int) -> Seq<usize>
    decreases n,
{
    if n <= 0 {
        Seq::empty()
    } else if class_ids[n - 1] == c {
        class_members(class_ids, c, n - 1).push((n - 1) as usize)
    } else {
        class_members(class_ids, c, n - 1)
    }
}

/// The detections kept by suppression within each class of `classes`, class
/// after class.
pub open spec fn kept_per_class(
    class_ids: Seq<i32>,
    score_keys: Seq<u32>,
    sup: Seq<Vec<bool>>,
    classes: Seq<i32>,
) -> Seq<usize>
    decreases classes.len(),
{
    if classes.len() == 0 {
        Seq::empty()
    } else {
        kept_per_class(class_ids, score_keys, sup, classes.drop_last()) + nms_selection(
            class_members(class_ids, classes.last(), class_ids.len() as int),
            score_keys,
            sup,
        )
    }
}

/// The detections that survive: suppression runs within each class (classes
/// in ascending order), and the survivors are then ordered by descending
/// score, equal scores in the order the classes produced them.
pub open spec fn detection_selection(class_ids: Seq<i32>, score_keys: Seq<u32>, sup: Seq<Vec<bool>>) -> Seq<usize> {
    by_score(kept_per_class(class_ids, score_keys, sup, class_list(class_ids)), score_keys)
}

proof fn lemma_class_members(class_ids: Seq<i32>, c: i32, n: int)
    requires
        0 <= n <= class_ids.len(),
    ensures
        indexes_into(class_members(class_ids, c, n), n),
    decreases n,
{
    if n > 0 {
        lemma_class_members(class_ids, c, n - 1);
    }
}

proof fn lemma_survivors_from(order: Seq<usize>, sup: Seq<Vec<bool>>, n: int, bound: int)
    requires
        0 <= n <= order.len(),
        indexes_into(order, bound),
    ensures
        indexes_into(survivors(order, sup, n), bound),
    decreases n,
{
    if n > 0 {
        lemma_survivors_from(order, sup, n - 1, bound);
    }
}

proof fn lemma_nms_selection_indexes(candidates: Seq<usize>, score_keys: Seq<u32>, sup: Seq<Vec<bool>>)
    requires
        indexes_into(candidates, score_keys.len() as int),
    ensures
        indexes_into(nms_selection(candidates, score_keys, sup), score_keys.len() as int),
{
    assert(keyed(candidates, descending_keys(score_keys)));
    lemma_stable_sorted(candidates, descending_keys(score_keys));
    let order = by_score(candidates, score_keys);
    lemma_survivors_from(order, sup, order.len() as int, score_keys.len() as int);
}

proof fn lemma_kept_per_class_indexes(class_ids: Seq<i32>, score_keys: Seq<u32>, sup: Seq<Vec<bool>>, classes: Seq<i32>)
    requires
        class_ids.len() == score_keys.len(),
    ensures
        indexes_into(kept_per_class(class_ids, score_keys, sup, classes), score_keys.len() as int),
    decreases classes.len(),
{
    if classes.len() > 0 {
        lemma_kept_per_class_indexes(class_ids, score_keys, sup, classes.drop_last());
        let members = class_members(class_ids, classes.last(), class_ids.len() as int);
        lemma_class_members(class_ids, classes.last(), class_ids.len() as int);
        lemma_nms_selection_indexes(members, score_keys, sup);
    }
}

fn members_of_class(class_ids: &[i32], c: i32) -> (members: Vec<usize>)
    ensures
        members@ == class_members(class_ids@, c, class_ids@.len() as int),
{
    let mut members: Vec<usize> = Vec::new();
    let mut i: usize = 0;
    while i < class_ids.len()
        invariant
            i <= class_ids@.len(),
            members@ == class_members(class_ids@, c, i as int),
        decreases class_ids@.len() - i,
    {
        if class_ids[i] == c {
            members.push(i);
        }
        i = i + 1;
    }
    members
}

/// Chooses the detections to report: within each class, non-maximum
/// suppression over that class's detections; then all survivors ordered by
/// descending score. `class_ids[i]` and `score_keys[i]` describe detection
/// `i`, and `suppresses[a][b]` says that detection `a` suppresses `b`.
pub fn select_detections(class_ids: &[i32], score_keys: &[u32], suppresses: &Vec<Vec<bool>>) -> (selected: Vec<usize>)
    requires
        class_ids@.len() == score_keys@.len(),
        square(suppresses@, score_keys@.len() as int),
    ensures
        selected@ == detection_selection(class_ids@, score_keys@, suppresses@),
{
    let classes = distinct_classes(class_ids);
    let mut kept: Vec<usize> = Vec::new();
    let mut t: usize = 0;
    while t < classes.len()
        invariant
            t <= classes@.len(),
            classes@ == class_list(class_ids@),
            class_ids@.len() == score_keys@.len(),
            square(suppresses@, score_keys@.len() as int),
            kept@ == kept_per_class(class_ids@, score_keys@, suppresses@, classes@.take(t as int)),
        decreases classes@.len() - t,
    {
        let members = members_of_class(class_ids, classes[t]);
        proof {
            lemma_class_members(class_ids@, classes@[t as int], class_ids@.len() as int);
        }
        let mut chosen = nms(&members, score_keys, suppresses);
        kept.append(&mut chosen);
        proof {
            assert(classes@.take(t + 1).drop_last() =~= classes@.take(t as int));
        }
        t = t + 1;
    }
    assert(classes@.take(t as int) =~= classes@);
    let keys = descending_key_table(score_keys);
    proof {
        lemma_kept_per_class_indexes(class_ids@, score_keys@, suppresses@, classes@);
    }
    stable_sort_by_key(&kept, &keys)
}


proof fn lemma_survivors_prefix(order: Seq<usize>, sup: Seq<Vec<bool>>, m: int, n: int)
    requires
        0 <= m <= n,
    ensures
        survivors(order, sup, m).len() <= survivors(order, sup, n).len(),
        forall|t: int| 0 <= t < survivors(order, sup, m).len() ==> #[trigger] survivors(order, sup, n)[t] == survivors(order, sup, m)[t],
    decreases n - m,
{
    if m < n {
        lemma_survivors_prefix(order, sup, m, n - 1);
    }
}

proof fn lemma_survivors_origin(order: Seq<usize>, sup: Seq<Vec<bool>>, n: int)
    requires
        0 <= n <= order.len(),
    ensures
        forall|t: int| 0 <= t < survivors(order, sup, n).len() ==> exists|m: int|
            0 <= m < n && #[trigger] survivors(order, sup, n)[t] == order[m],
    decreases n,
{
    if n > 0 {
        lemma_survivors_origin(order, sup, n - 1);
        let prev = survivors(order, sup, n - 1);
        let cur = survivors(order, sup, n);
        assert forall|t: int| 0 <= t < cur.len() implies exists|m: int| 0 <= m < n && #[trigger] cur[t] == order[m] by {
            if t < prev.len() {
                let m = choose|m: int| 0 <= m < n - 1 && #[trigger] prev[t] == order[m];
                assert(cur[t] == order[m]);
            } else {
                assert(cur[t] == order[n - 1]);
            }
        }
    }
}

proof fn lemma_survivors_laws(order: Seq<usize>, sup: Seq<Vec<bool>>, keys: Seq<u64>, n: int)
    requires
        0 <= n <= order.len(),
        keyed(order, keys),
        ascending(order, keys),
    ensures
        ascending(survivors(order, sup, n), keys),
        forall|i: int, j: int|
            0 <= i < j < survivors(order, sup, n).len() ==> !sup[#[trigger] survivors(order, sup, n)[i] as int]@[#[trigger] survivors(order, sup, n)[j] as int],
        forall|m: int|
            0 <= m < n ==> #[trigger] survivors(order, sup, n).contains(order[m]) || exists|t: int|
                0 <= t < survivors(order, sup, n).len() && sup[#[trigger] survivors(order, sup, n)[t] as int]@[order[m] as int],
        n > 0 ==> survivors(order, sup, n).len() > 0 && survivors(order, sup, n)[0] == order[0],
    decreases n,
{
    if n > 0 {
        lemma_survivors_laws(order, sup, keys, n - 1);
        lemma_survivors_origin(order, sup, n - 1);
        let prev = survivors(order, sup, n - 1);
        let cur = survivors(order, sup, n);
        let x = order[n - 1];
        if unsuppressed(prev, sup, x) {
            assert forall|i: int, j: int| 0 <= i < j < cur.len() implies keys[#[trigger] cur[i] as int] <= keys[#[trigger] cur[j] as int] by {
                if j == cur.len() - 1 {
                    let m = choose|m: int| 0 <= m < n - 1 && #[trigger] prev[i] == order[m];
                    assert(keys[order[m] as int] <= keys[order[n - 1] as int]);
                } else {
                    assert(cur[i] == prev[i] && cur[j] == prev[j]);
                }
            }
            assert forall|i: int, j: int| 0 <= i < j < cur.len() implies !sup[#[trigger] cur[i] as int]@[#[trigger] cur[j] as int] by {
                if j == cur.len() - 1 {
                    assert(cur[i] == prev[i]);
                } else {
                    assert(cur[i] == prev[i] && cur[j] == prev[j]);
                }
            }
        }
        assert forall|m: int| 0 <= m < n implies #[trigger] cur.contains(order[m]) || exists|t: int|
            0 <= t < cur.len() && sup[#[trigger] cur[t] as int]@[order[m] as int] by {
            lemma_survivors_prefix(order, sup, n - 1, n);
            if m < n - 1 {
                if prev.contains(order[m]) {
                    let t = choose|t: int| 0 <= t < prev.len() && prev[t] == order[m];
                    assert(cur[t] == order[m]);
                } else {
                    let t = choose|t: int| 0 <= t < prev.len() && sup[#[trigger] prev[t] as int]@[order[m] as int];
                    assert(cur[t] == prev[t]);
                }
            } else {
                if unsuppressed(prev, sup, x) {
                    assert(cur[cur.len() - 1] == x);
                } else {
                    let t = choose|t: int| 0 <= t < prev.len() && sup[#[trigger] prev[t] as int]@[x as int];
                    assert(cur[t] == prev[t]);
                }
            }
        }
        if n > 1 {
            lemma_survivors_prefix(order, sup, n - 1, n);
        }
    }
}

proof fn lemma_same_multiset_distinct(a: Seq<usize>, b: Seq<usize>)
    requires
        a.to_multiset() =~= b.to_multiset(),
        a.no_duplicates(),
    ensures
        b.no_duplicates(),
{
    a.lemma_multiset_has_no_duplicates();
    assert forall|v: usize| b.to_multiset().contains(v) implies b.to_multiset().count(v) == 1 by {
        assert(a.to_multiset().contains(v));
    }
    b.lemma_multiset_has_no_duplicates_conv();
}

proof fn lemma_survivors_distinct(order: Seq<usize>, sup: Seq<Vec<bool>>, n: int)
    requires
        0 <= n <= order.len(),
        order.no_duplicates(),
    ensures
        survivors(order, sup, n).no_duplicates(),
{
    lemma_survivors_positions(order, sup, n);
    let s = survivors(order, sup, n);
    assert forall|i: int, j: int| 0 <= i < s.len() && 0 <= j < s.len() && i != j implies s[i] != s[j] by {
        if i < j {
            let (m1, m2) = choose|m1: int, m2: int| 0 <= m1 < m2 < n && #[trigger] s[i] == order[m1] && #[trigger] s[j] == order[m2];
        } else {
            let (m1, m2) = choose|m1: int, m2: int| 0 <= m1 < m2 < n && #[trigger] s[j] == order[m1] && #[trigger] s[i] == order[m2];
        }
    }
}

/// An element of `order` that the walk drops is suppressed by a kept
/// element that comes before it in `order`, so with a key no greater.
proof fn lemma_survivors_dropped(order: Seq<usize>, sup: Seq<Vec<bool>>, keys: Seq<u64>, m: int, n: int)
    requires
        0 <= m < n <= order.len(),
        ascending(order, keys),
        !survivors(order, sup, n).contains(order[m]),
    ensures
        exists|t: int|
            0 <= t < survivors(order, sup, n).len() && sup[#[trigger] survivors(order, sup, n)[t] as int]@[order[m] as int]
                && keys[survivors(order, sup, n)[t] as int] <= keys[order[m] as int],
{
    let prev = survivors(order, sup, m);
    let cur = survivors(order, sup, n);
    let x = order[m];
    lemma_survivors_prefix(order, sup, m + 1, n);
    lemma_survivors_prefix(order, sup, m, n);
    if unsuppressed(prev, sup, x) {
        let next = survivors(order, sup, m + 1);
        assert(next[prev.len() as int] == x);
        assert(cur[prev.len() as int] == x);
        assert(cur.contains(x));
    } else {
        let t = choose|t: int| 0 <= t < prev.len() && sup[#[trigger] prev[t] as int]@[x as int];
        lemma_survivors_origin(order, sup, m);
        let m2 = choose|m2: int| 0 <= m2 < m && #[trigger] prev[t] == order[m2];
        assert(keys[order[m2] as int] <= keys[order[m] as int]);
        assert(cur[t] == prev[t]);
    }
}

/// What non-maximum suppression promises: the kept detections come in
/// descending score order; none of them suppresses a detection kept after
/// it; the top-scoring candidate is kept; every candidate is either kept or
/// suppressed by a kept detection that scores at least as high; and distinct
/// candidates give distinct kept detections.
pub proof fn lemma_nms_laws(candidates: Seq<usize>, score_keys: Seq<u32>, sup: Seq<Vec<bool>>)
    requires
        indexes_into(candidates, score_keys.len() as int),
    ensures
        ({
            let kept = nms_selection(candidates, score_keys, sup);
            &&& forall|i: int, j: int| 0 <= i < j < kept.len() ==> score_keys[#[trigger] kept[i] as int] >= score_keys[#[trigger] kept[j] as int]
            &&& forall|i: int, j: int| 0 <= i < j < kept.len() ==> !sup[#[trigger] kept[i] as int]@[#[trigger] kept[j] as int]
            &&& forall|t: int| 0 <= t < kept.len() ==> candidates.contains(#[trigger] kept[t])
            &&& candidates.len() > 0 ==> kept.len() > 0 && kept[0] == by_score(candidates, score_keys)[0]
            &&& forall|c: usize| #[trigger] candidates.contains(c) ==> kept.contains(c) || exists|t: int|
                0 <= t < kept.len() && sup[#[trigger] kept[t] as int]@[c as int] && score_keys[kept[t] as int] >= score_keys[c as int]
            &&& candidates.no_duplicates() ==> kept.no_duplicates()
        }),
{
    broadcast use vstd::seq_lib::group_to_multiset_ensures;

    let keys = descending_keys(score_keys);
    assert(keyed(candidates, keys));
    lemma_stable_sorted(candidates, keys);
    let order = by_score(candidates, score_keys);
    let n = order.len() as int;
    lemma_survivors_laws(order, sup, keys, n);
    lemma_survivors_origin(order, sup, n);
    let kept = nms_selection(candidates, score_keys, sup);
    assert forall|i: int, j: int| 0 <= i < j < kept.len() implies score_keys[#[trigger] kept[i] as int] >= score_keys[#[trigger] kept[j] as int] by {
        assert(keys[kept[i] as int] <= keys[kept[j] as int]);
    }
    assert forall|t: int| 0 <= t < kept.len() implies candidates.contains(#[trigger] kept[t]) by {
        let m = choose|m: int| 0 <= m < n && #[trigger] kept[t] == order[m];
        assert(order.to_multiset().count(order[m]) > 0);
    }
    lemma_nms_selection_indexes(candidates, score_keys, sup);
    assert forall|c: usize| #[trigger] candidates.contains(c) implies kept.contains(c) || exists|t: int|
        0 <= t < kept.len() && sup[#[trigger] kept[t] as int]@[c as int] && score_keys[kept[t] as int] >= score_keys[c as int] by {
        assert(candidates.to_multiset().count(c) > 0);
        assert(order.contains(c));
        let m = choose|m: int| 0 <= m < n && order[m] == c;
        let i = choose|i: int| 0 <= i < candidates.len() && candidates[i] == c;
        assert(c < score_keys.len());
        if !kept.contains(c) {
            lemma_survivors_dropped(order, sup, keys, m, n);
            let t = choose|t: int| 0 <= t < kept.len() && sup[#[trigger] kept[t] as int]@[c as int] && keys[kept[t] as int] <= keys[c as int];
            assert(kept[t] < score_keys.len());
        }
    }
    if candidates.no_duplicates() {
        lemma_same_multiset_distinct(candidates, order);
        lemma_survivors_distinct(order, sup, n);
    }
}


proof fn lemma_members_contains(class_ids: Seq<i32>, c: i32, n: int)
    requires
        0 <= n <= class_ids.len(),
        class_ids.len() <= usize::MAX,
    ensures
        forall|i: usize| #[trigger] class_members(class_ids, c, n).contains(i) <==> (i < n && class_ids[i as int] == c),
    decreases n,
{
    if n > 0 {
        lemma_members_contains(class_ids, c, n - 1);
        let prev = class_members(class_ids, c, n - 1);
        let cur = class_members(class_ids, c, n);
        assert forall|i: usize| #[trigger] cur.contains(i) <==> (i < n && class_ids[i as int] == c) by {
            if class_ids[n - 1] == c {
                assert(cur == prev.push((n - 1) as usize));
                if cur.contains(i) {
                    let t = choose|t: int| 0 <= t < cur.len() && cur[t] == i;
                    if t < prev.len() {
                        assert(prev[t] == i);
                        assert(prev.contains(i));
                    } else {
                        assert(i == n - 1);
                    }
                }
                if i < n && class_ids[i as int] == c {
                    if i < n - 1 {
                        assert(prev.contains(i));
                        let t = choose|t: int| 0 <= t < prev.len() && prev[t] == i;
                        assert(cur[t] == i);
                    } else {
                        assert(cur[cur.len() - 1] == i);
                    }
                }
            } else {
                assert(cur == prev);
            }
        }
    }
}

/// `x` is kept by suppression within one of the classes in `classes`.
pub open spec fn kept_in_some_class(
    class_ids: Seq<i32>,
    score_keys: Seq<u32>,
    sup: Seq<Vec<bool>>,
    classes: Seq<i32>,
    x: usize,
) -> bool {
    exists|c: i32|
        classes.contains(c) && #[trigger] nms_selection(class_members(class_ids, c, class_ids.len() as int), score_keys, sup).contains(x)
}

proof fn lemma_kept_per_class_contains(
    class_ids: Seq<i32>,
    score_keys: Seq<u32>,
    sup: Seq<Vec<bool>>,
    classes: Seq<i32>,
)
    ensures
        forall|t: int| 0 <= t < kept_per_class(class_ids, score_keys, sup, classes).len() ==> kept_in_some_class(
            class_ids, score_keys, sup, classes, #[trigger] kept_per_class(class_ids, score_keys, sup, classes)[t]),
        forall|c: i32, x: usize|
            classes.contains(c) && #[trigger] nms_selection(class_members(class_ids, c, class_ids.len() as int), score_keys, sup).contains(x)
                ==> #[trigger] kept_per_class(class_ids, score_keys, sup, classes).contains(x),
    decreases classes.len(),
{
    if classes.len() > 0 {
        let rest = classes.drop_last();
        lemma_kept_per_class_contains(class_ids, score_keys, sup, rest);
        let prev = kept_per_class(class_ids, score_keys, sup, rest);
        let last = nms_selection(class_members(class_ids, classes.last(), class_ids.len() as int), score_keys, sup);
        let cur = kept_per_class(class_ids, score_keys, sup, classes);
        assert(cur == prev + last);
        assert forall|t: int| 0 <= t < cur.len() implies kept_in_some_class(class_ids, score_keys, sup, classes, #[trigger] cur[t]) by {
            if t < prev.len() {
                assert(cur[t] == prev[t]);
                assert(kept_in_some_class(class_ids, score_keys, sup, rest, prev[t]));
                let c = choose|c: i32| rest.contains(c) && #[trigger] nms_selection(class_members(class_ids, c, class_ids.len() as int), score_keys, sup).contains(prev[t]);
                let k = choose|k: int| 0 <= k < rest.len() && rest[k] == c;
                assert(classes[k] == c);
                assert(classes.contains(c) && nms_selection(class_members(class_ids, c, class_ids.len() as int), score_keys, sup).contains(cur[t]));
            } else {
                assert(cur[t] == last[t - prev.len()]);
                assert(classes[classes.len() - 1] == classes.last());
                assert(classes.contains(classes.last()));
                assert(last.contains(cur[t]));
                assert(classes.contains(classes.last()) && nms_selection(class_members(class_ids, classes.last(), class_ids.len() as int), score_keys, sup).contains(cur[t]));
            }
        }
        assert forall|c: i32, x: usize|
            classes.contains(c) && #[trigger] nms_selection(class_members(class_ids, c, class_ids.len() as int), score_keys, sup).contains(x)
                implies #[trigger] cur.contains(x) by {
            if c == classes.last() {
                let t = choose|t: int| 0 <= t < last.len() && last[t] == x;
                assert(cur[prev.len() + t] == x);
            } else {
                let k = choose|k: int| 0 <= k < classes.len() && classes[k] == c;
                assert(k < classes.len() - 1);
                assert(rest[k] == c);
                assert(prev.contains(x));
                let t = choose|t: int| 0 <= t < prev.len() && prev[t] == x;
                assert(cur[t] == x);
            }
        }
    }
}

proof fn lemma_survivors_positions(order: Seq<usize>, sup: Seq<Vec<bool>>, n: int)
    requires
        0 <= n <= order.len(),
    ensures
        forall|t1: int, t2: int|
            0 <= t1 < t2 < survivors(order, sup, n).len() ==> exists|m1: int, m2: int|
                0 <= m1 < m2 < n && #[trigger] survivors(order, sup, n)[t1] == order[m1] && #[trigger] survivors(order, sup, n)[t2] == order[m2],
    decreases n,
{
    if n > 0 {
        lemma_survivors_positions(order, sup, n - 1);
        lemma_survivors_origin(order, sup, n - 1);
        let prev = survivors(order, sup, n - 1);
        let cur = survivors(order, sup, n);
        assert forall|t1: int, t2: int| 0 <= t1 < t2 < cur.len() implies exists|m1: int, m2: int|
            0 <= m1 < m2 < n && #[trigger] cur[t1] == order[m1] && #[trigger] cur[t2] == order[m2] by {
            if t2 < prev.len() {
                assert(cur[t1] == prev[t1] && cur[t2] == prev[t2]);
                let (m1, m2) = choose|m1: int, m2: int| 0 <= m1 < m2 < n - 1 && #[trigger] prev[t1] == order[m1] && #[trigger] prev[t2] == order[m2];
                assert(0 <= m1 < m2 < n && cur[t1] == order[m1] && cur[t2] == order[m2]);
            } else {
                assert(cur[t1] == prev[t1]);
                let m1 = choose|m: int| 0 <= m < n - 1 && #[trigger] prev[t1] == order[m];
                assert(cur[t2] == order[n - 1]);
                assert(0 <= m1 < n - 1 < n && cur[t1] == order[m1] && cur[t2] == order[n - 1]);
            }
        }
    }
}

proof fn lemma_members_ascending(class_ids: Seq<i32>, c: i32, n: int)
    requires
        0 <= n <= class_ids.len(),
        class_ids.len() <= usize::MAX,
    ensures
        forall|i: int, j: int|
            0 <= i < j < class_members(class_ids, c, n).len() ==> #[trigger] class_members(class_ids, c, n)[i] < #[trigger] class_members(class_ids, c, n)[j],
    decreases n,
{
    if n > 0 {
        lemma_members_ascending(class_ids, c, n - 1);
        lemma_class_members(class_ids, c, n - 1);
        let prev = class_members(class_ids, c, n - 1);
        let cur = class_members(class_ids, c, n);
        assert forall|i: int, j: int| 0 <= i < j < cur.len() implies #[trigger] cur[i] < #[trigger] cur[j] by {
            if j < prev.len() {
                assert(cur[i] == prev[i] && cur[j] == prev[j]);
            } else {
                assert(cur[i] == prev[i]);
                assert(prev[i] < n - 1);
            }
        }
    }
}

/// Within one class, the selection ranks `x` before `y` when `x` scores
/// higher, or scores the same and has the lower index.
proof fn lemma_class_ranking(class_ids: Seq<i32>, score_keys: Seq<u32>, sup: Seq<Vec<bool>>, c: i32, x: usize, y: usize)
    requires
        class_ids.len() == score_keys.len(),
        class_ids.len() <= usize::MAX,
        nms_selection(class_members(class_ids, c, class_ids.len() as int), score_keys, sup).contains(x),
        nms_selection(class_members(class_ids, c, class_ids.len() as int), score_keys, sup).contains(y),
        score_keys[x as int] > score_keys[y as int] || (score_keys[x as int] == score_keys[y as int] && x < y),
    ensures
        exists|i: int, j: int|
            0 <= i < j < nms_selection(class_members(class_ids, c, class_ids.len() as int), score_keys, sup).len()
                && nms_selection(class_members(class_ids, c, class_ids.len() as int), score_keys, sup)[i] == x
                && nms_selection(class_members(class_ids, c, class_ids.len() as int), score_keys, sup)[j] == y,
{
    broadcast use vstd::seq_lib::group_to_multiset_ensures;

    let n = class_ids.len() as int;
    let members = class_members(class_ids, c, n);
    let keys = descending_keys(score_keys);
    lemma_class_members(class_ids, c, n);
    lemma_members_ascending(class_ids, c, n);
    assert(keyed(members, keys));
    lemma_stable_sorted(members, keys);
    let order = by_score(members, score_keys);
    let s = nms_selection(members, score_keys, sup);
    lemma_survivors_positions(order, sup, order.len() as int);
    lemma_survivors_origin(order, sup, order.len() as int);
    assert(members.no_duplicates());
    members.lemma_multiset_has_no_duplicates();
    assert forall|v: usize| order.to_multiset().contains(v) implies order.to_multiset().count(v) == 1 by {
        assert(members.to_multiset().contains(v));
    }
    order.lemma_multiset_has_no_duplicates_conv();
    lemma_stable_sorted_keeps_ties(members, keys);
    let ix = choose|i: int| 0 <= i < s.len() && s[i] == x;
    let iy = choose|i: int| 0 <= i < s.len() && s[i] == y;
    assert(x != y);
    assert(ix != iy);
    if iy < ix {
        let (m1, m2) = choose|m1: int, m2: int| 0 <= m1 < m2 < order.len() && #[trigger] s[iy] == order[m1] && #[trigger] s[ix] == order[m2];
        assert(keys[order[m1] as int] <= keys[order[m2] as int]);
        if score_keys[x as int] == score_keys[y as int] {
            assert(members.contains(x)) by {
                let m = choose|m: int| 0 <= m < s.len() && s[m] == x;
                let k = choose|k: int| 0 <= k < order.len() && #[trigger] s[m] == order[k];
                assert(order.contains(x));
                assert(order.to_multiset().count(x) > 0);
            }
            assert(members.contains(y)) by {
                let m = choose|m: int| 0 <= m < s.len() && s[m] == y;
                let k = choose|k: int| 0 <= k < order.len() && #[trigger] s[m] == order[k];
                assert(order.contains(y));
                assert(order.to_multiset().count(y) > 0);
            }
            let px = choose|p: int| 0 <= p < members.len() && members[p] == x;
            let py = choose|p: int| 0 <= p < members.len() && members[p] == y;
            if py < px {
                assert(members[py] < members[px]);
            }
            assert(px < py);
            assert(keys[members[px] as int] == keys[members[py] as int]);
            let (i, j) = choose|i: int, j: int| 0 <= i < j < members.len() && order[i] == members[px] && order[j] == members[py];
            assert(order[i] == order[m2]);
            assert(order[j] == order[m1]);
            assert(i == m2 && j == m1);
        }
    }
    assert(0 <= ix < iy < s.len() && s[ix] == x && s[iy] == y);
}

/// A detection kept within class `c` has class `c`.
proof fn lemma_kept_has_class(class_ids: Seq<i32>, score_keys: Seq<u32>, sup: Seq<Vec<bool>>, c: i32, x: usize)
    requires
        class_ids.len() == score_keys.len(),
        class_ids.len() <= usize::MAX,
        nms_selection(class_members(class_ids, c, class_ids.len() as int), score_keys, sup).contains(x),
    ensures
        x < class_ids.len(),
        class_ids[x as int] == c,
{
    let n = class_ids.len() as int;
    let members = class_members(class_ids, c, n);
    lemma_members_contains(class_ids, c, n);
    lemma_class_members(class_ids, c, n);
    lemma_nms_laws(members, score_keys, sup);
    let s = nms_selection(members, score_keys, sup);
    let t = choose|t: int| 0 <= t < s.len() && s[t] == x;
    assert(members.contains(s[t]));
}

proof fn lemma_kept_per_class_distinct(class_ids: Seq<i32>, score_keys: Seq<u32>, sup: Seq<Vec<bool>>, classes: Seq<i32>)
    requires
        class_ids.len() == score_keys.len(),
        class_ids.len() <= usize::MAX,
        classes.no_duplicates(),
    ensures
        kept_per_class(class_ids, score_keys, sup, classes).no_duplicates(),
    decreases classes.len(),
{
    if classes.len() > 0 {
        let n = class_ids.len() as int;
        let rest = classes.drop_last();
        assert forall|i: int, j: int| 0 <= i < rest.len() && 0 <= j < rest.len() && i != j implies rest[i] != rest[j] by {
            assert(rest[i] == classes[i] && rest[j] == classes[j]);
        }
        lemma_kept_per_class_distinct(class_ids, score_keys, sup, rest);
        lemma_kept_per_class_contains(class_ids, score_keys, sup, rest);
        let prev = kept_per_class(class_ids, score_keys, sup, rest);
        let c = classes.last();
        let members = class_members(class_ids, c, n);
        lemma_class_members(class_ids, c, n);
        lemma_members_ascending(class_ids, c, n);
        assert(members.no_duplicates());
        lemma_nms_laws(members, score_keys, sup);
        let last = nms_selection(members, score_keys, sup);
        let cur = kept_per_class(class_ids, score_keys, sup, classes);
        assert(cur == prev + last);
        assert forall|i: int, j: int| 0 <= i < cur.len() && 0 <= j < cur.len() && i != j implies cur[i] != cur[j] by {
            if i < prev.len() && j < prev.len() {
                assert(cur[i] == prev[i] && cur[j] == prev[j]);
            } else if i >= prev.len() && j >= prev.len() {
                assert(cur[i] == last[i - prev.len()] && cur[j] == last[j - prev.len()]);
            } else {
                let p = if i < prev.len() { i } else { j };
                let q = if i < prev.len() { j } else { i };
                assert(cur[p] == prev[p]);
                assert(cur[q] == last[q - prev.len()]);
                assert(kept_in_some_class(class_ids, score_keys, sup, rest, prev[p]));
                let d = choose|d: i32| rest.contains(d) && #[trigger] nms_selection(class_members(class_ids, d, n), score_keys, sup).contains(prev[p]);
                lemma_kept_has_class(class_ids, score_keys, sup, d, prev[p]);
                assert(last.contains(cur[q]));
                lemma_kept_has_class(class_ids, score_keys, sup, c, cur[q]);
                let k = choose|k: int| 0 <= k < rest.len() && rest[k] == d;
                assert(classes[k] == d);
                assert(classes[classes.len() - 1] == c);
                assert(d != c);
            }
        }
    }
}

/// What detection selection promises: the selected detections come in
/// descending score order, each at most once; every detection is either
/// selected or suppressed by a selected detection of its own class that
/// scores at least as high; and of two selected detections of one class, the
/// higher-scoring one (of equal scores, the lower-indexed one) does not
/// suppress the other.
pub proof fn lemma_selection_laws(class_ids: Seq<i32>, score_keys: Seq<u32>, sup: Seq<Vec<bool>>)
    requires
        class_ids.len() == score_keys.len(),
        class_ids.len() <= usize::MAX,
    ensures
        ({
            let selected = detection_selection(class_ids, score_keys, sup);
            &&& forall|i: int, j: int| 0 <= i < j < selected.len() ==> score_keys[#[trigger] selected[i] as int] >= score_keys[#[trigger] selected[j] as int]
            &&& forall|t: int| 0 <= t < selected.len() ==> #[trigger] selected[t] < class_ids.len()
            &&& selected.no_duplicates()
            &&& forall|i: usize| i < class_ids.len() ==> #[trigger] selected.contains(i) || exists|t: int|
                0 <= t < selected.len() && class_ids[#[trigger] selected[t] as int] == class_ids[i as int] && sup[selected[t] as int]@[i as int]
                    && score_keys[selected[t] as int] >= score_keys[i as int]
            &&& forall|x: usize, y: usize|
                #[trigger] selected.contains(x) && #[trigger] selected.contains(y) && class_ids[x as int] == class_ids[y as int]
                    && (score_keys[x as int] > score_keys[y as int] || (score_keys[x as int] == score_keys[y as int] && x < y))
                    ==> !sup[x as int]@[y as int]
        }),
{
    broadcast use vstd::seq_lib::group_to_multiset_ensures;

    let n = class_ids.len() as int;
    let classes = class_list(class_ids);
    let kept = kept_per_class(class_ids, score_keys, sup, classes);
    let selected = detection_selection(class_ids, score_keys, sup);
    let keys = descending_keys(score_keys);
    lemma_kept_per_class_indexes(class_ids, score_keys, sup, classes);
    assert(keyed(kept, keys));
    lemma_stable_sorted(kept, keys);
    lemma_class_list(class_ids);
    lemma_kept_per_class_contains(class_ids, score_keys, sup, classes);
    assert forall|i: int, j: int| 0 <= i < j < selected.len() implies score_keys[#[trigger] selected[i] as int] >= score_keys[#[trigger] selected[j] as int] by {
        assert(keys[selected[i] as int] <= keys[selected[j] as int]);
    }
    assert forall|t: int| 0 <= t < selected.len() implies #[trigger] selected[t] < class_ids.len() by {
        assert(keys.len() == n);
    }
    assert forall|x: usize| #[trigger] selected.contains(x) <==> kept.contains(x) by {
        assert(selected.to_multiset().count(x) == kept.to_multiset().count(x));
    }
    assert(classes.no_duplicates());
    lemma_kept_per_class_distinct(class_ids, score_keys, sup, classes);
    lemma_same_multiset_distinct(kept, selected);
    assert forall|i: usize| i < class_ids.len() implies #[trigger] selected.contains(i) || exists|t: int|
        0 <= t < selected.len() && class_ids[#[trigger] selected[t] as int] == class_ids[i as int] && sup[selected[t] as int]@[i as int]
            && score_keys[selected[t] as int] >= score_keys[i as int] by {
        let c = class_ids[i as int];
        let members = class_members(class_ids, c, n);
        lemma_members_contains(class_ids, c, n);
        lemma_class_members(class_ids, c, n);
        assert(class_ids.contains(c));
        assert(classes.contains(c));
        lemma_nms_laws(members, score_keys, sup);
        let s = nms_selection(members, score_keys, sup);
        assert(members.contains(i));
        if s.contains(i) {
            assert(kept.contains(i));
        } else {
            let t = choose|t: int| 0 <= t < s.len() && sup[#[trigger] s[t] as int]@[i as int] && score_keys[s[t] as int] >= score_keys[i as int];
            assert(s.contains(s[t]));
            assert(kept.contains(s[t]));
            assert(members.contains(s[t]));
            assert(selected.contains(s[t]));
            let u = choose|u: int| 0 <= u < selected.len() && selected[u] == s[t];
            assert(class_ids[selected[u] as int] == c);
        }
    }
    assert forall|x: usize, y: usize|
        #[trigger] selected.contains(x) && #[trigger] selected.contains(y) && class_ids[x as int] == class_ids[y as int]
            && (score_keys[x as int] > score_keys[y as int] || (score_keys[x as int] == score_keys[y as int] && x < y))
            implies !sup[x as int]@[y as int] by {
        assert(kept.contains(x));
        assert(kept.contains(y));
        let tx = choose|t: int| 0 <= t < kept.len() && kept[t] == x;
        let ty = choose|t: int| 0 <= t < kept.len() && kept[t] == y;
        assert(kept_in_some_class(class_ids, score_keys, sup, classes, kept[tx]));
        assert(kept_in_some_class(class_ids, score_keys, sup, classes, kept[ty]));
        let cx = choose|c: i32| classes.contains(c) && #[trigger] nms_selection(class_members(class_ids, c, n), score_keys, sup).contains(kept[tx]);
        let cy = choose|c: i32| classes.contains(c) && #[trigger] nms_selection(class_members(class_ids, c, n), score_keys, sup).contains(kept[ty]);
        let mx = class_members(class_ids, cx, n);
        let my = class_members(class_ids, cy, n);
        lemma_members_contains(class_ids, cx, n);
        lemma_members_contains(class_ids, cy, n);
        lemma_class_members(class_ids, cx, n);
        lemma_class_members(class_ids, cy, n);
        lemma_nms_laws(mx, score_keys, sup);
        lemma_nms_laws(my, score_keys, sup);
        let s = nms_selection(mx, score_keys, sup);
        assert(mx.contains(x));
        assert(my.contains(y));
        assert(cx == cy);
        lemma_class_ranking(class_ids, score_keys, sup, cx, x, y);
        let (ix, iy) = choose|i: int, j: int| 0 <= i < j < s.len() && s[i] == x && s[j] == y;
        assert(!sup[s[ix] as int]@[s[iy] as int]);
    }
}


/// Transposes a channel-major output of 15 channels × `n` anchors into `n`
/// rows of 15 values: `rows[i][c] == raw_flat[c * n + i]` with
/// `n == raw_flat.len() / 15` (trailing values that do not fill a column
/// are ignored).
pub fn reshape_15x_n<T: Copy>(raw_flat: &[T]) -> (rows: Vec<[T; 15]>)
    ensures
        rows@.len() == raw_flat@.len() / 15,
        forall|i: int, c: int|
            0 <= i < rows@.len() && 0 <= c < 15 ==> #[trigger] rows@[i]@[c] == raw_flat@[c * (raw_flat@.len() / 15) + i],
{
    let n = raw_flat.len() / 15;
    let mut rows: Vec<[T; 15]> = Vec::new();
    let mut i: usize = 0;
    while i < n
        invariant
            n == raw_flat@.len() / 15,
            i <= n,
            rows@.len() == i,
            forall|r: int, c: int|
                0 <= r < i && 0 <= c < 15 ==> #[trigger] rows@[r]@[c] == raw_flat@[c * n + r],
        decreases n - i,
    {
        assert(14 * n + i < raw_flat@.len());
        let row = [
            raw_flat[i],
            raw_flat[n + i],
            raw_flat[2 * n + i],
            raw_flat[3 * n + i],
            raw_flat[4 * n + i],
            raw_flat[5 * n + i],
            raw_flat[6 * n + i],
            raw_flat[7 * n + i],
            raw_flat[8 * n + i],
            raw_flat[9 * n + i],
            raw_flat[10 * n + i],
            raw_flat[11 * n + i],
            raw_flat[12 * n + i],
            raw_flat[13 * n + i],
            raw_flat[14 * n + i],
        ];
        assert forall|c: int| 0 <= c < 15 implies row@[c] == raw_flat@[c * n + i] by {
            if c == 0 {} else if c == 1 {} else if c == 2 {} else if c == 3 {} else if c == 4 {}
            else if c == 5 {} else if c == 6 {} else if c == 7 {} else if c == 8 {} else if c == 9 {}
            else if c == 10 {} else if c == 11 {} else if c == 12 {} else if c == 13 {} else {}
        }
        rows.push(row);
        i = i + 1;
    }
    rows
}

} // verus!
