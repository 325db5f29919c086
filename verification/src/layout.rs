use vstd::prelude::*;

use crate::sort::{ascending, keyed, lemma_stable_sorted, stable_sort_by_key, stable_sorted};

verus! {

/// What the reading order knows of one detected layout box. The geometric
/// facts are measured on the page beforehand: `y_key`, `x_key` and
/// `width_key` order boxes as their top edge, left edge and width order
/// them; the flags record how the box sits on the page.
#[derive(Clone, Copy, Debug, PartialEq, Eq, Structural)]
pub struct LayoutBox {
    /// The detected layout class.
    pub class_id: i32,
    /// Orders boxes by the y coordinate of their top edge.
    pub y_key: u32,
    /// Orders boxes by the x coordinate of their left edge.
    pub x_key: u32,
    /// Orders boxes by their width.
    pub width_key: u32,
    /// The bottom edge lies in the last 3% of the page height.
    pub near_page_bottom: bool,
    /// The box spans most of the page width (60%, or 45% for titles and
    /// section headers).
    pub full_width: bool,
    /// The box closes a zone: it is full width, or a title or section header
    /// centred on the page.
    pub zone_separator: bool,
    /// The horizontal centre lies left of the page middle.
    pub left_of_middle: bool,
    /// The horizontal centre lies in the left column (left of 48% of the width).
    pub in_left_column: bool,
    /// The horizontal centre lies in the right column (right of 52% of the width).
    pub in_right_column: bool,
    /// The width is under 55% of the page width.
    pub narrow: bool,
}

/// A test on a layout box.
#[derive(Clone, Copy, Debug, PartialEq, Eq, Structural)]
pub enum BoxTest {
    FullWidth,
    LeftOfMiddle,
    InLeftColumn,
    InRightColumn,
}

/// The outcome of `test` on `b`.
pub open spec fn passes(b: LayoutBox, test: BoxTest) -> bool {
    match test {
        BoxTest::FullWidth => b.full_width,
        BoxTest::LeftOfMiddle => b.left_of_middle,
        BoxTest::InLeftColumn => b.in_left_column,
        BoxTest::InRightColumn => b.in_right_column,
    }
}

/// The boxes of `list` whose `test` outcome is `want`, in list order.
pub open spec fn boxes_where(boxes: Seq<LayoutBox>, list: Seq<usize>, test: BoxTest, want: bool) -> Seq<usize>
    decreases list.len(),
{
    if list.len() == 0 {
        Seq::empty()
    } else {
        let rest = boxes_where(boxes, list.drop_last(), test, want);
        if passes(boxes[list.last() as int], test) == want {
            rest.push(list.last())
        } else {
            rest
        }
    }
}

/// Every entry of `list` indexes into `boxes`.
pub open spec fn valid_list(boxes: Seq<LayoutBox>, list: Seq<usize>) -> bool {
    forall|i: int| 0 <= i < list.len() ==> (#[trigger] list[i]) < boxes.len()
}

fn select_where(boxes: &[LayoutBox], list: &Vec<usize>, test: BoxTest, want: bool) -> (out: Vec<usize>)
    requires
        valid_list(boxes@, list@),
    ensures
        out@ == boxes_where(boxes@, list@, test, want),
{
    let mut out: Vec<usize> = Vec::new();
    let mut i: usize = 0;
    while i < list.len()
        invariant
            i <= list@.len(),
            valid_list(boxes@, list@),
            out@ == boxes_where(boxes@, list@.take(i as int), test, want),
        decreases list@.len() - i,
    {
        let b = boxes[list[i]];
        let pass = match test {
            BoxTest::FullWidth => b.full_width,
            BoxTest::LeftOfMiddle => b.left_of_middle,
            BoxTest::InLeftColumn => b.in_left_column,
            BoxTest::InRightColumn => b.in_right_column,
        };
        if pass == want {
            out.push(list[i]);
        }
        proof {
            assert(list@.take(i + 1).drop_last() =~= list@.take(i as int));
        }
        i = i + 1;
    }
    assert(list@.take(i as int) =~= list@);
    out
}

proof fn lemma_boxes_where(boxes: Seq<LayoutBox>, list: Seq<usize>, test: BoxTest, want: bool)
    ensures
        boxes_where(boxes, list, test, want).to_multiset().add(boxes_where(boxes, list, test, !want).to_multiset())
            =~= list.to_multiset(),
        valid_list(boxes, list) ==> valid_list(boxes, boxes_where(boxes, list, test, want)),
        boxes_where(boxes, list, test, want).len() <= list.len(),
    decreases list.len(),
{
    broadcast use vstd::seq_lib::group_to_multiset_ensures;

    if list.len() > 0 {
        lemma_boxes_where(boxes, list.drop_last(), test, want);
        assert(list.drop_last().push(list.last()) =~= list);
    }
}

/// The entries of `s` for which `p` holds, in order.
pub open spec fn keep(s: Seq<usize>, p: spec_fn(usize) -> bool) -> Seq<usize>
    decreases s.len(),
{
    if s.len() == 0 {
        Seq::empty()
    } else if p(s.last()) {
        keep(s.drop_last(), p).push(s.last())
    } else {
        keep(s.drop_last(), p)
    }
}

proof fn lemma_keep_count(s: Seq<usize>, p: spec_fn(usize) -> bool)
    ensures
        forall|v: usize| #[trigger] keep(s, p).to_multiset().count(v) == if p(v) { s.to_multiset().count(v) } else { 0 },
    decreases s.len(),
{
    broadcast use vstd::seq_lib::group_to_multiset_ensures, vstd::multiset::group_multiset_axioms;

    if s.len() > 0 {
        let r = s.drop_last();
        let x = s.last();
        lemma_keep_count(r, p);
        assert(r.push(x) =~= s);
        assert forall|v: usize| #[trigger] keep(s, p).to_multiset().count(v) == if p(v) { s.to_multiset().count(v) } else { 0 } by {
            assert(s.to_multiset() =~= r.to_multiset().insert(x));
            assert(s.to_multiset().count(v) == r.to_multiset().count(v) + if v == x { 1int } else { 0int });
            assert(keep(r, p).to_multiset().count(v) == if p(v) { r.to_multiset().count(v) } else { 0 });
            if p(x) {
                assert(keep(s, p) == keep(r, p).push(x));
                assert(keep(s, p).to_multiset() =~= keep(r, p).to_multiset().insert(x));
                assert(keep(s, p).to_multiset().count(v) == keep(r, p).to_multiset().count(v) + if v == x { 1int } else { 0int });
            } else {
                assert(keep(s, p) == keep(r, p));
            }
        }
    } else {
        assert forall|v: usize| #[trigger] keep(s, p).to_multiset().count(v) == if p(v) { s.to_multiset().count(v) } else { 0 } by {
            assert(s.to_multiset() =~= vstd::multiset::Multiset::empty());
            assert(keep(s, p).to_multiset() =~= vstd::multiset::Multiset::empty());
        }
    }
}

proof fn lemma_keep_same_len(s1: Seq<usize>, s2: Seq<usize>, p: spec_fn(usize) -> bool)
    requires
        s1.to_multiset() =~= s2.to_multiset(),
    ensures
        keep(s1, p).len() == keep(s2, p).len(),
{
    broadcast use vstd::seq_lib::group_to_multiset_ensures;

    lemma_keep_count(s1, p);
    lemma_keep_count(s2, p);
    assert(keep(s1, p).to_multiset() =~= keep(s2, p).to_multiset()) by {
        assert forall|v: usize| keep(s1, p).to_multiset().count(v) == keep(s2, p).to_multiset().count(v) by {
            assert(s1.to_multiset().count(v) == s2.to_multiset().count(v));
        }
    }
    assert(keep(s1, p).to_multiset().len() == keep(s2, p).to_multiset().len());
}

proof fn lemma_keep_len_bounds(s: Seq<usize>, p: spec_fn(usize) -> bool, a: int)
    requires
        0 <= a <= s.len(),
    ensures
        (forall|i: int| 0 <= i < a ==> p(#[trigger] s[i])) ==> keep(s, p).len() >= a,
        (forall|i: int| a <= i < s.len() ==> !p(#[trigger] s[i])) ==> keep(s, p).len() <= a,
    decreases s.len(),
{
    if s.len() > 0 {
        let r = s.drop_last();
        if a == s.len() {
            lemma_keep_len_bounds(r, p, a - 1);
            if forall|i: int| 0 <= i < a ==> p(#[trigger] s[i]) {
                assert forall|i: int| 0 <= i < a - 1 implies p(#[trigger] r[i]) by {
                    assert(r[i] == s[i]);
                }
                assert(p(s[a - 1]));
            }
            assert(keep(r, p).len() <= r.len()) by {
                lemma_keep_len_bounds(r, p, r.len() as int);
            }
        } else {
            lemma_keep_len_bounds(r, p, a);
            if forall|i: int| 0 <= i < a ==> p(#[trigger] s[i]) {
                assert forall|i: int| 0 <= i < a implies p(#[trigger] r[i]) by {
                    assert(r[i] == s[i]);
                }
            }
            if forall|i: int| a <= i < s.len() ==> !p(#[trigger] s[i]) {
                assert forall|i: int| a <= i < r.len() implies !p(#[trigger] r[i]) by {
                    assert(r[i] == s[i]);
                }
                assert(!p(s[s.len() - 1]));
            }
        }
    }
}

proof fn lemma_boxes_where_keep(boxes: Seq<LayoutBox>, list: Seq<usize>, test: BoxTest, want: bool)
    ensures
        boxes_where(boxes, list, test, want) == keep(list, |i: usize| passes(boxes[i as int], test) == want),
    decreases list.len(),
{
    if list.len() > 0 {
        lemma_boxes_where_keep(boxes, list.drop_last(), test, want);
    }
}

/// Two ascending arrangements of the same entries have the same key at
/// every position.
proof fn lemma_sorted_same_keys(s1: Seq<usize>, s2: Seq<usize>, keys: Seq<u64>, m: int)
    requires
        s1.to_multiset() =~= s2.to_multiset(),
        ascending(s1, keys),
        ascending(s2, keys),
        0 <= m < s1.len(),
    ensures
        keys[s1[m] as int] == keys[s2[m] as int],
{
    broadcast use vstd::seq_lib::group_to_multiset_ensures;

    assert(s1.len() == s2.len()) by {
        assert(s1.to_multiset().len() == s2.to_multiset().len());
    }
    let k1 = keys[s1[m] as int];
    let k2 = keys[s2[m] as int];
    if k1 < k2 {
        let p = |v: usize| keys[v as int] <= k1;
        lemma_keep_same_len(s1, s2, p);
        lemma_keep_len_bounds(s1, p, m + 1);
        lemma_keep_len_bounds(s2, p, m);
        assert forall|i: int| 0 <= i < m + 1 implies p(#[trigger] s1[i]) by {
            if i < m {
                assert(keys[s1[i] as int] <= keys[s1[m] as int]);
            }
        }
        assert forall|i: int| m <= i < s2.len() implies !p(#[trigger] s2[i]) by {
            if i > m {
                assert(keys[s2[m] as int] <= keys[s2[i] as int]);
            }
        }
    } else if k2 < k1 {
        let p = |v: usize| keys[v as int] <= k2;
        lemma_keep_same_len(s1, s2, p);
        lemma_keep_len_bounds(s2, p, m + 1);
        lemma_keep_len_bounds(s1, p, m);
        assert forall|i: int| 0 <= i < m + 1 implies p(#[trigger] s2[i]) by {
            if i < m {
                assert(keys[s2[i] as int] <= keys[s2[m] as int]);
            }
        }
        assert forall|i: int| m <= i < s1.len() implies !p(#[trigger] s1[i]) by {
            if i > m {
                assert(keys[s1[m] as int] <= keys[s1[i] as int]);
            }
        }
    }
}

/// The boxes of one page agree with each other as measurements of one page
/// do: a box no wider than a narrow box is narrow itself; a full-width box
/// closes a zone; a box in the left column lies left of the middle, and a box
/// in the right column does not.
pub open spec fn consistent_boxes(boxes: Seq<LayoutBox>) -> bool {
    &&& forall|i: int, j: int|
        0 <= i < boxes.len() && 0 <= j < boxes.len() && (#[trigger] boxes[i]).width_key <= (#[trigger] boxes[j]).width_key
            && boxes[j].narrow ==> boxes[i].narrow
    &&& forall|i: int| 0 <= i < boxes.len() ==> ((#[trigger] boxes[i]).full_width ==> boxes[i].zone_separator)
    &&& forall|i: int| 0 <= i < boxes.len() ==> ((#[trigger] boxes[i]).in_left_column ==> boxes[i].left_of_middle)
    &&& forall|i: int| 0 <= i < boxes.len() ==> ((#[trigger] boxes[i]).in_right_column ==> !boxes[i].left_of_middle)
}

/// Whether a zone of consistent boxes reads as two columns does not depend on
/// the order of its boxes: any rearrangement of a zone gets the same answer.
pub proof fn lemma_two_column_order_free(boxes: Seq<LayoutBox>, z1: Seq<usize>, z2: Seq<usize>)
    requires
        consistent_boxes(boxes),
        valid_list(boxes, z1),
        valid_list(boxes, z2),
        z1.to_multiset() =~= z2.to_multiset(),
    ensures
        looks_two_column(boxes, z1) == looks_two_column(boxes, z2),
{
    let full = |i: usize| passes(boxes[i as int], BoxTest::FullWidth) == false;
    let left = |i: usize| passes(boxes[i as int], BoxTest::InLeftColumn) == true;
    let right = |i: usize| passes(boxes[i as int], BoxTest::InRightColumn) == true;
    lemma_boxes_where_keep(boxes, z1, BoxTest::FullWidth, false);
    lemma_boxes_where_keep(boxes, z2, BoxTest::FullWidth, false);
    lemma_boxes_where_keep(boxes, z1, BoxTest::InLeftColumn, true);
    lemma_boxes_where_keep(boxes, z2, BoxTest::InLeftColumn, true);
    lemma_boxes_where_keep(boxes, z1, BoxTest::InRightColumn, true);
    lemma_boxes_where_keep(boxes, z2, BoxTest::InRightColumn, true);
    lemma_keep_same_len(z1, z2, left);
    lemma_keep_same_len(z1, z2, right);
    let p1 = boxes_where(boxes, z1, BoxTest::FullWidth, false);
    let p2 = boxes_where(boxes, z2, BoxTest::FullWidth, false);
    lemma_keep_count(z1, full);
    lemma_keep_count(z2, full);
    assert(p1.to_multiset() =~= p2.to_multiset());
    lemma_keep_same_len(z1, z2, full);
    if p1.len() >= 4 {
        let keys = width_keys(boxes);
        lemma_boxes_where(boxes, z1, BoxTest::FullWidth, false);
        lemma_boxes_where(boxes, z2, BoxTest::FullWidth, false);
        assert(keyed(p1, keys));
        assert(keyed(p2, keys));
        lemma_stable_sorted(p1, keys);
        lemma_stable_sorted(p2, keys);
        let s1 = stable_sorted(p1, keys);
        let s2 = stable_sorted(p2, keys);
        let m = (s1.len() / 2) as int;
        lemma_sorted_same_keys(s1, s2, keys, m);
        let a = s1[m] as int;
        let b = s2[m] as int;
        assert(a < boxes.len() && b < boxes.len());
        assert(boxes[a].width_key == boxes[b].width_key);
        assert(boxes[a].width_key <= boxes[b].width_key && boxes[b].width_key <= boxes[a].width_key);
        assert(boxes[a].narrow == boxes[b].narrow);
    }
}

/// Orders boxes top to bottom, then left to right.
pub open spec fn yx_key(b: LayoutBox) -> u64 {
    (b.y_key as int * 0x1_0000_0000 + b.x_key as int) as u64
}

/// The top-then-left sort key of every box.
pub open spec fn yx_keys(boxes: Seq<LayoutBox>) -> Seq<u64> {
    Seq::new(boxes.len(), |i: int| yx_key(boxes[i]))
}

/// The width sort key of every box.
pub open spec fn width_keys(boxes: Seq<LayoutBox>) -> Seq<u64> {
    Seq::new(boxes.len(), |i: int| boxes[i].width_key as u64)
}

/// `list` sorted top to bottom, then left to right; ties keep list order.
pub open spec fn sorted_yx(boxes: Seq<LayoutBox>, list: Seq<usize>) -> Seq<usize> {
    stable_sorted(list, yx_keys(boxes))
}

/// Whether a zone reads as two columns: among its boxes that are not full
/// width there are at least four, the median width is narrow, and at least
/// two boxes sit in each column.
pub open spec fn looks_two_column(boxes: Seq<LayoutBox>, zone: Seq<usize>) -> bool {
    let partial = boxes_where(boxes, zone, BoxTest::FullWidth, false);
    if partial.len() < 4 {
        false
    } else {
        let by_width = stable_sorted(partial, width_keys(boxes));
        &&& boxes[by_width[(by_width.len() / 2) as int] as int].narrow
        &&& boxes_where(boxes, zone, BoxTest::InLeftColumn, true).len() >= 2
        &&& boxes_where(boxes, zone, BoxTest::InRightColumn, true).len() >= 2
    }
}

/// The reading order within a zone: for a two-column zone of more than two
/// boxes, the left column top to bottom and then the right column;
/// otherwise the whole zone top to bottom.
pub open spec fn zone_order(boxes: Seq<LayoutBox>, zone: Seq<usize>) -> Seq<usize> {
    if zone.len() <= 2 || !looks_two_column(boxes, zone) {
        sorted_yx(boxes, zone)
    } else {
        sorted_yx(boxes, boxes_where(boxes, zone, BoxTest::LeftOfMiddle, true)) + sorted_yx(
            boxes,
            boxes_where(boxes, zone, BoxTest::LeftOfMiddle, false),
        )
    }
}

fn yx_key_table(boxes: &[LayoutBox]) -> (keys: Vec<u64>)
    ensures
        keys@ == yx_keys(boxes@),
{
    let mut keys: Vec<u64> = Vec::new();
    let mut i: usize = 0;
    while i < boxes.len()
        invariant
            i <= boxes@.len(),
            keys@ =~= yx_keys(boxes@).take(i as int),
        decreases boxes@.len() - i,
    {
        let b = boxes[i];
        assert(b.y_key as int * 0x1_0000_0000 + b.x_key as int <= u64::MAX) by (nonlinear_arith)
            requires b.y_key <= u32::MAX, b.x_key <= u32::MAX;
        keys.push((b.y_key as u64) * 0x1_0000_0000 + b.x_key as u64);
        i = i + 1;
    }
    keys
}

fn width_key_table(boxes: &[LayoutBox]) -> (keys: Vec<u64>)
    ensures
        keys@ == width_keys(boxes@),
{
    let mut keys: Vec<u64> = Vec::new();
    let mut i: usize = 0;
    while i < boxes.len()
        invariant
            i <= boxes@.len(),
            keys@ =~= width_keys(boxes@).take(i as int),
        decreases boxes@.len() - i,
    {
        keys.push(boxes[i].width_key as u64);
        i = i + 1;
    }
    keys
}

fn two_column(boxes: &[LayoutBox], width_table: &Vec<u64>, zone: &Vec<usize>) -> (two: bool)
    requires
        valid_list(boxes@, zone@),
        width_table@ == width_keys(boxes@),
    ensures
        two == looks_two_column(boxes@, zone@),
{
    let partial = select_where(boxes, zone, BoxTest::FullWidth, false);
    if partial.len() < 4 {
        return false;
    }
    proof {
        lemma_boxes_where(boxes@, zone@, BoxTest::FullWidth, false);
        assert(keyed(partial@, width_table@));
        lemma_stable_sorted(partial@, width_table@);
    }
    let by_width = stable_sort_by_key(&partial, width_table);
    let median = by_width[by_width.len() / 2];
    let narrow_enough = boxes[median].narrow;
    let left = select_where(boxes, zone, BoxTest::InLeftColumn, true);
    let right = select_where(boxes, zone, BoxTest::InRightColumn, true);
    narrow_enough && left.len() >= 2 && right.len() >= 2
}

fn order_zone(boxes: &[LayoutBox], yx_table: &Vec<u64>, width_table: &Vec<u64>, zone: &Vec<usize>) -> (ordered: Vec<usize>)
    requires
        valid_list(boxes@, zone@),
        yx_table@ == yx_keys(boxes@),
        width_table@ == width_keys(boxes@),
    ensures
        ordered@ == zone_order(boxes@, zone@),
{
    if zone.len() <= 2 || !two_column(boxes, width_table, zone) {
        return stable_sort_by_key(zone, yx_table);
    }
    let left = select_where(boxes, zone, BoxTest::LeftOfMiddle, true);
    let right = select_where(boxes, zone, BoxTest::LeftOfMiddle, false);
    proof {
        lemma_boxes_where(boxes@, zone@, BoxTest::LeftOfMiddle, true);
        lemma_boxes_where(boxes@, zone@, BoxTest::LeftOfMiddle, false);
    }
    let mut ordered = stable_sort_by_key(&left, yx_table);
    let mut rest = stable_sort_by_key(&right, yx_table);
    ordered.append(&mut rest);
    ordered
}


/// The zone bottom after adding box `i` to a zone whose bottom is the
/// bottom edge of entry `cur` of `bottoms`: the lower of the two edges, an
/// unmeasurable edge (`None`) giving way to the other.
pub open spec fn lower_bottom(bottoms: Seq<Option<u32>>, cur: usize, i: usize) -> usize {
    match bottoms[i as int] {
        None => cur,
        Some(a) => match bottoms[cur as int] {
            None => i,
            Some(b) => if a > b {
                i
            } else {
                cur
            },
        },
    }
}

/// The state of the walk through the body boxes: the boxes placed so far,
/// the open zone, and the entry of `bottoms` that holds the zone bottom.
pub struct BodyState {
    pub placed: Seq<usize>,
    pub zone: Seq<usize>,
    pub bottom: usize,
}

/// One step of the walk with box `i`: a separator closes the open zone and
/// is placed on its own, its bottom becoming the zone bottom; a box whose top
/// lies far enough below the zone bottom (`gaps[i][bottom]`) closes the open
/// zone and starts a new one; any other box joins the open zone.
pub open spec fn body_step(
    boxes: Seq<LayoutBox>,
    bottoms: Seq<Option<u32>>,
    gaps: Seq<Vec<bool>>,
    st: BodyState,
    i: usize,
) -> BodyState {
    if boxes[i as int].zone_separator {
        BodyState { placed: st.placed + zone_order(boxes, st.zone) + seq![i], zone: Seq::empty(), bottom: i }
    } else if st.zone.len() > 0 && gaps[i as int]@[st.bottom as int] {
        BodyState {
            placed: st.placed + zone_order(boxes, st.zone),
            zone: seq![i],
            bottom: lower_bottom(bottoms, st.bottom, i),
        }
    } else {
        BodyState { placed: st.placed, zone: st.zone.push(i), bottom: lower_bottom(bottoms, st.bottom, i) }
    }
}

/// The walk through `items`, starting with nothing placed, an empty zone
/// and the top of the page (entry `boxes.len()` of `bottoms`) as bottom.
pub open spec fn body_walk(
    boxes: Seq<LayoutBox>,
    bottoms: Seq<Option<u32>>,
    gaps: Seq<Vec<bool>>,
    items: Seq<usize>,
) -> BodyState
    decreases items.len(),
{
    if items.len() == 0 {
        BodyState { placed: Seq::empty(), zone: Seq::empty(), bottom: boxes.len() as usize }
    } else {
        body_step(boxes, bottoms, gaps, body_walk(boxes, bottoms, gaps, items.drop_last()), items.last())
    }
}

/// The reading order of the body boxes: walked top to bottom, split into
/// zones, each zone read in its own order.
pub open spec fn body_order(
    boxes: Seq<LayoutBox>,
    bottoms: Seq<Option<u32>>,
    gaps: Seq<Vec<bool>>,
    body: Seq<usize>,
) -> Seq<usize> {
    let st = body_walk(boxes, bottoms, gaps, sorted_yx(boxes, body));
    st.placed + zone_order(boxes, st.zone)
}

/// The entry of `bottoms` a walk through `items` measures from: the last
/// zone separator among `items`, or the page top (entry `boxes.len()`) when
/// there is none.
pub open spec fn measure_start(boxes: Seq<LayoutBox>, items: Seq<usize>) -> usize
    decreases items.len(),
{
    if items.len() == 0 {
        boxes.len() as usize
    } else if boxes[items.last() as int].zone_separator {
        items.last()
    } else {
        measure_start(boxes, items.drop_last())
    }
}

/// The boxes of `items` that come after the last zone separator, in order.
pub open spec fn since_separator(boxes: Seq<LayoutBox>, items: Seq<usize>) -> Seq<usize>
    decreases items.len(),
{
    if items.len() == 0 {
        Seq::empty()
    } else if boxes[items.last() as int].zone_separator {
        Seq::empty()
    } else {
        since_separator(boxes, items.drop_last()).push(items.last())
    }
}

/// Entry `k` of `bottoms` is at least as low as entry `j`: when `j` has a
/// measured bottom edge, so has `k`, and it is no higher.
pub open spec fn at_least_as_low(bottoms: Seq<Option<u32>>, k: usize, j: usize) -> bool {
    bottoms[j as int] is Some ==> (bottoms[k as int] is Some && bottoms[j as int]->0 <= bottoms[k as int]->0)
}

/// The zone bottom is a running maximum: after a walk through `items`, gaps
/// are measured from an entry that is at least as low as the last separator
/// (or the page top) and as every box walked since, and that entry is one of
/// them.
pub proof fn lemma_zone_bottom_is_lowest(
    boxes: Seq<LayoutBox>,
    bottoms: Seq<Option<u32>>,
    gaps: Seq<Vec<bool>>,
    items: Seq<usize>,
)
    requires
        valid_list(boxes, items),
        bottoms.len() == boxes.len() + 1,
    ensures
        ({
            let st = body_walk(boxes, bottoms, gaps, items);
            let from = measure_start(boxes, items);
            let since = since_separator(boxes, items);
            &&& from <= boxes.len()
            &&& valid_list(boxes, since)
            &&& st.bottom == from || since.contains(st.bottom)
            &&& at_least_as_low(bottoms, st.bottom, from)
            &&& forall|t: int| 0 <= t < since.len() ==> at_least_as_low(bottoms, st.bottom, #[trigger] since[t])
        }),
    decreases items.len(),
{
    if items.len() > 0 {
        let rest = items.drop_last();
        let i = items.last();
        assert(items[items.len() - 1] == i);
        lemma_zone_bottom_is_lowest(boxes, bottoms, gaps, rest);
        let prev = body_walk(boxes, bottoms, gaps, rest);
        let st = body_walk(boxes, bottoms, gaps, items);
        let since0 = since_separator(boxes, rest);
        let since = since_separator(boxes, items);
        if !boxes[i as int].zone_separator {
            assert(since == since0.push(i));
            assert(st.bottom == lower_bottom(bottoms, prev.bottom, i));
            assert forall|t: int| 0 <= t < since.len() implies at_least_as_low(bottoms, st.bottom, #[trigger] since[t]) by {
                if t < since0.len() {
                    assert(since[t] == since0[t]);
                    assert(at_least_as_low(bottoms, prev.bottom, since0[t]));
                }
            }
            if since0.contains(prev.bottom) {
                let t = choose|t: int| 0 <= t < since0.len() && since0[t] == prev.bottom;
                assert(since[t] == prev.bottom);
            }
            assert(since[since.len() - 1] == i);
        }
    }
}

/// A gap table measured on the page: a box that lies far enough below a
/// bottom edge also lies far enough below every edge that is no lower.
pub open spec fn gaps_follow_bottoms(boxes: Seq<LayoutBox>, bottoms: Seq<Option<u32>>, gaps: Seq<Vec<bool>>) -> bool {
    forall|i: int, j: int, k: int|
        0 <= i < boxes.len() && 0 <= j < bottoms.len() && 0 <= k < bottoms.len() && #[trigger] gaps[i]@[k]
            && bottoms[j] is Some && bottoms[k] is Some && bottoms[j]->0 <= bottoms[k]->0 ==> #[trigger] gaps[i]@[j]
}

/// A box that is not a separator and lies close below the bottom edge of
/// some box walked since the last separator (or of that separator, or of the
/// page top) joins the open zone: the zone is not closed, nothing is placed,
/// and the box is added to it.
pub proof fn lemma_close_box_joins_zone(
    boxes: Seq<LayoutBox>,
    bottoms: Seq<Option<u32>>,
    gaps: Seq<Vec<bool>>,
    items: Seq<usize>,
    i: usize,
    j: usize,
)
    requires
        gap_tables(boxes, bottoms, gaps),
        gaps_follow_bottoms(boxes, bottoms, gaps),
        valid_list(boxes, items),
        i < boxes.len(),
        !boxes[i as int].zone_separator,
        j == measure_start(boxes, items) || since_separator(boxes, items).contains(j),
        bottoms[j as int] is Some,
        !gaps[i as int]@[j as int],
    ensures
        body_walk(boxes, bottoms, gaps, items.push(i)).zone == body_walk(boxes, bottoms, gaps, items).zone.push(i),
        body_walk(boxes, bottoms, gaps, items.push(i)).placed == body_walk(boxes, bottoms, gaps, items).placed,
{
    lemma_zone_bottom_is_lowest(boxes, bottoms, gaps, items);
    let st = body_walk(boxes, bottoms, gaps, items);
    let since = since_separator(boxes, items);
    assert(items.push(i).drop_last() =~= items);
    assert(items.push(i).last() == i);
    if since.contains(j) {
        let t = choose|t: int| 0 <= t < since.len() && since[t] == j;
        assert(at_least_as_low(bottoms, st.bottom, since[t]));
        assert(j < boxes.len());
    }
    if since.contains(st.bottom) {
        let t = choose|t: int| 0 <= t < since.len() && since[t] == st.bottom;
        assert(st.bottom < boxes.len());
    }
    assert(at_least_as_low(bottoms, st.bottom, j));
    if gaps[i as int]@[st.bottom as int] {
        assert(gaps[i as int]@[j as int]);
    }
}

/// A box that is not a separator and lies far enough below the bottom edge
/// of the last separator (or the page top) and of every box walked since
/// closes the open zone when there is one: the zone is placed in its own
/// reading order and the box starts a new zone.
pub proof fn lemma_far_box_closes_zone(
    boxes: Seq<LayoutBox>,
    bottoms: Seq<Option<u32>>,
    gaps: Seq<Vec<bool>>,
    items: Seq<usize>,
    i: usize,
)
    requires
        gap_tables(boxes, bottoms, gaps),
        valid_list(boxes, items),
        i < boxes.len(),
        !boxes[i as int].zone_separator,
        body_walk(boxes, bottoms, gaps, items).zone.len() > 0,
        gaps[i as int]@[measure_start(boxes, items) as int],
        forall|t: int|
            0 <= t < since_separator(boxes, items).len() ==> gaps[i as int]@[#[trigger] since_separator(boxes, items)[t] as int],
    ensures
        body_walk(boxes, bottoms, gaps, items.push(i)).zone == seq![i],
        body_walk(boxes, bottoms, gaps, items.push(i)).placed == body_walk(boxes, bottoms, gaps, items).placed + zone_order(
            boxes,
            body_walk(boxes, bottoms, gaps, items).zone,
        ),
{
    lemma_zone_bottom_is_lowest(boxes, bottoms, gaps, items);
    let st = body_walk(boxes, bottoms, gaps, items);
    let since = since_separator(boxes, items);
    assert(items.push(i).drop_last() =~= items);
    assert(items.push(i).last() == i);
    if since.contains(st.bottom) {
        let t = choose|t: int| 0 <= t < since.len() && since[t] == st.bottom;
        assert(gaps[i as int]@[since[t] as int]);
    }
    assert(gaps[i as int]@[st.bottom as int]);
}

/// `bottoms` has an entry for every box and one for the page top, and
/// `gaps` a row for every box with an entry for each of those.
pub open spec fn gap_tables(boxes: Seq<LayoutBox>, bottoms: Seq<Option<u32>>, gaps: Seq<Vec<bool>>) -> bool {
    &&& bottoms.len() == boxes.len() + 1
    &&& gaps.len() == boxes.len()
    &&& forall|i: int| 0 <= i < gaps.len() ==> (#[trigger] gaps[i])@.len() == boxes.len() + 1
}

fn order_body(
    boxes: &[LayoutBox],
    yx_table: &Vec<u64>,
    width_table: &Vec<u64>,
    bottoms: &[Option<u32>],
    gaps: &Vec<Vec<bool>>,
    body: &Vec<usize>,
) -> (ordered: Vec<usize>)
    requires
        valid_list(boxes@, body@),
        yx_table@ == yx_keys(boxes@),
        width_table@ == width_keys(boxes@),
        gap_tables(boxes@, bottoms@, gaps@),
    ensures
        ordered@ == body_order(boxes@, bottoms@, gaps@, body@),
{
    proof {
        assert(keyed(body@, yx_table@));
        lemma_stable_sorted(body@, yx_table@);
    }
    let sorted = stable_sort_by_key(body, yx_table);
    let mut placed: Vec<usize> = Vec::new();
    let mut zone: Vec<usize> = Vec::new();
    let mut bottom: usize = boxes.len();
    let mut k: usize = 0;
    while k < sorted.len()
        invariant
            k <= sorted@.len(),
            valid_list(boxes@, sorted@),
            yx_table@ == yx_keys(boxes@),
            width_table@ == width_keys(boxes@),
            gap_tables(boxes@, bottoms@, gaps@),
            valid_list(boxes@, zone@),
            bottom <= boxes@.len(),
            body_walk(boxes@, bottoms@, gaps@, sorted@.take(k as int)) == (BodyState { placed: placed@, zone: zone@, bottom }),
        decreases sorted@.len() - k,
    {
        let i = sorted[k];
        proof {
            assert(sorted@.take(k + 1).drop_last() =~= sorted@.take(k as int));
            assert(sorted@.take(k + 1).last() == i);
        }
        if boxes[i].zone_separator {
            let mut closed = order_zone(boxes, yx_table, width_table, &zone);
            placed.append(&mut closed);
            placed.push(i);
            zone = Vec::new();
            bottom = i;
        } else {
            if zone.len() > 0 && gaps[i][bottom] {
                let mut closed = order_zone(boxes, yx_table, width_table, &zone);
                placed.append(&mut closed);
                zone = Vec::new();
            }
            zone.push(i);
            bottom = match bottoms[i] {
                None => bottom,
                Some(a) => match bottoms[bottom] {
                    None => i,
                    Some(b) => if a > b {
                        i
                    } else {
                        bottom
                    },
                },
            };
        }
        proof {
            assert(body_walk(boxes@, bottoms@, gaps@, sorted@.take(k + 1)).placed =~= placed@);
            assert(body_walk(boxes@, bottoms@, gaps@, sorted@.take(k + 1)).zone =~= zone@);
        }
        k = k + 1;
    }
    assert(sorted@.take(k as int) =~= sorted@);
    let mut last = order_zone(boxes, yx_table, width_table, &zone);
    placed.append(&mut last);
    placed
}


proof fn lemma_valid_from_multiset(boxes: Seq<LayoutBox>, a: Seq<usize>, b: Seq<usize>)
    requires
        a.to_multiset() =~= b.to_multiset(),
        valid_list(boxes, b),
    ensures
        valid_list(boxes, a),
{
    broadcast use vstd::seq_lib::group_to_multiset_ensures;

    assert forall|i: int| 0 <= i < a.len() implies (#[trigger] a[i]) < boxes.len() by {
        assert(a.contains(a[i]));
        assert(b.to_multiset().count(a[i]) > 0);
        let j = choose|j: int| 0 <= j < b.len() && b[j] == a[i];
    }
}

proof fn lemma_zone_order(boxes: Seq<LayoutBox>, zone: Seq<usize>)
    requires
        valid_list(boxes, zone),
    ensures
        zone_order(boxes, zone).to_multiset() =~= zone.to_multiset(),
        valid_list(boxes, zone_order(boxes, zone)),
{
    broadcast use vstd::seq_lib::group_to_multiset_ensures;

    let keys = yx_keys(boxes);
    assert(keyed(zone, keys));
    lemma_stable_sorted(zone, keys);
    let left = boxes_where(boxes, zone, BoxTest::LeftOfMiddle, true);
    let right = boxes_where(boxes, zone, BoxTest::LeftOfMiddle, false);
    lemma_boxes_where(boxes, zone, BoxTest::LeftOfMiddle, true);
    lemma_boxes_where(boxes, zone, BoxTest::LeftOfMiddle, false);
    assert(keyed(left, keys));
    assert(keyed(right, keys));
    lemma_stable_sorted(left, keys);
    lemma_stable_sorted(right, keys);
    vstd::seq_lib::lemma_multiset_commutative(sorted_yx(boxes, left), sorted_yx(boxes, right));
    lemma_valid_from_multiset(boxes, zone_order(boxes, zone), zone);
}

proof fn lemma_body_walk(boxes: Seq<LayoutBox>, bottoms: Seq<Option<u32>>, gaps: Seq<Vec<bool>>, items: Seq<usize>)
    requires
        valid_list(boxes, items),
    ensures
        body_walk(boxes, bottoms, gaps, items).placed.to_multiset().add(body_walk(boxes, bottoms, gaps, items).zone.to_multiset())
            =~= items.to_multiset(),
        valid_list(boxes, body_walk(boxes, bottoms, gaps, items).zone),
    decreases items.len(),
{
    broadcast use vstd::seq_lib::group_to_multiset_ensures;

    if items.len() > 0 {
        let prev = body_walk(boxes, bottoms, gaps, items.drop_last());
        lemma_body_walk(boxes, bottoms, gaps, items.drop_last());
        lemma_zone_order(boxes, prev.zone);
        vstd::seq_lib::lemma_multiset_commutative(prev.placed, zone_order(boxes, prev.zone));
        vstd::seq_lib::lemma_multiset_commutative(prev.placed + zone_order(boxes, prev.zone), seq![items.last()]);
        assert(items.drop_last().push(items.last()) =~= items);
        assert(items.contains(items.last()));
    }
}

proof fn lemma_body_order(boxes: Seq<LayoutBox>, bottoms: Seq<Option<u32>>, gaps: Seq<Vec<bool>>, body: Seq<usize>)
    requires
        valid_list(boxes, body),
    ensures
        body_order(boxes, bottoms, gaps, body).to_multiset() =~= body.to_multiset(),
        valid_list(boxes, body_order(boxes, bottoms, gaps, body)),
{
    broadcast use vstd::seq_lib::group_to_multiset_ensures;

    let keys = yx_keys(boxes);
    assert(keyed(body, keys));
    lemma_stable_sorted(body, keys);
    let sorted = sorted_yx(boxes, body);
    lemma_body_walk(boxes, bottoms, gaps, sorted);
    let st = body_walk(boxes, bottoms, gaps, sorted);
    lemma_zone_order(boxes, st.zone);
    vstd::seq_lib::lemma_multiset_commutative(st.placed, zone_order(boxes, st.zone));
    lemma_valid_from_multiset(boxes, body_order(boxes, bottoms, gaps, body), body);
}

proof fn lemma_body_walk_prefix(
    boxes: Seq<LayoutBox>,
    bottoms: Seq<Option<u32>>,
    gaps: Seq<Vec<bool>>,
    items: Seq<usize>,
    k: int,
    m: int,
)
    requires
        0 <= k <= m <= items.len(),
    ensures
        body_walk(boxes, bottoms, gaps, items.take(k)).placed.len() <= body_walk(boxes, bottoms, gaps, items.take(m)).placed.len(),
        forall|t: int|
            0 <= t < body_walk(boxes, bottoms, gaps, items.take(k)).placed.len() ==> #[trigger] body_walk(boxes, bottoms, gaps, items.take(m)).placed[t]
                == body_walk(boxes, bottoms, gaps, items.take(k)).placed[t],
    decreases m - k,
{
    if k < m {
        lemma_body_walk_prefix(boxes, bottoms, gaps, items, k, m - 1);
        assert(items.take(m).drop_last() =~= items.take(m - 1));
    }
}

/// A zone separator splits the body: the body boxes above it (earlier in
/// top-to-bottom order) are read before it, and those below it after it.
pub proof fn lemma_separator_splits_body(
    boxes: Seq<LayoutBox>,
    bottoms: Seq<Option<u32>>,
    gaps: Seq<Vec<bool>>,
    body: Seq<usize>,
    p: int,
    q: int,
)
    requires
        valid_list(boxes, body),
        body.no_duplicates(),
        0 <= p < body.len(),
        0 <= q < body.len(),
        p != q,
        boxes[sorted_yx(boxes, body)[p] as int].zone_separator,
    ensures
        exists|a: int, b: int|
            0 <= a < body_order(boxes, bottoms, gaps, body).len() && 0 <= b < body_order(boxes, bottoms, gaps, body).len()
                && body_order(boxes, bottoms, gaps, body)[a] == sorted_yx(boxes, body)[q]
                && body_order(boxes, bottoms, gaps, body)[b] == sorted_yx(boxes, body)[p] && (a < b <==> q < p),
{
    broadcast use vstd::seq_lib::group_to_multiset_ensures;

    let keys = yx_keys(boxes);
    assert(keyed(body, keys));
    lemma_stable_sorted(body, keys);
    let sorted = sorted_yx(boxes, body);
    let n = sorted.len() as int;
    // The sorted body has no duplicates.
    body.lemma_multiset_has_no_duplicates();
    assert forall|v: usize| sorted.to_multiset().contains(v) implies sorted.to_multiset().count(v) == 1 by {
        assert(body.to_multiset().contains(v));
    }
    sorted.lemma_multiset_has_no_duplicates_conv();
    assert(keyed(sorted, keys));
    // After the separator, the boxes placed are exactly those up to it.
    let before = body_walk(boxes, bottoms, gaps, sorted.take(p));
    let after = body_walk(boxes, bottoms, gaps, sorted.take(p + 1));
    assert(sorted.take(p + 1).drop_last() =~= sorted.take(p));
    assert(after.placed == before.placed + zone_order(boxes, before.zone) + seq![sorted[p]]);
    assert(after.zone.len() == 0);
    assert(valid_list(boxes, sorted.take(p + 1)));
    lemma_body_walk(boxes, bottoms, gaps, sorted.take(p + 1));
    assert(after.placed.to_multiset() =~= sorted.take(p + 1).to_multiset());
    let placed = after.placed;
    let last = placed.len() - 1;
    assert(placed[last] == sorted[p]);
    // The final order starts with those boxes.
    assert(valid_list(boxes, sorted));
    lemma_body_walk_prefix(boxes, bottoms, gaps, sorted, p + 1, n);
    assert(sorted.take(n) =~= sorted);
    let st = body_walk(boxes, bottoms, gaps, sorted);
    let fin = body_order(boxes, bottoms, gaps, body);
    assert(fin == st.placed + zone_order(boxes, st.zone));
    assert forall|t: int| 0 <= t < placed.len() implies #[trigger] fin[t] == placed[t] by {
        assert(st.placed[t] == placed[t]);
    }
    lemma_body_order(boxes, bottoms, gaps, body);
    assert(fin.to_multiset() =~= body.to_multiset());
    assert(sorted.contains(sorted[q]));
    assert(fin.contains(sorted[q])) by {
        assert(body.to_multiset().count(sorted[q]) > 0);
    }
    assert(fin[last] == sorted[p]);
    if q < p {
        assert(sorted.take(p + 1)[q] == sorted[q]);
        assert(placed.to_multiset().count(sorted[q]) > 0);
        let a = choose|a: int| 0 <= a < placed.len() && placed[a] == sorted[q];
        assert(a != last);
        assert(fin[a] == sorted[q]);
    } else {
        let a = choose|a: int| 0 <= a < fin.len() && fin[a] == sorted[q];
        if a <= last {
            assert(fin[a] == placed[a]);
            assert(placed.contains(sorted[q]));
            assert(sorted.take(p + 1).to_multiset().count(sorted[q]) > 0);
            let i = choose|i: int| 0 <= i < p + 1 && #[trigger] sorted.take(p + 1)[i] == sorted[q];
            assert(sorted[i] == sorted[q]);
        }
    }
}

/// Where a box is read on its page.
#[derive(Clone, Copy, Debug, PartialEq, Eq, Structural)]
pub enum Region {
    Header,
    Body,
    Footer,
}

/// Page headers (class 5) are read first; page footers (4), footnotes (1)
/// and anything else near the page bottom except titles (10) and section
/// headers (7) last; the rest in the body.
pub open spec fn region_of(b: LayoutBox) -> Region {
    if b.class_id == 5 {
        Region::Header
    } else if b.class_id == 4 || b.class_id == 1 {
        Region::Footer
    } else if b.near_page_bottom && b.class_id != 10 && b.class_id != 7 {
        Region::Footer
    } else {
        Region::Body
    }
}

/// The region of a box.
pub fn region(b: &LayoutBox) -> (r: Region)
    ensures
        r == region_of(*b),
{
    if b.class_id == 5 {
        Region::Header
    } else if b.class_id == 4 || b.class_id == 1 {
        Region::Footer
    } else if b.near_page_bottom && b.class_id != 10 && b.class_id != 7 {
        Region::Footer
    } else {
        Region::Body
    }
}

/// The boxes among the first `n` that belong to region `r`, ascending.
pub open spec fn region_members(boxes: Seq<LayoutBox>, r: Region, n: int) -> Seq<usize>
    decreases n,
{
    if n <= 0 {
        Seq::empty()
    } else if region_of(boxes[n - 1]) == r {
        region_members(boxes, r, n - 1).push((n - 1) as usize)
    } else {
        region_members(boxes, r, n - 1)
    }
}

/// The reading order of a page: headers top to bottom, then the body in
/// zone order, then footers top to bottom.
pub open spec fn reading_sequence(boxes: Seq<LayoutBox>, bottoms: Seq<Option<u32>>, gaps: Seq<Vec<bool>>) -> Seq<usize> {
    let n = boxes.len() as int;
    sorted_yx(boxes, region_members(boxes, Region::Header, n)) + body_order(
        boxes,
        bottoms,
        gaps,
        region_members(boxes, Region::Body, n),
    ) + sorted_yx(boxes, region_members(boxes, Region::Footer, n))
}

/// For each of `n` boxes, its position in `order` (its last position when
/// it occurs more than once, 0 when it does not occur).
pub open spec fn positions(order: Seq<usize>, n: int) -> Seq<usize>
    decreases order.len(),
{
    if order.len() == 0 {
        Seq::new(n as nat, |i: int| 0usize)
    } else {
        positions(order.drop_last(), n).update(order.last() as int, (order.len() - 1) as usize)
    }
}

proof fn lemma_region_members(boxes: Seq<LayoutBox>, r: Region, n: int)
    requires
        0 <= n <= boxes.len(),
        boxes.len() <= usize::MAX,
    ensures
        valid_list(boxes, region_members(boxes, r, n)),
        forall|i: usize| #[trigger] region_members(boxes, r, n).contains(i) <==> (i < n && region_of(boxes[i as int]) == r),
    decreases n,
{
    if n > 0 {
        lemma_region_members(boxes, r, n - 1);
        let prev = region_members(boxes, r, n - 1);
        let cur = region_members(boxes, r, n);
        assert forall|i: usize| #[trigger] cur.contains(i) <==> (i < n && region_of(boxes[i as int]) == r) by {
            if region_of(boxes[n - 1]) == r {
                assert(cur == prev.push((n - 1) as usize));
                if cur.contains(i) {
                    let t = choose|t: int| 0 <= t < cur.len() && cur[t] == i;
                    if t < prev.len() {
                        assert(prev[t] == i);
                        assert(prev.contains(i));
                    }
                }
                if i < n && region_of(boxes[i as int]) == r {
                    if i < n - 1 {
                        assert(prev.contains(i));
                        let t = choose|t: int| 0 <= t < prev.len() && prev[t] == i;
                        assert(cur[t] == i);
                    } else {
                        assert(cur[cur.len() - 1] == i);
                    }
                }
            } else {
                assert(cur == prev);
            }
        }
    }
}

fn members_of_region(boxes: &[LayoutBox], r: Region) -> (members: Vec<usize>)
    ensures
        members@ == region_members(boxes@, r, boxes@.len() as int),
{
    let mut members: Vec<usize> = Vec::new();
    let mut i: usize = 0;
    while i < boxes.len()
        invariant
            i <= boxes@.len(),
            members@ == region_members(boxes@, r, i as int),
        decreases boxes@.len() - i,
    {
        if region(&boxes[i]) == r {
            members.push(i);
        }
        i = i + 1;
    }
    members
}

/// Puts the boxes of a page in reading order. `boxes[i]` describes
/// detection `i`; `bottoms[j]` orders the bottom edges of the boxes (`None`
/// where an edge cannot be compared), with a last entry for the page top;
/// `gaps[i][j]` says that the top of box `i` lies more than the zone gap
/// below bottom `j`. Returns, for each box, its position in the reading
/// order, and the boxes in reading order.
pub fn reading_order(boxes: &[LayoutBox], bottoms: &[Option<u32>], gaps: &Vec<Vec<bool>>) -> (result: (Vec<usize>, Vec<usize>))
    requires
        gap_tables(boxes@, bottoms@, gaps@),
    ensures
        result.1@ == reading_sequence(boxes@, bottoms@, gaps@),
        result.0@ == positions(result.1@, boxes@.len() as int),
{
    let n = boxes.len();
    let yx_table = yx_key_table(boxes);
    let width_table = width_key_table(boxes);
    let headers = members_of_region(boxes, Region::Header);
    let body = members_of_region(boxes, Region::Body);
    let footers = members_of_region(boxes, Region::Footer);
    proof {
        lemma_region_members(boxes@, Region::Header, n as int);
        lemma_region_members(boxes@, Region::Body, n as int);
        lemma_region_members(boxes@, Region::Footer, n as int);
        lemma_stable_sorted(headers@, yx_table@);
        lemma_stable_sorted(footers@, yx_table@);
        lemma_body_order(boxes@, bottoms@, gaps@, body@);
    }
    let mut ordered = stable_sort_by_key(&headers, &yx_table);
    let mut middle = order_body(boxes, &yx_table, &width_table, bottoms, gaps, &body);
    let mut tail = stable_sort_by_key(&footers, &yx_table);
    ordered.append(&mut middle);
    ordered.append(&mut tail);
    let mut order_by_box: Vec<usize> = Vec::new();
    let mut i: usize = 0;
    while i < n
        invariant
            i <= n,
            order_by_box@ =~= Seq::new(i as nat, |j: int| 0usize),
        decreases n - i,
    {
        order_by_box.push(0);
        i = i + 1;
    }
    let mut k: usize = 0;
    while k < ordered.len()
        invariant
            k <= ordered@.len(),
            n == boxes@.len(),
            ordered@ == reading_sequence(boxes@, bottoms@, gaps@),
            valid_list(boxes@, ordered@),
            order_by_box@ == positions(ordered@.take(k as int), n as int),
            order_by_box@.len() == n,
        decreases ordered@.len() - k,
    {
        proof {
            assert(ordered@.take(k + 1).drop_last() =~= ordered@.take(k as int));
        }
        let b = ordered[k];
        order_by_box.set(b, k);
        k = k + 1;
    }
    assert(ordered@.take(k as int) =~= ordered@);
    (order_by_box, ordered)
}


/// The rank of a region in reading order.
pub open spec fn region_rank(r: Region) -> int {
    match r {
        Region::Header => 0,
        Region::Body => 1,
        Region::Footer => 2,
    }
}

/// The boxes `0..n`.
pub open spec fn all_boxes(n: int) -> Seq<usize> {
    Seq::new(n as nat, |i: int| i as usize)
}

proof fn lemma_regions_partition(boxes: Seq<LayoutBox>, n: int)
    requires
        0 <= n <= boxes.len(),
        boxes.len() <= usize::MAX,
    ensures
        region_members(boxes, Region::Header, n).to_multiset().add(region_members(boxes, Region::Body, n).to_multiset()).add(
            region_members(boxes, Region::Footer, n).to_multiset(),
        ) =~= all_boxes(n).to_multiset(),
    decreases n,
{
    broadcast use vstd::seq_lib::group_to_multiset_ensures;

    if n > 0 {
        lemma_regions_partition(boxes, n - 1);
        assert(all_boxes(n - 1).push((n - 1) as usize) =~= all_boxes(n));
    }
}

proof fn lemma_positions(order: Seq<usize>, n: int)
    requires
        order.no_duplicates(),
        forall|k: int| 0 <= k < order.len() ==> (#[trigger] order[k]) < n,
        n >= 0,
        order.len() <= usize::MAX,
    ensures
        positions(order, n).len() == n,
        forall|k: int| 0 <= k < order.len() ==> positions(order, n)[#[trigger] order[k] as int] == k,
    decreases order.len(),
{
    if order.len() > 0 {
        lemma_positions(order.drop_last(), n);
        let prev = positions(order.drop_last(), n);
        assert forall|k: int| 0 <= k < order.len() implies positions(order, n)[#[trigger] order[k] as int] == k by {
            assert(order.last() < n);
            assert(prev.len() == n);
            if k < order.len() - 1 {
                assert(order.drop_last()[k] == order[k]);
                assert(order[k] != order[order.len() - 1]);
                assert(prev[order.drop_last()[k] as int] == k);
            }
        }
    }
}

/// What the reading order promises: every box of the page is read exactly
/// once; each box's recorded position is where it is read; page headers
/// come before the body and the body before the footers; and headers, like
/// footers, are read top to bottom, then left to right.
pub proof fn lemma_reading_order_laws(boxes: Seq<LayoutBox>, bottoms: Seq<Option<u32>>, gaps: Seq<Vec<bool>>)
    requires
        boxes.len() <= usize::MAX,
    ensures
        ({
            let order = reading_sequence(boxes, bottoms, gaps);
            let pos = positions(order, boxes.len() as int);
            &&& order.len() == boxes.len()
            &&& order.no_duplicates()
            &&& forall|k: int| 0 <= k < order.len() ==> (#[trigger] order[k]) < boxes.len()
            &&& forall|i: usize| i < boxes.len() ==> #[trigger] order.contains(i)
            &&& pos.len() == boxes.len()
            &&& forall|k: int| 0 <= k < order.len() ==> pos[#[trigger] order[k] as int] == k
            &&& forall|i: int| 0 <= i < boxes.len() ==> order[#[trigger] pos[i] as int] == i
            &&& forall|a: int, b: int|
                0 <= a < b < order.len() ==> region_rank(region_of(boxes[#[trigger] order[a] as int])) <= region_rank(
                    region_of(boxes[#[trigger] order[b] as int]),
                )
            &&& forall|a: int, b: int|
                0 <= a < b < order.len() && region_of(boxes[#[trigger] order[a] as int]) != Region::Body && region_of(
                    boxes[order[a] as int],
                ) == region_of(boxes[#[trigger] order[b] as int]) ==> yx_key(boxes[order[a] as int]) <= yx_key(boxes[order[b] as int])
        }),
{
    broadcast use vstd::seq_lib::group_to_multiset_ensures;

    let n = boxes.len() as int;
    let keys = yx_keys(boxes);
    let h = region_members(boxes, Region::Header, n);
    let bd = region_members(boxes, Region::Body, n);
    let f = region_members(boxes, Region::Footer, n);
    lemma_region_members(boxes, Region::Header, n);
    lemma_region_members(boxes, Region::Body, n);
    lemma_region_members(boxes, Region::Footer, n);
    lemma_regions_partition(boxes, n);
    assert(keyed(h, keys));
    assert(keyed(f, keys));
    lemma_stable_sorted(h, keys);
    lemma_stable_sorted(f, keys);
    lemma_body_order(boxes, bottoms, gaps, bd);
    let sh = sorted_yx(boxes, h);
    let sb = body_order(boxes, bottoms, gaps, bd);
    let sf = sorted_yx(boxes, f);
    let order = reading_sequence(boxes, bottoms, gaps);
    assert(order == sh + sb + sf);
    vstd::seq_lib::lemma_multiset_commutative(sh, sb);
    vstd::seq_lib::lemma_multiset_commutative(sh + sb, sf);
    let all = all_boxes(n);
    assert(order.to_multiset() =~= all.to_multiset());
    assert(all.no_duplicates());
    all.lemma_multiset_has_no_duplicates();
    assert forall|x: usize| order.to_multiset().contains(x) implies order.to_multiset().count(x) == 1 by {
        assert(all.to_multiset().contains(x));
    }
    order.lemma_multiset_has_no_duplicates_conv();
    assert(order.len() == all.len()) by {
        assert(order.to_multiset().len() == all.to_multiset().len());
    }
    assert forall|k: int| 0 <= k < order.len() implies (#[trigger] order[k]) < boxes.len() by {
        assert(order.contains(order[k]));
        assert(all.to_multiset().count(order[k]) > 0);
        assert(all.contains(order[k]));
    }
    assert forall|i: usize| i < boxes.len() implies #[trigger] order.contains(i) by {
        assert(all[i as int] == i);
        assert(all.contains(i));
        assert(order.to_multiset().count(i) > 0);
    }
    lemma_positions(order, n);
    let pos = positions(order, n);
    assert forall|i: int| 0 <= i < boxes.len() implies order[#[trigger] pos[i] as int] == i by {
        assert(order.contains(i as usize));
        let k = choose|k: int| 0 <= k < order.len() && order[k] == i as usize;
        assert(pos[order[k] as int] == k);
    }
    // Each part of the order holds only boxes of its region.
    assert forall|k: int| 0 <= k < sh.len() implies region_of(boxes[#[trigger] sh[k] as int]) == Region::Header by {
        assert(sh.contains(sh[k]));
        assert(h.to_multiset().count(sh[k]) > 0);
        assert(h.contains(sh[k]));
    }
    assert forall|k: int| 0 <= k < sb.len() implies region_of(boxes[#[trigger] sb[k] as int]) == Region::Body by {
        assert(sb.contains(sb[k]));
        assert(bd.to_multiset().count(sb[k]) > 0);
        assert(bd.contains(sb[k]));
    }
    assert forall|k: int| 0 <= k < sf.len() implies region_of(boxes[#[trigger] sf[k] as int]) == Region::Footer by {
        assert(sf.contains(sf[k]));
        assert(f.to_multiset().count(sf[k]) > 0);
        assert(f.contains(sf[k]));
    }
    assert forall|k: int| 0 <= k < order.len() implies region_rank(region_of(boxes[#[trigger] order[k] as int])) == (
        if k < sh.len() {
            0int
        } else if k < sh.len() + sb.len() {
            1int
        } else {
            2int
        }) by {
        if k < sh.len() {
            assert(order[k] == sh[k]);
        } else if k < sh.len() + sb.len() {
            assert(order[k] == sb[k - sh.len()]);
        } else {
            assert(order[k] == sf[k - sh.len() - sb.len()]);
        }
    }
    assert forall|a: int, b: int|
        0 <= a < b < order.len() && region_of(boxes[#[trigger] order[a] as int]) != Region::Body && region_of(
            boxes[order[a] as int],
        ) == region_of(boxes[#[trigger] order[b] as int]) implies yx_key(boxes[order[a] as int]) <= yx_key(boxes[order[b] as int]) by {
        let ra = region_rank(region_of(boxes[order[a] as int]));
        if a < sh.len() {
            assert(b < sh.len());
            assert(order[a] == sh[a] && order[b] == sh[b]);
            assert(keys[sh[a] as int] <= keys[sh[b] as int]);
        } else {
            assert(a >= sh.len() + sb.len());
            assert(order[a] == sf[a - sh.len() - sb.len()] && order[b] == sf[b - sh.len() - sb.len()]);
            assert(keys[sf[a - sh.len() - sb.len()] as int] <= keys[sf[b - sh.len() - sb.len()] as int]);
        }
    }
}

} // verus!
