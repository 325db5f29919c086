use vstd::prelude::*;

use crate::markdown::{push_char, trim_str, trimmed};
use crate::layout::{gap_tables, positions, reading_order, reading_sequence, LayoutBox, lemma_reading_order_laws};
use crate::sort::{keyed, lemma_stable_sorted, lemma_stable_sorted_keeps_ties, stable_sort_by_key, stable_sorted};

verus! {

/// A line of text on the page: its text, a key that orders lines top to
/// bottom and then left to right, and the layout box it belongs to (the
/// smallest box that contains its centre), if any.
pub struct TextLine {
    pub text: String,
    pub yx_key: u64,
    pub best_box: Option<usize>,
}

/// One region of the page with the text gathered into it.
pub struct Paragraph {
    /// The detected layout class of the region.
    pub class_id: i32,
    /// The region's position in the reading order.
    pub order_index: usize,
    /// The detection the region comes from.
    pub box_index: usize,
    /// The region's lines, top to bottom, joined by single spaces.
    pub text: String,
}

/// The characters that are present, in order.
pub open spec fn present_chars(chars: Seq<Option<char>>) -> Seq<char>
    decreases chars.len(),
{
    if chars.len() == 0 {
        Seq::empty()
    } else {
        let rest = present_chars(chars.drop_last());
        match chars.last() {
            Some(c) => rest.push(c),
            None => rest,
        }
    }
}

/// Reading a line keeps every present character, whatever character it is,
/// and nothing else, in order: a lone present character gives exactly that
/// character, a glyph without a character gives nothing, and two runs of
/// glyphs give the characters of the first run followed by those of the
/// second. So the result has one character per present entry, in order.
pub proof fn lemma_present_chars_laws(a: Seq<Option<char>>, b: Seq<Option<char>>, c: char)
    ensures
        present_chars(seq![Some(c)]) == seq![c],
        present_chars(seq![None::<char>]) == Seq::<char>::empty(),
        present_chars(a + b) == present_chars(a) + present_chars(b),
        present_chars(a).len() <= a.len(),
    decreases b.len(),
{
    assert(seq![Some(c)].drop_last() =~= Seq::<Option<char>>::empty());
    assert(seq![None::<char>].drop_last() =~= Seq::<Option<char>>::empty());
    assert(present_chars(Seq::<Option<char>>::empty()) == Seq::<char>::empty());
    assert(seq![c] =~= Seq::<char>::empty().push(c));
    if b.len() > 0 {
        lemma_present_chars_laws(a, b.drop_last(), c);
        assert((a + b).drop_last() =~= a + b.drop_last());
        assert((a + b).last() == b.last());
    } else {
        assert(a + b =~= a);
        assert(present_chars(a) + present_chars(b) =~= present_chars(a));
    }
    lemma_present_chars_len(a);
}

proof fn lemma_present_chars_len(a: Seq<Option<char>>)
    ensures
        present_chars(a).len() <= a.len(),
    decreases a.len(),
{
    if a.len() > 0 {
        lemma_present_chars_len(a.drop_last());
    }
}

/// The text of a line of the page from its characters (`None` for a glyph
/// without a character): the present characters, trimmed; `None` when
/// nothing is left.
pub fn line_text(chars: &[Option<char>]) -> (text: Option<String>)
    ensures
        match text {
            Some(t) => t@ == trimmed(present_chars(chars@)) && t@.len() > 0,
            None => trimmed(present_chars(chars@)).len() == 0,
        },
{
    let mut all = String::new();
    let mut i: usize = 0;
    while i < chars.len()
        invariant
            i <= chars@.len(),
            all@ == present_chars(chars@.take(i as int)),
        decreases chars@.len() - i,
    {
        proof {
            assert(chars@.take(i + 1).drop_last() =~= chars@.take(i as int));
        }
        match chars[i] {
            Some(c) => push_char(&mut all, c),
            None => {},
        }
        i = i + 1;
    }
    assert(chars@.take(i as int) =~= chars@);
    let t = trim_str(all.as_str());
    if t.is_empty() {
        None
    } else {
        Some(t.to_owned())
    }
}

/// Whether box `i` is a candidate for a line (its centre lies in the box)
/// with an area key smaller than every earlier candidate's and not larger
/// than any later candidate's: the first box of smallest area.
pub open spec fn is_best_box(inside: Seq<bool>, area_keys: Seq<u32>, i: int) -> bool {
    &&& 0 <= i < inside.len()
    &&& inside[i]
    &&& forall|j: int| 0 <= j < i && inside[j] ==> area_keys[j] > area_keys[i]
    &&& forall|j: int| i < j < inside.len() && inside[j] ==> area_keys[j] >= area_keys[i]
}

/// The box a line belongs to: among the boxes that contain the line's
/// centre (`inside`), the first one of smallest area (`area_keys` orders
/// areas); `None` when no box contains it.
pub fn best_box_for_line(inside: &[bool], area_keys: &[u32]) -> (best: Option<usize>)
    requires
        inside@.len() == area_keys@.len(),
    ensures
        match best {
            Some(i) => is_best_box(inside@, area_keys@, i as int),
            None => forall|j: int| 0 <= j < inside@.len() ==> !inside@[j],
        },
{
    let mut best: Option<usize> = None;
    let mut i: usize = 0;
    while i < inside.len()
        invariant
            i <= inside@.len(),
            inside@.len() == area_keys@.len(),
            match best {
                Some(b) => {
                    &&& b < i
                    &&& inside@[b as int]
                    &&& forall|j: int| 0 <= j < b && inside@[j] ==> area_keys@[j] > area_keys@[b as int]
                    &&& forall|j: int| b < j < i && inside@[j] ==> area_keys@[j] >= area_keys@[b as int]
                },
                None => forall|j: int| 0 <= j < i ==> !inside@[j],
            },
        decreases inside@.len() - i,
    {
        if inside[i] {
            match best {
                None => {
                    best = Some(i);
                },
                Some(b) => {
                    if area_keys[i] < area_keys[b] {
                        best = Some(i);
                    }
                },
            }
        }
        i = i + 1;
    }
    best
}

/// Texts joined by single spaces.
pub open spec fn joined(parts: Seq<Seq<char>>) -> Seq<char>
    decreases parts.len(),
{
    if parts.len() == 0 {
        Seq::empty()
    } else if parts.len() == 1 {
        parts[0]
    } else {
        joined(parts.drop_last()) + " "@ + parts.last()
    }
}

/// Joining puts exactly one space between neighbouring texts: a single text
/// is itself, and joining two nonempty runs of texts gives the first run's
/// join, a space, and the second run's join.
pub proof fn lemma_joined_laws(a: Seq<Seq<char>>, b: Seq<Seq<char>>, p: Seq<char>)
    ensures
        joined(seq![p]) == p,
        joined(Seq::<Seq<char>>::empty()) == Seq::<char>::empty(),
        a.len() > 0 && b.len() > 0 ==> joined(a + b) == joined(a) + " "@ + joined(b),
    decreases b.len(),
{
    assert(seq![p][0] == p);
    if a.len() > 0 && b.len() > 1 {
        lemma_joined_laws(a, b.drop_last(), p);
        assert((a + b).drop_last() =~= a + b.drop_last());
        assert((a + b).last() == b.last());
        assert(joined(a) + " "@ + joined(b) =~= (joined(a) + " "@ + joined(b.drop_last())) + " "@ + b.last());
    } else if a.len() > 0 && b.len() == 1 {
        assert((a + b).drop_last() =~= a);
        assert((a + b).last() == b[0]);
    }
}

/// The lines among the first `n` that belong to box `b`, ascending.
pub open spec fn lines_of_box(lines: Seq<TextLine>, b: usize, n: int) -> Seq<usize>
    decreases n,
{
    if n <= 0 {
        Seq::empty()
    } else if lines[n - 1].best_box == Some(b) {
        lines_of_box(lines, b, n - 1).push((n - 1) as usize)
    } else {
        lines_of_box(lines, b, n - 1)
    }
}

/// The position key of every line.
pub open spec fn line_keys(lines: Seq<TextLine>) -> Seq<u64> {
    Seq::new(lines.len(), |i: int| lines[i].yx_key)
}

/// The text of box `b`: its lines top to bottom, then left to right (ties
/// in line order), joined by single spaces.
pub open spec fn box_text(lines: Seq<TextLine>, b: usize) -> Seq<char> {
    let order = stable_sorted(lines_of_box(lines, b, lines.len() as int), line_keys(lines));
    joined(Seq::new(order.len(), |k: int| lines[order[k] as int].text@))
}


fn line_key_table(lines: &[TextLine]) -> (keys: Vec<u64>)
    ensures
        keys@ == line_keys(lines@),
{
    let mut keys: Vec<u64> = Vec::new();
    let mut i: usize = 0;
    while i < lines.len()
        invariant
            i <= lines@.len(),
            keys@ =~= line_keys(lines@).take(i as int),
        decreases lines@.len() - i,
    {
        keys.push(lines[i].yx_key);
        i = i + 1;
    }
    keys
}

proof fn lemma_lines_of_box(lines: Seq<TextLine>, b: usize, n: int)
    requires
        0 <= n <= lines.len(),
        lines.len() <= usize::MAX,
    ensures
        forall|i: int| 0 <= i < lines_of_box(lines, b, n).len() ==> (#[trigger] lines_of_box(lines, b, n)[i]) < n,
    decreases n,
{
    if n > 0 {
        lemma_lines_of_box(lines, b, n - 1);
        let prev = lines_of_box(lines, b, n - 1);
        let cur = lines_of_box(lines, b, n);
        assert forall|i: int| 0 <= i < cur.len() implies (#[trigger] cur[i]) < n by {
            if i < prev.len() {
                assert(cur[i] == prev[i]);
            }
        }
    }
}

proof fn lemma_lines_of_box_contents(lines: Seq<TextLine>, b: usize, n: int)
    requires
        0 <= n <= lines.len(),
        lines.len() <= usize::MAX,
    ensures
        forall|i: int, j: int|
            0 <= i < j < lines_of_box(lines, b, n).len() ==> #[trigger] lines_of_box(lines, b, n)[i] < #[trigger] lines_of_box(lines, b, n)[j],
        forall|i: usize| #[trigger] lines_of_box(lines, b, n).contains(i) <==> (i < n && lines[i as int].best_box == Some(b)),
    decreases n,
{
    if n > 0 {
        lemma_lines_of_box_contents(lines, b, n - 1);
        lemma_lines_of_box(lines, b, n - 1);
        let prev = lines_of_box(lines, b, n - 1);
        let cur = lines_of_box(lines, b, n);
        if lines[n - 1].best_box == Some(b) {
            assert(cur == prev.push((n - 1) as usize));
            assert forall|i: int, j: int| 0 <= i < j < cur.len() implies #[trigger] cur[i] < #[trigger] cur[j] by {
                assert(cur[i] == prev[i]);
                if j < prev.len() {
                    assert(cur[j] == prev[j]);
                }
            }
            assert forall|i: usize| #[trigger] cur.contains(i) <==> (i < n && lines[i as int].best_box == Some(b)) by {
                if cur.contains(i) {
                    let t = choose|t: int| 0 <= t < cur.len() && cur[t] == i;
                    if t < prev.len() {
                        assert(prev[t] == i);
                        assert(prev.contains(i));
                    }
                }
                if i < n && lines[i as int].best_box == Some(b) {
                    if i < n - 1 {
                        assert(prev.contains(i));
                        let t = choose|t: int| 0 <= t < prev.len() && prev[t] == i;
                        assert(cur[t] == i);
                    } else {
                        assert(cur[cur.len() - 1] == i);
                    }
                }
            }
        } else {
            assert forall|i: usize| #[trigger] cur.contains(i) <==> (i < n && lines[i as int].best_box == Some(b)) by {
                if i < n && lines[i as int].best_box == Some(b) {
                    assert(i < n - 1);
                }
            }
        }
    }
}

/// The text of a region is made of exactly the lines assigned to it: it is
/// the texts, joined by single spaces, of an arrangement of line indices that
/// holds every line whose best box is `b` exactly once and no other line,
/// ordered top to bottom and then left to right by position key, lines with
/// equal keys in page order.
pub proof fn lemma_box_text_gathers_its_lines(lines: Seq<TextLine>, b: usize) -> (order: Seq<usize>)
    requires
        lines.len() <= usize::MAX,
    ensures
        order.no_duplicates(),
        forall|i: usize| #[trigger] order.contains(i) <==> (i < lines.len() && lines[i as int].best_box == Some(b)),
        forall|i: int, j: int|
            0 <= i < j < order.len() ==> lines[#[trigger] order[i] as int].yx_key <= lines[#[trigger] order[j] as int].yx_key,
        forall|i: int, j: int|
            0 <= i < j < order.len() && lines[#[trigger] order[i] as int].yx_key == lines[#[trigger] order[j] as int].yx_key
                ==> order[i] < order[j],
        box_text(lines, b) == joined(Seq::new(order.len(), |k: int| lines[order[k] as int].text@)),
{
    broadcast use vstd::seq_lib::group_to_multiset_ensures;

    let n = lines.len() as int;
    let keys = line_keys(lines);
    let members = lines_of_box(lines, b, n);
    lemma_lines_of_box(lines, b, n);
    lemma_lines_of_box_contents(lines, b, n);
    assert(keyed(members, keys));
    lemma_stable_sorted(members, keys);
    let order = stable_sorted(members, keys);
    assert(members.no_duplicates());
    members.lemma_multiset_has_no_duplicates();
    assert forall|v: usize| order.to_multiset().contains(v) implies order.to_multiset().count(v) == 1 by {
        assert(members.to_multiset().contains(v));
    }
    order.lemma_multiset_has_no_duplicates_conv();
    assert forall|i: usize| #[trigger] order.contains(i) <==> members.contains(i) by {
        assert(order.to_multiset().count(i) == members.to_multiset().count(i));
    }
    assert forall|i: int, j: int| 0 <= i < j < order.len() implies lines[#[trigger] order[i] as int].yx_key <= lines[#[trigger] order[j] as int].yx_key by {
        assert(keys[order[i] as int] <= keys[order[j] as int]);
    }
    lemma_stable_sorted_keeps_ties(members, keys);
    assert forall|i: int, j: int|
        0 <= i < j < order.len() && lines[#[trigger] order[i] as int].yx_key == lines[#[trigger] order[j] as int].yx_key
            implies order[i] < order[j] by {
        assert(order[i] != order[j]);
        if order[j] < order[i] {
            assert(order.contains(order[i]));
            assert(order.contains(order[j]));
            let pa = choose|p: int| 0 <= p < members.len() && members[p] == order[j];
            let pb = choose|p: int| 0 <= p < members.len() && members[p] == order[i];
            if pb < pa {
                assert(members[pb] < members[pa]);
            }
            assert(pa < pb);
            assert(keys[members[pa] as int] == keys[members[pb] as int]);
            let (i2, j2) = choose|i2: int, j2: int| 0 <= i2 < j2 < members.len() && order[i2] == members[pa] && order[j2] == members[pb];
            assert(order[i2] == order[j]);
            assert(order[j2] == order[i]);
            assert(i2 == j && j2 == i);
        }
    }
    order
}

fn box_text_of(lines: &[TextLine], key_table: &Vec<u64>, b: usize) -> (text: String)
    requires
        key_table@ == line_keys(lines@),
    ensures
        text@ == box_text(lines@, b),
{
    let mut members: Vec<usize> = Vec::new();
    let mut i: usize = 0;
    while i < lines.len()
        invariant
            i <= lines@.len(),
            members@ == lines_of_box(lines@, b, i as int),
        decreases lines@.len() - i,
    {
        if lines[i].best_box == Some(b) {
            members.push(i);
        }
        i = i + 1;
    }
    proof {
        lemma_lines_of_box(lines@, b, lines@.len() as int);
        assert(keyed(members@, key_table@));
        lemma_stable_sorted(members@, key_table@);
    }
    let order = stable_sort_by_key(&members, key_table);
    let ghost parts = Seq::new(order@.len(), |k: int| lines@[order@[k] as int].text@);
    let mut text = String::new();
    let mut k: usize = 0;
    while k < order.len()
        invariant
            k <= order@.len(),
            parts == Seq::new(order@.len(), |t: int| lines@[order@[t] as int].text@),
            forall|t: int| 0 <= t < order@.len() ==> (#[trigger] order@[t]) < lines@.len(),
            text@ == joined(parts.take(k as int)),
        decreases order@.len() - k,
    {
        proof {
            assert(parts.take(k + 1).drop_last() =~= parts.take(k as int));
        }
        if k > 0 {
            text.append(" ");
        } else {
            assert(parts.take(1) =~= seq![parts[0]]);
            assert(joined(Seq::<Seq<char>>::empty()) =~= Seq::<char>::empty());
        }
        text.append(lines[order[k]].text.as_str());
        k = k + 1;
    }
    assert(parts.take(k as int) =~= parts);
    text
}

/// Gathers the text lines of a page into its layout regions and puts the
/// regions in reading order (see `reading_order`): the `k`-th paragraph is
/// the `k`-th box read, with that box's lines as its text.
pub fn build_paragraphs(
    boxes: &[LayoutBox],
    bottoms: &[Option<u32>],
    gaps: &Vec<Vec<bool>>,
    lines: &[TextLine],
) -> (paragraphs: Vec<Paragraph>)
    requires
        gap_tables(boxes@, bottoms@, gaps@),
    ensures
        paragraphs@.len() == boxes@.len(),
        forall|k: int|
            0 <= k < paragraphs@.len() ==> {
                let b = reading_sequence(boxes@, bottoms@, gaps@)[k];
                &&& (#[trigger] paragraphs@[k]).box_index == b
                &&& paragraphs@[k].class_id == boxes@[b as int].class_id
                &&& paragraphs@[k].order_index == k
                &&& paragraphs@[k].text@ == box_text(lines@, b)
            },
{
    let (order_by_box, ordered_boxes) = reading_order(boxes, bottoms, gaps);
    let n = boxes.len();
    proof {
        lemma_reading_order_laws(boxes@, bottoms@, gaps@);
    }
    let key_table = line_key_table(lines);
    let mut paragraphs: Vec<Paragraph> = Vec::new();
    let mut k: usize = 0;
    while k < ordered_boxes.len()
        invariant
            k <= ordered_boxes@.len(),
            ordered_boxes@ == reading_sequence(boxes@, bottoms@, gaps@),
            ordered_boxes@.len() == boxes@.len(),
            order_by_box@ == positions(ordered_boxes@, boxes@.len() as int),
            order_by_box@.len() == boxes@.len(),
            forall|t: int| 0 <= t < ordered_boxes@.len() ==> (#[trigger] ordered_boxes@[t]) < boxes@.len(),
            forall|t: int| 0 <= t < ordered_boxes@.len() ==> order_by_box@[#[trigger] ordered_boxes@[t] as int] == t,
            key_table@ == line_keys(lines@),
            paragraphs@.len() == k,
            forall|t: int|
                0 <= t < k ==> {
                    let b = ordered_boxes@[t];
                    &&& (#[trigger] paragraphs@[t]).box_index == b
                    &&& paragraphs@[t].class_id == boxes@[b as int].class_id
                    &&& paragraphs@[t].order_index == t
                    &&& paragraphs@[t].text@ == box_text(lines@, b)
                },
        decreases ordered_boxes@.len() - k,
    {
        let b = ordered_boxes[k];
        let text = box_text_of(lines, &key_table, b);
        paragraphs.push(Paragraph { class_id: boxes[b].class_id, order_index: order_by_box[b], box_index: b, text });
        k = k + 1;
    }
    paragraphs
}


proof fn lemma_joined_no_newline(parts: Seq<Seq<char>>)
    requires
        forall|i: int| 0 <= i < parts.len() ==> !(#[trigger] parts[i]).contains('\n'),
    ensures
        !joined(parts).contains('\n'),
    decreases parts.len(),
{
    if parts.len() > 1 {
        lemma_joined_no_newline(parts.drop_last());
        let a = joined(parts.drop_last());
        let b = parts.last();
        reveal_strlit(" ");
        assert(parts[parts.len() - 1] == b);
        if joined(parts).contains('\n') {
            let k = choose|k: int| 0 <= k < joined(parts).len() && joined(parts)[k] == '\n';
            if k < a.len() {
                assert(a[k] == '\n');
                assert(a.contains('\n'));
            } else if k == a.len() {
                assert(joined(parts)[k] == ' ');
            } else {
                assert(b[k - a.len() - 1] == '\n');
                assert(b.contains('\n'));
            }
        }
    } else if parts.len() == 1 {
        assert(parts[0] == joined(parts));
    }
}

/// A paragraph keeps its lines on one line: when no line of the page holds
/// a line break, no paragraph text holds one either.
pub proof fn lemma_paragraph_single_line(lines: Seq<TextLine>, b: usize)
    requires
        forall|i: int| 0 <= i < lines.len() ==> !(#[trigger] lines[i]).text@.contains('\n'),
        lines.len() <= usize::MAX,
    ensures
        !box_text(lines, b).contains('\n'),
{
    let members = lines_of_box(lines, b, lines.len() as int);
    lemma_lines_of_box(lines, b, lines.len() as int);
    assert(keyed(members, line_keys(lines)));
    lemma_stable_sorted(members, line_keys(lines));
    let order = stable_sorted(members, line_keys(lines));
    let parts = Seq::new(order.len(), |k: int| lines[order[k] as int].text@);
    assert forall|i: int| 0 <= i < parts.len() implies !(#[trigger] parts[i]).contains('\n') by {
        assert(order[i] < lines.len());
        assert(!lines[order[i] as int].text@.contains('\n'));
    }
    lemma_joined_no_newline(parts);
}

} // verus!
