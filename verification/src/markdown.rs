use vstd::prelude::*;

verus! {

/// Whether `c` has the Unicode `White_Space` property: the characters that
/// `str::trim` removes from both ends of a string.
pub open spec fn is_white_space(c: char) -> bool {
    let u = c as u32;
    ||| 0x09 <= u <= 0x0D
    ||| u == 0x20
    ||| u == 0x85
    ||| u == 0xA0
    ||| u == 0x1680
    ||| 0x2000 <= u <= 0x200A
    ||| u == 0x2028
    ||| u == 0x2029
    ||| u == 0x202F
    ||| u == 0x205F
    ||| u == 0x3000
}

/// The number of whitespace characters at the start of `s`.
pub open spec fn leading_white(s: Seq<char>) -> nat
    decreases s.len(),
{
    if s.len() > 0 && is_white_space(s[0]) {
        1 + leading_white(s.drop_first())
    } else {
        0
    }
}

/// The number of whitespace characters at the end of `s`.
pub open spec fn trailing_white(s: Seq<char>) -> nat
    decreases s.len(),
{
    if s.len() > 0 && is_white_space(s.last()) {
        1 + trailing_white(s.drop_last())
    } else {
        0
    }
}

/// `s` without its leading and its trailing whitespace.
pub open spec fn trimmed(s: Seq<char>) -> Seq<char> {
    let t = s.skip(leading_white(s) as int);
    t.take(t.len() - trailing_white(t))
}

/// `str::trim`, which std documents as removing leading and trailing
/// characters of the Unicode `White_Space` property. Claimed: the result is
/// `trimmed` of the argument.
#[verifier::external_body]
pub(crate) fn trim_str(s: &str) -> (t: &str)
    ensures
        t@ == trimmed(s@),
{
    s.trim()
}

/// Trimmed text is a stretch of the original that neither starts nor ends
/// with whitespace, and only whitespace was cut off on either side.
pub proof fn lemma_trimmed_laws(s: Seq<char>)
    ensures
        ({
            let t = trimmed(s);
            let a = leading_white(s) as int;
            &&& a + t.len() <= s.len()
            &&& t =~= s.subrange(a, a + t.len())
            &&& t.len() > 0 ==> !is_white_space(t[0]) && !is_white_space(t.last())
            &&& forall|i: int| 0 <= i < a ==> is_white_space(#[trigger] s[i])
            &&& forall|i: int| a + t.len() <= i < s.len() ==> is_white_space(#[trigger] s[i])
        }),
{
    lemma_leading_white(s);
    let a = leading_white(s) as int;
    let u = s.skip(a);
    lemma_trailing_white(u);
    let t = trimmed(s);
    assert(t =~= u.take(u.len() - trailing_white(u)));
    assert(t =~= s.subrange(a, a + t.len()));
    assert forall|i: int| a + t.len() <= i < s.len() implies is_white_space(#[trigger] s[i]) by {
        assert(s[i] == u[i - a]);
    }
    if t.len() > 0 {
        assert(t[0] == s[a]);
        assert(t.last() == u[u.len() - trailing_white(u) - 1]);
    }
}

proof fn lemma_leading_white(s: Seq<char>)
    ensures
        leading_white(s) <= s.len(),
        forall|i: int| 0 <= i < leading_white(s) ==> is_white_space(#[trigger] s[i]),
        leading_white(s) < s.len() ==> !is_white_space(s[leading_white(s) as int]),
    decreases s.len(),
{
    if s.len() > 0 && is_white_space(s[0]) {
        let r = s.drop_first();
        lemma_leading_white(r);
        assert forall|i: int| 0 <= i < leading_white(s) implies is_white_space(#[trigger] s[i]) by {
            if i > 0 {
                assert(s[i] == r[i - 1]);
            }
        }
    }
}

proof fn lemma_trailing_white(s: Seq<char>)
    ensures
        trailing_white(s) <= s.len(),
        forall|i: int| s.len() - trailing_white(s) <= i < s.len() ==> is_white_space(#[trigger] s[i]),
        trailing_white(s) < s.len() ==> !is_white_space(s[s.len() - trailing_white(s) - 1]),
    decreases s.len(),
{
    if s.len() > 0 && is_white_space(s.last()) {
        let r = s.drop_last();
        lemma_trailing_white(r);
        assert forall|i: int| s.len() - trailing_white(s) <= i < s.len() implies is_white_space(#[trigger] s[i]) by {
            if i < s.len() - 1 {
                assert(s[i] == r[i]);
            }
        }
    }
}

/// `s` with every occurrence of the character `from` replaced by `to`.
pub open spec fn replaced(s: Seq<char>, from: char, to: Seq<char>) -> Seq<char>
    decreases s.len(),
{
    if s.len() == 0 {
        Seq::empty()
    } else {
        replaced(s.drop_last(), from, to) + (if s.last() == from {
            to
        } else {
            seq![s.last()]
        })
    }
}

/// `s` with every occurrence of the character `from` replaced by `to`, as
/// `str::replace` does with a character pattern.
fn replace_char(s: &str, from: char, to: &str) -> (r: String)
    ensures
        r@ == replaced(s@, from, to@),
{
    let mut r = String::new();
    let ghost text = s@;
    for c in it: s.chars()
        invariant
            it.seq() == text,
            r@ == replaced(text.take(it.index() as int), from, to@),
    {
        proof {
            assert(text.take(it.index() + 1).drop_last() =~= text.take(it.index() as int));
        }
        if c == from {
            r.append(to);
        } else {
            push_char(&mut r, c);
            assert(r@ =~= replaced(text.take(it.index() + 1), from, to@));
        }
    }
    assert(text.take(text.len() as int) =~= text);
    r
}

/// `String::push`. Claimed: `c` is appended to `s`.
#[verifier::external_body]
pub(crate) fn push_char(s: &mut String, c: char)
    ensures
        final(s)@ == old(s)@.push(c),
{
    s.push(c)
}

/// `s` with the `"> "` after each line break removed: read from the end,
/// a trailing `"\n> "` stands for one line break.
pub open spec fn unquoted(s: Seq<char>) -> Seq<char>
    decreases s.len(),
{
    if s.len() == 0 {
        Seq::empty()
    } else if s.len() >= 3 && s[s.len() - 3] == '\n' && s[s.len() - 2] == '>' && s[s.len() - 1] == ' ' {
        unquoted(s.take(s.len() - 3)).push('\n')
    } else {
        unquoted(s.drop_last()).push(s.last())
    }
}

/// Every line break of `s` is followed by `"> "`.
pub open spec fn breaks_quoted(s: Seq<char>) -> bool {
    forall|k: int| 0 <= k < s.len() && #[trigger] s[k] == '\n' ==> k + 2 < s.len() && s[k + 1] == '>' && s[k + 2] == ' '
}

/// Quoting a text for a block quote continues the quote on every line:
/// in the quoted text each line break is followed by `"> "`, and removing
/// those markers gives the text back, so every character of the text is
/// kept and every one of its line breaks is marked.
pub proof fn lemma_quote_marks_every_line(t: Seq<char>)
    ensures
        breaks_quoted(replaced(t, '\n', "\n> "@)),
        unquoted(replaced(t, '\n', "\n> "@)) == t,
    decreases t.len(),
{
    reveal_strlit("\n> ");
    let q = replaced(t, '\n', "\n> "@);
    if t.len() > 0 {
        let p = t.drop_last();
        lemma_quote_marks_every_line(p);
        let a = replaced(p, '\n', "\n> "@);
        if t.last() == '\n' {
            assert(q =~= a + seq!['\n', '>', ' ']);
            assert forall|k: int| 0 <= k < q.len() && #[trigger] q[k] == '\n' implies k + 2 < q.len() && q[k + 1] == '>' && q[k + 2] == ' ' by {
                if k < a.len() {
                    assert(q[k] == a[k]);
                    assert(k + 2 < a.len());
                    assert(q[k + 1] == a[k + 1] && q[k + 2] == a[k + 2]);
                }
            }
            assert(q.take(q.len() - 3) =~= a);
            assert(t =~= p.push('\n'));
        } else {
            assert(q =~= a.push(t.last()));
            assert forall|k: int| 0 <= k < q.len() && #[trigger] q[k] == '\n' implies k + 2 < q.len() && q[k + 1] == '>' && q[k + 2] == ' ' by {
                assert(k < a.len());
                assert(q[k] == a[k]);
                assert(k + 2 < a.len());
                assert(q[k + 1] == a[k + 1] && q[k + 2] == a[k + 2]);
            }
            if q.len() >= 3 && q[q.len() - 3] == '\n' {
                assert(a[a.len() - 2] == '\n');
            }
            assert(q.drop_last() =~= a);
            assert(t =~= p.push(t.last()));
        }
    } else {
        assert(q =~= Seq::<char>::empty());
    }
}

/// The decimal digit for `d` (0 to 9).
pub open spec fn digit(d: nat) -> char {
    (48 + d) as char
}

/// The decimal representation of `n`, without leading zeros.
pub open spec fn decimal(n: nat) -> Seq<char>
    decreases n,
{
    if n < 10 {
        seq![digit(n)]
    } else {
        decimal(n / 10).push(digit(n % 10))
    }
}

/// The decimal representation of `n`, as `usize::to_string` writes it.
fn decimal_string(n: usize) -> (s: String)
    ensures
        s@ == decimal(n as nat),
    decreases n,
{
    let d = (n % 10) as u8;
    let c = (48u8 + d) as char;
    assert(c == digit((n % 10) as nat));
    if n < 10 {
        let mut s = String::new();
        push_char(&mut s, c);
        assert(s@ =~= decimal(n as nat));
        s
    } else {
        let mut s = decimal_string(n / 10);
        push_char(&mut s, c);
        s
    }
}

/// What `Path::strip_prefix` gives for `path` and `base`, both as text:
/// the rest of `path` after the components of `base`, or `None` when `base`
/// is not a prefix of `path`.
pub uninterp spec fn path_after_prefix(path: Seq<char>, base: Seq<char>) -> Option<Seq<char>>;

/// `std::path::Path::strip_prefix`, on paths given as text. Claimed: the
/// result is `path_after_prefix` of the arguments.
#[verifier::external_body]
fn strip_path_prefix(path: &str, base: &str) -> (rest: Option<String>)
    ensures
        match rest {
            Some(r) => path_after_prefix(path@, base@) == Some(r@),
            None => path_after_prefix(path@, base@) is None,
        },
{
    match std::path::Path::new(path).strip_prefix(base) {
        Ok(r) => Some(r.to_string_lossy().into_owned()),
        Err(_) => None,
    }
}

/// `path` relative to `base` when `base` is a prefix of it; otherwise `path`
/// itself.
pub fn relative_path(path: &str, base: &str) -> (rel: String)
    ensures
        rel@ == match path_after_prefix(path@, base@) {
            Some(r) => r,
            None => path@,
        },
{
    match strip_path_prefix(path, base) {
        Some(r) => r,
        None => path.to_owned(),
    }
}

/// The Markdown for a text paragraph whose text `t` is already trimmed:
/// nothing for empty text; otherwise the text on a line of its own, after
/// `prefix` and a space when a prefix is given, surrounded by blank lines.
pub open spec fn trimmed_text_block(prefix: Seq<char>, t: Seq<char>) -> Seq<char> {
    if t.len() == 0 {
        Seq::empty()
    } else if prefix.len() == 0 {
        "\n"@ + t + "\n\n"@
    } else {
        "\n"@ + prefix + " "@ + t + "\n\n"@
    }
}

/// The Markdown for a labelled quote whose text `t` is already trimmed:
/// nothing for empty text; otherwise a block quote that starts with the
/// bold label, every line of the text continuing the quote.
pub open spec fn trimmed_quote_block(label: Seq<char>, t: Seq<char>) -> Seq<char> {
    if t.len() == 0 {
        Seq::empty()
    } else {
        "\n> **"@ + label + ":** "@ + replaced(t, '\n', "\n> "@) + "\n\n"@
    }
}

/// The Markdown for a page footer whose text `t` is already trimmed:
/// nothing for empty text; otherwise the text between two horizontal rules.
pub open spec fn trimmed_footer_block(t: Seq<char>) -> Seq<char> {
    if t.len() == 0 {
        Seq::empty()
    } else {
        "\n---\n"@ + t + "\n\n---\n\n"@
    }
}

/// The Markdown for a text paragraph: its trimmed text as a block.
pub open spec fn text_block(prefix: Seq<char>, text: Seq<char>) -> Seq<char> {
    trimmed_text_block(prefix, trimmed(text))
}

/// The Markdown for a labelled quote: its trimmed text as a quote.
pub open spec fn quote_block(label: Seq<char>, text: Seq<char>) -> Seq<char> {
    trimmed_quote_block(label, trimmed(text))
}

/// The Markdown for a page footer: its trimmed text between rules.
pub open spec fn footer_block(text: Seq<char>) -> Seq<char> {
    trimmed_footer_block(trimmed(text))
}

/// Appends the Markdown for a text paragraph whose text is already trimmed.
pub fn write_trimmed_text_block(out: &mut String, prefix: &str, t: &str)
    ensures
        final(out)@ == old(out)@ + trimmed_text_block(prefix@, t@),
{
    if t.is_empty() {
        assert(old(out)@ + trimmed_text_block(prefix@, t@) =~= old(out)@);
        return;
    }
    if prefix.is_empty() {
        out.append("\n");
        out.append(t);
        out.append("\n\n");
    } else {
        out.append("\n");
        out.append(prefix);
        out.append(" ");
        out.append(t);
        out.append("\n\n");
    }
}

/// Appends the Markdown for a labelled quote whose text is already trimmed.
pub fn write_trimmed_quote_block(out: &mut String, label: &str, t: &str)
    ensures
        final(out)@ == old(out)@ + trimmed_quote_block(label@, t@),
{
    if t.is_empty() {
        assert(old(out)@ + trimmed_quote_block(label@, t@) =~= old(out)@);
        return;
    }
    let quoted = replace_char(t, '\n', "\n> ");
    out.append("\n> **");
    out.append(label);
    out.append(":** ");
    out.append(quoted.as_str());
    out.append("\n\n");
}

/// Appends the Markdown for a page footer whose text is already trimmed.
pub fn write_trimmed_footer_block(out: &mut String, t: &str)
    ensures
        final(out)@ == old(out)@ + trimmed_footer_block(t@),
{
    if t.is_empty() {
        assert(old(out)@ + trimmed_footer_block(t@) =~= old(out)@);
        return;
    }
    out.append("\n---\n");
    out.append(t);
    out.append("\n\n---\n\n");
}

/// Appends the Markdown for a text paragraph, such as a heading when
/// `prefix` is `#` or `##`, to `out`.
pub fn write_text_block(out: &mut String, prefix: &str, text: &str)
    ensures
        final(out)@ == old(out)@ + text_block(prefix@, text@),
{
    write_trimmed_text_block(out, prefix, trim_str(text));
}

/// Appends the Markdown for a labelled quote (such as a footnote) to `out`.
pub fn write_quote_block(out: &mut String, label: &str, text: &str)
    ensures
        final(out)@ == old(out)@ + quote_block(label@, text@),
{
    write_trimmed_quote_block(out, label, trim_str(text));
}

/// Appends the Markdown for a page footer to `out`.
pub fn write_footer_block(out: &mut String, text: &str)
    ensures
        final(out)@ == old(out)@ + footer_block(text@),
{
    write_trimmed_footer_block(out, trim_str(text));
}

/// How a detected layout region is rendered in Markdown.
#[derive(PartialEq, Eq, Structural, Clone, Copy, Debug)]
pub enum Block {
    /// A level-one heading.
    Title,
    /// A level-two heading.
    SectionHeader,
    /// A plain paragraph (body text, list items and captions).
    Text,
    /// A quoted footnote.
    Footnote,
    /// A page footer between rules.
    PageFooter,
    /// A cropped image of the region, linked from the Markdown.
    Image,
}

/// The rendering of each layout class: title (10), section header (7),
/// body text (9), list item (3) and caption (0) become text; footnotes (1)
/// quotes; page footers (4) footers; everything else (formulas, page
/// headers, pictures, tables, unknown classes) an image.
pub open spec fn block_of(class_id: i32) -> Block {
    if class_id == 10 {
        Block::Title
    } else if class_id == 7 {
        Block::SectionHeader
    } else if class_id == 9 || class_id == 3 || class_id == 0 {
        Block::Text
    } else if class_id == 1 {
        Block::Footnote
    } else if class_id == 4 {
        Block::PageFooter
    } else {
        Block::Image
    }
}

/// How a region of the given layout class is rendered.
pub fn block_kind(class_id: i32) -> (block: Block)
    ensures
        block == block_of(class_id),
{
    if class_id == 10 {
        Block::Title
    } else if class_id == 7 {
        Block::SectionHeader
    } else if class_id == 9 || class_id == 3 || class_id == 0 {
        Block::Text
    } else if class_id == 1 {
        Block::Footnote
    } else if class_id == 4 {
        Block::PageFooter
    } else {
        Block::Image
    }
}

/// The Markdown line that links the image of box `box_index` on page
/// `page_num`, stored at `target`, surrounded by blank lines.
pub open spec fn image_link(page_num: nat, box_index: nat, target: Seq<char>) -> Seq<char> {
    "\n![page "@ + decimal(page_num) + " box "@ + decimal(box_index) + "]("@ + target + ")\n\n"@
}

/// Appends the Markdown link to the image of a region to `out`.
pub fn write_image_link(out: &mut String, page_num: usize, box_index: usize, target: &str)
    ensures
        final(out)@ == old(out)@ + image_link(page_num as nat, box_index as nat, target@),
{
    let page = decimal_string(page_num);
    let index = decimal_string(box_index);
    out.append("\n![page ");
    out.append(page.as_str());
    out.append(" box ");
    out.append(index.as_str());
    out.append("](");
    out.append(target);
    out.append(")\n\n");
}

/// The Markdown for one paragraph of a page: text kinds by their block
/// writers, image regions as a link to `image` (which is ignored for text
/// kinds).
pub open spec fn paragraph_markdown(
    class_id: i32,
    text: Seq<char>,
    page_num: nat,
    box_index: nat,
    image: Seq<char>,
) -> Seq<char> {
    match block_of(class_id) {
        Block::Title => text_block("#"@, text),
        Block::SectionHeader => text_block("##"@, text),
        Block::Text => text_block(""@, text),
        Block::Footnote => quote_block("Footnote"@, text),
        Block::PageFooter => footer_block(text),
        Block::Image => image_link(page_num, box_index, image),
    }
}

/// Appends the Markdown for one paragraph of page `page_num` to `out`,
/// chosen by its layout class; `image` is where the cropped image of an
/// image region was saved.
pub fn write_paragraph(
    out: &mut String,
    class_id: i32,
    text: &str,
    page_num: usize,
    box_index: usize,
    image: &str,
)
    ensures
        final(out)@ == old(out)@ + paragraph_markdown(class_id, text@, page_num as nat, box_index as nat, image@),
{
    match block_kind(class_id) {
        Block::Title => write_text_block(out, "#", text),
        Block::SectionHeader => write_text_block(out, "##", text),
        Block::Text => write_text_block(out, "", text),
        Block::Footnote => write_quote_block(out, "Footnote", text),
        Block::PageFooter => write_footer_block(out, text),
        Block::Image => write_image_link(out, page_num, box_index, image),
    }
}


/// The decimal representation of `n`, padded with leading zeros to at least
/// four digits.
pub open spec fn padded4(n: nat) -> Seq<char> {
    let d = decimal(n);
    if d.len() < 4 {
        Seq::new((4 - d.len()) as nat, |i: int| '0') + d
    } else {
        d
    }
}

/// The decimal representation of a signed number.
pub open spec fn signed_decimal(n: int) -> Seq<char> {
    if n < 0 {
        seq!['-'] + decimal((-n) as nat)
    } else {
        decimal(n as nat)
    }
}

/// The file name of the cropped image of a region.
pub open spec fn box_image_name(page_num: nat, order_index: nat, class_id: int) -> Seq<char> {
    "page_"@ + padded4(page_num) + "_order_"@ + padded4(order_index) + "_class_"@ + signed_decimal(class_id) + ".png"@
}

/// The file name of the page image used as detection input.
pub open spec fn page_image_name(page_num: nat) -> Seq<char> {
    "page_"@ + padded4(page_num) + "_detect_input.png"@
}

proof fn lemma_decimal_len(n: nat)
    ensures
        decimal(n).len() >= 1,
    decreases n,
{
    if n >= 10 {
        lemma_decimal_len(n / 10);
    }
}

fn push_padded4(out: &mut String, n: usize)
    ensures
        final(out)@ == old(out)@ + padded4(n as nat),
{
    let d = decimal_string(n);
    let len = d.as_str().unicode_len();
    proof {
        lemma_decimal_len(n as nat);
    }
    let mut zeros: usize = 0;
    assert(out@ =~= old(out)@ + Seq::new(0 as nat, |i: int| '0'));
    if len < 4 {
        while zeros < 4 - len
            invariant
                len == decimal(n as nat).len(),
                len < 4,
                zeros <= 4 - len,
                out@ == old(out)@ + Seq::new(zeros as nat, |i: int| '0'),
            decreases 4 - len - zeros,
        {
            proof {
                reveal_strlit("0");
            }
            out.append("0");
            assert(Seq::new(zeros as nat, |i: int| '0') + "0"@ =~= Seq::new((zeros + 1) as nat, |i: int| '0'));
            zeros = zeros + 1;
        }
    }
    out.append(d.as_str());
    assert(out@ =~= old(out)@ + padded4(n as nat));
}

fn push_signed(out: &mut String, n: i32)
    ensures
        final(out)@ == old(out)@ + signed_decimal(n as int),
{
    if n < 0 {
        let magnitude = (-(n as i64)) as usize;
        let d = decimal_string(magnitude);
        proof {
            reveal_strlit("-");
        }
        out.append("-");
        out.append(d.as_str());
        assert(out@ =~= old(out)@ + signed_decimal(n as int));
    } else {
        let d = decimal_string(n as usize);
        out.append(d.as_str());
    }
}

/// The file name under which the cropped image of a region is saved:
/// `page_PPPP_order_OOOO_class_C.png`, page and order zero-padded to four
/// digits.
pub fn box_image_file_name(page_num: usize, order_index: usize, class_id: i32) -> (name: String)
    ensures
        name@ == box_image_name(page_num as nat, order_index as nat, class_id as int),
{
    let mut name = String::new();
    name.append("page_");
    push_padded4(&mut name, page_num);
    name.append("_order_");
    push_padded4(&mut name, order_index);
    name.append("_class_");
    push_signed(&mut name, class_id);
    name.append(".png");
    name
}

/// The file name under which the detection input image of a page is saved:
/// `page_PPPP_detect_input.png`, the page number zero-padded to four digits.
pub fn page_image_file_name(page_num: usize) -> (name: String)
    ensures
        name@ == page_image_name(page_num as nat),
{
    let mut name = String::new();
    name.append("page_");
    push_padded4(&mut name, page_num);
    name.append("_detect_input.png");
    name
}

} // verus!
