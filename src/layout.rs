//! The block layout pass: a positioned box per visible node.
use vstd::prelude::*;
use crate::text::{is_ws, is_whitespace_char, chars_of};
use crate::document::{EngineDocument, EngineNode, tag_of};
use crate::stylesheet::EngineStyleSheet;
use crate::cascade::{cascaded, cascaded_value, opt_view};

verus! {

/// A positioned box for one node, in whole layout units.
pub struct LayoutBox {
    pub node_id: usize,
    pub x: i64,
    pub y: i64,
    pub width: i64,
    pub height: i64,
    pub children: Vec<LayoutBox>,
}

/// The box of the root, absent when the root is suppressed, and the height
/// the walk reached.
pub struct LayoutTree {
    pub root: Option<LayoutBox>,
    pub content_height: i64,
}

/// The mathematical form of a box.
pub struct BoxModel {
    pub node_id: int,
    pub x: int,
    pub y: int,
    pub width: int,
    pub height: int,
    pub children: Seq<BoxModel>,
}

pub open spec fn box_model(b: LayoutBox) -> BoxModel
    decreases b,
{
    BoxModel {
        node_id: b.node_id as int,
        x: b.x as int,
        y: b.y as int,
        width: b.width as int,
        height: b.height as int,
        children: models_of(b.children@),
    }
}

pub open spec fn models_of(s: Seq<LayoutBox>) -> Seq<BoxModel>
    decreases s,
{
    if s.len() == 0 {
        Seq::empty()
    } else {
        models_of(s.drop_last()).push(box_model(s.last()))
    }
}


/// `x` clamped to the range of `i64`.
pub open spec fn sat64(x: int) -> int {
    if x > i64::MAX {
        i64::MAX as int
    } else if x < i64::MIN {
        i64::MIN as int
    } else {
        x
    }
}

fn sadd(a: i64, b: i64) -> (r: i64)
    ensures
        r == sat64(a + b),
{
    if b > 0 && a > i64::MAX - b {
        i64::MAX
    } else if b < 0 && a < i64::MIN - b {
        i64::MIN
    } else {
        a + b
    }
}

fn ssub(a: i64, b: i64) -> (r: i64)
    ensures
        r == sat64(a - b),
{
    if b < 0 && a > i64::MAX + b {
        i64::MAX
    } else if b > 0 && a < i64::MIN + b {
        i64::MIN
    } else {
        a - b
    }
}

fn eq_lit(s: &String, lit: &str) -> (r: bool)
    ensures
        r == (s@ == lit@),
{
    let l = String::from_str(lit);
    *s == l
}

/// Tags that never produce a box.
pub open spec fn non_visual(tag: Seq<char>) -> bool {
    tag == "#comment"@ || tag == "script"@ || tag == "style"@ || tag == "head"@ || tag == "meta"@
        || tag == "link"@
}

/// Containers whose empty box has no height of its own.
pub open spec fn pass_through(tag: Seq<char>) -> bool {
    tag == "#document"@ || tag == "body"@ || tag == "html"@
}

/// Nodes whose text is measured: text nodes, paragraphs, headings, list items.
pub open spec fn measures_text(n: EngineNode) -> bool {
    let t = tag_of(n);
    n.tag is None || t == "p"@ || t == "li"@ || (t.len() > 0 && t[0] == 'h')
}

/// `padding` trailing `px` suffixes, removed repeatedly.
pub open spec fn strip_px(s: Seq<char>) -> Seq<char>
    decreases s.len(),
{
    if s.len() >= 2 && s[s.len() - 2] == 'p' && s[s.len() - 1] == 'x' {
        strip_px(s.subrange(0, s.len() - 2))
    } else {
        s
    }
}

pub open spec fn is_digit(c: char) -> bool {
    '0' <= c && c <= '9'
}

pub open spec fn all_digits(s: Seq<char>) -> bool {
    s.len() > 0 && forall|k: int| 0 <= k < s.len() ==> is_digit(#[trigger] s[k])
}

/// The decimal value of a digit string, capped at the largest `i64`.
pub open spec fn digits_value(s: Seq<char>) -> int
    decreases s.len(),
{
    if s.len() == 0 {
        0
    } else {
        let v = 10 * digits_value(s.drop_last()) + ((s.last() as u32) as int - 48);
        if v > i64::MAX {
            i64::MAX as int
        } else {
            v
        }
    }
}

/// A whole number with an optional sign; anything else reads as 0.
pub open spec fn number_value(s: Seq<char>) -> int {
    if s.len() > 0 && (s[0] == '-' || s[0] == '+') && all_digits(s.drop_first()) {
        if s[0] == '-' {
            -digits_value(s.drop_first())
        } else {
            digits_value(s.drop_first())
        }
    } else if all_digits(s) {
        digits_value(s)
    } else {
        0
    }
}

/// The padding that a cascaded `padding` value gives, 0 when absent.
pub open spec fn padding_of(v: Option<Seq<char>>) -> int {
    match v {
        Some(s) => number_value(strip_px(s)),
        None => 0,
    }
}

proof fn lemma_digits_value_bounds(s: Seq<char>)
    requires
        forall|k: int| 0 <= k < s.len() ==> is_digit(#[trigger] s[k]),
    ensures
        0 <= digits_value(s) <= i64::MAX,
    decreases s.len(),
{
    if s.len() > 0 {
        lemma_digits_value_bounds(s.drop_last());
        assert(is_digit(s[s.len() - 1]));
    }
}

fn parse_padding(v: &Option<String>) -> (r: i64)
    ensures
        r == padding_of(opt_view(*v)),
{
    let s = match v {
        Some(s) => s,
        None => {
            return 0;
        },
    };
    let cs = chars_of(s.as_str());
    let mut hi: usize = cs.len();
    assert(cs@.subrange(0, hi as int) =~= cs@);
    while hi >= 2 && cs[hi - 2] == 'p' && cs[hi - 1] == 'x'
        invariant
            hi <= cs@.len(),
            strip_px(cs@) == strip_px(cs@.subrange(0, hi as int)),
        decreases hi,
    {
        assert(cs@.subrange(0, hi as int).subrange(0, hi - 2) =~= cs@.subrange(0, hi - 2));
        hi -= 2;
    }
    let ghost t = cs@.subrange(0, hi as int);
    assert(strip_px(cs@) == t);
    if hi == 0 {
        return 0;
    }
    let neg = cs[0] == '-';
    let start: usize = if cs[0] == '-' || cs[0] == '+' { 1 } else { 0 };
    if start == hi {
        assert(!all_digits(t.drop_first()));
        return 0;
    }
    let mut val: i64 = 0;
    let mut i: usize = start;
    assert(cs@.subrange(start as int, start as int) =~= Seq::<char>::empty());
    while i < hi
        invariant
            start <= i <= hi <= cs@.len(),
            0 < hi,
            t == cs@.subrange(0, hi as int),
            padding_of(opt_view(*v)) == number_value(t),
            start == 1 <==> (cs@[0] == '-' || cs@[0] == '+'),
            start <= 1,
            neg == (cs@[0] == '-'),
            forall|k: int| start <= k < i ==> is_digit(#[trigger] cs@[k]),
            val == digits_value(cs@.subrange(start as int, i as int)),
        decreases hi - i,
    {
        let c = cs[i];
        if !('0' <= c && c <= '9') {
            proof {
                if start == 1 {
                    assert(t.drop_first()[i - 1] == c);
                    assert(!is_digit(t[0]));
                    assert(!all_digits(t));
                    assert(!all_digits(t.drop_first()));
                } else {
                    assert(t[i as int] == c);
                    assert(!all_digits(t));
                    assert(!(t[0] == '-' || t[0] == '+'));
                }
                assert(number_value(t) == 0);
            }
            return 0;
        }
        proof {
            lemma_digits_value_bounds(cs@.subrange(start as int, i as int));
            assert(cs@.subrange(start as int, i + 1).drop_last() =~= cs@.subrange(start as int, i as int));
        }
        let d: i64 = (c as u32 - '0' as u32) as i64;
        if val > (i64::MAX - d) / 10 {
            val = i64::MAX;
        } else {
            val = val * 10 + d;
        }
        i += 1;
    }
    proof {
        assert(forall|k: int| 0 <= k < t.len() - start ==> t.skip(start as int)[k] == cs@[k + start]);
        if start == 1 {
            assert(t.drop_first() =~= cs@.subrange(1, hi as int));
        } else {
            assert(t =~= cs@.subrange(0, hi as int));
        }
    }
    if neg {
        proof {
            lemma_digits_value_bounds(cs@.subrange(start as int, i as int));
        }
        -val
    } else {
        val
    }
}


/// `x` clamped to the largest `u64`.
pub open spec fn sat_u64(x: int) -> int {
    if x > u64::MAX {
        u64::MAX as int
    } else {
        x
    }
}

/// Bytes that a character takes in UTF-8.
pub open spec fn utf8_len(c: char) -> int {
    let u = c as u32;
    if u < 0x80 {
        1
    } else if u < 0x800 {
        2
    } else if u < 0x10000 {
        3
    } else {
        4
    }
}

fn utf8_len_exec(c: char) -> (r: u64)
    ensures
        r == utf8_len(c),
{
    let u = c as u32;
    if u < 0x80 {
        1
    } else if u < 0x800 {
        2
    } else if u < 0x10000 {
        3
    } else {
        4
    }
}

/// The UTF-8 lengths of the whitespace-separated words of `s`, in order.
pub open spec fn word_lens(s: Seq<char>) -> Seq<int>
    decreases s.len(),
{
    if s.len() == 0 {
        Seq::empty()
    } else {
        let r = word_lens(s.drop_last());
        let c = s.last();
        if is_ws(c) {
            r
        } else if s.len() >= 2 && !is_ws(s[s.len() - 2]) {
            r.update(r.len() - 1, sat_u64(r.last() + utf8_len(c)))
        } else {
            r.push(utf8_len(c))
        }
    }
}

/// A vector of sizes as integers.
pub open spec fn ints(v: Seq<u64>) -> Seq<int> {
    v.map_values(|x: u64| x as int)
}

fn push_word_lens(s: &String, out: &mut Vec<u64>)
    ensures
        ints(final(out)@) == ints(old(out)@) + word_lens(s@),
{
    let cs = chars_of(s.as_str());
    let ghost base = ints(out@);
    let base_len = out.len();
    let mut i: usize = 0;
    assert(ints(out@) =~= base + word_lens(cs@.take(0)));
    while i < cs.len()
        invariant
            i <= cs@.len(),
            base_len == base.len(),
            ints(out@) == base + word_lens(cs@.take(i as int)),
            out@.len() == base.len() + word_lens(cs@.take(i as int)).len(),
            i > 0 && !is_ws(cs@[i - 1]) ==> word_lens(cs@.take(i as int)).len() > 0,
        decreases cs@.len() - i,
    {
        let c = cs[i];
        let ghost prev = word_lens(cs@.take(i as int));
        assert(cs@.take(i + 1).drop_last() =~= cs@.take(i as int));
        assert(cs@.take(i + 1).last() == c);
        if is_whitespace_char(c) {
        } else if i >= 1 && !is_whitespace_char(cs[i - 1]) {
            assert(cs@.take(i + 1)[i - 1] == cs@[i - 1]);
            let ghost old_out = out@;
            let last = out.len() - 1;
            assert(ints(old_out)[last as int] == (base + prev)[last as int]);
            assert(prev.len() > 0);
            assert((base + prev)[last as int] == prev.last());
            let v = out[last].saturating_add(utf8_len_exec(c));
            out.set(last, v);
            assert(word_lens(cs@.take(i + 1)) == prev.update(prev.len() - 1, v as int));
            assert(ints(out@) =~= ints(old_out).update(last as int, v as int));
            assert((base + prev).update(last as int, v as int) =~= base + prev.update(prev.len() - 1, v as int));
            assert(ints(out@) =~= base + word_lens(cs@.take(i + 1)));
        } else {
            assert(i >= 1 ==> cs@.take(i + 1)[i - 1] == cs@[i - 1]);
            assert(word_lens(cs@.take(i + 1)) == prev.push(utf8_len(c)));
            let ghost old_out = out@;
            let u = utf8_len_exec(c);
            out.push(u);
            assert(ints(out@) =~= ints(old_out).push(u as int));
            assert((base + prev).push(u as int) =~= base + prev.push(u as int));
            assert(ints(out@) =~= base + word_lens(cs@.take(i + 1)));
        }
        i += 1;
    }
    assert(cs@.take(i as int) =~= cs@);
}

pub open spec fn n_children(doc: EngineDocument, i: int) -> int {
    if 0 <= i < doc.nodes@.len() {
        doc.nodes@[i].children@.len() as int
    } else {
        0
    }
}

/// The word lengths of the text of every untagged node in the subtree of
/// `node`, in document order.
pub open spec fn text_lens(doc: EngineDocument, node: int) -> Seq<int>
    decreases doc.nodes@.len() - node, n_children(doc, node) + 1,
{
    if 0 <= node < doc.nodes@.len() {
        let n = doc.nodes@[node];
        (if n.tag is None {
            word_lens(n.text@)
        } else {
            Seq::empty()
        }) + kids_text_lens(doc, node, n.children@.len() as int)
    } else {
        Seq::empty()
    }
}

/// `text_lens` over the first `k` children of `parent`, concatenated.
pub open spec fn kids_text_lens(doc: EngineDocument, parent: int, k: int) -> Seq<int>
    decreases doc.nodes@.len() - parent, k,
{
    if k <= 0 || k > n_children(doc, parent) {
        Seq::empty()
    } else {
        let c = doc.nodes@[parent].children@[k - 1] as int;
        kids_text_lens(doc, parent, k - 1) + if parent < c < doc.nodes@.len() {
            text_lens(doc, c)
        } else {
            Seq::empty()
        }
    }
}

fn collect_text_lens(doc: &EngineDocument, node_id: usize, out: &mut Vec<u64>)
    requires
        doc.wf(),
        node_id < doc.nodes@.len(),
    ensures
        ints(final(out)@) == ints(old(out)@) + text_lens(*doc, node_id as int),
    decreases doc.nodes@.len() - node_id,
{
    let node = &doc.nodes[node_id];
    let ghost base = ints(out@);
    if node.tag.is_none() {
        push_word_lens(&node.text, out);
    }
    let ghost own = if node.tag is None { word_lens(node.text@) } else { Seq::<int>::empty() };
    assert(ints(out@) == base + own);
    let mut j: usize = 0;
    assert(ints(out@) =~= base + own + kids_text_lens(*doc, node_id as int, 0));
    while j < node.children.len()
        invariant
            doc.wf(),
            node_id < doc.nodes@.len(),
            *node == doc.nodes@[node_id as int],
            j <= node.children@.len(),
            ints(out@) == base + own + kids_text_lens(*doc, node_id as int, j as int),
        decreases node.children@.len() - j,
    {
        let c = node.children[j];
        collect_text_lens(doc, c, out);
        assert(ints(out@) =~= base + own + kids_text_lens(*doc, node_id as int, j + 1));
        j += 1;
    }
    assert(ints(out@) =~= base + text_lens(*doc, node_id as int));
}

/// Greedy packing of words into lines of at most `cpl` bytes: the length of
/// the current line and the number of lines.
pub open spec fn line_state(lens: Seq<int>, cpl: int) -> (int, int)
    decreases lens.len(),
{
    if lens.len() == 0 {
        (0, 1)
    } else {
        let (ll, n) = line_state(lens.drop_last(), cpl);
        let w = lens.last();
        let joined = sat_u64(sat_u64(ll + 1) + w);
        if ll == 0 {
            (w, n)
        } else if joined > cpl {
            (w, n + 1)
        } else {
            (joined, n)
        }
    }
}

/// Characters per line for a box of width `width` with padding `pad`.
pub open spec fn chars_per_line(width: int, pad: int) -> int {
    let inner = sat64(width - sat64(pad + pad));
    let q = (if inner > 80 { inner } else { 80 }) / 8;
    if q > 10 {
        q
    } else {
        10
    }
}

/// 20 units per line of text, or 0 when there is no word.
pub open spec fn text_height(lens: Seq<int>, width: int, pad: int) -> int {
    if lens.len() == 0 {
        0
    } else {
        sat64(line_state(lens, chars_per_line(width, pad)).1 * 20)
    }
}

fn text_height_exec(lens: &Vec<u64>, width: i64, pad: i64) -> (r: i64)
    ensures
        r == text_height(ints(lens@), width as int, pad as int),
{
    if lens.len() == 0 {
        return 0;
    }
    let inner = ssub(width, sadd(pad, pad));
    let q = (if inner > 80 { inner } else { 80 }) / 8;
    let cpl: u64 = if q > 10 { q as u64 } else { 10 };
    let ghost l = ints(lens@);
    let mut line_len: u64 = 0;
    let mut lines: u128 = 1;
    let mut i: usize = 0;
    while i < lens.len()
        invariant
            l == ints(lens@),
            cpl == chars_per_line(width as int, pad as int),
            i <= lens@.len(),
            1 <= lines <= i + 1,
            (line_len as int, lines as int) == line_state(l.take(i as int), cpl as int),
        decreases lens@.len() - i,
    {
        assert(l.take(i + 1).drop_last() =~= l.take(i as int));
        assert(l.take(i + 1).last() == lens@[i as int] as int);
        let w = lens[i];
        let joined = line_len.saturating_add(1).saturating_add(w);
        if line_len == 0 {
            line_len = w;
        } else if joined > cpl {
            lines += 1;
            line_len = w;
        } else {
            line_len = joined;
        }
        i += 1;
    }
    assert(l.take(i as int) =~= l);
    if lines > 461168601842738790u128 {
        i64::MAX
    } else {
        (lines as i64) * 20
    }
}


/// The lowest bottom edge among `kids`, and never above `top`.
pub open spec fn max_bottom(kids: Seq<BoxModel>, top: int) -> int
    decreases kids.len(),
{
    if kids.len() == 0 {
        top
    } else {
        let b = max_bottom(kids.drop_last(), top);
        let e = sat64(kids.last().y + kids.last().height);
        if e > b {
            e
        } else {
            b
        }
    }
}

/// The box of `node` placed at (`x`, `y`) in `width`, and the y at which the
/// next sibling starts. Suppressed nodes give no box and leave `y` as it was.
pub open spec fn build_spec(doc: EngineDocument, css: EngineStyleSheet, node: int, x: int, y: int, width: int) -> (
    Option<BoxModel>,
    int,
)
    decreases doc.nodes@.len() - node, n_children(doc, node) + 1,
{
    if !(0 <= node < doc.nodes@.len()) {
        (None, y)
    } else {
        let n = doc.nodes@[node];
        let tag = tag_of(n);
        if non_visual(tag) || cascaded(doc, css, node, "display"@) == Some("none"@) {
            (None, y)
        } else {
            let pad = padding_of(cascaded(doc, css, node, "padding"@));
            let th = if measures_text(n) {
                text_height(text_lens(doc, node), width, pad)
            } else {
                0
            };
            let cy0 = sat64(sat64(y + pad) + if th > 0 {
                4int
            } else {
                0int
            });
            let (kids, _) = children_spec(
                doc,
                css,
                node,
                n.children@.len() as int,
                sat64(x + pad),
                cy0,
                sat64(width - sat64(pad + pad)),
            );
            let h = if kids.len() > 0 {
                sat64(sat64(max_bottom(kids, y) - y) + pad)
            } else {
                th
            };
            let h2 = if h <= 0 {
                if pass_through(tag) {
                    0
                } else {
                    sat64(22 + pad)
                }
            } else {
                h
            };
            (
                Some(BoxModel { node_id: node, x, y, width, height: h2, children: kids }),
                sat64(sat64(y + h2) + 6),
            )
        }
    }
}

/// The boxes of the first `k` children of `parent`, stacked from `y`, and the
/// y after them.
pub open spec fn children_spec(
    doc: EngineDocument,
    css: EngineStyleSheet,
    parent: int,
    k: int,
    x: int,
    y: int,
    width: int,
) -> (Seq<BoxModel>, int)
    decreases doc.nodes@.len() - parent, k,
{
    if k <= 0 || k > n_children(doc, parent) {
        (Seq::empty(), y)
    } else {
        let (kids, y1) = children_spec(doc, css, parent, k - 1, x, y, width);
        let c = doc.nodes@[parent].children@[k - 1] as int;
        if parent < c < doc.nodes@.len() {
            let (b, y2) = build_spec(doc, css, c, x, y1, width);
            match b {
                Some(m) => (kids.push(m), y2),
                None => (kids, y2),
            }
        } else {
            (kids, y1)
        }
    }
}

/// The layout of the whole document at a viewport width: the root's box and
/// the content height.
pub open spec fn layout_spec(doc: EngineDocument, css: EngineStyleSheet, viewport_width: int) -> (
    Option<BoxModel>,
    int,
) {
    build_spec(doc, css, doc.root_id as int, 0, 0, viewport_width)
}

pub open spec fn opt_model(b: Option<LayoutBox>) -> Option<BoxModel> {
    match b {
        Some(b) => Some(box_model(b)),
        None => None,
    }
}

fn is_non_visual(tag: &String) -> (r: bool)
    ensures
        r == non_visual(tag@),
{
    eq_lit(tag, "#comment") || eq_lit(tag, "script") || eq_lit(tag, "style") || eq_lit(tag, "head")
        || eq_lit(tag, "meta") || eq_lit(tag, "link")
}

fn is_pass_through(tag: &String) -> (r: bool)
    ensures
        r == pass_through(tag@),
{
    eq_lit(tag, "#document") || eq_lit(tag, "body") || eq_lit(tag, "html")
}

fn measures_text_exec(node: &EngineNode) -> (r: bool)
    ensures
        r == measures_text(*node),
{
    match &node.tag {
        None => true,
        Some(t) => {
            if eq_lit(t, "p") || eq_lit(t, "li") {
                true
            } else if t.as_str().unicode_len() > 0 {
                t.as_str().get_char(0) == 'h'
            } else {
                false
            }
        },
    }
}

fn build(doc: &EngineDocument, css: &EngineStyleSheet, node_id: usize, x: i64, y: &mut i64, width: i64) -> (r:
    Option<LayoutBox>)
    requires
        doc.wf(),
        node_id < doc.nodes@.len(),
    ensures
        (opt_model(r), *final(y) as int) == build_spec(
            *doc,
            *css,
            node_id as int,
            x as int,
            *old(y) as int,
            width as int,
        ),
    decreases doc.nodes@.len() - node_id,
{
    let node = &doc.nodes[node_id];
    let empty = String::new();
    let tag: &String = match &node.tag {
        Some(t) => t,
        None => &empty,
    };
    assert(tag@ == tag_of(*node));
    if is_non_visual(tag) {
        return None;
    }
    let display = cascaded_value(doc, css, node_id, &String::from_str("display"));
    if let Some(d) = &display {
        if eq_lit(d, "none") {
            return None;
        }
    }
    let pad = parse_padding(&cascaded_value(doc, css, node_id, &String::from_str("padding")));
    let y0: i64 = *y;
    let mut text_h: i64 = 0;
    if measures_text_exec(node) {
        let mut lens: Vec<u64> = Vec::new();
        collect_text_lens(doc, node_id, &mut lens);
        assert(ints(lens@) =~= text_lens(*doc, node_id as int));
        text_h = text_height_exec(&lens, width, pad);
    }
    let mut child_y = sadd(sadd(y0, pad), if text_h > 0 { 4 } else { 0 });
    let ghost cy0 = child_y as int;
    let cx = sadd(x, pad);
    let cw = ssub(width, sadd(pad, pad));
    let mut kids: Vec<LayoutBox> = Vec::new();
    let mut bottom: i64 = y0;
    let mut j: usize = 0;
    while j < node.children.len()
        invariant
            doc.wf(),
            node_id < doc.nodes@.len(),
            *node == doc.nodes@[node_id as int],
            j <= node.children@.len(),
            (models_of(kids@), child_y as int) == children_spec(
                *doc,
                *css,
                node_id as int,
                j as int,
                cx as int,
                cy0,
                cw as int,
            ),
            bottom == max_bottom(models_of(kids@), y0 as int),
        decreases node.children@.len() - j,
    {
        let c = node.children[j];
        match build(doc, css, c, cx, &mut child_y, cw) {
            Some(b) => {
                let e = sadd(b.y, b.height);
                if e > bottom {
                    bottom = e;
                }
                let ghost old_kids = kids@;
                let ghost bm = box_model(b);
                kids.push(b);
                assert(kids@.drop_last() =~= old_kids);
                assert(models_of(kids@) == models_of(old_kids).push(bm));
                assert(models_of(kids@).drop_last() =~= models_of(old_kids));
            },
            None => {},
        }
        j += 1;
    }
    let mut height: i64 = if kids.len() > 0 {
        sadd(ssub(bottom, y0), pad)
    } else {
        text_h
    };
    if height <= 0 {
        height = if is_pass_through(tag) { 0 } else { sadd(22, pad) };
    }
    *y = sadd(sadd(y0, height), 6);
    Some(LayoutBox { node_id, x, y: y0, width, height, children: kids })
}

/// Lays out the document at a viewport width: the root's box, absent when the
/// root is suppressed, and the content height the walk reached.
pub fn compute_layout(doc: &EngineDocument, css: &EngineStyleSheet, viewport_width: i64) -> (r: LayoutTree)
    requires
        doc.wf(),
    ensures
        (opt_model(r.root), r.content_height as int) == layout_spec(*doc, *css, viewport_width as int),
{
    let mut y: i64 = 0;
    let root = build(doc, css, doc.root_id, 0, &mut y, viewport_width);
    LayoutTree { root, content_height: y }
}


/// A node that may have a box: not a non-visual tag, and not `display: none`.
pub open spec fn visible(doc: EngineDocument, css: EngineStyleSheet, node: int) -> bool {
    &&& 0 <= node < doc.nodes@.len()
    &&& !non_visual(tag_of(doc.nodes@[node]))
    &&& cascaded(doc, css, node, "display"@) != Some("none"@)
}

/// Every box of the tree `m` stands for a visible node, and each child box
/// stands for a child of its parent box's node.
pub open spec fn boxes_visible(doc: EngineDocument, css: EngineStyleSheet, m: BoxModel) -> bool
    decreases m,
{
    &&& visible(doc, css, m.node_id)
    &&& forall|i: int|
        0 <= i < m.children.len() ==> {
            &&& doc.nodes@[m.node_id].children@.contains(#[trigger] m.children[i].node_id as usize)
            &&& 0 <= m.children[i].node_id
            &&& boxes_visible(doc, css, m.children[i])
        }
}

proof fn lemma_build_visible(doc: EngineDocument, css: EngineStyleSheet, node: int, x: int, y: int, width: int)
    requires
        doc.wf(),
    ensures
        build_spec(doc, css, node, x, y, width).0 matches Some(m) ==> m.node_id == node && boxes_visible(
            doc,
            css,
            m,
        ),
    decreases doc.nodes@.len() - node, n_children(doc, node) + 1,
{
    if 0 <= node < doc.nodes@.len() {
        let n = doc.nodes@[node];
        let pad = padding_of(cascaded(doc, css, node, "padding"@));
        let th = if measures_text(n) {
            text_height(text_lens(doc, node), width, pad)
        } else {
            0
        };
        let cy0 = sat64(sat64(y + pad) + if th > 0 {
            4int
        } else {
            0int
        });
        lemma_children_visible(
            doc,
            css,
            node,
            n.children@.len() as int,
            sat64(x + pad),
            cy0,
            sat64(width - sat64(pad + pad)),
        );
        let kids = children_spec(
            doc,
            css,
            node,
            n.children@.len() as int,
            sat64(x + pad),
            cy0,
            sat64(width - sat64(pad + pad)),
        ).0;
        if let Some(m) = build_spec(doc, css, node, x, y, width).0 {
            assert(m.children == kids);
            assert(visible(doc, css, node));
            assert(boxes_visible(doc, css, m));
        }
    }
}

proof fn lemma_children_visible(
    doc: EngineDocument,
    css: EngineStyleSheet,
    parent: int,
    k: int,
    x: int,
    y: int,
    width: int,
)
    requires
        doc.wf(),
    ensures
        ({
            let kids = children_spec(doc, css, parent, k, x, y, width).0;
            forall|i: int|
                0 <= i < kids.len() ==> {
                    &&& doc.nodes@[parent].children@.contains(#[trigger] kids[i].node_id as usize)
                    &&& 0 <= kids[i].node_id
                    &&& boxes_visible(doc, css, kids[i])
                }
        }),
    decreases doc.nodes@.len() - parent, k,
{
    if !(k <= 0 || k > n_children(doc, parent)) {
        let (kids, y1) = children_spec(doc, css, parent, k - 1, x, y, width);
        lemma_children_visible(doc, css, parent, k - 1, x, y, width);
        let c = doc.nodes@[parent].children@[k - 1] as int;
        if parent < c < doc.nodes@.len() {
            lemma_build_visible(doc, css, c, x, y1, width);
            assert(doc.nodes@[parent].children@[k - 1] == c as usize);
            let r = children_spec(doc, css, parent, k, x, y, width).0;
            assert forall|i: int| 0 <= i < r.len() implies {
                &&& doc.nodes@[parent].children@.contains(#[trigger] r[i].node_id as usize)
                &&& 0 <= r[i].node_id
                &&& boxes_visible(doc, css, r[i])
            } by {
                if i < kids.len() {
                    assert(r[i] == kids[i]);
                }
            }
        }
    }
}

/// No box of a layout stands for a non-visual tag or a `display: none` node,
/// and each box's children stand for children of its node: a suppressed node
/// and everything below it are absent.
pub proof fn law_suppressed_nodes_have_no_box(doc: EngineDocument, css: EngineStyleSheet, viewport_width: int)
    requires
        doc.wf(),
    ensures
        layout_spec(doc, css, viewport_width).0 matches Some(m) ==> m.node_id == doc.root_id
            && boxes_visible(doc, css, m),
{
    lemma_build_visible(doc, css, doc.root_id as int, 0, 0, viewport_width);
}


proof fn lemma_build_box(doc: EngineDocument, css: EngineStyleSheet, node: int, x: int, y: int, width: int)
    ensures
        build_spec(doc, css, node, x, y, width).0 matches Some(m) ==> m.x == x && m.y == y && m.width
            == width,
        build_spec(doc, css, node, x, y, width).0 is None ==> build_spec(doc, css, node, x, y, width).1
            == y,
{
}

proof fn lemma_children_placement(
    doc: EngineDocument,
    css: EngineStyleSheet,
    parent: int,
    k: int,
    x: int,
    y: int,
    width: int,
)
    ensures
        ({
            let (kids, y2) = children_spec(doc, css, parent, k, x, y, width);
            &&& forall|i: int|
                0 <= i < kids.len() ==> (#[trigger] kids[i]).x == x && kids[i].width == width
            &&& kids.len() == 0 ==> y2 == y
            &&& kids.len() > 0 ==> kids[0].y == y
        }),
    decreases k,
{
    if !(k <= 0 || k > n_children(doc, parent)) {
        lemma_children_placement(doc, css, parent, k - 1, x, y, width);
        let (kids, y1) = children_spec(doc, css, parent, k - 1, x, y, width);
        let c = doc.nodes@[parent].children@[k - 1] as int;
        if parent < c < doc.nodes@.len() {
            lemma_build_box(doc, css, c, x, y1, width);
            let r = children_spec(doc, css, parent, k, x, y, width).0;
            assert forall|i: int| 0 <= i < r.len() implies (#[trigger] r[i]).x == x && r[i].width
                == width by {
                if i < kids.len() {
                    assert(r[i] == kids[i]);
                }
            }
            if kids.len() > 0 && r.len() > 0 {
                assert(r[0] == kids[0]);
            }
        }
    }
}

/// Padding insets a box's content: every child box starts `padding` to the
/// right of the box and is `2 × padding` narrower, and the first child box
/// starts `padding` below the box's top, 4 further down when the node's own
/// text takes height.
pub proof fn law_padding_insets_children(
    doc: EngineDocument,
    css: EngineStyleSheet,
    node: int,
    x: int,
    y: int,
    width: int,
)
    ensures
        build_spec(doc, css, node, x, y, width).0 matches Some(m) ==> {
            let pad = padding_of(cascaded(doc, css, node, "padding"@));
            let th = if measures_text(doc.nodes@[node]) {
                text_height(text_lens(doc, node), width, pad)
            } else {
                0
            };
            &&& forall|i: int|
                0 <= i < m.children.len() ==> (#[trigger] m.children[i]).x == sat64(x + pad)
                    && m.children[i].width == sat64(width - sat64(pad + pad))
            &&& m.children.len() > 0 ==> m.children[0].y == sat64(sat64(y + pad) + if th > 0 {
                4int
            } else {
                0int
            })
        },
{
    if 0 <= node < doc.nodes@.len() {
        let n = doc.nodes@[node];
        let pad = padding_of(cascaded(doc, css, node, "padding"@));
        let th = if measures_text(n) {
            text_height(text_lens(doc, node), width, pad)
        } else {
            0
        };
        let cy0 = sat64(sat64(y + pad) + if th > 0 {
            4int
        } else {
            0int
        });
        lemma_children_placement(
            doc,
            css,
            node,
            n.children@.len() as int,
            sat64(x + pad),
            cy0,
            sat64(width - sat64(pad + pad)),
        );
    }
}


/// A node with a non-visual tag or `display: none` gets no box and takes no
/// vertical space: the walk continues at the same y.
pub proof fn law_suppressed_node_takes_no_space(
    doc: EngineDocument,
    css: EngineStyleSheet,
    node: int,
    x: int,
    y: int,
    width: int,
)
    requires
        0 <= node < doc.nodes@.len(),
        !visible(doc, css, node),
    ensures
        build_spec(doc, css, node, x, y, width) == (None::<BoxModel>, y),
{
}


/// Layout is a function of its inputs: two trees that both meet
/// `compute_layout`'s contract for the same document, stylesheet and width have
/// the same boxes, at the same places, and the same content height.
pub proof fn law_layout_deterministic(
    doc: EngineDocument,
    css: EngineStyleSheet,
    viewport_width: int,
    first: LayoutTree,
    second: LayoutTree,
)
    requires
        (opt_model(first.root), first.content_height as int) == layout_spec(doc, css, viewport_width),
        (opt_model(second.root), second.content_height as int) == layout_spec(doc, css, viewport_width),
    ensures
        opt_model(first.root) == opt_model(second.root),
        first.content_height == second.content_height,
{
}

} // verus!
