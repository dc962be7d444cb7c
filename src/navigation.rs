//! Link safety, address completion and plain-text wrapping.
use vstd::prelude::*;
use crate::text::{chars_of, lower_seq, to_lower_char, string_of_range, trim, trim_range};
use crate::parser::{words, word_ranges, range_view, ranges_within};
use crate::layout::{utf8_len, sat_u64};

verus! {

pub open spec fn has_prefix(s: Seq<char>, p: Seq<char>) -> bool {
    p.len() <= s.len() && s.subrange(0, p.len() as int) == p
}

/// `p` occurs in `s`.
pub open spec fn has_sub(s: Seq<char>, p: Seq<char>) -> bool {
    exists|i: int| 0 <= i && i + p.len() <= s.len() && #[trigger] s.subrange(i, i + p.len()) == p
}

fn matches_at(s: &Vec<char>, p: &Vec<char>, i: usize) -> (r: bool)
    requires
        i + p@.len() <= s@.len(),
    ensures
        r == (s@.subrange(i as int, i + p@.len()) == p@),
{
    let n = p.len();
    let sl = s.len();
    let mut k: usize = 0;
    while k < n
        invariant
            n == p@.len(),
            sl == s@.len(),
            i + n <= s@.len(),
            k <= n,
            forall|m: int| 0 <= m < k ==> s@[i + m] == p@[m],
        decreases n - k,
    {
        if s[i + k] != p[k] {
            assert(s@.subrange(i as int, i + n)[k as int] != p@[k as int]);
            return false;
        }
        k += 1;
    }
    assert(s@.subrange(i as int, i + n) =~= p@);
    true
}

/// Whether `s` starts with `p`.
pub fn starts_with_chars(s: &Vec<char>, p: &Vec<char>) -> (r: bool)
    ensures
        r == has_prefix(s@, p@),
{
    if p.len() > s.len() {
        return false;
    }
    matches_at(s, p, 0)
}

/// Whether `p` occurs in `s`.
pub fn contains_chars(s: &Vec<char>, p: &Vec<char>) -> (r: bool)
    ensures
        r == has_sub(s@, p@),
{
    if p.len() > s.len() {
        return false;
    }
    let last = s.len() - p.len();
    let mut i: usize = 0;
    loop
        invariant
            last + p@.len() == s@.len(),
            i <= last,
            forall|j: int| 0 <= j < i ==> #[trigger] s@.subrange(j, j + p@.len()) != p@,
        decreases last - i,
    {
        if matches_at(s, p, i) {
            return true;
        }
        if i == last {
            return false;
        }
        i += 1;
    }
}

/// A link target that may be followed: after trimming and ASCII
/// lower-casing, it does not start with `javascript:`, `data:`, `file:` or
/// `vbscript:`.
pub open spec fn safe_target(href: Seq<char>) -> bool {
    let l = lower_seq(trim(href));
    !(has_prefix(l, "javascript:"@) || has_prefix(l, "data:"@) || has_prefix(l, "file:"@) || has_prefix(
        l,
        "vbscript:"@,
    ))
}

fn lowered_range(v: &Vec<char>, lo: usize, hi: usize) -> (r: Vec<char>)
    requires
        lo <= hi <= v@.len(),
    ensures
        r@ == lower_seq(v@.subrange(lo as int, hi as int)),
{
    let mut low: Vec<char> = Vec::new();
    let mut i: usize = lo;
    while i < hi
        invariant
            lo <= i <= hi <= v@.len(),
            low@ == lower_seq(v@.subrange(lo as int, i as int)),
        decreases hi - i,
    {
        low.push(to_lower_char(v[i]));
        i += 1;
        assert(low@ =~= lower_seq(v@.subrange(lo as int, i as int)));
    }
    low
}

/// Whether a link target may be followed.
pub fn is_safe_navigation_target(href: &str) -> (r: bool)
    ensures
        r == safe_target(href@),
{
    let v = chars_of(href);
    let (a, b) = trim_range(&v, 0, v.len());
    assert(v@.subrange(0, v@.len() as int) =~= v@);
    let low = lowered_range(&v, a, b);
    !(starts_with_chars(&low, &chars_of("javascript:")) || starts_with_chars(&low, &chars_of("data:"))
        || starts_with_chars(&low, &chars_of("file:")) || starts_with_chars(&low, &chars_of("vbscript:")))
}

/// An address without a scheme separator gets `https://` in front.
pub open spec fn normalized_url(input: Seq<char>) -> Seq<char> {
    if has_sub(input, "://"@) {
        input
    } else {
        "https://"@ + input
    }
}

/// Completes an address typed without a scheme.
pub fn normalize_url(input: &str) -> (r: String)
    ensures
        r@ == normalized_url(input@),
{
    let v = chars_of(input);
    if contains_chars(&v, &chars_of("://")) {
        String::from_str(input)
    } else {
        String::from_str("https://").concat(input)
    }
}

/// Bytes that `w` takes in UTF-8, capped at the largest `u64`.
pub open spec fn byte_len(w: Seq<char>) -> int
    decreases w.len(),
{
    if w.len() == 0 {
        0
    } else {
        sat_u64(byte_len(w.drop_last()) + utf8_len(w.last()))
    }
}

/// Greedy wrapping of words: the text so far and the current line's length.
/// A word goes on the current line, after a space, unless the line would
/// exceed `width`; then it starts a new line.
pub open spec fn wrap_state(ws: Seq<Seq<char>>, width: int) -> (Seq<char>, int)
    decreases ws.len(),
{
    if ws.len() == 0 {
        (Seq::empty(), 0)
    } else {
        let (out, ll) = wrap_state(ws.drop_last(), width);
        let w = ws.last();
        let n = byte_len(w);
        let joined = sat_u64(sat_u64(ll + 1) + n);
        if ll == 0 {
            (out + w, n)
        } else if joined > width {
            (out.push('\n') + w, n)
        } else {
            (out.push(' ') + w, joined)
        }
    }
}

/// The words of `input` wrapped at `width` bytes per line.
pub open spec fn wrapped(input: Seq<char>, width: int) -> Seq<char> {
    trim(wrap_state(words(input), width).0)
}

fn byte_len_range(v: &Vec<char>, lo: usize, hi: usize) -> (r: u64)
    requires
        lo <= hi <= v@.len(),
    ensures
        r == byte_len(v@.subrange(lo as int, hi as int)),
{
    let mut n: u64 = 0;
    let mut i: usize = lo;
    while i < hi
        invariant
            lo <= i <= hi <= v@.len(),
            n == byte_len(v@.subrange(lo as int, i as int)),
        decreases hi - i,
    {
        assert(v@.subrange(lo as int, i + 1).drop_last() =~= v@.subrange(lo as int, i as int));
        let c = v[i];
        let u: u64 = if (c as u32) < 0x80 {
            1
        } else if (c as u32) < 0x800 {
            2
        } else if (c as u32) < 0x10000 {
            3
        } else {
            4
        };
        n = n.saturating_add(u);
        i += 1;
    }
    n
}

/// Appends `v[lo..hi]` to `out`.
pub fn append_range(out: &mut Vec<char>, v: &Vec<char>, lo: usize, hi: usize)
    requires
        lo <= hi <= v@.len(),
    ensures
        final(out)@ == old(out)@ + v@.subrange(lo as int, hi as int),
{
    let mut i: usize = lo;
    while i < hi
        invariant
            lo <= i <= hi <= v@.len(),
            out@ == old(out)@ + v@.subrange(lo as int, i as int),
        decreases hi - i,
    {
        out.push(v[i]);
        i += 1;
        assert(out@ =~= old(out)@ + v@.subrange(lo as int, i as int));
    }
}

/// Wraps the words of a text greedily at `width` bytes per line.
pub fn wrap_text(input: &str, width: usize) -> (r: String)
    ensures
        r@ == wrapped(input@, width as int),
{
    let v = chars_of(input);
    let ws = word_ranges(&v, 0, v.len());
    assert(v@.subrange(0, v@.len() as int) =~= v@);
    let ghost w = range_view(v@, ws@);
    let mut out: Vec<char> = Vec::new();
    let mut line_len: u64 = 0;
    let mut k: usize = 0;
    while k < ws.len()
        invariant
            w == range_view(v@, ws@),
            ranges_within(ws@, 0, v@.len() as int),
            k <= ws@.len(),
            (out@, line_len as int) == wrap_state(w.take(k as int), width as int),
        decreases ws@.len() - k,
    {
        let (a, b) = ws[k];
        assert(0 <= ws@[k as int].0 <= ws@[k as int].1 <= v@.len());
        assert(w[k as int] == v@.subrange(a as int, b as int));
        assert(w.take(k + 1).drop_last() =~= w.take(k as int));
        let n = byte_len_range(&v, a, b);
        let joined = line_len.saturating_add(1).saturating_add(n);
        if line_len == 0 {
            line_len = n;
        } else if joined as u128 > width as u128 {
            out.push('\n');
            line_len = n;
        } else {
            out.push(' ');
            line_len = joined;
        }
        append_range(&mut out, &v, a, b);
        k += 1;
    }
    assert(w.take(k as int) =~= w);
    let (t0, t1) = trim_range(&out, 0, out.len());
    assert(out@.subrange(0, out@.len() as int) =~= out@);
    string_of_range(&out, t0, t1)
}

} // verus!
