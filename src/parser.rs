//! The stylesheet parser: brace-delimited rules, comma-separated selector
//! groups, semicolon-separated declarations.
use vstd::prelude::*;
use crate::text::{is_ws, is_whitespace_char, chars_of, lower_seq, to_lower_char, string_of_range, trim, trim_range};
use crate::stylesheet::{SimpleSelector, CssSelector, CssDeclaration, CssRule, EngineStyleSheet};
use crate::cascade::opt_view;
use cssparser::{Parser, ToCss, Token};

verus! {

/// The pieces of `s` between occurrences of `sep`, empty ones included.
pub open spec fn pieces(s: Seq<char>, sep: char) -> Seq<Seq<char>>
    decreases s.len(),
{
    if s.len() == 0 {
        seq![Seq::empty()]
    } else {
        let r = pieces(s.drop_last(), sep);
        if s.last() == sep {
            r.push(Seq::empty())
        } else {
            r.update(r.len() - 1, r.last().push(s.last()))
        }
    }
}

/// The maximal runs of non-whitespace characters of `s`.
pub open spec fn words(s: Seq<char>) -> Seq<Seq<char>>
    decreases s.len(),
{
    if s.len() == 0 {
        Seq::empty()
    } else {
        let r = words(s.drop_last());
        let c = s.last();
        if is_ws(c) {
            r
        } else if s.len() >= 2 && !is_ws(s[s.len() - 2]) {
            r.update(r.len() - 1, r.last().push(c))
        } else {
            r.push(seq![c])
        }
    }
}

/// The index of the first `c` in `s`, or -1.
pub open spec fn first_index(s: Seq<char>, c: char) -> int
    decreases s.len(),
{
    if s.len() == 0 {
        -1
    } else if s[0] == c {
        0
    } else {
        let r = first_index(s.drop_first(), c);
        if r < 0 {
            -1
        } else {
            r + 1
        }
    }
}

/// The subsequences of `v` that a list of ranges picks.
pub open spec fn range_view(v: Seq<char>, r: Seq<(usize, usize)>) -> Seq<Seq<char>> {
    r.map_values(|p: (usize, usize)| v.subrange(p.0 as int, p.1 as int))
}

pub open spec fn ranges_within(r: Seq<(usize, usize)>, lo: int, hi: int) -> bool {
    forall|k: int| 0 <= k < r.len() ==> lo <= (#[trigger] r[k]).0 <= r[k].1 <= hi
}

/// The ranges of the pieces of `v[lo..hi]` between occurrences of `sep`.
pub fn split_ranges(v: &Vec<char>, lo: usize, hi: usize, sep: char) -> (r: Vec<(usize, usize)>)
    requires
        lo <= hi <= v@.len(),
    ensures
        range_view(v@, r@) == pieces(v@.subrange(lo as int, hi as int), sep),
        ranges_within(r@, lo as int, hi as int),
{
    let mut done: Vec<(usize, usize)> = Vec::new();
    let mut start: usize = lo;
    let mut i: usize = lo;
    assert(v@.subrange(lo as int, lo as int) =~= Seq::<char>::empty());
    assert(range_view(v@, done@) =~= Seq::<Seq<char>>::empty());
    assert(range_view(v@, done@).push(v@.subrange(lo as int, lo as int)) =~= pieces(v@.subrange(lo as int, lo as int), sep));
    while i < hi
        invariant
            lo <= start <= i <= hi <= v@.len(),
            ranges_within(done@, lo as int, i as int),
            range_view(v@, done@).push(v@.subrange(start as int, i as int)) == pieces(v@.subrange(lo as int, i as int), sep),
        decreases hi - i,
    {
        let ghost prev = pieces(v@.subrange(lo as int, i as int), sep);
        assert(v@.subrange(lo as int, i + 1).drop_last() =~= v@.subrange(lo as int, i as int));
        assert(v@.subrange(lo as int, i + 1).last() == v@[i as int]);
        if v[i] == sep {
            let ghost old_done = done@;
            done.push((start, i));
            assert(range_view(v@, done@) =~= range_view(v@, old_done).push(v@.subrange(start as int, i as int)));
            start = i + 1;
            assert(v@.subrange(start as int, i + 1) =~= Seq::<char>::empty());
            assert(pieces(v@.subrange(lo as int, i + 1), sep) == prev.push(Seq::empty()));
            assert(range_view(v@, done@).push(v@.subrange(start as int, i + 1)) =~= pieces(v@.subrange(lo as int, i + 1), sep));
        } else {
            assert(v@.subrange(start as int, i + 1) =~= v@.subrange(start as int, i as int).push(v@[i as int]));
            assert(range_view(v@, done@).push(v@.subrange(start as int, i + 1)) =~= prev.update(prev.len() - 1, prev.last().push(v@[i as int])));
        }
        i += 1;
    }
    let ghost old_done = done@;
    done.push((start, hi));
    assert(range_view(v@, done@) =~= range_view(v@, old_done).push(v@.subrange(start as int, hi as int)));
    done
}

/// The ranges of the words of `v[lo..hi]`.
pub fn word_ranges(v: &Vec<char>, lo: usize, hi: usize) -> (r: Vec<(usize, usize)>)
    requires
        lo <= hi <= v@.len(),
    ensures
        range_view(v@, r@) == words(v@.subrange(lo as int, hi as int)),
        ranges_within(r@, lo as int, hi as int),
{
    let mut out: Vec<(usize, usize)> = Vec::new();
    let mut i: usize = lo;
    assert(range_view(v@, out@) =~= words(v@.subrange(lo as int, lo as int)));
    while i < hi
        invariant
            lo <= i <= hi <= v@.len(),
            ranges_within(out@, lo as int, i as int),
            range_view(v@, out@) == words(v@.subrange(lo as int, i as int)),
            i > lo && !is_ws(v@[i - 1]) ==> out@.len() > 0 && out@.last().1 == i,
        decreases hi - i,
    {
        let ghost prev = words(v@.subrange(lo as int, i as int));
        assert(v@.subrange(lo as int, i + 1).drop_last() =~= v@.subrange(lo as int, i as int));
        assert(v@.subrange(lo as int, i + 1).last() == v@[i as int]);
        let c = v[i];
        if is_whitespace_char(c) {
        } else if i > lo && !is_whitespace_char(v[i - 1]) {
            assert(v@.subrange(lo as int, i + 1)[i - lo - 1] == v@[i - 1]);
            let last = out.len() - 1;
            let a = out[last].0;
            out.set(last, (a, i + 1));
            assert(v@.subrange(a as int, i + 1) =~= v@.subrange(a as int, i as int).push(c));
            assert(range_view(v@, out@) =~= prev.update(prev.len() - 1, prev.last().push(c)));
        } else {
            assert(i > lo ==> v@.subrange(lo as int, i + 1)[i - lo - 1] == v@[i - 1]);
            out.push((i, i + 1));
            assert(v@.subrange(i as int, i + 1) =~= seq![c]);
            assert(range_view(v@, out@) =~= prev.push(seq![c]));
        }
        i += 1;
    }
    out
}

proof fn lemma_first_index(s: Seq<char>, c: char, i: int)
    requires
        0 <= i <= s.len(),
        forall|k: int| 0 <= k < i ==> s[k] != c,
        i == s.len() || s[i] == c,
    ensures
        first_index(s, c) == if i == s.len() { -1 } else { i },
    decreases i,
{
    if i > 0 {
        lemma_first_index(s.drop_first(), c, i - 1);
    }
}

/// The first index of `c` in `v[lo..hi]`.
pub fn find_char(v: &Vec<char>, lo: usize, hi: usize, c: char) -> (r: Option<usize>)
    requires
        lo <= hi <= v@.len(),
    ensures
        match r {
            Some(i) => lo <= i < hi && first_index(v@.subrange(lo as int, hi as int), c) == i - lo,
            None => first_index(v@.subrange(lo as int, hi as int), c) == -1,
        },
{
    let mut i: usize = lo;
    while i < hi
        invariant
            lo <= i <= hi <= v@.len(),
            forall|k: int| lo <= k < i ==> v@[k] != c,
        decreases hi - i,
    {
        if v[i] == c {
            proof {
                lemma_first_index(v@.subrange(lo as int, hi as int), c, i - lo);
            }
            return Some(i);
        }
        i += 1;
    }
    proof {
        lemma_first_index(v@.subrange(lo as int, hi as int), c, hi - lo);
    }
    None
}


/// A simple selector as plain values: tag, id and classes.
pub type SimpleModel = (Option<Seq<char>>, Option<Seq<char>>, Seq<Seq<char>>);

pub open spec fn strs(v: Seq<String>) -> Seq<Seq<char>> {
    v.map_values(|s: String| s@)
}

pub open spec fn simple_model(s: SimpleSelector) -> SimpleModel {
    (opt_view(s.tag), opt_view(s.id), strs(s.classes@))
}

pub open spec fn selector_model(s: CssSelector) -> Seq<SimpleModel> {
    s.parts@.map_values(|p: SimpleSelector| simple_model(p))
}

/// A captured run is stored by the mode it was read in: the tag, lower-cased,
/// after nothing; the id after `#`; a class after `.`.
pub open spec fn flush(st: SimpleModel, cur: Seq<char>, mode: char) -> SimpleModel {
    if cur.len() == 0 {
        st
    } else if mode == 't' {
        (Some(lower_seq(cur)), st.1, st.2)
    } else if mode == '#' {
        (st.0, Some(cur), st.2)
    } else if mode == '.' {
        (st.0, st.1, st.2.push(cur))
    } else {
        st
    }
}

pub open spec fn is_delim(c: char) -> bool {
    c == '#' || c == '.' || c == '\0'
}

pub open spec fn scan_step(s: (SimpleModel, Seq<char>, char), c: char) -> (SimpleModel, Seq<char>, char) {
    if is_delim(c) {
        (flush(s.0, s.1, s.2), Seq::empty(), c)
    } else {
        (s.0, s.1.push(c), s.2)
    }
}

/// The scanner's state after the characters of `tok`: what was stored, the
/// run being captured, and the mode.
pub open spec fn scan(tok: Seq<char>) -> (SimpleModel, Seq<char>, char)
    decreases tok.len(),
{
    if tok.len() == 0 {
        ((None, None, Seq::empty()), Seq::empty(), 't')
    } else {
        scan_step(scan(tok.drop_last()), tok.last())
    }
}

/// The simple selector that one token reads as.
pub open spec fn simple_of(tok: Seq<char>) -> SimpleModel {
    scan_step(scan(tok), '\0').0
}

/// The selector that a selector-group member reads as: one simple selector
/// per whitespace-separated token.
pub open spec fn parse_selector_spec(text: Seq<char>) -> Seq<SimpleModel> {
    words(text).map_values(|w: Seq<char>| simple_of(w))
}

fn lower_string_of_range(v: &Vec<char>, lo: usize, hi: usize) -> (r: String)
    requires
        lo <= hi <= v@.len(),
    ensures
        r@ == lower_seq(v@.subrange(lo as int, hi as int)),
{
    let mut low: Vec<char> = Vec::new();
    let mut i: usize = lo;
    while i < hi
        invariant
            lo <= i <= hi <= v@.len(),
            low@ == lower_seq(v@.subrange(lo as int, i as int)),
        decreases hi - i,
    {
        low.push(to_lower_char(v[i]));
        i += 1;
        assert(low@ =~= lower_seq(v@.subrange(lo as int, i as int)));
    }
    string_of_range(&low, 0, low.len())
}

fn flush_exec(sel: &mut SimpleSelector, v: &Vec<char>, a: usize, b: usize, mode: char)
    requires
        a <= b <= v@.len(),
    ensures
        simple_model(*final(sel)) == flush(simple_model(*old(sel)), v@.subrange(a as int, b as int), mode),
{
    if a == b {
        return;
    }
    if mode == 't' {
        sel.tag = Some(lower_string_of_range(v, a, b));
    } else if mode == '#' {
        sel.id = Some(string_of_range(v, a, b));
    } else if mode == '.' {
        let ghost old_classes = sel.classes@;
        sel.classes.push(string_of_range(v, a, b));
        assert(strs(sel.classes@) =~= strs(old_classes).push(v@.subrange(a as int, b as int)));
    }
}

/// The simple selector that the token `v[lo..hi]` reads as.
fn parse_simple(v: &Vec<char>, lo: usize, hi: usize) -> (r: SimpleSelector)
    requires
        lo <= hi <= v@.len(),
    ensures
        simple_model(r) == simple_of(v@.subrange(lo as int, hi as int)),
{
    let mut sel = SimpleSelector { tag: None, id: None, classes: Vec::new() };
    let mut mode: char = 't';
    let mut cur: usize = lo;
    let mut i: usize = lo;
    assert(strs(sel.classes@) =~= Seq::<Seq<char>>::empty());
    assert(v@.subrange(lo as int, lo as int) =~= Seq::<char>::empty());
    while i < hi
        invariant
            lo <= cur <= i <= hi <= v@.len(),
            (simple_model(sel), v@.subrange(cur as int, i as int), mode) == scan(v@.subrange(lo as int, i as int)),
        decreases hi - i,
    {
        assert(v@.subrange(lo as int, i + 1).drop_last() =~= v@.subrange(lo as int, i as int));
        assert(v@.subrange(lo as int, i + 1).last() == v@[i as int]);
        let c = v[i];
        if c == '#' || c == '.' || c == '\0' {
            flush_exec(&mut sel, v, cur, i, mode);
            mode = c;
            cur = i + 1;
            assert(v@.subrange(cur as int, i + 1) =~= Seq::<char>::empty());
        } else {
            assert(v@.subrange(cur as int, i + 1) =~= v@.subrange(cur as int, i as int).push(c));
        }
        i += 1;
    }
    flush_exec(&mut sel, v, cur, hi, mode);
    sel
}

/// The selector that `v[lo..hi]` reads as.
fn parse_selector_range(v: &Vec<char>, lo: usize, hi: usize) -> (r: CssSelector)
    requires
        lo <= hi <= v@.len(),
    ensures
        selector_model(r) == parse_selector_spec(v@.subrange(lo as int, hi as int)),
{
    let ws = word_ranges(v, lo, hi);
    let ghost w = range_view(v@, ws@);
    let mut parts: Vec<SimpleSelector> = Vec::new();
    let mut k: usize = 0;
    while k < ws.len()
        invariant
            lo <= hi <= v@.len(),
            w == range_view(v@, ws@),
            ranges_within(ws@, lo as int, hi as int),
            k <= ws@.len(),
            parts@.map_values(|p: SimpleSelector| simple_model(p)) =~= w.take(k as int).map_values(
                |t: Seq<char>| simple_of(t),
            ),
        decreases ws@.len() - k,
    {
        let (a, b) = ws[k];
        assert(lo <= ws@[k as int].0 <= ws@[k as int].1 <= hi);
        assert(w[k as int] == v@.subrange(a as int, b as int));
        let p = parse_simple(v, a, b);
        let ghost old_parts = parts@;
        parts.push(p);
        assert(w.take(k + 1) =~= w.take(k as int).push(w[k as int]));
        assert(parts@.map_values(|p: SimpleSelector| simple_model(p)) =~= old_parts.map_values(
            |p: SimpleSelector| simple_model(p),
        ).push(simple_model(p)));
        assert(w.take(k + 1).map_values(|t: Seq<char>| simple_of(t)) =~= w.take(k as int).map_values(
            |t: Seq<char>| simple_of(t),
        ).push(simple_of(w[k as int])));
        k += 1;
    }
    assert(w.take(k as int) =~= w);
    CssSelector { parts }
}

/// Parses the text of one selector, such as `div.card#x p`: one simple
/// selector per whitespace-separated token.
pub fn parse_selector_text(text: &str) -> (r: CssSelector)
    ensures
        selector_model(r) == parse_selector_spec(text@),
{
    let v = chars_of(text);
    assert(v@.subrange(0, v@.len() as int) =~= v@);
    parse_selector_range(&v, 0, v.len())
}


/// The text that CSS tokenization gives back for a declaration value.
pub uninterp spec fn css_normalized(value: Seq<char>) -> Seq<char>;

/// Relies on cssparser's `Parser::next_including_whitespace_and_comments`:
/// identifiers, hashes, numbers, dimensions and percentages are written back in
/// order, with a space for each whitespace token; other tokens are dropped.
/// The result depends on the value alone.
#[verifier::external_body]
fn normalize_css_value(value: &str) -> (r: String)
    ensures
        r@ == css_normalized(value@),
{
    let mut parser = Parser::new(value);
    let mut out = String::new();
    while let Ok(token) = parser.next_including_whitespace_and_comments() {
        match token {
            Token::Ident(v) => out.push_str(v),
            Token::Hash(v) => out.push_str(&format!("#{}", v)),
            Token::Dimension { value, unit, .. } => out.push_str(&format!("{}{}", value, unit)),
            Token::Number { value, .. } => out.push_str(&format!("{}", value)),
            Token::Percentage { .. } => out.push_str(&token.to_css_string()),
            Token::WhiteSpace(_) => out.push(' '),
            _ => {},
        }
    }
    out
}

pub type DeclModel = (Seq<char>, Seq<char>);

pub type RuleModel = (Seq<Seq<SimpleModel>>, Seq<DeclModel>, int);

pub open spec fn decl_model(d: CssDeclaration) -> DeclModel {
    (d.property@, d.value@)
}

pub open spec fn rule_model(r: CssRule) -> RuleModel {
    (
        r.selectors@.map_values(|s: CssSelector| selector_model(s)),
        r.declarations@.map_values(|d: CssDeclaration| decl_model(d)),
        r.source_order as int,
    )
}

pub open spec fn sheet_model(sh: EngineStyleSheet) -> Seq<RuleModel> {
    sh.rules@.map_values(|r: CssRule| rule_model(r))
}

/// The value kept for a trimmed raw value: the trimmed normalized text, or the
/// raw value where normalization leaves only whitespace.
pub open spec fn kept_value(value: Seq<char>) -> Seq<char> {
    let t = trim(css_normalized(value));
    if t.len() == 0 {
        value
    } else {
        t
    }
}

/// One `name: value` piece: dropped without a colon, or with an empty name or
/// value; the name is lower-cased.
pub open spec fn decl_of(piece: Seq<char>) -> Option<DeclModel> {
    let j = first_index(piece, ':');
    if j < 0 {
        None
    } else {
        let name = trim(piece.subrange(0, j));
        let value = trim(piece.subrange(j + 1, piece.len() as int));
        if name.len() == 0 || value.len() == 0 {
            None
        } else {
            Some((lower_seq(name), kept_value(value)))
        }
    }
}

pub open spec fn decls_of(ps: Seq<Seq<char>>) -> Seq<DeclModel>
    decreases ps.len(),
{
    if ps.len() == 0 {
        Seq::empty()
    } else {
        let r = decls_of(ps.drop_last());
        match decl_of(ps.last()) {
            Some(d) => r.push(d),
            None => r,
        }
    }
}

/// The selector-group members that read as a non-empty selector.
pub open spec fn selectors_of(ps: Seq<Seq<char>>) -> Seq<Seq<SimpleModel>>
    decreases ps.len(),
{
    if ps.len() == 0 {
        Seq::empty()
    } else {
        let r = selectors_of(ps.drop_last());
        let p = parse_selector_spec(ps.last());
        if p.len() > 0 {
            r.push(p)
        } else {
            r
        }
    }
}

/// One `}`-terminated chunk: dropped without `{` or without any selector.
pub open spec fn block_rule(block: Seq<char>) -> Option<(Seq<Seq<SimpleModel>>, Seq<DeclModel>)> {
    let i = first_index(block, '{');
    if i < 0 {
        None
    } else {
        let sels = selectors_of(pieces(block.subrange(0, i), ','));
        if sels.len() == 0 {
            None
        } else {
            Some((sels, decls_of(pieces(block.subrange(i + 1, block.len() as int), ';'))))
        }
    }
}

/// The accepted rules of the chunks, each numbered by its place among them.
pub open spec fn rules_of(blocks: Seq<Seq<char>>) -> Seq<RuleModel>
    decreases blocks.len(),
{
    if blocks.len() == 0 {
        Seq::empty()
    } else {
        let r = rules_of(blocks.drop_last());
        match block_rule(blocks.last()) {
            Some((s, d)) => r.push((s, d, r.len() as int)),
            None => r,
        }
    }
}

/// The stylesheet that a CSS text reads as.
pub open spec fn parse_sheet_spec(css: Seq<char>) -> Seq<RuleModel> {
    rules_of(pieces(css, '}'))
}

fn parse_decl(v: &Vec<char>, lo: usize, hi: usize) -> (r: Option<CssDeclaration>)
    requires
        lo <= hi <= v@.len(),
    ensures
        match r {
            Some(d) => decl_of(v@.subrange(lo as int, hi as int)) == Some(decl_model(d)),
            None => decl_of(v@.subrange(lo as int, hi as int)) is None,
        },
{
    let ghost piece = v@.subrange(lo as int, hi as int);
    let j = match find_char(v, lo, hi, ':') {
        Some(j) => j,
        None => {
            return None;
        },
    };
    assert(piece.subrange(0, j - lo) =~= v@.subrange(lo as int, j as int));
    assert(piece.subrange(j - lo + 1, piece.len() as int) =~= v@.subrange(j + 1, hi as int));
    let (n0, n1) = trim_range(v, lo, j);
    let (v0, v1) = trim_range(v, j + 1, hi);
    if n0 == n1 || v0 == v1 {
        return None;
    }
    let value = string_of_range(v, v0, v1);
    let norm = normalize_css_value(value.as_str());
    let nv = chars_of(norm.as_str());
    let (t0, t1) = trim_range(&nv, 0, nv.len());
    assert(nv@.subrange(0, nv@.len() as int) =~= nv@);
    let kept = if t0 == t1 {
        value
    } else {
        string_of_range(&nv, t0, t1)
    };
    let property = lower_string_of_range(v, n0, n1);
    Some(CssDeclaration { property, value: kept })
}

/// The rule of one chunk `v[lo..hi]`, numbered `order`.
fn parse_block(v: &Vec<char>, lo: usize, hi: usize, order: usize) -> (r: Option<CssRule>)
    requires
        lo <= hi <= v@.len(),
    ensures
        match r {
            Some(rule) => block_rule(v@.subrange(lo as int, hi as int)) matches Some((s, d)) && rule_model(
                rule,
            ) == (s, d, order as int),
            None => block_rule(v@.subrange(lo as int, hi as int)) is None,
        },
{
    let ghost block = v@.subrange(lo as int, hi as int);
    let i = match find_char(v, lo, hi, '{') {
        Some(i) => i,
        None => {
            return None;
        },
    };
    assert(block.subrange(0, i - lo) =~= v@.subrange(lo as int, i as int));
    assert(block.subrange(i - lo + 1, block.len() as int) =~= v@.subrange(i + 1, hi as int));
    let groups = split_ranges(v, lo, i, ',');
    let ghost gs = range_view(v@, groups@);
    let mut selectors: Vec<CssSelector> = Vec::new();
    let mut k: usize = 0;
    while k < groups.len()
        invariant
            lo <= i < hi <= v@.len(),
            gs == range_view(v@, groups@),
            ranges_within(groups@, lo as int, i as int),
            k <= groups@.len(),
            selectors@.map_values(|s: CssSelector| selector_model(s)) == selectors_of(gs.take(k as int)),
        decreases groups@.len() - k,
    {
        let (a, b) = groups[k];
        assert(lo <= groups@[k as int].0 <= groups@[k as int].1 <= i);
        assert(gs[k as int] == v@.subrange(a as int, b as int));
        assert(gs.take(k + 1).drop_last() =~= gs.take(k as int));
        let sel = parse_selector_range(v, a, b);
        if sel.parts.len() > 0 {
            let ghost old_sels = selectors@;
            let ghost m = selector_model(sel);
            selectors.push(sel);
            assert(selectors@.map_values(|s: CssSelector| selector_model(s)) =~= old_sels.map_values(
                |s: CssSelector| selector_model(s),
            ).push(m));
        }
        k += 1;
    }
    assert(gs.take(k as int) =~= gs);
    if selectors.len() == 0 {
        return None;
    }
    let items = split_ranges(v, i + 1, hi, ';');
    let ghost ds = range_view(v@, items@);
    let mut declarations: Vec<CssDeclaration> = Vec::new();
    let mut k: usize = 0;
    while k < items.len()
        invariant
            lo <= i < hi <= v@.len(),
            ds == range_view(v@, items@),
            ranges_within(items@, i + 1, hi as int),
            k <= items@.len(),
            declarations@.map_values(|d: CssDeclaration| decl_model(d)) == decls_of(ds.take(k as int)),
        decreases items@.len() - k,
    {
        let (a, b) = items[k];
        assert(i + 1 <= items@[k as int].0 <= items@[k as int].1 <= hi);
        assert(ds[k as int] == v@.subrange(a as int, b as int));
        assert(ds.take(k + 1).drop_last() =~= ds.take(k as int));
        match parse_decl(v, a, b) {
            Some(d) => {
                let ghost old_ds = declarations@;
                let ghost m = decl_model(d);
                declarations.push(d);
                assert(declarations@.map_values(|d: CssDeclaration| decl_model(d)) =~= old_ds.map_values(
                    |d: CssDeclaration| decl_model(d),
                ).push(m));
            },
            None => {},
        }
        k += 1;
    }
    assert(ds.take(k as int) =~= ds);
    Some(CssRule { selectors, declarations, source_order: order })
}

/// Parses CSS text into a stylesheet. Never fails: malformed chunks,
/// selector-group members and declarations are dropped.
pub fn parse_css_stylesheet(css: &str) -> (r: EngineStyleSheet)
    ensures
        sheet_model(r) == parse_sheet_spec(css@),
        r.ordered(),
{
    let v = chars_of(css);
    let blocks = split_ranges(&v, 0, v.len(), '}');
    assert(v@.subrange(0, v@.len() as int) =~= v@);
    let ghost bs = range_view(v@, blocks@);
    let mut rules: Vec<CssRule> = Vec::new();
    let mut k: usize = 0;
    while k < blocks.len()
        invariant
            bs == range_view(v@, blocks@),
            ranges_within(blocks@, 0, v@.len() as int),
            k <= blocks@.len(),
            rules@.len() <= k,
            rules@.map_values(|r: CssRule| rule_model(r)) == rules_of(bs.take(k as int)),
            forall|m: int| 0 <= m < rules@.len() ==> #[trigger] rules@[m].source_order == m,
        decreases blocks@.len() - k,
    {
        let (a, b) = blocks[k];
        assert(0 <= blocks@[k as int].0 <= blocks@[k as int].1 <= v@.len());
        assert(bs[k as int] == v@.subrange(a as int, b as int));
        assert(bs.take(k + 1).drop_last() =~= bs.take(k as int));
        assert(rules_of(bs.take(k as int)).len() == rules@.len());
        match parse_block(&v, a, b, rules.len()) {
            Some(rule) => {
                let ghost old_rules = rules@;
                let ghost m = rule_model(rule);
                rules.push(rule);
                assert(rules@.map_values(|r: CssRule| rule_model(r)) =~= old_rules.map_values(
                    |r: CssRule| rule_model(r),
                ).push(m));
            },
            None => {},
        }
        k += 1;
    }
    assert(bs.take(k as int) =~= bs);
    EngineStyleSheet { rules }
}

} // verus!
