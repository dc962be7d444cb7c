//! Page-level helpers around the URL and HTML libraries: address parsing and
//! resolution, and the text, styles, scripts and links that a page carries.
use vstd::prelude::*;
use crate::text::{chars_of, lower_seq, string_of, string_of_range, trim, trim_range};
use crate::cascade::opt_view;
use crate::parser::{strs, words, word_ranges, range_view, ranges_within};
use crate::navigation::{has_prefix, has_sub, safe_target, starts_with_chars, contains_chars, is_safe_navigation_target, wrapped, wrap_text, append_range};

verus! {

/// An http(s) address split into its parts; `port` is explicit or the
/// scheme's default.
#[derive(Debug, Clone, PartialEq, Eq)]
pub struct UrlParts {
    pub scheme: String,
    pub host: String,
    pub port: u16,
    pub path: String,
}

/// A fetched response: the status line, the headers and the body text.
#[derive(Debug, Clone)]
pub struct HttpResponse {
    pub status_line: String,
    pub headers: Vec<(String, String)>,
    pub body: String,
}

/// A page's markup with the style sheets and scripts found in it.
#[derive(Debug, Clone)]
pub struct SourceBundle {
    pub html: String,
    pub css: String,
    pub javascript: String,
    pub typescript: String,
}

/// What URL parsing finds in a text: scheme, host, port (explicit or the
/// scheme's default) and path; none when the text is not a URL.
pub uninterp spec fn url_parsed(raw: Seq<char>) -> Option<(Seq<char>, Option<Seq<char>>, Option<u16>, Seq<char>)>;

/// Relies on `url::Url::parse`, read back through `Url::scheme`,
/// `Url::host_str`, `Url::port_or_known_default` and `Url::path`.
#[verifier::external_body]
fn url_components(raw: &str) -> (r: Option<(String, Option<String>, Option<u16>, String)>)
    ensures
        match r {
            Some(p) => url_parsed(raw@) == Some((p.0@, opt_view(p.1), p.2, p.3@)),
            None => url_parsed(raw@) is None,
        },
{
    let url = url::Url::parse(raw).ok()?;
    Some((
        url.scheme().to_string(),
        url.host_str().map(|h| h.to_string()),
        url.port_or_known_default(),
        url.path().to_string(),
    ))
}

/// The text that `url::Url::join` gives for `href` against `base`, when both
/// parse.
pub uninterp spec fn url_joined(base: Seq<char>, href: Seq<char>) -> Option<Seq<char>>;

/// Relies on `url::Url::parse` of the base and `Url::join`, serialized back to
/// text.
#[verifier::external_body]
fn join_url(base: &str, href: &str) -> (r: Option<String>)
    ensures
        opt_view(r) == url_joined(base@, href@),
{
    let b = url::Url::parse(base).ok()?;
    b.join(href).ok().map(|u| u.to_string())
}

pub open spec fn parts_model(p: UrlParts) -> (Seq<char>, Seq<char>, u16, Seq<char>) {
    (p.scheme@, p.host@, p.port, p.path@)
}

/// An http or https address with a host and a port; an empty path reads as `/`.
pub open spec fn url_parts_spec(raw: Seq<char>) -> Option<(Seq<char>, Seq<char>, u16, Seq<char>)> {
    match url_parsed(raw) {
        None => None,
        Some(u) => {
            if !(u.0 == "http"@ || u.0 == "https"@) {
                None
            } else {
                match (u.1, u.2) {
                    (Some(h), Some(p)) => Some(
                        (u.0, h, p, if u.3.len() == 0 { "/"@ } else { u.3 }),
                    ),
                    _ => None,
                }
            }
        },
    }
}

fn eq_str(s: &String, lit: &str) -> (r: bool)
    ensures
        r == (s@ == lit@),
{
    *s == String::from_str(lit)
}

/// Splits an http or https address into scheme, host, port and path.
pub fn parse_url(raw: &str) -> (r: Option<UrlParts>)
    ensures
        match r {
            Some(p) => url_parts_spec(raw@) == Some(parts_model(p)),
            None => url_parts_spec(raw@) is None,
        },
{
    let (scheme, host, port, path) = match url_components(raw) {
        Some(c) => c,
        None => {
            return None;
        },
    };
    if !(eq_str(&scheme, "http") || eq_str(&scheme, "https")) {
        return None;
    }
    let host = match host {
        Some(h) => h,
        None => {
            return None;
        },
    };
    let port = match port {
        Some(p) => p,
        None => {
            return None;
        },
    };
    let path = if path.as_str().unicode_len() == 0 {
        String::from_str("/")
    } else {
        path
    };
    Some(UrlParts { scheme, host, port, path })
}

/// Where a link leads from a page: unsafe or empty targets lead nowhere,
/// absolute http(s) targets stand as they are, fragments stay on the page,
/// and other targets are joined to the page's address.
pub open spec fn resolved(base: Seq<char>, href: Seq<char>) -> Option<Seq<char>> {
    let clean = trim(href);
    if clean.len() == 0 || !safe_target(clean) {
        None
    } else if has_prefix(clean, "http://"@) || has_prefix(clean, "https://"@) {
        Some(clean)
    } else if url_parsed(base) is None {
        None
    } else if clean[0] == '#' {
        Some(base)
    } else {
        url_joined(base, clean)
    }
}

/// Resolves a link target against the address of the page it is on.
pub fn resolve_url(base_url: &str, href: &str) -> (r: Option<String>)
    ensures
        opt_view(r) == resolved(base_url@, href@),
{
    let v = chars_of(href);
    let (a, b) = trim_range(&v, 0, v.len());
    assert(v@.subrange(0, v@.len() as int) =~= v@);
    if a == b {
        return None;
    }
    let clean = string_of_range(&v, a, b);
    if !is_safe_navigation_target(clean.as_str()) {
        return None;
    }
    let cv = chars_of(clean.as_str());
    if starts_with_chars(&cv, &chars_of("http://")) || starts_with_chars(&cv, &chars_of("https://")) {
        return Some(clean);
    }
    if url_components(base_url).is_none() {
        return None;
    }
    if cv[0] == '#' {
        return Some(String::from_str(base_url));
    }
    join_url(base_url, clean.as_str())
}

/// `ps` joined with `sep` between neighbours.
pub open spec fn join_with(ps: Seq<Seq<char>>, sep: Seq<char>) -> Seq<char>
    decreases ps.len(),
{
    if ps.len() == 0 {
        Seq::empty()
    } else if ps.len() == 1 {
        ps[0]
    } else {
        join_with(ps.drop_last(), sep) + sep + ps.last()
    }
}

fn push_chars(out: &mut Vec<char>, s: &str)
    ensures
        final(out)@ == old(out)@ + s@,
{
    let v = chars_of(s);
    append_range(out, &v, 0, v.len());
    assert(v@.subrange(0, v@.len() as int) =~= v@);
}

fn join_strings(ps: &Vec<String>, sep: &str) -> (r: String)
    ensures
        r@ == join_with(strs(ps@), sep@),
{
    let ghost s = strs(ps@);
    let mut out: Vec<char> = Vec::new();
    let mut k: usize = 0;
    while k < ps.len()
        invariant
            s == strs(ps@),
            k <= ps@.len(),
            out@ == join_with(s.take(k as int), sep@),
        decreases ps@.len() - k,
    {
        assert(s.take(k + 1).drop_last() =~= s.take(k as int));
        if k > 0 {
            push_chars(&mut out, sep);
        } else {
            assert(out@ =~= Seq::<char>::empty());
        }
        push_chars(&mut out, ps[k].as_str());
        assert(k == 0 ==> out@ =~= s.take(1)[0]);
        k += 1;
    }
    assert(s.take(k as int) =~= s);
    string_of(&out)
}

/// The text of each `style` element of a page, in document order.
pub uninterp spec fn style_texts_of(html: Seq<char>) -> Seq<Seq<char>>;

/// Relies on `scraper::Html::parse_document`, selection of `style` elements
/// and `ElementRef::text`: each element's text, in document order.
#[verifier::external_body]
fn style_texts(html: &str) -> (r: Vec<String>)
    ensures
        strs(r@) == style_texts_of(html@),
{
    let doc = scraper::Html::parse_document(html);
    let sel = scraper::Selector::parse("style").expect("valid selector");
    doc.select(&sel).map(|n| n.text().collect::<String>()).collect()
}

/// The page's style sheets, one after another, separated by line breaks.
pub fn extract_style_blocks(html: &str) -> (r: String)
    ensures
        r@ == join_with(style_texts_of(html@), "\n"@),
{
    join_strings(&style_texts(html), "\n")
}


/// Each `script` element of a page: its `type` and `src` attributes (empty
/// when absent) and its text, in document order.
pub uninterp spec fn scripts_of(html: Seq<char>) -> Seq<(Seq<char>, Seq<char>, Seq<char>)>;

/// Relies on `scraper::Html::parse_document`, selection of `script` elements,
/// `Element::attr` and `ElementRef::text`.
#[verifier::external_body]
fn script_elements(html: &str) -> (r: Vec<(String, String, String)>)
    ensures
        r@.map_values(|t: (String, String, String)| (t.0@, t.1@, t.2@)) == scripts_of(html@),
{
    let doc = scraper::Html::parse_document(html);
    let sel = scraper::Selector::parse("script").expect("valid selector");
    doc.select(&sel).map(|s| (
        s.value().attr("type").unwrap_or_default().to_string(),
        s.value().attr("src").unwrap_or_default().to_string(),
        s.text().collect::<String>(),
    )).collect()
}

/// The source block of one script: a note of its external source, then its
/// trimmed text, each on a line of its own.
pub open spec fn script_block(src: Seq<char>, body: Seq<char>) -> Seq<char> {
    (if src.len() > 0 {
        "// external script src="@ + src + "\n"@
    } else {
        Seq::empty()
    }) + (if trim(body).len() > 0 {
        trim(body) + "\n"@
    } else {
        Seq::empty()
    })
}

/// A script whose lower-cased type names TypeScript.
pub open spec fn is_typescript(kind: Seq<char>) -> bool {
    has_sub(lower_seq(kind), "typescript"@) || has_sub(lower_seq(kind), "text/ts"@)
}

/// The JavaScript and TypeScript sources of a list of scripts: each non-blank
/// block followed by an empty line, in order.
pub open spec fn bundle_sources(scripts: Seq<(Seq<char>, Seq<char>, Seq<char>)>) -> (Seq<char>, Seq<char>)
    decreases scripts.len(),
{
    if scripts.len() == 0 {
        (Seq::empty(), Seq::empty())
    } else {
        let (js, ts) = bundle_sources(scripts.drop_last());
        let s = scripts.last();
        let block = script_block(s.1, s.2);
        if trim(block).len() == 0 {
            (js, ts)
        } else if is_typescript(s.0) {
            (js, ts + block + "\n"@)
        } else {
            (js + block + "\n"@, ts)
        }
    }
}

fn trimmed(s: &String) -> (r: String)
    ensures
        r@ == trim(s@),
{
    let v = chars_of(s.as_str());
    let (a, b) = trim_range(&v, 0, v.len());
    assert(v@.subrange(0, v@.len() as int) =~= v@);
    string_of_range(&v, a, b)
}

fn lowered(s: &String) -> (r: Vec<char>)
    ensures
        r@ == lower_seq(s@),
{
    let v = chars_of(s.as_str());
    let mut low: Vec<char> = Vec::new();
    let mut i: usize = 0;
    while i < v.len()
        invariant
            i <= v@.len(),
            low@ == lower_seq(v@.take(i as int)),
        decreases v@.len() - i,
    {
        low.push(crate::text::to_lower_char(v[i]));
        i += 1;
        assert(low@ =~= lower_seq(v@.take(i as int)));
    }
    assert(v@.take(i as int) =~= v@);
    low
}

/// A page's markup with its style sheets and its JavaScript and TypeScript
/// sources.
pub fn extract_source_bundle(html: &str) -> (r: SourceBundle)
    ensures
        r.html@ == html@,
        r.css@ == join_with(style_texts_of(html@), "\n"@),
        (r.javascript@, r.typescript@) == bundle_sources(scripts_of(html@)),
{
    let scripts = script_elements(html);
    let ghost sc = scripts_of(html@);
    let mut js: Vec<char> = Vec::new();
    let mut ts: Vec<char> = Vec::new();
    let mut k: usize = 0;
    while k < scripts.len()
        invariant
            scripts@.map_values(|t: (String, String, String)| (t.0@, t.1@, t.2@)) == sc,
            k <= scripts@.len(),
            (js@, ts@) == bundle_sources(sc.take(k as int)),
        decreases scripts@.len() - k,
    {
        assert(sc.take(k + 1).drop_last() =~= sc.take(k as int));
        assert(sc[k as int] == (scripts@[k as int].0@, scripts@[k as int].1@, scripts@[k as int].2@));
        let (kind, src, body) = (&scripts[k].0, &scripts[k].1, &scripts[k].2);
        let mut block: Vec<char> = Vec::new();
        if src.as_str().unicode_len() > 0 {
            push_chars(&mut block, "// external script src=");
            push_chars(&mut block, src.as_str());
            push_chars(&mut block, "\n");
        }
        let tb = trimmed(body);
        if tb.as_str().unicode_len() > 0 {
            push_chars(&mut block, tb.as_str());
            push_chars(&mut block, "\n");
        }
        assert(block@ =~= script_block(src@, body@));
        let (b0, b1) = trim_range(&block, 0, block.len());
        assert(block@.subrange(0, block@.len() as int) =~= block@);
        if b0 < b1 {
            let low = lowered(kind);
            if contains_chars(&low, &chars_of("typescript")) || contains_chars(&low, &chars_of("text/ts")) {
                append_range(&mut ts, &block, 0, block.len());
                push_chars(&mut ts, "\n");
            } else {
                append_range(&mut js, &block, 0, block.len());
                push_chars(&mut js, "\n");
            }
        }
        k += 1;
    }
    assert(sc.take(k as int) =~= sc);
    SourceBundle {
        html: String::from_str(html),
        css: extract_style_blocks(html),
        javascript: string_of(&js),
        typescript: string_of(&ts),
    }
}


/// The text pieces of a page's `body` element, in document order, when it
/// has one.
pub uninterp spec fn body_text_of(html: Seq<char>) -> Option<Seq<Seq<char>>>;

/// The text pieces of a page's root element, in document order.
pub uninterp spec fn root_text_of(html: Seq<char>) -> Seq<Seq<char>>;

/// Each `a` element with an `href` attribute: the attribute and the element's
/// text pieces, in document order.
pub uninterp spec fn anchors_of(html: Seq<char>) -> Seq<(Seq<char>, Seq<Seq<char>>)>;

/// Relies on `scraper::Html::parse_document`, selection of the first `body`
/// element and `ElementRef::text`.
#[verifier::external_body]
fn body_text(html: &str) -> (r: Option<Vec<String>>)
    ensures
        match r {
            Some(v) => body_text_of(html@) == Some(strs(v@)),
            None => body_text_of(html@) is None,
        },
{
    let doc = scraper::Html::parse_document(html);
    let sel = scraper::Selector::parse("body").expect("valid selector");
    doc.select(&sel).next().map(|b| b.text().map(|t| t.to_string()).collect())
}

/// Relies on `scraper::Html::parse_document`, `Html::root_element` and
/// `ElementRef::text`.
#[verifier::external_body]
fn root_text(html: &str) -> (r: Vec<String>)
    ensures
        strs(r@) == root_text_of(html@),
{
    let doc = scraper::Html::parse_document(html);
    doc.root_element().text().map(|t| t.to_string()).collect()
}

/// Relies on `scraper::Html::parse_document`, selection of `a[href]`,
/// `Element::attr` and `ElementRef::text`.
#[verifier::external_body]
fn anchors(html: &str) -> (r: Vec<(String, Vec<String>)>)
    ensures
        r@.map_values(|a: (String, Vec<String>)| (a.0@, strs(a.1@))) == anchors_of(html@),
{
    let doc = scraper::Html::parse_document(html);
    let sel = scraper::Selector::parse("a[href]").expect("valid selector");
    doc.select(&sel).map(|a| (
        a.value().attr("href").unwrap_or_default().to_string(),
        a.text().map(|t| t.to_string()).collect(),
    )).collect()
}

/// The pieces of the body's text, or of the whole page's without a body.
pub open spec fn page_pieces(html: Seq<char>) -> Seq<Seq<char>> {
    match body_text_of(html) {
        Some(p) => p,
        None => root_text_of(html),
    }
}

/// Pieces joined, with every run of whitespace made one space and none at
/// either end.
pub open spec fn collapsed(pieces: Seq<Seq<char>>) -> Seq<char> {
    join_with(words(join_with(pieces, " "@)), " "@)
}

/// The hrefs of the anchors that are safe to follow, in order.
pub open spec fn safe_hrefs(anchors: Seq<(Seq<char>, Seq<Seq<char>>)>) -> Seq<Seq<char>>
    decreases anchors.len(),
{
    if anchors.len() == 0 {
        Seq::empty()
    } else {
        let r = safe_hrefs(anchors.drop_last());
        if safe_target(anchors.last().0) {
            r.push(anchors.last().0)
        } else {
            r
        }
    }
}

/// One `- href` line per link.
pub open spec fn link_lines(hs: Seq<Seq<char>>) -> Seq<char>
    decreases hs.len(),
{
    if hs.len() == 0 {
        Seq::empty()
    } else {
        link_lines(hs.drop_last()) + "- "@ + hs.last() + "\n"@
    }
}

/// At most the first twelve links.
pub open spec fn first_links(hs: Seq<Seq<char>>) -> Seq<Seq<char>> {
    if hs.len() > 12 {
        hs.take(12)
    } else {
        hs
    }
}

/// A page as text: its collapsed text, then, when it has safe links, a
/// `Links:` list of the first twelve.
pub open spec fn page_text(html: Seq<char>) -> Seq<char> {
    let text = collapsed(page_pieces(html));
    let links = first_links(safe_hrefs(anchors_of(html)));
    if links.len() == 0 {
        text
    } else {
        text + "\n\nLinks:\n"@ + link_lines(links)
    }
}

fn collapse(pieces: &Vec<String>) -> (r: Vec<char>)
    ensures
        r@ == collapsed(strs(pieces@)),
{
    let joined = join_strings(pieces, " ");
    let v = chars_of(joined.as_str());
    let ws = word_ranges(&v, 0, v.len());
    assert(v@.subrange(0, v@.len() as int) =~= v@);
    let ghost w = range_view(v@, ws@);
    let mut out: Vec<char> = Vec::new();
    let mut k: usize = 0;
    while k < ws.len()
        invariant
            w == range_view(v@, ws@),
            ranges_within(ws@, 0, v@.len() as int),
            k <= ws@.len(),
            out@ == join_with(w.take(k as int), " "@),
        decreases ws@.len() - k,
    {
        let (a, b) = ws[k];
        assert(0 <= ws@[k as int].0 <= ws@[k as int].1 <= v@.len());
        assert(w[k as int] == v@.subrange(a as int, b as int));
        assert(w.take(k + 1).drop_last() =~= w.take(k as int));
        if k > 0 {
            push_chars(&mut out, " ");
        } else {
            assert(out@ =~= Seq::<char>::empty());
        }
        append_range(&mut out, &v, a, b);
        assert(k == 0 ==> out@ =~= w.take(1)[0]);
        k += 1;
    }
    assert(w.take(k as int) =~= w);
    out
}

fn safe_links(list: &Vec<(String, Vec<String>)>) -> (r: Vec<String>)
    ensures
        strs(r@) == safe_hrefs(list@.map_values(|a: (String, Vec<String>)| (a.0@, strs(a.1@)))),
{
    let ghost m = list@.map_values(|a: (String, Vec<String>)| (a.0@, strs(a.1@)));
    let mut out: Vec<String> = Vec::new();
    let mut k: usize = 0;
    while k < list.len()
        invariant
            m == list@.map_values(|a: (String, Vec<String>)| (a.0@, strs(a.1@))),
            k <= list@.len(),
            strs(out@) == safe_hrefs(m.take(k as int)),
        decreases list@.len() - k,
    {
        assert(m.take(k + 1).drop_last() =~= m.take(k as int));
        assert(m[k as int].0 == list@[k as int].0@);
        if is_safe_navigation_target(list[k].0.as_str()) {
            let ghost before = out@;
            out.push(list[k].0.clone());
            assert(strs(out@) =~= strs(before).push(list@[k as int].0@));
        }
        k += 1;
    }
    assert(m.take(k as int) =~= m);
    out
}

/// A page as plain text wrapped at `wrap_width` bytes per line, followed by
/// its first twelve safe links.
pub fn render_page_text(html: &str, wrap_width: usize) -> (r: String)
    ensures
        r@ == wrapped(page_text(html@), wrap_width as int),
{
    let pieces = match body_text(html) {
        Some(p) => p,
        None => root_text(html),
    };
    let mut text = collapse(&pieces);
    let links = safe_links(&anchors(html));
    let ghost hs = strs(links@);
    let n: usize = if links.len() > 12 { 12 } else { links.len() };
    assert(first_links(hs) =~= hs.take(n as int));
    if n > 0 {
        push_chars(&mut text, "\n\nLinks:\n");
        let ghost head = text@;
        let mut i: usize = 0;
        assert(text@ =~= head + link_lines(hs.take(0)));
        while i < n
            invariant
                hs == strs(links@),
                i <= n <= links@.len(),
                text@ == head + link_lines(hs.take(i as int)),
            decreases n - i,
        {
            assert(hs.take(i + 1).drop_last() =~= hs.take(i as int));
            push_chars(&mut text, "- ");
            push_chars(&mut text, links[i].as_str());
            push_chars(&mut text, "\n");
            i += 1;
            assert(text@ =~= head + link_lines(hs.take(i as int)));
        }
    }
    wrap_text(string_of(&text).as_str(), wrap_width)
}

/// The labelled links of a list of anchors: safe targets whose trimmed,
/// space-joined text is not empty, as (label, href).
pub open spec fn labeled_links(anchors: Seq<(Seq<char>, Seq<Seq<char>>)>) -> Seq<(Seq<char>, Seq<char>)>
    decreases anchors.len(),
{
    if anchors.len() == 0 {
        Seq::empty()
    } else {
        let r = labeled_links(anchors.drop_last());
        let a = anchors.last();
        let label = trim(join_with(a.1, " "@));
        if safe_target(a.0) && label.len() > 0 {
            r.push((label, a.0))
        } else {
            r
        }
    }
}

/// A page's text, wrapped at 120 bytes, and its labelled safe links.
pub fn extract_text_and_links(html: &str) -> (r: (String, Vec<(String, String)>))
    ensures
        r.0@ == wrapped(page_text(html@), 120),
        r.1@.map_values(|l: (String, String)| (l.0@, l.1@)) == labeled_links(anchors_of(html@)),
{
    let text = render_page_text(html, 120);
    let list = anchors(html);
    let ghost m = anchors_of(html@);
    let mut links: Vec<(String, String)> = Vec::new();
    let mut k: usize = 0;
    while k < list.len()
        invariant
            m == list@.map_values(|a: (String, Vec<String>)| (a.0@, strs(a.1@))),
            k <= list@.len(),
            links@.map_values(|l: (String, String)| (l.0@, l.1@)) == labeled_links(m.take(k as int)),
        decreases list@.len() - k,
    {
        assert(m.take(k + 1).drop_last() =~= m.take(k as int));
        assert(m[k as int] == (list@[k as int].0@, strs(list@[k as int].1@)));
        let href = &list[k].0;
        if is_safe_navigation_target(href.as_str()) {
            let label = trimmed(&join_strings(&list[k].1, " "));
            if label.as_str().unicode_len() > 0 {
                let ghost before = links@;
                let ghost lv = (label@, href@);
                links.push((label, href.clone()));
                assert(links@.map_values(|l: (String, String)| (l.0@, l.1@)) =~= before.map_values(
                    |l: (String, String)| (l.0@, l.1@),
                ).push(lv));
            }
        }
        k += 1;
    }
    assert(m.take(k as int) =~= m);
    (text, links)
}

} // verus!
