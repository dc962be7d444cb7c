use zephyr::{
    cascaded_value, compute_layout, parse_css_stylesheet, parse_selector_text, selector_specificity,
    EngineDocument, EngineNode, EngineStyleSheet, LayoutBox,
};

struct Builder {
    doc: EngineDocument,
}

impl Builder {
    fn new() -> Builder {
        let root = EngineNode {
            id: 0,
            parent: None,
            tag: Some("#document".to_string()),
            text: String::new(),
            attrs: Vec::new(),
            children: Vec::new(),
        };
        Builder { doc: EngineDocument { nodes: vec![root], root_id: 0 } }
    }

    fn element(&mut self, parent: usize, tag: &str, attrs: &[(&str, &str)]) -> usize {
        let id = self.doc.nodes.len();
        self.doc.nodes.push(EngineNode {
            id,
            parent: Some(parent),
            tag: Some(tag.to_string()),
            text: String::new(),
            attrs: attrs.iter().map(|(k, v)| (k.to_string(), v.to_string())).collect(),
            children: Vec::new(),
        });
        self.doc.nodes[parent].children.push(id);
        id
    }

    fn text(&mut self, parent: usize, text: &str) -> usize {
        let id = self.doc.nodes.len();
        self.doc.nodes.push(EngineNode {
            id,
            parent: Some(parent),
            tag: None,
            text: text.to_string(),
            attrs: Vec::new(),
            children: Vec::new(),
        });
        self.doc.nodes[parent].children.push(id);
        id
    }
}

fn value_of(doc: &EngineDocument, sheet: &EngineStyleSheet, node: usize, prop: &str) -> Option<String> {
    cascaded_value(doc, sheet, node, &prop.to_string())
}

fn collect_ids(b: &LayoutBox, out: &mut Vec<usize>) {
    out.push(b.node_id);
    for c in &b.children {
        collect_ids(c, out);
    }
}

fn find_box<'a>(b: &'a LayoutBox, id: usize) -> Option<&'a LayoutBox> {
    if b.node_id == id {
        return Some(b);
    }
    b.children.iter().find_map(|c| find_box(c, id))
}

fn sample_page() -> (Builder, usize, usize, usize) {
    let mut b = Builder::new();
    let html = b.element(0, "html", &[]);
    let _head = b.element(html, "head", &[]);
    let body = b.element(html, "body", &[]);
    let h1 = b.element(body, "h1", &[("id", "hero"), ("class", "title")]);
    b.text(h1, "A");
    let p = b.element(body, "p", &[("class", "title")]);
    b.text(p, "B C D E F");
    (b, body, h1, p)
}

#[test]
fn spec_html_css_and_layout_start_work() {
    let (b, _, _, _) = sample_page();
    let doc = b.doc;
    let css = "#hero { padding: 8px; } .title { display: block; } p { padding: 4px; }";
    assert!(!doc.nodes.is_empty());

    let stylesheet = parse_css_stylesheet(css);
    assert!(!stylesheet.rules.is_empty());

    let layout = compute_layout(&doc, &stylesheet, 900);
    assert!(layout.content_height >= 0);
}

#[test]
fn id_beats_class_whatever_the_order() {
    let (b, _, h1, _) = sample_page();
    let sheet = parse_css_stylesheet("#hero {padding: 8px} .title {padding: 0}");
    assert_eq!(value_of(&b.doc, &sheet, h1, "padding").as_deref(), Some("8px"));
    let sheet = parse_css_stylesheet(".title {padding: 0} #hero {padding: 8px}");
    assert_eq!(value_of(&b.doc, &sheet, h1, "padding").as_deref(), Some("8px"));
    let layout = compute_layout(&b.doc, &sheet, 900);
    let root = layout.root.unwrap();
    let h1_box = find_box(&root, h1).unwrap();
    assert_eq!(h1_box.children[0].x, 8);
    assert_eq!(h1_box.children[0].width, 900 - 16);
}

#[test]
fn later_rule_wins_ties() {
    let (b, _, _, p) = sample_page();
    let sheet = parse_css_stylesheet("p{padding:4px} p{padding:6px}");
    assert_eq!(value_of(&b.doc, &sheet, p, "padding").as_deref(), Some("6px"));
    let sheet = parse_css_stylesheet(".title{color:red} p.title{color:blue} .title{color:green}");
    assert_eq!(value_of(&b.doc, &sheet, p, "color").as_deref(), Some("blue"));
}

#[test]
fn unmatched_property_is_absent() {
    let (b, _, _, p) = sample_page();
    let sheet = parse_css_stylesheet("h1{padding:4px}");
    assert_eq!(value_of(&b.doc, &sheet, p, "padding"), None);
}

#[test]
fn five_short_words_take_one_line() {
    let mut b = Builder::new();
    let p = b.element(0, "p", &[]);
    let t = b.text(p, "a b c d e");
    let sheet = parse_css_stylesheet("");
    let layout = compute_layout(&b.doc, &sheet, 900);
    let root = layout.root.unwrap();
    let text_box = find_box(&root, t).unwrap();
    assert_eq!(text_box.height, 20);
    let p_box = find_box(&root, p).unwrap();
    assert_eq!(text_box.y, p_box.y + 4);
    assert_eq!(p_box.height, 24);
}

#[test]
fn long_text_wraps_into_lines() {
    let mut b = Builder::new();
    let p = b.element(0, "p", &[]);
    let words = vec!["abcdefghi"; 10].join(" ");
    let t = b.text(p, &words);
    let sheet = parse_css_stylesheet("");
    let layout = compute_layout(&b.doc, &sheet, 100);
    let root = layout.root.unwrap();
    // 100 / 8 = 12 bytes per line: one nine-letter word per line.
    assert_eq!(find_box(&root, t).unwrap().height, 200);
}

#[test]
fn display_none_removes_the_subtree() {
    let (mut b, body, _, p) = sample_page();
    let hidden = b.element(body, "div", &[("class", "gone")]);
    let inner = b.element(hidden, "p", &[]);
    b.text(inner, "hidden text");
    let sheet = parse_css_stylesheet(".gone { display: none }");
    let layout = compute_layout(&b.doc, &sheet, 900);
    let mut ids = Vec::new();
    collect_ids(&layout.root.unwrap(), &mut ids);
    assert!(!ids.contains(&hidden));
    assert!(!ids.contains(&inner));
    assert!(ids.contains(&p));
}

#[test]
fn non_visual_tags_never_get_boxes() {
    let mut b = Builder::new();
    let html = b.element(0, "html", &[]);
    let head = b.element(html, "head", &[]);
    let style = b.element(head, "style", &[]);
    let body = b.element(html, "body", &[]);
    let script = b.element(body, "script", &[]);
    let comment = b.element(body, "#comment", &[]);
    let link = b.element(body, "link", &[]);
    let meta = b.element(body, "meta", &[]);
    let sheet = parse_css_stylesheet("script, style, head, meta, link { display: block }");
    let layout = compute_layout(&b.doc, &sheet, 900);
    let mut ids = Vec::new();
    collect_ids(&layout.root.unwrap(), &mut ids);
    for id in [head, style, script, comment, link, meta] {
        assert!(!ids.contains(&id));
    }
    assert!(ids.contains(&body));
}

#[test]
fn suppressed_root_gives_no_box() {
    let b = Builder::new();
    let mut doc = b.doc;
    doc.nodes[0].tag = Some("script".to_string());
    let layout = compute_layout(&doc, &parse_css_stylesheet(""), 900);
    assert!(layout.root.is_none());
    assert_eq!(layout.content_height, 0);
}

#[test]
fn more_padding_gives_more_height() {
    let (b, _, h1, _) = sample_page();
    let small = compute_layout(&b.doc, &parse_css_stylesheet("h1 { padding: 2px }"), 900);
    let large = compute_layout(&b.doc, &parse_css_stylesheet("h1 { padding: 10px }"), 900);
    let s = find_box(small.root.as_ref().unwrap(), h1).unwrap();
    let l = find_box(large.root.as_ref().unwrap(), h1).unwrap();
    assert!(l.height > s.height);
    assert_eq!(l.children[0].x - s.children[0].x, 8);
    assert_eq!(l.children[0].y - s.children[0].y, 8);
}

#[test]
fn layout_is_repeatable() {
    let (b, _, _, _) = sample_page();
    let sheet = parse_css_stylesheet("#hero { padding: 8px; } p { padding: 4px; }");
    let first = compute_layout(&b.doc, &sheet, 640);
    let second = compute_layout(&b.doc, &sheet, 640);
    let (mut a, mut c) = (Vec::new(), Vec::new());
    fn geometry(bx: &LayoutBox, out: &mut Vec<(usize, i64, i64, i64, i64)>) {
        out.push((bx.node_id, bx.x, bx.y, bx.width, bx.height));
        for ch in &bx.children {
            geometry(ch, out);
        }
    }
    geometry(first.root.as_ref().unwrap(), &mut a);
    geometry(second.root.as_ref().unwrap(), &mut c);
    assert_eq!(a, c);
    assert_eq!(first.content_height, second.content_height);
}

#[test]
fn empty_boxes_get_default_heights() {
    let mut b = Builder::new();
    let html = b.element(0, "html", &[]);
    let body = b.element(html, "body", &[]);
    let div = b.element(body, "div", &[]);
    let sheet = parse_css_stylesheet("div { padding: 3px }");
    let layout = compute_layout(&b.doc, &sheet, 900);
    let root = layout.root.unwrap();
    assert_eq!(find_box(&root, div).unwrap().height, 25);
    // body holds the div: 25 tall, so body is 25 tall too.
    assert_eq!(find_box(&root, body).unwrap().height, 25);
    assert_eq!(layout.content_height, 25 + 6);
}

#[test]
fn exact_geometry_of_a_small_page() {
    let (b, body, h1, p) = sample_page();
    let sheet = parse_css_stylesheet("#hero { padding: 8px; } .title { display: block; } p { padding: 4px; }");
    let layout = compute_layout(&b.doc, &sheet, 900);
    let root = layout.root.unwrap();
    let h = find_box(&root, h1).unwrap();
    assert_eq!((h.x, h.y, h.width, h.height), (0, 4, 900, 40));
    let pb = find_box(&root, p).unwrap();
    assert_eq!((pb.x, pb.y, pb.width, pb.height), (0, 50, 900, 32));
    assert_eq!(find_box(&root, body).unwrap().height, 78);
    assert_eq!(layout.content_height, 88);
}

#[test]
fn unparseable_padding_reads_as_zero() {
    let (b, _, h1, _) = sample_page();
    let sheet = parse_css_stylesheet("h1 { padding: wide }");
    let layout = compute_layout(&b.doc, &sheet, 900);
    let root = layout.root.unwrap();
    assert_eq!(find_box(&root, h1).unwrap().children[0].x, 0);
}

#[test]
fn stylesheet_parsing_drops_malformed_parts() {
    let sheet = parse_css_stylesheet("junk } , { color: red } p { : x; color: ; Width : 1.50px; margin }");
    assert_eq!(sheet.rules.len(), 1);
    let rule = &sheet.rules[0];
    assert_eq!(rule.source_order, 0);
    assert_eq!(rule.declarations.len(), 1);
    assert_eq!(rule.declarations[0].property, "width");
    assert_eq!(rule.declarations[0].value, "1.5px");
}

#[test]
fn stylesheet_keeps_source_order_and_groups() {
    let sheet = parse_css_stylesheet("h1, .x p { color: red } nothing here } div { color: blue; }");
    assert_eq!(sheet.rules.len(), 2);
    assert_eq!(sheet.rules[0].selectors.len(), 2);
    assert_eq!(sheet.rules[0].selectors[1].parts.len(), 2);
    assert_eq!(sheet.rules[1].source_order, 1);
    assert_eq!(sheet.rules[1].declarations[0].value, "blue");
}

#[test]
fn value_that_does_not_normalize_is_kept() {
    let sheet = parse_css_stylesheet("a { color: #ff0000 }");
    assert_eq!(sheet.rules[0].declarations[0].value, "#ff0000");
}

#[test]
fn selector_text_is_scanned_into_parts() {
    let sel = parse_selector_text("DIV.card.big#x  p");
    assert_eq!(sel.parts.len(), 2);
    assert_eq!(sel.parts[0].tag.as_deref(), Some("div"));
    assert_eq!(sel.parts[0].id.as_deref(), Some("x"));
    assert_eq!(sel.parts[0].classes, vec!["card".to_string(), "big".to_string()]);
    assert_eq!(sel.parts[1].tag.as_deref(), Some("p"));
    assert_eq!(selector_specificity(&sel), 100 + 20 + 1 + 1);
    assert!(parse_selector_text("   ").parts.is_empty());
}

#[test]
fn descendant_selectors_walk_up() {
    let (b, body, h1, p) = sample_page();
    let sheet = parse_css_stylesheet("body .title { color: red } html h1#hero.title { color: blue } div p { color: green }");
    assert_eq!(value_of(&b.doc, &sheet, h1, "color").as_deref(), Some("blue"));
    assert_eq!(value_of(&b.doc, &sheet, p, "color").as_deref(), Some("red"));
    assert_eq!(value_of(&b.doc, &sheet, body, "color"), None);
}

#[test]
fn resolve_styles_lists_each_winning_property_once() {
    let (b, _, h1, p) = sample_page();
    let sheet = parse_css_stylesheet("h1 { color: red; padding: 1px } #hero { color: blue } p { margin: 2px }");
    let mut styles = zephyr::resolve_styles(&b.doc, &sheet, h1);
    styles.sort();
    assert_eq!(
        styles,
        vec![("color".to_string(), "blue".to_string()), ("padding".to_string(), "1px".to_string())]
    );
    assert_eq!(zephyr::resolve_styles(&b.doc, &sheet, p), vec![("margin".to_string(), "2px".to_string())]);
    assert!(zephyr::resolve_styles(&b.doc, &sheet, 0).is_empty());
}

#[test]
fn well_formedness_is_checked() {
    let (b, body, _, p) = sample_page();
    assert!(b.doc.is_well_formed());
    let mut cyclic = b.doc.clone();
    cyclic.nodes[p].children.push(body);
    assert!(!cyclic.is_well_formed());
    let mut dup = b.doc.clone();
    dup.nodes[p].attrs.push(("class".to_string(), "other".to_string()));
    assert!(!dup.is_well_formed());
    let mut bad_root = b.doc;
    bad_root.root_id = 1000;
    assert!(!bad_root.is_well_formed());
}
