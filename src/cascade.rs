//! Selector matching, specificity and the per-property cascade.
use vstd::prelude::*;
use crate::text::{is_ws, is_whitespace_char};
use crate::document::{EngineDocument, EngineNode, attr_of, tag_of, get_attr};
use crate::stylesheet::{SimpleSelector, CssSelector, CssDeclaration, CssRule, EngineStyleSheet};

verus! {

/// `w` occurs in `s` at `i` as a whole whitespace-delimited word.
pub open spec fn word_at(s: Seq<char>, w: Seq<char>, i: int) -> bool {
    &&& w.len() > 0
    &&& 0 <= i && i + w.len() <= s.len()
    &&& s.subrange(i, i + w.len()) == w
    &&& forall|k: int| 0 <= k < w.len() ==> !is_ws(#[trigger] w[k])
    &&& (i == 0 || is_ws(s[i - 1]))
    &&& (i + w.len() == s.len() || is_ws(s[i + w.len()]))
}

pub open spec fn has_word(s: Seq<char>, w: Seq<char>) -> bool {
    exists|i: int| word_at(s, w, i)
}

fn word_at_exec(s: &Vec<char>, w: &Vec<char>, i: usize) -> (r: bool)
    requires
        i + w@.len() <= s@.len(),
    ensures
        r == word_at(s@, w@, i as int),
{
    let n = w.len();
    let sl = s.len();
    if n == 0 {
        return false;
    }
    if i > 0 && !is_whitespace_char(s[i - 1]) {
        return false;
    }
    if i + n < sl && !is_whitespace_char(s[i + n]) {
        return false;
    }
    let mut k: usize = 0;
    while k < n
        invariant
            n == w@.len(),
            sl == s@.len(),
            i + n <= s@.len(),
            k <= n,
            forall|m: int| 0 <= m < k ==> s@[i + m] == w@[m] && !is_ws(w@[m]),
        decreases n - k,
    {
        if s[i + k] != w[k] || is_whitespace_char(w[k]) {
            proof {
                if s@[i + k] != w@[k as int] {
                    assert(s@.subrange(i as int, i + n)[k as int] == s@[i + k]);
                }
            }
            return false;
        }
        k += 1;
    }
    assert(s@.subrange(i as int, i + n) =~= w@);
    true
}

/// Whether `w` is one of the whitespace-separated words of `s`.
pub fn contains_word(s: &Vec<char>, w: &Vec<char>) -> (r: bool)
    ensures
        r == has_word(s@, w@),
{
    if w.len() > s.len() || w.len() == 0 {
        return false;
    }
    let last = s.len() - w.len();
    let mut i: usize = 0;
    while i <= last
        invariant
            last + w@.len() == s@.len(),
            forall|j: int| 0 <= j < i ==> !word_at(s@, w@, j),
        decreases last + 1 - i,
    {
        if word_at_exec(s, w, i) {
            return true;
        }
        if i == last {
            return false;
        }
        i += 1;
    }
    false
}

/// Whether a simple selector accepts a node: tag, id and every class.
pub open spec fn simple_matches(n: EngineNode, s: SimpleSelector) -> bool {
    &&& (s.tag matches Some(t) ==> tag_of(n) == t@)
    &&& (s.id matches Some(d) ==> attr_of(n, "id"@) == Some(d@))
    &&& forall|k: int|
        0 <= k < s.classes@.len() ==> has_word(class_attr(n), #[trigger] s.classes@[k]@)
}

/// The node's `class` attribute, empty when absent.
pub open spec fn class_attr(n: EngineNode) -> Seq<char> {
    match attr_of(n, "class"@) {
        Some(c) => c,
        None => Seq::empty(),
    }
}

/// Whether a node satisfies a simple selector's tag, id and classes.
pub fn node_matches_simple(node: &EngineNode, simple: &SimpleSelector) -> (r: bool)
    ensures
        r == simple_matches(*node, *simple),
{
    if let Some(tag) = &simple.tag {
        match &node.tag {
            Some(t) => {
                if !(*t == *tag) {
                    return false;
                }
            },
            None => {
                if tag.as_str().unicode_len() != 0 {
                    return false;
                }
                assert(tag@.len() == 0);
                assert(tag@ =~= Seq::<char>::empty());
            },
        }
    }
    if let Some(id) = &simple.id {
        let key = String::from_str("id");
        match get_attr(node, &key) {
            Some(v) => {
                if !(*v == *id) {
                    return false;
                }
            },
            None => {
                return false;
            },
        }
    }
    if simple.classes.len() > 0 {
        let key = String::from_str("class");
        let classes: Vec<char> = match get_attr(node, &key) {
            Some(v) => crate::text::chars_of(v.as_str()),
            None => Vec::new(),
        };
        assert(classes@ == class_attr(*node));
        let mut k: usize = 0;
        while k < simple.classes.len()
            invariant
                k <= simple.classes@.len(),
                classes@ == class_attr(*node),
                forall|m: int| 0 <= m < k ==> has_word(class_attr(*node), #[trigger] simple.classes@[m]@),
            decreases simple.classes@.len() - k,
        {
            let want = crate::text::chars_of(simple.classes[k].as_str());
            if !contains_word(&classes, &want) {
                return false;
            }
            k += 1;
        }
    }
    true
}

/// Searching upward from index `cur` (inclusive), the first node that `s`
/// accepts, or -1.
pub open spec fn find_up(doc: EngineDocument, cur: int, s: SimpleSelector) -> int
    decreases cur + 1,
{
    if cur < 0 || cur >= doc.nodes@.len() {
        -1
    } else if simple_matches(doc.nodes@[cur], s) {
        cur
    } else {
        let p = doc.parent_index(cur);
        if p < cur {
            find_up(doc, p, s)
        } else {
            -1
        }
    }
}

/// The parts of a selector, taken from the right, each matched at or above the
/// cursor and strictly above the previous match.
pub open spec fn chain_matches(doc: EngineDocument, cur: int, parts: Seq<SimpleSelector>) -> bool
    decreases parts.len(),
{
    if parts.len() == 0 {
        true
    } else {
        let f = find_up(doc, cur, parts.last());
        f >= 0 && chain_matches(doc, doc.parent_index(f), parts.drop_last())
    }
}

pub open spec fn selector_matches_spec(doc: EngineDocument, node: int, sel: CssSelector) -> bool {
    sel.parts@.len() > 0 && chain_matches(doc, node, sel.parts@)
}

/// An optional index as an integer, -1 for none.
pub open spec fn opt_index(o: Option<usize>) -> int {
    match o {
        Some(c) => c as int,
        None => -1,
    }
}

fn find_up_exec(doc: &EngineDocument, cur: Option<usize>, s: &SimpleSelector) -> (r: Option<usize>)
    requires
        doc.wf(),
        cur matches Some(c) ==> c < doc.nodes@.len(),
    ensures
        opt_index(r) == find_up(*doc, opt_index(cur), *s),
        r matches Some(f) ==> f < doc.nodes@.len(),
{
    let mut cursor = cur;
    loop
        invariant
            doc.wf(),
            cursor matches Some(c) ==> c < doc.nodes@.len(),
            find_up(*doc, opt_index(cur), *s) == find_up(*doc, opt_index(cursor), *s),
        decreases opt_index(cursor) + 1,
    {
        match cursor {
            None => {
                return None;
            },
            Some(idx) => {
                assert(doc.nodes@[idx as int].id == idx);
                if node_matches_simple(&doc.nodes[idx], s) {
                    return Some(idx);
                }
                cursor = doc.nodes[idx].parent;
            },
        }
    }
}

/// Whether a selector matches a node: its last part at the node, each part
/// to the left at some strictly higher ancestor.
pub fn selector_matches(doc: &EngineDocument, node_id: usize, selector: &CssSelector) -> (r: bool)
    requires
        doc.wf(),
        node_id < doc.nodes@.len(),
    ensures
        r == selector_matches_spec(*doc, node_id as int, *selector),
{
    let n = selector.parts.len();
    if n == 0 {
        return false;
    }
    let mut cursor: Option<usize> = Some(node_id);
    let mut k: usize = n;
    assert(selector.parts@.take(n as int) =~= selector.parts@);
    while k > 0
        invariant
            doc.wf(),
            k <= n == selector.parts@.len(),
            cursor matches Some(c) ==> c < doc.nodes@.len(),
            chain_matches(*doc, node_id as int, selector.parts@) == chain_matches(
                *doc,
                opt_index(cursor),
                selector.parts@.take(k as int),
            ),
        decreases k,
    {
        assert(selector.parts@.take(k as int).drop_last() =~= selector.parts@.take(k - 1));
        match find_up_exec(doc, cursor, &selector.parts[k - 1]) {
            None => {
                return false;
            },
            Some(f) => {
                assert(doc.nodes@[f as int].id == f);
                cursor = doc.nodes[f].parent;
            },
        }
        k -= 1;
    }
    true
}

/// `x` clamped to the largest `usize`.
pub open spec fn sat_usize(x: int) -> int {
    if x > usize::MAX {
        usize::MAX as int
    } else {
        x
    }
}

/// 100 for an id, 10 per class and 1 for a tag.
pub open spec fn part_score(p: SimpleSelector) -> int {
    (if p.id is Some { 100int } else { 0int }) + 10 * p.classes@.len() + (if p.tag is Some {
        1int
    } else {
        0int
    })
}

/// The specificity of a selector: the parts' scores summed, saturating.
pub open spec fn specificity(parts: Seq<SimpleSelector>) -> int
    decreases parts.len(),
{
    if parts.len() == 0 {
        0
    } else {
        sat_usize(specificity(parts.drop_last()) + part_score(parts.last()))
    }
}

/// The selector's specificity: 100 per id, 10 per class, 1 per tag.
pub fn selector_specificity(selector: &CssSelector) -> (r: usize)
    ensures
        r == specificity(selector.parts@),
{
    let mut score: usize = 0;
    let mut i: usize = 0;
    while i < selector.parts.len()
        invariant
            i <= selector.parts@.len(),
            score == specificity(selector.parts@.take(i as int)),
        decreases selector.parts@.len() - i,
    {
        let p = &selector.parts[i];
        assert(selector.parts@.take(i + 1).drop_last() =~= selector.parts@.take(i as int));
        if p.id.is_some() {
            score = score.saturating_add(100);
        }
        let classes: usize = match p.classes.len().checked_mul(10) {
            Some(c) => c,
            None => usize::MAX,
        };
        score = score.saturating_add(classes);
        if p.tag.is_some() {
            score = score.saturating_add(1);
        }
        i += 1;
    }
    assert(selector.parts@.take(i as int) =~= selector.parts@);
    score
}

/// A declaration that a matching selector offers: (specificity, source order, value).
pub type Candidate = (int, int, Seq<char>);

pub open spec fn decl_cands(decls: Seq<CssDeclaration>, prop: Seq<char>, sp: int, order: int) -> Seq<
    Candidate,
>
    decreases decls.len(),
{
    if decls.len() == 0 {
        Seq::empty()
    } else {
        let r = decl_cands(decls.drop_last(), prop, sp, order);
        if decls.last().property@ == prop {
            r.push((sp, order, decls.last().value@))
        } else {
            r
        }
    }
}

pub open spec fn selector_cands(
    doc: EngineDocument,
    node: int,
    rule: CssRule,
    sels: Seq<CssSelector>,
    prop: Seq<char>,
) -> Seq<Candidate>
    decreases sels.len(),
{
    if sels.len() == 0 {
        Seq::empty()
    } else {
        selector_cands(doc, node, rule, sels.drop_last(), prop) + if selector_matches_spec(
            doc,
            node,
            sels.last(),
        ) {
            decl_cands(
                rule.declarations@,
                prop,
                specificity(sels.last().parts@),
                rule.source_order as int,
            )
        } else {
            Seq::empty()
        }
    }
}

pub open spec fn rule_cands(doc: EngineDocument, node: int, rules: Seq<CssRule>, prop: Seq<char>) -> Seq<
    Candidate,
>
    decreases rules.len(),
{
    if rules.len() == 0 {
        Seq::empty()
    } else {
        rule_cands(doc, node, rules.drop_last(), prop) + selector_cands(
            doc,
            node,
            rules.last(),
            rules.last().selectors@,
            prop,
        )
    }
}

/// Every declaration of `prop` offered to `node`, in the order the cascade
/// visits them: rules in sheet order, then selectors, then declarations.
pub open spec fn candidates(doc: EngineDocument, sheet: EngineStyleSheet, node: int, prop: Seq<char>) -> Seq<
    Candidate,
> {
    rule_cands(doc, node, sheet.rules@, prop)
}

/// `c` replaces the current winner `w`: higher specificity, or equal
/// specificity and a source order at least as late.
pub open spec fn beats(c: Candidate, w: Candidate) -> bool {
    c.0 > w.0 || (c.0 == w.0 && c.1 >= w.1)
}

pub open spec fn pick(acc: Option<Candidate>, c: Candidate) -> Option<Candidate> {
    match acc {
        None => Some(c),
        Some(w) => if beats(c, w) {
            Some(c)
        } else {
            acc
        },
    }
}

/// The left fold of `pick` over the candidates.
pub open spec fn fold_winner(s: Seq<Candidate>) -> Option<Candidate>
    decreases s.len(),
{
    if s.len() == 0 {
        None
    } else {
        pick(fold_winner(s.drop_last()), s.last())
    }
}

/// The value that the cascade gives `prop` on `node`, if any rule sets it.
pub open spec fn cascaded(doc: EngineDocument, sheet: EngineStyleSheet, node: int, prop: Seq<char>) -> Option<
    Seq<char>,
> {
    match fold_winner(candidates(doc, sheet, node, prop)) {
        Some(w) => Some(w.2),
        None => None,
    }
}

pub open spec fn opt_view(o: Option<String>) -> Option<Seq<char>> {
    match o {
        Some(s) => Some(s@),
        None => None,
    }
}

spec fn best_agrees(best: Option<(usize, usize, usize, usize)>, w: Option<Candidate>, rules: Seq<CssRule>) -> bool {
    match (best, w) {
        (None, None) => true,
        (Some(b), Some(w)) => {
            &&& b.0 == w.0
            &&& b.1 == w.1
            &&& b.2 < rules.len()
            &&& b.3 < rules[b.2 as int].declarations@.len()
            &&& rules[b.2 as int].declarations@[b.3 as int].value@ == w.2
        },
        _ => false,
    }
}

/// The winning value of `property` for node `node_id`.
pub fn cascaded_value(doc: &EngineDocument, css: &EngineStyleSheet, node_id: usize, property: &String) -> (r:
    Option<String>)
    requires
        doc.wf(),
        node_id < doc.nodes@.len(),
    ensures
        opt_view(r) == cascaded(*doc, *css, node_id as int, property@),
{
    let ghost node = node_id as int;
    let ghost prop = property@;
    let ghost rules = css.rules@;
    let mut best: Option<(usize, usize, usize, usize)> = None;
    let ghost mut seen: Seq<Candidate> = Seq::empty();
    let mut i: usize = 0;
    while i < css.rules.len()
        invariant
            doc.wf(),
            node_id < doc.nodes@.len(),
            rules == css.rules@,
            prop == property@,
            node == node_id as int,
            i <= rules.len(),
            seen == rule_cands(*doc, node, rules.take(i as int), prop),
            best_agrees(best, fold_winner(seen), rules),
        decreases rules.len() - i,
    {
        let rule = &css.rules[i];
        let ghost before = seen;
        let ghost sels = rule.selectors@;
        let mut j: usize = 0;
        assert(seen =~= before + selector_cands(*doc, node, *rule, sels.take(0), prop));
        while j < rule.selectors.len()
            invariant
                doc.wf(),
                node_id < doc.nodes@.len(),
                rules == css.rules@,
                prop == property@,
                node == node_id as int,
                i < rules.len(),
                *rule == rules[i as int],
                sels == rule.selectors@,
                j <= sels.len(),
                seen == before + selector_cands(*doc, node, *rule, sels.take(j as int), prop),
                best_agrees(best, fold_winner(seen), rules),
            decreases sels.len() - j,
        {
            let sel = &rule.selectors[j];
            assert(sels.take(j + 1).drop_last() =~= sels.take(j as int));
            let ghost mid = seen;
            if selector_matches(doc, node_id, sel) {
                let sp = selector_specificity(sel);
                let ghost decls = rule.declarations@;
                let mut k: usize = 0;
                assert(seen =~= mid + decl_cands(decls.take(0), prop, sp as int, rule.source_order as int));
                while k < rule.declarations.len()
                    invariant
                        rules == css.rules@,
                        prop == property@,
                        i < rules.len(),
                        *rule == rules[i as int],
                        decls == rule.declarations@,
                        k <= decls.len(),
                        seen == mid + decl_cands(decls.take(k as int), prop, sp as int, rule.source_order as int),
                        best_agrees(best, fold_winner(seen), rules),
                    decreases decls.len() - k,
                {
                    assert(decls.take(k + 1).drop_last() =~= decls.take(k as int));
                    assert(decls.take(k + 1).last() == decls[k as int]);
                    let decl = &rule.declarations[k];
                    if decl.property == *property {
                        let ghost c: Candidate = (sp as int, rule.source_order as int, decl.value@);
                        let take = match best {
                            None => true,
                            Some(b) => sp > b.0 || (sp == b.0 && rule.source_order >= b.1),
                        };
                        if take {
                            best = Some((sp, rule.source_order, i, k));
                        }
                        proof {
                            assert(decls.take(k + 1).len() > 0);
                            assert(decls.take(k + 1).last().property@ == prop);
                            assert(decl_cands(decls.take(k + 1), prop, sp as int, rule.source_order as int)
                                == decl_cands(decls.take(k as int), prop, sp as int, rule.source_order as int).push(c));
                            assert(seen.push(c).drop_last() =~= seen);
                            assert(mid + decl_cands(decls.take(k + 1), prop, sp as int, rule.source_order as int)
                                =~= seen.push(c));
                            seen = seen.push(c);
                        }
                    } else {
                        assert(decl_cands(decls.take(k + 1), prop, sp as int, rule.source_order as int)
                            == decl_cands(decls.take(k as int), prop, sp as int, rule.source_order as int));
                    }
                    k += 1;
                }
                assert(decls.take(k as int) =~= decls);
            }
            proof {
                assert(sels.take(j + 1).last() == sels[j as int]);
                assert(selector_cands(*doc, node, *rule, sels.take(j + 1), prop) == selector_cands(*doc, node, *rule, sels.take(j as int), prop) + if selector_matches_spec(*doc, node, sels[j as int]) {
                    decl_cands(rule.declarations@, prop, specificity(sels[j as int].parts@), rule.source_order as int)
                } else {
                    Seq::empty()
                });
                assert(seen =~= before + selector_cands(*doc, node, *rule, sels.take(j + 1), prop));
            }
            j += 1;
        }
        proof {
            assert(sels.take(j as int) =~= sels);
            assert(rules.take(i + 1).drop_last() =~= rules.take(i as int));
            assert(seen =~= rule_cands(*doc, node, rules.take(i + 1), prop));
        }
        i += 1;
    }
    assert(rules.take(i as int) =~= rules);
    match best {
        None => None,
        Some(b) => Some(css.rules[b.2].declarations[b.3].value.clone()),
    }
}

/// The fold's winner is one of the candidates, it exists as soon as there is
/// one, and it dominates all of them: each has lower specificity, or the same
/// specificity and a source order no later.
pub proof fn lemma_winner_dominates(s: Seq<Candidate>)
    ensures
        s.len() > 0 ==> fold_winner(s) is Some,
        fold_winner(s) matches Some(w) ==> {
            &&& s.contains(w)
            &&& forall|c: Candidate| s.contains(c) ==> c.0 < w.0 || (c.0 == w.0 && c.1 <= w.1)
        },
    decreases s.len(),
{
    if s.len() > 0 {
        let t = s.drop_last();
        let x = s.last();
        lemma_winner_dominates(t);
        assert(s =~= t.push(x));
        assert forall|c: Candidate| s.contains(c) implies t.contains(c) || c == x by {
            let k = choose|k: int| 0 <= k < s.len() && s[k] == c;
            if k < s.len() - 1 {
                assert(t[k] == c);
            }
        }
        if let Some(w) = fold_winner(s) {
            assert(s.contains(w)) by {
                if w == x {
                    assert(s[s.len() - 1] == x);
                } else {
                    let k = choose|k: int| 0 <= k < t.len() && t[k] == w;
                    assert(s[k] == w);
                }
            }
        }
    }
}

/// A declaration from a selector more specific than every declaration of the
/// same property offered by other rules wins, whatever the rules' order: the
/// winner comes from its rule.
pub proof fn law_higher_specificity_wins(
    doc: EngineDocument,
    sheet: EngineStyleSheet,
    node: int,
    prop: Seq<char>,
    c: Candidate,
)
    requires
        candidates(doc, sheet, node, prop).contains(c),
        forall|d: Candidate|
            candidates(doc, sheet, node, prop).contains(d) && d.1 != c.1 ==> d.0 < c.0,
    ensures
        fold_winner(candidates(doc, sheet, node, prop)) matches Some(w) && w.1 == c.1
            && candidates(doc, sheet, node, prop).contains(w),
        cascaded(doc, sheet, node, prop) is Some,
{
    let s = candidates(doc, sheet, node, prop);
    lemma_winner_dominates(s);
    assert(s.len() > 0);
}

/// Of two declarations offered with the same specificity, with nothing more
/// specific offered and no third rule at that specificity, the one from the
/// later rule wins.
pub proof fn law_later_rule_wins_ties(
    doc: EngineDocument,
    sheet: EngineStyleSheet,
    node: int,
    prop: Seq<char>,
    c1: Candidate,
    c2: Candidate,
)
    requires
        candidates(doc, sheet, node, prop).contains(c1),
        candidates(doc, sheet, node, prop).contains(c2),
        c1.0 == c2.0,
        c1.1 < c2.1,
        forall|d: Candidate| #[trigger]
            candidates(doc, sheet, node, prop).contains(d) ==> d.0 <= c2.0 && (d.1 != c1.1 && d.1
                != c2.1 ==> d.0 < c2.0),
    ensures
        fold_winner(candidates(doc, sheet, node, prop)) matches Some(w) && w.1 == c2.1 && w.0 == c2.0
            && candidates(doc, sheet, node, prop).contains(w),
{
    let s = candidates(doc, sheet, node, prop);
    lemma_winner_dominates(s);
    assert(s.len() > 0);
}


proof fn lemma_decl_cands_source(decls: Seq<CssDeclaration>, p: Seq<char>, sp: int, o: int)
    ensures
        decl_cands(decls, p, sp, o).len() > 0 ==> exists|k: int|
            0 <= k < decls.len() && (#[trigger] decls[k]).property@ == p,
    decreases decls.len(),
{
    if decls.len() > 0 {
        lemma_decl_cands_source(decls.drop_last(), p, sp, o);
        if decl_cands(decls.drop_last(), p, sp, o).len() > 0 {
            let k = choose|k: int|
                0 <= k < decls.drop_last().len() && (#[trigger] decls.drop_last()[k]).property@ == p;
            assert(decls[k] == decls.drop_last()[k]);
        } else if decls.last().property@ == p {
            assert(decls[decls.len() - 1].property@ == p);
        }
    }
}

proof fn lemma_selector_cands_source(
    doc: EngineDocument,
    node: int,
    rule: CssRule,
    sels: Seq<CssSelector>,
    p: Seq<char>,
)
    ensures
        selector_cands(doc, node, rule, sels, p).len() > 0 ==> exists|k: int|
            0 <= k < rule.declarations@.len() && (#[trigger] rule.declarations@[k]).property@ == p,
    decreases sels.len(),
{
    if sels.len() > 0 {
        lemma_selector_cands_source(doc, node, rule, sels.drop_last(), p);
        lemma_decl_cands_source(
            rule.declarations@,
            p,
            specificity(sels.last().parts@),
            rule.source_order as int,
        );
    }
}

proof fn lemma_rule_cands_source(doc: EngineDocument, node: int, rules: Seq<CssRule>, p: Seq<char>)
    ensures
        rule_cands(doc, node, rules, p).len() > 0 ==> exists|i: int, k: int|
            0 <= i < rules.len() && 0 <= k < rules[i].declarations@.len() && (
            #[trigger] rules[i].declarations@[k]).property@ == p,
    decreases rules.len(),
{
    if rules.len() > 0 {
        lemma_rule_cands_source(doc, node, rules.drop_last(), p);
        lemma_selector_cands_source(doc, node, rules.last(), rules.last().selectors@, p);
        if rule_cands(doc, node, rules.drop_last(), p).len() > 0 {
            let (i, k) = choose|i: int, k: int|
                0 <= i < rules.drop_last().len() && 0 <= k < rules.drop_last()[i].declarations@.len()
                    && (#[trigger] rules.drop_last()[i].declarations@[k]).property@ == p;
            assert(rules[i] == rules.drop_last()[i]);
            assert(rules[i].declarations@[k].property@ == p);
        } else if selector_cands(doc, node, rules.last(), rules.last().selectors@, p).len() > 0 {
            let k = choose|k: int|
                0 <= k < rules.last().declarations@.len() && (
                #[trigger] rules.last().declarations@[k]).property@ == p;
            assert(rules[rules.len() - 1].declarations@[k].property@ == p);
        }
    }
}

/// A property is set on a node only by a declaration of that property in the
/// sheet.
proof fn lemma_cascaded_source(doc: EngineDocument, sheet: EngineStyleSheet, node: int, p: Seq<char>)
    ensures
        cascaded(doc, sheet, node, p) is Some ==> exists|i: int, k: int|
            0 <= i < sheet.rules@.len() && 0 <= k < sheet.rules@[i].declarations@.len() && (
            #[trigger] sheet.rules@[i].declarations@[k]).property@ == p,
{
    lemma_rule_cands_source(doc, node, sheet.rules@, p);
}

fn contains_string(v: &Vec<String>, s: &String) -> (r: bool)
    ensures
        r == exists|m: int| 0 <= m < v@.len() && (#[trigger] v@[m])@ == s@,
{
    let mut m: usize = 0;
    while m < v.len()
        invariant
            m <= v@.len(),
            forall|j: int| 0 <= j < m ==> (#[trigger] v@[j])@ != s@,
        decreases v@.len() - m,
    {
        if v[m] == *s {
            return true;
        }
        m += 1;
    }
    false
}

/// `p` is one of the names.
pub open spec fn covered(names: Seq<String>, p: Seq<char>) -> bool {
    exists|m: int| 0 <= m < names.len() && (#[trigger] names[m])@ == p
}

proof fn lemma_covered_push(names: Seq<String>, s: String)
    ensures
        forall|p: Seq<char>| covered(names, p) ==> #[trigger] covered(names.push(s), p),
        covered(names.push(s), s@),
{
    assert forall|p: Seq<char>| covered(names, p) implies #[trigger] covered(names.push(s), p) by {
        let m = choose|m: int| 0 <= m < names.len() && (#[trigger] names[m])@ == p;
        assert(names.push(s)[m] == names[m]);
    }
    assert(names.push(s)[names.len() as int] == s);
}

/// Every property that the cascade sets on a node, once, with its winning
/// value.
pub fn resolve_styles(doc: &EngineDocument, css: &EngineStyleSheet, node_id: usize) -> (r: Vec<(String, String)>)
    requires
        doc.wf(),
        node_id < doc.nodes@.len(),
    ensures
        forall|i: int, j: int| 0 <= i < j < r@.len() ==> r@[i].0@ != r@[j].0@,
        forall|i: int|
            0 <= i < r@.len() ==> cascaded(*doc, *css, node_id as int, (#[trigger] r@[i]).0@) == Some(
                r@[i].1@,
            ),
        forall|p: Seq<char>|
            #[trigger] cascaded(*doc, *css, node_id as int, p) is Some ==> exists|i: int|
                0 <= i < r@.len() && (#[trigger] r@[i]).0@ == p,
{
    let ghost rules = css.rules@;
    let mut names: Vec<String> = Vec::new();
    let mut i: usize = 0;
    while i < css.rules.len()
        invariant
            rules == css.rules@,
            i <= rules.len(),
            forall|a: int, b: int| 0 <= a < b < names@.len() ==> names@[a]@ != names@[b]@,
            forall|x: int, k: int|
                0 <= x < i && 0 <= k < rules[x].declarations@.len() ==> covered(
                    names@,
                    (#[trigger] rules[x].declarations@[k]).property@,
                ),
        decreases rules.len() - i,
    {
        let decls = &css.rules[i].declarations;
        let mut k: usize = 0;
        while k < decls.len()
            invariant
                rules == css.rules@,
                i < rules.len(),
                *decls == rules[i as int].declarations,
                k <= decls@.len(),
                forall|a: int, b: int| 0 <= a < b < names@.len() ==> names@[a]@ != names@[b]@,
                forall|x: int, k2: int|
                    0 <= x < i && 0 <= k2 < rules[x].declarations@.len() ==> covered(
                        names@,
                        (#[trigger] rules[x].declarations@[k2]).property@,
                    ),
                forall|k2: int| 0 <= k2 < k ==> covered(names@, (#[trigger] decls@[k2]).property@),
            decreases decls@.len() - k,
        {
            let prop = &decls[k].property;
            if !contains_string(&names, prop) {
                proof {
                    lemma_covered_push(names@, *prop);
                }
                names.push(prop.clone());
            }
            k += 1;
        }
        assert forall|x: int, k2: int|
            0 <= x < i + 1 && 0 <= k2 < rules[x].declarations@.len() implies covered(
                names@,
                (#[trigger] rules[x].declarations@[k2]).property@,
            ) by {
            if x == i {
                assert(decls@[k2] == rules[x].declarations@[k2]);
            }
        }
        i += 1;
    }
    let mut out: Vec<(String, String)> = Vec::new();
    let mut m: usize = 0;
    while m < names.len()
        invariant
            doc.wf(),
            node_id < doc.nodes@.len(),
            m <= names@.len(),
            forall|a: int, b: int| 0 <= a < b < names@.len() ==> names@[a]@ != names@[b]@,
            forall|j: int|
                0 <= j < out@.len() ==> exists|a: int| 0 <= a < m && (#[trigger] names@[a])@ == (
                #[trigger] out@[j]).0@,
            forall|a: int, b: int| 0 <= a < b < out@.len() ==> out@[a].0@ != out@[b].0@,
            forall|j: int|
                0 <= j < out@.len() ==> cascaded(*doc, *css, node_id as int, (#[trigger] out@[j]).0@)
                    == Some(out@[j].1@),
            forall|a: int|
                0 <= a < m && (cascaded(*doc, *css, node_id as int, (#[trigger] names@[a])@) is Some)
                    ==> exists|j: int| 0 <= j < out@.len() && (#[trigger] out@[j]).0@ == names@[a]@,
        decreases names@.len() - m,
    {
        match cascaded_value(doc, css, node_id, &names[m]) {
            Some(v) => {
                let ghost old_out = out@;
                out.push((names[m].clone(), v));
                assert(out@[old_out.len() as int].0@ == names@[m as int]@);
                assert forall|j: int| 0 <= j < out@.len() implies exists|a: int|
                    0 <= a < m + 1 && (#[trigger] names@[a])@ == (#[trigger] out@[j]).0@ by {
                    if j < old_out.len() {
                        assert(out@[j] == old_out[j]);
                        let a = choose|a: int| 0 <= a < m && (#[trigger] names@[a])@ == old_out[j].0@;
                    } else {
                        assert(names@[m as int]@ == out@[j].0@);
                    }
                }
                assert forall|a: int, b: int| 0 <= a < b < out@.len() implies out@[a].0@ != out@[b].0@ by {
                    if b == old_out.len() {
                        assert(out@[a] == old_out[a]);
                        let c = choose|c: int| 0 <= c < m && (#[trigger] names@[c])@ == old_out[a].0@;
                    } else {
                        assert(out@[a] == old_out[a]);
                        assert(out@[b] == old_out[b]);
                    }
                }
                assert forall|a: int|
                    0 <= a < m + 1 && (cascaded(*doc, *css, node_id as int, (#[trigger] names@[a])@) is Some)
                        implies exists|j: int| 0 <= j < out@.len() && (#[trigger] out@[j]).0@ == names@[a]@ by {
                    if a < m {
                        let j = choose|j: int| 0 <= j < old_out.len() && (#[trigger] old_out[j]).0@ == names@[a]@;
                        assert(out@[j] == old_out[j]);
                    } else {
                        assert(out@[old_out.len() as int].0@ == names@[a]@);
                    }
                }
            },
            None => {},
        }
        m += 1;
    }
    proof {
        assert forall|p: Seq<char>|
            #[trigger] cascaded(*doc, *css, node_id as int, p) is Some implies exists|j: int|
                0 <= j < out@.len() && (#[trigger] out@[j]).0@ == p by {
            lemma_cascaded_source(*doc, *css, node_id as int, p);
            let (x, k) = choose|x: int, k: int|
                0 <= x < rules.len() && 0 <= k < rules[x].declarations@.len() && (
                #[trigger] rules[x].declarations@[k]).property@ == p;
            assert(covered(names@, rules[x].declarations@[k].property@));
            let a = choose|a: int|
                0 <= a < names@.len() && (#[trigger] names@[a])@ == rules[x].declarations@[k].property@;
            assert(cascaded(*doc, *css, node_id as int, names@[a]@) is Some);
        }
    }
    out
}

} // verus!
