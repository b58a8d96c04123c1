//! The mathematical meaning of the cascade: which rules match an element,
//! which declaration wins for each property, inline styles and inheritance.

use vstd::prelude::*;
use vstd::utf8::encode_utf8;
use crate::css::spec_specificity;
use crate::css_spec::{DeclarationView, RuleView, SimpleSelectorView, ValueView, spec_parse_css};
use crate::dom::{spec_class_list, ElementView, NodeView};
use crate::error::MAX_INPUT_BYTES;

verus! {

/// Whether a simple selector matches an element: every part it names
/// matches, and it names at least something (or is `*`).
pub open spec fn spec_simple_matches(sel: SimpleSelectorView, e: ElementView) -> bool {
    &&& (sel.tag matches Some(t) ==> t == e.tag)
    &&& (sel.id matches Some(id) ==> e.attrs.contains_key("id"@) && e.attrs["id"@] == id)
    &&& (forall|i: int| 0 <= i < sel.classes.len() ==> spec_class_list(e.attrs).contains(#[trigger] sel.classes[i]))
    &&& (sel.universal || sel.tag is Some || sel.id is Some || sel.classes.len() > 0)
}

/// A simple selector matches only elements that carry every class it
/// names, not just some of them; one made of classes alone matches exactly
/// the elements that carry all of its classes. It also matches only
/// elements with the tag and the id it names.
pub proof fn lemma_simple_match_needs_every_class(sel: SimpleSelectorView, e: ElementView)
    ensures
        spec_simple_matches(sel, e) ==> forall|i: int| 0 <= i < sel.classes.len()
            ==> spec_class_list(e.attrs).contains(#[trigger] sel.classes[i]),
        spec_simple_matches(sel, e) ==> (sel.tag matches Some(t) ==> t == e.tag),
        spec_simple_matches(sel, e) ==> (sel.id matches Some(id) ==> e.attrs.contains_key("id"@) && e.attrs["id"@] == id),
        sel.tag is None && sel.id is None && sel.classes.len() > 0 ==> (spec_simple_matches(sel, e)
            <==> forall|i: int| 0 <= i < sel.classes.len() ==> spec_class_list(e.attrs).contains(#[trigger] sel.classes[i])),
{
}

/// Whether the simple selectors `rest` match ancestors in order: the last
/// one matches the closest matching ancestor, the one before it an ancestor
/// further up, and so on. `anc` lists ancestors from the root down.
pub open spec fn ancestors_match(rest: Seq<SimpleSelectorView>, anc: Seq<ElementView>) -> bool
    decreases anc.len(),
{
    if rest.len() == 0 {
        true
    } else if anc.len() == 0 {
        false
    } else if spec_simple_matches(rest.last(), anc.last()) {
        ancestors_match(rest.drop_last(), anc.drop_last())
    } else {
        ancestors_match(rest, anc.drop_last())
    }
}

/// `idx` places the simple selectors `rest` on ancestors: `rest[k]`
/// matches `anc[idx[k]]`, and later parts sit on ancestors closer to the
/// element than earlier ones.
pub open spec fn places_in_order(rest: Seq<SimpleSelectorView>, anc: Seq<ElementView>, idx: Seq<int>) -> bool {
    &&& idx.len() == rest.len()
    &&& forall|k: int| #![trigger idx[k]] 0 <= k < idx.len() ==>
        0 <= idx[k] < anc.len() && spec_simple_matches(rest[k], anc[idx[k]])
    &&& forall|k: int, l: int| 0 <= k < l < idx.len() ==> #[trigger] idx[k] < #[trigger] idx[l]
}

proof fn lemma_match_places(rest: Seq<SimpleSelectorView>, anc: Seq<ElementView>)
    requires
        ancestors_match(rest, anc),
    ensures
        exists|idx: Seq<int>| places_in_order(rest, anc, idx),
    decreases anc.len(),
{
    if rest.len() == 0 {
        assert(places_in_order(rest, anc, Seq::<int>::empty()));
    } else if spec_simple_matches(rest.last(), anc.last()) {
        lemma_match_places(rest.drop_last(), anc.drop_last());
        let idx0 = choose|idx: Seq<int>| places_in_order(rest.drop_last(), anc.drop_last(), idx);
        let idx = idx0.push(anc.len() - 1);
        assert forall|k: int| #![trigger idx[k]] 0 <= k < idx.len() implies
            0 <= idx[k] < anc.len() && spec_simple_matches(rest[k], anc[idx[k]]) by {
            if k < idx0.len() {
                assert(idx[k] == idx0[k]);
                assert(rest.drop_last()[k] == rest[k]);
                assert(anc.drop_last()[idx0[k]] == anc[idx0[k]]);
            }
        }
        assert forall|k: int, l: int| 0 <= k < l < idx.len() implies #[trigger] idx[k] < #[trigger] idx[l] by {
            assert(idx[k] == idx0[k]);
            if l < idx0.len() {
                assert(idx[l] == idx0[l]);
            }
        }
        assert(places_in_order(rest, anc, idx));
    } else {
        lemma_match_places(rest, anc.drop_last());
        let idx = choose|idx: Seq<int>| places_in_order(rest, anc.drop_last(), idx);
        assert forall|k: int| #![trigger idx[k]] 0 <= k < idx.len() implies
            0 <= idx[k] < anc.len() && spec_simple_matches(rest[k], anc[idx[k]]) by {
            assert(anc.drop_last()[idx[k]] == anc[idx[k]]);
        }
        assert(places_in_order(rest, anc, idx));
    }
}

proof fn lemma_places_match(rest: Seq<SimpleSelectorView>, anc: Seq<ElementView>, idx: Seq<int>)
    requires
        places_in_order(rest, anc, idx),
    ensures
        ancestors_match(rest, anc),
    decreases anc.len(),
{
    if rest.len() == 0 {
    } else if anc.len() == 0 {
        assert(idx[0] < anc.len());
    } else {
        let last = idx.len() - 1;
        assert(0 <= idx[last] < anc.len());
        assert forall|k: int| 0 <= k < last implies #[trigger] idx[k] < idx[last] by {
            assert(idx[k] < idx[last]);
        }
        if spec_simple_matches(rest.last(), anc.last()) {
            let idx0 = idx.drop_last();
            assert forall|k: int| #![trigger idx0[k]] 0 <= k < idx0.len() implies
                0 <= idx0[k] < anc.drop_last().len()
                && spec_simple_matches(rest.drop_last()[k], anc.drop_last()[idx0[k]]) by {
                assert(idx0[k] == idx[k]);
                assert(idx[k] < idx[last]);
                assert(anc.drop_last()[idx[k]] == anc[idx[k]]);
            }
            assert forall|k: int, l: int| 0 <= k < l < idx0.len() implies #[trigger] idx0[k] < #[trigger] idx0[l] by {
                assert(idx0[k] == idx[k] && idx0[l] == idx[l]);
                assert(idx[k] < idx[l]);
            }
            lemma_places_match(rest.drop_last(), anc.drop_last(), idx0);
        } else {
            assert(idx[last] != anc.len() - 1) by {
                if idx[last] == anc.len() - 1 {
                    assert(spec_simple_matches(rest[last], anc[idx[last]]));
                }
            }
            assert forall|k: int| #![trigger idx[k]] 0 <= k < idx.len() implies
                0 <= idx[k] < anc.drop_last().len()
                && spec_simple_matches(rest[k], anc.drop_last()[idx[k]]) by {
                if k < last {
                    assert(idx[k] < idx[last]);
                }
                assert(anc.drop_last()[idx[k]] == anc[idx[k]]);
            }
            lemma_places_match(rest, anc.drop_last(), idx);
        }
    }
}

/// The earlier parts of a descendant chain match exactly when they can be
/// placed, in order, on ancestors further and further up the tree (`anc`
/// lists the ancestors from the root down).
pub proof fn lemma_ancestors_match_iff_placed(rest: Seq<SimpleSelectorView>, anc: Seq<ElementView>)
    ensures
        ancestors_match(rest, anc) <==> exists|idx: Seq<int>| places_in_order(rest, anc, idx),
{
    if ancestors_match(rest, anc) {
        lemma_match_places(rest, anc);
    }
    if exists|idx: Seq<int>| places_in_order(rest, anc, idx) {
        let idx = choose|idx: Seq<int>| places_in_order(rest, anc, idx);
        lemma_places_match(rest, anc, idx);
    }
}

/// Whether a selector (a descendant chain) matches an element with the
/// given ancestors.
pub open spec fn spec_selector_matches(parts: Seq<SimpleSelectorView>, anc: Seq<ElementView>, e: ElementView) -> bool {
    parts.len() > 0 && spec_simple_matches(parts.last(), e) && ancestors_match(parts.drop_last(), anc)
}

/// Lexicographic order on (id, class, type) counts.
pub open spec fn specificity_le(a: (nat, nat, nat), b: (nat, nat, nat)) -> bool {
    a.0 < b.0 || (a.0 == b.0 && (a.1 < b.1 || (a.1 == b.1 && a.2 <= b.2)))
}

/// The highest specificity among the selectors of `sels` that match the
/// element, or `None` when none matches.
pub open spec fn best_match(sels: Seq<Seq<SimpleSelectorView>>, anc: Seq<ElementView>, e: ElementView) -> Option<(nat, nat, nat)>
    decreases sels.len(),
{
    if sels.len() == 0 {
        None
    } else {
        let prev = best_match(sels.drop_last(), anc, e);
        let s = sels.last();
        if spec_selector_matches(s, anc, e) {
            match prev {
                Some(b) => if specificity_le(spec_specificity(s), b) { Some(b) } else { Some(spec_specificity(s)) },
                None => Some(spec_specificity(s)),
            }
        } else {
            prev
        }
    }
}

/// `best_match` is the maximum: it is the specificity of a matching
/// selector, every matching selector's is at most it, and it is `None`
/// exactly when no selector matches.
pub proof fn lemma_best_match(sels: Seq<Seq<SimpleSelectorView>>, anc: Seq<ElementView>, e: ElementView)
    ensures
        best_match(sels, anc, e) is None <==> forall|i: int| 0 <= i < sels.len() ==> !spec_selector_matches(#[trigger] sels[i], anc, e),
        best_match(sels, anc, e) matches Some(b) ==> {
            &&& exists|i: int| 0 <= i < sels.len() && spec_selector_matches(#[trigger] sels[i], anc, e) && spec_specificity(sels[i]) == b
            &&& forall|i: int| 0 <= i < sels.len() && spec_selector_matches(#[trigger] sels[i], anc, e) ==> specificity_le(spec_specificity(sels[i]), b)
        },
    decreases sels.len(),
{
    if sels.len() > 0 {
        let pre = sels.drop_last();
        let n = sels.len() - 1;
        lemma_best_match(pre, anc, e);
        assert forall|i: int| 0 <= i < n implies #[trigger] sels[i] == pre[i] by {}
        assert(sels[n] == sels.last());
        match best_match(pre, anc, e) {
            Some(b) => {
                let j = choose|i: int| 0 <= i < pre.len() && spec_selector_matches(#[trigger] pre[i], anc, e) && spec_specificity(pre[i]) == b;
                assert(sels[j] == pre[j]);
                assert forall|i: int| 0 <= i < sels.len() && spec_selector_matches(#[trigger] sels[i], anc, e)
                    implies specificity_le(spec_specificity(sels[i]), best_match(sels, anc, e)->Some_0) by {
                    if i < n {
                        assert(pre[i] == sels[i]);
                    }
                }
            },
            None => {
                if best_match(sels, anc, e) is None {
                    assert forall|i: int| 0 <= i < sels.len() implies !spec_selector_matches(#[trigger] sels[i], anc, e) by {
                        if i < n {
                            assert(pre[i] == sels[i]);
                        }
                    }
                } else {
                    assert forall|i: int| 0 <= i < sels.len() && spec_selector_matches(#[trigger] sels[i], anc, e)
                        implies specificity_le(spec_specificity(sels[i]), best_match(sels, anc, e)->Some_0) by {
                        if i < n {
                            assert(pre[i] == sels[i]);
                        }
                    }
                }
            },
        }
    }
}

pub type Rank = ((nat, nat, nat), int);

pub open spec fn rank_le(a: Rank, b: Rank) -> bool {
    let ((a0, a1, a2), ao) = a;
    let ((b0, b1, b2), bo) = b;
    a0 < b0 || (a0 == b0 && (a1 < b1 || (a1 == b1 && (a2 < b2 || (a2 == b2 && ao <= bo)))))
}

/// Applies a rule's declarations, all of rank `rank`, to the winners so far:
/// a declaration wins its property unless the current winner ranks higher.
pub open spec fn apply_decls(
    acc: (Map<Seq<char>, Rank>, Map<Seq<char>, ValueView>),
    decls: Seq<DeclarationView>,
    rank: Rank,
) -> (Map<Seq<char>, Rank>, Map<Seq<char>, ValueView>)
    decreases decls.len(),
{
    if decls.len() == 0 {
        acc
    } else {
        let a = apply_decls(acc, decls.drop_last(), rank);
        let d = decls.last();
        if a.0.contains_key(d.property) && !rank_le(a.0[d.property], rank) {
            a
        } else {
            (a.0.insert(d.property, rank), a.1.insert(d.property, d.value))
        }
    }
}

/// The winning rank and value of every property set by a rule of `rules`
/// that matches the element (the highest specificity among a rule's
/// matching selectors ranks all its declarations).
pub open spec fn cascade_rules(rules: Seq<RuleView>, anc: Seq<ElementView>, e: ElementView) -> (Map<Seq<char>, Rank>, Map<Seq<char>, ValueView>)
    decreases rules.len(),
{
    if rules.len() == 0 {
        (Map::empty(), Map::empty())
    } else {
        let prev = cascade_rules(rules.drop_last(), anc, e);
        let r = rules.last();
        match best_match(r.selectors, anc, e) {
            None => prev,
            Some(sp) => apply_decls(prev, r.declarations, (sp, rules.len() - 1)),
        }
    }
}

/// The text an inline `style` attribute is parsed as: the body of a rule.
pub open spec fn wrapped_style(style: Seq<char>) -> Seq<char> {
    seq!['x', '{'] + style + seq!['}']
}

pub open spec fn flatten_decls(rules: Seq<RuleView>) -> Seq<DeclarationView>
    decreases rules.len(),
{
    if rules.len() == 0 {
        seq![]
    } else {
        flatten_decls(rules.drop_last()) + rules.last().declarations
    }
}

/// The declarations of an inline `style` attribute; none when it does not
/// parse.
pub open spec fn inline_decls(style: Seq<char>) -> Seq<DeclarationView> {
    let w = wrapped_style(style);
    if (encode_utf8(w).len() as usize) > MAX_INPUT_BYTES {
        seq![]
    } else {
        match spec_parse_css(w) {
            Ok(rules) => flatten_decls(rules),
            Err(_) => seq![],
        }
    }
}

/// Sets each declaration's property in turn, later ones replacing earlier.
pub open spec fn overlay(m: Map<Seq<char>, ValueView>, decls: Seq<DeclarationView>) -> Map<Seq<char>, ValueView>
    decreases decls.len(),
{
    if decls.len() == 0 {
        m
    } else {
        overlay(m, decls.drop_last()).insert(decls.last().property, decls.last().value)
    }
}

/// Copies an inherited property from the parent when `own` lacks it.
pub open spec fn inherit_one(own: Map<Seq<char>, ValueView>, parent: Map<Seq<char>, ValueView>, p: Seq<char>) -> Map<Seq<char>, ValueView> {
    if !own.contains_key(p) && parent.contains_key(p) {
        own.insert(p, parent[p])
    } else {
        own
    }
}

/// `color` and `font-size` propagate from parent to child.
pub open spec fn inherit(own: Map<Seq<char>, ValueView>, parent: Map<Seq<char>, ValueView>) -> Map<Seq<char>, ValueView> {
    inherit_one(inherit_one(own, parent, "color"@), parent, "font-size"@)
}

/// The properties of an element: the cascade, then its inline style, then
/// what it inherits.
pub open spec fn element_values(
    e: ElementView,
    rules: Seq<RuleView>,
    anc: Seq<ElementView>,
    parent: Map<Seq<char>, ValueView>,
) -> Map<Seq<char>, ValueView> {
    let cascaded = cascade_rules(rules, anc, e).1;
    let with_inline = if e.attrs.contains_key("style"@) {
        overlay(cascaded, inline_decls(e.attrs["style"@]))
    } else {
        cascaded
    };
    inherit(with_inline, parent)
}

/// The mathematical value of a styled node.
pub struct StyledView {
    pub node: NodeView,
    pub specified: Map<Seq<char>, ValueView>,
    pub children: Seq<StyledView>,
}

/// The styled tree for `n`, whose ancestors are `anc` and whose parent's
/// properties are `parent`. A text node carries only what it inherits; a
/// comment carries nothing.
pub open spec fn spec_style(
    n: NodeView,
    rules: Seq<RuleView>,
    anc: Seq<ElementView>,
    parent: Map<Seq<char>, ValueView>,
) -> StyledView
    decreases n, 1nat,
{
    match n {
        NodeView::Element(e) => {
            let sp = element_values(e, rules, anc, parent);
            StyledView { node: n, specified: sp, children: spec_style_all(e.children, rules, anc.push(e), sp) }
        },
        NodeView::Text(_) => StyledView { node: n, specified: inherit(Map::empty(), parent), children: seq![] },
        NodeView::Comment(_) => StyledView { node: n, specified: Map::empty(), children: seq![] },
    }
}

pub open spec fn spec_style_all(
    c: Seq<NodeView>,
    rules: Seq<RuleView>,
    anc: Seq<ElementView>,
    parent: Map<Seq<char>, ValueView>,
) -> Seq<StyledView>
    decreases c, 0nat,
{
    if c.len() == 0 {
        seq![]
    } else {
        spec_style_all(c.drop_last(), rules, anc, parent).push(spec_style(c.last(), rules, anc, parent))
    }
}


/// A declaration of a matching rule, with its rank.
pub type Ranked = (Rank, DeclarationView);

/// The declarations of the rule at `ri`, ranked, when it matches the element.
pub open spec fn rule_matched(rules: Seq<RuleView>, ri: int, anc: Seq<ElementView>, e: ElementView) -> Seq<Ranked> {
    let r = rules[ri];
    match best_match(r.selectors, anc, e) {
        None => seq![],
        Some(sp) => with_rank(r.declarations, (sp, ri)),
    }
}

pub open spec fn with_rank(decls: Seq<DeclarationView>, rank: Rank) -> Seq<Ranked> {
    Seq::new(decls.len(), |i: int| (rank, decls[i]))
}

/// All declarations of the matching rules, in source order, with their ranks.
pub open spec fn matched_decls(rules: Seq<RuleView>, anc: Seq<ElementView>, e: ElementView) -> Seq<Ranked>
    decreases rules.len(),
{
    if rules.len() == 0 {
        seq![]
    } else {
        matched_decls(rules.drop_last(), anc, e) + rule_matched(rules, rules.len() - 1, anc, e)
    }
}

/// Whether `items[k]` wins property `p`: it sets `p`, no declaration of `p`
/// ranks higher, and every later declaration of `p` ranks lower.
pub open spec fn is_winner(items: Seq<Ranked>, p: Seq<char>, k: int) -> bool {
    &&& 0 <= k < items.len()
    &&& items[k].1.property == p
    &&& forall|j: int| 0 <= j < items.len() && (#[trigger] items[j]).1.property == p ==> rank_le(items[j].0, items[k].0)
    &&& forall|j: int| k < j < items.len() && (#[trigger] items[j]).1.property == p ==> !rank_le(items[k].0, items[j].0)
}

pub open spec fn sets_property(items: Seq<Ranked>, p: Seq<char>) -> bool {
    exists|k: int| 0 <= k < items.len() && (#[trigger] items[k]).1.property == p
}

type Winners = (Map<Seq<char>, Rank>, Map<Seq<char>, ValueView>);

spec fn step_item(acc: Winners, it: Ranked) -> Winners {
    let p = it.1.property;
    if acc.0.contains_key(p) && !rank_le(acc.0[p], it.0) {
        acc
    } else {
        (acc.0.insert(p, it.0), acc.1.insert(p, it.1.value))
    }
}

spec fn fold_items(acc: Winners, items: Seq<Ranked>) -> Winners
    decreases items.len(),
{
    if items.len() == 0 {
        acc
    } else {
        step_item(fold_items(acc, items.drop_last()), items.last())
    }
}

proof fn lemma_fold_concat(acc: Winners, a: Seq<Ranked>, b: Seq<Ranked>)
    ensures
        fold_items(acc, a + b) == fold_items(fold_items(acc, a), b),
    decreases b.len(),
{
    if b.len() == 0 {
        assert(a + b =~= a);
    } else {
        assert((a + b).drop_last() =~= a + b.drop_last());
        lemma_fold_concat(acc, a, b.drop_last());
    }
}

proof fn lemma_apply_is_fold(acc: Winners, decls: Seq<DeclarationView>, rank: Rank)
    ensures
        apply_decls(acc, decls, rank) == fold_items(acc, with_rank(decls, rank)),
    decreases decls.len(),
{
    if decls.len() > 0 {
        assert(with_rank(decls, rank).drop_last() =~= with_rank(decls.drop_last(), rank));
        lemma_apply_is_fold(acc, decls.drop_last(), rank);
    }
}

proof fn lemma_cascade_is_fold(rules: Seq<RuleView>, anc: Seq<ElementView>, e: ElementView)
    ensures
        cascade_rules(rules, anc, e) == fold_items((Map::empty(), Map::empty()), matched_decls(rules, anc, e)),
    decreases rules.len(),
{
    let empty: Winners = (Map::empty(), Map::empty());
    if rules.len() == 0 {
    } else {
        lemma_cascade_is_fold(rules.drop_last(), anc, e);
        let prev = matched_decls(rules.drop_last(), anc, e);
        let last = rule_matched(rules, rules.len() - 1, anc, e);
        lemma_fold_concat(empty, prev, last);
        let r = rules.last();
        assert(r == rules[rules.len() - 1]);
        match best_match(r.selectors, anc, e) {
            None => {
                assert(prev + last =~= prev);
            },
            Some(sp) => {
                lemma_apply_is_fold(cascade_rules(rules.drop_last(), anc, e), r.declarations, (sp, rules.len() - 1));
            },
        }
    }
}

proof fn lemma_fold_winner(items: Seq<Ranked>, p: Seq<char>)
    ensures
        ({
            let w = fold_items((Map::empty(), Map::empty()), items);
            &&& w.1.contains_key(p) == w.0.contains_key(p)
            &&& w.1.contains_key(p) <==> sets_property(items, p)
            &&& w.1.contains_key(p) ==> exists|k: int| #[trigger] is_winner(items, p, k) && w.1[p] == items[k].1.value && w.0[p] == items[k].0
        }),
    decreases items.len(),
{
    let empty: Winners = (Map::empty(), Map::empty());
    if items.len() == 0 {
        assert(!sets_property(items, p));
    } else {
        let pre = items.drop_last();
        let x = items.last();
        let n = items.len() - 1;
        lemma_fold_winner(pre, p);
        let w0 = fold_items(empty, pre);
        let w = fold_items(empty, items);
        assert(items[n] == x);
        assert forall|j: int| 0 <= j < n implies #[trigger] items[j] == pre[j] by {}
        if sets_property(pre, p) {
            let j = choose|j: int| 0 <= j < pre.len() && (#[trigger] pre[j]).1.property == p;
            assert(items[j] == pre[j]);
        }
        if sets_property(items, p) && x.1.property != p {
            let j = choose|j: int| 0 <= j < items.len() && (#[trigger] items[j]).1.property == p;
            assert(pre[j] == items[j]);
            assert(sets_property(pre, p));
        }
        if x.1.property != p {
            if w.1.contains_key(p) {
                let k = choose|k: int| #[trigger] is_winner(pre, p, k) && w0.1[p] == pre[k].1.value && w0.0[p] == pre[k].0;
                assert(is_winner(items, p, k)) by {
                    assert forall|j: int| 0 <= j < items.len() && (#[trigger] items[j]).1.property == p implies rank_le(items[j].0, items[k].0) by {
                        assert(j < n);
                        assert(pre[j] == items[j]);
                    }
                    assert forall|j: int| k < j < items.len() && (#[trigger] items[j]).1.property == p implies !rank_le(items[k].0, items[j].0) by {
                        assert(j < n);
                        assert(pre[j] == items[j]);
                    }
                }
            }
        } else {
            if w0.0.contains_key(p) && !rank_le(w0.0[p], x.0) {
                let k = choose|k: int| #[trigger] is_winner(pre, p, k) && w0.1[p] == pre[k].1.value && w0.0[p] == pre[k].0;
                assert(is_winner(items, p, k)) by {
                    assert forall|j: int| 0 <= j < items.len() && (#[trigger] items[j]).1.property == p implies rank_le(items[j].0, items[k].0) by {
                        if j < n {
                            assert(pre[j] == items[j]);
                        }
                    }
                    assert forall|j: int| k < j < items.len() && (#[trigger] items[j]).1.property == p implies !rank_le(items[k].0, items[j].0) by {
                        if j < n {
                            assert(pre[j] == items[j]);
                        }
                    }
                }
            } else {
                assert(is_winner(items, p, n)) by {
                    assert forall|j: int| 0 <= j < items.len() && (#[trigger] items[j]).1.property == p implies rank_le(items[j].0, items[n].0) by {
                        if j < n {
                            assert(pre[j] == items[j]);
                            assert(sets_property(pre, p));
                            let k = choose|k: int| #[trigger] is_winner(pre, p, k) && w0.1[p] == pre[k].1.value && w0.0[p] == pre[k].0;
                            assert(rank_le(pre[j].0, pre[k].0));
                        }
                    }
                }
            }
        }
    }
}

/// The cascade's law: a property an element receives from the stylesheet
/// is set by some matching rule, every property such a rule sets is
/// received, and the value received is that of the winning declaration,
/// the last one of highest rank. Higher specificity wins, and at equal
/// specificity the later rule wins.
pub proof fn lemma_cascade_winner(rules: Seq<RuleView>, anc: Seq<ElementView>, e: ElementView, p: Seq<char>)
    ensures
        ({
            let m = matched_decls(rules, anc, e);
            let w = cascade_rules(rules, anc, e);
            &&& w.1.contains_key(p) <==> sets_property(m, p)
            &&& w.1.contains_key(p) ==> exists|k: int| #[trigger] is_winner(m, p, k) && w.1[p] == m[k].1.value
        }),
{
    lemma_cascade_is_fold(rules, anc, e);
    lemma_fold_winner(matched_decls(rules, anc, e), p);
}


/// The position of the last declaration of `p` in `decls`.
pub open spec fn last_setting(decls: Seq<DeclarationView>, p: Seq<char>) -> Option<int>
    decreases decls.len(),
{
    if decls.len() == 0 {
        None
    } else if decls.last().property == p {
        Some(decls.len() - 1)
    } else {
        last_setting(decls.drop_last(), p)
    }
}

proof fn lemma_overlay(m: Map<Seq<char>, ValueView>, decls: Seq<DeclarationView>, p: Seq<char>)
    ensures
        match last_setting(decls, p) {
            Some(k) => 0 <= k < decls.len() && overlay(m, decls).contains_key(p) && overlay(m, decls)[p] == decls[k].value,
            None => overlay(m, decls).contains_key(p) == m.contains_key(p) && overlay(m, decls)[p] == m[p],
        },
    decreases decls.len(),
{
    if decls.len() > 0 {
        lemma_overlay(m, decls.drop_last(), p);
        if last_setting(decls, p) != last_setting(decls.drop_last(), p) {
            assert(decls.last().property == p);
        } else if let Some(k) = last_setting(decls, p) {
            assert(decls.drop_last()[k] == decls[k]);
        }
    }
}

/// The properties an element receives from the stylesheet, before its inline
/// style and inheritance.
pub open spec fn cascaded(e: ElementView, rules: Seq<RuleView>, anc: Seq<ElementView>) -> Map<Seq<char>, ValueView> {
    cascade_rules(rules, anc, e).1
}

pub open spec fn inline_of(e: ElementView) -> Seq<DeclarationView> {
    if e.attrs.contains_key("style"@) { inline_decls(e.attrs["style"@]) } else { seq![] }
}

/// An inline `style` always wins over the stylesheet, whatever the
/// specificity: the last inline declaration of a property gives its value.
pub proof fn lemma_inline_style_wins(
    e: ElementView,
    rules: Seq<RuleView>,
    anc: Seq<ElementView>,
    parent: Map<Seq<char>, ValueView>,
    p: Seq<char>,
    k: int,
)
    requires
        last_setting(inline_of(e), p) == Some(k),
    ensures
        element_values(e, rules, anc, parent).contains_key(p),
        element_values(e, rules, anc, parent)[p] == inline_of(e)[k].value,
{
    if e.attrs.contains_key("style"@) {
        lemma_overlay(cascaded(e, rules, anc), inline_decls(e.attrs["style"@]), p);
    }
}

/// Without an inline declaration of `p`, the stylesheet's winner for `p`
/// is what the element gets, when the stylesheet sets `p` at all.
pub proof fn lemma_stylesheet_value_kept(
    e: ElementView,
    rules: Seq<RuleView>,
    anc: Seq<ElementView>,
    parent: Map<Seq<char>, ValueView>,
    p: Seq<char>,
)
    requires
        last_setting(inline_of(e), p) is None,
        cascaded(e, rules, anc).contains_key(p),
    ensures
        element_values(e, rules, anc, parent).contains_key(p),
        element_values(e, rules, anc, parent)[p] == cascaded(e, rules, anc)[p],
{
    if e.attrs.contains_key("style"@) {
        lemma_overlay(cascaded(e, rules, anc), inline_decls(e.attrs["style"@]), p);
    } else {
        lemma_overlay(cascaded(e, rules, anc), seq![], p);
    }
}

/// `color` and `font-size` that neither the stylesheet nor the inline style
/// sets come from the parent; any other property that neither sets is absent.
pub proof fn lemma_inheritance(
    e: ElementView,
    rules: Seq<RuleView>,
    anc: Seq<ElementView>,
    parent: Map<Seq<char>, ValueView>,
    p: Seq<char>,
)
    requires
        last_setting(inline_of(e), p) is None,
        !cascaded(e, rules, anc).contains_key(p),
    ensures
        (p == "color"@ || p == "font-size"@) ==> (element_values(e, rules, anc, parent).contains_key(p)
            <==> parent.contains_key(p)),
        (p == "color"@ || p == "font-size"@) && parent.contains_key(p)
            ==> element_values(e, rules, anc, parent)[p] == parent[p],
        !(p == "color"@ || p == "font-size"@) ==> !element_values(e, rules, anc, parent).contains_key(p),
{
    if e.attrs.contains_key("style"@) {
        lemma_overlay(cascaded(e, rules, anc), inline_decls(e.attrs["style"@]), p);
    } else {
        lemma_overlay(cascaded(e, rules, anc), seq![], p);
    }
    reveal_strlit("color");
    reveal_strlit("font-size");
}

} // verus!
