//! The cascade: every element gets the winning value of each property set by
//! a matching rule (higher specificity wins, ties go to the later rule), its
//! inline `style` overrides the stylesheet, and `color` and `font-size`
//! propagate from parent to child.

use vstd::prelude::*;
use vstd::string::StringSliceAdditionalSpecFns;
use crate::css::{
    decls_view, lemma_specificity_prefix, spec_value_color, Color, rules_view, selectors_view, simples_view, spec_specificity, Declaration,
    SimpleSelector, Specificity, Stylesheet, Value,
};
use crate::css_spec::{DeclarationView, RuleView, SimpleSelectorView, ValueView};
use crate::dom::{
    lemma_nodes_view, node_view, nodes_view, spec_class_list, ElementData, ElementView, NameMap,
    Node, NodeView,
};
use crate::style_spec::{
    ancestors_match, apply_decls, best_match, cascade_rules, element_values, flatten_decls, specificity_le,
    inherit, inherit_one, inline_decls, overlay, rank_le, spec_selector_matches,
    spec_simple_matches, spec_style, spec_style_all, wrapped_style, Rank, StyledView,
};
use crate::text::{push_char, push_str_chars, str_eq};

verus! {

broadcast use vstd::string::group_string_axioms;

/// Property name to value.
pub type PropertyMap = NameMap<Value>;

/// A DOM node paired with the values the cascade gave it.
pub struct StyledNode<'a> {
    pub node: &'a Node,
    pub specified: PropertyMap,
    pub children: Vec<StyledNode<'a>>,
}

pub open spec fn styled_view<'a>(n: StyledNode<'a>) -> StyledView
    decreases n, 1nat,
{
    StyledView { node: node_view(*n.node), specified: n.specified@, children: styled_views(n.children@) }
}

pub open spec fn styled_views<'a>(s: Seq<StyledNode<'a>>) -> Seq<StyledView>
    decreases s, 0nat,
{
    if s.len() == 0 {
        seq![]
    } else {
        styled_views(s.drop_last()).push(styled_view(s.last()))
    }
}

impl<'a> View for StyledNode<'a> {
    type V = StyledView;

    open spec fn view(&self) -> StyledView {
        styled_view(*self)
    }
}

/// How a node is laid out, from its `display` value.
#[derive(Debug, Clone, Copy, PartialEq, Eq, Structural)]
pub enum Display {
    Block,
    Inline,
    DisplayNone,
}

pub open spec fn spec_display(specified: Map<Seq<char>, ValueView>) -> Display {
    if specified.contains_key("display"@) && (specified["display"@] matches ValueView::Keyword(k) && k == "inline"@) {
        Display::Inline
    } else if specified.contains_key("display"@) && (specified["display"@] matches ValueView::Keyword(k) && k == "none"@) {
        Display::DisplayNone
    } else {
        Display::Block
    }
}

impl<'a> StyledNode<'a> {
    /// The element's tag name, or `#text` / `#comment`.
    pub fn tag_name(&self) -> (r: &str)
        ensures
            r@ == match *self.node {
                Node::Element(e) => e.tag_name@,
                Node::Text(_) => "#text"@,
                Node::Comment(_) => "#comment"@,
            },
    {
        match self.node {
            Node::Element(e) => e.tag_name.as_str(),
            Node::Text(_) => "#text",
            Node::Comment(_) => "#comment",
        }
    }

    /// The value of `prop`, if the node has one.
    pub fn value(&self, prop: &str) -> (r: Option<&Value>)
        ensures
            match r {
                Some(v) => self.specified@.contains_key(prop@) && self.specified@[prop@] == v@,
                None => !self.specified@.contains_key(prop@),
            },
    {
        self.specified.get(prop)
    }

    /// `inline` and `none` from the `display` keyword; anything else is a block.
    pub fn display(&self) -> (d: Display)
        ensures
            d == spec_display(self.specified@),
    {
        match self.value("display") {
            Some(v) => match v.as_keyword() {
                Some(k) => {
                    if str_eq(k, "inline") {
                        Display::Inline
                    } else if str_eq(k, "none") {
                        Display::DisplayNone
                    } else {
                        Display::Block
                    }
                },
                None => Display::Block,
            },
            None => Display::Block,
        }
    }
}

/// The color a property names, when the property is set to one.
pub open spec fn property_color(specified: Map<Seq<char>, ValueView>, prop: Seq<char>) -> Option<Color> {
    if specified.contains_key(prop) {
        spec_value_color(specified[prop])
    } else {
        None
    }
}

/// The color a box's border is painted in: `border-color`, or black.
pub open spec fn spec_border_color(specified: Map<Seq<char>, ValueView>) -> Color {
    match property_color(specified, "border-color"@) {
        Some(c) => c,
        None => Color { r: 0, g: 0, b: 0, a: 255 },
    }
}

/// The color a box's background is painted in: `background-color`, or
/// else `background`, when either names a color.
pub open spec fn spec_background_color(specified: Map<Seq<char>, ValueView>) -> Option<Color> {
    match property_color(specified, "background-color"@) {
        Some(c) => Some(c),
        None => property_color(specified, "background"@),
    }
}

impl<'a> StyledNode<'a> {
    /// The color `prop` is set to, if it names one.
    fn color_of(&self, prop: &str) -> (r: Option<Color>)
        ensures
            r == property_color(self.specified@, prop@),
    {
        match self.value(prop) {
            Some(v) => v.as_color(),
            None => None,
        }
    }

    /// Whether `prop` is set to the keyword `auto`.
    pub fn is_auto(&self, prop: &str) -> (b: bool)
        ensures
            b == (self.specified@.contains_key(prop@)
                && self.specified@[prop@] == ValueView::Keyword("auto"@)),
    {
        match self.value(prop) {
            Some(v) => match v.as_keyword() {
                Some(k) => str_eq(k, "auto"),
                None => false,
            },
            None => false,
        }
    }

    /// The color the box's border is painted in.
    pub fn border_color(&self) -> (c: Color)
        ensures
            c == spec_border_color(self.specified@),
    {
        match self.color_of("border-color") {
            Some(c) => c,
            None => Color::rgb(0, 0, 0),
        }
    }

    /// The color the box's background is painted in, if any.
    pub fn background_color(&self) -> (c: Option<Color>)
        ensures
            c == spec_background_color(self.specified@),
    {
        match self.color_of("background-color") {
            Some(c) => Some(c),
            None => self.color_of("background"),
        }
    }
}

/// Whether every selector's counts fit the `u32` fields of a specificity.
pub open spec fn sheet_fits(rules: Seq<RuleView>) -> bool {
    forall|i: int, j: int|
        0 <= i < rules.len() && 0 <= j < rules[i].selectors.len() ==> {
            &&& (#[trigger] rules[i].selectors[j]).len() <= u32::MAX
            &&& spec_specificity(rules[i].selectors[j]).1 <= u32::MAX
        }
}

/// Whether every selector's counts fit the `u32` fields of a specificity,
/// as `style_tree` needs.
pub fn specificities_fit(stylesheet: &Stylesheet) -> (b: bool)
    ensures
        b == sheet_fits(stylesheet@),
{
    let ghost rv = stylesheet@;
    let mut i: usize = 0;
    while i < stylesheet.rules.len()
        invariant
            i <= stylesheet.rules@.len(),
            rv == stylesheet@,
            forall|a: int, b: int| 0 <= a < i && 0 <= b < rv[a].selectors.len() ==> {
                &&& (#[trigger] rv[a].selectors[b]).len() <= u32::MAX
                &&& spec_specificity(rv[a].selectors[b]).1 <= u32::MAX
            },
        decreases stylesheet.rules@.len() - i,
    {
        let rule = &stylesheet.rules[i];
        assert(rv[i as int] == rule@);
        let mut j: usize = 0;
        while j < rule.selectors.len()
            invariant
                i < stylesheet.rules@.len(),
                j <= rule.selectors@.len(),
                rv == stylesheet@,
                rv[i as int] == rule@,
                forall|a: int, b: int| 0 <= a < i && 0 <= b < rv[a].selectors.len() ==> {
                    &&& (#[trigger] rv[a].selectors[b]).len() <= u32::MAX
                    &&& spec_specificity(rv[a].selectors[b]).1 <= u32::MAX
                },
                forall|b: int| 0 <= b < j ==> {
                    &&& (#[trigger] rv[i as int].selectors[b]).len() <= u32::MAX
                    &&& spec_specificity(rv[i as int].selectors[b]).1 <= u32::MAX
                },
            decreases rule.selectors@.len() - j,
        {
            let parts = &rule.selectors[j].parts;
            let ghost sel = simples_view(parts@);
            assert(rv[i as int].selectors[j as int] == sel);
            assert(rv[i as int].selectors.len() == rule.selectors@.len());
            if parts.len() > 0xFFFF_FFFF {
                assert(!(rv[i as int].selectors[j as int].len() <= u32::MAX));
                return false;
            }
            let mut total: u64 = 0;
            let mut k: usize = 0;
            while k < parts.len()
                invariant
                    k <= parts@.len() <= u32::MAX,
                    sel == simples_view(parts@),
                    rv == stylesheet@,
                    0 <= i < rv.len(),
                    0 <= j < rv[i as int].selectors.len(),
                    rv[i as int].selectors[j as int] == sel,
                    total == spec_specificity(sel.take(k as int)).1,
                    total <= u32::MAX,
                decreases parts@.len() - k,
            {
                proof {
                    assert(sel.take(k + 1).drop_last() =~= sel.take(k as int));
                    assert(sel.take(k + 1).last() == parts@[k as int]@);
                }
                let n = parts[k].classes.len();
                if n as u64 > 0xFFFF_FFFFu64 - total {
                    proof {
                        lemma_specificity_prefix(sel, k + 1);
                        assert(!(spec_specificity(rv[i as int].selectors[j as int]).1 <= u32::MAX));
                    }
                    return false;
                }
                total = total + n as u64;
                k = k + 1;
            }
            assert(sel.take(k as int) =~= sel);
            j = j + 1;
        }
        i = i + 1;
    }
    true
}

pub open spec fn anc_view<'a>(a: Seq<&'a ElementData>) -> Seq<ElementView> {
    Seq::new(a.len(), |i: int| a[i]@)
}

/// Builds the styled tree for `root`.
pub fn style_tree<'a>(root: &'a Node, stylesheet: &Stylesheet) -> (r: StyledNode<'a>)
    requires
        sheet_fits(stylesheet@),
    ensures
        r@ == spec_style(root@, stylesheet@, seq![], Map::empty()),
{
    let ancestors: Vec<&'a ElementData> = Vec::new();
    let parent: PropertyMap = NameMap::new();
    assert(anc_view(ancestors@) =~= Seq::<ElementView>::empty());
    style_node(root, stylesheet, &ancestors, &parent)
}

fn inherit_into(values: &mut PropertyMap, parent: &PropertyMap, prop: &str)
    ensures
        final(values)@ == inherit_one(old(values)@, parent@, prop@),
{
    if values.get(prop).is_none() {
        if let Some(v) = parent.get(prop) {
            values.insert(prop.to_string(), v.duplicate());
        }
    }
}

fn style_node<'a>(node: &'a Node, stylesheet: &Stylesheet, ancestors: &Vec<&'a ElementData>, parent: &PropertyMap) -> (r: StyledNode<'a>)
    requires
        sheet_fits(stylesheet@),
    ensures
        r@ == spec_style(node@, stylesheet@, anc_view(ancestors@), parent@),
    decreases node,
{
    match node {
        Node::Element(elem) => {
            let specified = specified_values(elem, stylesheet, ancestors, parent);
            let mut next: Vec<&'a ElementData> = Vec::new();
            let mut k: usize = 0;
            while k < ancestors.len()
                invariant
                    k <= ancestors@.len(),
                    next@ == ancestors@.take(k as int),
                decreases ancestors@.len() - k,
            {
                next.push(ancestors[k]);
                k = k + 1;
                assert(next@ =~= ancestors@.take(k as int));
            }
            assert(ancestors@.take(k as int) =~= ancestors@);
            next.push(elem);
            assert(anc_view(next@) =~= anc_view(ancestors@).push(elem@));
            let ghost kids = nodes_view(elem.children@);
            proof { lemma_nodes_view(elem.children@); }
            let mut children: Vec<StyledNode<'a>> = Vec::new();
            let mut i: usize = 0;
            while i < elem.children.len()
                invariant
                    i <= elem.children@.len(),
                    *node == Node::Element(*elem),
                    sheet_fits(stylesheet@),
                    kids == nodes_view(elem.children@),
                    kids.len() == elem.children@.len(),
                    forall|j: int| 0 <= j < elem.children@.len() ==> #[trigger] kids[j] == node_view(elem.children@[j]),
                    styled_views(children@) == spec_style_all(kids.take(i as int), stylesheet@, anc_view(next@), specified@),
                decreases elem.children@.len() - i,
            {
                proof {
                    assert(*node == Node::Element(*elem));
                    assert(decreases_to!(*node => (*node)->Element_0));
                    assert(decreases_to!(*elem => elem.children));
                    assert(decreases_to!(elem.children => elem.children@[i as int]));
                }
                let child = style_node(&elem.children[i], stylesheet, &next, &specified);
                let ghost before = children@;
                children.push(child);
                proof {
                    assert(children@.drop_last() =~= before);
                    assert(kids.take(i + 1).drop_last() =~= kids.take(i as int));
                    assert(kids.take(i + 1).last() == kids[i as int]);
                }
                i = i + 1;
            }
            assert(kids.take(i as int) =~= kids);
            StyledNode { node, specified, children }
        },
        Node::Text(_) => {
            let mut specified: PropertyMap = NameMap::new();
            inherit_into(&mut specified, parent, "color");
            inherit_into(&mut specified, parent, "font-size");
            let children: Vec<StyledNode<'a>> = Vec::new();
            assert(styled_views(children@) =~= Seq::<StyledView>::empty());
            StyledNode { node, specified, children }
        },
        Node::Comment(_) => {
            let specified: PropertyMap = NameMap::new();
            let children: Vec<StyledNode<'a>> = Vec::new();
            assert(styled_views(children@) =~= Seq::<StyledView>::empty());
            StyledNode { node, specified, children }
        },
    }
}


pub open spec fn spec_best(b: Option<Specificity>) -> Option<(nat, nat, nat)> {
    match b {
        Some(t) => Some((t.0 as nat, t.1 as nat, t.2 as nat)),
        None => None,
    }
}

fn specificity_at_most(a: Specificity, b: Specificity) -> (r: bool)
    ensures
        r == specificity_le((a.0 as nat, a.1 as nat, a.2 as nat), (b.0 as nat, b.1 as nat, b.2 as nat)),
{
    a.0 < b.0 || (a.0 == b.0 && (a.1 < b.1 || (a.1 == b.1 && a.2 <= b.2)))
}

/// The rank of a declaration in the cascade.
#[derive(Clone, Copy)]
struct RankKey {
    ids: u32,
    classes: u32,
    types: u32,
    order: usize,
}

impl View for RankKey {
    type V = Rank;

    closed spec fn view(&self) -> Rank {
        ((self.ids as nat, self.classes as nat, self.types as nat), self.order as int)
    }
}

fn rank_at_most(a: &RankKey, b: &RankKey) -> (r: bool)
    ensures
        r == rank_le(a@, b@),
{
    a.ids < b.ids || (a.ids == b.ids && (a.classes < b.classes || (a.classes == b.classes
        && (a.types < b.types || (a.types == b.types && a.order <= b.order)))))
}

fn simple_matches(sel: &SimpleSelector, elem: &ElementData) -> (r: bool)
    ensures
        r == spec_simple_matches(sel@, elem@),
{
    if let Some(tag) = &sel.tag {
        if !str_eq(tag.as_str(), elem.tag_name.as_str()) {
            return false;
        }
    }
    if let Some(id) = &sel.id {
        match elem.id() {
            Some(eid) => {
                if !str_eq(id.as_str(), eid) {
                    return false;
                }
            },
            None => {
                return false;
            },
        }
    }
    let mut i: usize = 0;
    while i < sel.classes.len()
        invariant
            i <= sel.classes@.len(),
            forall|j: int| 0 <= j < i ==> spec_class_list(elem.attributes@).contains(#[trigger] sel@.classes[j]),
        decreases sel.classes@.len() - i,
    {
        if !elem.has_class(sel.classes[i].as_str()) {
            assert(sel@.classes[i as int] == sel.classes@[i as int]@);
            return false;
        }
        i = i + 1;
    }
    if !sel.universal && sel.tag.is_none() && sel.id.is_none() && sel.classes.len() == 0 {
        return false;
    }
    true
}

fn selector_matches(parts: &[SimpleSelector], ancestors: &[&ElementData], elem: &ElementData) -> (r: bool)
    ensures
        r == spec_selector_matches(simples_view(parts@), anc_view(ancestors@), elem@),
{
    let ghost ps = simples_view(parts@);
    let ghost an = anc_view(ancestors@);
    if parts.len() == 0 {
        return false;
    }
    let last = parts.len() - 1;
    if !simple_matches(&parts[last], elem) {
        return false;
    }
    let mut remaining = last;
    let mut idx = ancestors.len();
    assert(ps.drop_last() =~= ps.take(remaining as int));
    assert(an =~= an.take(idx as int));
    while remaining > 0
        invariant
            remaining <= last < parts@.len(),
            idx <= ancestors@.len(),
            ps == simples_view(parts@),
            an == anc_view(ancestors@),
            ancestors_match(ps.drop_last(), an) == ancestors_match(ps.take(remaining as int), an.take(idx as int)),
        decreases remaining,
    {
        let mut found = false;
        while idx > 0
            invariant_except_break
                0 < remaining <= last < parts@.len(),
                idx <= ancestors@.len(),
                ps == simples_view(parts@),
                an == anc_view(ancestors@),
                !found,
                ancestors_match(ps.drop_last(), an) == ancestors_match(ps.take(remaining as int), an.take(idx as int)),
            ensures
                0 < remaining <= last < parts@.len(),
                idx <= ancestors@.len(),
                ps == simples_view(parts@),
                an == anc_view(ancestors@),
                found ==> idx < ancestors@.len() && ancestors_match(ps.drop_last(), an)
                    == ancestors_match(ps.take(remaining - 1), an.take(idx as int)),
                !found ==> idx == 0 && ancestors_match(ps.drop_last(), an) == ancestors_match(ps.take(remaining as int), an.take(0)),
            decreases idx,
        {
            idx = idx - 1;
            let ghost r = ps.take(remaining as int);
            let ghost a = an.take(idx + 1);
            proof {
                assert(r.last() == ps[remaining - 1]);
                assert(a.last() == an[idx as int]);
                assert(a.drop_last() =~= an.take(idx as int));
                assert(r.drop_last() =~= ps.take(remaining - 1));
            }
            if simple_matches(&parts[remaining - 1], ancestors[idx]) {
                found = true;
                break;
            }
        }
        if !found {
            return false;
        }
        remaining = remaining - 1;
    }
    assert(ps.take(0) =~= Seq::<SimpleSelectorView>::empty());
    true
}

/// The declarations of an inline `style` attribute, parsed as the body of a
/// rule; none when it does not parse.
fn parse_inline_declarations(style_attr: &str) -> (r: Vec<Declaration>)
    ensures
        decls_view(r@) == inline_decls(style_attr@),
{
    let mut wrapped = String::new();
    push_char(&mut wrapped, 'x');
    push_char(&mut wrapped, '{');
    push_str_chars(&mut wrapped, style_attr);
    push_char(&mut wrapped, '}');
    assert(wrapped@ =~= wrapped_style(style_attr@));
    let mut out: Vec<Declaration> = Vec::new();
    match crate::css::parse(wrapped.as_str()) {
        Ok(sheet) => {
            let ghost rv = rules_view(sheet.rules@);
            let mut i: usize = 0;
            assert(decls_view(out@) =~= flatten_decls(rv.take(0)));
            while i < sheet.rules.len()
                invariant
                    i <= sheet.rules@.len(),
                    rv == rules_view(sheet.rules@),
                    decls_view(out@) == flatten_decls(rv.take(i as int)),
                decreases sheet.rules@.len() - i,
            {
                let rule = &sheet.rules[i];
                let ghost base = decls_view(out@);
                let mut j: usize = 0;
                while j < rule.declarations.len()
                    invariant
                        j <= rule.declarations@.len(),
                        decls_view(out@) == base + decls_view(rule.declarations@).take(j as int),
                    decreases rule.declarations@.len() - j,
                {
                    let d = &rule.declarations[j];
                    let copy = Declaration { property: d.property.clone(), value: d.value.duplicate() };
                    let ghost prev = out@;
                    out.push(copy);
                    assert(decls_view(out@) =~= base + decls_view(rule.declarations@).take(j + 1)) by {
                        assert(decls_view(out@) =~= decls_view(prev).push(copy@));
                    }
                    j = j + 1;
                }
                proof {
                    assert(decls_view(rule.declarations@).take(j as int) =~= decls_view(rule.declarations@));
                    assert(rv.take(i + 1).drop_last() =~= rv.take(i as int));
                    assert(rv.take(i + 1).last() == rule@);
                }
                i = i + 1;
            }
            assert(rv.take(i as int) =~= rv);
        },
        Err(_) => {
            assert(decls_view(out@) =~= Seq::<DeclarationView>::empty());
        },
    }
    out
}

/// The values of an element: the cascade, its inline style, what it inherits.
fn specified_values(elem: &ElementData, stylesheet: &Stylesheet, ancestors: &Vec<&ElementData>, parent: &PropertyMap) -> (r: PropertyMap)
    requires
        sheet_fits(stylesheet@),
    ensures
        r@ == element_values(elem@, stylesheet@, anc_view(ancestors@), parent@),
{
    let ghost rv = stylesheet@;
    let ghost an = anc_view(ancestors@);
    let mut values: PropertyMap = NameMap::new();
    let mut ranks: NameMap<RankKey> = NameMap::new();
    let mut ri: usize = 0;
    assert(rv.take(0) =~= Seq::<RuleView>::empty());
    while ri < stylesheet.rules.len()
        invariant
            ri <= stylesheet.rules@.len(),
            rv == stylesheet@,
            sheet_fits(rv),
            an == anc_view(ancestors@),
            (ranks@, values@) == cascade_rules(rv.take(ri as int), an, elem@),
        decreases stylesheet.rules@.len() - ri,
    {
        let rule = &stylesheet.rules[ri];
        let ghost sels = selectors_view(rule.selectors@);
        assert(rv[ri as int] == rule@);
        let mut si: usize = 0;
        let mut best: Option<Specificity> = None;
        assert(sels.take(0) =~= Seq::<Seq<SimpleSelectorView>>::empty());
        while si < rule.selectors.len()
            invariant
                si <= rule.selectors@.len(),
                ri < rv.len(),
                rv == stylesheet@,
                sheet_fits(rv),
                rv[ri as int] == rule@,
                sels == selectors_view(rule.selectors@),
                an == anc_view(ancestors@),
                spec_best(best) == best_match(sels.take(si as int), an, elem@),
            decreases rule.selectors@.len() - si,
        {
            proof {
                assert(sels.take(si + 1).drop_last() =~= sels.take(si as int));
                assert(sels.take(si + 1).last() == sels[si as int]);
                assert(rule.selectors@[si as int]@ == sels[si as int]);
                assert(rv[ri as int].selectors[si as int] == sels[si as int]);
            }
            if selector_matches(rule.selectors[si].parts.as_slice(), ancestors.as_slice(), elem) {
                let sp = rule.selectors[si].specificity();
                best = match best {
                    Some(b) => if specificity_at_most(sp, b) { Some(b) } else { Some(sp) },
                    None => Some(sp),
                };
            }
            si = si + 1;
        }
        assert(sels.take(si as int) =~= sels);
        let ghost prev = cascade_rules(rv.take(ri as int), an, elem@);
        proof {
            assert(rv.take(ri + 1).drop_last() =~= rv.take(ri as int));
            assert(rv.take(ri + 1).last() == rule@);
        }
        if let Some(spec) = best {
            let rank = RankKey { ids: spec.0, classes: spec.1, types: spec.2, order: ri };
            let ghost dv = decls_view(rule.declarations@);
            let mut di: usize = 0;
            assert(dv.take(0) =~= Seq::<DeclarationView>::empty());
            while di < rule.declarations.len()
                invariant
                    di <= rule.declarations@.len(),
                    dv == decls_view(rule.declarations@),
                    (ranks@, values@) == apply_decls(prev, dv.take(di as int), rank@),
                decreases rule.declarations@.len() - di,
            {
                let d = &rule.declarations[di];
                proof {
                    assert(dv.take(di + 1).drop_last() =~= dv.take(di as int));
                    assert(dv.take(di + 1).last() == d@);
                }
                let replace = match ranks.get(d.property.as_str()) {
                    Some(cur) => rank_at_most(cur, &rank),
                    None => true,
                };
                if replace {
                    ranks.insert(d.property.clone(), rank);
                    values.insert(d.property.clone(), d.value.duplicate());
                }
                di = di + 1;
            }
            assert(dv.take(di as int) =~= dv);
        }
        ri = ri + 1;
    }
    assert(rv.take(ri as int) =~= rv);
    if let Some(inline) = elem.attributes.get("style") {
        let decls = parse_inline_declarations(inline.as_str());
        let ghost base = values@;
        let ghost dv = decls_view(decls@);
        let mut i: usize = 0;
        assert(dv.take(0) =~= Seq::<DeclarationView>::empty());
        while i < decls.len()
            invariant
                i <= decls@.len(),
                dv == decls_view(decls@),
                values@ == overlay(base, dv.take(i as int)),
            decreases decls@.len() - i,
        {
            let d = &decls[i];
            values.insert(d.property.clone(), d.value.duplicate());
            proof {
                assert(dv.take(i + 1).drop_last() =~= dv.take(i as int));
                assert(dv.take(i + 1).last() == d@);
            }
            i = i + 1;
        }
        assert(dv.take(i as int) =~= dv);
    }
    inherit_into(&mut values, parent, "color");
    inherit_into(&mut values, parent, "font-size");
    values
}

} // verus!
