//! What holds of every tree the HTML parser builds, whatever the input:
//! the root is an `html` element, and void elements never have children.

use vstd::prelude::*;
use crate::dom::{spec_is_void_element, ElementView, NodeView};
use crate::html::lemma_element_positions;
use crate::html_spec::{
    close_tag_step, doc_run, doc_step, element_positions, finish_document, fold_to, fold_top,
    frame_node, innermost_named, lemma_doc_step, open_tag_step, push_child, root_frame,
    spec_parse_html, FrameView,
};

verus! {

/// Whether every void element in the tree `n` is childless.
pub open spec fn void_childless(n: NodeView) -> bool
    decreases n, 1nat,
{
    match n {
        NodeView::Element(e) => (spec_is_void_element(e.tag) ==> e.children.len() == 0)
            && all_void_childless(e.children),
        _ => true,
    }
}

/// Whether every void element in the trees `c` is childless.
pub open spec fn all_void_childless(c: Seq<NodeView>) -> bool
    decreases c, 0nat,
{
    if c.len() == 0 {
        true
    } else {
        all_void_childless(c.drop_last()) && void_childless(c.last())
    }
}

/// Whether the tag names an element that may have children.
#[verifier::opaque]
spec fn may_have_children(tag: Seq<char>) -> bool {
    !spec_is_void_element(tag)
}

/// The open elements are never void, and what they hold so far keeps void
/// elements childless; the outermost is the document's `html` root.
spec fn frames_ok(stack: Seq<FrameView>) -> bool {
    &&& stack.len() >= 1
    &&& stack[0].tag == "html"@
    &&& forall|i: int| #![trigger stack[i]] 0 <= i < stack.len() ==>
        may_have_children(stack[i].tag) && all_void_childless(stack[i].children)
}

proof fn lemma_all_push(c: Seq<NodeView>, n: NodeView)
    ensures
        all_void_childless(c.push(n)) == (all_void_childless(c) && void_childless(n)),
{
    assert(c.push(n).drop_last() =~= c);
}

proof fn lemma_all_index(c: Seq<NodeView>, i: int)
    requires
        all_void_childless(c),
        0 <= i < c.len(),
    ensures
        void_childless(c[i]),
    decreases c.len(),
{
    if i < c.len() - 1 {
        assert(c.drop_last()[i] == c[i]);
        lemma_all_index(c.drop_last(), i);
    }
}

proof fn lemma_push_child_ok(stack: Seq<FrameView>, n: NodeView)
    requires
        frames_ok(stack),
        void_childless(n),
    ensures
        frames_ok(push_child(stack, n)),
        push_child(stack, n).len() == stack.len(),
{
    let r = push_child(stack, n);
    lemma_all_push(stack.last().children, n);
    assert forall|i: int| #![trigger r[i]] 0 <= i < r.len() implies
        may_have_children(r[i].tag) && all_void_childless(r[i].children) by {
        if i < r.len() - 1 {
            assert(r[i] == stack[i]);
        }
    }
}

proof fn lemma_push_frame_ok(stack: Seq<FrameView>, f: FrameView)
    requires
        frames_ok(stack),
        may_have_children(f.tag),
        all_void_childless(f.children),
    ensures
        frames_ok(stack.push(f)),
{
    let r = stack.push(f);
    assert forall|i: int| #![trigger r[i]] 0 <= i < r.len() implies
        may_have_children(r[i].tag) && all_void_childless(r[i].children) by {
        if i < stack.len() {
            assert(r[i] == stack[i]);
        } else {
            assert(r[i] == f);
        }
    }
    assert(r[0] == stack[0]);
}

proof fn lemma_fold_top_ok(stack: Seq<FrameView>)
    requires
        frames_ok(stack),
        stack.len() >= 2,
    ensures
        frames_ok(fold_top(stack)),
        fold_top(stack).len() == stack.len() - 1,
{
    let top = stack.last();
    assert(may_have_children(stack[stack.len() - 1].tag));
    assert(void_childless(frame_node(top))) by { reveal(may_have_children); }
    let rest = stack.drop_last();
    assert(frames_ok(rest)) by {
        assert forall|i: int| #![trigger rest[i]] 0 <= i < rest.len() implies
            may_have_children(rest[i].tag) && all_void_childless(rest[i].children) by {
            assert(rest[i] == stack[i]);
        }
        assert(rest[0] == stack[0]);
    }
    lemma_push_child_ok(rest, frame_node(top));
}

proof fn lemma_fold_to_ok(stack: Seq<FrameView>, depth: int)
    requires
        frames_ok(stack),
    ensures
        frames_ok(fold_to(stack, depth)),
        fold_to(stack, depth).len() == (if 1 <= depth < stack.len() { depth } else { stack.len() as int }),
    decreases stack.len(),
{
    if 1 <= depth < stack.len() {
        lemma_fold_top_ok(stack);
        lemma_fold_to_ok(fold_top(stack), depth);
    }
}

proof fn lemma_innermost_named(stack: Seq<FrameView>, name: Seq<char>)
    ensures
        innermost_named(stack, name) matches Some(i) ==> 0 <= i < stack.len(),
    decreases stack.len(),
{
    if stack.len() > 0 && stack.last().tag != name {
        lemma_innermost_named(stack.drop_last(), name);
    }
}

proof fn lemma_open_tag_ok(s: Seq<char>, pos: int, stack: Seq<FrameView>)
    requires
        frames_ok(stack),
    ensures
        frames_ok(open_tag_step(s, pos, stack).1),
{
    let childless = Seq::<NodeView>::empty();
    assert(all_void_childless(childless));
    reveal_strlit("<");
    let r = open_tag_step(s, pos, stack).1;
    let ne = crate::html_spec::run_end(s, pos + 1, crate::html_spec::Run::TagName);
    let name = crate::html_spec::tag_name_at(s, pos + 1);
    if name.len() == 0 {
        assert(r == push_child(stack, NodeView::Text("<"@)));
        lemma_push_child_ok(stack, NodeView::Text("<"@));
        assert(frames_ok(r));
    } else {
        let pa = crate::html_spec::attrs_from(s, ne, Map::empty());
        let p2 = pa.0;
        let attrs = pa.1;
        let p3 = crate::html_spec::run_end(s, p2, crate::html_spec::Run::Space);
        let self_closing = p3 < s.len() && s[p3] == '/';
        let p4 = if self_closing { p3 + 1 } else { p3 };
        let p5 = if p4 < s.len() && s[p4] == '>' { p4 + 1 } else { p4 };
        if self_closing || spec_is_void_element(name) {
            let n = NodeView::Element(ElementView { tag: name, attrs, children: seq![] });
            assert(r == push_child(stack, n));
            lemma_push_child_ok(stack, n);
            assert(frames_ok(r));
        } else if name == "script"@ || name == "style"@ {
            let raw = crate::html_spec::raw_text(s, p5, name).1;
            lemma_all_push(childless, NodeView::Text(raw));
            assert(childless.push(NodeView::Text(raw)) =~= seq![NodeView::Text(raw)]);
            let n = NodeView::Element(ElementView { tag: name, attrs, children: seq![NodeView::Text(raw)] });
            assert(r == push_child(stack, n));
            lemma_push_child_ok(stack, n);
            assert(frames_ok(r));
        } else {
            let f = FrameView { tag: name, attrs, children: seq![] };
            assert(r == stack.push(f));
            assert(may_have_children(f.tag)) by { reveal(may_have_children); }
            lemma_push_frame_ok(stack, f);
            assert(frames_ok(r));
        }
    }
}

proof fn lemma_doc_step_ok(s: Seq<char>, pos: int, stack: Seq<FrameView>)
    requires
        frames_ok(stack),
        0 <= pos < s.len(),
    ensures
        frames_ok(doc_step(s, pos, stack).1),
{
    reveal_strlit("<");
    let r = doc_step(s, pos, stack);
    if crate::html_spec::starts_at(s, pos, "<!--"@) {
        let e = crate::html_spec::find_end(s, pos + 4, "-->"@);
        lemma_push_child_ok(stack, NodeView::Comment(s.subrange(pos + 4, e)));
    } else if crate::html_spec::starts_at(s, pos, "<!"@) {
    } else if s[pos] == '<' {
        if crate::html_spec::starts_at(s, pos, "</"@) {
            let ne = crate::html_spec::run_end(s, pos + 2, crate::html_spec::Run::TagName);
            let name = crate::html_spec::tag_name_at(s, pos + 2);
            lemma_innermost_named(stack, name);
            if name.len() != 0 {
                match innermost_named(stack, name) {
                    Some(idx) => {
                        if idx != 0 {
                            lemma_fold_to_ok(stack, idx);
                        }
                    },
                    None => {},
                }
            }
        } else if pos + 1 < s.len() && crate::text::is_ascii_alpha(s[pos + 1]) {
            lemma_open_tag_ok(s, pos, stack);
        } else {
            lemma_push_child_ok(stack, NodeView::Text("<"@));
        }
    } else {
        let e = crate::html_spec::run_end(s, pos, crate::html_spec::Run::Until('<'));
        let t = crate::html_spec::decode_entities(s.subrange(pos, e));
        if t.len() != 0 {
            lemma_push_child_ok(stack, NodeView::Text(t));
        }
    }
}

proof fn lemma_doc_run_ok(s: Seq<char>, pos: int, stack: Seq<FrameView>)
    requires
        frames_ok(stack),
    ensures
        doc_run(s, pos, stack) matches Some(st) ==> frames_ok(st),
    decreases s.len() - pos,
{
    if 0 <= pos < s.len() && stack.len() <= crate::error::MAX_DOM_DEPTH {
        let next = doc_step(s, pos, stack);
        lemma_doc_step(s, pos, stack);
        lemma_doc_step_ok(s, pos, stack);
        lemma_doc_run_ok(s, next.0, next.1);
    }
}

/// The void elements are exactly the HTML list: `area`, `base`, `br`,
/// `col`, `embed`, `hr`, `img`, `input`, `link`, `meta`, `param`, `source`,
/// `track` and `wbr`.
pub proof fn lemma_void_elements_are_the_html_list(t: Seq<char>)
    ensures
        spec_is_void_element(t) <==> (t == "area"@ || t == "base"@ || t == "br"@ || t == "col"@
            || t == "embed"@ || t == "hr"@ || t == "img"@ || t == "input"@ || t == "link"@
            || t == "meta"@ || t == "param"@ || t == "source"@ || t == "track"@ || t == "wbr"@),
{
}

/// An opening void tag opens nothing: it adds one childless element, with
/// the tag's name and attributes, to the children of the innermost open
/// element and leaves every open element in place, so what follows it
/// becomes its sibling.
pub proof fn lemma_void_tag_adds_a_childless_sibling(s: Seq<char>, pos: int, stack: Seq<FrameView>)
    requires
        stack.len() >= 1,
        spec_is_void_element(crate::html_spec::tag_name_at(s, pos + 1)),
    ensures
        ({
            let r = open_tag_step(s, pos, stack).1;
            let name = crate::html_spec::tag_name_at(s, pos + 1);
            let ne = crate::html_spec::run_end(s, pos + 1, crate::html_spec::Run::TagName);
            let attrs = crate::html_spec::attrs_from(s, ne, Map::empty()).1;
            &&& r.len() == stack.len()
            &&& r.drop_last() == stack.drop_last()
            &&& r.last().tag == stack.last().tag
            &&& r.last().children == stack.last().children.push(
                NodeView::Element(ElementView { tag: name, attrs, children: seq![] }))
        }),
{
    let name = crate::html_spec::tag_name_at(s, pos + 1);
    assert(name.len() > 0) by {
        if name.len() == 0 {
            assert(!spec_is_void_element(name)) by {
                reveal_strlit("area");
                reveal_strlit("base");
                reveal_strlit("br");
                reveal_strlit("col");
                reveal_strlit("embed");
                reveal_strlit("hr");
                reveal_strlit("img");
                reveal_strlit("input");
                reveal_strlit("link");
                reveal_strlit("meta");
                reveal_strlit("param");
                reveal_strlit("source");
                reveal_strlit("track");
                reveal_strlit("wbr");
            }
        }
    }
    let r = open_tag_step(s, pos, stack).1;
    assert(r.drop_last() =~= stack.drop_last());
}

/// Every document the parser accepts becomes a single `html` element at the
/// root, and no void element anywhere in the tree has children.
pub proof fn lemma_parsed_tree_shape(s: Seq<char>)
    ensures
        spec_parse_html(s) matches Some(n) ==> {
            &&& n matches NodeView::Element(e) && e.tag == "html"@
            &&& void_childless(n)
        },
{
    reveal_strlit("html");
    reveal_strlit("area");
    reveal_strlit("base");
    reveal_strlit("br");
    reveal_strlit("col");
    reveal_strlit("embed");
    reveal_strlit("hr");
    reveal_strlit("img");
    reveal_strlit("input");
    reveal_strlit("link");
    reveal_strlit("meta");
    reveal_strlit("param");
    reveal_strlit("source");
    reveal_strlit("track");
    reveal_strlit("wbr");
    let start = seq![root_frame()];
    let h = "html"@;
    assert(h.len() == 4 && h[0] == 'h');
    assert(h != "area"@) by { assert("area"@[0] == 'a'); }
    assert(h != "base"@) by { assert("base"@[0] == 'b'); }
    assert(h != "link"@) by { assert("link"@[0] == 'l'); }
    assert(h != "meta"@) by { assert("meta"@[0] == 'm'); }
    assert(may_have_children(h)) by { reveal(may_have_children); }
    assert(all_void_childless(Seq::<NodeView>::empty()));
    assert(frames_ok(start));
    lemma_doc_run_ok(s, 0, start);
    match doc_run(s, 0, start) {
        Some(stack) => {
            lemma_fold_to_ok(stack, 1);
            let folded = fold_to(stack, 1);
            let root = folded[0];
            assert(may_have_children(folded[0].tag));
            let ep = element_positions(root.children);
            lemma_element_positions(root.children);
            if ep.len() == 1 && root.children[ep[0]]->Element_0.tag == "html"@ {
                lemma_all_index(root.children, ep[0]);
            } else {
                assert(void_childless(frame_node(root))) by { reveal(may_have_children); }
            }
        },
        None => {},
    }
}

} // verus!
