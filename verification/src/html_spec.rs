//! The mathematical meaning of the HTML parser: each step of the scan over
//! the document's characters, stated over sequences and maps.

use vstd::prelude::*;
use crate::dom::{NodeView, ElementView, spec_is_void_element};
use crate::text::{unicode_lower, is_ascii_text, is_ascii_alnum, is_ascii_alpha, is_ascii_ws, ascii_lower_seq, ascii_lower};

verus! {

/// Which characters a scan keeps consuming.
#[derive(Clone, Copy)]
pub enum Run {
    /// ASCII letters and digits, `-` and `:`.
    TagName,
    /// ASCII whitespace.
    Space,
    /// Anything but `=`, `>`, `/` and ASCII whitespace.
    AttrName,
    /// Anything but ASCII whitespace and `>`.
    Unquoted,
    /// Anything but the given character.
    Until(char),
}

pub open spec fn run_continues(k: Run, c: char) -> bool {
    match k {
        Run::TagName => is_ascii_alnum(c) || c == '-' || c == ':',
        Run::Space => is_ascii_ws(c),
        Run::AttrName => !(c == '=' || c == '>' || c == '/' || is_ascii_ws(c)),
        Run::Unquoted => !(is_ascii_ws(c) || c == '>'),
        Run::Until(t) => c != t,
    }
}

/// The first position at or after `i` whose character ends the run, or the
/// end of the input.
pub open spec fn run_end(s: Seq<char>, i: int, k: Run) -> int
    decreases s.len() - i,
{
    if 0 <= i < s.len() && run_continues(k, s[i]) {
        run_end(s, i + 1, k)
    } else {
        i
    }
}

pub proof fn lemma_run_end(s: Seq<char>, i: int, k: Run)
    requires
        0 <= i <= s.len(),
    ensures
        i <= run_end(s, i, k) <= s.len(),
        forall|j: int| i <= j < run_end(s, i, k) ==> run_continues(k, #[trigger] s[j]),
        run_end(s, i, k) < s.len() ==> !run_continues(k, s[run_end(s, i, k)]),
    decreases s.len() - i,
{
    if i < s.len() && run_continues(k, s[i]) {
        lemma_run_end(s, i + 1, k);
    }
}

/// Whether `p` occurs in `s` at position `i`.
pub open spec fn starts_at(s: Seq<char>, i: int, p: Seq<char>) -> bool {
    0 <= i && i + p.len() <= s.len() && s.subrange(i, i + p.len()) == p
}

/// Whether `p` occurs in `s` at position `i`, ignoring ASCII case in `s`.
pub open spec fn lower_starts_at(s: Seq<char>, i: int, p: Seq<char>) -> bool {
    0 <= i && i + p.len() <= s.len() && forall|k: int| 0 <= k < p.len() ==> ascii_lower(#[trigger] s[i + k]) == p[k]
}

/// The first position at or after `i` where `p` starts, or the end of the input.
pub open spec fn find_end(s: Seq<char>, i: int, p: Seq<char>) -> int
    decreases s.len() - i,
{
    if 0 <= i < s.len() && !starts_at(s, i, p) {
        find_end(s, i + 1, p)
    } else {
        i
    }
}

/// The first position at or after `i` where `p` starts, ignoring ASCII case,
/// or the end of the input.
pub open spec fn lower_find_end(s: Seq<char>, i: int, p: Seq<char>) -> int
    decreases s.len() - i,
{
    if 0 <= i < s.len() && !lower_starts_at(s, i, p) {
        lower_find_end(s, i + 1, p)
    } else {
        i
    }
}

pub proof fn lemma_find_end(s: Seq<char>, i: int, p: Seq<char>)
    requires
        0 <= i <= s.len(),
    ensures
        i <= find_end(s, i, p) <= s.len(),
        i <= lower_find_end(s, i, p) <= s.len(),
    decreases s.len() - i,
{
    if i < s.len() {
        lemma_find_end(s, i + 1, p);
    }
}

/// Steps over one character unless the input is exhausted.
pub open spec fn step_one(s: Seq<char>, i: int) -> int {
    if i < s.len() { i + 1 } else { i }
}

/// `str::replace`: every non-overlapping occurrence of `p`, scanning from
/// the left, replaced by `r`.
pub open spec fn replace_all(s: Seq<char>, p: Seq<char>, r: Seq<char>) -> Seq<char>
    decreases s.len(),
{
    if s.len() == 0 || p.len() == 0 {
        s
    } else if s.len() >= p.len() && s.take(p.len() as int) == p {
        r + replace_all(s.skip(p.len() as int), p, r)
    } else {
        seq![s[0]] + replace_all(s.skip(1), p, r)
    }
}

/// The character entities the parser decodes in text, in the order it
/// replaces them.
pub open spec fn decode_entities(t: Seq<char>) -> Seq<char> {
    replace_all(
        replace_all(
            replace_all(
                replace_all(
                    replace_all(replace_all(t, "&amp;"@, "&"@), "&lt;"@, "<"@),
                    "&gt;"@,
                    ">"@,
                ),
                "&quot;"@,
                "\""@,
            ),
            "&apos;"@,
            "'"@,
        ),
        "&nbsp;"@,
        "\u{a0}"@,
    )
}

/// An element that is still open while the document is being read.
pub struct FrameView {
    pub tag: Seq<char>,
    pub attrs: Map<Seq<char>, Seq<char>>,
    pub children: Seq<NodeView>,
}

pub open spec fn frame_node(f: FrameView) -> NodeView {
    NodeView::Element(ElementView { tag: f.tag, attrs: f.attrs, children: f.children })
}

/// Appends `n` to the children of the innermost open element.
pub open spec fn push_child(stack: Seq<FrameView>, n: NodeView) -> Seq<FrameView> {
    let top = stack.last();
    stack.drop_last().push(FrameView { children: top.children.push(n), ..top })
}

/// Closes the innermost open element into its parent.
pub open spec fn fold_top(stack: Seq<FrameView>) -> Seq<FrameView> {
    push_child(stack.drop_last(), frame_node(stack.last()))
}

/// Closes open elements, innermost first, until `depth` remain.
pub open spec fn fold_to(stack: Seq<FrameView>, depth: int) -> Seq<FrameView>
    decreases stack.len(),
{
    if 1 <= depth < stack.len() {
        fold_to(fold_top(stack), depth)
    } else {
        stack
    }
}

/// The index of the innermost open element named `name`.
pub open spec fn innermost_named(stack: Seq<FrameView>, name: Seq<char>) -> Option<int>
    decreases stack.len(),
{
    if stack.len() == 0 {
        None
    } else if stack.last().tag == name {
        Some(stack.len() - 1)
    } else {
        innermost_named(stack.drop_last(), name)
    }
}

/// A tag name as read: the run of name characters at `i`, lowercased.
pub open spec fn tag_name_at(s: Seq<char>, i: int) -> Seq<char> {
    ascii_lower_seq(s.subrange(i, run_end(s, i, Run::TagName)))
}

/// An attribute value starting at `i`: quoted with `"` or `'` (running to
/// the matching quote or the end of input), or else unquoted (running to
/// whitespace or `>`). Gives the position after it and its text.
pub open spec fn attr_value(s: Seq<char>, i: int) -> (int, Seq<char>) {
    if 0 <= i < s.len() && (s[i] == '"' || s[i] == '\'') {
        let e = run_end(s, i + 1, Run::Until(s[i]));
        (step_one(s, e), s.subrange(i + 1, e))
    } else {
        let e = run_end(s, i, Run::Unquoted);
        (e, s.subrange(i, e))
    }
}

pub proof fn lemma_attr_value(s: Seq<char>, i: int)
    requires
        0 <= i <= s.len(),
    ensures
        i <= attr_value(s, i).0 <= s.len(),
{
    if 0 <= i < s.len() && (s[i] == '"' || s[i] == '\'') {
        lemma_run_end(s, i + 1, Run::Until(s[i]));
    } else {
        lemma_run_end(s, i, Run::Unquoted);
    }
}

/// An attribute name as stored: ASCII names are lowercased letter by
/// letter; any other name is lowercased as Unicode defines it.
pub open spec fn attr_name(n: Seq<char>) -> Seq<char> {
    if is_ascii_text(n) {
        ascii_lower_seq(n)
    } else {
        unicode_lower(n)
    }
}

/// The attribute list starting at `i`, added to `acc`; gives the position
/// where it stops (end of input, `>` or `/`) and the attribute map. Later
/// attributes of the same name replace earlier ones.
pub open spec fn attrs_from(s: Seq<char>, i: int, acc: Map<Seq<char>, Seq<char>>) -> (int, Map<Seq<char>, Seq<char>>)
    decreases s.len() - i,
{
    if 0 <= i <= s.len() {
        let j = run_end(s, i, Run::Space);
        if j >= s.len() || s[j] == '>' || s[j] == '/' {
            (j, acc)
        } else {
            let ne = run_end(s, j, Run::AttrName);
            if ne == j {
                proof { lemma_run_end(s, i, Run::Space); }
                attrs_from(s, j + 1, acc)
            } else {
                let name = attr_name(s.subrange(j, ne));
                let k = run_end(s, ne, Run::Space);
                let (k2, value) = if k < s.len() && s[k] == '=' {
                    attr_value(s, run_end(s, k + 1, Run::Space))
                } else {
                    (k, Seq::<char>::empty())
                };
                proof {
                    lemma_run_end(s, i, Run::Space);
                    lemma_run_end(s, j, Run::AttrName);
                    lemma_run_end(s, ne, Run::Space);
                    if k < s.len() && s[k] == '=' {
                        lemma_run_end(s, k + 1, Run::Space);
                        lemma_attr_value(s, run_end(s, k + 1, Run::Space));
                    }
                }
                attrs_from(s, k2, if name.len() > 0 { acc.insert(name, value) } else { acc })
            }
        }
    } else {
        (i, acc)
    }
}

pub proof fn lemma_attrs_from(s: Seq<char>, i: int, acc: Map<Seq<char>, Seq<char>>)
    requires
        0 <= i <= s.len(),
    ensures
        i <= attrs_from(s, i, acc).0 <= s.len(),
    decreases s.len() - i,
{
    let j = run_end(s, i, Run::Space);
    lemma_run_end(s, i, Run::Space);
    if !(j >= s.len() || s[j] == '>' || s[j] == '/') {
        let ne = run_end(s, j, Run::AttrName);
        lemma_run_end(s, j, Run::AttrName);
        if ne == j {
            lemma_attrs_from(s, j + 1, acc);
        } else {
            let name = attr_name(s.subrange(j, ne));
            let k = run_end(s, ne, Run::Space);
            lemma_run_end(s, ne, Run::Space);
            let (k2, value) = if k < s.len() && s[k] == '=' {
                attr_value(s, run_end(s, k + 1, Run::Space))
            } else {
                (k, Seq::<char>::empty())
            };
            if k < s.len() && s[k] == '=' {
                lemma_run_end(s, k + 1, Run::Space);
                lemma_attr_value(s, run_end(s, k + 1, Run::Space));
            }
            lemma_attrs_from(s, k2, if name.len() > 0 { acc.insert(name, value) } else { acc });
        }
    }
}

/// The closing tag `</name` that ends a raw-text element.
pub open spec fn closer_for(name: Seq<char>) -> Seq<char> {
    "</"@ + name
}

/// The raw text of a `script` or `style` element starting at `i`: gives the
/// position after its closing tag and the text.
pub open spec fn raw_text(s: Seq<char>, i: int, name: Seq<char>) -> (int, Seq<char>) {
    let closer = closer_for(name);
    let e = lower_find_end(s, i, closer);
    let after = if lower_starts_at(s, e, closer) {
        step_one(s, run_end(s, e, Run::Until('>')))
    } else {
        e
    };
    (after, s.subrange(i, e))
}

/// Reading an opening tag whose `<` is at `pos`.
pub open spec fn open_tag_step(s: Seq<char>, pos: int, stack: Seq<FrameView>) -> (int, Seq<FrameView>) {
    let ne = run_end(s, pos + 1, Run::TagName);
    let name = tag_name_at(s, pos + 1);
    if name.len() == 0 {
        (ne, push_child(stack, NodeView::Text("<"@)))
    } else {
        let (p2, attrs) = attrs_from(s, ne, Map::empty());
        let p3 = run_end(s, p2, Run::Space);
        let self_closing = p3 < s.len() && s[p3] == '/';
        let p4 = if self_closing { p3 + 1 } else { p3 };
        let p5 = if p4 < s.len() && s[p4] == '>' { p4 + 1 } else { p4 };
        if self_closing || spec_is_void_element(name) {
            (p5, push_child(stack, NodeView::Element(ElementView { tag: name, attrs, children: seq![] })))
        } else if name == "script"@ || name == "style"@ {
            let (p6, raw) = raw_text(s, p5, name);
            (p6, push_child(stack, NodeView::Element(ElementView {
                tag: name,
                attrs,
                children: seq![NodeView::Text(raw)],
            })))
        } else {
            (p5, stack.push(FrameView { tag: name, attrs, children: seq![] }))
        }
    }
}

/// Reading a closing tag whose `</` is at `pos`: it closes the innermost
/// open element of that name and everything opened inside it; with no such
/// element (or only the document root) it is dropped.
pub open spec fn close_tag_step(s: Seq<char>, pos: int, stack: Seq<FrameView>) -> (int, Seq<FrameView>) {
    let ne = run_end(s, pos + 2, Run::TagName);
    let name = tag_name_at(s, pos + 2);
    let after = step_one(s, run_end(s, ne, Run::Until('>')));
    if name.len() == 0 {
        (after, stack)
    } else {
        match innermost_named(stack, name) {
            Some(idx) => if idx == 0 { (after, stack) } else { (after, fold_to(stack, idx)) },
            None => (after, stack),
        }
    }
}

/// One step of the document scan at `pos`, which is before the end.
pub open spec fn doc_step(s: Seq<char>, pos: int, stack: Seq<FrameView>) -> (int, Seq<FrameView>) {
    if starts_at(s, pos, "<!--"@) {
        let e = find_end(s, pos + 4, "-->"@);
        let after = if starts_at(s, e, "-->"@) { e + 3 } else { e };
        (after, push_child(stack, NodeView::Comment(s.subrange(pos + 4, e))))
    } else if starts_at(s, pos, "<!"@) {
        (step_one(s, run_end(s, pos, Run::Until('>'))), stack)
    } else if s[pos] == '<' {
        if starts_at(s, pos, "</"@) {
            close_tag_step(s, pos, stack)
        } else if pos + 1 < s.len() && is_ascii_alpha(s[pos + 1]) {
            open_tag_step(s, pos, stack)
        } else {
            (pos + 1, push_child(stack, NodeView::Text("<"@)))
        }
    } else {
        let e = run_end(s, pos, Run::Until('<'));
        let t = decode_entities(s.subrange(pos, e));
        if t.len() == 0 {
            (e, stack)
        } else {
            (e, push_child(stack, NodeView::Text(t)))
        }
    }
}


pub proof fn lemma_doc_step(s: Seq<char>, pos: int, stack: Seq<FrameView>)
    requires
        0 <= pos < s.len(),
    ensures
        pos < doc_step(s, pos, stack).0 <= s.len(),
{
    reveal_strlit("<!--");
    reveal_strlit("<!");
    reveal_strlit("</");
    reveal_strlit("-->");
    if starts_at(s, pos, "<!--"@) {
        lemma_find_end(s, pos + 4, "-->"@);
    } else if starts_at(s, pos, "<!"@) {
        lemma_run_end(s, pos, Run::Until('>'));
        assert(s[pos] == s.subrange(pos, pos + 2)[0]);
    } else if s[pos] == '<' {
        if starts_at(s, pos, "</"@) {
            lemma_run_end(s, pos + 2, Run::TagName);
            lemma_run_end(s, run_end(s, pos + 2, Run::TagName), Run::Until('>'));
        } else if pos + 1 < s.len() && is_ascii_alpha(s[pos + 1]) {
            lemma_open_tag_step(s, pos, stack);
        }
    } else {
        lemma_run_end(s, pos, Run::Until('<'));
    }
}

pub proof fn lemma_open_tag_step(s: Seq<char>, pos: int, stack: Seq<FrameView>)
    requires
        0 <= pos,
        pos + 1 < s.len(),
    ensures
        pos < open_tag_step(s, pos, stack).0 <= s.len(),
{
    let ne = run_end(s, pos + 1, Run::TagName);
    lemma_run_end(s, pos + 1, Run::TagName);
    let name = tag_name_at(s, pos + 1);
    if name.len() != 0 {
        lemma_attrs_from(s, ne, Map::empty());
        let (p2, attrs) = attrs_from(s, ne, Map::empty());
        lemma_run_end(s, p2, Run::Space);
        let p3 = run_end(s, p2, Run::Space);
        let self_closing = p3 < s.len() && s[p3] == '/';
        let p4 = if self_closing { p3 + 1 } else { p3 };
        let p5 = if p4 < s.len() && s[p4] == '>' { p4 + 1 } else { p4 };
        lemma_find_end(s, p5, closer_for(name));
        let e = lower_find_end(s, p5, closer_for(name));
        lemma_run_end(s, e, Run::Until('>'));
    }
}

/// Runs the document scan from `pos` to the end of the input. `None` when
/// the stack of open elements grows deeper than `MAX_DOM_DEPTH` before the
/// input is used up.
pub open spec fn doc_run(s: Seq<char>, pos: int, stack: Seq<FrameView>) -> Option<Seq<FrameView>>
    decreases s.len() - pos,
{
    if pos < 0 || pos >= s.len() {
        Some(stack)
    } else if stack.len() > crate::error::MAX_DOM_DEPTH {
        None
    } else {
        let next = doc_step(s, pos, stack);
        proof { lemma_doc_step(s, pos, stack); }
        doc_run(s, next.0, next.1)
    }
}

pub open spec fn root_frame() -> FrameView {
    FrameView { tag: "html"@, attrs: Map::empty(), children: seq![] }
}

/// The positions of the element nodes among `c`, in order.
pub open spec fn element_positions(c: Seq<NodeView>) -> Seq<int>
    decreases c.len(),
{
    if c.len() == 0 {
        seq![]
    } else if c.last() is Element {
        element_positions(c.drop_last()).push(c.len() - 1)
    } else {
        element_positions(c.drop_last())
    }
}

/// The finished document: open elements closed innermost first; then the
/// synthetic root, or the document's own `html` element when that is its
/// only top-level element.
pub open spec fn finish_document(stack: Seq<FrameView>) -> NodeView {
    let root = fold_to(stack, 1)[0];
    let ep = element_positions(root.children);
    if ep.len() == 1 && root.children[ep[0]]->Element_0.tag == "html"@ {
        root.children[ep[0]]
    } else {
        frame_node(root)
    }
}

/// What `parse` gives for the characters `s`: the document tree, or `None`
/// when the nesting limit is exceeded.
pub open spec fn spec_parse_html(s: Seq<char>) -> Option<NodeView> {
    match doc_run(s, 0, seq![root_frame()]) {
        Some(stack) => Some(finish_document(stack)),
        None => None,
    }
}

} // verus!
