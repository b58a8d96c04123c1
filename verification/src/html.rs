//! A tolerant HTML parser: nested elements, attributes, self-closing and
//! void tags, raw-text `script`/`style`, text and comments, recovering from
//! unclosed and stray tags instead of failing.

use vstd::prelude::*;
use crate::dom::{
    lemma_nodes_view, is_void_element, node_view, nodes_view, Attributes, ElementData, Node, NodeView,
};
use crate::error::{check_input_size, EngineError, EngineResult, MAX_DOM_DEPTH, MAX_INPUT_BYTES};
use crate::html_spec::{
    attr_value, attrs_from, close_tag_step, closer_for, decode_entities, doc_run, doc_step,
    element_positions, find_end, finish_document, fold_to, fold_top, frame_node, innermost_named,
    lemma_run_end, lower_find_end, lower_starts_at, open_tag_step, push_child, raw_text,
    replace_all, root_frame, run_continues, run_end, spec_parse_html, starts_at, step_one,
    tag_name_at, FrameView, Run,
};
use crate::text::{
    ascii_alnum, ascii_alpha, ascii_ws, chars_to_lower_string, chars_to_string, lowercase_chars,
    push_char, str_eq, str_to_chars, to_ascii_lower, ascii_lower,
};

verus! {

broadcast use vstd::string::group_string_axioms;

/// A tolerant HTML parser over the characters of a document.
pub struct HtmlParser<'a> {
    input: &'a [char],
    pos: usize,
}

/// One frame of the open-element stack while building the tree.
struct OpenFrame {
    tag_name: String,
    attributes: Attributes,
    children: Vec<Node>,
}

impl View for OpenFrame {
    type V = FrameView;

    closed spec fn view(&self) -> FrameView {
        FrameView { tag: self.tag_name@, attrs: self.attributes@, children: nodes_view(self.children@) }
    }
}

spec fn stack_view(v: Seq<OpenFrame>) -> Seq<FrameView> {
    Seq::new(v.len(), |i: int| v[i]@)
}

/// Parses an HTML document into a tree rooted at an `html` element.
pub fn parse(input: &str) -> (r: EngineResult<Node>)
    ensures
        input.len() > MAX_INPUT_BYTES ==> r == Err::<Node, EngineError>(
            EngineError::InputTooLarge { limit: MAX_INPUT_BYTES, actual: input.len() },
        ),
        input.len() <= MAX_INPUT_BYTES ==> match spec_parse_html(input@) {
            Some(n) => r is Ok && r->Ok_0@ == n,
            None => r == Err::<Node, EngineError>(EngineError::NestingTooDeep { limit: MAX_DOM_DEPTH }),
        },
{
    check_input_size(input)?;
    let chars = str_to_chars(input);
    let n = chars.len();
    let mut parser = HtmlParser { input: chars.as_slice(), pos: 0 };
    parser.parse_document()
}

fn frame_to_node(frame: OpenFrame) -> (n: Node)
    ensures
        n@ == frame_node(frame@),
{
    let mut data = ElementData::new(frame.tag_name, frame.attributes);
    data.children = frame.children;
    Node::Element(data)
}

/// Closes open elements, innermost first, until `depth` remain.
fn fold_frames_to(stack: &mut Vec<OpenFrame>, depth: usize)
    requires
        1 <= depth <= old(stack)@.len(),
    ensures
        final(stack)@.len() == depth,
        stack_view(final(stack)@) == fold_to(stack_view(old(stack)@), depth as int),
{
    while stack.len() > depth
        invariant
            1 <= depth <= stack@.len(),
            fold_to(stack_view(stack@), depth as int) == fold_to(stack_view(old(stack)@), depth as int),
        decreases stack@.len(),
    {
        let ghost before = stack_view(stack@);
        let frame = stack.pop().unwrap();
        let node = frame_to_node(frame);
        proof {
            assert(stack_view(stack@) =~= before.drop_last());
        }
        push_frame_child(stack, node);
        proof {
            assert(stack_view(stack@) == fold_top(before));
        }
    }
}

/// Appends `node` to the children of the innermost open element.
fn push_frame_child(stack: &mut Vec<OpenFrame>, node: Node)
    requires
        old(stack)@.len() > 0,
    ensures
        final(stack)@.len() == old(stack)@.len(),
        stack_view(final(stack)@) == push_child(stack_view(old(stack)@), node@),
{
    let ghost before = stack_view(stack@);
    let mut top = stack.pop().unwrap();
    let ghost old_children = top.children@;
    top.children.push(node);
    proof {
        assert(top.children@.drop_last() =~= old_children);
        assert(nodes_view(top.children@) == nodes_view(old_children).push(node@));
    }
    stack.push(top);
    proof {
        assert(stack_view(stack@) =~= push_child(before, node@));
    }
}

pub(crate) proof fn lemma_element_positions(c: Seq<NodeView>)
    ensures
        forall|j: int| 0 <= j < element_positions(c).len() ==> 0 <= #[trigger] element_positions(c)[j] < c.len()
            && c[element_positions(c)[j]] is Element,
    decreases c.len(),
{
    if c.len() > 0 {
        lemma_element_positions(c.drop_last());
    }
}

fn continues(k: Run, c: char) -> (b: bool)
    ensures
        b == run_continues(k, c),
{
    match k {
        Run::TagName => ascii_alnum(c) || c == '-' || c == ':',
        Run::Space => ascii_ws(c),
        Run::AttrName => !(c == '=' || c == '>' || c == '/' || ascii_ws(c)),
        Run::Unquoted => !(ascii_ws(c) || c == '>'),
        Run::Until(t) => c != t,
    }
}

/// Whether `p` occurs in `s` at position `i`.
fn chars_at(s: &[char], i: usize, p: &[char]) -> (b: bool)
    ensures
        b == starts_at(s@, i as int, p@),
{
    let n = s.len();
    if i > n || p.len() > n - i {
        return false;
    }
    let mut k: usize = 0;
    while k < p.len()
        invariant
            n == s@.len(),
            i + p@.len() <= s@.len(),
            k <= p@.len(),
            forall|m: int| 0 <= m < k ==> s@[i + m] == p@[m],
        decreases p@.len() - k,
    {
        if s[i + k] != p[k] {
            assert(s@.subrange(i as int, i + p@.len())[k as int] != p@[k as int]);
            return false;
        }
        k = k + 1;
    }
    assert(s@.subrange(i as int, i + p@.len()) =~= p@);
    true
}

/// `str::replace` on character sequences.
fn replace_chars(s: &Vec<char>, p: &Vec<char>, r: &Vec<char>) -> (out: Vec<char>)
    requires
        p@.len() > 0,
    ensures
        out@ == replace_all(s@, p@, r@),
{
    let mut out: Vec<char> = Vec::new();
    let mut i: usize = 0;
    assert(s@.skip(0) =~= s@);
    while i < s.len()
        invariant
            p@.len() > 0,
            i <= s@.len(),
            replace_all(s@, p@, r@) == out@ + replace_all(s@.skip(i as int), p@, r@),
        decreases s@.len() - i,
    {
        let ghost t = s@.skip(i as int);
        if chars_at(s.as_slice(), i, p.as_slice()) {
            proof {
                assert(t.take(p@.len() as int) =~= s@.subrange(i as int, i + p@.len()));
                assert(t.skip(p@.len() as int) =~= s@.skip(i + p@.len()));
            }
            let mut k: usize = 0;
            let ghost out0 = out@;
            while k < r.len()
                invariant
                    k <= r@.len(),
                    out@ == out0 + r@.take(k as int),
                decreases r@.len() - k,
            {
                out.push(r[k]);
                k = k + 1;
                assert(out@ =~= out0 + r@.take(k as int));
            }
            assert(r@.take(k as int) =~= r@);
            i = i + p.len();
            assert(out0 + (r@ + replace_all(s@.skip(i as int), p@, r@)) =~= out@ + replace_all(s@.skip(i as int), p@, r@));
        } else {
            proof {
                if t.len() >= p@.len() {
                    assert(t.take(p@.len() as int) =~= s@.subrange(i as int, i + p@.len()));
                }
                assert(t.skip(1) =~= s@.skip(i + 1));
            }
            let ghost out0 = out@;
            out.push(s[i]);
            i = i + 1;
            assert(out0 + (seq![t[0]] + replace_all(s@.skip(i as int), p@, r@)) =~= out@ + replace_all(s@.skip(i as int), p@, r@));
        }
    }
    assert(s@.skip(i as int) =~= Seq::<char>::empty());
    assert(out@ + Seq::<char>::empty() =~= out@);
    out
}

proof fn lemma_replace_without_amp(s: Seq<char>, p: Seq<char>, r: Seq<char>)
    requires
        p.len() > 0,
        p[0] == '&',
        !s.contains('&'),
    ensures
        replace_all(s, p, r) == s,
    decreases s.len(),
{
    if s.len() > 0 {
        if s.len() >= p.len() && s.take(p.len() as int) == p {
            assert(s[0] == s.take(p.len() as int)[0]);
            assert(s.contains(s[0]));
        }
        assert(!s.skip(1).contains('&')) by {
            if s.skip(1).contains('&') {
                let j = choose|j: int| 0 <= j < s.skip(1).len() && s.skip(1)[j] == '&';
                assert(s[j + 1] == '&');
            }
        }
        lemma_replace_without_amp(s.skip(1), p, r);
        assert(seq![s[0]] + s.skip(1) =~= s);
    }
}

/// Replaces the character entities in `s[start..end]`.
fn decode_entities_chars(s: &[char], start: usize, end: usize) -> (r: String)
    requires
        start <= end <= s@.len(),
    ensures
        r@ == decode_entities(s@.subrange(start as int, end as int)),
{
    let ghost t = s@.subrange(start as int, end as int);
    let mut has_amp = false;
    let mut i = start;
    while i < end
        invariant
            start <= i <= end <= s@.len(),
            t == s@.subrange(start as int, end as int),
            !has_amp ==> forall|j: int| start <= j < i ==> s@[j] != '&',
            has_amp ==> t.contains('&'),
        decreases end - i,
    {
        if s[i] == '&' {
            has_amp = true;
            assert(t[(i - start) as int] == '&');
        }
        i = i + 1;
    }
    if !has_amp {
        proof {
            assert(!t.contains('&')) by {
                if t.contains('&') {
                    let j = choose|j: int| 0 <= j < t.len() && t[j] == '&';
                    assert(s@[start + j] == '&');
                }
            }
            reveal_strlit("&amp;");
            reveal_strlit("&lt;");
            reveal_strlit("&gt;");
            reveal_strlit("&quot;");
            reveal_strlit("&apos;");
            reveal_strlit("&nbsp;");
            lemma_replace_without_amp(t, "&amp;"@, "&"@);
            lemma_replace_without_amp(t, "&lt;"@, "<"@);
            lemma_replace_without_amp(t, "&gt;"@, ">"@);
            lemma_replace_without_amp(t, "&quot;"@, "\""@);
            lemma_replace_without_amp(t, "&apos;"@, "'"@);
            lemma_replace_without_amp(t, "&nbsp;"@, "\u{a0}"@);
        }
        return chars_to_string(s, start, end);
    }
    let mut cur: Vec<char> = Vec::new();
    let mut k = start;
    while k < end
        invariant
            start <= k <= end <= s@.len(),
            cur@ == s@.subrange(start as int, k as int),
        decreases end - k,
    {
        cur.push(s[k]);
        k = k + 1;
        assert(cur@ =~= s@.subrange(start as int, k as int));
    }
    proof {
        reveal_strlit("&amp;");
        reveal_strlit("&lt;");
        reveal_strlit("&gt;");
        reveal_strlit("&quot;");
        reveal_strlit("&apos;");
        reveal_strlit("&nbsp;");
    }
    let cur = replace_chars(&cur, &str_to_chars("&amp;"), &str_to_chars("&"));
    let cur = replace_chars(&cur, &str_to_chars("&lt;"), &str_to_chars("<"));
    let cur = replace_chars(&cur, &str_to_chars("&gt;"), &str_to_chars(">"));
    let cur = replace_chars(&cur, &str_to_chars("&quot;"), &str_to_chars("\""));
    let cur = replace_chars(&cur, &str_to_chars("&apos;"), &str_to_chars("'"));
    let cur = replace_chars(&cur, &str_to_chars("&nbsp;"), &str_to_chars("\u{a0}"));
    chars_to_string(cur.as_slice(), 0, cur.len())
}


impl<'a> HtmlParser<'a> {
    spec fn wf(&self) -> bool {
        self.pos <= self.input@.len() <= usize::MAX
    }

    fn eof(&self) -> (b: bool)
        ensures
            b == (self.pos >= self.input@.len()),
    {
        self.pos >= self.input.len()
    }

    fn peek(&self) -> (r: Option<char>)
        ensures
            r == if self.pos < self.input@.len() { Some(self.input@[self.pos as int]) } else { None::<char> },
    {
        if self.pos < self.input.len() {
            Some(self.input[self.pos])
        } else {
            None
        }
    }

    fn starts_with(&self, pat: &[char]) -> (b: bool)
        ensures
            b == starts_at(self.input@, self.pos as int, pat@),
    {
        chars_at(self.input, self.pos, pat)
    }

    fn advance_one(&mut self)
        requires
            old(self).wf(),
        ensures
            final(self).wf(),
            final(self).input == old(self).input,
            final(self).pos == step_one(old(self).input@, old(self).pos as int),
    {
        if !self.eof() {
            self.pos = self.pos + 1;
        }
    }

    /// Consumes the run of characters of kind `k`.
    fn skip_run(&mut self, k: Run)
        requires
            old(self).wf(),
        ensures
            final(self).wf(),
            final(self).input == old(self).input,
            final(self).pos == run_end(old(self).input@, old(self).pos as int, k),
    {
        let ghost start = self.pos as int;
        while self.pos < self.input.len() && continues(k, self.input[self.pos])
            invariant
                self.wf(),
                self.input == old(self).input,
                run_end(self.input@, start, k) == run_end(self.input@, self.pos as int, k),
            decreases self.input@.len() - self.pos,
        {
            self.pos = self.pos + 1;
        }
    }

    fn skip_whitespace(&mut self)
        requires
            old(self).wf(),
        ensures
            final(self).wf(),
            final(self).input == old(self).input,
            final(self).pos == run_end(old(self).input@, old(self).pos as int, Run::Space),
    {
        self.skip_run(Run::Space);
    }

    fn consume_until_char(&mut self, target: char)
        requires
            old(self).wf(),
        ensures
            final(self).wf(),
            final(self).input == old(self).input,
            final(self).pos == run_end(old(self).input@, old(self).pos as int, Run::Until(target)),
    {
        self.skip_run(Run::Until(target));
    }

    /// Consumes a tag name and gives it lowercased.
    fn consume_tag_name(&mut self) -> (name: String)
        requires
            old(self).wf(),
        ensures
            final(self).wf(),
            final(self).input == old(self).input,
            final(self).pos == run_end(old(self).input@, old(self).pos as int, Run::TagName),
            name@ == tag_name_at(old(self).input@, old(self).pos as int),
    {
        let start = self.pos;
        self.skip_run(Run::TagName);
        proof { lemma_run_end(self.input@, start as int, Run::TagName); }
        chars_to_lower_string(self.input, start, self.pos)
    }

    fn consume_attr_value(&mut self) -> (value: String)
        requires
            old(self).wf(),
        ensures
            final(self).wf(),
            final(self).input == old(self).input,
            (final(self).pos as int, value@) == attr_value(old(self).input@, old(self).pos as int),
    {
        match self.peek() {
            Some(q) if q == '"' || q == '\'' => {
                self.advance_one();
                let start = self.pos;
                self.skip_run(Run::Until(q));
                proof { lemma_run_end(self.input@, start as int, Run::Until(q)); }
                let value = chars_to_string(self.input, start, self.pos);
                if self.peek() == Some(q) {
                    self.advance_one();
                }
                value
            },
            _ => {
                let start = self.pos;
                self.skip_run(Run::Unquoted);
                proof { lemma_run_end(self.input@, start as int, Run::Unquoted); }
                chars_to_string(self.input, start, self.pos)
            },
        }
    }

    fn consume_attributes(&mut self) -> (attrs: Attributes)
        requires
            old(self).wf(),
        ensures
            final(self).wf(),
            final(self).input == old(self).input,
            (final(self).pos as int, attrs@) == attrs_from(old(self).input@, old(self).pos as int, Map::empty()),
    {
        let ghost s = self.input@;
        let ghost start = self.pos as int;
        let mut attrs = Attributes::new();
        loop
            invariant_except_break
                self.wf(),
                self.input == old(self).input,
                self.input@ == s,
                attrs_from(s, start, Map::empty()) == attrs_from(s, self.pos as int, attrs@),
            ensures
                self.wf(),
                self.input@ == s,
                self.input == old(self).input,
                attrs_from(s, start, Map::empty()) == (self.pos as int, attrs@),
            decreases s.len() - self.pos,
        {
            let ghost p0 = self.pos as int;
            self.skip_whitespace();
            proof { lemma_run_end(s, p0, Run::Space); }
            let stop = match self.peek() {
                None => true,
                Some(c) => c == '>' || c == '/',
            };
            if stop {
                break;
            }
            let name_start = self.pos;
            self.skip_run(Run::AttrName);
            proof { lemma_run_end(s, name_start as int, Run::AttrName); }
            if self.pos == name_start {
                self.pos = self.pos + 1;
                continue;
            }
            let ghost ne = self.pos as int;
            let name = lowercase_chars(self.input, name_start, self.pos);
            self.skip_whitespace();
            let ghost k = self.pos as int;
            proof { lemma_run_end(s, ne, Run::Space); }
            let is_eq = match self.peek() {
                Some(c) => c == '=',
                None => false,
            };
            let value = if is_eq {
                self.advance_one();
                self.skip_whitespace();
                self.consume_attr_value()
            } else {
                String::new()
            };
            proof {
                lemma_run_end(s, k, Run::Space);
                if is_eq {
                    lemma_run_end(s, k + 1, Run::Space);
                    crate::html_spec::lemma_attr_value(s, run_end(s, k + 1, Run::Space));
                }
            }
            if !name.as_str().is_empty() {
                attrs.insert(name, value);
            }
        }
        attrs
    }

    fn consume_comment(&mut self) -> (text: String)
        requires
            old(self).wf(),
            starts_at(old(self).input@, old(self).pos as int, "<!--"@),
        ensures
            final(self).wf(),
            final(self).input == old(self).input,
            ({
                let s = old(self).input@;
                let e = find_end(s, old(self).pos + 4, "-->"@);
                &&& text@ == s.subrange(old(self).pos + 4, e)
                &&& final(self).pos == if starts_at(s, e, "-->"@) { e + 3 } else { e }
            }),
    {
        proof { reveal_strlit("<!--"); reveal_strlit("-->"); }
        let ghost s = self.input@;
        self.pos = self.pos + 4;
        let start = self.pos;
        let close = ['-', '-', '>'];
        assert(close@ =~= "-->"@);
        while !self.eof() && !self.starts_with(&close)
            invariant
                self.wf(),
                self.input@ == s,
                close@ == "-->"@,
                self.input == old(self).input,
                start <= self.pos,
                find_end(s, start as int, "-->"@) == find_end(s, self.pos as int, "-->"@),
            decreases s.len() - self.pos,
        {
            self.pos = self.pos + 1;
        }
        let text = chars_to_string(self.input, start, self.pos);
        if self.starts_with(&close) {
            self.pos = self.pos + 3;
        }
        text
    }

    fn consume_text(&mut self) -> (text: String)
        requires
            old(self).wf(),
        ensures
            final(self).wf(),
            final(self).input == old(self).input,
            final(self).pos == run_end(old(self).input@, old(self).pos as int, Run::Until('<')),
            text@ == decode_entities(old(self).input@.subrange(old(self).pos as int, final(self).pos as int)),
    {
        let start = self.pos;
        self.skip_run(Run::Until('<'));
        proof { lemma_run_end(self.input@, start as int, Run::Until('<')); }
        decode_entities_chars(self.input, start, self.pos)
    }

    fn consume_literal_lt(&mut self) -> (text: String)
        requires
            old(self).wf(),
            old(self).pos < old(self).input@.len(),
        ensures
            final(self).wf(),
            final(self).input == old(self).input,
            final(self).pos == old(self).pos + 1,
            text@ == "<"@,
    {
        self.pos = self.pos + 1;
        "<".to_string()
    }

    fn looks_like_tag_start(&self) -> (b: bool)
        requires
            self.wf(),
        ensures
            b == (self.pos + 1 < self.input@.len() && crate::text::is_ascii_alpha(self.input@[self.pos + 1])),
    {
        if self.input.len() - self.pos > 1 {
            ascii_alpha(self.input[self.pos + 1])
        } else {
            false
        }
    }

    /// Whether `pat` starts here, ignoring ASCII case in the input.
    fn rest_lower_starts_with(&self, pat: &[char]) -> (b: bool)
        requires
            self.wf(),
        ensures
            b == lower_starts_at(self.input@, self.pos as int, pat@),
    {
        if pat.len() > self.input.len() - self.pos {
            return false;
        }
        let mut k: usize = 0;
        while k < pat.len()
            invariant
                self.wf(),
                self.pos + pat@.len() <= self.input@.len(),
                k <= pat@.len(),
                forall|m: int| 0 <= m < k ==> ascii_lower(#[trigger] self.input@[self.pos + m]) == pat@[m],
            decreases pat@.len() - k,
        {
            if to_ascii_lower(self.input[self.pos + k]) != pat[k] {
                return false;
            }
            k = k + 1;
        }
        true
    }

    fn consume_raw_text_until_close(&mut self, tag: &String) -> (text: String)
        requires
            old(self).wf(),
        ensures
            final(self).wf(),
            final(self).input == old(self).input,
            (final(self).pos as int, text@) == raw_text(old(self).input@, old(self).pos as int, tag@),
    {
        proof { reveal_strlit("</"); }
        let ghost s = self.input@;
        let mut closer: Vec<char> = Vec::new();
        closer.push('<');
        closer.push('/');
        let name = str_to_chars(tag.as_str());
        let mut i: usize = 0;
        while i < name.len()
            invariant
                i <= name@.len(),
                closer@ == seq!['<', '/'] + name@.take(i as int),
            decreases name@.len() - i,
        {
            closer.push(name[i]);
            i = i + 1;
            assert(closer@ =~= seq!['<', '/'] + name@.take(i as int));
        }
        assert(closer@ =~= closer_for(tag@));
        let start = self.pos;
        while !self.eof() && !self.rest_lower_starts_with(closer.as_slice())
            invariant
                self.wf(),
                self.input == old(self).input,
                self.input@ == s,
                closer@ == closer_for(tag@),
                start <= self.pos,
                lower_find_end(s, start as int, closer@) == lower_find_end(s, self.pos as int, closer@),
            decreases s.len() - self.pos,
        {
            self.pos = self.pos + 1;
        }
        let text = chars_to_string(self.input, start, self.pos);
        if self.rest_lower_starts_with(closer.as_slice()) {
            self.consume_until_char('>');
            self.advance_one();
        }
        text
    }

    fn push_child(&self, stack: &mut Vec<OpenFrame>, node: Node)
        requires
            old(stack)@.len() > 0,
        ensures
            final(stack)@.len() == old(stack)@.len(),
            stack_view(final(stack)@) == push_child(stack_view(old(stack)@), node@),
    {
        push_frame_child(stack, node);
    }

    fn handle_open_tag(&mut self, stack: &mut Vec<OpenFrame>) -> (r: EngineResult<()>)
        requires
            old(self).wf(),
            old(self).pos + 1 < old(self).input@.len(),
            old(stack)@.len() > 0,
        ensures
            r is Ok,
            final(self).wf(),
            final(self).input == old(self).input,
            final(stack)@.len() > 0,
            (final(self).pos as int, stack_view(final(stack)@))
                == open_tag_step(old(self).input@, old(self).pos as int, stack_view(old(stack)@)),
    {
        let ghost s = self.input@;
        let ghost p0 = self.pos as int;
        self.pos = self.pos + 1;
        let name = self.consume_tag_name();
        if name.as_str().is_empty() {
            self.push_child(stack, Node::text("<"));
            return Ok(());
        }
        let attributes = self.consume_attributes();
        self.skip_whitespace();
        let mut self_closing = false;
        if self.peek() == Some('/') {
            self_closing = true;
            self.advance_one();
        }
        if self.peek() == Some('>') {
            self.advance_one();
        }
        if self_closing || is_void_element(name.as_str()) {
            let node = Node::element(name.as_str(), attributes, Vec::new());
            proof { assert(nodes_view(Seq::<Node>::empty()) =~= Seq::<NodeView>::empty()); }
            self.push_child(stack, node);
            return Ok(());
        }
        if str_eq(name.as_str(), "script") || str_eq(name.as_str(), "style") {
            let raw = self.consume_raw_text_until_close(&name);
            let mut kids: Vec<Node> = Vec::new();
            kids.push(Node::text(raw.as_str()));
            proof {
                assert(nodes_view(Seq::<Node>::empty()) =~= Seq::<NodeView>::empty());
                assert(kids@.drop_last() =~= Seq::<Node>::empty());
                assert(nodes_view(kids@) =~= seq![NodeView::Text(raw@)]);
            }
            let node = Node::element(name.as_str(), attributes, kids);
            self.push_child(stack, node);
            return Ok(());
        }
        let ghost before = stack_view(stack@);
        stack.push(OpenFrame { tag_name: name, attributes, children: Vec::new() });
        proof {
            assert(nodes_view(Seq::<Node>::empty()) =~= Seq::<NodeView>::empty());
            assert(stack_view(stack@) =~= before.push(FrameView { tag: name@, attrs: attributes@, children: seq![] }));
        }
        Ok(())
    }

    fn handle_close_tag(&mut self, stack: &mut Vec<OpenFrame>)
        requires
            old(self).wf(),
            starts_at(old(self).input@, old(self).pos as int, "</"@),
            old(stack)@.len() > 0,
        ensures
            final(self).wf(),
            final(self).input == old(self).input,
            final(stack)@.len() > 0,
            (final(self).pos as int, stack_view(final(stack)@))
                == close_tag_step(old(self).input@, old(self).pos as int, stack_view(old(stack)@)),
    {
        proof { reveal_strlit("</"); }
        self.pos = self.pos + 2;
        let name = self.consume_tag_name();
        self.consume_until_char('>');
        self.advance_one();
        if name.as_str().is_empty() {
            return;
        }
        let ghost v = stack_view(stack@);
        let mut found: Option<usize> = None;
        let mut i = stack.len();
        assert(v.take(i as int) =~= v);
        while i > 0
            invariant_except_break
                i <= stack@.len(),
                v == stack_view(stack@),
                found is None,
                innermost_named(v, name@) == innermost_named(v.take(i as int), name@),
            ensures
                v == stack_view(stack@),
                found matches Some(j) ==> j < stack@.len(),
                found is None ==> innermost_named(v, name@) is None,
                found matches Some(j) ==> innermost_named(v, name@) == Some(j as int),
            decreases i,
        {
            i = i - 1;
            let ghost w = v.take(i + 1);
            if str_eq(stack[i].tag_name.as_str(), name.as_str()) {
                proof {
                    assert(w.last() == stack@[i as int]@);
                    assert(innermost_named(w, name@) == Some(i as int));
                }
                found = Some(i);
                break;
            }
            proof {
                assert(w.last() == stack@[i as int]@);
                assert(w.drop_last() =~= v.take(i as int));
            }
        }
        if let Some(idx) = found {
            if idx == 0 {
                return;
            }
            fold_frames_to(stack, idx);
        }
    }

    fn parse_document(&mut self) -> (r: EngineResult<Node>)
        requires
            old(self).pos == 0,
            old(self).wf(),
        ensures
            match spec_parse_html(old(self).input@) {
                Some(n) => r is Ok && r->Ok_0@ == n,
                None => r == Err::<Node, EngineError>(EngineError::NestingTooDeep { limit: MAX_DOM_DEPTH }),
            },
    {
        proof {
            reveal_strlit("<!--");
            reveal_strlit("<!");
            reveal_strlit("</");
        }
        let ghost s = self.input@;
        let mut stack: Vec<OpenFrame> = Vec::new();
        stack.push(OpenFrame { tag_name: "html".to_string(), attributes: Attributes::new(), children: Vec::new() });
        proof {
            assert(nodes_view(Seq::<Node>::empty()) =~= Seq::<NodeView>::empty());
            assert(stack_view(stack@) =~= seq![root_frame()]);
        }
        let comment_open = ['<', '!', '-', '-'];
        let bang_open = ['<', '!'];
        let close_open = ['<', '/'];
        assert(comment_open@ =~= "<!--"@);
        assert(bang_open@ =~= "<!"@);
        assert(close_open@ =~= "</"@);
        while !self.eof()
            invariant
                self.wf(),
                self.input == old(self).input,
                self.input@ == s,
                comment_open@ == "<!--"@,
                bang_open@ == "<!"@,
                close_open@ == "</"@,
                stack@.len() > 0,
                doc_run(s, self.pos as int, stack_view(stack@)) == doc_run(s, 0, seq![root_frame()]),
            decreases s.len() - self.pos,
        {
            if stack.len() > MAX_DOM_DEPTH {
                return Err(EngineError::NestingTooDeep { limit: MAX_DOM_DEPTH });
            }
            let ghost p0 = self.pos as int;
            let ghost v0 = stack_view(stack@);
            proof { crate::html_spec::lemma_doc_step(s, p0, v0); }
            if self.starts_with(&comment_open) {
                let comment = self.consume_comment();
                self.push_child(&mut stack, Node::Comment(comment));
                continue;
            }
            if self.starts_with(&bang_open) {
                self.consume_until_char('>');
                self.advance_one();
                continue;
            }
            if self.peek() == Some('<') {
                if self.starts_with(&close_open) {
                    self.handle_close_tag(&mut stack);
                } else if self.looks_like_tag_start() {
                    let _ = self.handle_open_tag(&mut stack);
                } else {
                    let text = self.consume_literal_lt();
                    self.push_child(&mut stack, Node::Text(text));
                }
                continue;
            }
            let text = self.consume_text();
            if !text.as_str().is_empty() {
                self.push_child(&mut stack, Node::Text(text));
            }
        }
        assert(doc_run(s, self.pos as int, stack_view(stack@)) == Some(stack_view(stack@)));
        let ghost final_stack = stack_view(stack@);
        fold_frames_to(&mut stack, 1);
        let ghost folded = stack_view(stack@);
        assert(folded == fold_to(final_stack, 1));
        let mut root = stack.pop().unwrap();
        proof {
            assert(folded[0] == root@);
            lemma_nodes_view(root.children@);
        }
        let mut count: usize = 0;
        let mut first: usize = 0;
        let mut i: usize = 0;
        while i < root.children.len()
            invariant
                i <= root.children@.len(),
                nodes_view(root.children@).len() == root.children@.len(),
                forall|j: int| 0 <= j < root.children@.len() ==> #[trigger] nodes_view(root.children@)[j] == node_view(root.children@[j]),
                count == element_positions(nodes_view(root.children@).take(i as int)).len(),
                count > 0 ==> element_positions(nodes_view(root.children@).take(i as int))[0] == first,
                count > 0 ==> first < i,
                count <= i,
            decreases root.children@.len() - i,
        {
            let ghost c = nodes_view(root.children@);
            proof {
                assert(c.take(i + 1).drop_last() =~= c.take(i as int));
                assert(c.take(i + 1).last() == c[i as int]);
            }
            if let Node::Element(_) = &root.children[i] {
                if count == 0 {
                    first = i;
                }
                count = count + 1;
            }
            i = i + 1;
        }
        proof {
            assert(nodes_view(root.children@).take(i as int) =~= nodes_view(root.children@));
        }
        if count == 1 {
            let is_html = match &root.children[first] {
                Node::Element(e) => str_eq(e.tag_name.as_str(), "html"),
                _ => false,
            };
            if is_html {
                let ghost kids = root.children@;
                let only = root.children.remove(first);
                assert(only@ == nodes_view(kids)[first as int]);
                assert(spec_parse_html(s) == Some(only@));
                return Ok(only);
            }
        }
        proof {
            let c = nodes_view(root.children@);
            lemma_element_positions(c);
            if count == 1 {
                assert(element_positions(c)[0] == first);
                assert(c[first as int] == node_view(root.children@[first as int]));
            }
        }
        let res = frame_to_node(root);
        assert(spec_parse_html(s) == Some(res@));
        Ok(res)
    }
}

} // verus!
