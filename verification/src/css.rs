//! The CSS parser: a stylesheet is an ordered list of rules, each a list of
//! selectors and a list of declarations. Malformed declarations are skipped;
//! a malformed selector or a missing `{` fails the whole stylesheet.

use vstd::prelude::*;
use crate::css_spec::{
    digits_end, hex_digit, is_known_property, hex_pair, is_decimal_number, is_float_literal, opaque,
    spec_hex_color, spec_named_color, trim_end, trim_start, ValueView,
    bump, comment_close, css_continues, css_run_end, decls_from, empty_simple, is_empty_simple,
    is_selector_start, lemma_css_run_end, lemma_simple_from, lemma_skip_ws_comments, rule_at,
    rules_from, selector_from, selector_list_from, simple_from, skip_ws_comments, spec_parse_css,
    spec_parse_value, trim, CssRun, DeclarationView, RuleView, SimpleSelectorView,
};
use crate::error::{check_input_size, EngineError, EngineResult, MAX_CSS_DEPTH, MAX_INPUT_BYTES};
use crate::text::{
    ascii_alnum, ascii_alpha, ascii_lower, ascii_lower_seq, chars_to_lower_string,
    chars_to_string, is_ascii_digit, is_white_space, str_eq, str_to_chars, to_ascii_lower,
    white_space,
};

verus! {

broadcast use vstd::string::group_string_axioms;

/// A color with 8-bit channels; `a` is the alpha channel.
#[derive(Debug, Clone, Copy, PartialEq, Eq)]
pub struct Color {
    pub r: u8,
    pub g: u8,
    pub b: u8,
    pub a: u8,
}

/// The only length unit the engine knows.
#[derive(Debug, Clone, Copy, PartialEq, Eq)]
pub enum Unit {
    Px,
}


/// A parsed stylesheet: rules in source order.
#[derive(Debug, Clone, PartialEq)]
pub struct Stylesheet {
    pub rules: Vec<Rule>,
}

#[derive(Debug, Clone, PartialEq)]
pub struct Rule {
    pub selectors: Vec<Selector>,
    pub declarations: Vec<Declaration>,
}

#[derive(Debug, Clone, PartialEq)]
pub struct Declaration {
    pub property: String,
    pub value: Value,
}

/// One simple selector: any combination of a tag name, an id, and classes.
/// `universal` marks a bare `*`.
#[derive(Debug, Clone, PartialEq)]
pub struct SimpleSelector {
    pub tag: Option<String>,
    pub id: Option<String>,
    pub classes: Vec<String>,
    pub universal: bool,
}

/// A chain of simple selectors joined by descendant combinators: the last
/// matches the element itself, the earlier ones its ancestors, in order.
#[derive(Debug, Clone, PartialEq)]
pub struct Selector {
    pub parts: Vec<SimpleSelector>,
}

/// (id count, class count, type count), compared lexicographically.
pub type Specificity = (u32, u32, u32);

pub open spec fn opt_view(o: Option<String>) -> Option<Seq<char>> {
    match o {
        Some(s) => Some(s@),
        None => None,
    }
}

pub open spec fn strings_view(v: Seq<String>) -> Seq<Seq<char>> {
    Seq::new(v.len(), |i: int| v[i]@)
}

impl View for SimpleSelector {
    type V = SimpleSelectorView;

    open spec fn view(&self) -> SimpleSelectorView {
        SimpleSelectorView {
            tag: opt_view(self.tag),
            id: opt_view(self.id),
            classes: strings_view(self.classes@),
            universal: self.universal,
        }
    }
}

pub open spec fn simples_view(v: Seq<SimpleSelector>) -> Seq<SimpleSelectorView> {
    Seq::new(v.len(), |i: int| v[i]@)
}

impl View for Selector {
    type V = Seq<SimpleSelectorView>;

    open spec fn view(&self) -> Seq<SimpleSelectorView> {
        simples_view(self.parts@)
    }
}

pub open spec fn selectors_view(v: Seq<Selector>) -> Seq<Seq<SimpleSelectorView>> {
    Seq::new(v.len(), |i: int| v[i]@)
}

impl View for Declaration {
    type V = DeclarationView;

    open spec fn view(&self) -> DeclarationView {
        DeclarationView { property: self.property@, value: self.value@ }
    }
}

pub open spec fn decls_view(v: Seq<Declaration>) -> Seq<DeclarationView> {
    Seq::new(v.len(), |i: int| v[i]@)
}

impl View for Rule {
    type V = RuleView;

    open spec fn view(&self) -> RuleView {
        RuleView { selectors: selectors_view(self.selectors@), declarations: decls_view(self.declarations@) }
    }
}

pub open spec fn rules_view(v: Seq<Rule>) -> Seq<RuleView> {
    Seq::new(v.len(), |i: int| v[i]@)
}

impl View for Stylesheet {
    type V = Seq<RuleView>;

    open spec fn view(&self) -> Seq<RuleView> {
        rules_view(self.rules@)
    }
}

impl Default for SimpleSelector {
    fn default() -> (r: SimpleSelector)
        ensures
            r@ == empty_simple(),
    {
        let r = SimpleSelector { tag: None, id: None, classes: Vec::new(), universal: false };
        assert(strings_view(r.classes@) =~= Seq::<Seq<char>>::empty());
        r
    }
}

impl Color {
    /// An opaque color.
    pub fn rgb(r: u8, g: u8, b: u8) -> (c: Color)
        ensures
            c == (Color { r, g, b, a: 255 }),
    {
        Color { r, g, b, a: 255 }
    }
}

/// The specificity of a selector, as a triple of mathematical counts.
pub open spec fn spec_specificity(parts: Seq<SimpleSelectorView>) -> (nat, nat, nat)
    decreases parts.len(),
{
    if parts.len() == 0 {
        (0, 0, 0)
    } else {
        let (ids, classes, types) = spec_specificity(parts.drop_last());
        let p = parts.last();
        (
            ids + if p.id is Some { 1nat } else { 0nat },
            classes + p.classes.len(),
            types + if p.tag is Some { 1nat } else { 0nat },
        )
    }
}

proof fn lemma_specificity_bounds(parts: Seq<SimpleSelectorView>)
    ensures
        spec_specificity(parts).0 <= parts.len(),
        spec_specificity(parts).2 <= parts.len(),
    decreases parts.len(),
{
    if parts.len() > 0 {
        lemma_specificity_bounds(parts.drop_last());
    }
}

impl Selector {
    /// Counts ids, classes and tag names over all parts.
    pub fn specificity(&self) -> (r: Specificity)
        requires
            self.parts@.len() <= u32::MAX,
            spec_specificity(self@).1 <= u32::MAX,
        ensures
            r.0 == spec_specificity(self@).0,
            r.1 == spec_specificity(self@).1,
            r.2 == spec_specificity(self@).2,
    {
        let mut ids: u32 = 0;
        let mut classes: u32 = 0;
        let mut types: u32 = 0;
        let mut i: usize = 0;
        proof { lemma_specificity_bounds(self@); }
        while i < self.parts.len()
            invariant
                i <= self.parts@.len() <= u32::MAX,
                spec_specificity(self@).1 <= u32::MAX,
                (ids as nat, classes as nat, types as nat) == spec_specificity(self@.take(i as int)),
            decreases self.parts@.len() - i,
        {
            let ghost pre = self@.take(i as int);
            let ghost next = self@.take(i + 1);
            proof {
                assert(next.drop_last() =~= pre);
                lemma_specificity_bounds(pre);
                lemma_specificity_prefix(self@, i + 1);
            }
            let part = &self.parts[i];
            if part.id.is_some() {
                ids = ids + 1;
            }
            classes = classes + part.classes.len() as u32;
            if part.tag.is_some() {
                types = types + 1;
            }
            i = i + 1;
        }
        assert(self@.take(i as int) =~= self@);
        (ids, classes, types)
    }
}

/// Specificity counts parts: the id count is the number of parts that name
/// an id, the type count the number that name a tag, each counted whatever
/// else the part names; a single part gives (1 if it names an id, its
/// number of classes, 1 if it names a tag).
pub proof fn lemma_specificity_counts(parts: Seq<SimpleSelectorView>)
    ensures
        spec_specificity(parts).0 == parts.filter(|p: SimpleSelectorView| p.id is Some).len(),
        spec_specificity(parts).2 == parts.filter(|p: SimpleSelectorView| p.tag is Some).len(),
        parts.len() == 1 ==> spec_specificity(parts) == (
            if parts[0].id is Some { 1nat } else { 0nat },
            parts[0].classes.len(),
            if parts[0].tag is Some { 1nat } else { 0nat },
        ),
    decreases parts.len(),
{
    reveal(Seq::filter);
    if parts.len() > 0 {
        lemma_specificity_counts(parts.drop_last());
        if parts.len() == 1 {
            assert(parts.drop_last() =~= Seq::<SimpleSelectorView>::empty());
        }
    }
}

/// Specificity adds up: the counts of a chain of simple selectors are the
/// sums, count by count, of the counts of its two halves.
pub proof fn lemma_specificity_concat(a: Seq<SimpleSelectorView>, b: Seq<SimpleSelectorView>)
    ensures
        spec_specificity(a + b) == (
            spec_specificity(a).0 + spec_specificity(b).0,
            spec_specificity(a).1 + spec_specificity(b).1,
            spec_specificity(a).2 + spec_specificity(b).2,
        ),
    decreases b.len(),
{
    if b.len() == 0 {
        assert(a + b =~= a);
    } else {
        assert((a + b).drop_last() =~= a + b.drop_last());
        assert((a + b).last() == b.last());
        lemma_specificity_concat(a, b.drop_last());
    }
}

pub proof fn lemma_specificity_prefix(parts: Seq<SimpleSelectorView>, n: int)
    requires
        0 <= n <= parts.len(),
    ensures
        spec_specificity(parts.take(n)).1 <= spec_specificity(parts).1,
    decreases parts.len() - n,
{
    if n < parts.len() {
        lemma_specificity_prefix(parts, n + 1);
        assert(parts.take(n + 1).drop_last() =~= parts.take(n));
    } else {
        assert(parts.take(n) =~= parts);
    }
}


pub open spec fn is_invalid_css(e: EngineError, msg: Seq<char>) -> bool {
    e matches EngineError::InvalidCss(m) && m@ == msg
}

/// Parses a stylesheet.
pub fn parse(input: &str) -> (r: EngineResult<Stylesheet>)
    ensures
        input.len() > MAX_INPUT_BYTES ==> r == Err::<Stylesheet, EngineError>(
            EngineError::InputTooLarge { limit: MAX_INPUT_BYTES, actual: input.len() },
        ),
        input.len() <= MAX_INPUT_BYTES ==> match spec_parse_css(input@) {
            Ok(rules) => r is Ok && r->Ok_0@ == rules,
            Err(msg) => r is Err && is_invalid_css(r->Err_0, msg),
        },
{
    check_input_size(input)?;
    let mut parser = CssParser { chars: str_to_chars(input), pos: 0, depth: 0 };
    parser.parse_stylesheet()
}

struct CssParser {
    chars: Vec<char>,
    pos: usize,
    depth: usize,
}

fn is_selector_start_char(c: char) -> (b: bool)
    ensures
        b == is_selector_start(c),
{
    c == '*' || c == '#' || c == '.' || ascii_alpha(c) || c == '_' || c == '-'
}

fn css_continues_char(k: CssRun, c: char) -> (b: bool)
    ensures
        b == css_continues(k, c),
{
    match k {
        CssRun::Space => white_space(c),
        CssRun::Ident => ascii_alnum(c) || c == '-' || c == '_',
        CssRun::Value => c != ';' && c != '}',
    }
}

impl CssParser {
    spec fn wf(&self) -> bool {
        self.pos <= self.chars@.len()
    }

    fn peek(&self) -> (r: Option<char>)
        ensures
            r == if self.pos < self.chars@.len() { Some(self.chars@[self.pos as int]) } else { None::<char> },
    {
        if self.pos < self.chars.len() {
            Some(self.chars[self.pos])
        } else {
            None
        }
    }

    fn peek_at(&self, offset: usize) -> (r: Option<char>)
        ensures
            r == if self.pos + offset < self.chars@.len() {
                Some(self.chars@[self.pos + offset])
            } else {
                None::<char>
            },
    {
        if offset < self.chars.len() && self.pos < self.chars.len() - offset {
            Some(self.chars[self.pos + offset])
        } else {
            None
        }
    }

    fn advance(&mut self)
        requires
            old(self).wf(),
        ensures
            final(self).wf(),
            final(self).chars == old(self).chars,
            final(self).depth == old(self).depth,
            final(self).pos == bump(old(self).chars@, old(self).pos as int),
    {
        if self.pos < self.chars.len() {
            self.pos = self.pos + 1;
        }
    }

    fn eof(&self) -> (b: bool)
        ensures
            b == (self.pos >= self.chars@.len()),
    {
        self.pos >= self.chars.len()
    }

    fn skip_run(&mut self, k: CssRun)
        requires
            old(self).wf(),
        ensures
            final(self).wf(),
            final(self).chars == old(self).chars,
            final(self).depth == old(self).depth,
            final(self).pos == css_run_end(old(self).chars@, old(self).pos as int, k),
            old(self).pos <= final(self).pos,
    {
        let ghost start = self.pos as int;
        proof { lemma_css_run_end(self.chars@, start, k); }
        while self.pos < self.chars.len() && css_continues_char(k, self.chars[self.pos])
            invariant
                self.wf(),
                self.chars == old(self).chars,
                self.depth == old(self).depth,
                css_run_end(self.chars@, start, k) == css_run_end(self.chars@, self.pos as int, k),
            decreases self.chars@.len() - self.pos,
        {
            self.pos = self.pos + 1;
        }
    }

    fn skip_inline_whitespace(&mut self)
        requires
            old(self).wf(),
        ensures
            final(self).wf(),
            final(self).chars == old(self).chars,
            final(self).depth == old(self).depth,
            final(self).pos == css_run_end(old(self).chars@, old(self).pos as int, CssRun::Space),
    {
        self.skip_run(CssRun::Space);
    }

    /// Skips to the next `;` or `}`, the end of a declaration.
    fn skip_until(&mut self)
        requires
            old(self).wf(),
        ensures
            final(self).wf(),
            final(self).chars == old(self).chars,
            final(self).depth == old(self).depth,
            final(self).pos == css_run_end(old(self).chars@, old(self).pos as int, CssRun::Value),
    {
        self.skip_run(CssRun::Value);
    }

    fn skip_whitespace_and_comments(&mut self)
        requires
            old(self).wf(),
        ensures
            final(self).wf(),
            final(self).chars == old(self).chars,
            final(self).depth == old(self).depth,
            final(self).pos == skip_ws_comments(old(self).chars@, old(self).pos as int),
    {
        let ghost s = self.chars@;
        let ghost start = self.pos as int;
        loop
            invariant_except_break
                self.wf(),
                self.chars == old(self).chars,
                self.chars@ == s,
                self.depth == old(self).depth,
                skip_ws_comments(s, start) == skip_ws_comments(s, self.pos as int),
            ensures
                self.wf(),
                self.chars == old(self).chars,
                self.depth == old(self).depth,
                skip_ws_comments(s, start) == self.pos,
            decreases s.len() - self.pos,
        {
            let ghost i = self.pos as int;
            self.skip_run(CssRun::Space);
            proof { lemma_css_run_end(s, i, CssRun::Space); }
            if self.peek() == Some('/') && self.peek_at(1) == Some('*') {
                self.advance();
                self.advance();
                let ghost c0 = self.pos as int;
                while !self.eof() && !(self.peek() == Some('*') && self.peek_at(1) == Some('/'))
                    invariant
                        self.wf(),
                        self.chars == old(self).chars,
                        self.chars@ == s,
                        self.depth == old(self).depth,
                        comment_close(s, c0) == comment_close(s, self.pos as int),
                    decreases s.len() - self.pos,
                {
                    self.advance();
                }
                proof { crate::css_spec::lemma_comment_close(s, c0); }
                self.advance();
                self.advance();
            } else {
                break;
            }
        }
    }

    fn consume_ident(&mut self) -> (r: String)
        requires
            old(self).wf(),
        ensures
            final(self).wf(),
            final(self).chars == old(self).chars,
            final(self).depth == old(self).depth,
            final(self).pos == css_run_end(old(self).chars@, old(self).pos as int, CssRun::Ident),
            old(self).pos <= final(self).pos,
            r@ == old(self).chars@.subrange(old(self).pos as int, final(self).pos as int),
    {
        let start = self.pos;
        self.skip_run(CssRun::Ident);
        proof { lemma_css_run_end(self.chars@, start as int, CssRun::Ident); }
        chars_to_string(self.chars.as_slice(), start, self.pos)
    }

    /// An identifier, lowercased (identifiers are ASCII).
    fn consume_ident_lower(&mut self) -> (r: String)
        requires
            old(self).wf(),
        ensures
            final(self).wf(),
            final(self).chars == old(self).chars,
            final(self).depth == old(self).depth,
            final(self).pos == css_run_end(old(self).chars@, old(self).pos as int, CssRun::Ident),
            old(self).pos <= final(self).pos,
            r@ == ascii_lower_seq(old(self).chars@.subrange(old(self).pos as int, final(self).pos as int)),
    {
        let start = self.pos;
        self.skip_run(CssRun::Ident);
        proof { lemma_css_run_end(self.chars@, start as int, CssRun::Ident); }
        chars_to_lower_string(self.chars.as_slice(), start, self.pos)
    }

    /// Consumes a declaration's raw value, up to `;` or `}`; gives its bounds.
    fn consume_value_raw(&mut self) -> (r: (usize, usize))
        requires
            old(self).wf(),
        ensures
            final(self).wf(),
            final(self).chars == old(self).chars,
            final(self).depth == old(self).depth,
            final(self).pos == css_run_end(old(self).chars@, old(self).pos as int, CssRun::Value),
            r == (old(self).pos, final(self).pos),
    {
        let start = self.pos;
        self.skip_run(CssRun::Value);
        proof { lemma_css_run_end(self.chars@, start as int, CssRun::Value); }
        (start, self.pos)
    }

    fn parse_simple_selector(&mut self) -> (r: EngineResult<SimpleSelector>)
        requires
            old(self).wf(),
        ensures
            final(self).wf(),
            final(self).chars == old(self).chars,
            final(self).depth == old(self).depth,
            r is Ok,
            (final(self).pos as int, r->Ok_0@) == simple_from(old(self).chars@, old(self).pos as int, empty_simple()),
    {
        let ghost s = self.chars@;
        let ghost start = self.pos as int;
        let mut sel = SimpleSelector::default();
        loop
            invariant_except_break
                self.wf(),
                self.chars == old(self).chars,
                self.chars@ == s,
                self.depth == old(self).depth,
                simple_from(s, start, empty_simple()) == simple_from(s, self.pos as int, sel@),
            ensures
                self.wf(),
                self.chars == old(self).chars,
                self.depth == old(self).depth,
                simple_from(s, start, empty_simple()) == (self.pos as int, sel@),
            decreases s.len() - self.pos,
        {
            match self.peek() {
                Some('*') => {
                    sel.universal = true;
                    self.advance();
                },
                Some('#') => {
                    self.advance();
                    sel.id = Some(self.consume_ident());
                },
                Some('.') => {
                    self.advance();
                    let ghost before = sel.classes@;
                    let class = self.consume_ident();
                    sel.classes.push(class);
                    assert(strings_view(sel.classes@) =~= strings_view(before).push(class@));
                },
                Some(c) => {
                    if ascii_alpha(c) || c == '_' || c == '-' {
                        proof {
                            lemma_css_run_end(s, self.pos + 1, CssRun::Ident);
                            assert(css_run_end(s, self.pos as int, CssRun::Ident) == css_run_end(s, self.pos + 1, CssRun::Ident));
                        }
                        sel.tag = Some(self.consume_ident_lower());
                    } else {
                        break;
                    }
                },
                None => {
                    break;
                },
            }
        }
        Ok(sel)
    }

    fn parse_selector(&mut self) -> (r: EngineResult<Selector>)
        requires
            old(self).wf(),
        ensures
            final(self).wf(),
            final(self).chars == old(self).chars,
            final(self).depth == old(self).depth,
            ({
                let (k, parts) = selector_from(old(self).chars@, old(self).pos as int, seq![]);
                match r {
                    Ok(sel) => parts.len() > 0 && sel@ == parts && final(self).pos == k,
                    Err(e) => parts.len() == 0 && is_invalid_css(e, "empty selector"@),
                }
            }),
    {
        let ghost s = self.chars@;
        let ghost start = self.pos as int;
        let mut parts: Vec<SimpleSelector> = Vec::new();
        assert(simples_view(parts@) =~= Seq::<SimpleSelectorView>::empty());
        loop
            invariant_except_break
                self.wf(),
                self.chars == old(self).chars,
                self.chars@ == s,
                self.depth == old(self).depth,
                selector_from(s, start, seq![]) == selector_from(s, self.pos as int, simples_view(parts@)),
            ensures
                self.wf(),
                self.chars == old(self).chars,
                self.depth == old(self).depth,
                selector_from(s, start, seq![]) == (self.pos as int, simples_view(parts@)),
            decreases s.len() - self.pos,
        {
            let ghost i = self.pos as int;
            self.skip_inline_whitespace();
            let ghost j = self.pos as int;
            proof { lemma_css_run_end(s, i, CssRun::Space); }
            let simple = self.parse_simple_selector()?;
            let ghost k = self.pos as int;
            proof { lemma_simple_from(s, j, empty_simple()); }
            if !(simple.tag.is_none() && simple.id.is_none() && simple.classes.len() == 0 && !simple.universal) {
                let ghost before = parts@;
                parts.push(simple);
                assert(simples_view(parts@) =~= simples_view(before).push(simple@));
            }
            let checkpoint = self.pos;
            self.skip_inline_whitespace();
            proof { lemma_css_run_end(s, k, CssRun::Space); }
            match self.peek() {
                Some(c) => {
                    if c == '{' || c == ',' || !is_selector_start_char(c) {
                        self.pos = checkpoint;
                        break;
                    }
                    proof {
                        if k == i {
                            lemma_css_run_end(s, i, CssRun::Space);
                        }
                    }
                },
                None => {
                    self.pos = checkpoint;
                    break;
                },
            }
        }
        if parts.len() == 0 {
            return Err(EngineError::InvalidCss("empty selector".to_string()));
        }
        Ok(Selector { parts })
    }
}


impl CssParser {
    fn parse_selector_list(&mut self) -> (r: EngineResult<Vec<Selector>>)
        requires
            old(self).wf(),
        ensures
            final(self).wf(),
            final(self).chars == old(self).chars,
            final(self).depth == old(self).depth,
            match r {
                Ok(v) => selector_list_from(old(self).chars@, old(self).pos as int, seq![])
                    == Some((final(self).pos as int, selectors_view(v@))),
                Err(e) => selector_list_from(old(self).chars@, old(self).pos as int, seq![]) is None
                    && is_invalid_css(e, "empty selector"@),
            },
    {
        let ghost s = self.chars@;
        let ghost start = self.pos as int;
        let mut selectors: Vec<Selector> = Vec::new();
        assert(selectors_view(selectors@) =~= Seq::<Seq<SimpleSelectorView>>::empty());
        loop
            invariant_except_break
                self.wf(),
                self.chars == old(self).chars,
                self.chars@ == s,
                self.depth == old(self).depth,
                selector_list_from(s, start, seq![]) == selector_list_from(s, self.pos as int, selectors_view(selectors@)),
                start == old(self).pos,
                s == old(self).chars@,
            ensures
                self.wf(),
                self.chars == old(self).chars,
                self.depth == old(self).depth,
                selector_list_from(s, start, seq![]) == Some((self.pos as int, selectors_view(selectors@))),
            decreases s.len() - self.pos,
        {
            let ghost i = self.pos as int;
            self.skip_whitespace_and_comments();
            proof { lemma_skip_ws_comments(s, i); }
            let ghost j = self.pos as int;
            let sel = match self.parse_selector() {
                Ok(sel) => sel,
                Err(e) => {
                    return Err(e);
                },
            };
            proof { crate::css_spec::lemma_selector_from(s, j, seq![]); }
            let ghost k = self.pos as int;
            self.skip_whitespace_and_comments();
            proof { lemma_skip_ws_comments(s, k); }
            let ghost before = selectors@;
            selectors.push(sel);
            assert(selectors_view(selectors@) =~= selectors_view(before).push(sel@));
            if self.peek() == Some(',') {
                self.advance();
                continue;
            }
            break;
        }
        Ok(selectors)
    }

    fn parse_declarations(&mut self) -> (r: EngineResult<Vec<Declaration>>)
        requires
            old(self).wf(),
        ensures
            final(self).wf(),
            final(self).chars == old(self).chars,
            final(self).depth == old(self).depth,
            r is Ok,
            decls_from(old(self).chars@, old(self).pos as int, seq![])
                == (final(self).pos as int, decls_view(r->Ok_0@)),
    {
        let ghost s = self.chars@;
        let ghost start = self.pos as int;
        let mut decls: Vec<Declaration> = Vec::new();
        assert(decls_view(decls@) =~= Seq::<DeclarationView>::empty());
        loop
            invariant_except_break
                self.wf(),
                self.chars == old(self).chars,
                self.chars@ == s,
                self.depth == old(self).depth,
                decls_from(s, start, seq![]) == decls_from(s, self.pos as int, decls_view(decls@)),
            ensures
                self.wf(),
                self.chars == old(self).chars,
                self.depth == old(self).depth,
                decls_from(s, start, seq![]) == (self.pos as int, decls_view(decls@)),
            decreases s.len() - self.pos,
        {
            let ghost i = self.pos as int;
            self.skip_whitespace_and_comments();
            proof { lemma_skip_ws_comments(s, i); }
            let ghost j = self.pos as int;
            if self.peek() == Some('}') || self.eof() {
                break;
            }
            if self.peek() == Some(';') {
                self.advance();
                continue;
            }
            let property = self.consume_ident_lower();
            let ghost pe = self.pos as int;
            proof { lemma_css_run_end(s, j, CssRun::Ident); }
            self.skip_whitespace_and_comments();
            proof { lemma_skip_ws_comments(s, pe); }
            let ghost k = self.pos as int;
            if self.peek() != Some(':') {
                self.skip_until();
                proof { lemma_css_run_end(s, k, CssRun::Value); }
                continue;
            }
            self.advance();
            self.skip_whitespace_and_comments();
            proof { lemma_skip_ws_comments(s, k + 1); }
            let (v0, ve) = self.consume_value_raw();
            proof { lemma_css_run_end(s, v0 as int, CssRun::Value); }
            let (a, b) = crate::css::trim_bounds(self.chars.as_slice(), v0, ve);
            let parsed = parse_value(self.chars.as_slice(), a, b);
            if let Some(value) = parsed {
                if known_property(property.as_str()) {
                    let ghost before = decls@;
                    let d = Declaration { property, value };
                    decls.push(d);
                    assert(decls_view(decls@) =~= decls_view(before).push(d@));
                }
            }
            let ghost ve2 = self.pos as int;
            self.skip_whitespace_and_comments();
            proof { lemma_skip_ws_comments(s, ve2); }
            if self.peek() == Some(';') {
                self.advance();
            }
        }
        Ok(decls)
    }

    fn parse_rule(&mut self) -> (r: EngineResult<Rule>)
        requires
            old(self).wf(),
            old(self).depth == 0,
        ensures
            final(self).wf(),
            final(self).chars == old(self).chars,
            match rule_at(old(self).chars@, old(self).pos as int) {
                Ok((k, rv)) => r is Ok && r->Ok_0@ == rv && final(self).pos == k && final(self).depth == 0,
                Err(msg) => r is Err && is_invalid_css(r->Err_0, msg),
            },
    {
        let ghost s = self.chars@;
        self.depth = self.depth + 1;
        if self.depth > MAX_CSS_DEPTH {
            return Err(EngineError::NestingTooDeep { limit: MAX_CSS_DEPTH });
        }
        let selectors = match self.parse_selector_list() {
            Ok(v) => v,
            Err(e) => {
                return Err(e);
            },
        };
        self.skip_whitespace_and_comments();
        if self.peek() != Some('{') {
            return Err(EngineError::InvalidCss("expected '{' after selector".to_string()));
        }
        self.advance();
        let declarations = match self.parse_declarations() {
            Ok(v) => v,
            Err(e) => {
                return Err(e);
            },
        };
        self.skip_whitespace_and_comments();
        if self.peek() == Some('}') {
            self.advance();
        }
        self.depth = self.depth - 1;
        Ok(Rule { selectors, declarations })
    }

    fn parse_stylesheet(&mut self) -> (r: EngineResult<Stylesheet>)
        requires
            old(self).wf(),
            old(self).pos == 0,
            old(self).depth == 0,
        ensures
            match spec_parse_css(old(self).chars@) {
                Ok(rules) => r is Ok && r->Ok_0@ == rules,
                Err(msg) => r is Err && is_invalid_css(r->Err_0, msg),
            },
    {
        let ghost s = self.chars@;
        let mut rules: Vec<Rule> = Vec::new();
        assert(rules_view(rules@) =~= Seq::<RuleView>::empty());
        loop
            invariant_except_break
                self.wf(),
                self.chars@ == s,
                self.depth == 0,
                s == old(self).chars@,
                rules_from(s, 0, seq![]) == rules_from(s, self.pos as int, rules_view(rules@)),
            ensures
                rules_from(s, 0, seq![]) == Ok::<Seq<RuleView>, Seq<char>>(rules_view(rules@)),
            decreases s.len() - self.pos,
        {
            let ghost i = self.pos as int;
            self.skip_whitespace_and_comments();
            proof { lemma_skip_ws_comments(s, i); }
            if self.eof() {
                break;
            }
            let ghost j = self.pos as int;
            proof { crate::css_spec::lemma_rule_at(s, j); }
            let rule = match self.parse_rule() {
                Ok(rule) => rule,
                Err(e) => {
                    return Err(e);
                },
            };
            let ghost before = rules@;
            rules.push(rule);
            assert(rules_view(rules@) =~= rules_view(before).push(rule@));
        }
        Ok(Stylesheet { rules })
    }
}

} // verus!

verus! {


/// A parsed CSS value. A length keeps the text of its number, which
/// `f32::from_str` accepts; turning it into a number is left to the caller.
#[derive(Debug, Clone, PartialEq)]
pub enum Value {
    Keyword(String),
    Length(String, Unit),
    Color(Color),
}

impl View for Value {
    type V = ValueView;

    open spec fn view(&self) -> ValueView {
        match self {
            Value::Keyword(k) => ValueView::Keyword(k@),
            Value::Length(n, u) => ValueView::Length(n@, *u),
            Value::Color(c) => ValueView::Color(*c),
        }
    }
}

impl Value {
    /// A copy of the value.
    pub fn duplicate(&self) -> (r: Value)
        ensures
            r@ == self@,
    {
        match self {
            Value::Keyword(k) => Value::Keyword(k.clone()),
            Value::Length(n, u) => Value::Length(n.clone(), *u),
            Value::Color(c) => Value::Color(*c),
        }
    }

    /// The keyword, if the value is one.
    pub fn as_keyword(&self) -> (r: Option<&str>)
        ensures
            match self@ {
                ValueView::Keyword(k) => r is Some && r->Some_0@ == k,
                _ => r is None,
            },
    {
        match self {
            Value::Keyword(k) => Some(k.as_str()),
            _ => None,
        }
    }

    /// The color the value names: a `#` color, or a keyword that is one of
    /// the named colors.
    pub fn as_color(&self) -> (r: Option<Color>)
        ensures
            r == spec_value_color(self@),
    {
        match self {
            Value::Color(c) => Some(*c),
            Value::Keyword(k) => named_color(k.as_str()),
            _ => None,
        }
    }
}

pub open spec fn spec_value_color(v: ValueView) -> Option<Color> {
    match v {
        ValueView::Color(c) => Some(c),
        ValueView::Keyword(k) => spec_named_color(k),
        _ => None,
    }
}

/// Whether the engine reads the property `p`.
pub fn known_property(p: &str) -> (b: bool)
    ensures
        b == is_known_property(p@),
{
    str_eq(p, "display") || str_eq(p, "width") || str_eq(p, "height") || str_eq(p, "margin")
        || str_eq(p, "padding") || str_eq(p, "border-width") || str_eq(p, "border-color")
        || str_eq(p, "background") || str_eq(p, "background-color") || str_eq(p, "color")
        || str_eq(p, "font-size")
}

pub fn named_color(name: &str) -> (r: Option<Color>)
    ensures
        r == spec_named_color(name@),
{
    if str_eq(name, "black") {
        Some(Color { r: 0, g: 0, b: 0, a: 255 })
    } else if str_eq(name, "white") {
        Some(Color { r: 255, g: 255, b: 255, a: 255 })
    } else if str_eq(name, "red") {
        Some(Color { r: 255, g: 0, b: 0, a: 255 })
    } else if str_eq(name, "green") {
        Some(Color { r: 0, g: 128, b: 0, a: 255 })
    } else if str_eq(name, "blue") {
        Some(Color { r: 0, g: 0, b: 255, a: 255 })
    } else if str_eq(name, "yellow") {
        Some(Color { r: 255, g: 255, b: 0, a: 255 })
    } else if str_eq(name, "gray") || str_eq(name, "grey") {
        Some(Color { r: 128, g: 128, b: 128, a: 255 })
    } else if str_eq(name, "orange") {
        Some(Color { r: 255, g: 165, b: 0, a: 255 })
    } else if str_eq(name, "purple") {
        Some(Color { r: 128, g: 0, b: 128, a: 255 })
    } else if str_eq(name, "transparent") {
        Some(Color { r: 0, g: 0, b: 0, a: 0 })
    } else {
        None
    }
}

fn hex_digit_value(c: char) -> (r: Option<u8>)
    ensures
        r == hex_digit(c),
{
    if '0' <= c && c <= '9' {
        Some(((c as u32) - 48) as u8)
    } else if 'a' <= c && c <= 'f' {
        Some(((c as u32) - 87) as u8)
    } else if 'A' <= c && c <= 'F' {
        Some(((c as u32) - 55) as u8)
    } else {
        None
    }
}

fn hex_pair_value(c0: char, c1: char) -> (r: Option<u8>)
    ensures
        r == hex_pair(c0, c1),
{
    match (hex_digit_value(c0), hex_digit_value(c1)) {
        (Some(h), Some(l)) => Some(h * 16 + l),
        _ => None,
    }
}

/// The color written by the hex digits `s[start..end]` (the text after `#`).
pub fn parse_hex_color(s: &[char], start: usize, end: usize) -> (r: Option<Color>)
    requires
        start <= end <= s@.len(),
    ensures
        r == spec_hex_color(s@.subrange(start as int, end as int)),
{
    let len = end - start;
    if len == 3 {
        let r = hex_digit_value(s[start]);
        let g = hex_digit_value(s[start + 1]);
        let b = hex_digit_value(s[start + 2]);
        match (r, g, b) {
            (Some(r), Some(g), Some(b)) => Some(Color { r: r * 17, g: g * 17, b: b * 17, a: 255 }),
            _ => None,
        }
    } else if len == 6 {
        let r = hex_pair_value(s[start], s[start + 1]);
        let g = hex_pair_value(s[start + 2], s[start + 3]);
        let b = hex_pair_value(s[start + 4], s[start + 5]);
        match (r, g, b) {
            (Some(r), Some(g), Some(b)) => Some(Color { r, g, b, a: 255 }),
            _ => None,
        }
    } else {
        None
    }
}

proof fn lemma_trim_start_step(s: Seq<char>, a: int, e: int)
    requires
        0 <= a < e <= s.len(),
        is_white_space(s[a]),
    ensures
        trim_start(s.subrange(a, e)) == trim_start(s.subrange(a + 1, e)),
{
    assert(s.subrange(a, e).drop_first() =~= s.subrange(a + 1, e));
}

proof fn lemma_trim_end_step(s: Seq<char>, a: int, b: int)
    requires
        0 <= a < b <= s.len(),
        is_white_space(s[b - 1]),
    ensures
        trim_end(s.subrange(a, b)) == trim_end(s.subrange(a, b - 1)),
{
    assert(s.subrange(a, b).drop_last() =~= s.subrange(a, b - 1));
}

/// The bounds of `s[start..end]` with its leading and trailing
/// `White_Space` removed.
pub fn trim_bounds(s: &[char], start: usize, end: usize) -> (r: (usize, usize))
    requires
        start <= end <= s@.len(),
    ensures
        start <= r.0 <= r.1 <= end,
        s@.subrange(r.0 as int, r.1 as int) == trim(s@.subrange(start as int, end as int)),
{
    let mut a = start;
    while a < end && white_space(s[a])
        invariant
            start <= a <= end <= s@.len(),
            trim_start(s@.subrange(start as int, end as int)) == trim_start(s@.subrange(a as int, end as int)),
        decreases end - a,
    {
        proof { lemma_trim_start_step(s@, a as int, end as int); }
        a = a + 1;
    }
    let mut b = end;
    while b > a && white_space(s[b - 1])
        invariant
            start <= a <= b <= end <= s@.len(),
            trim_end(s@.subrange(a as int, end as int)) == trim_end(s@.subrange(a as int, b as int)),
        decreases b - a,
    {
        proof { lemma_trim_end_step(s@, a as int, b as int); }
        b = b - 1;
    }
    proof {
        let t = s@.subrange(a as int, end as int);
        if t.len() > 0 {
            assert(t[0] == s@[a as int]);
        }
        assert(trim_start(t) == t);
        let u = s@.subrange(a as int, b as int);
        if u.len() > 0 {
            assert(u.last() == s@[b - 1]);
        }
        assert(trim_end(u) == u);
    }
    (a, b)
}

fn digits_end_at(t: &Vec<char>, i: usize) -> (r: usize)
    requires
        i <= t@.len(),
    ensures
        r == digits_end(t@, i as int),
        i <= r <= t@.len(),
{
    let mut k = i;
    while k < t.len() && '0' <= t[k] && t[k] <= '9'
        invariant
            i <= k <= t@.len(),
            digits_end(t@, i as int) == digits_end(t@, k as int),
        decreases t@.len() - k,
    {
        k = k + 1;
    }
    k
}

fn decimal_number(t: &Vec<char>) -> (b: bool)
    ensures
        b == is_decimal_number(t@),
{
    let d1 = digits_end_at(t, 0);
    let has_point = d1 < t.len() && t[d1] == '.';
    let mant_end = if has_point { digits_end_at(t, d1 + 1) } else { d1 };
    let has_digits = d1 > 0 || (has_point && mant_end > d1 + 1);
    if !has_digits {
        false
    } else if mant_end == t.len() {
        true
    } else if t[mant_end] == 'e' || t[mant_end] == 'E' {
        let k = if mant_end + 1 < t.len() && (t[mant_end + 1] == '+' || t[mant_end + 1] == '-') {
            mant_end + 2
        } else {
            mant_end + 1
        };
        let e = digits_end_at(t, k);
        e > k && e == t.len()
    } else {
        false
    }
}

fn lower_equals(u: &Vec<char>, word: &str) -> (b: bool)
    ensures
        b == (ascii_lower_seq(u@) == word@),
{
    let l = chars_to_lower(u);
    str_eq(l.as_str(), word)
}

fn chars_to_lower(u: &Vec<char>) -> (l: String)
    ensures
        l@ == ascii_lower_seq(u@),
{
    let l = crate::text::chars_to_lower_string(u.as_slice(), 0, u.len());
    assert(u@.subrange(0, u@.len() as int) =~= u@);
    l
}

/// Whether `s[start..end]` is text that `f32::from_str` accepts.
pub fn float_literal(s: &[char], start: usize, end: usize) -> (b: bool)
    requires
        start <= end <= s@.len(),
    ensures
        b == is_float_literal(s@.subrange(start as int, end as int)),
{
    let ghost t = s@.subrange(start as int, end as int);
    let signed = start < end && (s[start] == '+' || s[start] == '-');
    let from = if signed { start + 1 } else { start };
    let mut u: Vec<char> = Vec::new();
    let mut i = from;
    while i < end
        invariant
            from <= i <= end <= s@.len(),
            u@ == s@.subrange(from as int, i as int),
        decreases end - i,
    {
        u.push(s[i]);
        i = i + 1;
        assert(u@ =~= s@.subrange(from as int, i as int));
    }
    proof {
        if signed {
            assert(t.drop_first() =~= u@);
        } else {
            assert(t =~= u@);
        }
    }
    lower_equals(&u, "inf") || lower_equals(&u, "infinity") || lower_equals(&u, "nan") || decimal_number(&u)
}

/// Parses a declaration's raw value text.
pub fn parse_value(s: &[char], start: usize, end: usize) -> (r: Option<Value>)
    requires
        start <= end <= s@.len(),
    ensures
        match r {
            Some(v) => spec_parse_value(s@.subrange(start as int, end as int)) == Some(v@),
            None => spec_parse_value(s@.subrange(start as int, end as int)) is None,
        },
{
    let (a, b) = trim_bounds(s, start, end);
    let ghost t = s@.subrange(a as int, b as int);
    if a == b {
        return None;
    }
    if s[a] == '#' {
        proof { assert(t.drop_first() =~= s@.subrange(a + 1, b as int)); }
        return match parse_hex_color(s, a + 1, b) {
            Some(c) => Some(Value::Color(c)),
            None => None,
        };
    }
    if b - a >= 2 && s[b - 2] == 'p' && s[b - 1] == 'x' {
        let (na, nb) = trim_bounds(s, a, b - 2);
        proof { assert(t.subrange(0, t.len() - 2) =~= s@.subrange(a as int, b - 2)); }
        if float_literal(s, na, nb) {
            return Some(Value::Length(chars_to_string(s, na, nb), Unit::Px));
        }
    }
    if b - a == 1 && s[a] == '0' {
        assert(t =~= seq!['0']);
        let mut zero = String::new();
        crate::text::push_char(&mut zero, '0');
        return Some(Value::Length(zero, Unit::Px));
    }
    proof {
        if t == seq!['0'] {
            assert(t[0] == '0');
        }
    }
    Some(Value::Keyword(chars_to_string(s, a, b)))
}

} // verus!
