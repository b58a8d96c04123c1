//! Which styled nodes become layout boxes: every element not hidden by
//! `display: none` becomes a block box, a text node with more than
//! whitespace becomes a text box, comments and hidden subtrees produce
//! nothing. Positions and sizes are computed by the caller.

use vstd::prelude::*;
use crate::css_spec::{trim, trim_start, trim_end};
use crate::dom::{Node, NodeView};
use crate::error::{EngineError, EngineResult, MAX_LAYOUT_DEPTH};
use crate::style::{spec_display, styled_view, styled_views, Display, StyledNode};
use crate::style_spec::StyledView;
use crate::text::{is_white_space, white_space, str_to_chars, chars_to_string};

verus! {

/// What a layout box stands for.
pub enum BoxKind<'a> {
    Block(&'a StyledNode<'a>),
    Text(&'a StyledNode<'a>, String),
}

/// A layout box before positions and sizes are assigned.
pub struct BoxTree<'a> {
    pub kind: BoxKind<'a>,
    pub children: Vec<BoxTree<'a>>,
}

/// The mathematical value of a box: the styled node it stands for, whether
/// it is a text box (with its text), and its children.
pub struct BoxView {
    pub styled: StyledView,
    pub text: Option<Seq<char>>,
    pub children: Seq<BoxView>,
}

pub open spec fn box_view<'a>(b: BoxTree<'a>) -> BoxView
    decreases b, 1nat,
{
    match b.kind {
        BoxKind::Block(s) => BoxView { styled: styled_view(*s), text: None, children: box_views(b.children@) },
        BoxKind::Text(s, t) => BoxView { styled: styled_view(*s), text: Some(t@), children: box_views(b.children@) },
    }
}

pub open spec fn box_views<'a>(s: Seq<BoxTree<'a>>) -> Seq<BoxView>
    decreases s, 0nat,
{
    if s.len() == 0 {
        seq![]
    } else {
        box_views(s.drop_last()).push(box_view(s.last()))
    }
}

impl<'a> View for BoxTree<'a> {
    type V = BoxView;

    open spec fn view(&self) -> BoxView {
        box_view(*self)
    }
}

/// The boxes for the styled tree `s` at nesting `depth`: `Err` when the
/// tree is nested deeper than `MAX_LAYOUT_DEPTH`, `None` when `s` makes no
/// box.
pub open spec fn spec_boxes(s: StyledView, depth: int) -> Result<Option<BoxView>, ()>
    decreases s, 1nat,
{
    if depth > MAX_LAYOUT_DEPTH {
        Err(())
    } else if spec_display(s.specified) == Display::DisplayNone {
        Ok(None)
    } else {
        match s.node {
            NodeView::Comment(_) => Ok(None),
            NodeView::Text(t) => if trim(t).len() == 0 {
                Ok(None)
            } else {
                Ok(Some(BoxView { styled: s, text: Some(t), children: seq![] }))
            },
            NodeView::Element(_) => match spec_child_boxes(s.children, depth + 1) {
                Err(()) => Err(()),
                Ok(kids) => Ok(Some(BoxView { styled: s, text: None, children: kids })),
            },
        }
    }
}

/// The boxes of the nodes `c`, in order, leaving out those that make none.
pub open spec fn spec_child_boxes(c: Seq<StyledView>, depth: int) -> Result<Seq<BoxView>, ()>
    decreases c, 0nat,
{
    if c.len() == 0 {
        Ok(seq![])
    } else {
        match spec_child_boxes(c.drop_last(), depth) {
            Err(()) => Err(()),
            Ok(prev) => match spec_boxes(c.last(), depth) {
                Err(()) => Err(()),
                Ok(None) => Ok(prev),
                Ok(Some(b)) => Ok(prev.push(b)),
            },
        }
    }
}

/// Whether `display` is set to the keyword `none`.
pub open spec fn hidden(specified: Map<Seq<char>, crate::css_spec::ValueView>) -> bool {
    specified.contains_key("display"@) && specified["display"@] == crate::css_spec::ValueView::Keyword("none"@)
}

/// Within the depth limit, a node makes no box exactly when it is hidden
/// by `display: none`, is a comment, or is text with nothing but
/// `White_Space`; every other node, an element of any other `display`
/// (`inline` included) or text, makes a box for itself.
pub proof fn lemma_what_makes_no_box(s: StyledView, depth: int)
    requires
        depth <= MAX_LAYOUT_DEPTH,
    ensures
        spec_boxes(s, depth) == Ok::<Option<BoxView>, ()>(None) <==> {
            ||| hidden(s.specified)
            ||| s.node is Comment
            ||| (s.node matches NodeView::Text(t) && trim(t).len() == 0)
        },
        spec_boxes(s, depth) matches Ok(Some(b)) ==> b.styled == s && (b.text is Some <==> s.node is Text),
        !hidden(s.specified) && s.node is Element && spec_boxes(s, depth) is Ok ==> spec_boxes(s, depth) matches Ok(Some(_)),
{
    reveal_strlit("none");
    reveal_strlit("inline");
    assert("none"@ != "inline"@) by {
        assert("none"@.len() != "inline"@.len());
    }
    assert((spec_display(s.specified) == Display::DisplayNone) == hidden(s.specified));
}

/// Whether the text is all `White_Space`.
fn blank(t: &str) -> (b: bool)
    ensures
        b == (trim(t@).len() == 0),
{
    let chars = str_to_chars(t);
    let (a, e) = crate::css::trim_bounds(chars.as_slice(), 0, chars.len());
    assert(chars@.subrange(0, chars@.len() as int) =~= chars@);
    a == e
}

/// The box tree for a styled node at nesting `depth`.
pub fn build_layout_tree<'a>(styled: &'a StyledNode<'a>, depth: usize) -> (r: EngineResult<Option<BoxTree<'a>>>)
    ensures
        match spec_boxes(styled@, depth as int) {
            Err(()) => r == Err::<Option<BoxTree<'a>>, EngineError>(EngineError::LayoutTooDeep { limit: MAX_LAYOUT_DEPTH }),
            Ok(None) => r matches Ok(None),
            Ok(Some(b)) => r matches Ok(Some(t)) && t@ == b,
        },
    decreases styled,
{
    if depth > MAX_LAYOUT_DEPTH {
        return Err(EngineError::LayoutTooDeep { limit: MAX_LAYOUT_DEPTH });
    }
    if styled.display() == Display::DisplayNone {
        return Ok(None);
    }
    match styled.node {
        Node::Comment(_) => Ok(None),
        Node::Text(text) => {
            if blank(text.as_str()) {
                Ok(None)
            } else {
                let b = BoxTree { kind: BoxKind::Text(styled, text.clone()), children: Vec::new() };
                assert(box_views(b.children@) =~= Seq::<BoxView>::empty());
                Ok(Some(b))
            }
        },
        Node::Element(_) => {
            let mut children: Vec<BoxTree<'a>> = Vec::new();
            let ghost sv = styled_views(styled.children@);
            let mut i: usize = 0;
            proof { lemma_styled_views(styled.children@); }
            while i < styled.children.len()
                invariant
                    i <= styled.children@.len(),
                    depth <= MAX_LAYOUT_DEPTH,
                    *styled.node is Element,
                    spec_display(styled.specified@) != Display::DisplayNone,
                    sv == styled_views(styled.children@),
                    sv.len() == styled.children@.len(),
                    forall|j: int| 0 <= j < sv.len() ==> #[trigger] sv[j] == styled_view(styled.children@[j]),
                    spec_child_boxes(sv.take(i as int), depth + 1) == Ok::<Seq<BoxView>, ()>(box_views(children@)),
                decreases styled.children@.len() - i,
            {
                proof {
                    assert(decreases_to!(*styled => styled.children));
                    assert(decreases_to!(styled.children => styled.children@[i as int]));
                    assert(sv.take(i + 1).drop_last() =~= sv.take(i as int));
                    assert(sv.take(i + 1).last() == sv[i as int]);
                }
                match build_layout_tree(&styled.children[i], depth + 1) {
                    Err(e) => {
                        proof {
                            lemma_child_boxes_err(sv, i as int + 1, depth + 1);
                        }
                        return Err(e);
                    },
                    Ok(None) => {},
                    Ok(Some(b)) => {
                        let ghost before = children@;
                        children.push(b);
                        assert(children@.drop_last() =~= before);
                    },
                }
                i = i + 1;
            }
            assert(sv.take(i as int) =~= sv);
            Ok(Some(BoxTree { kind: BoxKind::Block(styled), children }))
        },
    }
}

proof fn lemma_styled_views<'a>(v: Seq<StyledNode<'a>>)
    ensures
        styled_views(v).len() == v.len(),
        forall|i: int| 0 <= i < v.len() ==> #[trigger] styled_views(v)[i] == styled_view(v[i]),
    decreases v.len(),
{
    if v.len() > 0 {
        lemma_styled_views(v.drop_last());
        assert forall|i: int| 0 <= i < v.len() implies #[trigger] styled_views(v)[i] == styled_view(v[i]) by {
            if i < v.len() - 1 {
                assert(v.drop_last()[i] == v[i]);
            }
        }
    }
}

/// Once the boxes of a prefix of the children fail, those of every longer
/// prefix fail too.
proof fn lemma_child_boxes_err(c: Seq<StyledView>, n: int, depth: int)
    requires
        0 < n <= c.len(),
        spec_child_boxes(c.take(n), depth) is Err,
    ensures
        spec_child_boxes(c, depth) is Err,
    decreases c.len() - n,
{
    if n < c.len() {
        assert(c.take(n + 1).drop_last() =~= c.take(n));
        lemma_child_boxes_err(c, n + 1, depth);
    } else {
        assert(c.take(n) =~= c);
    }
}

} // verus!
