use kaleidoscope::css::{self, Color, Unit, Value};
use kaleidoscope::error::{EngineError, MAX_LAYOUT_DEPTH};
use kaleidoscope::html;
use kaleidoscope::layout::{build_layout_tree, BoxKind};
use kaleidoscope::style::{specificities_fit, style_tree, Display};

fn color_of(v: Option<&Value>) -> Option<Color> {
    v.and_then(|v| v.as_color())
}

#[test]
fn higher_specificity_wins_regardless_of_order() {
    let dom = html::parse("<p id=\"i\" class=\"c\">x</p>").unwrap();
    let sheet = css::parse("#i { color: blue; } .c { color: red; } p { color: green; }").unwrap();
    let styled = style_tree(&dom, &sheet);
    let p = &styled.children[0];
    assert_eq!(color_of(p.value("color")), Some(Color::rgb(0, 0, 255)));
}

#[test]
fn each_property_is_won_separately() {
    let dom = html::parse("<p class=\"c\"></p>").unwrap();
    let sheet = css::parse(".c { color: red; width: 5px; } p { color: blue; height: 7px; } .c { width: 9px; }").unwrap();
    let styled = style_tree(&dom, &sheet);
    let p = &styled.children[0];
    assert_eq!(color_of(p.value("color")), Some(Color::rgb(255, 0, 0)));
    assert_eq!(p.value("width"), Some(&Value::Length("9".to_string(), Unit::Px)));
    assert_eq!(p.value("height"), Some(&Value::Length("7".to_string(), Unit::Px)));
    assert_eq!(p.value("margin"), None);
}

#[test]
fn inline_style_beats_an_id_rule() {
    let dom = html::parse("<p id=\"i\" style=\"color: red; width: 1px\"></p>").unwrap();
    let sheet = css::parse("#i { color: blue; width: 2px; }").unwrap();
    let styled = style_tree(&dom, &sheet);
    let p = &styled.children[0];
    assert_eq!(color_of(p.value("color")), Some(Color::rgb(255, 0, 0)));
    assert_eq!(p.value("width"), Some(&Value::Length("1".to_string(), Unit::Px)));
}

#[test]
fn color_and_font_size_are_inherited() {
    let dom = html::parse("<div style=\"color: red; font-size: 20px; width: 3px\"><p>text</p><p style=\"color: blue\"></p></div>").unwrap();
    let sheet = css::parse("").unwrap();
    let styled = style_tree(&dom, &sheet);
    let div = &styled.children[0];
    let first = &div.children[0];
    assert_eq!(color_of(first.value("color")), Some(Color::rgb(255, 0, 0)));
    assert_eq!(first.value("font-size"), Some(&Value::Length("20".to_string(), Unit::Px)));
    assert_eq!(first.value("width"), None);
    let text = &first.children[0];
    assert_eq!(text.tag_name(), "#text");
    assert_eq!(color_of(text.value("color")), Some(Color::rgb(255, 0, 0)));
    let second = &div.children[1];
    assert_eq!(color_of(second.value("color")), Some(Color::rgb(0, 0, 255)));
}

#[test]
fn descendant_selectors_match_ancestors_in_order() {
    let dom = html::parse("<div class=\"a\"><section><p id=\"in\"></p></section></div><p id=\"out\"></p><span><div><p id=\"rev\"></p></div></span>").unwrap();
    let sheet = css::parse(".a p { color: red; } span section p { color: blue; } div span p { color: green; }").unwrap();
    let styled = style_tree(&dom, &sheet);
    let inner = &styled.children[0].children[0].children[0];
    assert_eq!(color_of(inner.value("color")), Some(Color::rgb(255, 0, 0)));
    let outer = &styled.children[1];
    assert_eq!(outer.value("color"), None);
    let rev = &styled.children[2].children[0].children[0];
    assert_eq!(rev.value("color"), None);
}

#[test]
fn display_and_paint_colors_read_the_computed_values() {
    let dom = html::parse("<a style=\"display: inline; background-color: nope; background: #00ff00\"></a><b style=\"display: none; border-color: yellow; background-color: purple\"></b><i></i>").unwrap();
    let sheet = css::parse("").unwrap();
    let styled = style_tree(&dom, &sheet);
    let (a, b, i) = (&styled.children[0], &styled.children[1], &styled.children[2]);
    assert_eq!(a.display(), Display::Inline);
    assert_eq!(b.display(), Display::DisplayNone);
    assert_eq!(i.display(), Display::Block);
    assert_eq!(a.background_color(), Some(Color::rgb(0, 255, 0)));
    assert_eq!(b.background_color(), Some(Color::rgb(128, 0, 128)));
    assert_eq!(i.background_color(), None);
    assert_eq!(a.border_color(), Color::rgb(0, 0, 0));
    assert_eq!(b.border_color(), Color::rgb(255, 255, 0));
    assert_eq!(a.tag_name(), "a");
}

#[test]
fn stylesheets_of_ordinary_size_fit_the_specificity_counters() {
    let sheet = css::parse(".a.b.c #d e f, g { color: red }").unwrap();
    assert!(specificities_fit(&sheet));
}

#[test]
fn boxes_skip_hidden_nodes_comments_and_blank_text() {
    let dom = html::parse("<div> <!-- c --> <p style=\"display:none\"><span>gone</span></p>text<i></i></div>").unwrap();
    let sheet = css::parse("").unwrap();
    let styled = style_tree(&dom, &sheet);
    let root = build_layout_tree(&styled, 0).unwrap().unwrap();
    assert_eq!(root.children.len(), 1);
    let div = &root.children[0];
    assert_eq!(div.children.len(), 2);
    match &div.children[0].kind {
        BoxKind::Text(_, t) => assert_eq!(t, "text"),
        BoxKind::Block(_) => panic!("expected a text box"),
    }
    match &div.children[1].kind {
        BoxKind::Block(s) => assert_eq!(s.tag_name(), "i"),
        BoxKind::Text(_, _) => panic!("expected a block box"),
    }
}

#[test]
fn hidden_root_makes_no_box() {
    let dom = html::parse("<html style=\"display: none\"><p>x</p></html>").unwrap();
    let sheet = css::parse("").unwrap();
    let styled = style_tree(&dom, &sheet);
    assert!(build_layout_tree(&styled, 0).unwrap().is_none());
}

#[test]
fn box_building_past_the_depth_limit_fails() {
    let dom = html::parse("<div><p></p></div>").unwrap();
    let sheet = css::parse("").unwrap();
    let styled = style_tree(&dom, &sheet);
    assert!(build_layout_tree(&styled, MAX_LAYOUT_DEPTH - 2).is_ok());
    assert_eq!(
        build_layout_tree(&styled, MAX_LAYOUT_DEPTH - 1).err(),
        Some(EngineError::LayoutTooDeep { limit: MAX_LAYOUT_DEPTH })
    );
}

#[test]
fn auto_keyword_is_recognized_only_as_a_keyword() {
    let dom = html::parse("<p style=\"width: auto; margin: 0; height: autox\"></p>").unwrap();
    let sheet = css::parse("").unwrap();
    let styled = style_tree(&dom, &sheet);
    let p = &styled.children[0];
    assert!(p.is_auto("width"));
    assert!(!p.is_auto("margin"));
    assert!(!p.is_auto("height"));
    assert!(!p.is_auto("padding"));
}

#[test]
fn a_rule_ranks_by_its_most_specific_matching_selector() {
    let dom = html::parse("<div id=\"x\" class=\"y\"></div>").unwrap();
    let sheet = css::parse("div, #x { color: blue; } .y { color: green; }").unwrap();
    let styled = style_tree(&dom, &sheet);
    let div = &styled.children[0];
    assert_eq!(color_of(div.value("color")), Some(Color::rgb(0, 0, 255)));
    let sheet = css::parse("#x, div { color: blue; } .y { color: green; }").unwrap();
    let styled = style_tree(&dom, &sheet);
    assert_eq!(color_of(styled.children[0].value("color")), Some(Color::rgb(0, 0, 255)));
}
