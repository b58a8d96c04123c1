use kaleidoscope::css::{self, Color, Selector, SimpleSelector, Unit, Value};
use kaleidoscope::dom::{is_void_element, Attributes, ElementData, Node};
use kaleidoscope::error::{check_input_size, EngineError, MAX_DOM_DEPTH, MAX_INPUT_BYTES};
use kaleidoscope::html;

fn only_value(src: &str) -> Option<Value> {
    let sheet = css::parse(src).unwrap();
    sheet.rules[0].declarations.first().map(|d| d.value.clone())
}

#[test]
fn oversized_input_is_refused_by_both_parsers() {
    let big = "a".repeat(MAX_INPUT_BYTES + 1);
    let expected = EngineError::InputTooLarge { limit: MAX_INPUT_BYTES, actual: MAX_INPUT_BYTES + 1 };
    assert_eq!(check_input_size(&big), Err(expected.clone()));
    assert_eq!(html::parse(&big), Err(expected.clone()));
    assert_eq!(css::parse(&big), Err(expected));
    let fits = "a".repeat(MAX_INPUT_BYTES);
    assert_eq!(check_input_size(&fits), Ok(()));
}

#[test]
fn error_messages_match_the_command_line_text() {
    assert_eq!(
        EngineError::InputTooLarge { limit: 10, actual: 12 }.message(),
        "input too large: 12 bytes exceeds limit of 10 bytes"
    );
    assert_eq!(EngineError::NestingTooDeep { limit: 512 }.message(), "nesting exceeds max depth of 512");
    assert_eq!(
        EngineError::LayoutTooDeep { limit: 0 }.message(),
        "layout recursion exceeds max depth of 0"
    );
    assert_eq!(EngineError::InvalidCss("x".to_string()).message(), "invalid css: x");
    assert_eq!(EngineError::InvalidLength("3em".to_string()).message(), "invalid length: 3em");
    assert_eq!(EngineError::InvalidColor("#zz".to_string()).message(), "invalid color: #zz");
    assert_eq!(EngineError::Io("gone".to_string()).message(), "io error: gone");
}

#[test]
fn nesting_past_the_limit_reports_the_limit() {
    let deep = "<div>".repeat(MAX_DOM_DEPTH + 1);
    assert_eq!(html::parse(&deep), Err(EngineError::NestingTooDeep { limit: MAX_DOM_DEPTH }));
    let shallow = "<div>".repeat(MAX_DOM_DEPTH - 1);
    assert!(html::parse(&shallow).is_ok());
}

#[test]
fn empty_selector_and_missing_brace_fail_the_stylesheet() {
    assert_eq!(css::parse("{ color: red; }"), Err(EngineError::InvalidCss("empty selector".to_string())));
    assert_eq!(
        css::parse("div color: red;"),
        Err(EngineError::InvalidCss("expected '{' after selector".to_string()))
    );
    assert_eq!(css::parse("  /* only a comment */ ").unwrap().rules.len(), 0);
}

#[test]
fn hex_colors_in_short_and_long_forms_only() {
    assert_eq!(only_value("a { color: #abc; }"), Some(Value::Color(Color::rgb(0xaa, 0xbb, 0xcc))));
    assert_eq!(only_value("a { color: #102030; }"), Some(Value::Color(Color::rgb(0x10, 0x20, 0x30))));
    assert_eq!(only_value("a { color: #f80; }"), Some(Value::Color(Color::rgb(0xff, 0x88, 0x00))));
    assert_eq!(only_value("a { color: #+f+f+f; }"), None);
    assert_eq!(only_value("a { color: #+ff; }"), None);
    assert_eq!(only_value("a { color: #12345; }"), None);
    assert_eq!(only_value("a { color: #ggg; }"), None);
    assert_eq!(only_value("a { color: #\u{20ac}ab; }"), None);
}

#[test]
fn lengths_keep_their_number_text() {
    assert_eq!(only_value("a { width: 12.5px; }"), Some(Value::Length("12.5".to_string(), Unit::Px)));
    assert_eq!(only_value("a { width: 10 px; }"), Some(Value::Length("10".to_string(), Unit::Px)));
    assert_eq!(only_value("a { width: 1e3px; }"), Some(Value::Length("1e3".to_string(), Unit::Px)));
    assert_eq!(only_value("a { margin: 0; }"), Some(Value::Length("0".to_string(), Unit::Px)));
    assert_eq!(only_value("a { width: abcpx; }"), Some(Value::Keyword("abcpx".to_string())));
    assert_eq!(only_value("a { margin: auto; }"), Some(Value::Keyword("auto".to_string())));
    assert_eq!(only_value("a { margin: ; }"), None);
}

#[test]
fn named_colors_and_keywords() {
    let green = Value::Keyword("green".to_string());
    assert_eq!(green.as_color(), Some(Color::rgb(0, 128, 0)));
    assert_eq!(green.as_keyword(), Some("green"));
    let clear = Value::Keyword("transparent".to_string());
    assert_eq!(clear.as_color(), Some(Color { r: 0, g: 0, b: 0, a: 0 }));
    assert_eq!(Value::Keyword("teal".to_string()).as_color(), None);
    assert_eq!(Value::Length("3".to_string(), Unit::Px).as_keyword(), None);
    assert_eq!(css::named_color("grey"), Some(Color::rgb(128, 128, 128)));
}

#[test]
fn selectors_lists_chains_and_specificity() {
    let sheet = css::parse("DIV.a.b #c p, h1 { color: red }").unwrap();
    let rule = &sheet.rules[0];
    assert_eq!(rule.selectors.len(), 2);
    let chain = &rule.selectors[0];
    assert_eq!(chain.parts.len(), 3);
    assert_eq!(chain.parts[0].tag, Some("div".to_string()));
    assert_eq!(chain.parts[0].classes, vec!["a", "b"]);
    assert_eq!(chain.parts[1].id, Some("c".to_string()));
    assert_eq!(chain.specificity(), (1, 2, 2));
    assert_eq!(rule.selectors[1].specificity(), (0, 0, 1));
    let universal = Selector { parts: vec![SimpleSelector { universal: true, ..Default::default() }] };
    assert_eq!(universal.specificity(), (0, 0, 0));
}

#[test]
fn property_names_are_lowercased_and_comments_skipped() {
    let sheet = css::parse("p { /* note */ COLOR: blue; ; width:/*x*/3px }").unwrap();
    let decls = &sheet.rules[0].declarations;
    assert_eq!(decls.len(), 2);
    assert_eq!(decls[0].property, "color");
    assert_eq!(decls[1].property, "width");
    assert_eq!(decls[1].value, Value::Length("3".to_string(), Unit::Px));
}

#[test]
fn entities_are_decoded_in_text() {
    let doc = html::parse("<p>&lt;b&gt; &amp; &quot;q&quot; &#39;s&apos; &amp;lt;&nbsp;</p>").unwrap();
    let p = doc.as_element().unwrap().children[0].as_element().unwrap();
    assert_eq!(p.children[0], Node::text("<b> & \"q\" &#39;s' <\u{a0}"));
}

#[test]
fn script_bodies_are_raw_text() {
    let doc = html::parse("<script>if (a < b) { x(); }</script><p>after</p>").unwrap();
    let root = doc.as_element().unwrap();
    let script = root.children[0].as_element().unwrap();
    assert_eq!(script.tag_name, "script");
    assert_eq!(script.children, vec![Node::text("if (a < b) { x(); }")]);
    assert_eq!(root.children[1].as_element().unwrap().tag_name, "p");
}

#[test]
fn tag_and_attribute_names_are_lowercased() {
    let doc = html::parse("<DIV CLASS=\"x y\" Id=main data-k='v'>t</DIV>").unwrap();
    let div = doc.as_element().unwrap().children[0].as_element().unwrap();
    assert_eq!(div.tag_name, "div");
    assert_eq!(div.id(), Some("main"));
    assert_eq!(div.classes(), vec!["x", "y"]);
    assert!(div.has_class("y"));
    assert!(!div.has_class("z"));
    assert_eq!(div.attributes.get("data-k").map(|s| s.as_str()), Some("v"));
}

#[test]
fn close_tags_fold_open_elements_and_strays_are_dropped() {
    let doc = html::parse("</p><div><span><p>text</div>after").unwrap();
    let root = doc.as_element().unwrap();
    assert_eq!(root.tag_name, "html");
    assert_eq!(root.children.len(), 2);
    let div = root.children[0].as_element().unwrap();
    let span = div.children[0].as_element().unwrap();
    let p = span.children[0].as_element().unwrap();
    assert_eq!(p.children, vec![Node::text("text")]);
    assert_eq!(root.children[1], Node::text("after"));
}

#[test]
fn own_html_root_is_not_wrapped_again() {
    let doc = html::parse("<!DOCTYPE html><html lang=en><body><p>x</p></body></html>").unwrap();
    let root = doc.as_element().unwrap();
    assert_eq!(root.tag_name, "html");
    assert_eq!(root.attributes.get("lang").map(|s| s.as_str()), Some("en"));
    assert_eq!(root.children[0].as_element().unwrap().tag_name, "body");
}

#[test]
fn void_elements_stay_childless() {
    let doc = html::parse("<div><br>text<img src=a><input>more</div>").unwrap();
    let div = doc.as_element().unwrap().children[0].as_element().unwrap();
    assert_eq!(div.children.len(), 5);
    for child in &div.children {
        if let Some(e) = child.as_element() {
            assert!(is_void_element(&e.tag_name));
            assert!(e.children.is_empty());
        }
    }
    assert!(is_void_element("wbr"));
    assert!(!is_void_element("div"));
}

#[test]
fn stray_less_than_is_text() {
    let doc = html::parse("a < b <").unwrap();
    let root = doc.as_element().unwrap();
    assert_eq!(root.children, vec![Node::text("a "), Node::text("<"), Node::text(" b "), Node::text("<")]);
}

#[test]
fn dom_builders_hold_what_they_are_given() {
    let mut attrs = Attributes::new();
    attrs.insert("id".to_string(), "a".to_string());
    attrs.insert("id".to_string(), "b".to_string());
    let e = ElementData::new("section".to_string(), attrs);
    assert_eq!(e.id(), Some("b"));
    assert!(e.children.is_empty());
    assert!(e.classes().is_empty());
    let n = Node::element("ul", Attributes::new(), vec![Node::text("x")]);
    assert_eq!(n.children(), &[Node::text("x")]);
    assert_eq!(Node::text("y").children().len(), 0);
    assert!(Node::Comment("c".to_string()).as_element().is_none());
}

#[test]
fn unknown_properties_and_bad_values_are_skipped() {
    let sheet = css::parse("x { colr: red; color: #zz; width: 5px }").unwrap();
    let decls = &sheet.rules[0].declarations;
    assert_eq!(decls.len(), 1);
    assert_eq!(decls[0].property, "width");
    assert_eq!(decls[0].value, Value::Length("5".to_string(), Unit::Px));
    assert!(css::known_property("border-width"));
    assert!(!css::known_property("colr"));
}

#[test]
fn attribute_order_does_not_affect_equality() {
    let a = html::parse("<p id=x class=y>t</p>").unwrap();
    let b = html::parse("<p class=y id=x>t</p>").unwrap();
    let c = html::parse("<p class=y id=z>t</p>").unwrap();
    assert_eq!(a, b);
    assert_ne!(a, c);
}

#[test]
fn specificity_adds_up_over_parts() {
    let part = |id: Option<&str>, classes: &[&str], tag: Option<&str>| SimpleSelector {
        tag: tag.map(|t| t.to_string()),
        id: id.map(|t| t.to_string()),
        classes: classes.iter().map(|c| c.to_string()).collect(),
        universal: false,
    };
    let a = vec![part(Some("m"), &["x"], None), part(None, &[], Some("div"))];
    let b = vec![part(None, &["p", "q"], Some("span"))];
    let whole = Selector { parts: a.iter().chain(b.iter()).cloned().collect() };
    let sa = Selector { parts: a }.specificity();
    let sb = Selector { parts: b }.specificity();
    assert_eq!(whole.specificity(), (sa.0 + sb.0, sa.1 + sb.1, sa.2 + sb.2));
    assert_eq!(Selector { parts: vec![] }.specificity(), (0, 0, 0));
}
