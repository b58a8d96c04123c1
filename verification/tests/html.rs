use kaleidoscope::dom::Node;
use kaleidoscope::html::parse;

fn root_children(html: &str) -> Vec<Node> {
    let doc = parse(html).unwrap();
    doc.as_element().unwrap().children.clone()
}

#[test]
fn parses_nested_elements() {
    let doc = parse("<div><p>hi</p></div>").unwrap();
    let root = doc.as_element().unwrap();
    let div = root.children[0].as_element().unwrap();
    assert_eq!(div.tag_name, "div");
    let p = div.children[0].as_element().unwrap();
    assert_eq!(p.tag_name, "p");
    assert_eq!(p.children[0], Node::text("hi"));
}

#[test]
fn parses_attributes() {
    let doc = parse("<div id=\"main\" class=\"a b\"></div>").unwrap();
    let root = doc.as_element().unwrap();
    let div = root.children[0].as_element().unwrap();
    assert_eq!(div.id(), Some("main"));
    assert_eq!(div.classes(), vec!["a", "b"]);
}

#[test]
fn handles_self_closing_and_void_tags() {
    let children = root_children("<br><img src=\"x.png\"/><input type=\"text\">");
    assert_eq!(children.len(), 3);
    assert_eq!(children[0].as_element().unwrap().tag_name, "br");
    assert!(children[0].as_element().unwrap().children.is_empty());
    assert_eq!(children[1].as_element().unwrap().tag_name, "img");
    assert_eq!(children[2].as_element().unwrap().tag_name, "input");
}

#[test]
fn recovers_from_unclosed_tag_without_panicking() {
    let doc = parse("<div><p>unclosed paragraph<div>next</div>").unwrap();
    let root = doc.as_element().unwrap();
    assert!(!root.children.is_empty());
}

#[test]
fn parses_comments_and_text() {
    let children = root_children("hello <!-- a comment --> world");
    assert_eq!(children.len(), 3);
    assert_eq!(children[0], Node::text("hello "));
    assert_eq!(children[1], Node::Comment(" a comment ".to_string()));
    assert_eq!(children[2], Node::text(" world"));
}
