use kaleidoscope::css::{self, Unit, Value};
use kaleidoscope::html;
use kaleidoscope::style::style_tree;

fn to_px(v: &Value) -> Option<f32> {
    match v {
        Value::Length(n, Unit::Px) => n.parse::<f32>().ok(),
        Value::Keyword(k) if k == "0" => Some(0.0),
        _ => None,
    }
}

#[test]
fn attaches_computed_values_to_matching_nodes() {
    let dom = html::parse("<div class=\"box\"></div>").unwrap();
    let sheet = css::parse(".box { width: 50px; color: #112233; }").unwrap();
    let styled = style_tree(&dom, &sheet);
    let div = &styled.children[0];
    assert_eq!(to_px(div.value("width").unwrap()), Some(50.0));
    assert_eq!(div.value("color").unwrap().as_color(), Some(css::Color::rgb(0x11, 0x22, 0x33)));
}

#[test]
fn inline_style_overrides_stylesheet() {
    let dom = html::parse("<div class=\"box\" style=\"width: 5px;\"></div>").unwrap();
    let sheet = css::parse(".box { width: 50px; }").unwrap();
    let styled = style_tree(&dom, &sheet);
    let div = &styled.children[0];
    assert_eq!(to_px(div.value("width").unwrap()), Some(5.0));
}

#[test]
fn id_beats_class_beats_type_in_cascade() {
    let dom = html::parse("<div id=\"x\" class=\"y\"></div>").unwrap();
    let sheet = css::parse("div { color: red; } .y { color: green; } #x { color: blue; }").unwrap();
    let styled = style_tree(&dom, &sheet);
    let div = &styled.children[0];
    assert_eq!(div.value("color").unwrap().as_color(), Some(css::Color::rgb(0, 0, 255)));
}

#[test]
fn later_rule_of_equal_specificity_wins() {
    let dom = html::parse("<div class=\"a\"></div>").unwrap();
    let sheet = css::parse(".a { color: red; } .a { color: blue; }").unwrap();
    let styled = style_tree(&dom, &sheet);
    let div = &styled.children[0];
    assert_eq!(div.value("color").unwrap().as_color(), Some(css::Color::rgb(0, 0, 255)));
}
