use kaleidoscope::css::{parse, Color, Selector, SimpleSelector, Unit, Value};
use kaleidoscope::error::MAX_CSS_DEPTH;

fn length_px(v: &Value) -> Option<f32> {
    match v {
        Value::Length(n, Unit::Px) => n.parse::<f32>().ok(),
        _ => None,
    }
}

#[test]
fn parses_simple_rule() {
    let sheet = parse("div { width: 10px; color: #ff0000; }").unwrap();
    assert_eq!(sheet.rules.len(), 1);
    let rule = &sheet.rules[0];
    assert_eq!(rule.selectors[0].parts[0].tag, Some("div".to_string()));
    assert_eq!(rule.declarations[0].property, "width");
    assert_eq!(length_px(&rule.declarations[0].value), Some(10.0));
    assert_eq!(rule.declarations[1].value, Value::Color(Color::rgb(255, 0, 0)));
}

#[test]
fn parses_id_class_and_universal_selectors() {
    let sheet = parse("#main {} .item {} * {}").unwrap();
    assert_eq!(sheet.rules[0].selectors[0].parts[0].id, Some("main".to_string()));
    assert_eq!(sheet.rules[1].selectors[0].parts[0].classes, vec!["item"]);
    assert!(sheet.rules[2].selectors[0].parts[0].universal);
}

#[test]
fn specificity_orders_id_over_class_over_type() {
    let id_sel = Selector {
        parts: vec![SimpleSelector { id: Some("x".into()), ..Default::default() }],
    };
    let class_sel = Selector {
        parts: vec![SimpleSelector { classes: vec!["x".into()], ..Default::default() }],
    };
    let type_sel = Selector {
        parts: vec![SimpleSelector { tag: Some("div".into()), ..Default::default() }],
    };
    assert!(id_sel.specificity() > class_sel.specificity());
    assert!(class_sel.specificity() > type_sel.specificity());
}

#[test]
fn recovers_from_malformed_declaration() {
    let sheet = parse("div { not-a-real-decl ; color: blue; }").unwrap();
    let decls = &sheet.rules[0].declarations;
    assert_eq!(decls.len(), 1);
    assert_eq!(decls[0].property, "color");
}

#[test]
fn deeply_nested_rules_are_bounded() {
    let mut css = String::new();
    for _ in 0..(MAX_CSS_DEPTH + 10) {
        css.push_str("div{width:1px;} ");
    }
    assert!(parse(&css).is_ok());
}
