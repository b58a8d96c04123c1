use kaleidoscope::error::MAX_DOM_DEPTH;
use kaleidoscope::html;

#[test]
fn pathological_nesting_returns_typed_error_not_panic() {
    let mut html_src = String::new();
    for _ in 0..(MAX_DOM_DEPTH + 50) {
        html_src.push_str("<div>");
    }
    let dom = html::parse(&html_src);
    assert!(dom.is_err());
}
