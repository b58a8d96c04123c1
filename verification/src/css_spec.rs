//! The mathematical meaning of the CSS parser and of CSS values.

use vstd::prelude::*;
use crate::css::{Color, Unit};
use crate::text::{is_white_space, is_ascii_alnum, is_ascii_alpha, is_ascii_digit, ascii_lower, ascii_lower_seq};

verus! {

pub open spec fn opaque(r: u8, g: u8, b: u8) -> Color {
    Color { r, g, b, a: 255 }
}

/// The value of an ASCII hex digit, or `None`.
pub open spec fn hex_digit(c: char) -> Option<u8> {
    if '0' <= c && c <= '9' {
        Some(((c as u32) - 48) as u8)
    } else if 'a' <= c && c <= 'f' {
        Some(((c as u32) - 87) as u8)
    } else if 'A' <= c && c <= 'F' {
        Some(((c as u32) - 55) as u8)
    } else {
        None
    }
}

/// Hex digits ignore case: a letter and its lowercase form are the same
/// digit, `a`..`f` (and so `A`..`F`) stand for 10 to 15, `0`..`9` for 0
/// to 9, and no other character is a digit.
pub proof fn lemma_hex_digit_ignores_case(c: char)
    ensures
        hex_digit(c) == hex_digit(ascii_lower(c)),
        'a' <= c <= 'f' ==> hex_digit(c) == Some(((c as u32) - ('a' as u32) + 10) as u8),
        'A' <= c <= 'F' ==> hex_digit(c) == Some(((c as u32) - ('A' as u32) + 10) as u8),
        '0' <= c <= '9' ==> hex_digit(c) == Some(((c as u32) - ('0' as u32)) as u8),
        hex_digit(c) is Some <==> ('0' <= c <= '9' || 'a' <= c <= 'f' || 'A' <= c <= 'F'),
{
    if 'A' <= c && c <= 'Z' {
        let l = ascii_lower(c);
        assert(l as u32 == (c as u32) + 32);
    }
}

/// A hex color reads the same in upper and lower case: `#FF0000` and
/// `#ff0000` are the same color.
pub proof fn lemma_hex_color_ignores_case(hex: Seq<char>)
    ensures
        spec_hex_color(hex) == spec_hex_color(ascii_lower_seq(hex)),
{
    let l = ascii_lower_seq(hex);
    assert forall|i: int| 0 <= i < hex.len() implies hex_digit(#[trigger] hex[i]) == hex_digit(l[i]) by {
        lemma_hex_digit_ignores_case(hex[i]);
    }
    if hex.len() == 3 {
        assert(hex_digit(hex[0]) == hex_digit(l[0]));
        assert(hex_digit(hex[1]) == hex_digit(l[1]));
        assert(hex_digit(hex[2]) == hex_digit(l[2]));
    } else if hex.len() == 6 {
        assert(hex_digit(hex[0]) == hex_digit(l[0]));
        assert(hex_digit(hex[1]) == hex_digit(l[1]));
        assert(hex_digit(hex[2]) == hex_digit(l[2]));
        assert(hex_digit(hex[3]) == hex_digit(l[3]));
        assert(hex_digit(hex[4]) == hex_digit(l[4]));
        assert(hex_digit(hex[5]) == hex_digit(l[5]));
    }
}

/// The byte written by two hex digits, high digit first.
pub open spec fn hex_pair(c0: char, c1: char) -> Option<u8> {
    match (hex_digit(c0), hex_digit(c1)) {
        (Some(h), Some(l)) => Some((h * 16 + l) as u8),
        _ => None,
    }
}

/// The color written `#rgb` or `#rrggbb` (the text after `#`), each
/// character a hex digit; `#rgb` doubles each digit. Anything else is no
/// color.
pub open spec fn spec_hex_color(hex: Seq<char>) -> Option<Color> {
    if hex.len() == 3 {
        match (hex_digit(hex[0]), hex_digit(hex[1]), hex_digit(hex[2])) {
            (Some(r), Some(g), Some(b)) => Some(opaque((r * 17) as u8, (g * 17) as u8, (b * 17) as u8)),
            _ => None,
        }
    } else if hex.len() == 6 {
        match (hex_pair(hex[0], hex[1]), hex_pair(hex[2], hex[3]), hex_pair(hex[4], hex[5])) {
            (Some(r), Some(g), Some(b)) => Some(opaque(r, g, b)),
            _ => None,
        }
    } else {
        None
    }
}

/// The named colors the engine knows.
pub open spec fn spec_named_color(name: Seq<char>) -> Option<Color> {
    if name == "black"@ {
        Some(opaque(0, 0, 0))
    } else if name == "white"@ {
        Some(opaque(255, 255, 255))
    } else if name == "red"@ {
        Some(opaque(255, 0, 0))
    } else if name == "green"@ {
        Some(opaque(0, 128, 0))
    } else if name == "blue"@ {
        Some(opaque(0, 0, 255))
    } else if name == "yellow"@ {
        Some(opaque(255, 255, 0))
    } else if name == "gray"@ || name == "grey"@ {
        Some(opaque(128, 128, 128))
    } else if name == "orange"@ {
        Some(opaque(255, 165, 0))
    } else if name == "purple"@ {
        Some(opaque(128, 0, 128))
    } else if name == "transparent"@ {
        Some(Color { r: 0, g: 0, b: 0, a: 0 })
    } else {
        None
    }
}

/// `s` without its leading `White_Space`.
pub open spec fn trim_start(s: Seq<char>) -> Seq<char>
    decreases s.len(),
{
    if s.len() > 0 && is_white_space(s[0]) {
        trim_start(s.drop_first())
    } else {
        s
    }
}

/// `s` without its trailing `White_Space`.
pub open spec fn trim_end(s: Seq<char>) -> Seq<char>
    decreases s.len(),
{
    if s.len() > 0 && is_white_space(s.last()) {
        trim_end(s.drop_last())
    } else {
        s
    }
}

/// `str::trim`.
pub open spec fn trim(s: Seq<char>) -> Seq<char> {
    trim_end(trim_start(s))
}

/// The first position at or after `i` that is not an ASCII digit.
pub open spec fn digits_end(t: Seq<char>, i: int) -> int
    decreases t.len() - i,
{
    if 0 <= i < t.len() && is_ascii_digit(t[i]) {
        digits_end(t, i + 1)
    } else {
        i
    }
}

/// The unsigned part of a decimal float literal:
/// `( Digit+ | Digit+ '.' Digit* | Digit* '.' Digit+ ) ( [eE] [+-]? Digit+ )?`.
pub open spec fn is_decimal_number(t: Seq<char>) -> bool {
    let d1 = digits_end(t, 0);
    let has_point = d1 < t.len() && t[d1] == '.';
    let mant_end = if has_point { digits_end(t, d1 + 1) } else { d1 };
    let has_digits = d1 > 0 || (has_point && mant_end > d1 + 1);
    if !has_digits {
        false
    } else if mant_end == t.len() {
        true
    } else if t[mant_end] == 'e' || t[mant_end] == 'E' {
        let k = if mant_end + 1 < t.len() && (t[mant_end + 1] == '+' || t[mant_end + 1] == '-') {
            mant_end + 2
        } else {
            mant_end + 1
        };
        digits_end(t, k) > k && digits_end(t, k) == t.len()
    } else {
        false
    }
}

/// The text that `f32::from_str` accepts, by the grammar its documentation
/// gives: an optional sign, then `inf`, `infinity` or `nan` in any case, or a
/// decimal number.
pub open spec fn is_float_literal(t: Seq<char>) -> bool {
    let u = if t.len() > 0 && (t[0] == '+' || t[0] == '-') { t.drop_first() } else { t };
    let l = ascii_lower_seq(u);
    l == "inf"@ || l == "infinity"@ || l == "nan"@ || is_decimal_number(u)
}

/// The mathematical value of a CSS value. A length keeps the text of its
/// number, which `f32::from_str` accepts.
pub enum ValueView {
    Keyword(Seq<char>),
    Length(Seq<char>, Unit),
    Color(Color),
}

/// What a raw declaration value parses to: `None` when it is empty or a
/// malformed `#` color.
pub open spec fn spec_parse_value(raw: Seq<char>) -> Option<ValueView> {
    let t = trim(raw);
    if t.len() == 0 {
        None
    } else if t[0] == '#' {
        match spec_hex_color(t.drop_first()) {
            Some(c) => Some(ValueView::Color(c)),
            None => None,
        }
    } else if t.len() >= 2 && t[t.len() - 2] == 'p' && t[t.len() - 1] == 'x'
        && is_float_literal(trim(t.subrange(0, t.len() - 2))) {
        Some(ValueView::Length(trim(t.subrange(0, t.len() - 2)), Unit::Px))
    } else if t == seq!['0'] {
        Some(ValueView::Length(seq!['0'], Unit::Px))
    } else {
        Some(ValueView::Keyword(t))
    }
}


/// Which characters a scan of CSS text keeps consuming.
#[derive(Clone, Copy)]
pub enum CssRun {
    /// `White_Space`.
    Space,
    /// ASCII letters and digits, `-` and `_`.
    Ident,
    /// Anything but `;` and `}`.
    Value,
}

pub open spec fn css_continues(k: CssRun, c: char) -> bool {
    match k {
        CssRun::Space => is_white_space(c),
        CssRun::Ident => is_ascii_alnum(c) || c == '-' || c == '_',
        CssRun::Value => c != ';' && c != '}',
    }
}

/// The first position at or after `i` whose character ends the run, or the
/// end of the input.
pub open spec fn css_run_end(s: Seq<char>, i: int, k: CssRun) -> int
    decreases s.len() - i,
{
    if 0 <= i < s.len() && css_continues(k, s[i]) {
        css_run_end(s, i + 1, k)
    } else {
        i
    }
}

pub proof fn lemma_css_run_end(s: Seq<char>, i: int, k: CssRun)
    requires
        0 <= i <= s.len(),
    ensures
        i <= css_run_end(s, i, k) <= s.len(),
        css_run_end(s, i, k) < s.len() ==> !css_continues(k, s[css_run_end(s, i, k)]),
        css_run_end(s, css_run_end(s, i, k), k) == css_run_end(s, i, k),
    decreases s.len() - i,
{
    if i < s.len() && css_continues(k, s[i]) {
        lemma_css_run_end(s, i + 1, k);
    }
}

/// The first position at or after `i` where `*/` starts, or the end of input.
pub open spec fn comment_close(s: Seq<char>, i: int) -> int
    decreases s.len() - i,
{
    if 0 <= i < s.len() && !(s[i] == '*' && i + 1 < s.len() && s[i + 1] == '/') {
        comment_close(s, i + 1)
    } else {
        i
    }
}

pub proof fn lemma_comment_close(s: Seq<char>, i: int)
    requires
        0 <= i <= s.len(),
    ensures
        i <= comment_close(s, i) <= s.len(),
    decreases s.len() - i,
{
    if i < s.len() && !(s[i] == '*' && i + 1 < s.len() && s[i + 1] == '/') {
        lemma_comment_close(s, i + 1);
    }
}

pub open spec fn bump(s: Seq<char>, i: int) -> int {
    if i < s.len() { i + 1 } else { i }
}

/// Skips whitespace and `/* ... */` comments from `i`.
pub open spec fn skip_ws_comments(s: Seq<char>, i: int) -> int
    decreases s.len() - i,
{
    if 0 <= i <= s.len() {
        let j = css_run_end(s, i, CssRun::Space);
        if j + 1 < s.len() && s[j] == '/' && s[j + 1] == '*' {
            let k = comment_close(s, j + 2);
            proof {
                lemma_css_run_end(s, i, CssRun::Space);
                lemma_comment_close(s, j + 2);
            }
            skip_ws_comments(s, bump(s, bump(s, k)))
        } else {
            j
        }
    } else {
        i
    }
}

pub proof fn lemma_skip_ws_comments(s: Seq<char>, i: int)
    requires
        0 <= i <= s.len(),
    ensures
        i <= skip_ws_comments(s, i) <= s.len(),
    decreases s.len() - i,
{
    let j = css_run_end(s, i, CssRun::Space);
    lemma_css_run_end(s, i, CssRun::Space);
    if j + 1 < s.len() && s[j] == '/' && s[j + 1] == '*' {
        lemma_comment_close(s, j + 2);
        let k = comment_close(s, j + 2);
        lemma_skip_ws_comments(s, bump(s, bump(s, k)));
    }
}

/// The mathematical value of a simple selector.
pub struct SimpleSelectorView {
    pub tag: Option<Seq<char>>,
    pub id: Option<Seq<char>>,
    pub classes: Seq<Seq<char>>,
    pub universal: bool,
}

pub open spec fn empty_simple() -> SimpleSelectorView {
    SimpleSelectorView { tag: None, id: None, classes: seq![], universal: false }
}

pub open spec fn is_empty_simple(x: SimpleSelectorView) -> bool {
    x.tag is None && x.id is None && x.classes.len() == 0 && !x.universal
}

pub open spec fn is_selector_start(c: char) -> bool {
    c == '*' || c == '#' || c == '.' || is_ascii_alpha(c) || c == '_' || c == '-'
}

/// Reads the simple selector at `i` (`*`, `#id`, `.class` and tag names
/// in any order), adding to `acc`.
pub open spec fn simple_from(s: Seq<char>, i: int, acc: SimpleSelectorView) -> (int, SimpleSelectorView)
    decreases s.len() - i,
{
    if 0 <= i < s.len() {
        let c = s[i];
        if c == '*' {
            simple_from(s, i + 1, SimpleSelectorView { universal: true, ..acc })
        } else if c == '#' {
            let e = css_run_end(s, i + 1, CssRun::Ident);
            proof { lemma_css_run_end(s, i + 1, CssRun::Ident); }
            simple_from(s, e, SimpleSelectorView { id: Some(s.subrange(i + 1, e)), ..acc })
        } else if c == '.' {
            let e = css_run_end(s, i + 1, CssRun::Ident);
            proof { lemma_css_run_end(s, i + 1, CssRun::Ident); }
            simple_from(s, e, SimpleSelectorView { classes: acc.classes.push(s.subrange(i + 1, e)), ..acc })
        } else if is_ascii_alpha(c) || c == '_' || c == '-' {
            let e = css_run_end(s, i, CssRun::Ident);
            proof { lemma_css_run_end(s, i + 1, CssRun::Ident); }
            simple_from(s, e, SimpleSelectorView { tag: Some(ascii_lower_seq(s.subrange(i, e))), ..acc })
        } else {
            (i, acc)
        }
    } else {
        (i, acc)
    }
}

pub proof fn lemma_simple_from(s: Seq<char>, i: int, acc: SimpleSelectorView)
    requires
        0 <= i <= s.len(),
    ensures
        i <= simple_from(s, i, acc).0 <= s.len(),
        simple_from(s, i, acc).0 == i && i < s.len() ==> !is_selector_start(s[i]),
    decreases s.len() - i,
{
    if i < s.len() {
        let c = s[i];
        if c == '*' {
            lemma_simple_from(s, i + 1, SimpleSelectorView { universal: true, ..acc });
        } else if c == '#' {
            let e = css_run_end(s, i + 1, CssRun::Ident);
            lemma_css_run_end(s, i + 1, CssRun::Ident);
            lemma_simple_from(s, e, SimpleSelectorView { id: Some(s.subrange(i + 1, e)), ..acc });
        } else if c == '.' {
            let e = css_run_end(s, i + 1, CssRun::Ident);
            lemma_css_run_end(s, i + 1, CssRun::Ident);
            lemma_simple_from(s, e, SimpleSelectorView { classes: acc.classes.push(s.subrange(i + 1, e)), ..acc });
        } else if is_ascii_alpha(c) || c == '_' || c == '-' {
            let e = css_run_end(s, i, CssRun::Ident);
            lemma_css_run_end(s, i + 1, CssRun::Ident);
            lemma_simple_from(s, e, SimpleSelectorView { tag: Some(ascii_lower_seq(s.subrange(i, e))), ..acc });
        }
    }
}

/// Reads a selector at `i`: simple selectors separated by whitespace (the
/// descendant combinator), adding the non-empty ones to `parts`. Gives the
/// position after the last simple selector.
pub open spec fn selector_from(s: Seq<char>, i: int, parts: Seq<SimpleSelectorView>) -> (int, Seq<SimpleSelectorView>)
    decreases s.len() - i,
{
    if 0 <= i <= s.len() {
        let j = css_run_end(s, i, CssRun::Space);
        let (k, simple) = simple_from(s, j, empty_simple());
        let parts2 = if is_empty_simple(simple) { parts } else { parts.push(simple) };
        let m = css_run_end(s, k, CssRun::Space);
        proof {
            lemma_css_run_end(s, i, CssRun::Space);
            lemma_simple_from(s, j, empty_simple());
            lemma_css_run_end(s, k, CssRun::Space);
        }
        if m < s.len() && is_selector_start(s[m]) && k > i {
            selector_from(s, m, parts2)
        } else {
            (k, parts2)
        }
    } else {
        (i, parts)
    }
}

pub proof fn lemma_selector_from(s: Seq<char>, i: int, parts: Seq<SimpleSelectorView>)
    requires
        0 <= i <= s.len(),
    ensures
        i <= selector_from(s, i, parts).0 <= s.len(),
        selector_from(s, i, parts).1.len() >= parts.len(),
    decreases s.len() - i,
{
    let j = css_run_end(s, i, CssRun::Space);
    lemma_css_run_end(s, i, CssRun::Space);
    lemma_simple_from(s, j, empty_simple());
    let (k, simple) = simple_from(s, j, empty_simple());
    let parts2 = if is_empty_simple(simple) { parts } else { parts.push(simple) };
    lemma_css_run_end(s, k, CssRun::Space);
    let m = css_run_end(s, k, CssRun::Space);
    if m < s.len() && is_selector_start(s[m]) && k > i {
        lemma_selector_from(s, m, parts2);
    }
}

/// Reads a comma-separated list of selectors at `i`, adding to `acc`;
/// `None` when one of them is empty.
pub open spec fn selector_list_from(s: Seq<char>, i: int, acc: Seq<Seq<SimpleSelectorView>>) -> Option<(int, Seq<Seq<SimpleSelectorView>>)>
    decreases s.len() - i,
{
    if 0 <= i <= s.len() {
        let j = skip_ws_comments(s, i);
        let (k, parts) = selector_from(s, j, seq![]);
        if parts.len() == 0 {
            None
        } else {
            let m = skip_ws_comments(s, k);
            proof {
                lemma_skip_ws_comments(s, i);
                lemma_selector_from(s, j, seq![]);
                lemma_skip_ws_comments(s, k);
            }
            if m < s.len() && s[m] == ',' {
                selector_list_from(s, m + 1, acc.push(parts))
            } else {
                Some((m, acc.push(parts)))
            }
        }
    } else {
        None
    }
}

pub proof fn lemma_selector_list_from(s: Seq<char>, i: int, acc: Seq<Seq<SimpleSelectorView>>)
    requires
        0 <= i <= s.len(),
    ensures
        selector_list_from(s, i, acc) matches Some((k, _)) ==> i <= k <= s.len(),
    decreases s.len() - i,
{
    let j = skip_ws_comments(s, i);
    lemma_skip_ws_comments(s, i);
    lemma_selector_from(s, j, seq![]);
    let (k, parts) = selector_from(s, j, seq![]);
    if parts.len() != 0 {
        lemma_skip_ws_comments(s, k);
        let m = skip_ws_comments(s, k);
        if m < s.len() && s[m] == ',' {
            lemma_selector_list_from(s, m + 1, acc.push(parts));
        }
    }
}

pub struct DeclarationView {
    pub property: Seq<char>,
    pub value: ValueView,
}

/// The properties the engine reads; a declaration of any other is skipped.
pub open spec fn is_known_property(p: Seq<char>) -> bool {
    ||| p == "display"@
    ||| p == "width"@
    ||| p == "height"@
    ||| p == "margin"@
    ||| p == "padding"@
    ||| p == "border-width"@
    ||| p == "border-color"@
    ||| p == "background"@
    ||| p == "background-color"@
    ||| p == "color"@
    ||| p == "font-size"@
}

/// Reads declarations at `i` up to the closing `}` or the end of input.
/// A declaration without `:` is skipped up to the next `;` or `}`; one whose
/// value does not parse, or whose property the engine does not know, is
/// dropped.
pub open spec fn decls_from(s: Seq<char>, i: int, acc: Seq<DeclarationView>) -> (int, Seq<DeclarationView>)
    decreases s.len() - i,
{
    if 0 <= i <= s.len() {
        let j = skip_ws_comments(s, i);
        proof { lemma_skip_ws_comments(s, i); }
        if j >= s.len() || s[j] == '}' {
            (j, acc)
        } else if s[j] == ';' {
            decls_from(s, j + 1, acc)
        } else {
            let pe = css_run_end(s, j, CssRun::Ident);
            let property = ascii_lower_seq(s.subrange(j, pe));
            let k = skip_ws_comments(s, pe);
            proof {
                lemma_css_run_end(s, j, CssRun::Ident);
                lemma_skip_ws_comments(s, pe);
            }
            if !(k < s.len() && s[k] == ':') {
                let q = css_run_end(s, k, CssRun::Value);
                proof { lemma_css_run_end(s, k, CssRun::Value); }
                decls_from(s, q, acc)
            } else {
                let v0 = skip_ws_comments(s, k + 1);
                proof { lemma_skip_ws_comments(s, k + 1); }
                let ve = css_run_end(s, v0, CssRun::Value);
                proof { lemma_css_run_end(s, v0, CssRun::Value); }
                let acc2 = match spec_parse_value(trim(s.subrange(v0, ve))) {
                    Some(v) => if is_known_property(property) {
                        acc.push(DeclarationView { property, value: v })
                    } else {
                        acc
                    },
                    None => acc,
                };
                let after = skip_ws_comments(s, ve);
                proof { lemma_skip_ws_comments(s, ve); }
                let next = if after < s.len() && s[after] == ';' { after + 1 } else { after };
                decls_from(s, next, acc2)
            }
        }
    } else {
        (i, acc)
    }
}

pub proof fn lemma_decls_from(s: Seq<char>, i: int, acc: Seq<DeclarationView>)
    requires
        0 <= i <= s.len(),
    ensures
        i <= decls_from(s, i, acc).0 <= s.len(),
    decreases s.len() - i,
{
    let j = skip_ws_comments(s, i);
    lemma_skip_ws_comments(s, i);
    if !(j >= s.len() || s[j] == '}') {
        if s[j] == ';' {
            lemma_decls_from(s, j + 1, acc);
        } else {
            let pe = css_run_end(s, j, CssRun::Ident);
            let property = ascii_lower_seq(s.subrange(j, pe));
            lemma_css_run_end(s, j, CssRun::Ident);
            lemma_skip_ws_comments(s, pe);
            let k = skip_ws_comments(s, pe);
            if !(k < s.len() && s[k] == ':') {
                lemma_css_run_end(s, k, CssRun::Value);
                lemma_decls_from(s, css_run_end(s, k, CssRun::Value), acc);
            } else {
                let v0 = skip_ws_comments(s, k + 1);
                lemma_skip_ws_comments(s, k + 1);
                let ve = css_run_end(s, v0, CssRun::Value);
                lemma_css_run_end(s, v0, CssRun::Value);
                let acc2 = match spec_parse_value(trim(s.subrange(v0, ve))) {
                    Some(v) => if is_known_property(property) {
                        acc.push(DeclarationView { property, value: v })
                    } else {
                        acc
                    },
                    None => acc,
                };
                let after = skip_ws_comments(s, ve);
                lemma_skip_ws_comments(s, ve);
                let next = if after < s.len() && s[after] == ';' { after + 1 } else { after };
                lemma_decls_from(s, next, acc2);
            }
        }
    }
}

pub struct RuleView {
    pub selectors: Seq<Seq<SimpleSelectorView>>,
    pub declarations: Seq<DeclarationView>,
}

/// Reads one rule at `i`: a selector list, `{`, declarations, `}`. The
/// error is the message of the `InvalidCss` the parser reports.
pub open spec fn rule_at(s: Seq<char>, i: int) -> Result<(int, RuleView), Seq<char>> {
    match selector_list_from(s, i, seq![]) {
        None => Err("empty selector"@),
        Some((k, sels)) => {
            let m = skip_ws_comments(s, k);
            if !(m < s.len() && s[m] == '{') {
                Err("expected '{' after selector"@)
            } else {
                let (d, decls) = decls_from(s, m + 1, seq![]);
                let e = skip_ws_comments(s, d);
                let after = if e < s.len() && s[e] == '}' { e + 1 } else { e };
                Ok((after, RuleView { selectors: sels, declarations: decls }))
            }
        },
    }
}

pub proof fn lemma_rule_at(s: Seq<char>, i: int)
    requires
        0 <= i <= s.len(),
    ensures
        rule_at(s, i) matches Ok((k, _)) ==> i < k <= s.len(),
{
    lemma_selector_list_from(s, i, seq![]);
    if let Some((k, sels)) = selector_list_from(s, i, seq![]) {
        lemma_skip_ws_comments(s, k);
        let m = skip_ws_comments(s, k);
        if m < s.len() && s[m] == '{' {
            lemma_decls_from(s, m + 1, seq![]);
            let (d, decls) = decls_from(s, m + 1, seq![]);
            lemma_skip_ws_comments(s, d);
        }
    }
}

/// Reads rules from `i` to the end of input, adding to `acc`; the first
/// malformed rule makes the whole stylesheet an error.
pub open spec fn rules_from(s: Seq<char>, i: int, acc: Seq<RuleView>) -> Result<Seq<RuleView>, Seq<char>>
    decreases s.len() - i,
{
    if 0 <= i <= s.len() {
        let j = skip_ws_comments(s, i);
        proof { lemma_skip_ws_comments(s, i); }
        if j >= s.len() {
            Ok(acc)
        } else {
            match rule_at(s, j) {
                Err(e) => Err(e),
                Ok((k, r)) => {
                    proof { lemma_rule_at(s, j); }
                    rules_from(s, k, acc.push(r))
                },
            }
        }
    } else {
        Ok(acc)
    }
}

/// What `css::parse` gives for the characters `s`: the rules, or the message
/// of the `InvalidCss` error.
pub open spec fn spec_parse_css(s: Seq<char>) -> Result<Seq<RuleView>, Seq<char>> {
    rules_from(s, 0, seq![])
}

} // verus!
