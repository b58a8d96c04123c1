//! Kaleidoscope: a small browser rendering pipeline. The verified library
//! holds the HTML parser, the CSS parser, the cascade, the PPM and PNG
//! encoders, and the character-level helpers they share.

pub mod error;
pub mod text;
pub mod dom;
pub mod html_spec;
pub mod html;
pub mod html_laws;
pub mod css_spec;
pub mod css;
pub mod style_spec;
pub mod style;
pub mod paint;
pub mod png;
pub mod base64;
pub mod layout;
