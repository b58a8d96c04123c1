# Kaleidoscope

A small browser rendering pipeline: an HTML parser, a CSS parser, the
cascade, block layout, and paint to PPM or PNG.

The library under `src/` is written in Verus. Each stage states what it
computes as a spec function over sequences and maps, and the executable code
is proved against it:

- `html.rs`, `html_spec.rs`, `html_laws.rs`: the tolerant HTML parser, the
  scan it performs, and what holds of every tree it builds.
- `css.rs`, `css_spec.rs`: the stylesheet parser and CSS values.
- `style.rs`, `style_spec.rs`: selector matching, the cascade (specificity,
  source order, inline styles) and inheritance, with the cascade's laws.
- `layout.rs`: which styled nodes become layout boxes.
- `paint.rs`, `png.rs`, `base64.rs`: the canvas, the PPM and PNG encoders,
  and base64 text.
- `dom.rs`, `text.rs`, `error.rs`: the tree, character helpers, errors and
  resource limits.

`app/` is the command line around it (`render`, `layout`, `snapshot`),
including box geometry and rasterization, which work in `f32` pixels.
