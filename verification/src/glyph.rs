use vstd::prelude::*;

verus! {

/// One positioned glyph of a text layout, as the layout engine reports it:
/// the horizontal pixel offset of the glyph from the layout origin, and the
/// width of its pixel bounding box — `None` for glyphs with no visible ink
/// (whitespace, zero-width or undrawable characters).
#[derive(Clone, Copy, Debug)]
pub struct Glyph {
    pub x: u32,
    pub ink: Option<u32>,
}

/// The width of the glyph's pixel bounding box; a glyph without one
/// contributes no ink.
pub open spec fn ink_width(g: Glyph) -> int {
    match g.ink {
        Some(w) => w as int,
        None => 0,
    }
}

/// A glyph without a pixel bounding box marks a word boundary.
pub open spec fn is_boundary(g: Glyph) -> bool {
    g.ink is None
}

/// Where the glyph's ink ends: its position plus its bounding-box width.
pub open spec fn glyph_end(g: Glyph) -> int {
    g.x + ink_width(g)
}

/// Machine limit: every glyph's ink end fits in `u32`.
pub open spec fn ends_fit(s: Seq<Glyph>) -> bool {
    forall|i: int| 0 <= i < s.len() ==> glyph_end(#[trigger] s[i]) <= u32::MAX
}

/// A layout laid out left to right: each glyph's ink ends at or before the
/// next glyph's position.
pub open spec fn left_to_right(s: Seq<Glyph>) -> bool {
    forall|i: int| 0 <= i < s.len() - 1 ==> glyph_end(#[trigger] s[i]) <= s[i + 1].x
}

} // verus!
