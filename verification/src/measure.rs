use vstd::prelude::*;

use crate::glyph::{ends_fit, glyph_end, left_to_right, Glyph};

verus! {

/// The horizontal pixel extent of a layout: where the last glyph's ink ends,
/// or the last glyph's position when it has no ink; 0 for an empty layout.
pub open spec fn measure_spec(s: Seq<Glyph>) -> int {
    if s.len() == 0 {
        0
    } else {
        glyph_end(s.last())
    }
}

/// Walks the layout tracking a running finish: each glyph's position, plus
/// its bounding-box width when it has one. After the last glyph the finish
/// is the width the text occupies when drawn from x = 0.
pub fn measure(glyphs: &Vec<Glyph>) -> (width: u32)
    requires
        ends_fit(glyphs@),
    ensures
        width == measure_spec(glyphs@),
{
    let mut finish: u32 = 0;
    let mut i: usize = 0;
    while i < glyphs.len()
        invariant
            i <= glyphs@.len(),
            ends_fit(glyphs@),
            finish == measure_spec(glyphs@.take(i as int)),
        decreases glyphs@.len() - i,
    {
        let g = glyphs[i];
        assert(glyph_end(glyphs@[i as int]) <= u32::MAX);
        finish = g.x;
        if let Some(w) = g.ink {
            finish = finish + w;
        }
        assert(glyphs@.take(i as int + 1).last() == glyphs@[i as int]);
        i = i + 1;
    }
    assert(glyphs@.take(glyphs@.len() as int) == glyphs@);
    finish
}

/// Monotonic widening: in a left-to-right layout, a longer prefix never
/// measures narrower than a shorter one. In particular, the layout of a text
/// extended by further characters measures at least the layout of the text
/// alone.
pub proof fn lemma_measure_monotonic(s: Seq<Glyph>, i: int, j: int)
    requires
        left_to_right(s),
        0 <= i <= j <= s.len(),
    ensures
        measure_spec(s.take(i)) <= measure_spec(s.take(j)),
    decreases j - i,
{
    if i < j {
        lemma_measure_monotonic(s, i, j - 1);
        assert(s.take(j).last() == s[j - 1]);
        if j - 1 > 0 {
            assert(s.take(j - 1).last() == s[j - 2]);
            assert(glyph_end(s[j - 2]) <= s[j - 1].x);
        }
    }
}

} // verus!
