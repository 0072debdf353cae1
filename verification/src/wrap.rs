use vstd::prelude::*;
use vstd::string::StrSliceExecFns;

use crate::glyph::{glyph_end, is_boundary, Glyph};
use crate::measure::measure_spec;

verus! {

/// Accumulator of the streaming wrap pass: the lines emitted so far (as
/// character spans of the caption), the pending line, and where the word
/// currently being scanned starts. Widths are not accumulated: the glyph
/// positions of the layout already carry them pixel-exactly.
pub ghost struct WrapState {
    /// Spans `(start, end)` of the lines already emitted, in order.
    pub lines: Seq<(int, int)>,
    /// Character index where the pending line starts.
    pub lsi: int,
    /// Character index just past the last word committed to the pending line.
    pub pend_end: int,
    /// Whether any word has been committed to the pending line yet.
    pub has_word: bool,
    /// Character index where the word currently being scanned starts.
    pub cws: int,
}

pub open spec fn wrap_init() -> WrapState {
    WrapState { lines: Seq::empty(), lsi: 0, pend_end: 0, has_word: false, cws: 0 }
}

/// The horizontal pixel extent the span `[a, b)` of the caption's layout
/// occupies: where the span's last glyph's ink ends, minus where the span's
/// first glyph stands. This is the width the span measures when drawn from
/// its own start, and it counts every advance inside the span — spaces and
/// kerning included — exactly as the glyph positions record them.
pub open spec fn span_extent(s: Seq<Glyph>, a: int, b: int) -> int {
    glyph_end(s[b - 1]) - s[a].x
}

/// A line is in budget unless it consists of a single unbreakable word.
pub open spec fn line_ok(s: Seq<Glyph>, max: int, sp: (int, int)) -> bool {
    no_boundary(s, sp.0, sp.1) || span_extent(s, sp.0, sp.1) <= max
}

/// A completed word `[ws, we)` is committed: it starts the pending line if
/// that line is empty, joins it if the extended line's pixel extent still
/// fits the budget, and otherwise the pending line is emitted and the word
/// starts a new one. The very first word starts its line directly, so on
/// its own it never forces a line break.
pub open spec fn commit_word(s: Seq<Glyph>, st: WrapState, ws: int, we: int, max: int) -> WrapState {
    if !st.has_word {
        WrapState { lines: st.lines, lsi: ws, pend_end: we, has_word: true, cws: st.cws }
    } else if span_extent(s, st.lsi, we) > max {
        WrapState {
            lines: st.lines.push((st.lsi, st.pend_end)),
            lsi: ws,
            pend_end: we,
            has_word: true,
            cws: st.cws,
        }
    } else {
        WrapState { lines: st.lines, lsi: st.lsi, pend_end: we, has_word: true, cws: st.cws }
    }
}

/// One glyph of the layout is consumed. A glyph with ink extends the current
/// word, which needs no bookkeeping beyond its indices; a boundary glyph
/// closes it (a boundary right after another boundary closes no word, so
/// runs of whitespace emit no spurious lines).
pub open spec fn wrap_step(s: Seq<Glyph>, st: WrapState, i: int, max: int) -> WrapState {
    match s[i].ink {
        Some(_) => st,
        None => {
            if st.cws == i {
                WrapState {
                    lines: st.lines,
                    lsi: st.lsi,
                    pend_end: st.pend_end,
                    has_word: st.has_word,
                    cws: i + 1,
                }
            } else {
                let st2 = commit_word(s, st, st.cws, i, max);
                WrapState {
                    lines: st2.lines,
                    lsi: st2.lsi,
                    pend_end: st2.pend_end,
                    has_word: st2.has_word,
                    cws: i + 1,
                }
            }
        },
    }
}

/// After the last glyph: a word the text ended in is committed like any
/// other (so trailing text is never dropped), and the pending line, if any,
/// is emitted.
pub open spec fn wrap_close(s: Seq<Glyph>, st: WrapState, n: int, max: int) -> Seq<(int, int)> {
    let st2 = if st.cws < n {
        commit_word(s, st, st.cws, n, max)
    } else {
        st
    };
    if st2.has_word {
        st2.lines.push((st2.lsi, st2.pend_end))
    } else {
        st2.lines
    }
}

/// The whole pass from glyph `i` on, starting in state `st`.
pub open spec fn wrap_from(s: Seq<Glyph>, max: int, i: int, st: WrapState) -> Seq<(int, int)>
    decreases s.len() - i,
{
    if i >= s.len() {
        wrap_close(s, st, s.len() as int, max)
    } else {
        wrap_from(s, max, i + 1, wrap_step(s, st, i, max))
    }
}

/// The character spans of the lines that greedy wrapping of a layout at the
/// given maximum pixel width produces.
pub open spec fn wrap_spans(s: Seq<Glyph>, max: int) -> Seq<(int, int)> {
    wrap_from(s, max, 0, wrap_init())
}

pub open spec fn valid_span(sp: (int, int), n: int) -> bool {
    0 <= sp.0 <= sp.1 <= n
}

/// The text of a line: the caption's characters over the line's span.
pub open spec fn line_text(t: Seq<char>, sp: (int, int)) -> Seq<char> {
    t.subrange(sp.0, sp.1)
}

/// Greedy word wrap: a single pass over the glyph layout of the caption.
/// Words are runs of glyphs with ink; a glyph without ink is a word
/// boundary. Each completed word joins the current line when the line's
/// pixel extent up to the word's last glyph — taken from the glyph
/// positions, so space advances and kerning count — still fits the budget,
/// and otherwise starts a new line; a single word wider than the budget is
/// never split. Lines are returned as substrings of the caption, spanning
/// from their first word's first character to their last word's last
/// character, so no line starts or ends in whitespace and leading or
/// trailing whitespace of the caption never reaches a line.
pub fn wrap(text: &str, glyphs: &Vec<Glyph>, max_width: u32) -> (lines: Vec<String>)
    requires
        glyphs@.len() == text@.len(),
    ensures
        ({
            let spans = wrap_spans(glyphs@, max_width as int);
            &&& lines@.len() == spans.len()
            &&& forall|k: int|
                0 <= k < spans.len() ==> valid_span(#[trigger] spans[k], text@.len() as int)
            &&& forall|k: int|
                0 <= k < spans.len() ==> (#[trigger] lines@[k])@ == line_text(text@, spans[k])
        }),
{
    let ghost g = glyphs@;
    let ghost w_max = max_width as int;
    let n = glyphs.len();
    let mut lines: Vec<String> = Vec::new();
    let mut lsi: usize = 0;
    let mut pend_end: usize = 0;
    let mut has_word: bool = false;
    let mut cws: usize = 0;
    let ghost mut st = wrap_init();
    let mut i: usize = 0;
    while i < n
        invariant
            glyphs@ == g,
            w_max == max_width as int,
            text@.len() == g.len(),
            n == g.len(),
            lsi <= pend_end <= cws <= i <= n,
            st.lsi == lsi as int,
            st.pend_end == pend_end as int,
            st.has_word == has_word,
            st.cws == cws as int,
            st.lines.len() == lines@.len(),
            forall|k: int|
                0 <= k < st.lines.len() ==> valid_span(#[trigger] st.lines[k], g.len() as int),
            forall|k: int|
                0 <= k < st.lines.len() ==> (#[trigger] lines@[k])@ == line_text(
                    text@,
                    st.lines[k],
                ),
            wrap_from(g, w_max, i as int, st) == wrap_spans(g, w_max),
        decreases n - i,
    {
        let gl = glyphs[i];
        proof {
            assert(wrap_from(g, w_max, i as int, st) == wrap_from(
                g,
                w_max,
                i as int + 1,
                wrap_step(g, st, i as int, w_max),
            ));
        }
        match gl.ink {
            Some(_) => {},
            None => {
                if cws == i {
                    cws = i + 1;
                } else {
                    if !has_word {
                        lsi = cws;
                        pend_end = i;
                        has_word = true;
                    } else {
                        let last = glyphs[i - 1];
                        let end_w: u64 = last.x as u64 + match last.ink {
                            Some(w) => w as u64,
                            None => 0u64,
                        };
                        if end_w > glyphs[lsi].x as u64 + max_width as u64 {
                            let line = text.substring_char(lsi, pend_end);
                            lines.push(line.to_owned());
                            lsi = cws;
                            pend_end = i;
                        } else {
                            pend_end = i;
                        }
                    }
                    cws = i + 1;
                }
            },
        }
        proof {
            st = wrap_step(g, st, i as int, w_max);
        }
        i = i + 1;
    }
    proof {
        assert(wrap_from(g, w_max, n as int, st) == wrap_close(g, st, g.len() as int, w_max));
    }
    if cws < n {
        if !has_word {
            lsi = cws;
            pend_end = n;
            has_word = true;
        } else {
            let last = glyphs[n - 1];
            let end_w: u64 = last.x as u64 + match last.ink {
                Some(w) => w as u64,
                None => 0u64,
            };
            if end_w > glyphs[lsi].x as u64 + max_width as u64 {
                let line = text.substring_char(lsi, pend_end);
                lines.push(line.to_owned());
                lsi = cws;
                pend_end = n;
            } else {
                pend_end = n;
            }
        }
        proof {
            st = commit_word(g, st, st.cws, n as int, w_max);
        }
    }
    if has_word {
        let line = text.substring_char(lsi, pend_end);
        lines.push(line.to_owned());
    }
    lines
}

/// No glyph in `[a, b)` is a boundary: the range lies within one word.
pub open spec fn no_boundary(s: Seq<Glyph>, a: int, b: int) -> bool {
    forall|j: int| a <= j < b ==> !is_boundary(#[trigger] s[j])
}

/// Every glyph in `[a, b)` is a boundary: the range is whitespace only.
pub open spec fn all_boundary(s: Seq<Glyph>, a: int, b: int) -> bool {
    forall|j: int| a <= j < b ==> is_boundary(#[trigger] s[j])
}

/// Caption position `j` lies inside one of the spans.
#[verifier::opaque]
pub open spec fn covered(spans: Seq<(int, int)>, j: int) -> bool {
    exists|k: int| 0 <= k < spans.len() && (#[trigger] spans[k]).0 <= j < spans[k].1
}

/// The spans are nonempty, in strictly increasing order with at least one
/// glyph between consecutive ones, start and end on glyphs with ink, and
/// each is in budget unless it is a single word.
pub open spec fn lines_ok(s: Seq<Glyph>, max: int, spans: Seq<(int, int)>) -> bool {
    &&& forall|k: int| 0 <= k < spans.len() ==> 0 <= (#[trigger] spans[k]).0 < spans[k].1 <= s.len()
    &&& forall|k: int|
        0 <= k < spans.len() ==> !is_boundary(s[(#[trigger] spans[k]).0]) && !is_boundary(
            s[spans[k].1 - 1],
        )
    &&& forall|k: int| 0 <= k < spans.len() ==> line_ok(s, max, #[trigger] spans[k])
    &&& forall|k: int| 0 <= k < spans.len() - 1 ==> (#[trigger] spans[k]).1 < spans[k + 1].0
}

/// Everything `lines_ok` says, and in addition every glyph with ink lies in
/// some line: dropping only whitespace, in order, nothing else.
pub open spec fn spans_ok(s: Seq<Glyph>, max: int, spans: Seq<(int, int)>) -> bool {
    &&& lines_ok(s, max, spans)
    &&& forall|j: int| 0 <= j < s.len() && !is_boundary(#[trigger] s[j]) ==> covered(spans, j)
}

/// During the pass, position `j` is accounted for: in an emitted line, in
/// the pending line, or in the word currently being scanned.
pub open spec fn in_progress(st: WrapState, i: int, j: int) -> bool {
    ||| covered(st.lines, j)
    ||| (st.has_word && st.lsi <= j < st.pend_end)
    ||| (st.cws <= j < i)
}

/// The invariant the wrap state keeps while the pass stands before glyph `i`.
pub open spec fn st_inv(s: Seq<Glyph>, max: int, i: int, st: WrapState) -> bool {
    &&& 0 <= st.lsi <= st.pend_end <= st.cws <= i <= s.len()
    &&& no_boundary(s, st.cws, i)
    &&& lines_ok(s, max, st.lines)
    &&& st.lines.len() > 0 ==> st.has_word && st.lines.last().1 < st.lsi
    &&& st.has_word ==> st.lsi < st.pend_end < st.cws && !is_boundary(s[st.lsi]) && !is_boundary(
        s[st.pend_end - 1],
    ) && all_boundary(s, st.pend_end, st.cws) && line_ok(s, max, (st.lsi, st.pend_end))
    &&& !st.has_word ==> st.lsi == 0 && st.pend_end == 0 && st.lines.len() == 0 && all_boundary(
        s,
        0,
        st.cws,
    )
    &&& forall|j: int| 0 <= j < i && !is_boundary(#[trigger] s[j]) ==> in_progress(st, i, j)
}

/// A position known to be covered has a span index as witness.
proof fn lemma_covered_witness(spans: Seq<(int, int)>, j: int) -> (k: int)
    requires
        covered(spans, j),
    ensures
        0 <= k < spans.len() && spans[k].0 <= j < spans[k].1,
{
    reveal(covered);
    choose|k: int| 0 <= k < spans.len() && (#[trigger] spans[k]).0 <= j < spans[k].1
}

proof fn lemma_covered_push(spans: Seq<(int, int)>, sp: (int, int), j: int)
    requires
        covered(spans, j) || sp.0 <= j < sp.1,
    ensures
        covered(spans.push(sp), j),
{
    reveal(covered);
    if covered(spans, j) {
        let k = choose|k: int| 0 <= k < spans.len() && (#[trigger] spans[k]).0 <= j < spans[k].1;
        assert(spans.push(sp)[k] == spans[k]);
    } else {
        assert(spans.push(sp)[spans.len() as int] == sp);
    }
}

/// Appending a fresh line that starts after the last one keeps `lines_ok`.
proof fn lemma_lines_ok_push(s: Seq<Glyph>, max: int, spans: Seq<(int, int)>, sp: (int, int))
    requires
        lines_ok(s, max, spans),
        0 <= sp.0 < sp.1 <= s.len(),
        !is_boundary(s[sp.0]),
        !is_boundary(s[sp.1 - 1]),
        line_ok(s, max, sp),
        spans.len() > 0 ==> spans.last().1 < sp.0,
    ensures
        lines_ok(s, max, spans.push(sp)),
{
    let out = spans.push(sp);
    assert(out[spans.len() as int] == sp);
    assert forall|k: int| 0 <= k < out.len() implies 0 <= (#[trigger] out[k]).0 < out[k].1
        <= s.len() by {
        if k < spans.len() {
            assert(out[k] == spans[k]);
        }
    }
    assert forall|k: int| 0 <= k < out.len() implies !is_boundary(s[(#[trigger] out[k]).0])
        && !is_boundary(s[out[k].1 - 1]) by {
        if k < spans.len() {
            assert(out[k] == spans[k]);
        }
    }
    assert forall|k: int| 0 <= k < out.len() implies line_ok(s, max, #[trigger] out[k]) by {
        if k < spans.len() {
            assert(out[k] == spans[k]);
        }
    }
    assert forall|k: int| 0 <= k < out.len() - 1 implies (#[trigger] out[k]).1 < out[k + 1].0 by {
        assert(out[k] == spans[k]);
        if k < spans.len() - 1 {
            assert(out[k + 1] == spans[k + 1]);
        } else {
            assert(spans.last() == spans[k]);
        }
    }
}

proof fn lemma_step_ink(s: Seq<Glyph>, max: int, i: int, st: WrapState, w: u32)
    requires
        st_inv(s, max, i, st),
        0 <= i < s.len(),
        s[i].ink == Some(w),
    ensures
        st_inv(s, max, i + 1, wrap_step(s, st, i, max)),
{
    let st1 = wrap_step(s, st, i, max);
    assert forall|j: int| 0 <= j < i + 1 && !is_boundary(#[trigger] s[j]) implies in_progress(
        st1,
        i + 1,
        j,
    ) by {
        if j < i {
            assert(in_progress(st, i, j));
        }
    }
}

proof fn lemma_step_gap(s: Seq<Glyph>, max: int, i: int, st: WrapState)
    requires
        st_inv(s, max, i, st),
        0 <= i < s.len(),
        s[i].ink is None,
        st.cws == i,
    ensures
        st_inv(s, max, i + 1, wrap_step(s, st, i, max)),
{
    let st1 = wrap_step(s, st, i, max);
    assert forall|j: int| 0 <= j < i + 1 && !is_boundary(#[trigger] s[j]) implies in_progress(
        st1,
        i + 1,
        j,
    ) by {
        assert(j != i);
        assert(in_progress(st, i, j));
    }
}

proof fn lemma_step_commit_first(s: Seq<Glyph>, max: int, i: int, st: WrapState)
    requires
        st_inv(s, max, i, st),
        0 <= i < s.len(),
        s[i].ink is None,
        st.cws != i,
        !st.has_word,
    ensures
        st_inv(s, max, i + 1, wrap_step(s, st, i, max)),
{
    let st1 = wrap_step(s, st, i, max);
    assert(!is_boundary(s[st.cws]));
    assert(!is_boundary(s[i - 1]));
    assert forall|j: int| 0 <= j < i + 1 && !is_boundary(#[trigger] s[j]) implies in_progress(
        st1,
        i + 1,
        j,
    ) by {
        assert(j != i);
        assert(in_progress(st, i, j));
    }
}

proof fn lemma_step_commit_break(s: Seq<Glyph>, max: int, i: int, st: WrapState)
    requires
        st_inv(s, max, i, st),
        0 <= i < s.len(),
        s[i].ink is None,
        st.cws != i,
        st.has_word,
        span_extent(s, st.lsi, i) > max,
    ensures
        st_inv(s, max, i + 1, wrap_step(s, st, i, max)),
{
    let st1 = wrap_step(s, st, i, max);
    assert(!is_boundary(s[st.cws]));
    assert(!is_boundary(s[i - 1]));
    lemma_lines_ok_push(s, max, st.lines, (st.lsi, st.pend_end));
    assert forall|j: int| 0 <= j < i + 1 && !is_boundary(#[trigger] s[j]) implies in_progress(
        st1,
        i + 1,
        j,
    ) by {
        assert(j != i);
        assert(in_progress(st, i, j));
        if covered(st.lines, j) || (st.lsi <= j < st.pend_end) {
            lemma_covered_push(st.lines, (st.lsi, st.pend_end), j);
        }
    }
}

proof fn lemma_step_commit_fits(s: Seq<Glyph>, max: int, i: int, st: WrapState)
    requires
        st_inv(s, max, i, st),
        0 <= i < s.len(),
        s[i].ink is None,
        st.cws != i,
        st.has_word,
        span_extent(s, st.lsi, i) <= max,
    ensures
        st_inv(s, max, i + 1, wrap_step(s, st, i, max)),
{
    let st1 = wrap_step(s, st, i, max);
    assert(!is_boundary(s[st.cws]));
    assert(!is_boundary(s[i - 1]));
    assert(line_ok(s, max, (st.lsi, i)));
    assert forall|j: int| 0 <= j < i + 1 && !is_boundary(#[trigger] s[j]) implies in_progress(
        st1,
        i + 1,
        j,
    ) by {
        assert(j != i);
        assert(in_progress(st, i, j));
    }
}

/// One glyph of the pass preserves the invariant.
proof fn lemma_step_inv(s: Seq<Glyph>, max: int, i: int, st: WrapState)
    requires
        st_inv(s, max, i, st),
        0 <= i < s.len(),
    ensures
        st_inv(s, max, i + 1, wrap_step(s, st, i, max)),
{
    match s[i].ink {
        Some(w) => lemma_step_ink(s, max, i, st, w),
        None => {
            if st.cws == i {
                lemma_step_gap(s, max, i, st);
            } else if !st.has_word {
                lemma_step_commit_first(s, max, i, st);
            } else if span_extent(s, st.lsi, i) > max {
                lemma_step_commit_break(s, max, i, st);
            } else {
                lemma_step_commit_fits(s, max, i, st);
            }
        },
    }
}

/// After the last glyph, closing the pass yields a span list with all the
/// wrap guarantees.
proof fn lemma_close_ok(s: Seq<Glyph>, max: int, st: WrapState)
    requires
        st_inv(s, max, s.len() as int, st),
    ensures
        spans_ok(s, max, wrap_close(s, st, s.len() as int, max)),
{
    let n = s.len() as int;
    let out = wrap_close(s, st, n, max);
    if st.cws < n {
        assert(!is_boundary(s[st.cws]));
        assert(!is_boundary(s[n - 1]));
        if !st.has_word {
            lemma_lines_ok_push(s, max, st.lines, (st.cws, n));
            assert forall|j: int| 0 <= j < n && !is_boundary(#[trigger] s[j]) implies covered(
                out,
                j,
            ) by {
                assert(in_progress(st, n, j));
                lemma_covered_push(st.lines, (st.cws, n), j);
            }
        } else if span_extent(s, st.lsi, n) > max {
            lemma_lines_ok_push(s, max, st.lines, (st.lsi, st.pend_end));
            lemma_lines_ok_push(s, max, st.lines.push((st.lsi, st.pend_end)), (st.cws, n));
            assert forall|j: int| 0 <= j < n && !is_boundary(#[trigger] s[j]) implies covered(
                out,
                j,
            ) by {
                assert(in_progress(st, n, j));
                if covered(st.lines, j) || (st.lsi <= j < st.pend_end) {
                    lemma_covered_push(st.lines, (st.lsi, st.pend_end), j);
                }
                lemma_covered_push(st.lines.push((st.lsi, st.pend_end)), (st.cws, n), j);
            }
        } else {
            assert(line_ok(s, max, (st.lsi, n)));
            lemma_lines_ok_push(s, max, st.lines, (st.lsi, n));
            assert forall|j: int| 0 <= j < n && !is_boundary(#[trigger] s[j]) implies covered(
                out,
                j,
            ) by {
                assert(in_progress(st, n, j));
                lemma_covered_push(st.lines, (st.lsi, n), j);
            }
        }
    } else {
        if st.has_word {
            lemma_lines_ok_push(s, max, st.lines, (st.lsi, st.pend_end));
            assert forall|j: int| 0 <= j < n && !is_boundary(#[trigger] s[j]) implies covered(
                out,
                j,
            ) by {
                assert(in_progress(st, n, j));
                lemma_covered_push(st.lines, (st.lsi, st.pend_end), j);
            }
        } else {
            assert forall|j: int| 0 <= j < n && !is_boundary(#[trigger] s[j]) implies covered(
                out,
                j,
            ) by {
                assert(in_progress(st, n, j));
            }
        }
    }
}

proof fn lemma_wrap_from_ok(s: Seq<Glyph>, max: int, i: int, st: WrapState)
    requires
        st_inv(s, max, i, st),
    ensures
        spans_ok(s, max, wrap_from(s, max, i, st)),
    decreases s.len() - i,
{
    if i >= s.len() {
        lemma_close_ok(s, max, st);
    } else {
        lemma_step_inv(s, max, i, st);
        lemma_wrap_from_ok(s, max, i + 1, wrap_step(s, st, i, max));
    }
}

/// The wrapped lines of any layout satisfy all the wrap guarantees at once.
pub proof fn lemma_wrap_spans_ok(s: Seq<Glyph>, max: int)
    ensures
        spans_ok(s, max, wrap_spans(s, max)),
{
    lemma_wrap_from_ok(s, max, 0, wrap_init());
}

/// No overflowing breakable line: every wrapped line that holds more than a
/// single word spans a pixel extent within the budget, space advances and
/// kerning counted.
pub proof fn lemma_wrap_lines_fit(s: Seq<Glyph>, max: int)
    ensures
        forall|k: int|
            0 <= k < wrap_spans(s, max).len() && !no_boundary(
                s,
                (#[trigger] wrap_spans(s, max)[k]).0,
                wrap_spans(s, max)[k].1,
            ) ==> span_extent(s, wrap_spans(s, max)[k].0, wrap_spans(s, max)[k].1) <= max,
{
    lemma_wrap_spans_ok(s, max);
}

/// The layout `h` re-lays the caption layout's span `[a, b)` out from the
/// origin: each glyph keeps its ink and stands where the caption layout put
/// it, shifted left by the span's start position.
pub open spec fn rebased(s: Seq<Glyph>, a: int, b: int, h: Seq<Glyph>) -> bool {
    &&& h.len() == b - a
    &&& forall|j: int|
        0 <= j < h.len() ==> (#[trigger] h[j]).x == s[a + j].x - s[a].x && h[j].ink == s[a + j].ink
}

/// Re-measuring a wrapped line stays within the budget: when the line's own
/// layout places each glyph where the caption's layout placed it, shifted to
/// start at the origin, then for any line holding more than one word
/// `measure` of that layout is exactly the line's span extent, which the
/// wrap bounded by the budget.
pub proof fn lemma_wrap_line_measure(s: Seq<Glyph>, max: int, k: int, h: Seq<Glyph>)
    requires
        0 <= k < wrap_spans(s, max).len(),
        !no_boundary(s, wrap_spans(s, max)[k].0, wrap_spans(s, max)[k].1),
        rebased(s, wrap_spans(s, max)[k].0, wrap_spans(s, max)[k].1, h),
    ensures
        measure_spec(h) <= max,
{
    lemma_wrap_spans_ok(s, max);
    let sp = wrap_spans(s, max)[k];
    assert(h[h.len() - 1].x == s[sp.1 - 1].x - s[sp.0].x);
    assert(h[h.len() - 1].ink == s[sp.1 - 1].ink);
    assert(measure_spec(h) == span_extent(s, sp.0, sp.1));
}

/// Empty input: a caption with no glyphs wraps to no lines at all.
pub proof fn lemma_wrap_empty(s: Seq<Glyph>, max: int)
    requires
        s.len() == 0,
    ensures
        wrap_spans(s, max) == Seq::<(int, int)>::empty(),
{
    assert(wrap_spans(s, max) =~= Seq::<(int, int)>::empty());
}

/// A caption of whitespace alone wraps to no lines: runs of boundary glyphs
/// never produce spurious empty lines.
pub proof fn lemma_wrap_whitespace_only(s: Seq<Glyph>, max: int)
    requires
        all_boundary(s, 0, s.len() as int),
    ensures
        wrap_spans(s, max) == Seq::<(int, int)>::empty(),
{
    lemma_wrap_spans_ok(s, max);
    let spans = wrap_spans(s, max);
    if spans.len() > 0 {
        assert(!is_boundary(s[spans[0].0]));
        assert(false);
    }
    assert(spans =~= Seq::<(int, int)>::empty());
}

/// In a `lines_ok` list an earlier span ends before a strictly later one
/// starts: the spans are pairwise disjoint and ordered.
proof fn lemma_spans_ordered(s: Seq<Glyph>, max: int, spans: Seq<(int, int)>, k1: int, k2: int)
    requires
        lines_ok(s, max, spans),
        0 <= k1 <= k2 < spans.len(),
    ensures
        spans[k1].1 <= spans[k2].1,
        k1 < k2 ==> spans[k1].1 < spans[k2].0,
    decreases k2 - k1,
{
    if k1 < k2 {
        lemma_spans_ordered(s, max, spans, k1 + 1, k2);
    }
}

/// Single unbreakable word never split: a nonempty caption with no boundary
/// glyph wraps to exactly one line holding the whole caption, however small
/// the budget.
pub proof fn lemma_wrap_single_word(s: Seq<Glyph>, max: int)
    requires
        s.len() > 0,
        no_boundary(s, 0, s.len() as int),
    ensures
        wrap_spans(s, max) == seq![(0int, s.len() as int)],
{
    lemma_wrap_spans_ok(s, max);
    let spans = wrap_spans(s, max);
    let n = s.len() as int;
    assert(!is_boundary(s[0]));
    assert(covered(spans, 0));
    let k0 = lemma_covered_witness(spans, 0);
    assert(spans.len() >= 1);
    if spans.len() >= 2 {
        let b = spans[0].1;
        assert(b < spans[1].0);
        assert(0 < b < n);
        assert(!is_boundary(s[b]));
        assert(covered(spans, b));
        let k = lemma_covered_witness(spans, b);
        assert(k != 0);
        if k > 1 {
            lemma_spans_ordered(s, max, spans, 1, k);
            assert(spans[1].1 < spans[k].0);
        }
        assert(false);
    }
    let sp = spans[0];
    if sp.0 > 0 {
        let k = lemma_covered_witness(spans, 0);
        assert(k == 0);
        assert(false);
    }
    if sp.1 < n {
        assert(!is_boundary(s[n - 1]));
        assert(covered(spans, n - 1));
        let k = lemma_covered_witness(spans, n - 1);
        assert(k == 0);
        assert(false);
    }
    assert(spans =~= seq![(0int, n)]);
}

} // verus!
