use wiitu::glyph::Glyph;
use wiitu::measure::measure;
use wiitu::place::{center_x, stack_y};
use wiitu::wrap::wrap;

/// Fixture font: every visible glyph has a 10px bounding box and a 10px
/// advance; a space has no bounding box and a 0px advance.
fn fixed_layout(s: &str) -> Vec<Glyph> {
    let mut v = Vec::new();
    let mut x: u32 = 0;
    for c in s.chars() {
        if c.is_whitespace() {
            v.push(Glyph { x, ink: None });
        } else {
            v.push(Glyph { x, ink: Some(10) });
            x += 10;
        }
    }
    v
}

/// Monospace fixture: every glyph advances 10px, spaces included; visible
/// glyphs have 10px bounding boxes.
fn mono_layout(s: &str) -> Vec<Glyph> {
    let mut v = Vec::new();
    let mut x: u32 = 0;
    for c in s.chars() {
        if c.is_whitespace() {
            v.push(Glyph { x, ink: None });
        } else {
            v.push(Glyph { x, ink: Some(10) });
        }
        x += 10;
    }
    v
}

fn wrap_fixed(s: &str, max_width: u32) -> Vec<String> {
    wrap(s, &fixed_layout(s), max_width)
}

fn strip_whitespace(s: &str) -> String {
    s.chars().filter(|c| !c.is_whitespace()).collect()
}

#[test]
fn measure_empty_is_zero() {
    assert_eq!(measure(&vec![]), 0);
}

#[test]
fn measure_fixed_advance() {
    assert_eq!(measure(&fixed_layout("AB")), 20);
    assert_eq!(measure(&fixed_layout("AB CD")), 40);
}

#[test]
fn measure_boundaryless_glyphs_yield_last_position() {
    let glyphs = vec![Glyph { x: 0, ink: None }, Glyph { x: 5, ink: None }];
    assert_eq!(measure(&glyphs), 5);
}

#[test]
fn measure_monotonic_widening() {
    let short = measure(&fixed_layout("AB C"));
    let long = measure(&fixed_layout("AB CD"));
    assert!(long >= short);
    assert_eq!(short, 30);
    assert_eq!(long, 40);
}

#[test]
fn wrap_empty_text_yields_no_lines() {
    let lines = wrap_fixed("", 100);
    assert!(lines.is_empty());
}

#[test]
fn wrap_whitespace_only_yields_no_lines() {
    let lines = wrap_fixed("   ", 50);
    assert!(lines.is_empty());
}

#[test]
fn single_unbreakable_word_never_split() {
    let lines = wrap_fixed("SUPERCALIFRAGILISTIC", 10);
    assert_eq!(lines, vec!["SUPERCALIFRAGILISTIC".to_string()]);
}

#[test]
fn scenario_two_words_fit() {
    // words AB, CD, EFGH, IJ of widths 20, 20, 40, 20
    let lines = wrap_fixed("AB CD EFGH IJ", 40);
    assert_eq!(
        lines,
        vec!["AB CD".to_string(), "EFGH".to_string(), "IJ".to_string()]
    );
}

#[test]
fn scenario_tight_budget() {
    let lines = wrap_fixed("AB CD EFGH IJ", 35);
    assert_eq!(
        lines,
        vec![
            "AB".to_string(),
            "CD".to_string(),
            "EFGH".to_string(),
            "IJ".to_string()
        ]
    );
}

#[test]
fn no_overflowing_breakable_line() {
    let text = "AB CD EFGH IJ KL MN OPQ";
    let max = 40;
    for line in wrap_fixed(text, max) {
        if line.contains(' ') {
            assert!(measure(&fixed_layout(&line)) <= max);
        }
    }
}

#[test]
fn space_advances_count_against_budget() {
    // "AB CD" spans 50px under the monospace fixture: boxes of 10px each
    // and a 10px space advance. A 45px budget cannot hold both words.
    let text = "AB CD";
    assert_eq!(measure(&mono_layout(text)), 50);
    let narrow = wrap(text, &mono_layout(text), 45);
    assert_eq!(narrow, vec!["AB".to_string(), "CD".to_string()]);
    let wide = wrap(text, &mono_layout(text), 50);
    assert_eq!(wide, vec!["AB CD".to_string()]);
}

#[test]
fn no_overflowing_breakable_line_monospace() {
    let text = "AB CD EFGH IJ KL";
    let max = 50;
    let lines = wrap(text, &mono_layout(text), max);
    assert_eq!(
        lines,
        vec!["AB CD".to_string(), "EFGH".to_string(), "IJ KL".to_string()]
    );
    for line in lines {
        if line.contains(' ') {
            assert!(measure(&mono_layout(&line)) <= max);
        }
    }
}

#[test]
fn content_preservation() {
    let text = "  ONE TWO   THREE FOUR  ";
    let lines = wrap_fixed(text, 50);
    let joined: String = lines.concat();
    assert_eq!(strip_whitespace(&joined), strip_whitespace(text));
}

#[test]
fn idempotent_rewrap() {
    let text = "AB  CD EFGH IJ KL";
    let max = 45;
    let first = wrap_fixed(text, max);
    let rejoined = first.join(" ");
    let second = wrap_fixed(&rejoined, max);
    assert_eq!(first, second);
}

#[test]
fn multi_space_runs_keep_inner_whitespace() {
    let lines = wrap_fixed("AB  CD", 100);
    assert_eq!(lines, vec!["AB  CD".to_string()]);
    let narrow = wrap_fixed("AB  CD", 10);
    assert_eq!(narrow, vec!["AB".to_string(), "CD".to_string()]);
}

#[test]
fn edge_whitespace_never_reaches_lines() {
    let lines = wrap_fixed("  AB CD  ", 100);
    assert_eq!(lines, vec!["AB CD".to_string()]);
}

#[test]
fn first_long_word_pushed_out_by_next() {
    let lines = wrap_fixed("WIDEWORD A", 35);
    assert_eq!(lines, vec!["WIDEWORD".to_string(), "A".to_string()]);
}

#[test]
fn trailing_word_breaks_when_too_wide() {
    let lines = wrap_fixed("AB CDEFGH", 25);
    assert_eq!(lines, vec!["AB".to_string(), "CDEFGH".to_string()]);
}

#[test]
fn wrap_slices_by_characters_not_bytes() {
    let lines = wrap_fixed("\u{c9}\u{c8} \u{c7}A", 20);
    assert_eq!(lines, vec!["\u{c9}\u{c8}".to_string(), "\u{c7}A".to_string()]);
}

#[test]
fn center_x_exact() {
    assert_eq!(center_x(100, 40), 30);
    assert_eq!(center_x(101, 7), 47);
}

#[test]
fn center_x_clamps_wide_lines() {
    assert_eq!(center_x(10, 40), 0);
}

#[test]
fn stack_y_exact() {
    assert_eq!(stack_y(200, 30, 0), Some(130));
    assert_eq!(stack_y(200, 30, 2), Some(70));
    assert_eq!(stack_y(100, 30, 1), Some(0));
}

#[test]
fn stack_y_rejects_short_canvas() {
    assert_eq!(stack_y(100, 30, 2), None);
    assert_eq!(stack_y(60, 10, 0), None);
}
