use std::ops::Range;

use zed_plus::row_text::{
    byte_len, byte_slice, ceil_boundary, floor_boundary, render_window, MAX_ROW_TEXT_LEN,
};

/// What a label requires of a highlight: in-bounds, on char boundaries, start before end.
fn assert_usable(text: &str, highlight: &Range<usize>) {
    assert!(highlight.start <= highlight.end, "{highlight:?} in {text:?}");
    assert!(highlight.end <= text.len(), "{highlight:?} in {text:?}");
    assert!(text.is_char_boundary(highlight.start), "{highlight:?}");
    assert!(text.is_char_boundary(highlight.end), "{highlight:?}");
}

/// The text a row would draw, plus the match range within it.
fn windowed(line: &str, match_range: Range<usize>) -> (String, Range<usize>) {
    let (window, highlight) = render_window(line, match_range);
    assert!(line.is_char_boundary(window.start));
    assert!(line.is_char_boundary(window.end));
    (line[window].to_string(), highlight)
}

#[test]
fn render_window_trims_indentation() {
    let (text, highlight) = windowed("    let value = 1;", 8..13);
    assert_eq!(text, "let value = 1;");
    assert_eq!(&text[highlight.clone()], "value");
    assert_usable(&text, &highlight);
}

#[test]
fn render_window_keeps_multibyte_boundaries() {
    let line = "let emoji = \"🎉🎉🎉\";";
    let start = line.find('🎉').expect("emoji in line");
    let (text, highlight) = windowed(line, start..start + "🎉".len());
    assert_eq!(&text[highlight.clone()], "🎉");
    assert_usable(&text, &highlight);
}

#[test]
fn render_window_shortens_a_long_line() {
    let mut line = "x".repeat(5000);
    line.push_str("needle");
    let start = line.len() - "needle".len();
    let (text, highlight) = windowed(&line, start..line.len());

    assert!(text.len() <= MAX_ROW_TEXT_LEN, "kept {} bytes", text.len());
    assert_usable(&text, &highlight);
    assert_eq!(&text[highlight.clone()], "needle");
}

#[test]
fn render_window_survives_a_match_inside_the_indentation() {
    let (text, highlight) = windowed("\t\tvalue", 0..1);
    assert_usable(&text, &highlight);
}

/// The match is kept behind forty bytes of context, exactly.
#[test]
fn a_long_line_opens_a_little_before_the_match() {
    let mut line = "x".repeat(5000);
    line.push_str("needle");
    line.push_str(&"y".repeat(5000));
    let (window, highlight) = render_window(&line, 5000..5006);
    assert_eq!(window, 4960..5260);
    assert_eq!(highlight, 40..46);
}

#[test]
fn a_short_line_is_drawn_whole() {
    let (window, highlight) = render_window("  let x = 1;", 6..7);
    assert_eq!(window, 2..12);
    assert_eq!(highlight, 4..5);
}

#[test]
fn a_match_that_ends_within_reach_keeps_the_window_at_the_start() {
    let line = "z".repeat(1000);
    let (window, highlight) = render_window(&line, 290..300);
    assert_eq!(window, 0..300);
    assert_eq!(highlight, 290..300);
    let (window, highlight) = render_window(&line, 291..301);
    assert_eq!(window, 251..551);
    assert_eq!(highlight, 40..50);
}

/// A character that straddles the limit is left out whole.
#[test]
fn a_straddling_character_is_left_out() {
    let line = format!("{}🎉🎉", "a".repeat(299));
    let (window, _) = render_window(&line, 0..1);
    assert_eq!(window, 0..299);
    let line = format!("{}é", "a".repeat(299));
    let (window, _) = render_window(&line, 0..1);
    assert_eq!(window, 0..299);
    let line = format!("{}é", "a".repeat(298));
    let (window, _) = render_window(&line, 0..1);
    assert_eq!(window, 0..300);
}

/// The context before a match does not reach back into the indentation.
#[test]
fn context_stops_at_the_indentation() {
    let line = format!("{}{}", " ".repeat(50), "x".repeat(301));
    let (window, highlight) = render_window(&line, 50..351);
    assert_eq!(window, 50..350);
    assert_eq!(highlight, 0..300);
}

#[test]
fn a_match_beyond_the_line_is_cut_down_to_it() {
    let (window, highlight) = render_window("abc", 10..20);
    assert_eq!(window, 0..3);
    assert_eq!(highlight, 3..3);
    let (window, highlight) = render_window("", 0..0);
    assert_eq!(window, 0..0);
    assert_eq!(highlight, 0..0);
    let (window, highlight) = render_window("   ", 1..2);
    assert_eq!(window, 3..3);
    assert_eq!(highlight, 0..0);
}

#[test]
fn a_match_that_runs_backwards_is_empty() {
    let (_, highlight) = render_window("abcdef", 4..2);
    assert_eq!(highlight, 4..4);
}

#[test]
fn unicode_indentation_is_trimmed() {
    let line = "\u{3000}\u{a0}x";
    let (window, highlight) = render_window(line, 5..6);
    assert_eq!(window, 5..6);
    assert_eq!(highlight, 0..1);
    assert_eq!(line.len() - line.trim_start().len(), 5);
}

#[test]
fn boundaries_round_both_ways() {
    let text = "a🎉b";
    for index in 0..8 {
        let down = (0..=index.min(text.len()))
            .rev()
            .find(|at| text.is_char_boundary(*at))
            .unwrap();
        let up = (index.min(text.len())..=text.len())
            .find(|at| text.is_char_boundary(*at))
            .unwrap();
        assert_eq!(floor_boundary(text, index), down);
        assert_eq!(ceil_boundary(text, index), up);
    }
    assert_eq!(byte_len(text), 6);
    assert_eq!(byte_slice(text, 1..5), "🎉");
}

/// Every range on every line yields a highlight that can be drawn, of a row that is short.
#[test]
fn every_highlight_can_be_drawn() {
    let long = format!("  {}é{}🎉", "x".repeat(350), "ü".repeat(40));
    for line in ["", "  x", "é🎉é", "\tlet é = 1;", long.as_str()] {
        for start in (0..line.len() + 3).step_by(3) {
            for end in (0..line.len() + 3).step_by(7) {
                let (text, highlight) = windowed(line, start..end);
                assert_usable(&text, &highlight);
                assert!(text.len() <= MAX_ROW_TEXT_LEN);
                assert!(text.is_empty() || !text.starts_with(char::is_whitespace));
            }
        }
    }
}
