use rust_layout::json::escape_json;
use rust_layout::layout::{layout_with_lines, walk_line_ranges, Line};
use rust_layout::measure::SimpleMeasurer;
use rust_layout::overlong::split_overlong_chunk;
use rust_layout::prepare::{prepare, split_text_to_segments, Segment, SegmentKind, WhiteSpaceMode};

const PX: u64 = 100;

fn m16() -> SimpleMeasurer {
    SimpleMeasurer { font_size_px: 16 }
}

fn line_texts(lines: &[Line]) -> Vec<String> {
    lines.iter().map(|l| l.text.clone()).collect()
}

fn unescape(e: &str) -> String {
    let cs: Vec<char> = e.chars().collect();
    let mut out = String::new();
    let mut i = 0;
    while i < cs.len() {
        if cs[i] == '\\' && i + 1 < cs.len() {
            out.push(match cs[i + 1] {
                'n' => '\n',
                't' => '\t',
                'r' => '\r',
                c => c,
            });
            i += 2;
        } else {
            out.push(cs[i]);
            i += 1;
        }
    }
    out
}

#[test]
fn line_ranges_rise_and_stay_within_the_segments() {
    let p = prepare(
        "the quick brown fox jumps over the lazy dog \u{6F22}\u{5B57}\u{6F22}\u{5B57}\u{6F22}\u{5B57}",
        WhiteSpaceMode::Normal,
        &m16(),
    );
    for px in [40u64, 90, 150, 320] {
        let out = layout_with_lines(&p, px * PX, 19);
        let mut prev = (0usize, 0usize);
        for l in &out.lines {
            assert!(l.start <= l.end && l.end <= p.segments.len(), "width {px}");
            assert!(prev.0 <= l.start && prev.1 <= l.end, "width {px}");
            prev = (l.start, l.end);
        }
    }
}

#[test]
fn lines_are_filled_greedily_when_every_word_fits() {
    let p = prepare("aa bb cc dd ee ff", WhiteSpaceMode::Normal, &m16());
    let max_width = 70 * PX;
    let out = layout_with_lines(&p, max_width, 19);
    // "aa" = 1920, " " = 528: "aa bb cc" = 6816 fits, and a further space would pass 7000 - 50.
    assert_eq!(line_texts(&out.lines), vec!["aa bb cc", " dd ee ", "ff"]);
    for l in &out.lines {
        assert!(l.width + 50 <= max_width);
        if l.end < p.segments.len() {
            assert!(l.width + p.segments[l.end].width + 50 > max_width);
        }
    }
}

#[test]
fn greedy_line_count_is_the_fewest() {
    let p = prepare("aa bb cc dd ee ff", WhiteSpaceMode::Normal, &m16());
    // Three lines of at most 6950 each are needed for 11 segments of total width 14160.
    let out = layout_with_lines(&p, 70 * PX, 19);
    assert_eq!(out.line_count, 3);
}

#[test]
fn pre_wrap_lines_are_the_paragraphs() {
    let p = prepare("a\u{200B}b\nc d\n\n\te\n", WhiteSpaceMode::PreWrap, &m16());
    let out = layout_with_lines(&p, 300 * PX, 19);
    assert_eq!(line_texts(&out.lines), vec!["ab", "c d", "", "\te"]);
    let q = prepare("x\u{00AD}y", WhiteSpaceMode::PreWrap, &m16());
    assert_eq!(line_texts(&layout_with_lines(&q, 300 * PX, 19).lines), vec!["xy"]);
}

#[test]
fn normal_words_spell_the_text_without_whitespace() {
    let text = "  one\ttwo\r\nthree\rfour  five\u{200B}six  ";
    let p = prepare(text, WhiteSpaceMode::Normal, &m16());
    let words: String = p
        .segments
        .iter()
        .filter(|s| s.kind != SegmentKind::CollapsibleSpace)
        .map(|s| s.text.as_str())
        .collect();
    let expected: String = text.chars().filter(|c| !matches!(c, ' ' | '\n' | '\t' | '\r')).collect();
    assert_eq!(words, expected);
    assert!(p.segments.iter().all(|s| !s.text.contains('\r')));
}

#[test]
fn cut_run_keeps_closing_punctuation_with_the_piece_before() {
    let text: Vec<char> = "\u{6F22}\u{5B57}\u{6F22}\u{5B57}\u{3001}\u{6F22}\u{5B57}\u{6F22}\u{5B57}".chars().collect();
    let parts = split_overlong_chunk(&text, 14400, 4500, 528);
    let got: Vec<String> = parts.iter().map(|(t, _)| t.iter().collect::<String>()).collect();
    assert_eq!(got, vec!["\u{6F22}\u{5B57}", "\u{6F22}\u{5B57}\u{3001}", "\u{6F22}\u{5B57}", "\u{6F22}\u{5B57}"]);
    for piece in &got[1..] {
        assert!(!rust_layout::starts_with_forbidden_line_start(piece));
    }
}

#[test]
fn split_text_keeps_what_was_there_and_measures_the_rest() {
    let kept = Segment { text: "old".to_string(), kind: SegmentKind::Text, width: 7 };
    let mut out = vec![kept.clone()];
    let text: Vec<char> = "ab\u{00AD}c".chars().collect();
    split_text_to_segments(&text, SegmentKind::Text, &mut out, &m16());
    assert_eq!((out[0].text.as_str(), out[0].kind, out[0].width), (kept.text.as_str(), kept.kind, kept.width));
    let rest: Vec<(String, SegmentKind, u64)> =
        out[1..].iter().map(|s| (s.text.clone(), s.kind, s.width)).collect();
    assert_eq!(
        rest,
        vec![
            ("ab".to_string(), SegmentKind::Text, 1920),
            ("\u{00AD}".to_string(), SegmentKind::SoftHyphen, 0),
            ("c".to_string(), SegmentKind::Text, 960),
        ]
    );
}

#[test]
fn escaping_leaves_no_raw_controls_and_reads_back() {
    let s = "a\"b\\c\nd\te\rf\u{6F22}";
    let e = escape_json(s);
    assert!(!e.contains('\n') && !e.contains('\t') && !e.contains('\r'));
    assert_eq!(unescape(&e), s);
    let plain = "plain text \u{6F22}";
    assert_eq!(escape_json(plain), plain);
}

#[test]
fn walk_line_ranges_visits_the_first_line_first() {
    let p = prepare("alpha beta gamma delta", WhiteSpaceMode::Normal, &m16());
    let expected = layout_with_lines(&p, 60 * PX, 19);
    let mut seen: Vec<String> = Vec::new();
    walk_line_ranges(&p, 60 * PX, 19, |l: &Line| seen.push(l.text.clone()));
    assert_eq!(seen, line_texts(&expected.lines));
    assert_eq!(seen[0], expected.lines[0].text);
}

#[test]
fn hard_breaks_force_lines() {
    let p = prepare("a\n\nb\n", WhiteSpaceMode::PreWrap, &m16());
    assert_eq!(layout_with_lines(&p, 300 * PX, 19).line_count, 3);
    let q = prepare("a\n\nb\nc", WhiteSpaceMode::PreWrap, &m16());
    assert_eq!(layout_with_lines(&q, 300 * PX, 19).line_count, 4);
}

#[test]
fn pieces_of_a_cut_run_have_text_and_spell_it() {
    let text: Vec<char> = "abcdefgh\u{6F22}\u{5B57}".chars().collect();
    let parts = split_overlong_chunk(&text, 9600, 2500, 528);
    assert!(parts.len() >= 2);
    assert!(parts.iter().all(|(t, _)| !t.is_empty()));
    let joined: Vec<char> = parts.iter().flat_map(|(t, _)| t.iter().copied()).collect();
    assert_eq!(joined, text);
}

#[test]
fn break_units_keep_marks_with_their_base() {
    let text: Vec<char> = "e\u{0301}\u{6F22}x\u{FE0F}".chars().collect();
    let units = rust_layout::overlong::segment_break_units(&text, 528);
    let got: Vec<String> = units.iter().map(|(t, _)| t.iter().collect::<String>()).collect();
    assert_eq!(got, vec!["e\u{0301}", "\u{6F22}", "x\u{FE0F}"]);
}
