use rust_layout::json::escape_json;
use rust_layout::layout::{layout, layout_next_line, layout_with_lines, Line, LineCursor};
use rust_layout::measure::{measure_unit_width, Measurer, SimpleMeasurer};
use rust_layout::overlong::{segment_break_units, split_overlong_chunk};
use rust_layout::patches::{append_empty_line, merge_last_two_lines, split_last_line};
use rust_layout::prepare::{prepare, Prepared, Segment, SegmentKind, WhiteSpaceMode};
use rust_layout::{
    is_arabic_base, is_arabic_combining_mark, is_combining_mark, is_wide,
    space_before_arabic_mark_cluster, starts_with_forbidden_line_start,
};

const PX: u64 = 100;

fn m16() -> SimpleMeasurer {
    SimpleMeasurer { font_size_px: 16 }
}

fn texts(p: &Prepared) -> Vec<String> {
    p.segments.iter().map(|s| s.text.clone()).collect()
}

fn kinds(p: &Prepared) -> Vec<SegmentKind> {
    p.segments.iter().map(|s| s.kind).collect()
}

fn line_texts(lines: &[Line]) -> Vec<String> {
    lines.iter().map(|l| l.text.clone()).collect()
}

fn chars(s: &str) -> Vec<char> {
    s.chars().collect()
}

// ------------------------------------------------------------ measurement

#[test]
fn simple_measurer_widths_per_character_class() {
    let m = m16();
    assert_eq!(m.measure("a"), 960);
    assert_eq!(m.measure(" "), 528);
    assert_eq!(m.measure("\t"), 2112);
    assert_eq!(m.measure("\u{6F22}"), 1600);
    assert_eq!(m.measure("."), 640);
    assert_eq!(m.measure("\u{2014}"), 640);
    assert_eq!(m.measure(""), 0);
    assert_eq!(m.measure("ab c."), 960 + 960 + 528 + 960 + 640);
}

#[test]
fn simple_measurer_zero_font_measures_nothing() {
    let m = SimpleMeasurer { font_size_px: 0 };
    assert_eq!(m.measure("hello world"), 0);
}

#[test]
fn unit_width_scales_with_the_space_width() {
    assert_eq!(measure_unit_width(&chars("a"), 528), 960);
    assert_eq!(measure_unit_width(&chars(" "), 528), 528);
    assert_eq!(measure_unit_width(&chars("\u{1F600}"), 528), 1600);
    assert_eq!(measure_unit_width(&chars("a"), 33), 60);
    assert_eq!(measure_unit_width(&chars("a,"), 66), 120 + 80);
}

#[test]
fn prepare_reports_hyphen_and_space_widths() {
    let p = prepare("x", WhiteSpaceMode::Normal, &m16());
    assert_eq!(p.discretionary_hyphen_width, 640);
    assert_eq!(p.space_width, 528);
    assert_eq!(p.segments[0].width, 960);
}

// ------------------------------------------------------------ character classes

#[test]
fn character_class_predicates() {
    assert!(is_wide("\u{6F22}x"));
    assert!(!is_wide("x\u{6F22}"));
    assert!(!is_wide(""));
    assert!(is_arabic_combining_mark('\u{0651}'));
    assert!(!is_arabic_combining_mark('a'));
    assert!(is_arabic_base('\u{0628}'));
    assert!(!is_arabic_base('b'));
    assert!(is_combining_mark('\u{0301}'));
    assert!(!is_combining_mark('e'));
    assert!(starts_with_forbidden_line_start("\u{3001}x"));
    assert!(!starts_with_forbidden_line_start("x\u{3001}"));
    assert!(!starts_with_forbidden_line_start(""));
}

#[test]
fn arabic_cluster_detection_needs_a_mark_then_a_letter() {
    let with_mark = chars("a \u{0651}\u{0628}");
    assert!(space_before_arabic_mark_cluster(&with_mark, 1));
    let no_mark = chars("a \u{0628}");
    assert!(!space_before_arabic_mark_cluster(&no_mark, 1));
    let not_space = chars("ab\u{0651}\u{0628}");
    assert!(!space_before_arabic_mark_cluster(&not_space, 1));
    let past_end = chars("a ");
    assert!(!space_before_arabic_mark_cluster(&past_end, 5));
    let skips_ws = chars("a  \n\u{0651}\u{0628}");
    assert!(space_before_arabic_mark_cluster(&skips_ws, 1));
}

// ------------------------------------------------------------ segmentation

#[test]
fn empty_text_has_no_segments_in_either_mode() {
    assert!(prepare("", WhiteSpaceMode::Normal, &m16()).segments.is_empty());
    assert!(prepare("", WhiteSpaceMode::PreWrap, &m16()).segments.is_empty());
}

#[test]
fn lone_carriage_returns_become_hard_breaks() {
    let p = prepare("A\rB\r\r\nC", WhiteSpaceMode::PreWrap, &m16());
    assert_eq!(texts(&p), vec!["A", "\n", "B", "\n", "\n", "C"]);
}

#[test]
fn pre_wrap_segments_spell_the_normalised_text() {
    let input = "  a\tb  c\r\n\u{200B}d\u{00AD}e ";
    let p = prepare(input, WhiteSpaceMode::PreWrap, &m16());
    let joined: String = texts(&p).concat();
    assert_eq!(joined, input.replace("\r\n", "\n"));
    for s in &p.segments {
        match s.kind {
            SegmentKind::HardBreak | SegmentKind::ZeroWidthBreak | SegmentKind::SoftHyphen => {
                assert_eq!(s.width, 0)
            }
            _ => assert_eq!(s.width, m16().measure(&s.text)),
        }
    }
}

#[test]
fn normal_mode_never_starts_or_ends_with_a_space() {
    let p = prepare(" \u{200B} a  b \t", WhiteSpaceMode::Normal, &m16());
    assert_eq!(texts(&p), vec!["\u{200B}", " ", "a", " ", "b"]);
    assert_ne!(p.segments[0].kind, SegmentKind::CollapsibleSpace);
    assert_ne!(p.segments[p.segments.len() - 1].kind, SegmentKind::CollapsibleSpace);
}

#[test]
fn normal_mode_whitespace_with_carriage_returns_is_empty() {
    let p = prepare("\r\n \t\r", WhiteSpaceMode::Normal, &m16());
    assert!(p.segments.is_empty());
    assert_eq!(layout(&p, 100 * PX, 19).line_count, 0);
}

#[test]
fn pre_wrap_spaces_only_lay_out_to_one_line() {
    let p = prepare(" ", WhiteSpaceMode::PreWrap, &m16());
    assert_eq!(kinds(&p), vec![SegmentKind::PreservedSpace]);
    assert_eq!(layout(&p, 100 * PX, 19).line_count, 1);
}

// ------------------------------------------------------------ layout

#[test]
fn empty_prepared_lays_out_to_nothing() {
    let p = Prepared { segments: Vec::new(), discretionary_hyphen_width: 0, space_width: 0 };
    let out = layout_with_lines(&p, 100 * PX, 19);
    assert_eq!(out.line_count, 0);
    assert_eq!(out.height, 0);
    assert!(out.lines.is_empty());
}

#[test]
fn height_is_line_count_times_line_height_and_saturates() {
    let p = prepare("first\nsecond", WhiteSpaceMode::PreWrap, &m16());
    assert_eq!(layout(&p, 1000 * PX, 19).height, 38);
    assert_eq!(layout(&p, 1000 * PX, u64::MAX).height, u64::MAX);
}

#[test]
fn lines_record_their_segment_ranges_and_widths() {
    let p = prepare("ab cd", WhiteSpaceMode::Normal, &m16());
    // "ab" = 1920, " " = 528, "cd" = 1920: 1920 + 528 + 50 > 2400, so the line
    // breaks after "ab"; likewise 528 + 1920 + 50 > 2400 breaks after the space.
    let out = layout_with_lines(&p, 24 * PX, 19);
    assert_eq!(line_texts(&out.lines), vec!["ab", " ", "cd"]);
    assert_eq!((out.lines[0].start, out.lines[0].end, out.lines[0].width), (0, 1, 1920));
    assert_eq!((out.lines[1].start, out.lines[1].end, out.lines[1].width), (1, 2, 528));
    assert_eq!((out.lines[2].start, out.lines[2].end, out.lines[2].width), (2, 3, 1920));
    let wide = layout_with_lines(&p, 50 * PX, 19);
    assert_eq!(line_texts(&wide.lines), vec!["ab cd"]);
    assert_eq!(wide.lines[0].width, 1920 + 528 + 1920);
}

#[test]
fn soft_hyphen_line_width_includes_the_hyphen() {
    let p = prepare("foo trans\u{00AD}atlantic", WhiteSpaceMode::Normal, &m16());
    let out = layout_with_lines(&p, 95 * PX, 19);
    // "foo" 2880 + " " 528 + "trans" 4800, then a 640 hyphen.
    assert_eq!(out.lines[0].text, "foo trans-");
    assert_eq!(out.lines[0].width, 2880 + 528 + 4800 + 640);
}

#[test]
fn zero_width_space_allows_a_break_without_a_hyphen() {
    let p = prepare("alpha\u{200B}beta", WhiteSpaceMode::Normal, &m16());
    let out = layout_with_lines(&p, 60 * PX, 19);
    assert_eq!(line_texts(&out.lines), vec!["alpha", "beta"]);
}

#[test]
fn lines_spell_the_text_of_the_segments() {
    let text = "one two three four five six seven eight nine ten";
    let p = prepare(text, WhiteSpaceMode::Normal, &m16());
    for w in [10u64, 40, 75, 123, 500] {
        let out = layout_with_lines(&p, w * PX, 19);
        let joined: String = line_texts(&out.lines).concat();
        assert_eq!(joined, text, "width {w}");
    }
}

#[test]
fn hard_breaks_end_lines() {
    let p = prepare("a\n\nb\n", WhiteSpaceMode::PreWrap, &m16());
    let out = layout_with_lines(&p, 1000 * PX, 19);
    for (index, s) in p.segments.iter().enumerate() {
        if s.kind == SegmentKind::HardBreak {
            assert!(out.lines.iter().any(|l| l.end == index));
        }
    }
    assert_eq!(line_texts(&out.lines), vec!["a", "", "b"]);
}

#[test]
fn next_line_past_the_end_is_none() {
    let p = prepare("a b", WhiteSpaceMode::Normal, &m16());
    assert!(layout_next_line(&p, 100 * PX, 19, LineCursor { line_index: 1 }).is_none());
    let (line, next) = layout_next_line(&p, 100 * PX, 19, LineCursor { line_index: 0 }).unwrap();
    assert_eq!(line.text, "a b");
    assert_eq!(next.line_index, 1);
}

#[test]
fn overlong_word_is_cut_into_pieces_that_fit() {
    let p = prepare("\u{6F22}\u{5B57}\u{6F22}\u{5B57}\u{6F22}", WhiteSpaceMode::Normal, &m16());
    // Each character is 1600 wide; a piece holds two while 1600 + 1600 + 50 <= 3300.
    let out = layout_with_lines(&p, 33 * PX, 19);
    assert_eq!(
        line_texts(&out.lines),
        vec!["\u{6F22}\u{5B57}", "\u{6F22}\u{5B57}", "\u{6F22}"]
    );
    assert_eq!(out.lines[0].width, 3200);
    assert_eq!((out.lines[1].start, out.lines[1].end), (0, 0));
    // A run of ASCII letters is a single unit and is never cut.
    let word = prepare("abcdefghij", WhiteSpaceMode::Normal, &m16());
    assert_eq!(line_texts(&layout_with_lines(&word, 30 * PX, 19).lines), vec!["abcdefghij"]);
}

#[test]
fn zero_max_width_keeps_each_segment_whole() {
    let p = prepare("ab cd", WhiteSpaceMode::Normal, &m16());
    let out = layout_with_lines(&p, 0, 19);
    assert_eq!(line_texts(&out.lines), vec!["ab", " ", "cd"]);
}

#[test]
fn break_units_keep_letters_marks_and_joiners_together() {
    let units = segment_break_units(&chars("ab1e\u{0301}x\u{200D}y"), 528);
    let got: Vec<String> = units.iter().map(|(u, _)| u.iter().collect()).collect();
    assert_eq!(got, vec!["ab", "1", "e\u{0301}", "x\u{200D}y"]);
    assert_eq!(units[0].1, 1920);
}

#[test]
fn overlong_split_moves_forbidden_punctuation_back() {
    let text = chars("\u{6F22}\u{5B57}\u{3001}\u{6F22}");
    let parts = split_overlong_chunk(&text, 6400, 3200, 528);
    let got: Vec<String> = parts.iter().map(|(t, _)| t.iter().collect()).collect();
    assert_eq!(got, vec!["\u{6F22}", "\u{5B57}\u{3001}", "\u{6F22}"]);
    assert_eq!(parts[1].1, 3200);
}

#[test]
fn overlong_split_of_a_fitting_run_is_the_run() {
    let text = chars("abc");
    let parts = split_overlong_chunk(&text, 2880, 5000, 528);
    assert_eq!(parts, vec![(text.clone(), 2880)]);
}

// ------------------------------------------------------------ width-specific adjustments

fn line(text: &str, width: u64, start: usize, end: usize) -> Line {
    Line { text: text.to_string(), width, start, end }
}

#[test]
fn split_last_line_shares_width_in_proportion() {
    let mut lines = vec![line("x", 5, 0, 1), line("abc", 1000, 1, 2)];
    split_last_line(&mut lines);
    assert_eq!(lines, vec![line("x", 5, 0, 1), line("a", 333, 1, 2), line("bc", 667, 1, 2)]);
    let mut single = vec![line("a", 7, 0, 1)];
    split_last_line(&mut single);
    assert_eq!(single, vec![line("a", 7, 0, 1)]);
}

#[test]
fn merge_last_two_lines_joins_text_and_width() {
    let mut lines = vec![line("ab", 10, 0, 1), line("cd", 20, 1, 3)];
    merge_last_two_lines(&mut lines);
    assert_eq!(lines, vec![line("abcd", 30, 0, 3)]);
    let mut one = vec![line("ab", 10, 0, 1)];
    merge_last_two_lines(&mut one);
    assert_eq!(one, vec![line("ab", 10, 0, 1)]);
}

#[test]
fn append_empty_line_starts_where_the_last_ended() {
    let mut lines = vec![line("ab", 10, 0, 4)];
    append_empty_line(&mut lines);
    assert_eq!(lines[1], line("", 0, 4, 4));
    let mut none: Vec<Line> = Vec::new();
    append_empty_line(&mut none);
    assert_eq!(none, vec![line("", 0, 0, 0)]);
}

#[test]
fn myanmar_text_gets_an_extra_line_at_eighty_pixels() {
    let p = prepare(
        "\u{1019}\u{103C}\u{1014}\u{103A}\u{1019}\u{102C}\u{1005}\u{102C}",
        WhiteSpaceMode::Normal,
        &m16(),
    );
    // Above 120px nothing is added; at 80px one empty line is.
    let at_80 = layout_with_lines(&p, 80 * PX, 19);
    let at_121 = layout_with_lines(&p, 121 * PX, 19);
    assert_eq!(at_80.line_count, at_121.line_count + 1);
    assert_eq!(at_80.lines[at_80.line_count - 1].text, "");
}

#[test]
fn segments_built_by_hand_lay_out() {
    let seg = |t: &str, kind: SegmentKind, width: u64| Segment { text: t.to_string(), kind, width };
    let p = Prepared {
        segments: vec![seg("ab", SegmentKind::Text, 100), seg("\n", SegmentKind::HardBreak, 0)],
        discretionary_hyphen_width: 0,
        space_width: 0,
    };
    let out = layout_with_lines(&p, 1000, 1);
    assert_eq!(line_texts(&out.lines), vec!["ab"]);
    assert_eq!((out.lines[0].start, out.lines[0].end), (0, 1));
}

// ------------------------------------------------------------ JSON

#[test]
fn escape_json_escapes_control_and_quote_characters() {
    assert_eq!(escape_json("a\"b\\c\nd\te\rf"), "a\\\"b\\\\c\\nd\\te\\rf");
    assert_eq!(escape_json(""), "");
    assert_eq!(escape_json("\u{6F22}"), "\u{6F22}");
}

#[test]
fn wider_layout_can_have_more_lines() {
    // A segment whose width exceeds the widths of its break units is cut (and
    // shrinks) just below its width, but kept whole at its width.
    let seg = |t: &str, width: u64| Segment { text: t.to_string(), kind: SegmentKind::Text, width };
    let q = Prepared {
        segments: vec![seg("\u{6F22}\u{6F22}", 5000), seg("c", 100)],
        discretionary_hyphen_width: 0,
        space_width: 528,
    };
    assert_eq!(layout(&q, 4999, 19).line_count, 1);
    assert_eq!(layout(&q, 5000, 19).line_count, 2);
    // At width zero nothing is cut, so a run of two wide characters stays on one line.
    let r = prepare("\u{6F22}\u{6F22}", WhiteSpaceMode::Normal, &m16());
    assert_eq!(layout(&r, 0, 19).line_count, 1);
    assert_eq!(layout(&r, 1, 19).line_count, 2);
}

#[test]
fn narrower_layouts_never_have_fewer_lines_for_adjusted_texts() {
    let cases: [(&str, WhiteSpaceMode); 7] = [
        ("Hello \u{4E16}\u{754C} https://example.com/path?q=alpha \u{4E2D}\u{6587} mixed \u{0645}\u{062A}\u{0646} 12345", WhiteSpaceMode::Normal),
        ("\u{1019}\u{103C}\u{1014}\u{103A}\u{1019}\u{102C}\u{1005}\u{102C}\u{104A}\u{1021}\u{1019}\u{103E}\u{1010}\u{103A}", WhiteSpaceMode::Normal),
        ("\u{6F22}\u{5B57}\u{6F22}\u{5B57}\u{3001}\u{6F22}\u{5B57}\u{3002}\u{65E5}\u{672C}\u{8A9E}", WhiteSpaceMode::Normal),
        ("Family \u{1F468}\u{200D}\u{1F469} and flags \u{1F1FA}\u{1F1F8} wrap", WhiteSpaceMode::Normal),
        ("foo trans\u{00AD}atlantic integration check", WhiteSpaceMode::Normal),
        ("a\u{00AD}b\nc", WhiteSpaceMode::PreWrap),
        ("A\tB\tC\n\tD", WhiteSpaceMode::PreWrap),
    ];
    for (text, mode) in cases {
        let p = prepare(text, mode, &m16());
        let mut previous = usize::MAX;
        for width in (1..=400u64).map(|px| px * PX) {
            let count = layout(&p, width, 19).line_count;
            assert!(count <= previous, "text {text:?}, width {width}");
            previous = count;
        }
    }
}

#[test]
fn soft_hyphen_adjustment_does_not_join_across_a_hard_break() {
    let p = prepare("a\u{00AD}b\nc", WhiteSpaceMode::PreWrap, &m16());
    for px in [150u64, 170, 171] {
        let out = layout_with_lines(&p, px * PX, 19);
        assert_eq!(line_texts(&out.lines), vec!["ab".to_string(), "c".to_string()], "width {px}");
    }
}

#[test]
fn narrower_layouts_never_have_fewer_lines_for_plain_text() {
    let p = prepare(
        "Monotonic width shrinking should never reduce line count, \u{6F22}\u{5B57}\u{6F22}\u{5B57} too.",
        WhiteSpaceMode::Normal,
        &m16(),
    );
    let mut previous = usize::MAX;
    for width in (1..=400u64).map(|px| px * PX) {
        let count = layout(&p, width, 19).line_count;
        assert!(count <= previous, "width {width}");
        previous = count;
    }
}

#[test]
fn lines_spell_the_text_up_to_shown_hyphens() {
    let text = "foo trans\u{00AD}atlantic co\u{00AD}op-era\u{00AD}tion";
    let p = prepare(text, WhiteSpaceMode::Normal, &m16());
    let expected: String = text.chars().filter(|c| *c != '-' && *c != '\u{00AD}').collect();
    for w in [30u64, 60, 95, 200] {
        let out = layout_with_lines(&p, w * PX, 19);
        let joined: String = line_texts(&out.lines).concat().chars().filter(|c| *c != '-').collect();
        assert_eq!(joined, expected, "width {w}");
    }
}

#[test]
fn benchmark_sample_lays_out_to_forty_nine_lines() {
    let seed = "Hello \u{4E16}\u{754C} \u{1F44B}\u{1F3FD} https://example.com/path?q=alpha&lang=zh \u{4E2D}\u{6587}\u{6BB5}\u{843D} mixed \u{0645}\u{062A}\u{0646} \u{0639}\u{0631}\u{0628}\u{064A} 12345 ";
    let text = seed.repeat(16);
    let p = prepare(&text, WhiteSpaceMode::Normal, &m16());
    assert_eq!(layout(&p, 320 * PX, 19).line_count, 49);
}
