use sq::matcher::{print, Matcher};
use sq::record::{import, mask, Record};
use sq::span::{conflicts, Span};

fn span(start: usize, end: usize) -> Span {
    Span { start, end }
}

#[test]
fn conflicts_iff_intervals_intersect() {
    // Disjoint, touching, nested, overlapping, identical.
    assert!(!conflicts(&span(0, 3), &span(5, 8)));
    assert!(!conflicts(&span(0, 3), &span(3, 5)));
    assert!(!conflicts(&span(3, 5), &span(0, 3)));
    assert!(conflicts(&span(0, 5), &span(1, 2)));
    assert!(conflicts(&span(1, 2), &span(0, 5)));
    assert!(conflicts(&span(0, 3), &span(2, 6)));
    assert!(conflicts(&span(2, 6), &span(0, 3)));
    assert!(conflicts(&span(1, 4), &span(1, 4)));
    // An empty span never conflicts with itself, nor with a span it only
    // touches, but it does conflict with a span strictly around it.
    assert!(!conflicts(&span(2, 2), &span(2, 2)));
    assert!(!conflicts(&span(2, 2), &span(2, 4)));
    assert!(!conflicts(&span(2, 2), &span(0, 2)));
    assert!(conflicts(&span(2, 2), &span(0, 4)));
}

#[test]
fn conflict_query_over_stored_spans() {
    let record = Record {
        text: String::from("abcdefghij"),
        spans: vec![span(0, 3), span(5, 7)],
    };
    assert!(record.has_no_conflicting_spans(&span(3, 5)));
    assert!(record.has_no_conflicting_spans(&span(7, 10)));
    assert!(!record.has_no_conflicting_spans(&span(2, 4)));
    assert!(!record.has_no_conflicting_spans(&span(6, 9)));
    let empty = Record { text: String::from("abc"), spans: vec![] };
    assert!(empty.has_no_conflicting_spans(&span(0, 3)));
}

#[test]
fn import_builds_fresh_record() {
    let r = import("foo bar foo");
    assert_eq!(r.text, "foo bar foo");
    assert_eq!(r.spans, vec![]);
}

#[test]
fn scenario_print_mark_mask() {
    let m = Matcher::new("foo").unwrap();
    let mut r = import("foo bar foo");

    let printed = print(&r, &m, false);
    assert_eq!(printed, vec!["foo".to_string(), "foo".to_string()]);

    r.add_match(&m);
    assert_eq!(r.spans, vec![span(0, 3), span(8, 11)]);

    let masked = mask(&r, "REDACTED");
    assert_eq!(masked, "REDACTED bar REDACTED");
}

#[test]
fn scenario_marking_twice_is_idempotent() {
    let m = Matcher::new("foo").unwrap();
    let mut r = import("foo bar foo");
    r.add_match(&m);
    let once = r.spans.clone();
    r.add_match(&m);
    assert_eq!(r.spans, once);
}

#[test]
fn scenario_print_only_new_suppresses_covered_match() {
    let m = Matcher::new("foo").unwrap();
    let r = Record {
        text: String::from("foo bar foo"),
        spans: vec![span(0, 3)],
    };
    let printed = print(&r, &m, true);
    assert_eq!(printed, vec!["foo".to_string()]);
}

#[test]
fn print_only_new_suppresses_partial_overlap() {
    let m = Matcher::new("foo").unwrap();
    let r = Record {
        text: String::from("foo bar foo"),
        spans: vec![span(2, 5)],
    };
    let printed = print(&r, &m, true);
    assert_eq!(printed, vec!["foo".to_string()]);
}

#[test]
fn marking_keeps_ascending_order() {
    let m = Matcher::new("foo").unwrap();
    let mut r = Record {
        text: String::from("foo bar foo"),
        spans: vec![span(4, 6)],
    };
    r.add_match(&m);
    assert_eq!(r.spans, vec![span(0, 3), span(4, 6), span(8, 11)]);
}

#[test]
fn marking_discards_conflicting_match() {
    let m = Matcher::new("bar").unwrap();
    let mut r = Record {
        text: String::from("foo bar foo"),
        spans: vec![span(3, 6)],
    };
    r.add_match(&m);
    assert_eq!(r.spans, vec![span(3, 6)]);
}

#[test]
fn invalid_pattern_is_rejected_before_any_record() {
    assert!(Matcher::new("(unclosed").is_none());
    assert!(Matcher::new("[").is_none());
    assert!(Matcher::new("a(b)c").is_some());
}

#[test]
fn spans_count_characters_not_bytes() {
    // Each Greek letter is two bytes in UTF-8; offsets must be characters.
    let m = Matcher::new("foo").unwrap();
    let mut r = import("αβγ foo δ");
    r.add_match(&m);
    assert_eq!(r.spans, vec![span(4, 7)]);
    let masked = mask(&r, "X");
    assert_eq!(masked, "αβγ X δ");
}

#[test]
fn byte_ranges_convert_to_character_spans() {
    // "αβc": α at bytes 0..2, β at 2..4, c at 4..5.
    let s = sq::convert::char_span("αβc", 2, 5);
    assert_eq!(s, span(1, 3));
    let whole = sq::convert::char_span("αβc", 0, 5);
    assert_eq!(whole, span(0, 3));
    let empty = sq::convert::char_span("αβc", 4, 4);
    assert_eq!(empty, span(2, 2));
}

#[test]
fn matching_multibyte_pattern() {
    let m = Matcher::new("β.").unwrap();
    let mut r = import("αβγ");
    let printed = print(&r, &m, false);
    assert_eq!(printed, vec!["βγ".to_string()]);
    r.add_match(&m);
    assert_eq!(r.spans, vec![span(1, 3)]);
    assert_eq!(mask(&r, "·"), "α·");
}

#[test]
fn mask_with_no_spans_returns_text() {
    let r = import("nothing here");
    assert_eq!(mask(&r, "X"), "nothing here");
}

#[test]
fn mask_length_law_on_concrete_records() {
    // length(out) = length(text) - sum(span lengths) + label_length * count.
    let r = Record {
        text: String::from("abcdefghij"),
        spans: vec![span(1, 3), span(5, 9)],
    };
    let label = "LBL";
    let out = mask(&r, label);
    assert_eq!(out, "aLBLdeLBLj");
    assert_eq!(out.chars().count(), 10 - (2 + 4) + 3 * 2);

    let empty_label = mask(&r, "");
    assert_eq!(empty_label, "adej");
    assert_eq!(empty_label.chars().count(), 10 - 6);
}

#[test]
fn mask_spans_at_text_edges() {
    let r = Record {
        text: String::from("abcdef"),
        spans: vec![span(0, 2), span(4, 6)],
    };
    assert_eq!(mask(&r, "-"), "-cd-");
    let all = Record { text: String::from("abc"), spans: vec![span(0, 3)] };
    assert_eq!(mask(&all, "gone"), "gone");
}

#[test]
fn mask_adjacent_spans() {
    let r = Record {
        text: String::from("abcd"),
        spans: vec![span(0, 2), span(2, 4)],
    };
    assert_eq!(mask(&r, "|"), "||");
}

#[test]
fn well_formedness_check() {
    let good = Record {
        text: String::from("abcdef"),
        spans: vec![span(0, 2), span(2, 4)],
    };
    assert!(good.is_well_formed());
    let beyond = Record { text: String::from("abc"), spans: vec![span(1, 4)] };
    assert!(!beyond.is_well_formed());
    let backwards = Record { text: String::from("abc"), spans: vec![span(2, 1)] };
    assert!(!backwards.is_well_formed());
    let overlapping = Record {
        text: String::from("abcdef"),
        spans: vec![span(0, 3), span(2, 5)],
    };
    assert!(!overlapping.is_well_formed());
    let unordered = Record {
        text: String::from("abcdef"),
        spans: vec![span(4, 6), span(0, 2)],
    };
    assert!(!unordered.is_well_formed());
}
