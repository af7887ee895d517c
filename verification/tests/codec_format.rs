use sq::codec::{parse_record, to_json, to_json_string};
use sq::record::{import, mask, Record};
use sq::span::Span;

fn span(start: usize, end: usize) -> Span {
    Span { start, end }
}

#[test]
fn import_round_trips_to_canonical_line() {
    let r = import("hello");
    assert_eq!(to_json(&r), "{\"text\":\"hello\",\"spans\":[]}");
    let empty = import("");
    assert_eq!(to_json(&empty), "{\"text\":\"\",\"spans\":[]}");
}

#[test]
fn serializes_spans_in_order() {
    let r = Record {
        text: String::from("foo bar foo"),
        spans: vec![span(0, 3), span(8, 11)],
    };
    assert_eq!(
        to_json(&r),
        "{\"text\":\"foo bar foo\",\"spans\":[{\"start\":0,\"end\":3},{\"start\":8,\"end\":11}]}"
    );
}

#[test]
fn escapes_quotes_backslashes_and_controls() {
    let r = import("a\"b\\c\nd\re\tf\u{8}g\u{c}h\u{1}i\u{1f}j");
    assert_eq!(
        to_json(&r),
        "{\"text\":\"a\\\"b\\\\c\\nd\\re\\tf\\bg\\fh\\u0001i\\u001fj\",\"spans\":[]}"
    );
}

#[test]
fn masked_output_is_a_json_string_line() {
    let r = Record {
        text: String::from("foo bar foo"),
        spans: vec![span(0, 3), span(8, 11)],
    };
    let masked = mask(&r, "REDACTED");
    assert_eq!(to_json_string(&masked), "\"REDACTED bar REDACTED\"");
    assert_eq!(to_json_string("say \"hi\""), "\"say \\\"hi\\\"\"");
}

#[test]
fn parses_canonical_record_lines() {
    let rec = parse_record("{\"text\":\"abc\",\"spans\":[]}").unwrap();
    assert_eq!(rec.text, "abc");
    assert_eq!(rec.spans, vec![]);

    let rec = parse_record("{\"text\":\"foo bar foo\",\"spans\":[{\"start\":0,\"end\":3},{\"start\":8,\"end\":11}]}")
        .unwrap();
    assert_eq!(rec.text, "foo bar foo");
    assert_eq!(rec.spans, vec![span(0, 3), span(8, 11)]);
}

#[test]
fn parses_escaped_text() {
    let rec = parse_record("{\"text\":\"a\\\"b\\\\c\\nd\\u0001e\",\"spans\":[]}").unwrap();
    assert_eq!(rec.text, "a\"b\\c\nd\u{1}e");
}

#[test]
fn serialized_records_parse_back_unchanged() {
    let samples = vec![
        import("plain"),
        import(""),
        import("quotes \" and \\ and \ttabs\nlines \u{2} αβγ"),
        Record {
            text: String::from("foo bar foo"),
            spans: vec![span(0, 3), span(8, 11)],
        },
        Record {
            text: String::from("αβγδε"),
            spans: vec![span(1, 2), span(2, 4)],
        },
    ];
    for rec in samples {
        let line = to_json(&rec);
        let back = parse_record(&line).unwrap();
        assert_eq!(back, rec);
        assert_eq!(to_json(&back), line);
    }
}

#[test]
fn rejects_lines_that_are_not_canonical_records() {
    // Wrong shape.
    assert!(parse_record("").is_none());
    assert!(parse_record("{}").is_none());
    assert!(parse_record("{\"spans\":[],\"text\":\"a\"}").is_none());
    assert!(parse_record("{\"text\":\"a\",\"spans\":[]} ").is_none());
    assert!(parse_record("{\"text\":\"a\",\"spans\":[]").is_none());
    assert!(parse_record("{\"text\":\"a\"}").is_none());
    assert!(parse_record("{\"text\":\"a\",\"spans\":[],\"x\":1}").is_none());
    // Bad strings.
    assert!(parse_record("{\"text\":\"a\u{1}b\",\"spans\":[]}").is_none());
    assert!(parse_record("{\"text\":\"a\\x\",\"spans\":[]}").is_none());
    assert!(parse_record("{\"text\":\"a\\u0041\",\"spans\":[]}").is_none());
    assert!(parse_record("{\"text\":\"a\\u000a\",\"spans\":[]}").is_none());
    // Bad numbers.
    assert!(parse_record("{\"text\":\"abc\",\"spans\":[{\"start\":01,\"end\":2}]}").is_none());
    assert!(parse_record("{\"text\":\"abc\",\"spans\":[{\"start\":-1,\"end\":2}]}").is_none());
    // Spans that would break the record invariant.
    assert!(parse_record("{\"text\":\"abc\",\"spans\":[{\"start\":2,\"end\":1}]}").is_none());
    assert!(parse_record("{\"text\":\"abc\",\"spans\":[{\"start\":0,\"end\":4}]}").is_none());
    assert!(
        parse_record(
            "{\"text\":\"abcdef\",\"spans\":[{\"start\":0,\"end\":3},{\"start\":2,\"end\":5}]}"
        )
        .is_none()
    );
    assert!(
        parse_record(
            "{\"text\":\"abcdef\",\"spans\":[{\"start\":4,\"end\":6},{\"start\":0,\"end\":2}]}"
        )
        .is_none()
    );
}

#[test]
fn span_bounds_count_characters_of_parsed_text() {
    // Five characters of text, so a span ending at 5 is accepted even
    // though the text is ten bytes long.
    let line = "{\"text\":\"αβγδε\",\"spans\":[{\"start\":0,\"end\":5}]}";
    let rec = parse_record(line).unwrap();
    assert_eq!(rec.spans, vec![span(0, 5)]);
    assert!(parse_record("{\"text\":\"αβγδε\",\"spans\":[{\"start\":0,\"end\":6}]}").is_none());
}

#[test]
fn touching_spans_parse_as_well_formed() {
    let rec = parse_record(
        "{\"text\":\"abcd\",\"spans\":[{\"start\":0,\"end\":2},{\"start\":2,\"end\":4}]}",
    )
    .unwrap();
    assert_eq!(rec.spans, vec![span(0, 2), span(2, 4)]);
}
