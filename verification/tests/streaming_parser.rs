use web2050::streaming_parser::StreamingParser;

#[test]
fn extracts_payload_from_single_chunk() {
    let mut p = StreamingParser::new();
    let out = p.feed("hello <_out>AB</_out> world");
    assert_eq!(out, "AB");
}

#[test]
fn extracts_payload_from_split_chunks() {
    let mut p = StreamingParser::new();
    assert_eq!(p.feed("hello <_ou"), "");
    assert_eq!(p.feed("t>A"), "A");
    assert_eq!(p.feed("B</_out"), "B");
    assert_eq!(p.feed("> world"), "");
}

#[test]
fn extracts_payload_char_by_char() {
    let mut p = StreamingParser::new();
    let mut out = String::new();
    for c in "q<_out>Z</_out>w".chars() {
        out.push_str(&p.feed(&c.to_string()));
    }
    assert_eq!(out, "Z");
}

#[test]
fn rejection_sentinel_passes_through() {
    let mut p = StreamingParser::new();
    let out = p.feed("<_out>CONTENT_REJECTED</_out>");
    assert_eq!(out, "CONTENT_REJECTED");
}

#[test]
fn closed_is_terminal() {
    let mut p = StreamingParser::new();
    let out = p.feed("<_out>AB</_out>");
    assert_eq!(out, "AB");
    assert_eq!(p.feed("tail"), "");
    assert_eq!(p.feed("<_out>more</_out>"), "");
}

#[test]
fn markup_inside_payload_is_kept_verbatim() {
    let mut p = StreamingParser::new();
    let out = p.feed("<_out>a<b>c</b>d</_out>");
    assert_eq!(out, "a<b>c</b>d");
}

#[test]
fn other_tags_before_marker_are_dropped() {
    let mut p = StreamingParser::new();
    let out = p.feed("<think>x</think><_out>Y</_out>");
    assert_eq!(out, "Y");
}

#[test]
fn no_marker_means_no_output() {
    let mut p = StreamingParser::new();
    assert_eq!(p.feed("no markers here"), "");
    assert_eq!(p.feed("still > none <"), "");
}

#[test]
fn stream_ending_inside_keeps_forwarded_text() {
    let mut p = StreamingParser::new();
    let out = p.feed("<_out>AB");
    assert_eq!(out, "AB");
}

#[test]
fn non_marker_fragment_is_released_immediately() {
    // Only a close-marker prefix is ever withheld: a fragment that cannot
    // be one is released the moment that is known.
    let mut p = StreamingParser::new();
    assert_eq!(p.feed("<_out>AB<cccccccccccc"), "AB<cccccccccccc");
    assert_eq!(p.feed("d>E"), "d>E");
}

#[test]
fn marker_prefix_is_withheld_until_decided() {
    let mut p = StreamingParser::new();
    assert_eq!(p.feed("<_out>AB</_ou"), "AB");
    assert_eq!(p.feed("x"), "</_oux");
}

#[test]
fn withheld_marker_prefix_completing_closes() {
    let mut p = StreamingParser::new();
    assert_eq!(p.feed("<_out>AB</_ou"), "AB");
    assert_eq!(p.feed("t>Z"), "");
}

#[test]
fn multibyte_text_survives_chunking() {
    let mut p = StreamingParser::new();
    let mut out = String::new();
    out.push_str(&p.feed("héllo <_"));
    out.push_str(&p.feed("out>héé→"));
    out.push_str(&p.feed("</_out>"));
    assert_eq!(out, "héé→");
}

#[test]
fn chunking_matches_whole_input() {
    let input = "pre <x><_out>pay<load/>rest</_out> post";
    let mut whole = StreamingParser::new();
    let expected = whole.feed(input);
    for split in 0..=input.chars().count() {
        let a: String = input.chars().take(split).collect();
        let b: String = input.chars().skip(split).collect();
        let mut p = StreamingParser::new();
        let mut out = p.feed(&a);
        out.push_str(&p.feed(&b));
        assert_eq!(out, expected);
    }
}
