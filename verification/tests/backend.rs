use web2050::ai::{
    build_request, build_user_content, format_date, process_frame, today_string, AIResponse,
    Choice, Delta,
};
use web2050::assets::{Asset, AssetList};
use web2050::streaming_parser::StreamingParser;

fn frame(content: Option<&str>) -> AIResponse {
    AIResponse {
        choices: vec![Choice { delta: Some(Delta { content: content.map(String::from) }) }],
    }
}

#[test]
fn request_carries_system_then_user_message() {
    let r = build_request(String::from("sys"), String::from("usr"));
    assert_eq!(r.messages.len(), 2);
    assert_eq!(r.messages[0].role, "system");
    assert_eq!(r.messages[0].content, "sys");
    assert_eq!(r.messages[1].role, "user");
    assert_eq!(r.messages[1].content, "usr");
    assert!(r.stream);
    assert_eq!(r.include_reasoning, Some(false));
}

#[test]
fn user_content_names_path_and_context() {
    let u = build_user_content("example.com/index.html", "CTX");
    assert_eq!(
        u,
        "URL to create: example.com/index.html\nAsset files in the same domain:\nCTX"
    );
}

#[test]
fn delta_content_reads_the_first_choice() {
    assert_eq!(frame(Some("hi")).delta_content(), Some(String::from("hi")));
    assert_eq!(frame(None).delta_content(), None);
    let empty = AIResponse { choices: vec![] };
    assert_eq!(empty.delta_content(), None);
    let bare = AIResponse { choices: vec![Choice { delta: None }] };
    assert_eq!(bare.delta_content(), None);
}

#[test]
fn frames_stream_through_the_extractor() {
    let mut p = StreamingParser::new();
    let mut out = String::new();
    let frames = vec![
        frame(Some("ignored <_ou")),
        frame(None),
        frame(Some("t>CONTENT")),
        frame(Some("_REJECTED</_out> tail")),
    ];
    for f in &frames {
        if let Some(chunk) = process_frame(&mut p, f) {
            out.push_str(&chunk);
        }
    }
    assert_eq!(out, "CONTENT_REJECTED");
}

#[test]
fn dates_format_zero_padded() {
    assert_eq!(format_date(2025, 3, 7), "2025-03-07");
    assert_eq!(format_date(476, 12, 31), "0476-12-31");
    assert_eq!(format_date(0, 1, 1), "0000-01-01");
    assert_eq!(format_date(-44, 3, 15), "-0044-03-15");
}

#[test]
fn today_is_a_formatted_date() {
    let t = today_string();
    let chars: Vec<char> = t.chars().collect();
    assert_eq!(chars.len(), 10);
    assert_eq!(chars[4], '-');
    assert_eq!(chars[7], '-');
    for i in [0, 1, 2, 3, 5, 6, 8, 9] {
        assert!(chars[i].is_ascii_digit());
    }
}

#[test]
fn asset_renders_as_fenced_block() {
    let a = Asset { path: String::from("a.css"), content: String::from("body{}") };
    assert_eq!(a.render(), "a.css\n```\nbody{}\n```\n");
}

#[test]
fn asset_list_renders_blocks_with_blank_lines() {
    let list = AssetList(vec![
        Asset { path: String::from("a.css"), content: String::from("body{}") },
        Asset { path: String::from("b.html"), content: String::from("<hi/>") },
    ]);
    assert_eq!(
        list.render(),
        "a.css\n```\nbody{}\n```\n\n\nb.html\n```\n<hi/>\n```\n\n\n"
    );
    assert_eq!(AssetList(vec![]).render(), "");
}
