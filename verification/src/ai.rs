//! Generation backend interface: decoded response frames and the request
//! payload.
//!
//! The backend streams discrete frames; a decoded frame may carry a text
//! delta in its first choice.  The request carries exactly two messages —
//! the system message and the user message naming the artifact to create
//! and the sibling context — and asks for a streamed response.  Decoding
//! the frames from the wire and sending the request are the transport's
//! business, not the library's.

use vstd::prelude::*;

use crate::push_char;
use crate::streaming_parser::run;
use crate::streaming_parser::StreamingParser;

verus! {

/// The text delta of one frame, nested as the backend sends it.
pub struct Delta {
    pub content: Option<String>,
}

/// One choice of a response frame.
pub struct Choice {
    pub delta: Option<Delta>,
}

/// One decoded frame of the backend's response stream.
pub struct AIResponse {
    pub choices: Vec<Choice>,
}

/// The text delta a frame carries: the content of its first choice's delta,
/// when all of those are present.
pub open spec fn frame_content(r: AIResponse) -> Option<Seq<char>> {
    if r.choices@.len() > 0 && r.choices@[0].delta is Some
        && r.choices@[0].delta->Some_0.content is Some {
        Some(r.choices@[0].delta->Some_0.content->Some_0@)
    } else {
        None
    }
}

impl AIResponse {
    /// The text delta this frame carries, if any.  A frame without one is
    /// skipped by the caller, never an error.
    pub fn delta_content(&self) -> (r: Option<String>)
        ensures
            match r {
                Some(c) => frame_content(*self) == Some(c@),
                None => frame_content(*self) is None,
            },
    {
        if self.choices.len() > 0 {
            match &self.choices[0].delta {
                Some(d) => match &d.content {
                    Some(c) => Some(c.clone()),
                    None => None,
                },
                None => None,
            }
        } else {
            None
        }
    }
}

/// Feed one decoded backend frame through the envelope extractor: when the
/// frame carries a text delta, the returned text is exactly what the
/// extractor emits for it, to be written and forwarded by the fan-out sink;
/// a frame without a delta is skipped and leaves the extractor untouched.
pub fn process_frame(parser: &mut StreamingParser, frame: &AIResponse) -> (out: Option<String>)
    ensures
        match frame_content(*frame) {
            Some(c) => {
                let r = run(old(parser).model(), c);
                &&& final(parser).model() == r.0
                &&& out matches Some(s) && s@ == r.1
            },
            None => *final(parser) == *old(parser) && out is None,
        },
{
    match frame.delta_content() {
        Some(c) => Some(parser.feed(c.as_str())),
        None => None,
    }
}

/// One message of the request payload.
pub struct ChatCompletionMessage {
    pub role: String,
    pub content: String,
}

/// The request sent to the backend for one generation.
pub struct RequestPayload {
    pub messages: Vec<ChatCompletionMessage>,
    pub stream: bool,
    pub include_reasoning: Option<bool>,
}

/// Shape the request for one generation: the system message, then the user
/// message, streamed deltas, reasoning left out.
pub fn build_request(system_content: String, user_content: String) -> (r: RequestPayload)
    ensures
        r.messages@.len() == 2,
        r.messages@[0].role@ == "system"@,
        r.messages@[0].content == system_content,
        r.messages@[1].role@ == "user"@,
        r.messages@[1].content == user_content,
        r.stream == true,
        r.include_reasoning == Some(false),
{
    let mut messages: Vec<ChatCompletionMessage> = Vec::new();
    messages.push(
        ChatCompletionMessage { role: String::from_str("system"), content: system_content },
    );
    messages.push(ChatCompletionMessage { role: String::from_str("user"), content: user_content });
    RequestPayload { messages, stream: true, include_reasoning: Some(false) }
}

/// The user message for one generation: the artifact path to create and the
/// sibling assets already cached under the same key.
pub fn build_user_content(path: &str, assets_block: &str) -> (r: String)
    ensures
        r@ == "URL to create: "@ + path@ + "\nAsset files in the same domain:\n"@ + assets_block@,
{
    let mut out = String::from_str("URL to create: ");
    out.append(path);
    out.append("\nAsset files in the same domain:\n");
    out.append(assets_block);
    out
}

/// The character for one decimal digit.
pub open spec fn digit_char(d: int) -> char {
    if d == 0 {
        '0'
    } else if d == 1 {
        '1'
    } else if d == 2 {
        '2'
    } else if d == 3 {
        '3'
    } else if d == 4 {
        '4'
    } else if d == 5 {
        '5'
    } else if d == 6 {
        '6'
    } else if d == 7 {
        '7'
    } else if d == 8 {
        '8'
    } else {
        '9'
    }
}

/// `n` as `width` decimal digits, zero-padded, most significant first.
pub open spec fn padded_decimal(n: int, width: nat) -> Seq<char>
    decreases width,
{
    if width == 0 {
        Seq::empty()
    } else {
        padded_decimal(n / 10, (width - 1) as nat).push(digit_char(n % 10))
    }
}

/// A calendar date as the system message carries it: `YYYY-MM-DD`, the year
/// zero-padded to four digits and preceded by its sign when negative.
pub open spec fn date_string_spec(y: int, m: int, d: int) -> Seq<char> {
    let body = padded_decimal(if y < 0 { -y } else { y }, 4) + seq!['-'] + padded_decimal(m, 2)
        + seq!['-'] + padded_decimal(d, 2);
    if y < 0 {
        seq!['-'] + body
    } else {
        body
    }
}

/// The character for one decimal digit.
fn digit_char_exec(d: u32) -> (c: char)
    requires
        d <= 9,
    ensures
        c == digit_char(d as int),
{
    if d == 0 {
        '0'
    } else if d == 1 {
        '1'
    } else if d == 2 {
        '2'
    } else if d == 3 {
        '3'
    } else if d == 4 {
        '4'
    } else if d == 5 {
        '5'
    } else if d == 6 {
        '6'
    } else if d == 7 {
        '7'
    } else if d == 8 {
        '8'
    } else {
        '9'
    }
}

/// Append `n` as `width` zero-padded decimal digits.
fn push_padded(out: &mut String, n: u32, width: u32)
    ensures
        final(out)@ == old(out)@ + padded_decimal(n as int, width as nat),
    decreases width,
{
    if width == 0 {
        proof {
            assert(old(out)@ + Seq::<char>::empty() =~= old(out)@);
        }
        return ;
    }
    push_padded(out, n / 10, width - 1);
    let c = digit_char_exec(n % 10);
    push_char(out, c);
    proof {
        assert(old(out)@ + padded_decimal(n as int, width as nat) =~= (old(out)@ + padded_decimal(
            n as int / 10,
            (width - 1) as nat,
        )).push(digit_char(n as int % 10)));
    }
}

/// Format a calendar date as `YYYY-MM-DD`.
pub fn format_date(year: i32, month: u8, day: u8) -> (r: String)
    requires
        -9999 <= year <= 9999,
        1 <= month <= 12,
        1 <= day <= 31,
    ensures
        r@ == date_string_spec(year as int, month as int, day as int),
{
    let mut out = String::new();
    let y: u32 = if year < 0 {
        push_char(&mut out, '-');
        (-year) as u32
    } else {
        year as u32
    };
    push_padded(&mut out, y, 4);
    push_char(&mut out, '-');
    push_padded(&mut out, month as u32, 2);
    push_char(&mut out, '-');
    push_padded(&mut out, day as u32, 2);
    proof {
        assert(out@ =~= date_string_spec(year as int, month as int, day as int));
    }
    out
}

/// Relies on `time::OffsetDateTime::now_utc` and its `year`, `month` and
/// `day` accessors: the current UTC calendar date.  The crate bounds dates
/// to the years -9999..=9999; a month converts to 1..=12 and a day is
/// documented as 1..=31.
#[verifier::external_body]
fn today_utc() -> (r: (i32, u8, u8))
    ensures
        -9999 <= r.0 <= 9999,
        1 <= r.1 <= 12,
        1 <= r.2 <= 31,
{
    let now = time::OffsetDateTime::now_utc();
    (now.year(), now.month() as u8, now.day())
}

/// The current UTC date, formatted as the system message carries it.
/// Whatever the clock reads, the result is a formatted calendar date.
pub fn today_string() -> (r: String)
    ensures
        exists|y: int, m: int, d: int|
            -9999 <= y <= 9999 && 1 <= m <= 12 && 1 <= d <= 31 && r@ == date_string_spec(y, m, d),
{
    let (y, m, d) = today_utc();
    let r = format_date(y, m, d);
    proof {
        assert(-9999 <= y as int <= 9999 && 1 <= m as int <= 12 && 1 <= d as int <= 31 && r@
            == date_string_spec(y as int, m as int, d as int));
    }
    r
}

} // verus!
