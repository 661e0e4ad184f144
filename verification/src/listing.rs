//! Index page entries.
//!
//! The index page lists every artifact that has been generated so far and
//! lets a visitor search their content.  Each line the search tool prints
//! becomes one list entry: a link for a plain file listing, or a link with
//! an escaped content snippet for a search hit.  Running the search and
//! streaming the page around these entries is the server's business; the
//! library owns the shape of each entry.

use vstd::prelude::*;
use vstd::string::StrSliceExecFns;

use crate::resolver::{find_first_char, first_index_of, lemma_first_index_of_props};

verus! {

/// How one character stands in escaped HTML text: `&`, `<` and `>` become
/// their entities, everything else stays itself.
pub open spec fn escaped_char(c: char) -> Seq<char> {
    if c == '&' {
        "&amp;"@
    } else if c == '<' {
        "&lt;"@
    } else if c == '>' {
        "&gt;"@
    } else {
        seq![c]
    }
}

/// Text escaped for use as HTML content, character by character.
pub open spec fn html_escaped(s: Seq<char>) -> Seq<char>
    decreases s.len(),
{
    if s.len() == 0 {
        Seq::empty()
    } else {
        html_escaped(s.drop_last()) + escaped_char(s.last())
    }
}

/// Relies on `html_escape::encode_text`: escapes exactly `&`, `<` and `>`
/// as their HTML entities and keeps every other character as it stands.
#[verifier::external_body]
fn escape_text(s: &str) -> (r: String)
    ensures
        r@ == html_escaped(s@),
{
    html_escape::encode_text(s).into_owned()
}

/// One entry of the plain file listing: a link to the artifact's path.
pub open spec fn file_entry_spec(line: Seq<char>) -> Seq<char> {
    "<li><a href=\"/"@ + line + "\">"@ + line + "</a></li>"@
}

/// One entry of a content search: the line is `path:snippet`; the entry
/// links the path and shows the snippet, escaped.  A line without a
/// separator yields no entry.
pub open spec fn search_entry_spec(line: Seq<char>) -> Option<Seq<char>> {
    let i = first_index_of(line, ':');
    if i == -1 {
        None
    } else {
        let path = line.subrange(0, i);
        let snippet = line.subrange(i + 1, line.len() as int);
        Some(
            "<li><a href=\"/"@ + path + "\">"@ + path + "</a><pre><code>"@ + html_escaped(snippet)
                + "</code></pre></li>"@,
        )
    }
}

/// The list entry for one line of the plain file listing.
pub fn file_entry(line: &str) -> (r: String)
    ensures
        r@ == file_entry_spec(line@),
{
    let mut out = String::from_str("<li><a href=\"/");
    out.append(line);
    out.append("\">");
    out.append(line);
    out.append("</a></li>");
    out
}

/// The list entry for one line of a content search, when the line carries
/// the `path:snippet` separator.
pub fn search_entry(line: &str) -> (r: Option<String>)
    ensures
        match r {
            Some(s) => search_entry_spec(line@) == Some(s@),
            None => search_entry_spec(line@) is None,
        },
{
    let n = line.unicode_len();
    let sep = find_first_char(line, ':');
    proof {
        lemma_first_index_of_props(line@, ':');
    }
    match sep {
        None => None,
        Some(i) => {
            let path = line.substring_char(0, i);
            let snippet = line.substring_char(i + 1, n);
            let mut out = String::from_str("<li><a href=\"/");
            out.append(path);
            out.append("\">");
            out.append(path);
            out.append("</a><pre><code>");
            let escaped = escape_text(snippet);
            out.append(escaped.as_str());
            out.append("</code></pre></li>");
            Some(out)
        },
    }
}

} // verus!
