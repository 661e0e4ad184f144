//! Path resolver.
//!
//! A raw request path is normalized into the triple that drives the rest of
//! the system: the generation key (the first path segment, scoping mutual
//! exclusion), the normalized artifact path (where the artifact is stored
//! and served from), and the content kind (the extension the media type is
//! derived from).  Requests probing for source maps and requests whose
//! normalized path is too long are rejected here, before any key is ever
//! created.

use vstd::prelude::*;
use vstd::string::StrSliceExecFns;

verus! {

/// The longest normalized artifact path that is accepted, in characters.
pub const MAX_PATH_CHARS: usize = 72;

/// Why a request was rejected before any coordination happened.
#[derive(Clone, Copy, Debug, PartialEq, Eq, Structural)]
pub enum ValidationError {
    /// The final path segment's extension is disallowed (source-map probe).
    BadRequest,
    /// The normalized path exceeds [`MAX_PATH_CHARS`].
    UriTooLong,
}

/// A normalized request: generation key, artifact path, content kind.
pub struct Resolved {
    /// First segment of the normalized path; scopes generation coalescing.
    pub key: String,
    /// The normalized artifact path.
    pub path: String,
    /// The extension the artifact's media type is derived from.
    pub kind: String,
}

/// The path with a single leading separator removed, if one is present.
pub open spec fn strip_leading(s: Seq<char>) -> Seq<char> {
    if s.len() > 0 && s[0] == '/' {
        s.subrange(1, s.len() as int)
    } else {
        s
    }
}

/// Index of the last occurrence of `c` in `s`, or `-1` when absent.
pub open spec fn last_index_of(s: Seq<char>, c: char) -> int
    decreases s.len(),
{
    if s.len() == 0 {
        -1
    } else if s.last() == c {
        s.len() - 1
    } else {
        last_index_of(s.drop_last(), c)
    }
}

/// Index of the first occurrence of `c` in `s`, or `-1` when absent.
pub open spec fn first_index_of(s: Seq<char>, c: char) -> int
    decreases s.len(),
{
    if s.len() == 0 {
        -1
    } else if s[0] == c {
        0
    } else if first_index_of(s.drop_first(), c) == -1 {
        -1
    } else {
        first_index_of(s.drop_first(), c) + 1
    }
}

/// Everything after the last separator; the whole path when it has none.
pub open spec fn last_segment(s: Seq<char>) -> Seq<char> {
    s.subrange(last_index_of(s, '/') + 1, s.len() as int)
}

/// The extension of a path segment: what follows the last dot, provided the
/// dot is neither absent nor leading (a name that merely starts with a dot
/// has no extension).
pub open spec fn extension_of(seg: Seq<char>) -> Option<Seq<char>> {
    let d = last_index_of(seg, '.');
    if d <= 0 {
        None
    } else {
        Some(seg.subrange(d + 1, seg.len() as int))
    }
}

/// Everything before the first separator; the whole path when it has none.
pub open spec fn first_segment(p: Seq<char>) -> Seq<char> {
    let i = first_index_of(p, '/');
    if i == -1 {
        p
    } else {
        p.subrange(0, i)
    }
}

/// What resolving a raw request path yields: `(key, path, kind)`, or the
/// rejection.  In order: a single leading separator is dropped; a path
/// whose final segment carries the `map` extension is rejected; a path of
/// at most one segment, or without an extension, gets the default artifact
/// name appended (directly after a trailing separator, behind a fresh one
/// otherwise) and the `html` kind, any other path is kept with its own
/// extension as kind; a normalized path longer than [`MAX_PATH_CHARS`]
/// characters is rejected; the key is the first segment of the normalized
/// path.
pub open spec fn resolve_spec(raw: Seq<char>) -> Result<
    (Seq<char>, Seq<char>, Seq<char>),
    ValidationError,
> {
    let s = strip_leading(raw);
    let ext = extension_of(last_segment(s));
    if ext == Some("map"@) {
        Err(ValidationError::BadRequest)
    } else {
        let plain = s.len() == 0 || last_index_of(s, '/') == -1 || ext is None;
        let path = if s.len() == 0 {
            "index.html"@
        } else if plain {
            if s.last() == '/' {
                s + "index.html"@
            } else {
                s + "/index.html"@
            }
        } else {
            s
        };
        let kind = if plain {
            "html"@
        } else {
            ext->Some_0
        };
        if path.len() > MAX_PATH_CHARS {
            Err(ValidationError::UriTooLong)
        } else {
            Ok((first_segment(path), path, kind))
        }
    }
}

/// Where the last occurrence of `c` stands in `s`, when it has one.
pub proof fn lemma_last_index_of_props(s: Seq<char>, c: char)
    ensures
        last_index_of(s, c) == -1 ==> forall|j: int| 0 <= j < s.len() ==> s[j] != c,
        last_index_of(s, c) != -1 ==> {
            &&& 0 <= last_index_of(s, c) < s.len()
            &&& s[last_index_of(s, c)] == c
            &&& forall|j: int| last_index_of(s, c) < j < s.len() ==> s[j] != c
        },
    decreases s.len(),
{
    if s.len() > 0 && s.last() != c {
        lemma_last_index_of_props(s.drop_last(), c);
        assert(forall|j: int| 0 <= j < s.len() - 1 ==> s[j] == s.drop_last()[j]);
    }
}

/// Where the first occurrence of `c` stands in `s`, when it has one.
pub proof fn lemma_first_index_of_props(s: Seq<char>, c: char)
    ensures
        first_index_of(s, c) == -1 ==> forall|j: int| 0 <= j < s.len() ==> s[j] != c,
        first_index_of(s, c) != -1 ==> {
            &&& 0 <= first_index_of(s, c) < s.len()
            &&& s[first_index_of(s, c)] == c
            &&& forall|j: int| 0 <= j < first_index_of(s, c) ==> s[j] != c
        },
    decreases s.len(),
{
    if s.len() > 0 && s[0] != c {
        lemma_first_index_of_props(s.drop_first(), c);
        assert(forall|j: int| 1 <= j < s.len() ==> s[j] == s.drop_first()[j - 1]);
    }
}

/// Index of the last occurrence of `c` in `s`, scanning from the end.
fn find_last_char(s: &str, c: char) -> (r: Option<usize>)
    ensures
        r matches Some(i) ==> i < s@.len() && s@[i as int] == c && (forall|j: int|
            i < j < s@.len() ==> s@[j] != c),
        r is None ==> forall|j: int| 0 <= j < s@.len() ==> s@[j] != c,
{
    let n = s.unicode_len();
    let mut i = n;
    while i > 0
        invariant
            i <= n,
            n == s@.len(),
            forall|j: int| i <= j < n ==> s@[j] != c,
        decreases i,
    {
        i = i - 1;
        if s.get_char(i) == c {
            return Some(i);
        }
    }
    None
}

/// Index of the first occurrence of `c` in `s`, scanning from the start.
pub(crate) fn find_first_char(s: &str, c: char) -> (r: Option<usize>)
    ensures
        r matches Some(i) ==> i < s@.len() && s@[i as int] == c && (forall|j: int|
            0 <= j < i ==> s@[j] != c),
        r is None ==> forall|j: int| 0 <= j < s@.len() ==> s@[j] != c,
{
    let n = s.unicode_len();
    let mut i: usize = 0;
    while i < n
        invariant
            i <= n,
            n == s@.len(),
            forall|j: int| 0 <= j < i ==> s@[j] != c,
        decreases n - i,
    {
        if s.get_char(i) == c {
            return Some(i);
        }
        i += 1;
    }
    None
}

/// Whether the extension is the disallowed `map` literal.
fn is_map_ext(e: &str) -> (b: bool)
    ensures
        b == (e@ == "map"@),
{
    proof {
        reveal_strlit("map");
    }
    let b = e.unicode_len() == 3 && e.get_char(0) == 'm' && e.get_char(1) == 'a' && e.get_char(2)
        == 'p';
    proof {
        if b {
            assert(e@ =~= "map"@);
        }
    }
    b
}

/// Normalize a raw request path into its key, artifact path and content
/// kind, or reject it, exactly as [`resolve_spec`] says.
pub fn resolve(raw: &str) -> (r: Result<Resolved, ValidationError>)
    ensures
        r matches Ok(res) ==> resolve_spec(raw@) == Ok::<_, ValidationError>(
            (res.key@, res.path@, res.kind@),
        ),
        r matches Err(e) ==> resolve_spec(raw@) == Err::<
            (Seq<char>, Seq<char>, Seq<char>),
            ValidationError,
        >(e),
{
    let n = raw.unicode_len();
    let stripped: &str = if n > 0 && raw.get_char(0) == '/' {
        raw.substring_char(1, n)
    } else {
        raw
    };
    proof {
        assert(stripped@ =~= strip_leading(raw@));
    }
    let ghost s = strip_leading(raw@);
    let m = stripped.unicode_len();

    let last_slash = find_last_char(stripped, '/');
    proof {
        lemma_last_index_of_props(s, '/');
    }
    let seg_start: usize = match last_slash {
        Some(i) => i + 1,
        None => 0,
    };
    let seg = stripped.substring_char(seg_start, m);
    proof {
        assert(seg@ =~= last_segment(s));
    }

    let last_dot = find_last_char(seg, '.');
    proof {
        lemma_last_index_of_props(seg@, '.');
    }
    let seg_len = m - seg_start;
    let ext: Option<&str> = match last_dot {
        Some(d) => if d > 0 {
            Some(seg.substring_char(d + 1, seg_len))
        } else {
            None
        },
        None => None,
    };
    let ghost ext_spec = extension_of(last_segment(s));
    proof {
        match ext {
            Some(e) => assert(ext_spec == Some(e@)),
            None => assert(ext_spec is None),
        }
    }

    let rejected = match &ext {
        Some(e) => is_map_ext(e),
        None => false,
    };
    if rejected {
        return Err(ValidationError::BadRequest);
    }

    let plain = m == 0 || last_slash.is_none() || ext.is_none();
    let (path, kind): (String, String) = if m == 0 {
        (String::from_str("index.html"), String::from_str("html"))
    } else if plain {
        let mut p = String::from_str(stripped);
        if stripped.get_char(m - 1) == '/' {
            p.append("index.html");
        } else {
            p.append("/index.html");
        }
        (p, String::from_str("html"))
    } else {
        let e = match ext {
            Some(e) => e,
            None => "",
        };
        (String::from_str(stripped), String::from_str(e))
    };

    if path.as_str().unicode_len() > MAX_PATH_CHARS {
        return Err(ValidationError::UriTooLong);
    }

    let first_slash = find_first_char(path.as_str(), '/');
    proof {
        lemma_first_index_of_props(path@, '/');
    }
    let key: &str = match first_slash {
        Some(i) => path.as_str().substring_char(0, i),
        None => path.as_str(),
    };
    proof {
        assert(key@ =~= first_segment(path@));
    }
    Ok(Resolved { key: String::from_str(key), path, kind })
}

/// The media type the guessing table assigns to an extension, when it has
/// an entry for it.  The table is large, but the result depends on the
/// extension alone, so it only carries a name here.
pub uninterp spec fn mime_of_ext(ext: Seq<char>) -> Option<Seq<char>>;

/// Relies on `mime_guess::from_ext` and `MimeGuess::first_raw`: a static,
/// case-insensitive lookup of the media types known for an extension;
/// `first_raw` hands back the first, or nothing when the table has no entry
/// (an empty extension never has one).
#[verifier::external_body]
fn guess_media_type(ext: &str) -> (r: Option<&'static str>)
    ensures
        match r {
            Some(m) => mime_of_ext(ext@) == Some(m@),
            None => mime_of_ext(ext@) == None::<Seq<char>>,
        },
        ext@.len() == 0 ==> r is None,
{
    mime_guess::from_ext(ext).first_raw()
}

/// The `Content-Type` an artifact of this kind is served with: the guessed
/// media type, or `text/html` when the table has no entry — the default has
/// to be html, since the first segment of a domain-like path makes `com`
/// and friends look like extensions.
pub open spec fn content_type_spec(ext: Seq<char>) -> Seq<char> {
    match mime_of_ext(ext) {
        Some(m) => m,
        None => "text/html"@,
    }
}

/// The media type to serve an artifact of kind `ext` with.
pub fn content_type_for(ext: &str) -> (r: String)
    ensures
        r@ == content_type_spec(ext@),
{
    match guess_media_type(ext) {
        Some(m) => String::from_str(m),
        None => String::from_str("text/html"),
    }
}

} // verus!
