//! Callback URL scheme detection and path extraction.
//!
//! Subscription callbacks can target either HTTP endpoints or local
//! `javascript://` URLs that route to the embedded script engine.

use vstd::prelude::*;
use vstd::string::*;
use crate::text::{self, chars_of, eq_ignore_ascii_case, string_from_chars};

verus! {

/// Recognised callback URL schemes.
#[derive(Debug, Clone, PartialEq)]
pub enum CallbackScheme {
    /// HTTP or HTTPS remote endpoint.
    Http,
    /// Local script execution via the `javascript://` pseudo-protocol,
    /// holding the extracted O-DF path (e.g. `Objects/Device/MetaData/script`).
    JavaScript { path: String },
}

/// The characters of the `javascript://` scheme prefix.
pub open spec fn js_prefix() -> Seq<char> {
    seq!['j', 'a', 'v', 'a', 's', 'c', 'r', 'i', 'p', 't', ':', '/', '/']
}

/// The characters of `http://`.
pub open spec fn http_prefix() -> Seq<char> {
    seq!['h', 't', 't', 'p', ':', '/', '/']
}

/// The characters of `https://`.
pub open spec fn https_prefix() -> Seq<char> {
    seq!['h', 't', 't', 'p', 's', ':', '/', '/']
}

/// The path carried by a `javascript://` URL: what follows the scheme,
/// without one optional leading `/`.
pub open spec fn js_path(url: Seq<char>) -> Seq<char> {
    let rest = url.skip(13);
    if rest.len() > 0 && rest[0] == '/' {
        rest.skip(1)
    } else {
        rest
    }
}

fn js_prefix_exec() -> (v: Vec<char>)
    ensures
        v@ == js_prefix(),
{
    vec!['j', 'a', 'v', 'a', 's', 'c', 'r', 'i', 'p', 't', ':', '/', '/']
}

/// Case-insensitive test of a prefix given as characters.
fn has_prefix_ci(s: &Vec<char>, p: &Vec<char>) -> (r: bool)
    ensures
        r == text::starts_with_ci(s@, p@),
{
    if p.len() > s.len() {
        return false;
    }
    let mut i: usize = 0;
    while i < p.len()
        invariant
            p@.len() <= s@.len(),
            i <= p@.len(),
            forall|j: int| 0 <= j < i ==> text::lower_code(#[trigger] s@[j]) == text::lower_code(p@[j]),
        decreases p@.len() - i,
    {
        if !eq_ignore_ascii_case(s[i], p[i]) {
            return false;
        }
        i = i + 1;
    }
    true
}

/// Exact test of a prefix given as characters.
fn has_prefix(s: &Vec<char>, p: &Vec<char>) -> (r: bool)
    ensures
        r == p@.is_prefix_of(s@),
{
    if p.len() > s.len() {
        return false;
    }
    let mut i: usize = 0;
    while i < p.len()
        invariant
            p@.len() <= s@.len(),
            i <= p@.len(),
            forall|j: int| 0 <= j < i ==> s@[j] == p@[j],
        decreases p@.len() - i,
    {
        if s[i] != p[i] {
            assert(s@.subrange(0, p@.len() as int)[i as int] != p@[i as int]);
            return false;
        }
        i = i + 1;
    }
    assert(s@.subrange(0, p@.len() as int) =~= p@);
    true
}

/// Detect the scheme of a callback URL and extract scheme-specific data.
///
/// - `javascript://Objects/Foo/Bar` gives `JavaScript { path: "Objects/Foo/Bar" }`
///   (the scheme is matched case-insensitively; one leading `/` of the path is dropped)
/// - `http://...` or `https://...` gives `Http`
/// - anything else gives `None`
pub fn parse_callback_url(url: &str) -> (r: Option<CallbackScheme>)
    ensures
        text::starts_with_ci(url@, js_prefix()) ==> (r matches Some(CallbackScheme::JavaScript { path })
            && path@ == js_path(url@)),
        !text::starts_with_ci(url@, js_prefix()) && (http_prefix().is_prefix_of(url@)
            || https_prefix().is_prefix_of(url@)) ==> r == Some(CallbackScheme::Http),
        !text::starts_with_ci(url@, js_prefix()) && !http_prefix().is_prefix_of(url@)
            && !https_prefix().is_prefix_of(url@) ==> r is None,
{
    let cs = chars_of(url);
    let js = js_prefix_exec();
    if has_prefix_ci(&cs, &js) {
        let mut start: usize = 13;
        if cs.len() > 13 && cs[13] == '/' {
            start = 14;
        }
        let mut path_chars: Vec<char> = Vec::new();
        let mut i = start;
        while i < cs.len()
            invariant
                start <= i <= cs@.len(),
                path_chars@ == cs@.subrange(start as int, i as int),
            decreases cs@.len() - i,
        {
            path_chars.push(cs[i]);
            i = i + 1;
        }
        let path = string_from_chars(path_chars.as_slice());
        proof {
            assert(path@ =~= js_path(url@));
        }
        Some(CallbackScheme::JavaScript { path })
    } else {
        let http: Vec<char> = vec!['h', 't', 't', 'p', ':', '/', '/'];
        let https: Vec<char> = vec!['h', 't', 't', 'p', 's', ':', '/', '/'];
        if has_prefix(&cs, &http) || has_prefix(&cs, &https) {
            Some(CallbackScheme::Http)
        } else {
            None
        }
    }
}

/// Returns `true` if `url` uses the `javascript://` scheme (case-insensitive).
pub fn is_javascript_callback(url: &str) -> (r: bool)
    ensures
        r == text::starts_with_ci(url@, js_prefix()),
{
    let cs = chars_of(url);
    let js = js_prefix_exec();
    has_prefix_ci(&cs, &js)
}

} // verus!
