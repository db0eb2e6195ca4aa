//! HTTP helpers: URI and query-string handling, HTML escaping and the
//! landing page.

use vstd::prelude::*;
use vstd::string::*;
use crate::scan::{self, split_chars, is_first_index};
use crate::text::{self, chars_of, push_str, push_char};
use crate::omi::{is_mutating, OmiMessage, Operation, OperationView, ReadOp};

verus! {

/// Body reading error: empty, too large, or I/O failure.
#[derive(Debug)]
pub enum BodyError {
    Empty,
    TooLarge,
    ReadFailed,
}

// ---------------------------------------------------------------------------
// URI / query-string helpers
// ---------------------------------------------------------------------------

/// `p` is the part of `uri` before its first `?` (all of it when there is none).
pub open spec fn is_uri_path(uri: Seq<char>, p: Seq<char>) -> bool {
    &&& p.len() <= uri.len()
    &&& p == uri.subrange(0, p.len() as int)
    &&& !p.contains('?')
    &&& (p.len() == uri.len() || uri[p.len() as int] == '?')
}

/// Strip the query string from a URI, returning just the path.
pub fn uri_path(uri: &str) -> (r: &str)
    ensures
        is_uri_path(uri@, r@),
{
    let cs = chars_of(uri);
    match scan::find_char(cs.as_slice(), '?') {
        Some(i) => {
            let r = uri.substring_char(0, i);
            proof {
                assert(!r@.contains('?')) by {
                    if r@.contains('?') {
                        let k = choose|k: int| 0 <= k < r@.len() && r@[k] == '?';
                        assert(uri@[k] == '?');
                    }
                }
            }
            r
        },
        None => {
            let r = uri.substring_char(0, cs.len());
            proof {
                assert(r@ =~= uri@);
            }
            r
        },
    }
}

/// What follows the first `?` of `uri`, if it has one.
pub open spec fn spec_uri_query(uri: Seq<char>) -> Option<Seq<char>> {
    if uri.contains('?') {
        let i = choose|i: int| is_first_index(uri, '?', i);
        Some(uri.subrange(i + 1, uri.len() as int))
    } else {
        None
    }
}

proof fn lemma_first_index_unique(s: Seq<char>, c: char, i: int, j: int)
    requires
        is_first_index(s, c, i),
        is_first_index(s, c, j),
    ensures
        i == j,
{
}

/// Extract the query string after `?`, if present.
pub fn uri_query(uri: &str) -> (r: Option<&str>)
    ensures
        r matches Some(q) ==> spec_uri_query(uri@) == Some(q@),
        r is None ==> spec_uri_query(uri@) is None,
{
    let cs = chars_of(uri);
    match scan::find_char(cs.as_slice(), '?') {
        Some(i) => {
            proof {
                let k = choose|k: int| is_first_index(uri@, '?', k);
                lemma_first_index_unique(uri@, '?', i as int, k);
            }
            let n = cs.len();
            Some(uri.substring_char(i + 1, n))
        },
        None => None,
    }
}

/// The `key=value` entries of a query string that have a non-empty key: the
/// key is what comes before the first `=`, the value what comes after it.
/// Entries without `=` are left out.
pub open spec fn query_pairs(pieces: Seq<Seq<char>>) -> Seq<(Seq<char>, Seq<char>)>
    decreases pieces.len(),
{
    if pieces.len() == 0 {
        Seq::empty()
    } else {
        let rest = query_pairs(pieces.drop_last());
        let p = pieces.last();
        if p.contains('=') {
            let i = choose|i: int| is_first_index(p, '=', i);
            if i > 0 {
                rest.push((p.subrange(0, i), p.subrange(i + 1, p.len() as int)))
            } else {
                rest
            }
        } else {
            rest
        }
    }
}

/// The query pairs of `query`, split at `&`.
pub open spec fn spec_query_params(query: Seq<char>) -> Seq<(Seq<char>, Seq<char>)> {
    query_pairs(split_chars(query, '&'))
}

/// Views of borrowed pairs of text.
pub open spec fn pair_views(v: Seq<(&str, &str)>) -> Seq<(Seq<char>, Seq<char>)> {
    v.map_values(|p: (&str, &str)| (p.0@, p.1@))
}

/// Split a query string `key=value&key2=value2` into borrowed pairs.
/// Entries without `=` or with an empty key are skipped.
pub fn parse_query_params(query: &str) -> (r: Vec<(&str, &str)>)
    ensures
        pair_views(r@) == spec_query_params(query@),
{
    let cs = chars_of(query);
    let ranges = scan::split_ranges(cs.as_slice(), '&');
    let ghost pieces = split_chars(query@, '&');
    let mut out: Vec<(&str, &str)> = Vec::new();
    let mut k: usize = 0;
    while k < ranges.len()
        invariant
            cs@ == query@,
            pieces == split_chars(query@, '&'),
            ranges@.len() == pieces.len(),
            forall|j: int|
                0 <= j < ranges@.len() ==> (#[trigger] ranges@[j]).0 <= ranges@[j].1 <= cs@.len()
                    && cs@.subrange(ranges@[j].0 as int, ranges@[j].1 as int) == pieces[j],
            k <= ranges@.len(),
            pair_views(out@) == query_pairs(pieces.take(k as int)),
        decreases ranges@.len() - k,
    {
        let (a, b) = ranges[k];
        let piece = &cs[a..b];
        let ghost p = pieces[k as int];
        proof {
            assert(piece@ == p);
            assert(pieces.take(k + 1).drop_last() =~= pieces.take(k as int));
            assert(pieces.take(k + 1).last() == p);
        }
        match scan::find_char(piece, '=') {
            Some(i) => {
                proof {
                    let j = choose|j: int| is_first_index(p, '=', j);
                    lemma_first_index_unique(p, '=', i as int, j);
                }
                if i > 0 {
                    let key = query.substring_char(a, a + i);
                    let val = query.substring_char(a + i + 1, b);
                    proof {
                        assert(key@ =~= p.subrange(0, i as int));
                        assert(val@ =~= p.subrange(i + 1, p.len() as int));
                    }
                    out.push((key, val));
                    proof {
                        assert(pair_views(out@) =~= query_pairs(pieces.take(k as int)).push(
                            (key@, val@),
                        ));
                    }
                }
            },
            None => {},
        }
        k = k + 1;
    }
    proof {
        assert(pieces.take(k as int) =~= pieces);
    }
    out
}

/// `s` without its trailing `c` characters.
pub open spec fn strip_trailing(s: Seq<char>, c: char) -> Seq<char>
    decreases s.len(),
{
    if s.len() > 0 && s.last() == c {
        strip_trailing(s.drop_last(), c)
    } else {
        s
    }
}

/// The URI path with an exact `/omi` prefix removed (`/omission` keeps its prefix).
pub open spec fn odf_rest(u: Seq<char>) -> Seq<char> {
    if u == "/omi"@ {
        Seq::empty()
    } else if "/omi/"@.is_prefix_of(u) {
        u.subrange(4, u.len() as int)
    } else {
        u
    }
}

/// The O-DF path named by an HTTP URI path, and whether it ended in `/`.
pub open spec fn spec_odf_path(u: Seq<char>) -> (Seq<char>, bool) {
    let rest = odf_rest(u);
    if rest.len() == 0 || rest == "/"@ {
        ("/"@, true)
    } else {
        let t = strip_trailing(rest, '/');
        if t.len() == 0 {
            ("/"@, true)
        } else {
            (t, rest.last() == '/')
        }
    }
}

/// Read parameters taken from the query string of an O-MI GET. `begin` and
/// `end` are times held as the bits of their doubles.
#[derive(Debug, PartialEq, Eq, Structural)]
pub struct OmiReadParams {
    pub newest: Option<u64>,
    pub oldest: Option<u64>,
    pub begin: Option<u64>,
    pub end: Option<u64>,
    pub depth: Option<u64>,
}

impl Default for OmiReadParams {
    /// No parameters.
    fn default() -> (r: Self)
        ensures
            r == (OmiReadParams { newest: None, oldest: None, begin: None, end: None, depth: None }),
    {
        OmiReadParams { newest: None, oldest: None, begin: None, end: None, depth: None }
    }
}

/// The read request that a GET of `odf_path` with `params` stands for:
/// version 1.0, time-to-live 0, a read of the path with the parameters'
/// limits and times, no subscription or callback.
pub open spec fn read_request(odf_path: Seq<char>, params: OmiReadParams) -> crate::omi::OmiMessageView {
    crate::omi::OmiMessageView {
        version: "1.0"@,
        ttl: 0,
        operation: OperationView::Read(
            crate::omi::ReadOpView {
                path: Some(odf_path),
                rid: None,
                newest: params.newest,
                oldest: params.oldest,
                begin: params.begin,
                end: params.end,
                depth: params.depth,
                interval: None,
                callback: None,
            },
        ),
    }
}

/// Build a read message from an O-DF path and parsed query parameters.
pub fn build_read_op(odf_path: &str, params: &OmiReadParams) -> (r: OmiMessage)
    ensures
        r@ == read_request(odf_path@, *params),
{
    OmiMessage {
        version: text::to_string("1.0"),
        ttl: 0,
        operation: Operation::Read(
            ReadOp {
                path: Some(text::to_string(odf_path)),
                rid: None,
                newest: params.newest,
                oldest: params.oldest,
                begin: params.begin,
                end: params.end,
                depth: params.depth,
                interval: None,
                callback: None,
            },
        ),
    }
}

/// Convert an HTTP URI path to an O-DF path by stripping the `/omi` prefix.
///
/// Paths without the `/omi` prefix are returned as-is, without trailing `/`.
/// Returns `(odf_path, has_trailing_slash)`:
/// `/omi` and `/omi/` give `("/", true)`, `/omi/DevA/` gives `("/DevA", true)`,
/// `/omi/DevA/T` gives `("/DevA/T", false)`, `/other` gives `("/other", false)`.
pub fn omi_uri_to_odf_path(uri_path: &str) -> (r: (&str, bool))
    ensures
        (r.0@, r.1) == spec_odf_path(uri_path@),
{
    let cs = chars_of(uri_path);
    let omi = chars_of("/omi/");
    proof {
        reveal_strlit("/omi/");
        reveal_strlit("/omi");
    }
    let mut start: usize = 0;
    let mut end: usize = cs.len();
    if text::str_eq(uri_path, "/omi") {
        start = end;
    } else if scan::has_prefix(cs.as_slice(), omi.as_slice()) {
        start = 4;
    }
    proof {
        assert(cs@.subrange(start as int, end as int) =~= odf_rest(uri_path@));
    }
    let ghost rest = odf_rest(uri_path@);
    if start == end || (end - start == 1 && cs[start] == '/') {
        proof {
            reveal_strlit("/");
            if rest.len() == 1 {
                assert(rest =~= "/"@);
            }
        }
        return ("/", true);
    }
    proof {
        reveal_strlit("/");
        assert(rest != "/"@) by {
            if rest == "/"@ {
                assert(rest[0] == cs@[start as int]);
            }
        }
    }
    let trailing = cs[end - 1] == '/';
    proof {
        assert(rest.last() == cs@[end - 1]);
    }
    while end > start && cs[end - 1] == '/'
        invariant
            start <= end <= cs@.len(),
            strip_trailing(rest, '/') == strip_trailing(cs@.subrange(start as int, end as int), '/'),
        decreases end - start,
    {
        proof {
            let t = cs@.subrange(start as int, end as int);
            assert(t.last() == cs@[end - 1]);
            assert(t.drop_last() =~= cs@.subrange(start as int, end - 1));
        }
        end = end - 1;
    }
    proof {
        let t = cs@.subrange(start as int, end as int);
        if end > start {
            assert(t.last() == cs@[end - 1]);
        }
    }
    if end == start {
        return ("/", true);
    }
    (uri_path.substring_char(start, end), trailing)
}

// ---------------------------------------------------------------------------
// HTML
// ---------------------------------------------------------------------------

/// The HTML form of one character: `& < > " '` become entities.
pub open spec fn html_escape_char(c: char) -> Seq<char> {
    if c == '&' {
        "&amp;"@
    } else if c == '<' {
        "&lt;"@
    } else if c == '>' {
        "&gt;"@
    } else if c == '"' {
        "&quot;"@
    } else if c == '\'' {
        "&#x27;"@
    } else {
        seq![c]
    }
}

/// `s` with each character replaced by its HTML form.
pub open spec fn html_escaped(s: Seq<char>) -> Seq<char>
    decreases s.len(),
{
    if s.len() == 0 {
        Seq::empty()
    } else {
        html_escaped(s.drop_last()) + html_escape_char(s.last())
    }
}

/// The characters that HTML gives a meaning in text and attribute values.
pub open spec fn html_special(c: char) -> bool {
    c == '<' || c == '>' || c == '"' || c == '\''
}

/// Escaped text holds no `<`, `>`, `"` or `'`: it can neither open a tag nor
/// leave a quoted attribute value.
pub proof fn lemma_html_escaped_inert(s: Seq<char>)
    ensures
        forall|i: int| 0 <= i < html_escaped(s).len() ==> !html_special(#[trigger] html_escaped(s)[i]),
    decreases s.len(),
{
    reveal_strlit("&amp;");
    reveal_strlit("&lt;");
    reveal_strlit("&gt;");
    reveal_strlit("&quot;");
    reveal_strlit("&#x27;");
    if s.len() > 0 {
        lemma_html_escaped_inert(s.drop_last());
        let a = html_escaped(s.drop_last());
        let b = html_escape_char(s.last());
        assert forall|i: int| 0 <= i < (a + b).len() implies !html_special(#[trigger] (a + b)[i]) by {
            if i < a.len() {
                assert((a + b)[i] == a[i]);
            } else {
                assert((a + b)[i] == b[i - a.len()]);
            }
        }
    }
}

/// Escape HTML special characters to prevent XSS.
pub fn html_escape(s: &str) -> (r: String)
    ensures
        r@ == html_escaped(s@),
{
    let cs = chars_of(s);
    let mut out = String::new();
    let mut i: usize = 0;
    while i < cs.len()
        invariant
            cs@ == s@,
            i <= cs@.len(),
            out@ == html_escaped(cs@.take(i as int)),
        decreases cs@.len() - i,
    {
        let c = cs[i];
        proof {
            assert(cs@.take(i + 1).drop_last() =~= cs@.take(i as int));
            assert(cs@.take(i + 1).last() == c);
        }
        if c == '&' {
            push_str(&mut out, "&amp;");
        } else if c == '<' {
            push_str(&mut out, "&lt;");
        } else if c == '>' {
            push_str(&mut out, "&gt;");
        } else if c == '"' {
            push_str(&mut out, "&quot;");
        } else if c == '\'' {
            push_str(&mut out, "&#x27;");
        } else {
            push_char(&mut out, c);
            proof {
                assert(out@ =~= html_escaped(cs@.take(i as int)) + seq![c]);
            }
        }
        i = i + 1;
    }
    proof {
        assert(cs@.take(cs@.len() as int) =~= cs@);
    }
    out
}

/// The list entries of the landing page, one link per stored page.
pub open spec fn landing_items(pages: Seq<Seq<char>>) -> Seq<char>
    decreases pages.len(),
{
    if pages.len() == 0 {
        Seq::empty()
    } else {
        let e = html_escaped(pages.last());
        landing_items(pages.drop_last()) + "<li><a href=\""@ + e + "\">"@ + e + "</a></li>"@
    }
}

/// The page list of the landing page.
pub open spec fn landing_list(pages: Seq<Seq<char>>) -> Seq<char> {
    if pages.len() == 0 {
        "<p>No pages stored yet.</p>"@
    } else {
        "<ul>"@ + landing_items(pages) + "</ul>"@
    }
}

/// The landing page around its page list.
pub open spec fn landing_page(pages: Seq<Seq<char>>) -> Seq<char> {
    "<!DOCTYPE html><html><body><h1>Reconfigurable Device</h1><p>Status: running</p><p>PATCH HTML to any path to store a page.</p><h2>Stored pages</h2>"@
        + landing_list(pages) + "</body></html>"@
}

/// Views of borrowed texts.
pub open spec fn str_views(v: Seq<&str>) -> Seq<Seq<char>> {
    v.map_values(|p: &str| p@)
}

/// Render the landing page HTML, including links to all stored pages
/// (given by their paths, in the order in which they are listed).
pub fn render_landing_page(pages: &[&str]) -> (r: String)
    ensures
        r@ == landing_page(str_views(pages@)),
{
    let ghost ps = str_views(pages@);
    let mut list = String::new();
    if pages.len() == 0 {
        push_str(&mut list, "<p>No pages stored yet.</p>");
    } else {
        push_str(&mut list, "<ul>");
        let mut i: usize = 0;
        while i < pages.len()
            invariant
                ps == str_views(pages@),
                pages@.len() > 0,
                i <= pages@.len(),
                list@ == "<ul>"@ + landing_items(ps.take(i as int)),
            decreases pages@.len() - i,
        {
            let escaped = html_escape(pages[i]);
            proof {
                assert(ps.take(i + 1).drop_last() =~= ps.take(i as int));
                assert(ps.take(i + 1).last() == pages@[i as int]@);
            }
            push_str(&mut list, "<li><a href=\"");
            push_str(&mut list, escaped.as_str());
            push_str(&mut list, "\">");
            push_str(&mut list, escaped.as_str());
            push_str(&mut list, "</a></li>");
            proof {
                assert(list@ =~= "<ul>"@ + landing_items(ps.take(i + 1)));
            }
            i = i + 1;
        }
        push_str(&mut list, "</ul>");
        proof {
            assert(ps.take(i as int) =~= ps);
        }
    }
    let mut page = String::new();
    push_str(
        &mut page,
        "<!DOCTYPE html><html><body><h1>Reconfigurable Device</h1><p>Status: running</p><p>PATCH HTML to any path to store a page.</p><h2>Stored pages</h2>",
    );
    push_str(&mut page, list.as_str());
    push_str(&mut page, "</body></html>");
    proof {
        assert(page@ =~= landing_page(ps));
    }
    page
}

/// Check if an OMI operation mutates state (write, delete, cancel, or subscription).
pub fn is_mutating_operation(op: &Operation) -> (r: bool)
    ensures
        r == is_mutating(op@),
{
    match op {
        Operation::Write(_) | Operation::Delete(_) | Operation::Cancel(_) => true,
        Operation::Read(read_op) => read_op.is_subscription(),
        Operation::Response(_) => false,
    }
}

/// Check if an OMI response indicates a successful write (status 200 or 201).
pub fn is_successful_write_response(resp: &OmiMessage) -> (r: bool)
    ensures
        r == (resp@.operation matches OperationView::Response(b) && (b.status == 200 || b.status == 201)),
{
    match &resp.operation {
        Operation::Response(body) => body.status == 200 || body.status == 201,
        _ => false,
    }
}

} // verus!
