//! Captive portal HTTP route helpers: path classification, the redirect
//! response, provisioning form parsing and the provisioning form page.

use vstd::prelude::*;
use vstd::string::*;
use vstd::utf8::{valid_utf8, decode_utf8, encode_utf8};
use crate::scan::{self, split_chars, is_first_index, parse_unsigned};
use crate::text::{self, chars_of, push_str, push_char};
use crate::gpio::encoding::{is_hex_digit, hex_pair_ok, hex_pair_val};
use crate::http::{html_escape, html_escaped};

verus! {

// ---------------------------------------------------------------------------
// Path classification
// ---------------------------------------------------------------------------

/// `path` is an OMI API path: `/omi` itself or anything below `/omi/`.
pub open spec fn spec_is_omi_api_path(path: Seq<char>) -> bool {
    path == "/omi"@ || "/omi/"@.is_prefix_of(path)
}

/// Check if a URI path is an OMI API path that should be excluded from
/// captive portal redirection: `/omi`, `/omi/...`, `/omi/ws`.
pub fn is_omi_api_path(path: &str) -> (r: bool)
    ensures
        r == spec_is_omi_api_path(path@),
{
    if text::str_eq(path, "/omi") {
        return true;
    }
    let cs = chars_of(path);
    let p = chars_of("/omi/");
    scan::has_prefix(cs.as_slice(), p.as_slice())
}

/// A request is sent to the portal form when it is a `GET` of a path that is
/// neither one of the portal's own pages nor an OMI API path.
pub open spec fn spec_should_redirect(method: Seq<char>, path: Seq<char>) -> bool {
    &&& method == "GET"@
    &&& path != "/"@
    &&& path != "/provision"@
    &&& path != "/scan"@
    &&& path != "/status"@
    &&& !spec_is_omi_api_path(path)
}

/// Check if a request should be redirected to the captive portal form.
///
/// Returns `true` for non-API GET requests that should be redirected.
/// Portal-specific paths (`/`, `/provision`, `/scan`, `/status`) and
/// OMI API paths are excluded from redirection.
pub fn should_redirect_to_portal(method: &str, path: &str) -> (r: bool)
    ensures
        r == spec_should_redirect(method@, path@),
{
    if !text::str_eq(method, "GET") {
        return false;
    }
    if text::str_eq(path, "/") || text::str_eq(path, "/provision") || text::str_eq(path, "/scan")
        || text::str_eq(path, "/status") {
        return false;
    }
    if is_omi_api_path(path) {
        return false;
    }
    true
}

// ---------------------------------------------------------------------------
// Redirect response
// ---------------------------------------------------------------------------

/// Text of the redirect response's body.
pub const REDIRECT_TEXT: &'static str = "Redirecting to captive portal...";

/// Render an HTTP 302 redirect pointing to the provisioning form.
///
/// Returns `(status, headers, body)`; the one header is `Location:
/// http://<portal_ip>/`, where `portal_ip` is the device's AP address.
pub fn redirect_to_form(portal_ip: &str) -> (r: (u16, [(&'static str, String); 1], &'static [u8]))
    ensures
        r.0 == 302,
        r.1[0].0@ == "Location"@,
        r.1[0].1@ == "http://"@ + portal_ip@ + "/"@,
        r.2@ == REDIRECT_TEXT.spec_bytes(),
{
    let mut location = String::new();
    push_str(&mut location, "http://");
    push_str(&mut location, portal_ip);
    push_str(&mut location, "/");
    (302, [("Location", location)], REDIRECT_TEXT.as_bytes())
}

// ---------------------------------------------------------------------------
// WiFi scan results and connection status
// ---------------------------------------------------------------------------

/// A visible WiFi network from a scan.
#[derive(Debug, Clone, PartialEq)]
pub struct ScannedNetwork {
    pub ssid: String,
    pub rssi: i32,
    pub auth: String,
}

/// Connection attempt status reported to the client after form submission.
#[derive(Debug, Clone, PartialEq)]
pub struct ConnectionStatus {
    pub state: ConnectionState,
    pub message: Option<String>,
    pub ip: Option<String>,
}

#[derive(Debug, Clone, Copy, PartialEq, Eq, Structural)]
pub enum ConnectionState {
    Idle,
    Connecting,
    Connected,
    Failed,
}

// ---------------------------------------------------------------------------
// Form data parsing
// ---------------------------------------------------------------------------

/// Parsed provisioning form submission.
#[derive(Debug, Clone, PartialEq)]
pub struct ProvisionForm {
    pub credentials: Vec<WifiCredential>,
    pub hostname: Option<String>,
    pub api_key_action: ApiKeyAction,
}

#[derive(Debug, Clone, PartialEq)]
pub struct WifiCredential {
    pub ssid: String,
    pub password: String,
}

#[derive(Debug, Clone, PartialEq)]
pub enum ApiKeyAction {
    Keep,
    Generate,
    SetValue(String),
}

#[derive(Debug, PartialEq, Eq, Structural)]
pub enum FormError {
    NoCredentials,
    EmptySsid,
    InvalidEncoding,
}

/// Bytes put in front of a decoding result, if there is one.
pub open spec fn prepend_opt(p: Seq<u8>, r: Option<Seq<u8>>) -> Option<Seq<u8>> {
    match r {
        Some(v) => Some(p + v),
        None => None,
    }
}

/// Percent-decoding of bytes: `+` stands for a space and `%` followed by two
/// hexadecimal digits for the byte they name; a `%` without them is invalid.
pub open spec fn url_decoded(b: Seq<u8>) -> Option<Seq<u8>>
    decreases b.len(),
{
    if b.len() == 0 {
        Some(Seq::empty())
    } else if b[0] == 43 {
        prepend_opt(seq![32u8], url_decoded(b.drop_first()))
    } else if b[0] == 37 {
        if b.len() < 3 || !hex_pair_ok(b, 1) {
            None
        } else {
            prepend_opt(seq![hex_pair_val(b, 1)], url_decoded(b.subrange(3, b.len() as int)))
        }
    } else {
        prepend_opt(seq![b[0]], url_decoded(b.drop_first()))
    }
}

/// The text that percent-decoding of `t` gives, when the decoded bytes are UTF-8.
pub open spec fn url_decoded_text(t: Seq<char>) -> Option<Seq<char>> {
    match url_decoded(encode_utf8(t)) {
        Some(v) => if valid_utf8(v) {
            Some(decode_utf8(v))
        } else {
            None
        },
        None => None,
    }
}

/// URL-decode a percent-encoded string.
pub fn url_decode(s: &str) -> (r: Result<String, FormError>)
    ensures
        match r {
            Ok(d) => url_decoded_text(s@) == Some(d@),
            Err(e) => url_decoded_text(s@) is None,
        },
        r matches Err(e) ==> e == FormError::InvalidEncoding,
{
    let b = s.as_bytes();
    let ghost bs = b@;
    let mut out: Vec<u8> = Vec::new();
    let mut i: usize = 0;
    proof {
        assert(bs.subrange(0, bs.len() as int) =~= bs);
    }
    while i < b.len()
        invariant
            b@ == bs,
            bs == encode_utf8(s@),
            i <= bs.len(),
            url_decoded(bs) == prepend_opt(out@, url_decoded(bs.subrange(i as int, bs.len() as int))),
        decreases bs.len() - i,
    {
        let ghost t = bs.subrange(i as int, bs.len() as int);
        let c = b[i];
        proof {
            assert(t[0] == c);
        }
        if c == 43 {
            proof {
                assert(t.drop_first() =~= bs.subrange(i + 1, bs.len() as int));
                assert(out@.push(32u8) =~= out@ + seq![32u8]);
                match url_decoded(t.drop_first()) {
                    Some(v) => assert(out@ + (seq![32u8] + v) =~= out@.push(32u8) + v),
                    None => {},
                }
            }
            out.push(32u8);
            i = i + 1;
        } else if c == 37 {
            if b.len() - i < 3 {
                assert(url_decoded(t) is None);
                return Err(FormError::InvalidEncoding);
            }
            let hi = b[i + 1];
            let lo = b[i + 2];
            proof {
                assert(t[1] == hi);
                assert(t[2] == lo);
            }
            let ok = (is_hex_exec(hi) && is_hex_exec(lo)) || (hi == 43 && is_hex_exec(lo));
            if !ok {
                assert(!hex_pair_ok(t, 1));
                assert(url_decoded(t) is None);
                return Err(FormError::InvalidEncoding);
            }
            let v: u8 = if hi == 43 {
                hex_digit_value(lo)
            } else {
                hex_digit_value(hi) * 16 + hex_digit_value(lo)
            };
            proof {
                assert(t.subrange(3, t.len() as int) =~= bs.subrange(i + 3, bs.len() as int));
                match url_decoded(t.subrange(3, t.len() as int)) {
                    Some(w) => assert(out@ + (seq![v] + w) =~= out@.push(v) + w),
                    None => {},
                }
            }
            out.push(v);
            i = i + 3;
        } else {
            proof {
                assert(t.drop_first() =~= bs.subrange(i + 1, bs.len() as int));
                match url_decoded(t.drop_first()) {
                    Some(w) => assert(out@ + (seq![c] + w) =~= out@.push(c) + w),
                    None => {},
                }
            }
            out.push(c);
            i = i + 1;
        }
    }
    proof {
        assert(bs.subrange(i as int, bs.len() as int) =~= Seq::<u8>::empty());
        assert(out@ + Seq::<u8>::empty() =~= out@);
    }
    match text::string_from_utf8(out) {
        Some(d) => Ok(d),
        None => Err(FormError::InvalidEncoding),
    }
}

fn is_hex_exec(c: u8) -> (r: bool)
    ensures
        r == is_hex_digit(c),
{
    (48 <= c && c <= 57) || (65 <= c && c <= 70) || (97 <= c && c <= 102)
}

fn hex_digit_value(c: u8) -> (r: u8)
    requires
        is_hex_digit(c),
    ensures
        r == crate::gpio::encoding::hex_val(c),
        r < 16,
{
    if 48 <= c && c <= 57 {
        c - 48
    } else if 65 <= c && c <= 70 {
        c - 55
    } else {
        c - 87
    }
}


/// What the parser has gathered from the form so far: the `ssid_<n>` and
/// `password_<n>` entries in order (with their slot number), the last
/// non-empty hostname, the last `api_key_action` and the last non-empty `api_key`.
pub type FormScan = (
    Seq<(nat, Seq<char>)>,
    Seq<(nat, Seq<char>)>,
    Option<Seq<char>>,
    Option<Seq<char>>,
    Option<Seq<char>>,
);

/// The slot number in `key` after `prefix`, when it is a number below `max`.
pub open spec fn slot_index(key: Seq<char>, prefix: Seq<char>, max: nat) -> Option<nat> {
    match parse_unsigned(key.subrange(prefix.len() as int, key.len() as int), usize::MAX as nat) {
        Some(i) => if i < max {
            Some(i)
        } else {
            None
        },
        None => None,
    }
}

/// One decoded `key=value` entry taken into the scan.
pub open spec fn form_step(st: FormScan, key: Seq<char>, value: Seq<char>, max: nat) -> FormScan {
    if "ssid_"@.is_prefix_of(key) {
        match slot_index(key, "ssid_"@, max) {
            Some(i) => (st.0.push((i, value)), st.1, st.2, st.3, st.4),
            None => st,
        }
    } else if "password_"@.is_prefix_of(key) {
        match slot_index(key, "password_"@, max) {
            Some(i) => (st.0, st.1.push((i, value)), st.2, st.3, st.4),
            None => st,
        }
    } else if key == "hostname"@ {
        if value.len() > 0 {
            (st.0, st.1, Some(value), st.3, st.4)
        } else {
            st
        }
    } else if key == "api_key_action"@ {
        (st.0, st.1, st.2, Some(value), st.4)
    } else if key == "api_key"@ {
        if value.len() > 0 {
            (st.0, st.1, st.2, st.3, Some(value))
        } else {
            st
        }
    } else {
        st
    }
}

/// The scan of the `&`-separated entries of a form body; nothing when a value
/// is not properly percent-encoded. Entries without `=` are skipped.
pub open spec fn form_scan(pieces: Seq<Seq<char>>, max: nat) -> Option<FormScan>
    decreases pieces.len(),
{
    if pieces.len() == 0 {
        Some((Seq::empty(), Seq::empty(), None, None, None))
    } else {
        match form_scan(pieces.drop_last(), max) {
            None => None,
            Some(st) => {
                let p = pieces.last();
                if p.contains('=') {
                    let i = choose|i: int| is_first_index(p, '=', i);
                    match url_decoded_text(p.subrange(i + 1, p.len() as int)) {
                        Some(v) => Some(form_step(st, p.subrange(0, i), v, max)),
                        None => None,
                    }
                } else {
                    Some(st)
                }
            },
        }
    }
}

/// The first password given for slot `idx`, or the empty text.
pub open spec fn find_password(pw: Seq<(nat, Seq<char>)>, idx: nat) -> Seq<char>
    decreases pw.len(),
{
    if pw.len() == 0 {
        Seq::empty()
    } else if pw[0].0 == idx {
        pw[0].1
    } else {
        find_password(pw.drop_first(), idx)
    }
}

/// The credentials of a form: each non-empty SSID, in order, with its password.
pub open spec fn form_credentials(ssids: Seq<(nat, Seq<char>)>, pw: Seq<(nat, Seq<char>)>) -> Seq<
    (Seq<char>, Seq<char>),
>
    decreases ssids.len(),
{
    if ssids.len() == 0 {
        Seq::empty()
    } else {
        let rest = form_credentials(ssids.drop_last(), pw);
        let e = ssids.last();
        if e.1.len() == 0 {
            rest
        } else {
            rest.push((e.1, find_password(pw, e.0)))
        }
    }
}

/// Every credential that a form gives has a non-empty SSID.
pub proof fn lemma_form_credentials_have_ssid(ssids: Seq<(nat, Seq<char>)>, pw: Seq<(nat, Seq<char>)>)
    ensures
        forall|i: int| 0 <= i < form_credentials(ssids, pw).len() ==> #[trigger] form_credentials(
            ssids,
            pw,
        )[i].0.len() > 0,
    decreases ssids.len(),
{
    if ssids.len() > 0 {
        lemma_form_credentials_have_ssid(ssids.drop_last(), pw);
        let rest = form_credentials(ssids.drop_last(), pw);
        let e = ssids.last();
        if e.1.len() > 0 {
            let full = rest.push((e.1, find_password(pw, e.0)));
            assert forall|i: int| 0 <= i < full.len() implies #[trigger] full[i].0.len() > 0 by {
                if i < rest.len() {
                    assert(full[i] == rest[i]);
                }
            }
        }
    }
}

/// The API key action chosen by the `api_key_action` and `api_key` entries:
/// `generate`, `set` with a key (`set` without one keeps the key), else keep.
pub open spec fn action_is(a: ApiKeyAction, raw: Option<Seq<char>>, key: Option<Seq<char>>) -> bool {
    if raw == Some("generate"@) {
        a is Generate
    } else if raw == Some("set"@) {
        match key {
            Some(k) => (a matches ApiKeyAction::SetValue(s) && s@ == k),
            None => a is Keep,
        }
    } else {
        a is Keep
    }
}

/// Views of numbered texts.
pub open spec fn slot_views(v: Seq<(usize, String)>) -> Seq<(nat, Seq<char>)> {
    v.map_values(|e: (usize, String)| (e.0 as nat, e.1@))
}

/// View of an optional text.
pub open spec fn opt_view(o: Option<String>) -> Option<Seq<char>> {
    match o {
        Some(s) => Some(s@),
        None => None,
    }
}

/// Views of credentials as (SSID, password).
pub open spec fn credential_views(v: Seq<WifiCredential>) -> Seq<(Seq<char>, Seq<char>)> {
    v.map_values(|c: WifiCredential| (c.ssid@, c.password@))
}

/// The form that parsing `body` gives with `max` WiFi slots.
pub open spec fn form_result(body: Seq<char>, max: nat, r: Result<ProvisionForm, FormError>) -> bool {
    match form_scan(split_chars(body, '&'), max) {
        None => r == Err::<ProvisionForm, FormError>(FormError::InvalidEncoding),
        Some(st) => {
            let creds = form_credentials(st.0, st.1);
            if creds.len() == 0 {
                r == Err::<ProvisionForm, FormError>(FormError::NoCredentials)
            } else {
                &&& r is Ok
                &&& credential_views(r->Ok_0.credentials@) == creds
                &&& opt_view(r->Ok_0.hostname) == st.2
                &&& action_is(r->Ok_0.api_key_action, st.3, st.4)
            }
        },
    }
}

/// The form entry `p` (a `key=value` piece of the body) sets the hostname:
/// its key is `hostname` and its value decodes to a non-empty text.
pub open spec fn sets_hostname(p: Seq<char>) -> bool {
    &&& p.contains('=')
    &&& p.subrange(0, choose|i: int| is_first_index(p, '=', i)) == "hostname"@
    &&& url_decoded_text(p.subrange((choose|i: int| is_first_index(p, '=', i)) + 1, p.len() as int))
        matches Some(v)
    &&& v.len() > 0
}

proof fn lemma_scan_hostname(pieces: Seq<Seq<char>>, max: nat)
    ensures
        form_scan(pieces, max) matches Some(st) ==> {
            &&& (st.2 matches Some(h) ==> h.len() > 0)
            &&& (st.2 is Some <==> exists|j: int| 0 <= j < pieces.len() && #[trigger] sets_hostname(pieces[j]))
        },
    decreases pieces.len(),
{
    if pieces.len() > 0 {
        let front = pieces.drop_last();
        lemma_scan_hostname(front, max);
        if let Some(st0) = form_scan(front, max) {
            let p = pieces.last();
            assert(pieces[pieces.len() - 1] == p);
            assert forall|j: int| 0 <= j < front.len() implies front[j] == pieces[j] by {}
            if p.contains('=') {
                let i = choose|i: int| is_first_index(p, '=', i);
                if let Some(v) = url_decoded_text(p.subrange(i + 1, p.len() as int)) {
                    let key = p.subrange(0, i);
                    let st = form_step(st0, key, v, max);
                    if key == "hostname"@ {
                        assert(!"ssid_"@.is_prefix_of(key)) by {
                            reveal_strlit("hostname");
                            reveal_strlit("ssid_");
                            assert(key[0] != "ssid_"@[0]);
                        }
                        assert(!"password_"@.is_prefix_of(key)) by {
                            reveal_strlit("hostname");
                            reveal_strlit("password_");
                            assert(key[0] != "password_"@[0]);
                        }
                        if v.len() > 0 {
                            assert(sets_hostname(pieces[pieces.len() - 1]));
                        } else {
                            assert(!sets_hostname(p));
                            assert forall|j: int| 0 <= j < pieces.len() && #[trigger] sets_hostname(pieces[j])
                                implies 0 <= j < front.len() && sets_hostname(front[j]) by {}
                        }
                    } else {
                        assert(!sets_hostname(p));
                        assert(st.2 == st0.2);
                        assert forall|j: int| 0 <= j < pieces.len() && #[trigger] sets_hostname(pieces[j])
                            implies 0 <= j < front.len() && sets_hostname(front[j]) by {}
                    }
                }
            } else {
                assert(!sets_hostname(p));
                assert forall|j: int| 0 <= j < pieces.len() && #[trigger] sets_hostname(pieces[j])
                    implies 0 <= j < front.len() && sets_hostname(front[j]) by {}
            }
        }
    }
}

/// A form that parses has a hostname exactly when some entry of the body
/// names `hostname` with a non-empty value, and that hostname is never
/// empty: a blank hostname field leaves the hostname unset.
pub proof fn law_form_hostname(body: Seq<char>, max: nat, r: Result<ProvisionForm, FormError>)
    requires
        form_result(body, max, r),
    ensures
        r matches Ok(f) ==> {
            &&& (f.hostname matches Some(h) ==> h@.len() > 0)
            &&& (f.hostname is Some <==> exists|j: int|
                0 <= j < split_chars(body, '&').len() && #[trigger] sets_hostname(split_chars(body, '&')[j]))
        },
{
    lemma_scan_hostname(split_chars(body, '&'), max);
}

/// The SSID that the form entry `p` gives, when it is an `ssid_<n>` entry
/// for a slot below `max`.
pub open spec fn ssid_entry(p: Seq<char>, max: nat) -> Option<Seq<char>> {
    if p.contains('=') {
        let i = choose|i: int| is_first_index(p, '=', i);
        let key = p.subrange(0, i);
        if "ssid_"@.is_prefix_of(key) && slot_index(key, "ssid_"@, max) is Some {
            url_decoded_text(p.subrange(i + 1, p.len() as int))
        } else {
            None
        }
    } else {
        None
    }
}

proof fn lemma_scan_ssids(pieces: Seq<Seq<char>>, max: nat)
    ensures
        form_scan(pieces, max) matches Some(st) ==> {
            &&& forall|e: int| #![trigger st.0[e]] 0 <= e < st.0.len() ==> exists|j: int|
                0 <= j < pieces.len() && #[trigger] ssid_entry(pieces[j], max) == Some(st.0[e].1)
            &&& forall|j: int| 0 <= j < pieces.len() && #[trigger] ssid_entry(pieces[j], max) is Some ==> exists|e: int| #![trigger st.0[e]]
                0 <= e < st.0.len() && st.0[e].1 == ssid_entry(pieces[j], max)->0
            &&& (st.4 matches Some(k) ==> k.len() > 0)
        },
    decreases pieces.len(),
{
    if pieces.len() > 0 {
        let front = pieces.drop_last();
        lemma_scan_ssids(front, max);
        if let Some(st0) = form_scan(front, max) {
            let p = pieces.last();
            assert(pieces[pieces.len() - 1] == p);
            assert forall|j: int| 0 <= j < front.len() implies front[j] == pieces[j] by {}
            if let Some(st) = form_scan(pieces, max) {
                if p.contains('=') {
                    let i = choose|i: int| is_first_index(p, '=', i);
                    let v = url_decoded_text(p.subrange(i + 1, p.len() as int))->0;
                    let key = p.subrange(0, i);
                    assert(st == form_step(st0, key, v, max));
                    if "ssid_"@.is_prefix_of(key) && slot_index(key, "ssid_"@, max) is Some {
                        assert(st.0 == st0.0.push((slot_index(key, "ssid_"@, max)->0, v)));
                        assert(ssid_entry(pieces[pieces.len() - 1], max) == Some(v));
                        assert forall|e: int| #![trigger st.0[e]] 0 <= e < st.0.len() implies exists|j: int|
                            0 <= j < pieces.len() && #[trigger] ssid_entry(pieces[j], max) == Some(st.0[e].1) by {
                            if e < st0.0.len() {
                                assert(st.0[e] == st0.0[e]);
                                let j = choose|j: int| 0 <= j < front.len() && #[trigger] ssid_entry(front[j], max) == Some(st0.0[e].1);
                                assert(ssid_entry(pieces[j], max) == Some(st.0[e].1));
                            } else {
                                assert(ssid_entry(pieces[pieces.len() - 1], max) == Some(st.0[e].1));
                            }
                        }
                        assert forall|j: int| 0 <= j < pieces.len() && #[trigger] ssid_entry(pieces[j], max) is Some implies exists|e: int|
                            #![trigger st.0[e]] 0 <= e < st.0.len() && st.0[e].1 == ssid_entry(pieces[j], max)->0 by {
                            if j < front.len() {
                                assert(ssid_entry(front[j], max) is Some);
                                let e = choose|e: int| #![trigger st0.0[e]] 0 <= e < st0.0.len() && st0.0[e].1 == ssid_entry(front[j], max)->0;
                                assert(st.0[e] == st0.0[e]);
                            } else {
                                assert(st.0[st0.0.len() as int].1 == v);
                            }
                        }
                    } else {
                        assert(ssid_entry(p, max) is None);
                        assert(st.0 == st0.0) by {
                            if "ssid_"@.is_prefix_of(key) {
                            } else if "password_"@.is_prefix_of(key) {
                            }
                        }
                        assert forall|e: int| #![trigger st.0[e]] 0 <= e < st.0.len() implies exists|j: int|
                            0 <= j < pieces.len() && #[trigger] ssid_entry(pieces[j], max) == Some(st.0[e].1) by {
                            let j = choose|j: int| 0 <= j < front.len() && #[trigger] ssid_entry(front[j], max) == Some(st0.0[e].1);
                            assert(ssid_entry(pieces[j], max) == Some(st.0[e].1));
                        }
                        assert forall|j: int| 0 <= j < pieces.len() && #[trigger] ssid_entry(pieces[j], max) is Some implies exists|e: int|
                            #![trigger st.0[e]] 0 <= e < st.0.len() && st.0[e].1 == ssid_entry(pieces[j], max)->0 by {
                            assert(j < front.len());
                            assert(ssid_entry(front[j], max) is Some);
                        }
                    }
                } else {
                    assert(st == st0);
                    assert(ssid_entry(p, max) is None);
                    assert forall|e: int| #![trigger st.0[e]] 0 <= e < st.0.len() implies exists|j: int|
                        0 <= j < pieces.len() && #[trigger] ssid_entry(pieces[j], max) == Some(st.0[e].1) by {
                        let j = choose|j: int| 0 <= j < front.len() && #[trigger] ssid_entry(front[j], max) == Some(st0.0[e].1);
                        assert(ssid_entry(pieces[j], max) == Some(st.0[e].1));
                    }
                    assert forall|j: int| 0 <= j < pieces.len() && #[trigger] ssid_entry(pieces[j], max) is Some implies exists|e: int|
                        #![trigger st.0[e]] 0 <= e < st.0.len() && st.0[e].1 == ssid_entry(pieces[j], max)->0 by {
                        assert(j < front.len());
                        assert(ssid_entry(front[j], max) is Some);
                    }
                }
            }
        }
    }
}

/// Each credential of a form comes from an SSID entry with that (non-empty)
/// text; and a form without credentials has only empty SSIDs.
proof fn lemma_credentials_from(ssids: Seq<(nat, Seq<char>)>, pw: Seq<(nat, Seq<char>)>)
    ensures
        forall|c: int| #![trigger form_credentials(ssids, pw)[c]] 0 <= c < form_credentials(ssids, pw).len() ==> exists|e: int|
            #![trigger ssids[e]] 0 <= e < ssids.len() && ssids[e].1 == form_credentials(ssids, pw)[c].0,
        form_credentials(ssids, pw).len() == 0 ==> forall|e: int| 0 <= e < ssids.len() ==> (#[trigger] ssids[e]).1.len() == 0,
    decreases ssids.len(),
{
    if ssids.len() > 0 {
        let front = ssids.drop_last();
        lemma_credentials_from(front, pw);
        let rest = form_credentials(front, pw);
        let cr = form_credentials(ssids, pw);
        let last = ssids.last();
        assert forall|e: int| 0 <= e < front.len() implies front[e] == ssids[e] by {}
        assert forall|c: int| #![trigger cr[c]] 0 <= c < cr.len() implies exists|e: int|
            #![trigger ssids[e]] 0 <= e < ssids.len() && ssids[e].1 == cr[c].0 by {
            if c < rest.len() {
                assert(cr[c] == rest[c]);
                let e = choose|e: int| #![trigger front[e]] 0 <= e < front.len() && front[e].1 == rest[c].0;
                assert(ssids[e] == front[e]);
            } else {
                assert(ssids[ssids.len() - 1].1 == cr[c].0);
            }
        }
        if cr.len() == 0 {
            assert(last.1.len() == 0);
            assert forall|e: int| 0 <= e < ssids.len() implies (#[trigger] ssids[e]).1.len() == 0 by {
                if e < front.len() {
                    assert(front[e] == ssids[e]);
                }
            }
        }
    }
}

/// A form that parses gives only credentials whose SSIDs are non-empty and
/// stand in `ssid_<n>` entries of the body (for slots below `max`); an
/// API key that it sets is non-empty; and when it fails for want of
/// credentials, every SSID entry of the body is empty.
pub proof fn law_form_credentials(body: Seq<char>, max: nat, r: Result<ProvisionForm, FormError>)
    requires
        form_result(body, max, r),
    ensures
        r matches Ok(f) ==> {
            &&& forall|i: int| 0 <= i < f.credentials@.len() ==> (#[trigger] f.credentials@[i]).ssid@.len() > 0
                && exists|j: int| 0 <= j < split_chars(body, '&').len() && #[trigger] ssid_entry(split_chars(body, '&')[j], max)
                == Some(f.credentials@[i].ssid@)
            &&& (f.api_key_action matches ApiKeyAction::SetValue(k) ==> k@.len() > 0)
        },
        r == Err::<ProvisionForm, FormError>(FormError::NoCredentials) ==> forall|j: int|
            0 <= j < split_chars(body, '&').len() && #[trigger] ssid_entry(split_chars(body, '&')[j], max) is Some
                ==> ssid_entry(split_chars(body, '&')[j], max)->0.len() == 0,
{
    let pieces = split_chars(body, '&');
    lemma_scan_ssids(pieces, max);
    if let Some(st) = form_scan(pieces, max) {
        let creds = form_credentials(st.0, st.1);
        lemma_credentials_from(st.0, st.1);
        lemma_form_credentials_have_ssid(st.0, st.1);
        if let Ok(f) = r {
            assert forall|i: int| 0 <= i < f.credentials@.len() implies (#[trigger] f.credentials@[i]).ssid@.len() > 0
                && exists|j: int| 0 <= j < pieces.len() && #[trigger] ssid_entry(pieces[j], max)
                == Some(f.credentials@[i].ssid@) by {
                assert(credential_views(f.credentials@)[i] == creds[i]);
                assert(creds[i].0 == f.credentials@[i].ssid@);
                let e = choose|e: int| #![trigger st.0[e]] 0 <= e < st.0.len() && st.0[e].1 == creds[i].0;
                let j = choose|j: int| 0 <= j < pieces.len() && #[trigger] ssid_entry(pieces[j], max) == Some(st.0[e].1);
                assert(ssid_entry(pieces[j], max) == Some(f.credentials@[i].ssid@));
            }
        }
        if r == Err::<ProvisionForm, FormError>(FormError::NoCredentials) {
            assert(creds.len() == 0);
            assert forall|j: int| 0 <= j < pieces.len() && #[trigger] ssid_entry(pieces[j], max) is Some
                implies ssid_entry(pieces[j], max)->0.len() == 0 by {
                let e = choose|e: int| #![trigger st.0[e]] 0 <= e < st.0.len() && st.0[e].1 == ssid_entry(pieces[j], max)->0;
                assert(st.0[e].1.len() == 0);
            }
        }
    }
}

/// The password that the form entry `p` gives, when it is a
/// `password_<n>` entry for a slot below `max`.
pub open spec fn password_entry(p: Seq<char>, max: nat) -> Option<Seq<char>> {
    if p.contains('=') {
        let i = choose|i: int| is_first_index(p, '=', i);
        let key = p.subrange(0, i);
        if "password_"@.is_prefix_of(key) && slot_index(key, "password_"@, max) is Some {
            url_decoded_text(p.subrange(i + 1, p.len() as int))
        } else {
            None
        }
    } else {
        None
    }
}

/// The decoded value of the form entry `p` when its key is `key`.
pub open spec fn entry_for(p: Seq<char>, key: Seq<char>) -> Option<Seq<char>> {
    if p.contains('=') && p.subrange(0, choose|i: int| is_first_index(p, '=', i)) == key {
        url_decoded_text(p.subrange((choose|i: int| is_first_index(p, '=', i)) + 1, p.len() as int))
    } else {
        None
    }
}

proof fn lemma_not_prefix(lit: Seq<char>, key: Seq<char>)
    requires
        lit.len() > 0,
        key.len() > 0,
        lit[0] != key[0],
    ensures
        !lit.is_prefix_of(key),
{
}

/// What the scan `st` of `pieces` took from password, action and key
/// entries stands in those entries.
pub open spec fn scan_rest_ok(pieces: Seq<Seq<char>>, max: nat, st: FormScan) -> bool {
    &&& forall|e: int| 0 <= e < st.1.len() ==> #[trigger] password_given(pieces, max, st.1[e].1)
    &&& (st.3 matches Some(v) ==> entry_given(pieces, "api_key_action"@, v))
    &&& (st.4 matches Some(k) ==> entry_given(pieces, "api_key"@, k))
}

/// Some entry of `pieces` is a password entry with the text `x`.
pub open spec fn password_given(pieces: Seq<Seq<char>>, max: nat, x: Seq<char>) -> bool {
    exists|j: int| 0 <= j < pieces.len() && #[trigger] password_entry(pieces[j], max) == Some(x)
}

/// Some entry of `pieces` has the key `key` and the value `x`.
pub open spec fn entry_given(pieces: Seq<Seq<char>>, key: Seq<char>, x: Seq<char>) -> bool {
    exists|j: int| 0 <= j < pieces.len() && #[trigger] entry_for(pieces[j], key) == Some(x)
}

proof fn lemma_scan_rest(pieces: Seq<Seq<char>>, max: nat)
    ensures
        form_scan(pieces, max) is Some ==> scan_rest_ok(pieces, max, form_scan(pieces, max)->0),
    decreases pieces.len(),
{
    if pieces.len() == 0 {
        assert(form_scan(pieces, max) == Some::<FormScan>((Seq::empty(), Seq::empty(), None, None, None)));
    } else {
        let front = pieces.drop_last();
        lemma_scan_rest(front, max);
        if form_scan(front, max) is Some && form_scan(pieces, max) is Some {
            let st0 = form_scan(front, max)->0;
            let st = form_scan(pieces, max)->0;
            lemma_rest_front(front, pieces, max, st0);
            let p = pieces.last();
            if p.contains('=') {
                let i = choose|i: int| is_first_index(p, '=', i);
                let v = url_decoded_text(p.subrange(i + 1, p.len() as int))->0;
                let key = p.subrange(0, i);
                assert(url_decoded_text(p.subrange(i + 1, p.len() as int)) is Some);
                assert(st == form_step(st0, key, v, max));
                proof_from_front(front, pieces, max, st0, st, key, v);
            } else {
                assert(st == st0);
            }
        }
    }
}

/// What stands in the front entries stands in all of them.
proof fn lemma_rest_front(front: Seq<Seq<char>>, pieces: Seq<Seq<char>>, max: nat, st0: FormScan)
    requires
        pieces.len() > 0,
        front == pieces.drop_last(),
        scan_rest_ok(front, max, st0),
    ensures
        scan_rest_ok(pieces, max, st0),
{
    assert forall|e: int| 0 <= e < st0.1.len() implies #[trigger] password_given(pieces, max, st0.1[e].1) by {
        assert(password_given(front, max, st0.1[e].1));
        let j = choose|j: int| 0 <= j < front.len() && #[trigger] password_entry(front[j], max) == Some(st0.1[e].1);
        assert(front[j] == pieces[j]);
        assert(password_entry(pieces[j], max) == Some(st0.1[e].1));
    }
    if let Some(x) = st0.3 {
        let j = choose|j: int| 0 <= j < front.len() && #[trigger] entry_for(front[j], "api_key_action"@) == Some(x);
        assert(front[j] == pieces[j]);
        assert(entry_for(pieces[j], "api_key_action"@) == Some(x));
    }
    if let Some(k) = st0.4 {
        let j = choose|j: int| 0 <= j < front.len() && #[trigger] entry_for(front[j], "api_key"@) == Some(k);
        assert(front[j] == pieces[j]);
        assert(entry_for(pieces[j], "api_key"@) == Some(k));
    }
}

/// The step of [`lemma_scan_rest`] for a last entry with key `key` and value `v`.
proof fn proof_from_front(
    front: Seq<Seq<char>>,
    pieces: Seq<Seq<char>>,
    max: nat,
    st0: FormScan,
    st: FormScan,
    key: Seq<char>,
    v: Seq<char>,
)
    requires
        pieces.len() > 0,
        front == pieces.drop_last(),
        pieces.last().contains('='),
        key == pieces.last().subrange(0, choose|i: int| is_first_index(pieces.last(), '=', i)),
        url_decoded_text(
            pieces.last().subrange((choose|i: int| is_first_index(pieces.last(), '=', i)) + 1, pieces.last().len() as int),
        ) == Some(v),
        st == form_step(st0, key, v, max),
        scan_rest_ok(pieces, max, st0),
    ensures
        scan_rest_ok(pieces, max, st),
{
    let n = pieces.len() - 1;
    let p = pieces.last();
    assert(pieces[n] == p);
    reveal_strlit("ssid_");
    reveal_strlit("password_");
    reveal_strlit("hostname");
    reveal_strlit("api_key_action");
    reveal_strlit("api_key");
    if "ssid_"@.is_prefix_of(key) {
        assert(st.1 == st0.1 && st.3 == st0.3 && st.4 == st0.4);
    } else if "password_"@.is_prefix_of(key) {
        assert(st.3 == st0.3 && st.4 == st0.4);
        if slot_index(key, "password_"@, max) is Some {
            assert(password_entry(pieces[n], max) == Some(v));
            assert(st.1 == st0.1.push((slot_index(key, "password_"@, max)->0, v)));
            assert forall|e: int| 0 <= e < st.1.len() implies #[trigger] password_given(pieces, max, st.1[e].1) by {
                if e < st0.1.len() {
                    assert(st.1[e] == st0.1[e]);
                    assert(password_given(pieces, max, st0.1[e].1));
                } else {
                    assert(password_entry(pieces[n], max) == Some(st.1[e].1));
                }
            }
        } else {
            assert(st.1 == st0.1);
        }
    } else {
        assert(st.1 == st0.1);
        if key == "api_key_action"@ {
            assert(entry_for(pieces[n], "api_key_action"@) == Some(v));
            assert(entry_given(pieces, "api_key_action"@, v));
            assert(st.4 == st0.4);
        } else if key == "api_key"@ {
            assert(st.3 == st0.3);
            if v.len() > 0 {
                assert(entry_for(pieces[n], "api_key"@) == Some(v));
                assert(entry_given(pieces, "api_key"@, v));
            } else {
                assert(st.4 == st0.4);
            }
        } else {
            assert(st.3 == st0.3 && st.4 == st0.4);
        }
    }
}

/// The password of a slot is the value of one of the password entries, or empty.
proof fn lemma_find_password_from(pw: Seq<(nat, Seq<char>)>, idx: nat)
    ensures
        find_password(pw, idx).len() > 0 ==> exists|e: int| #![trigger pw[e]] 0 <= e < pw.len() && pw[e].1 == find_password(pw, idx),
    decreases pw.len(),
{
    if pw.len() > 0 && pw[0].0 != idx {
        lemma_find_password_from(pw.drop_first(), idx);
        if find_password(pw, idx).len() > 0 {
            let e = choose|e: int| #![trigger pw.drop_first()[e]] 0 <= e < pw.drop_first().len() && pw.drop_first()[e].1 == find_password(pw.drop_first(), idx);
            assert(pw[e + 1] == pw.drop_first()[e]);
        }
    }
}

proof fn lemma_credential_passwords(ssids: Seq<(nat, Seq<char>)>, pw: Seq<(nat, Seq<char>)>)
    ensures
        forall|c: int| #![trigger form_credentials(ssids, pw)[c]] 0 <= c < form_credentials(ssids, pw).len()
            && form_credentials(ssids, pw)[c].1.len() > 0 ==> exists|e: int| #![trigger pw[e]] 0 <= e < pw.len() && pw[e].1
            == form_credentials(ssids, pw)[c].1,
    decreases ssids.len(),
{
    if ssids.len() > 0 {
        let front = ssids.drop_last();
        lemma_credential_passwords(front, pw);
        let rest = form_credentials(front, pw);
        let cr = form_credentials(ssids, pw);
        lemma_find_password_from(pw, ssids.last().0);
        assert forall|c: int| #![trigger cr[c]] 0 <= c < cr.len() && cr[c].1.len() > 0 implies exists|e: int| #![trigger pw[e]] 0 <= e
            < pw.len() && pw[e].1 == cr[c].1 by {
            if c < rest.len() {
                assert(cr[c] == rest[c]);
            }
        }
    }
}

/// A form that parses gives only non-empty passwords that stand in
/// `password_<n>` entries of the body; it generates an API key only when an
/// `api_key_action` entry says `generate`, and sets one only when such an
/// entry says `set` and an `api_key` entry gives that key.
pub proof fn law_form_passwords_and_key(body: Seq<char>, max: nat, r: Result<ProvisionForm, FormError>)
    requires
        form_result(body, max, r),
    ensures
        r matches Ok(f) ==> {
            &&& forall|i: int| 0 <= i < f.credentials@.len() && (#[trigger] f.credentials@[i]).password@.len() > 0
                ==> exists|j: int| 0 <= j < split_chars(body, '&').len() && #[trigger] password_entry(split_chars(body, '&')[j], max)
                == Some(f.credentials@[i].password@)
            &&& (f.api_key_action is Generate ==> exists|j: int|
                0 <= j < split_chars(body, '&').len() && #[trigger] entry_for(split_chars(body, '&')[j], "api_key_action"@)
                    == Some("generate"@))
            &&& (f.api_key_action matches ApiKeyAction::SetValue(k) ==> (exists|j: int|
                0 <= j < split_chars(body, '&').len() && #[trigger] entry_for(split_chars(body, '&')[j], "api_key_action"@)
                    == Some("set"@)) && exists|j: int|
                0 <= j < split_chars(body, '&').len() && #[trigger] entry_for(split_chars(body, '&')[j], "api_key"@)
                    == Some(k@))
        },
{
    let pieces = split_chars(body, '&');
    lemma_scan_rest(pieces, max);
    if let Some(st) = form_scan(pieces, max) {
        assert(scan_rest_ok(pieces, max, st));
        let creds = form_credentials(st.0, st.1);
        lemma_credential_passwords(st.0, st.1);
        if let Ok(f) = r {
            assert forall|i: int| 0 <= i < f.credentials@.len() && (#[trigger] f.credentials@[i]).password@.len() > 0
                implies exists|j: int| 0 <= j < pieces.len() && #[trigger] password_entry(pieces[j], max)
                == Some(f.credentials@[i].password@) by {
                assert(credential_views(f.credentials@)[i] == creds[i]);
                let e = choose|e: int| #![trigger st.1[e]] 0 <= e < st.1.len() && st.1[e].1 == creds[i].1;
                assert(password_given(pieces, max, st.1[e].1));
                let j = choose|j: int| 0 <= j < pieces.len() && #[trigger] password_entry(pieces[j], max) == Some(st.1[e].1);
                assert(password_entry(pieces[j], max) == Some(f.credentials@[i].password@));
            }
            if f.api_key_action is Generate || f.api_key_action is SetValue {
                reveal_strlit("generate");
                reveal_strlit("set");
            }
        }
    }
}

/// The password of slot `idx`: the first one given for it, or empty.
fn password_for(passwords: &Vec<(usize, String)>, idx: usize) -> (r: String)
    ensures
        r@ == find_password(slot_views(passwords@), idx as nat),
{
    let ghost pv = slot_views(passwords@);
    let mut j: usize = 0;
    assert(pv.skip(0) =~= pv);
    while j < passwords.len()
        invariant
            pv == slot_views(passwords@),
            j <= passwords@.len(),
            find_password(pv, idx as nat) == find_password(pv.skip(j as int), idx as nat),
        decreases passwords@.len() - j,
    {
        let ghost t = pv.skip(j as int);
        proof {
            assert(t[0] == pv[j as int]);
            assert(t.drop_first() =~= pv.skip(j + 1));
        }
        if passwords[j].0 == idx {
            return passwords[j].1.clone();
        }
        j = j + 1;
    }
    proof {
        assert(pv.skip(j as int) =~= Seq::<(nat, Seq<char>)>::empty());
    }
    String::new()
}

/// Parse the URL-encoded form body of `POST /provision`.
///
/// Fields: `ssid_<n>` and `password_<n>` for slots `n` below `max_aps`,
/// `hostname` (optional), `api_key_action` = `keep` | `generate` | `set`, and
/// `api_key` (used with `set`). Fails with `InvalidEncoding` when a value is
/// not properly percent-encoded, and with `NoCredentials` when no slot has a
/// non-empty SSID.
pub fn parse_provision_form(body: &str, max_aps: usize) -> (r: Result<ProvisionForm, FormError>)
    ensures
        form_result(body@, max_aps as nat, r),
{
    let cs = chars_of(body);
    let ranges = scan::split_ranges(cs.as_slice(), '&');
    let ghost pieces = split_chars(body@, '&');
    let ssid_p = chars_of("ssid_");
    let pass_p = chars_of("password_");
    let host_k = chars_of("hostname");
    let action_k = chars_of("api_key_action");
    let key_k = chars_of("api_key");
    let mut ssids: Vec<(usize, String)> = Vec::new();
    let mut passwords: Vec<(usize, String)> = Vec::new();
    let mut hostname: Option<String> = None;
    let mut action_raw: Option<String> = None;
    let mut api_key: Option<String> = None;
    let mut k: usize = 0;
    while k < ranges.len()
        invariant
            cs@ == body@,
            pieces == split_chars(body@, '&'),
            ranges@.len() == pieces.len(),
            forall|j: int|
                0 <= j < ranges@.len() ==> (#[trigger] ranges@[j]).0 <= ranges@[j].1 <= cs@.len()
                    && cs@.subrange(ranges@[j].0 as int, ranges@[j].1 as int) == pieces[j],
            ssid_p@ == "ssid_"@,
            pass_p@ == "password_"@,
            host_k@ == "hostname"@,
            action_k@ == "api_key_action"@,
            key_k@ == "api_key"@,
            k <= ranges@.len(),
            form_scan(pieces.take(k as int), max_aps as nat) == Some(
                (
                    slot_views(ssids@),
                    slot_views(passwords@),
                    opt_view(hostname),
                    opt_view(action_raw),
                    opt_view(api_key),
                ),
            ),
        decreases ranges@.len() - k,
    {
        let ghost before = (
            slot_views(ssids@),
            slot_views(passwords@),
            opt_view(hostname),
            opt_view(action_raw),
            opt_view(api_key),
        );
        let (a, b) = ranges[k];
        let piece = &cs[a..b];
        let ghost p = pieces[k as int];
        proof {
            assert(piece@ == p);
            assert(pieces.take(k + 1).drop_last() =~= pieces.take(k as int));
            assert(pieces.take(k + 1).last() == p);
        }
        match scan::find_char(piece, '=') {
            None => {},
            Some(i) => {
                proof {
                    let j = choose|j: int| is_first_index(p, '=', j);
                    lemma_first_index_unique(p, '=', i as int, j);
                }
                let raw = body.substring_char(a + i + 1, b);
                proof {
                    assert(raw@ =~= p.subrange(i + 1, p.len() as int));
                }
                let value = match url_decode(raw) {
                    Ok(v) => v,
                    Err(_) => {
                        proof {
                            assert(form_scan(pieces.take(k + 1), max_aps as nat) is None);
                            lemma_form_scan_none_stays(pieces, k + 1, max_aps as nat);
                            assert(pieces.take(pieces.len() as int) =~= pieces);
                        }
                        return Err(FormError::InvalidEncoding);
                    },
                };
                let key = &piece[0..i];
                proof {
                    assert(key@ =~= p.subrange(0, i as int));
                }
                let ghost v = value@;
                if scan::has_prefix(key, ssid_p.as_slice()) {
                    let n = ssid_p.len();
                    match scan::parse_unsigned_range(key, n, i, usize::MAX as u64) {
                        Some(idx) => {
                            if (idx as usize) < max_aps {
                                ssids.push((idx as usize, value));
                                proof {
                                    assert(slot_views(ssids@) =~= before.0.push(
                                        ((idx as usize) as nat, v),
                                    ));
                                }
                            }
                        },
                        None => {},
                    }
                } else if scan::has_prefix(key, pass_p.as_slice()) {
                    let n = pass_p.len();
                    match scan::parse_unsigned_range(key, n, i, usize::MAX as u64) {
                        Some(idx) => {
                            if (idx as usize) < max_aps {
                                passwords.push((idx as usize, value));
                                proof {
                                    assert(slot_views(passwords@) =~= before.1.push(
                                        ((idx as usize) as nat, v),
                                    ));
                                }
                            }
                        },
                        None => {},
                    }
                } else if scan::slice_eq(key, host_k.as_slice()) {
                    if !value.as_str().is_empty() {
                        hostname = Some(value);
                    }
                } else if scan::slice_eq(key, action_k.as_slice()) {
                    action_raw = Some(value);
                } else if scan::slice_eq(key, key_k.as_slice()) {
                    if !value.as_str().is_empty() {
                        api_key = Some(value);
                    }
                }
            },
        }
        k = k + 1;
    }
    proof {
        assert(pieces.take(k as int) =~= pieces);
    }
    let ghost st = (
        slot_views(ssids@),
        slot_views(passwords@),
        opt_view(hostname),
        opt_view(action_raw),
        opt_view(api_key),
    );
    let mut credentials: Vec<WifiCredential> = Vec::new();
    let mut j: usize = 0;
    while j < ssids.len()
        invariant
            j <= ssids@.len(),
            st.0 == slot_views(ssids@),
            st.1 == slot_views(passwords@),
            credential_views(credentials@) == form_credentials(st.0.take(j as int), st.1),
            forall|m: int| 0 <= m < credentials@.len() ==> (#[trigger] credentials@[m]).ssid@.len() > 0,
        decreases ssids@.len() - j,
    {
        proof {
            assert(st.0.take(j + 1).drop_last() =~= st.0.take(j as int));
            assert(st.0.take(j + 1).last() == st.0[j as int]);
        }
        if !ssids[j].1.as_str().is_empty() {
            let password = password_for(&passwords, ssids[j].0);
            let ssid = ssids[j].1.clone();
            credentials.push(WifiCredential { ssid, password });
            proof {
                assert(credential_views(credentials@) =~= form_credentials(st.0.take(j as int), st.1).push(
                    (st.0[j as int].1, find_password(st.1, st.0[j as int].0)),
                ));
            }
        }
        j = j + 1;
    }
    proof {
        assert(st.0.take(j as int) =~= st.0);
    }
    if credentials.len() == 0 {
        return Err(FormError::NoCredentials);
    }
    let mut m: usize = 0;
    while m < credentials.len()
        invariant
            m <= credentials@.len(),
            forall|q: int| 0 <= q < credentials@.len() ==> (#[trigger] credentials@[q]).ssid@.len() > 0,
        decreases credentials@.len() - m,
    {
        if credentials[m].ssid.as_str().is_empty() {
            return Err(FormError::EmptySsid);
        }
        m = m + 1;
    }
    let is_generate = match &action_raw {
        Some(a) => text::str_eq(a.as_str(), "generate"),
        None => false,
    };
    let is_set = match &action_raw {
        Some(a) => text::str_eq(a.as_str(), "set"),
        None => false,
    };
    proof {
        reveal_strlit("generate");
        reveal_strlit("set");
    }
    let api_key_action = if is_generate {
        ApiKeyAction::Generate
    } else if is_set {
        match api_key {
            Some(key) => ApiKeyAction::SetValue(key),
            None => ApiKeyAction::Keep,
        }
    } else {
        ApiKeyAction::Keep
    };
    Ok(ProvisionForm { credentials, hostname, api_key_action })
}

/// Once the scan of a prefix has failed, the scan of every longer prefix fails.
proof fn lemma_form_scan_none_stays(pieces: Seq<Seq<char>>, k: int, max: nat)
    requires
        0 <= k <= pieces.len(),
        form_scan(pieces.take(k), max) is None,
    ensures
        form_scan(pieces.take(pieces.len() as int), max) is None,
    decreases pieces.len() - k,
{
    if k < pieces.len() {
        assert(pieces.take(k + 1).drop_last() =~= pieces.take(k));
        lemma_form_scan_none_stays(pieces, k + 1, max);
    }
}

proof fn lemma_first_index_unique(s: Seq<char>, c: char, i: int, j: int)
    requires
        is_first_index(s, c, i),
        is_first_index(s, c, j),
    ensures
        i == j,
{
}


// ---------------------------------------------------------------------------
// Provisioning form HTML
// ---------------------------------------------------------------------------

pub const FORM_HEAD: &'static str = "<!DOCTYPE html><html><head><meta charset=\"utf-8\"><meta name=\"viewport\" content=\"width=device-width,initial-scale=1\"><title>Device Setup</title><style>*{box-sizing:border-box;margin:0;padding:0}body{font-family:sans-serif;padding:1em;max-width:480px;margin:0 auto;background:#f5f5f5}h1{margin-bottom:.5em}.field{margin-bottom:1em}label{display:block;font-weight:bold;margin-bottom:.25em}input[type=text],input[type=password],select{width:100%;padding:.5em;border:1px solid #ccc;border-radius:4px}button{padding:.75em 1.5em;background:#0066cc;color:#fff;border:none;border-radius:4px;cursor:pointer;font-size:1em}button:hover{background:#0052a3}.error{background:#fee;border:1px solid #c00;padding:.75em;border-radius:4px;margin-bottom:1em;color:#c00}.ap-group{border:1px solid #ddd;padding:.75em;margin-bottom:.5em;border-radius:4px;background:#fff}.ap-group h3{margin-bottom:.5em}#status{display:none;padding:.75em;border-radius:4px;margin-top:1em}</style></head><body><h1>Device Setup</h1>";

pub const FORM_ERROR_OPEN: &'static str = "<div class=\"error\">";

pub const FORM_ERROR_CLOSE: &'static str = "</div>";

pub const FORM_OPEN: &'static str = "<form method=\"POST\" action=\"/provision\" id=\"provForm\">";

pub const SLOT_LABEL_REQUIRED: &'static str = "WiFi Network (required)";

pub const SLOT_LABEL_OPTIONAL: &'static str = "WiFi Network (optional)";

pub const SLOT_OPEN: &'static str = "<div class=\"ap-group\"><h3>";

pub const SLOT_SSID_NAME: &'static str = "</h3><div class=\"field\"><label>SSID</label><input type=\"text\" name=\"ssid_";

pub const SLOT_VALUE: &'static str = "\" value=\"";

pub const SLOT_REQUIRED: &'static str = " required";

pub const SLOT_PASSWORD_NAME: &'static str = "></div><div class=\"field\"><label>Password</label><input type=\"password\" name=\"password_";

pub const SLOT_CLOSE: &'static str = "\"></div></div>";

pub const HOSTNAME_OPEN: &'static str = "<div class=\"field\"><label>Hostname</label><input type=\"text\" name=\"hostname\" value=\"";

pub const HOSTNAME_CLOSE: &'static str = "\" placeholder=\"eOMI\"></div>";

pub const API_KEY_OPEN: &'static str = "<div class=\"field\"><label>API Key</label><select name=\"api_key_action\">";

pub const API_KEY_KEEP: &'static str = "<option value=\"keep\">Keep existing</option>";

pub const API_KEY_GENERATE: &'static str = "<option value=\"generate\"";

pub const API_KEY_SELECTED: &'static str = " selected";

pub const API_KEY_REST: &'static str = ">Generate new</option><option value=\"set\">Set manually</option></select></div><div class=\"field\" id=\"apiKeyField\" style=\"display:none\"><label>API Key Value</label><input type=\"text\" name=\"api_key\" placeholder=\"Enter API key\"></div>";

pub const FORM_TAIL: &'static str = "<button type=\"submit\">Save &amp; Connect</button></form><div id=\"status\"></div><script>var sel=document.querySelector('[name=api_key_action]');var f=document.getElementById('apiKeyField');sel.addEventListener('change',function(){f.style.display=sel.value==='set'?'':'none'});sel.dispatchEvent(new Event('change'));document.getElementById('provForm').addEventListener('submit',function(){var s=document.getElementById('status');s.style.display='block';s.style.background='#ffe';s.style.border='1px solid #cc0';s.textContent='Connecting...';setTimeout(function(){fetch('/status').then(function(r){return r.json()}).then(function(d){if(d.state==='connected'){s.style.background='#efe';s.style.border='1px solid #0c0';s.textContent='Connected! IP: '+(d.ip||'unknown')}else if(d.state==='failed'){s.style.background='#fee';s.style.border='1px solid #c00';s.textContent='Failed: '+(d.message||'unknown error')}else{s.textContent='Status: '+d.state}}).catch(function(){s.textContent='Checking...'})},3000)});</script></body></html>";

/// The HTML of WiFi slot `i`, pre-filled with the `i`-th saved SSID if there is one.
pub open spec fn slot_html(i: nat, saved: Seq<Seq<char>>) -> Seq<char> {
    let label = if i == 0 {
        SLOT_LABEL_REQUIRED@
    } else {
        SLOT_LABEL_OPTIONAL@
    };
    let sv = if i < saved.len() {
        saved[i as int]
    } else {
        Seq::empty()
    };
    let num = text::ascii_chars(text::decimal_digits(i));
    SLOT_OPEN@ + label + SLOT_SSID_NAME@ + num + SLOT_VALUE@ + html_escaped(sv) + seq!['"'] + (
    if i == 0 {
        SLOT_REQUIRED@
    } else {
        Seq::empty()
    }) + SLOT_PASSWORD_NAME@ + num + SLOT_CLOSE@
}

/// The HTML of the first `n` WiFi slots.
pub open spec fn slots_html(n: nat, saved: Seq<Seq<char>>) -> Seq<char>
    decreases n,
{
    if n == 0 {
        Seq::empty()
    } else {
        slots_html((n - 1) as nat, saved) + slot_html((n - 1) as nat, saved)
    }
}

/// The provisioning form page.
pub open spec fn provisioning_form(
    max_aps: nat,
    saved: Seq<Seq<char>>,
    hostname: Seq<char>,
    is_first_setup: bool,
    error_message: Option<Seq<char>>,
) -> Seq<char> {
    FORM_HEAD@ + (match error_message {
        Some(e) => FORM_ERROR_OPEN@ + html_escaped(e) + FORM_ERROR_CLOSE@,
        None => Seq::empty(),
    }) + FORM_OPEN@ + slots_html(max_aps, saved) + HOSTNAME_OPEN@ + html_escaped(hostname)
        + HOSTNAME_CLOSE@ + API_KEY_OPEN@ + (if is_first_setup {
        Seq::empty()
    } else {
        API_KEY_KEEP@
    }) + API_KEY_GENERATE@ + (if is_first_setup {
        API_KEY_SELECTED@
    } else {
        Seq::empty()
    }) + API_KEY_REST@ + FORM_TAIL@
}

/// Render the captive portal provisioning form HTML.
///
/// - `max_aps`: number of WiFi slots shown (the first one is required)
/// - `saved_ssids`: previously saved SSIDs to pre-fill (passwords are never shown)
/// - `hostname`: current hostname to pre-fill
/// - `is_first_setup`: the API key must then be set, so "keep" is not offered
/// - `error_message`: optional error from a previous submission attempt
#[verifier::rlimit(40)]
pub fn render_provisioning_form(
    max_aps: usize,
    saved_ssids: &[&str],
    hostname: &str,
    is_first_setup: bool,
    error_message: Option<&str>,
) -> (r: String)
    ensures
        r@ == provisioning_form(
            max_aps as nat,
            crate::http::str_views(saved_ssids@),
            hostname@,
            is_first_setup,
            match error_message {
                Some(e) => Some(e@),
                None => None,
            },
        ),
{
    let ghost saved = crate::http::str_views(saved_ssids@);
    let mut html = String::new();
    push_str(&mut html, FORM_HEAD);
    match error_message {
        Some(err) => {
            push_str(&mut html, FORM_ERROR_OPEN);
            let e = html_escape(err);
            push_str(&mut html, e.as_str());
            push_str(&mut html, FORM_ERROR_CLOSE);
        },
        None => {},
    }
    push_str(&mut html, FORM_OPEN);
    let ghost head = html@;
    let mut i: usize = 0;
    while i < max_aps
        invariant
            saved == crate::http::str_views(saved_ssids@),
            i <= max_aps,
            html@ == head + slots_html(i as nat, saved),
        decreases max_aps - i,
    {
        let ghost before = html@;
        let label = if i == 0 {
            SLOT_LABEL_REQUIRED
        } else {
            SLOT_LABEL_OPTIONAL
        };
        let sv: &str = if i < saved_ssids.len() {
            saved_ssids[i]
        } else {
            ""
        };
        proof {
            reveal_strlit("");
            if i >= saved_ssids@.len() {
                assert(sv@ =~= Seq::<char>::empty());
            }
        }
        let num = text::decimal_string(i as u64);
        push_str(&mut html, SLOT_OPEN);
        push_str(&mut html, label);
        push_str(&mut html, SLOT_SSID_NAME);
        push_str(&mut html, num.as_str());
        push_str(&mut html, SLOT_VALUE);
        let esc = html_escape(sv);
        push_str(&mut html, esc.as_str());
        push_char(&mut html, '"');
        if i == 0 {
            push_str(&mut html, SLOT_REQUIRED);
        }
        push_str(&mut html, SLOT_PASSWORD_NAME);
        push_str(&mut html, num.as_str());
        push_str(&mut html, SLOT_CLOSE);
        proof {
            assert(html@ =~= before + slot_html(i as nat, saved));
            assert(slots_html((i + 1) as nat, saved) == slots_html(i as nat, saved) + slot_html(
                i as nat,
                saved,
            ));
        }
        i = i + 1;
    }
    push_str(&mut html, HOSTNAME_OPEN);
    let h = html_escape(hostname);
    push_str(&mut html, h.as_str());
    push_str(&mut html, HOSTNAME_CLOSE);
    push_str(&mut html, API_KEY_OPEN);
    if !is_first_setup {
        push_str(&mut html, API_KEY_KEEP);
    }
    push_str(&mut html, API_KEY_GENERATE);
    if is_first_setup {
        push_str(&mut html, API_KEY_SELECTED);
    }
    push_str(&mut html, API_KEY_REST);
    push_str(&mut html, FORM_TAIL);
    html
}

} // verus!
