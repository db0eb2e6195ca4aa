//! Credential bookkeeping of WiFi provisioning: merging the credentials of a
//! submitted form into the saved list, and picking the first saved network
//! that a scan sees.

use vstd::prelude::*;
use crate::captive_portal::{ScannedNetwork, WifiCredential};
use crate::text::{chars_of, str_eq};

verus! {

/// Saved credentials as (SSID, password) texts.
pub open spec fn saved_views(v: Seq<(String, String)>) -> Seq<(Seq<char>, Seq<char>)> {
    v.map_values(|e: (String, String)| (e.0@, e.1@))
}

/// Form credentials as (SSID, password) texts.
pub open spec fn form_views(v: Seq<WifiCredential>) -> Seq<(Seq<char>, Seq<char>)> {
    v.map_values(|c: WifiCredential| (c.ssid@, c.password@))
}

/// The first index whose SSID is `ssid`.
pub open spec fn first_ssid_index(creds: Seq<(Seq<char>, Seq<char>)>, ssid: Seq<char>) -> Option<int>
    decreases creds.len(),
{
    if creds.len() == 0 {
        None
    } else {
        match first_ssid_index(creds.drop_last(), ssid) {
            Some(i) => Some(i),
            None => if creds.last().0 == ssid {
                Some(creds.len() - 1)
            } else {
                None
            },
        }
    }
}

/// The saved list after taking one credential from a form: a new SSID is
/// appended; a known SSID gets the new password, unless that is empty.
pub open spec fn merge_one(creds: Seq<(Seq<char>, Seq<char>)>, c: (Seq<char>, Seq<char>)) -> Seq<
    (Seq<char>, Seq<char>),
> {
    match first_ssid_index(creds, c.0) {
        None => creds.push(c),
        Some(i) => if c.1.len() == 0 {
            creds
        } else {
            creds.update(i, (creds[i].0, c.1))
        },
    }
}

/// The saved list after taking the form's credentials in order.
pub open spec fn merge_all(creds: Seq<(Seq<char>, Seq<char>)>, new: Seq<(Seq<char>, Seq<char>)>) -> Seq<
    (Seq<char>, Seq<char>),
>
    decreases new.len(),
{
    if new.len() == 0 {
        creds
    } else {
        merge_one(merge_all(creds, new.drop_last()), new.last())
    }
}

proof fn lemma_first_index_extends(s: Seq<(Seq<char>, Seq<char>)>, ssid: Seq<char>, k: int)
    requires
        0 <= k <= s.len(),
        first_ssid_index(s.subrange(0, k), ssid) is Some,
    ensures
        first_ssid_index(s, ssid) == first_ssid_index(s.subrange(0, k), ssid),
    decreases s.len() - k,
{
    if k < s.len() {
        let t = s.subrange(0, k + 1);
        assert(t.drop_last() =~= s.subrange(0, k));
        lemma_first_index_extends(s, ssid, k + 1);
    } else {
        assert(s.subrange(0, k) =~= s);
    }
}

proof fn lemma_first_index_bounds(s: Seq<(Seq<char>, Seq<char>)>, ssid: Seq<char>)
    ensures
        first_ssid_index(s, ssid) matches Some(i) ==> 0 <= i < s.len() && s[i].0 == ssid,
    decreases s.len(),
{
    if s.len() > 0 {
        lemma_first_index_bounds(s.drop_last(), ssid);
    }
}

/// The index of the first saved credential with SSID `ssid`.
fn find_ssid(creds: &Vec<(String, String)>, ssid: &str) -> (r: Option<usize>)
    ensures
        match r {
            Some(i) => first_ssid_index(saved_views(creds@), ssid@) == Some(i as int),
            None => first_ssid_index(saved_views(creds@), ssid@) is None,
        },
{
    let ghost v = saved_views(creds@);
    let mut i: usize = 0;
    proof {
        assert(v.subrange(0, 0) =~= Seq::<(Seq<char>, Seq<char>)>::empty());
    }
    while i < creds.len()
        invariant
            v == saved_views(creds@),
            i <= creds@.len(),
            first_ssid_index(v.subrange(0, i as int), ssid@) is None,
        decreases creds@.len() - i,
    {
        proof {
            let t = v.subrange(0, i + 1);
            assert(t.drop_last() =~= v.subrange(0, i as int));
        }
        if str_eq(creds[i].0.as_str(), ssid) {
            proof {
                lemma_first_index_extends(v, ssid@, i + 1);
            }
            return Some(i);
        }
        i = i + 1;
    }
    proof {
        assert(v.subrange(0, i as int) =~= v);
    }
    None
}

/// Take the form's hostname, when it gives one; otherwise keep the old one.
pub fn apply_hostname(hostname: &mut String, form_hostname: &Option<String>)
    ensures
        final(hostname)@ == match form_hostname {
            Some(h) => h@,
            None => old(hostname)@,
        },
{
    if let Some(h) = form_hostname {
        *hostname = crate::text::to_string(h.as_str());
    }
}

/// Merge the credentials of a provisioning form into the saved list, in
/// order: a new SSID is appended; for a known SSID the password is replaced,
/// unless the form's password is empty. Returns the index of the first
/// appended credential (the old length).
pub fn merge_credentials(creds: &mut Vec<(String, String)>, form_creds: &[WifiCredential]) -> (start: usize)
    ensures
        start == old(creds)@.len(),
        saved_views(final(creds)@) == merge_all(saved_views(old(creds)@), form_views(form_creds@)),
{
    let start = creds.len();
    let ghost fv = form_views(form_creds@);
    let ghost base = saved_views(creds@);
    let mut k: usize = 0;
    proof {
        assert(fv.subrange(0, 0) =~= Seq::<(Seq<char>, Seq<char>)>::empty());
    }
    while k < form_creds.len()
        invariant
            fv == form_views(form_creds@),
            base == saved_views(old(creds)@),
            k <= form_creds@.len(),
            saved_views(creds@) == merge_all(base, fv.subrange(0, k as int)),
        decreases form_creds@.len() - k,
    {
        let c = &form_creds[k];
        let ghost before = saved_views(creds@);
        proof {
            let t = fv.subrange(0, k + 1);
            assert(t.drop_last() =~= fv.subrange(0, k as int));
            assert(t.last() == (c.ssid@, c.password@));
        }
        match find_ssid(creds, c.ssid.as_str()) {
            None => {
                creds.push((c.ssid.clone(), c.password.clone()));
                proof {
                    assert(saved_views(creds@) =~= before.push((c.ssid@, c.password@)));
                }
            },
            Some(i) => {
                proof {
                    lemma_first_index_bounds(before, c.ssid@);
                }
                if chars_of(c.password.as_str()).len() != 0 {
                    let s = creds[i].0.clone();
                    creds[i] = (s, c.password.clone());
                    proof {
                        assert(saved_views(creds@) =~= before.update(
                            i as int,
                            (before[i as int].0, c.password@),
                        ));
                    }
                } else {
                    proof {
                        assert(c.password@.len() == 0);
                    }
                }
            },
        }
        k = k + 1;
    }
    proof {
        assert(fv.subrange(0, k as int) =~= fv);
    }
    start
}

/// Some network of the scan has SSID `ssid`.
pub open spec fn scan_sees(nets: Seq<ScannedNetwork>, ssid: Seq<char>) -> bool {
    exists|j: int| 0 <= j < nets.len() && #[trigger] nets[j].ssid@ == ssid
}

/// The first saved credential whose SSID the scan sees.
pub open spec fn first_seen(creds: Seq<(Seq<char>, Seq<char>)>, nets: Seq<ScannedNetwork>) -> Option<int>
    decreases creds.len(),
{
    if creds.len() == 0 {
        None
    } else {
        match first_seen(creds.drop_last(), nets) {
            Some(i) => Some(i),
            None => if scan_sees(nets, creds.last().0) {
                Some(creds.len() - 1)
            } else {
                None
            },
        }
    }
}

proof fn lemma_first_seen_extends(s: Seq<(Seq<char>, Seq<char>)>, nets: Seq<ScannedNetwork>, k: int)
    requires
        0 <= k <= s.len(),
        first_seen(s.subrange(0, k), nets) is Some,
    ensures
        first_seen(s, nets) == first_seen(s.subrange(0, k), nets),
    decreases s.len() - k,
{
    if k < s.len() {
        let t = s.subrange(0, k + 1);
        assert(t.drop_last() =~= s.subrange(0, k));
        lemma_first_seen_extends(s, nets, k + 1);
    } else {
        assert(s.subrange(0, k) =~= s);
    }
}

fn scan_has(networks: &[ScannedNetwork], ssid: &str) -> (r: bool)
    ensures
        r == scan_sees(networks@, ssid@),
{
    let mut j: usize = 0;
    while j < networks.len()
        invariant
            j <= networks@.len(),
            forall|k: int| 0 <= k < j ==> networks@[k].ssid@ != ssid@,
        decreases networks@.len() - j,
    {
        if str_eq(networks[j].ssid.as_str(), ssid) {
            return true;
        }
        j = j + 1;
    }
    false
}

/// Find the first saved SSID that appears in scan results.
pub fn find_saved_ssid_in_scan(networks: &[ScannedNetwork], creds: &[(String, String)]) -> (r: Option<usize>)
    ensures
        match r {
            Some(i) => first_seen(saved_views(creds@), networks@) == Some(i as int),
            None => first_seen(saved_views(creds@), networks@) is None,
        },
{
    let ghost v = saved_views(creds@);
    let mut i: usize = 0;
    proof {
        assert(v.subrange(0, 0) =~= Seq::<(Seq<char>, Seq<char>)>::empty());
    }
    while i < creds.len()
        invariant
            v == saved_views(creds@),
            i <= creds@.len(),
            first_seen(v.subrange(0, i as int), networks@) is None,
        decreases creds@.len() - i,
    {
        proof {
            let t = v.subrange(0, i + 1);
            assert(t.drop_last() =~= v.subrange(0, i as int));
        }
        if scan_has(networks, creds[i].0.as_str()) {
            proof {
                lemma_first_seen_extends(v, networks@, i + 1);
            }
            return Some(i);
        }
        i = i + 1;
    }
    proof {
        assert(v.subrange(0, i as int) =~= v);
    }
    None
}

} // verus!
