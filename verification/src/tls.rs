//! Which server's certificate answers a TLS client: by the name the client
//! asks for, else the certificate of a server that names no domain.
use vstd::prelude::*;
use crate::config::{Server, strings_view};
use crate::text::str_eq;

verus! {

/// What choosing a certificate needs to know of a server.
#[derive(Debug)]
pub struct CertEntry {
    pub domain_names: Vec<String>,
    pub has_cert: bool,
}

pub struct CertEntryV {
    pub domain_names: Seq<Seq<char>>,
    pub has_cert: bool,
}

impl View for CertEntry {
    type V = CertEntryV;

    open spec fn view(&self) -> CertEntryV {
        CertEntryV { domain_names: strings_view(self.domain_names@), has_cert: self.has_cert }
    }
}

pub open spec fn entries_view(v: Seq<CertEntry>) -> Seq<CertEntryV> {
    v.map_values(|e: CertEntry| e@)
}

/// The entry of each server, in order.
pub fn cert_entries(servers: &Vec<Server>) -> (r: Vec<CertEntry>)
    ensures
        r@.len() == servers@.len(),
        forall|i: int|
            0 <= i < r@.len() ==> (#[trigger] r@[i])@ == (CertEntryV {
                domain_names: servers@[i]@.domain_names,
                has_cert: servers@[i].cert_path is Some,
            }),
{
    let mut r: Vec<CertEntry> = Vec::new();
    let mut i: usize = 0;
    while i < servers.len()
        invariant
            i <= servers@.len(),
            r@.len() == i,
            forall|j: int|
                0 <= j < i ==> (#[trigger] r@[j])@ == (CertEntryV {
                    domain_names: servers@[j]@.domain_names,
                    has_cert: servers@[j].cert_path is Some,
                }),
        decreases servers@.len() - i,
    {
        let s = &servers[i];
        let mut names: Vec<String> = Vec::new();
        let mut k: usize = 0;
        while k < s.domain_names.len()
            invariant
                k <= s.domain_names@.len(),
                names@.len() == k,
                forall|j: int| 0 <= j < k ==> (#[trigger] names@[j])@ == s.domain_names@[j]@,
            decreases s.domain_names@.len() - k,
        {
            names.push(s.domain_names[k].clone());
            k = k + 1;
        }
        assert(strings_view(names@) =~= strings_view(s.domain_names@));
        r.push(CertEntry { domain_names: names, has_cert: s.cert_path.is_some() });
        i = i + 1;
    }
    r
}

/// Whether some server names a certificate, so that the address takes TLS.
pub fn any_certificate(servers: &Vec<Server>) -> (r: bool)
    ensures
        r == exists|i: int| 0 <= i < servers@.len() && (#[trigger] servers@[i]).cert_path is Some,
{
    let mut i: usize = 0;
    while i < servers.len()
        invariant
            i <= servers@.len(),
            forall|j: int| 0 <= j < i ==> (#[trigger] servers@[j]).cert_path is None,
        decreases servers@.len() - i,
    {
        if servers[i].cert_path.is_some() {
            return true;
        }
        i = i + 1;
    }
    false
}

/// The last server with a certificate that names `name`.
pub open spec fn cert_for_name(s: Seq<CertEntryV>, name: Seq<char>) -> Option<int>
    decreases s.len(),
{
    if s.len() == 0 {
        None
    } else if s.last().has_cert && s.last().domain_names.contains(name) {
        Some(s.len() - 1)
    } else {
        cert_for_name(s.drop_last(), name)
    }
}

/// The last server with a certificate that names no domain.
pub open spec fn default_cert(s: Seq<CertEntryV>) -> Option<int>
    decreases s.len(),
{
    if s.len() == 0 {
        None
    } else if s.last().has_cert && s.last().domain_names.len() == 0 {
        Some(s.len() - 1)
    } else {
        default_cert(s.drop_last())
    }
}

/// The certificate for a client that asks for `name` (or for none).
pub open spec fn spec_choose_certificate(s: Seq<CertEntryV>, name: Option<Seq<char>>) -> Option<int> {
    match name {
        Some(n) => match cert_for_name(s, n) {
            Some(i) => Some(i),
            None => default_cert(s),
        },
        None => default_cert(s),
    }
}

fn names_contain(names: &Vec<String>, name: &str) -> (r: bool)
    ensures
        r == strings_view(names@).contains(name@),
{
    let ghost nv = strings_view(names@);
    let mut i: usize = 0;
    while i < names.len()
        invariant
            i <= names@.len(),
            nv == strings_view(names@),
            forall|j: int| 0 <= j < i ==> nv[j] != name@,
        decreases names@.len() - i,
    {
        if str_eq(names[i].as_str(), name) {
            assert(nv[i as int] == name@);
            return true;
        }
        i = i + 1;
    }
    false
}

/// Which server's certificate answers a client that asks for `name` (see
/// `spec_choose_certificate`).
pub fn choose_certificate(entries: &Vec<CertEntry>, name: Option<&str>) -> (r: Option<usize>)
    ensures
        match spec_choose_certificate(
            entries_view(entries@),
            match name {
                Some(n) => Some(n@),
                None => None,
            },
        ) {
            Some(i) => r == Some(i as usize) && i < entries@.len(),
            None => r is None,
        },
{
    let ghost ev = entries_view(entries@);
    let mut by_name: Option<usize> = None;
    let mut default: Option<usize> = None;
    let mut i = entries.len();
    assert(ev.take(i as int) =~= ev);
    let mut name_done = name.is_none();
    let mut default_done = false;
    while i > 0
        invariant
            i <= entries@.len(),
            ev == entries_view(entries@),
            name matches Some(n) ==> (!name_done ==> cert_for_name(ev, n@) == cert_for_name(
                ev.take(i as int),
                n@,
            )) && (name_done ==> cert_for_name(ev, n@) == match by_name {
                Some(k) => Some(k as int),
                None => None::<int>,
            }),
            !default_done ==> default_cert(ev) == default_cert(ev.take(i as int)),
            default_done ==> default_cert(ev) == match default {
                Some(k) => Some(k as int),
                None => None::<int>,
            },
            by_name matches Some(k) ==> k < entries@.len() && name is Some && name_done,
            default matches Some(k) ==> k < entries@.len() && default_done,
        decreases i,
    {
        let ghost t = ev.take(i as int);
        assert(t.drop_last() =~= ev.take(i - 1));
        assert(t.last() == entries@[i - 1]@);
        let e = &entries[i - 1];
        if !name_done {
            if let Some(n) = name {
                if e.has_cert && names_contain(&e.domain_names, n) {
                    by_name = Some(i - 1);
                    name_done = true;
                }
            }
        }
        if !default_done {
            if e.has_cert && e.domain_names.len() == 0 {
                default = Some(i - 1);
                default_done = true;
            }
        }
        i = i - 1;
    }
    assert(ev.take(0) =~= Seq::<CertEntryV>::empty());
    match by_name {
        Some(k) => Some(k),
        None => default,
    }
}

} // verus!
