//! The table from logo addresses to service URLs that the last page render
//! left behind, so logo requests need not list the services again.

use vstd::prelude::*;
use crate::encoding::{base64_url, lemma_base64_injective};
use crate::service::{encodable, logo_path_of, Service};

verus! {

/// Logo address to service URL, for the services of the last render.
pub struct LogoIndex {
    entries: Vec<(String, String)>,
}

/// The table built from a list of services: each service's logo address with
/// its URL, in list order.
pub open spec fn index_entries(services: Seq<Service>) -> Seq<(Seq<char>, Seq<char>)> {
    services.map_values(|s: Service| (logo_path_of(s.url@), s.url@))
}

/// The URL of the last entry whose address is `path`; later entries win, as
/// when the pairs are collected into a map.
pub open spec fn lookup_last(entries: Seq<(Seq<char>, Seq<char>)>, path: Seq<char>) -> Option<Seq<char>>
    decreases entries.len(),
{
    if entries.len() == 0 {
        None
    } else if entries.last().0 == path {
        Some(entries.last().1)
    } else {
        lookup_last(entries.drop_last(), path)
    }
}

impl LogoIndex {
    /// The table's entries.
    pub closed spec fn entries_view(self) -> Seq<(Seq<char>, Seq<char>)> {
        self.entries@.map_values(|e: (String, String)| (e.0@, e.1@))
    }

    /// An empty table (before any page was rendered).
    pub fn new() -> (r: LogoIndex)
        ensures
            r.entries_view() == Seq::<(Seq<char>, Seq<char>)>::empty(),
    {
        let r = LogoIndex { entries: Vec::new() };
        assert(r.entries_view() =~= Seq::<(Seq<char>, Seq<char>)>::empty());
        r
    }

    /// The table for the services of a render (`index_entries`).
    pub fn from_services(services: &Vec<Service>) -> (r: LogoIndex)
        requires
            forall|i: int| 0 <= i < services.len() ==> encodable(#[trigger] services@[i].url@),
        ensures
            r.entries_view() == index_entries(services@),
    {
        let mut entries: Vec<(String, String)> = Vec::new();
        for i in 0..services.len()
            invariant
                forall|k: int| 0 <= k < services.len() ==> encodable(#[trigger] services@[k].url@),
                entries@.map_values(|e: (String, String)| (e.0@, e.1@)) == index_entries(services@.take(i as int)),
        {
            let path = services[i].logo_path();
            let url = services[i].url.clone();
            let ghost before = entries@;
            entries.push((path, url));
            proof {
                assert(services@.take(i + 1) == services@.take(i as int).push(services@[i as int]));
                assert(entries@.map_values(|e: (String, String)| (e.0@, e.1@)) =~= before.map_values(
                    |e: (String, String)| (e.0@, e.1@),
                ).push((logo_path_of(services@[i as int].url@), services@[i as int].url@)));
                assert(index_entries(services@.take(i + 1)) =~= index_entries(services@.take(i as int)).push(
                    (logo_path_of(services@[i as int].url@), services@[i as int].url@),
                ));
            }
        }
        proof {
            assert(services@.take(services.len() as int) == services@);
        }
        LogoIndex { entries }
    }

    /// The URL of the service whose logo key (the part after `/logo/`) is `key`
    /// (`lookup_last` of `/logo/` and the key).
    pub fn logo_url(&self, key: &str) -> (r: Option<String>)
        ensures
            match r {
                Some(u) => lookup_last(self.entries_view(), "/logo/"@ + key@) == Some(u@),
                None => lookup_last(self.entries_view(), "/logo/"@ + key@) is None,
            },
    {
        let mut path = "/logo/".to_owned();
        path.append(key);
        let ghost all = self.entries_view();
        let mut i = self.entries.len();
        assert(all.take(i as int) == all);
        while i > 0
            invariant
                i <= self.entries.len(),
                path@ == "/logo/"@ + key@,
                all == self.entries_view(),
                lookup_last(all, path@) == lookup_last(all.take(i as int), path@),
            decreases i,
        {
            proof {
                assert(all.take(i as int).drop_last() == all.take(i - 1));
                assert(all.take(i as int).last() == all[i - 1]);
            }
            if self.entries[i - 1].0 == path {
                return Some(self.entries[i - 1].1.clone());
            }
            i = i - 1;
        }
        None
    }
}

/// Logo addresses of different URLs differ.
pub proof fn lemma_logo_path_injective(a: Seq<char>, b: Seq<char>)
    requires
        logo_path_of(a) == logo_path_of(b),
    ensures
        a == b,
{
    let p = "/logo/"@;
    let ea = base64_url(vstd::utf8::encode_utf8(a));
    let eb = base64_url(vstd::utf8::encode_utf8(b));
    assert(ea == (p + ea).skip(p.len() as int));
    assert(eb == (p + eb).skip(p.len() as int));
    lemma_base64_injective(vstd::utf8::encode_utf8(a), vstd::utf8::encode_utf8(b));
    vstd::utf8::encode_utf8_decode_utf8(a);
    vstd::utf8::encode_utf8_decode_utf8(b);
}

/// After a render of `services`, the logo address of any listed service leads
/// back to that service's URL.
pub proof fn lemma_index_finds_each_service(services: Seq<Service>, i: int)
    requires
        0 <= i < services.len(),
    ensures
        lookup_last(index_entries(services), logo_path_of(services[i].url@)) == Some(services[i].url@),
    decreases services.len(),
{
    let entries = index_entries(services);
    let last = services.last();
    assert(entries.drop_last() == index_entries(services.drop_last()));
    if logo_path_of(last.url@) == logo_path_of(services[i].url@) {
        lemma_logo_path_injective(last.url@, services[i].url@);
    } else {
        assert(i < services.len() - 1);
        assert(services.drop_last()[i] == services[i]);
        lemma_index_finds_each_service(services.drop_last(), i);
    }
}

/// After a render of `services`, an address that is no listed service's logo
/// address leads nowhere.
pub proof fn lemma_index_unknown_address(services: Seq<Service>, path: Seq<char>)
    requires
        forall|i: int| 0 <= i < services.len() ==> logo_path_of(#[trigger] services[i].url@) != path,
    ensures
        lookup_last(index_entries(services), path) is None,
    decreases services.len(),
{
    if services.len() > 0 {
        let entries = index_entries(services);
        assert(entries.drop_last() == index_entries(services.drop_last()));
        assert(logo_path_of(services[services.len() - 1].url@) != path);
        assert forall|i: int| 0 <= i < services.drop_last().len() implies logo_path_of(
            #[trigger] services.drop_last()[i].url@,
        ) != path by {
            assert(services.drop_last()[i] == services[i]);
        }
        lemma_index_unknown_address(services.drop_last(), path);
    }
}

} // verus!
