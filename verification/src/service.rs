//! Service records: what the dashboard lists and links to.

use vstd::prelude::*;
use crate::encoding::{base64_url, encode_url_safe};
use crate::text::{is_white_space, white_space};
use crate::weburl::{parsed_url, UrlView, WebUrl};

verus! {

/// One entry of the dashboard: a named link, the group it is listed under and a
/// free-text description.
#[derive(Clone, Debug, PartialEq, Eq)]
pub struct Service {
    pub name: String,
    pub url: String,
    pub group: String,
    pub description: String,
}

/// The mathematical value of a `Service`: its four texts.
pub struct ServiceView {
    pub name: Seq<char>,
    pub url: Seq<char>,
    pub group: Seq<char>,
    pub description: Seq<char>,
}

impl View for Service {
    type V = ServiceView;

    open spec fn view(&self) -> ServiceView {
        ServiceView {
            name: self.name@,
            url: self.url@,
            group: self.group@,
            description: self.description@,
        }
    }
}

impl Service {
    /// A copy of this service with the same four texts.
    pub fn duplicate(&self) -> (r: Service)
        ensures
            r@ == self@,
    {
        Service {
            name: self.name.clone(),
            url: self.url.clone(),
            group: self.group.clone(),
            description: self.description.clone(),
        }
    }
}

/// The group a service is listed under when none is given.
pub open spec fn default_group_name() -> Seq<char> {
    seq!['S', 'e', 'r', 'v', 'i', 'c', 'e', 's']
}

/// The group a service is listed under when none is given: `"Services"`.
pub fn default_group() -> (r: String)
    ensures
        r@ == default_group_name(),
{
    let r = "Services".to_owned();
    proof {
        reveal_strlit("Services");
    }
    r
}


/// The views of a list of services.
pub open spec fn service_views(v: Seq<Service>) -> Seq<ServiceView> {
    v.map_values(|s: Service| s@)
}

/// Every character of `s` is whitespace (so `str::trim` leaves nothing).
pub open spec fn all_white_space(s: Seq<char>) -> bool {
    forall|i: int| 0 <= i < s.len() ==> is_white_space(#[trigger] s[i])
}

/// A parsed URL that a dashboard may link to: `http` or `https`, with a host.
pub open spec fn is_web_url(u: Option<UrlView>) -> bool {
    match u {
        Some(v) => (v.scheme == "http"@ || v.scheme == "https"@) && v.host is Some,
        None => false,
    }
}

/// Whether a parsed URL is one a dashboard may link to (`is_web_url`): its
/// scheme is `http` or `https` and it has a host.
pub fn is_web_link(url: &WebUrl) -> (r: bool)
    ensures
        r == is_web_url(Some(url@)),
{
    (url.has_scheme("http") || url.has_scheme("https")) && url.has_host()
}

/// A service worth listing: its name is not blank and its URL parses as an
/// `http` or `https` URL with a host.
pub open spec fn is_valid_service(s: ServiceView) -> bool {
    !all_white_space(s.name) && is_web_url(parsed_url(s.url))
}

/// Whether a service is worth listing (`is_valid_service`).
pub fn valid_service(service: &Service) -> (r: bool)
    ensures
        r == is_valid_service(service@),
{
    let mut blank = true;
    let name = crate::text::chars_of(service.name.as_str());
    for i in 0..name.len()
        invariant
            name@ == service.name@,
            blank == forall|k: int| 0 <= k < i ==> is_white_space(#[trigger] name@[k]),
    {
        if !white_space(name[i]) {
            blank = false;
        }
    }
    if blank {
        return false;
    }
    match WebUrl::parse(service.url.as_str()) {
        Some(u) => is_web_link(&u),
        None => false,
    }
}

/// The services of `v` that are valid (`want`) or invalid (`!want`), in order.
pub open spec fn with_validity(v: Seq<ServiceView>, want: bool) -> Seq<ServiceView>
    decreases v.len(),
{
    if v.len() == 0 {
        seq![]
    } else {
        let rest = with_validity(v.drop_last(), want);
        if is_valid_service(v.last()) == want {
            rest.push(v.last())
        } else {
            rest
        }
    }
}

/// Splits services into the valid ones and the rejected ones, each in order.
pub fn partition_services(services: Vec<Service>) -> (r: (Vec<Service>, Vec<Service>))
    ensures
        service_views(r.0@) == with_validity(service_views(services@), true),
        service_views(r.1@) == with_validity(service_views(services@), false),
{
    let ghost all = service_views(services@);
    let mut kept: Vec<Service> = Vec::new();
    let mut rejected: Vec<Service> = Vec::new();
    for i in 0..services.len()
        invariant
            all == service_views(services@),
            service_views(kept@) == with_validity(all.take(i as int), true),
            service_views(rejected@) == with_validity(all.take(i as int), false),
    {
        let s = services[i].duplicate();
        proof {
            assert(all.take(i + 1).drop_last() == all.take(i as int));
            assert(all.take(i + 1).last() == s@);
        }
        if valid_service(&s) {
            let ghost before = kept@;
            kept.push(s);
            proof {
                assert(service_views(kept@) =~= service_views(before).push(s@));
            }
        } else {
            let ghost before = rejected@;
            rejected.push(s);
            proof {
                assert(service_views(rejected@) =~= service_views(before).push(s@));
            }
        }
    }
    proof {
        assert(all.take(services.len() as int) == all);
    }
    (kept, rejected)
}

/// The value of the first label named `key`.
pub open spec fn label(labels: Seq<(String, String)>, key: Seq<char>) -> Option<Seq<char>>
    decreases labels.len(),
{
    if labels.len() == 0 {
        None
    } else if labels[0].0@ == key {
        Some(labels[0].1@)
    } else {
        label(labels.drop_first(), key)
    }
}

/// The value of the first label named `key` (`label`).
pub fn find_label(labels: &Vec<(String, String)>, key: &str) -> (r: Option<String>)
    ensures
        match r {
            Some(v) => label(labels@, key@) == Some(v@),
            None => label(labels@, key@) is None,
        },
{
    let wanted = key.to_owned();
    let mut i: usize = 0;
    assert(labels@.skip(0) == labels@);
    while i < labels.len()
        invariant
            i <= labels.len(),
            wanted@ == key@,
            label(labels@, key@) == label(labels@.skip(i as int), key@),
        decreases labels.len() - i,
    {
        assert(labels@.skip(i as int).drop_first() == labels@.skip(i + 1));
        assert(labels@.skip(i as int)[0] == labels@[i as int]);
        if labels[i].0 == wanted {
            return Some(labels[i].1.clone());
        }
        i = i + 1;
    }
    None
}

/// The service a container's labels describe: `dashboard.name` and
/// `dashboard.url` are required; `dashboard.group` defaults to the default group
/// and `dashboard.description` to the empty text.
pub open spec fn labelled_service(labels: Seq<(String, String)>) -> Option<ServiceView> {
    match (label(labels, "dashboard.name"@), label(labels, "dashboard.url"@)) {
        (Some(name), Some(url)) => Some(
            ServiceView {
                name,
                url,
                group: match label(labels, "dashboard.group"@) {
                    Some(g) => g,
                    None => default_group_name(),
                },
                description: match label(labels, "dashboard.description"@) {
                    Some(d) => d,
                    None => Seq::empty(),
                },
            },
        ),
        _ => None,
    }
}

/// The service a container's labels describe (`labelled_service`).
pub fn service_from_labels(labels: &Vec<(String, String)>) -> (r: Option<Service>)
    ensures
        match r {
            Some(s) => labelled_service(labels@) == Some(s@),
            None => labelled_service(labels@) is None,
        },
{
    let name = match find_label(labels, "dashboard.name") {
        Some(n) => n,
        None => return None,
    };
    let url = match find_label(labels, "dashboard.url") {
        Some(u) => u,
        None => return None,
    };
    let group = match find_label(labels, "dashboard.group") {
        Some(g) => g,
        None => default_group(),
    };
    let description = match find_label(labels, "dashboard.description") {
        Some(d) => d,
        None => String::new(),
    };
    Some(Service { name, url, group, description })
}

/// The services that the running containers' labels describe, in container
/// order, keeping only valid ones.
pub open spec fn discovered(containers: Seq<Vec<(String, String)>>) -> Seq<ServiceView>
    decreases containers.len(),
{
    if containers.len() == 0 {
        seq![]
    } else {
        let rest = discovered(containers.drop_last());
        match labelled_service(containers.last()@) {
            Some(s) => if is_valid_service(s) {
                rest.push(s)
            } else {
                rest
            },
            None => rest,
        }
    }
}

/// The valid services that the containers' labels describe (`discovered`).
pub fn services_from_containers(containers: &Vec<Vec<(String, String)>>) -> (r: Vec<Service>)
    ensures
        service_views(r@) == discovered(containers@),
{
    let mut out: Vec<Service> = Vec::new();
    for i in 0..containers.len()
        invariant
            service_views(out@) == discovered(containers@.take(i as int)),
    {
        proof {
            assert(containers@.take(i + 1).drop_last() == containers@.take(i as int));
            assert(containers@.take(i + 1).last() == containers@[i as int]);
        }
        if let Some(s) = service_from_labels(&containers[i]) {
            if valid_service(&s) {
                let ghost before = out@;
                out.push(s);
                proof {
                    assert(service_views(out@) =~= service_views(before).push(out@.last()@));
                }
            }
        }
    }
    proof {
        assert(containers@.take(containers.len() as int) == containers@);
    }
    out
}


/// Every discovered service is valid.
pub proof fn lemma_discovered_are_valid(containers: Seq<Vec<(String, String)>>)
    ensures
        forall|i: int| 0 <= i < discovered(containers).len() ==> is_valid_service(#[trigger] discovered(containers)[i]),
    decreases containers.len(),
{
    if containers.len() > 0 {
        lemma_discovered_are_valid(containers.drop_last());
        let rest = discovered(containers.drop_last());
        let all = discovered(containers);
        assert forall|i: int| 0 <= i < all.len() implies is_valid_service(#[trigger] all[i]) by {
            if i < rest.len() {
                assert(all[i] == rest[i]);
            }
        }
    }
}

/// Splitting services by validity loses none and duplicates none: the kept ones
/// are all valid, the rejected all invalid, and together they are as many as
/// the input.
pub proof fn lemma_partition_complete(v: Seq<ServiceView>)
    ensures
        with_validity(v, true).len() + with_validity(v, false).len() == v.len(),
        forall|i: int| 0 <= i < with_validity(v, true).len() ==> is_valid_service(#[trigger] with_validity(v, true)[i]),
        forall|i: int| 0 <= i < with_validity(v, false).len() ==> !is_valid_service(#[trigger] with_validity(v, false)[i]),
    decreases v.len(),
{
    if v.len() > 0 {
        lemma_partition_complete(v.drop_last());
    }
}

/// The address a service's logo is served under: `/logo/` and the URL-safe
/// Base64 (no padding) of the URL's UTF-8 bytes.
pub open spec fn logo_path_of(url: Seq<char>) -> Seq<char> {
    "/logo/"@ + base64_url(vstd::utf8::encode_utf8(url))
}

/// A URL short enough to be encoded (its UTF-8 form within half the address space).
pub open spec fn encodable(url: Seq<char>) -> bool {
    vstd::utf8::encode_utf8(url).len() <= usize::MAX / 2
}

impl Service {
    /// The address this service's logo is served under (`logo_path_of`).
    pub fn logo_path(&self) -> (r: String)
        requires
            encodable(self.url@),
        ensures
            r@ == logo_path_of(self.url@),
    {
        let key = encode_url_safe(self.url.as_str().as_bytes());
        let mut path = "/logo/".to_owned();
        path.append(key.as_str());
        path
    }
}

} // verus!
