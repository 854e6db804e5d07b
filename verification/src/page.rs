//! What the dashboard page shows: the services grouped into sections, the
//! sections and rows in display order, and the texts computed for each row.

use vstd::prelude::*;
use crate::service::Service;
use crate::text::{
    chars_of, find_char, find_from, lemma_seq_less_asymmetric, lemma_seq_less_total,
    lemma_seq_less_transitive, less_than, lowercase, same_chars, seq_less, slice_chars, string_of,
    to_lowercase, to_uppercase, uppercase,
};

verus! {

/// Where a group's section goes: `Services` first, then `Media`, then
/// `Infrastructure`, then every other group.
pub open spec fn group_rank(g: Seq<char>) -> int {
    if g == "Services"@ {
        0
    } else if g == "Media"@ {
        1
    } else if g == "Infrastructure"@ {
        2
    } else {
        3
    }
}

/// The display order of entries: by group rank, then group name, then
/// lower-cased service name, then position in the input.
pub open spec fn key_ahead(
    ra: int,
    ga: Seq<char>,
    na: Seq<char>,
    ia: int,
    rb: int,
    gb: Seq<char>,
    nb: Seq<char>,
    ib: int,
) -> bool {
    ||| ra < rb
    ||| ra == rb && seq_less(ga, gb)
    ||| ra == rb && ga == gb && seq_less(na, nb)
    ||| ra == rb && ga == gb && na == nb && ia < ib
}

/// `key_ahead` for the services at positions `i` and `j`.
pub open spec fn page_ahead(services: Seq<Service>, i: int, j: int) -> bool {
    key_ahead(
        group_rank(services[i].group@),
        services[i].group@,
        lowercase(services[i].name@),
        i,
        group_rank(services[j].group@),
        services[j].group@,
        lowercase(services[j].name@),
        j,
    )
}

/// `key_ahead` is transitive.
pub proof fn lemma_key_ahead_transitive(
    ra: int, ga: Seq<char>, na: Seq<char>, ia: int,
    rb: int, gb: Seq<char>, nb: Seq<char>, ib: int,
    rc: int, gc: Seq<char>, nc: Seq<char>, ic: int,
)
    requires
        key_ahead(ra, ga, na, ia, rb, gb, nb, ib),
        key_ahead(rb, gb, nb, ib, rc, gc, nc, ic),
    ensures
        key_ahead(ra, ga, na, ia, rc, gc, nc, ic),
{
    if ra == rb && rb == rc {
        if seq_less(ga, gb) && seq_less(gb, gc) {
            lemma_seq_less_transitive(ga, gb, gc);
        }
        if ga == gb && gb == gc && seq_less(na, nb) && seq_less(nb, nc) {
            lemma_seq_less_transitive(na, nb, nc);
        }
    }
}

/// Of two entries at different positions, exactly one is `key_ahead` of the other.
pub proof fn lemma_key_ahead_total(
    ra: int, ga: Seq<char>, na: Seq<char>, ia: int,
    rb: int, gb: Seq<char>, nb: Seq<char>, ib: int,
)
    requires
        ia != ib,
    ensures
        key_ahead(ra, ga, na, ia, rb, gb, nb, ib) || key_ahead(rb, gb, nb, ib, ra, ga, na, ia),
        !(key_ahead(ra, ga, na, ia, rb, gb, nb, ib) && key_ahead(rb, gb, nb, ib, ra, ga, na, ia)),
{
    lemma_seq_less_asymmetric(ga, gb);
    lemma_seq_less_asymmetric(gb, ga);
    lemma_seq_less_asymmetric(na, nb);
    lemma_seq_less_asymmetric(nb, na);
    if ga != gb {
        lemma_seq_less_total(ga, gb);
    }
    if na != nb {
        lemma_seq_less_total(na, nb);
    }
}

/// `p` lists every service position exactly once, in display order.
pub open spec fn is_page_order(services: Seq<Service>, p: Seq<usize>) -> bool {
    &&& forall|k: int| 0 <= k < p.len() ==> #[trigger] p[k] < services.len()
    &&& forall|k1: int, k2: int|
        0 <= k1 < k2 < p.len() ==> page_ahead(services, #[trigger] p[k1] as int, #[trigger] p[k2] as int)
    &&& forall|i: usize| i < services.len() ==> #[trigger] p.contains(i)
}

/// The rank of a group (`group_rank`).
fn rank_of(g: &String) -> (r: u8)
    ensures
        r as int == group_rank(g@),
{
    if *g == "Services".to_owned() {
        0
    } else if *g == "Media".to_owned() {
        1
    } else if *g == "Infrastructure".to_owned() {
        2
    } else {
        3
    }
}

/// The sort keys of the services: group rank, group, lower-cased name.
struct PageKeys {
    ranks: Vec<u8>,
    groups: Vec<Vec<char>>,
    names: Vec<Vec<char>>,
}

impl PageKeys {
    spec fn describes(self, services: Seq<Service>) -> bool {
        &&& self.ranks.len() == services.len()
        &&& self.groups.len() == services.len()
        &&& self.names.len() == services.len()
        &&& forall|i: int| 0 <= i < services.len() ==> #[trigger] self.ranks@[i] as int == group_rank(services[i].group@)
        &&& forall|i: int| 0 <= i < services.len() ==> #[trigger] self.groups@[i]@ == services[i].group@
        &&& forall|i: int| 0 <= i < services.len() ==> #[trigger] self.names@[i]@ == lowercase(services[i].name@)
    }

    fn of(services: &Vec<Service>) -> (r: PageKeys)
        ensures
            r.describes(services@),
    {
        let mut ranks: Vec<u8> = Vec::new();
        let mut groups: Vec<Vec<char>> = Vec::new();
        let mut names: Vec<Vec<char>> = Vec::new();
        for i in 0..services.len()
            invariant
                ranks.len() == i,
                groups.len() == i,
                names.len() == i,
                forall|k: int| 0 <= k < i ==> #[trigger] ranks@[k] as int == group_rank(services@[k].group@),
                forall|k: int| 0 <= k < i ==> #[trigger] groups@[k]@ == services@[k].group@,
                forall|k: int| 0 <= k < i ==> #[trigger] names@[k]@ == lowercase(services@[k].name@),
        {
            ranks.push(rank_of(&services[i].group));
            groups.push(chars_of(services[i].group.as_str()));
            names.push(chars_of(to_lowercase(services[i].name.as_str()).as_str()));
        }
        PageKeys { ranks, groups, names }
    }

    /// Whether position `i` goes before position `j` (`page_ahead`).
    fn ahead(&self, i: usize, j: usize, Ghost(services): Ghost<Seq<Service>>) -> (r: bool)
        requires
            self.describes(services),
            i < services.len(),
            j < services.len(),
        ensures
            r == page_ahead(services, i as int, j as int),
    {
        let (ri, rj) = (self.ranks[i], self.ranks[j]);
        if ri != rj {
            return ri < rj;
        }
        if less_than(&self.groups[i], &self.groups[j]) {
            return true;
        }
        if !same_chars(&self.groups[i], &self.groups[j]) {
            return false;
        }
        if less_than(&self.names[i], &self.names[j]) {
            return true;
        }
        if !same_chars(&self.names[i], &self.names[j]) {
            return false;
        }
        i < j
    }
}

/// Inserting position `i` in front of the first entry it goes before keeps the
/// order sorted.
proof fn lemma_page_insert(services: Seq<Service>, old_p: Seq<usize>, new_p: Seq<usize>, t: int, i: usize)
    requires
        0 <= t <= old_p.len(),
        i < services.len(),
        new_p == old_p.insert(t, i),
        forall|u: int| 0 <= u < old_p.len() ==> (#[trigger] old_p[u]) < i,
        forall|k1: int, k2: int|
            0 <= k1 < k2 < old_p.len() ==> page_ahead(services, #[trigger] old_p[k1] as int, #[trigger] old_p[k2] as int),
        forall|u: int| 0 <= u < t ==> !page_ahead(services, i as int, #[trigger] old_p[u] as int),
        t < old_p.len() ==> page_ahead(services, i as int, old_p[t] as int),
    ensures
        forall|k1: int, k2: int|
            0 <= k1 < k2 < new_p.len() ==> page_ahead(services, #[trigger] new_p[k1] as int, #[trigger] new_p[k2] as int),
{
    assert forall|k1: int, k2: int| 0 <= k1 < k2 < new_p.len() implies page_ahead(
        services,
        #[trigger] new_p[k1] as int,
        #[trigger] new_p[k2] as int,
    ) by {
        let s = services;
        if k2 < t {
            assert(new_p[k1] == old_p[k1] && new_p[k2] == old_p[k2]);
        } else if k2 == t {
            assert(new_p[k1] == old_p[k1]);
            let o = old_p[k1] as int;
            lemma_key_ahead_total(
                group_rank(s[i as int].group@), s[i as int].group@, lowercase(s[i as int].name@), i as int,
                group_rank(s[o].group@), s[o].group@, lowercase(s[o].name@), o,
            );
        } else if k1 == t {
            assert(new_p[k2] == old_p[k2 - 1]);
            if k2 - 1 > t {
                assert(page_ahead(s, old_p[t] as int, old_p[k2 - 1] as int));
                let o = old_p[t] as int;
                let q = old_p[k2 - 1] as int;
                lemma_key_ahead_transitive(
                    group_rank(s[i as int].group@), s[i as int].group@, lowercase(s[i as int].name@), i as int,
                    group_rank(s[o].group@), s[o].group@, lowercase(s[o].name@), o,
                    group_rank(s[q].group@), s[q].group@, lowercase(s[q].name@), q,
                );
            }
        } else if k1 < t {
            assert(new_p[k1] == old_p[k1] && new_p[k2] == old_p[k2 - 1]);
        } else {
            assert(new_p[k1] == old_p[k1 - 1] && new_p[k2] == old_p[k2 - 1]);
        }
    }
}

/// Every service position once, in display order (`is_page_order`).
pub fn page_order(services: &Vec<Service>) -> (r: Vec<usize>)
    ensures
        is_page_order(services@, r@),
{
    let keys = PageKeys::of(services);
    let mut p: Vec<usize> = Vec::new();
    for i in 0..services.len()
        invariant
            keys.describes(services@),
            forall|u: int| 0 <= u < p.len() ==> #[trigger] p@[u] < i,
            forall|k1: int, k2: int|
                0 <= k1 < k2 < p.len() ==> page_ahead(services@, #[trigger] p@[k1] as int, #[trigger] p@[k2] as int),
            forall|j: usize| j < i ==> #[trigger] p@.contains(j),
    {
        let mut t: usize = 0;
        while t < p.len() && !keys.ahead(i, p[t], Ghost(services@))
            invariant
                t <= p.len(),
                i < services.len(),
                keys.describes(services@),
                forall|u: int| 0 <= u < p.len() ==> #[trigger] p@[u] < i,
                forall|u: int| 0 <= u < t ==> !page_ahead(services@, i as int, #[trigger] p@[u] as int),
            decreases p.len() - t,
        {
            t = t + 1;
        }
        let ghost old_p = p@;
        p.insert(t, i);
        proof {
            lemma_page_insert(services@, old_p, p@, t as int, i);
            assert forall|j: usize| j < i + 1 implies #[trigger] p@.contains(j) by {
                if j == i {
                    assert(p@[t as int] == i);
                } else {
                    assert(old_p.contains(j));
                    let u0 = choose|u: int| 0 <= u < old_p.len() && old_p[u] == j;
                    if u0 < t {
                        assert(p@[u0] == j);
                    } else {
                        assert(p@[u0 + 1] == j);
                    }
                }
            }
        }
    }
    p
}


/// The letter shown in a row's icon: the upper-case form of the name's first
/// character, or of `?` for an empty name.
pub open spec fn initial_of(name: Seq<char>) -> Seq<char> {
    uppercase(if name.len() > 0 { name[0] } else { '?' })
}

/// The `://` that separates a URL's scheme from the rest.
pub open spec fn scheme_separator() -> Seq<char> {
    seq![':', '/', '/']
}

/// The first position at or after `from` where `://` starts.
pub open spec fn find_separator(u: Seq<char>, from: nat) -> Option<nat>
    decreases u.len() - from,
{
    if from + 3 > u.len() {
        None
    } else if u.subrange(from as int, from + 3int) == scheme_separator() {
        Some(from)
    } else {
        find_separator(u, from + 1)
    }
}

/// The address shown for a service: what follows the first `://` up to the
/// next `/`; the whole URL when it holds no `://`.
pub open spec fn address_of(u: Seq<char>) -> Seq<char> {
    match find_separator(u, 0) {
        Some(i) => {
            let rest = u.skip(i + 3int);
            match find_from(rest, '/', 0) {
                Some(j) => rest.take(j as int),
                None => rest,
            }
        },
        None => u,
    }
}

/// The decimal digit character for `d` (0 to 9).
pub open spec fn digit_char(d: int) -> char {
    (('0' as int) + d) as char
}

/// The decimal notation of `n`.
pub open spec fn decimal(n: nat) -> Seq<char>
    decreases n,
{
    if n < 10 {
        seq![digit_char(n as int)]
    } else {
        decimal(n / 10).push(digit_char((n % 10) as int))
    }
}

/// ` services · `
pub open spec fn services_word() -> Seq<char> {
    seq![' ', 's', 'e', 'r', 'v', 'i', 'c', 'e', 's', ' ', '\u{b7}', ' ']
}

/// ` groups`
pub open spec fn groups_word() -> Seq<char> {
    seq![' ', 'g', 'r', 'o', 'u', 'p', 's']
}

/// The line under the page title: how many services and groups are listed.
pub open spec fn summary_of(services: nat, groups: nat) -> Seq<char> {
    decimal(services) + services_word() + decimal(groups) + groups_word()
}

/// One listed service with the texts shown for it.
pub struct PageRow {
    pub service: Service,
    pub initial: String,
    pub address: String,
}

/// One group's section: its name, how many services it lists, and its rows.
pub struct PageSection {
    pub group: String,
    pub count: usize,
    pub rows: Vec<PageRow>,
}

/// Everything the page shows: the summary line and the sections in order.
pub struct PageLayout {
    pub summary: String,
    pub sections: Vec<PageSection>,
}

/// The texts of a row for service `s`.
pub open spec fn row_shows(s: Service, row: PageRow) -> bool {
    &&& row.service@ == s@
    &&& row.initial@ == initial_of(s.name@)
    &&& row.address@ == address_of(s.url@)
}

/// A section listing the services at positions `idx`, in that order.
pub open spec fn section_shows(services: Seq<Service>, idx: Seq<usize>, sec: PageSection) -> bool {
    &&& idx.len() > 0
    &&& sec.group@ == services[idx[0] as int].group@
    &&& sec.count == idx.len()
    &&& sec.rows.len() == idx.len()
    &&& forall|m: int| 0 <= m < idx.len() ==> row_shows(services[idx[m] as int], #[trigger] sec.rows@[m])
}

/// The sequences of `parts` one after another.
pub open spec fn joined(parts: Seq<Seq<usize>>) -> Seq<usize>
    decreases parts.len(),
{
    if parts.len() == 0 {
        seq![]
    } else {
        joined(parts.drop_last()) + parts.last()
    }
}

/// `parts` cuts the display order `p` into runs of one group each: every part
/// is non-empty, holds one group, and neighbouring parts hold different groups.
pub open spec fn is_grouping(services: Seq<Service>, p: Seq<usize>, parts: Seq<Seq<usize>>) -> bool {
    &&& joined(parts) == p
    &&& forall|k: int| 0 <= k < parts.len() ==> (#[trigger] parts[k]).len() > 0
    &&& forall|k: int, m: int|
        0 <= k < parts.len() && 0 <= m < parts[k].len() ==> services[(#[trigger] parts[k][m]) as int].group@
            == services[parts[k][0] as int].group@
    &&& forall|k: int|
        0 <= k < parts.len() - 1 ==> services[(#[trigger] parts[k])[0] as int].group@ != services[parts[k
            + 1][0] as int].group@
}

/// The page for `services`: every service once, sections by group in
/// `group_rank` then name order, rows in lower-cased name order then input
/// order, and the summary of how many services and sections there are.
pub open spec fn is_layout(services: Seq<Service>, layout: PageLayout) -> bool {
    exists|p: Seq<usize>, parts: Seq<Seq<usize>>|
        #![trigger is_grouping(services, p, parts)]
        {
            &&& is_page_order(services, p)
            &&& is_grouping(services, p, parts)
            &&& parts.len() == layout.sections.len()
            &&& forall|k: int|
                0 <= k < parts.len() ==> section_shows(services, parts[k], #[trigger] layout.sections@[k])
            &&& layout.summary@ == summary_of(services.len(), parts.len())
        }
}

/// The decimal notation of `n` (`decimal`).
pub fn decimal_chars(n: usize) -> (r: Vec<char>)
    ensures
        r@ == decimal(n as nat),
    decreases n,
{
    let d: u8 = (n % 10) as u8;
    let c = (48u8 + d) as char;
    if n < 10 {
        vec![c]
    } else {
        let mut v = decimal_chars(n / 10);
        v.push(c);
        v
    }
}

/// The letter shown in the icon of a row for a service named `name`
/// (`initial_of`); the page and the search panel both show it.
pub fn initial_letter(name: &str) -> (r: String)
    ensures
        r@ == initial_of(name@),
{
    let chars = chars_of(name);
    let first = if chars.len() > 0 {
        chars[0]
    } else {
        '?'
    };
    to_uppercase(first)
}

/// The row texts for a service (`row_shows`).
pub fn make_row(s: &Service) -> (r: PageRow)
    ensures
        row_shows(*s, r),
{
    let initial = initial_letter(s.name.as_str());
    let url = chars_of(s.url.as_str());
    let address = string_of(&address_chars(&url));
    PageRow { service: s.duplicate(), initial, address }
}

/// Where `://` first starts (`find_separator`).
fn separator_from(u: &Vec<char>, from: usize) -> (r: Option<usize>)
    ensures
        match r {
            Some(i) => find_separator(u@, from as nat) == Some(i as nat) && i + 3 <= u.len(),
            None => find_separator(u@, from as nat) is None,
        },
{
    let mut i = from;
    while i < u.len() && u.len() - i >= 3
        invariant
            from <= i,
            find_separator(u@, from as nat) == find_separator(u@, i as nat),
        decreases u.len() - i,
    {
        if u[i] == ':' && u[i + 1] == '/' && u[i + 2] == '/' {
            assert(u@.subrange(i as int, i + 3) =~= scheme_separator());
            return Some(i);
        }
        assert(u@.subrange(i as int, i + 3)[0] == u@[i as int]);
        assert(u@.subrange(i as int, i + 3)[1] == u@[i + 1]);
        assert(u@.subrange(i as int, i + 3)[2] == u@[i + 2]);
        i = i + 1;
    }
    None
}

/// The address shown for a URL (`address_of`).
pub fn address_chars(u: &Vec<char>) -> (r: Vec<char>)
    ensures
        r@ == address_of(u@),
{
    match separator_from(u, 0) {
        Some(i) => {
            let rest = slice_chars(u, i + 3, u.len());
            assert(rest@ == u@.skip(i + 3));
            match find_char(&rest, '/', 0) {
                Some(j) => {
                    proof {
                        crate::html::lemma_find_from_bounds(rest@, '/', 0);
                    }
                    slice_chars(&rest, 0, j)
                },
                None => rest,
            }
        },
        None => slice_chars(u, 0, u.len()),
    }
}

/// The summary line (`summary_of`).
fn summary_text(services: usize, groups: usize) -> (r: String)
    ensures
        r@ == summary_of(services as nat, groups as nat),
{
    let mut v = decimal_chars(services);
    let sw = vec![' ', 's', 'e', 'r', 'v', 'i', 'c', 'e', 's', ' ', '\u{b7}', ' '];
    let gw = vec![' ', 'g', 'r', 'o', 'u', 'p', 's'];
    let d = decimal_chars(groups);
    let mut all: Vec<char> = Vec::new();
    let ghost target = summary_of(services as nat, groups as nat);
    for i in 0..v.len()
        invariant
            all@ == v@.take(i as int),
    {
        all.push(v[i]);
        assert(v@.take(i + 1) == v@.take(i as int).push(v@[i as int]));
    }
    assert(v@.take(v.len() as int) == v@);
    let ghost a0 = all@;
    for i in 0..sw.len()
        invariant
            all@ == a0 + sw@.take(i as int),
    {
        all.push(sw[i]);
        assert(sw@.take(i + 1) == sw@.take(i as int).push(sw@[i as int]));
    }
    assert(sw@.take(sw.len() as int) == sw@);
    let ghost a1 = all@;
    for i in 0..d.len()
        invariant
            all@ == a1 + d@.take(i as int),
    {
        all.push(d[i]);
        assert(d@.take(i + 1) == d@.take(i as int).push(d@[i as int]));
    }
    assert(d@.take(d.len() as int) == d@);
    let ghost a2 = all@;
    for i in 0..gw.len()
        invariant
            all@ == a2 + gw@.take(i as int),
    {
        all.push(gw[i]);
        assert(gw@.take(i + 1) == gw@.take(i as int).push(gw@[i as int]));
    }
    assert(gw@.take(gw.len() as int) == gw@);
    string_of(&all)
}


/// A display order lists no position twice.
pub proof fn lemma_page_order_no_repeats(services: Seq<Service>, p: Seq<usize>, k1: int, k2: int)
    requires
        is_page_order(services, p),
        0 <= k1 < k2 < p.len(),
    ensures
        p[k1] != p[k2],
{
    let a = p[k1] as int;
    assert(page_ahead(services, p[k1] as int, p[k2] as int));
    lemma_seq_less_asymmetric(services[a].group@, services[a].group@);
    lemma_seq_less_asymmetric(lowercase(services[a].name@), lowercase(services[a].name@));
}

/// `page_ahead` between different positions is a strict total order.
proof fn lemma_page_ahead_order(services: Seq<Service>, a: int, b: int)
    requires
        a != b,
    ensures
        page_ahead(services, a, b) || page_ahead(services, b, a),
        !(page_ahead(services, a, b) && page_ahead(services, b, a)),
{
    let s = services;
    lemma_key_ahead_total(
        group_rank(s[a].group@), s[a].group@, lowercase(s[a].name@), a,
        group_rank(s[b].group@), s[b].group@, lowercase(s[b].name@), b,
    );
}

/// Two display orders agree up to any position both have.
proof fn lemma_page_orders_agree(services: Seq<Service>, p1: Seq<usize>, p2: Seq<usize>, k: int)
    requires
        is_page_order(services, p1),
        is_page_order(services, p2),
        0 <= k < p1.len(),
        k < p2.len(),
    ensures
        p1[k] == p2[k],
    decreases k,
{
    assert forall|m: int| 0 <= m < k implies p1[m] == p2[m] by {
        lemma_page_orders_agree(services, p1, p2, m);
    }
    let a = p1[k] as int;
    let b = p2[k] as int;
    if a != b {
        lemma_page_ahead_order(services, a, b);
        assert(p2.contains(a as usize) && p1.contains(b as usize));
        let q2 = choose|q: int| 0 <= q < p2.len() && p2[q] == a as usize;
        let q1 = choose|q: int| 0 <= q < p1.len() && p1[q] == b as usize;
        if q2 < k {
            lemma_page_order_no_repeats(services, p1, q2, k);
        }
        if q1 < k {
            lemma_page_order_no_repeats(services, p2, q1, k);
        }
        if q2 > k && q1 > k {
            assert(page_ahead(services, p2[k] as int, p2[q2] as int));
            assert(page_ahead(services, p1[k] as int, p1[q1] as int));
        }
    }
}

/// For a list of services there is only one display order.
pub proof fn lemma_page_order_unique(services: Seq<Service>, p1: Seq<usize>, p2: Seq<usize>)
    requires
        is_page_order(services, p1),
        is_page_order(services, p2),
    ensures
        p1 == p2,
{
    assert forall|k: int| 0 <= k < p1.len() && k < p2.len() implies p1[k] == p2[k] by {
        lemma_page_orders_agree(services, p1, p2, k);
    }
    if p1.len() < p2.len() {
        let k = p1.len() as int;
        let x = p2[k];
        assert(p1.contains(x));
        let q = choose|q: int| 0 <= q < p1.len() && p1[q] == x;
        lemma_page_order_no_repeats(services, p2, q, k);
    } else if p2.len() < p1.len() {
        let k = p2.len() as int;
        let x = p1[k];
        assert(p2.contains(x));
        let q = choose|q: int| 0 <= q < p2.len() && p2[q] == x;
        lemma_page_order_no_repeats(services, p1, q, k);
    }
    assert(p1 =~= p2);
}

/// Dropping the last part of a grouping leaves a grouping of the rest.
proof fn lemma_grouping_drop_last(services: Seq<Service>, p: Seq<usize>, parts: Seq<Seq<usize>>)
    requires
        is_grouping(services, p, parts),
        parts.len() > 0,
    ensures
        is_grouping(services, joined(parts.drop_last()), parts.drop_last()),
        p == joined(parts.drop_last()) + parts.last(),
{
    let d = parts.drop_last();
    assert forall|k: int| 0 <= k < d.len() implies (#[trigger] d[k]).len() > 0 by {
        assert(d[k] == parts[k]);
    }
    assert forall|k: int, m: int| 0 <= k < d.len() && 0 <= m < d[k].len() implies services[(#[trigger] d[k][m]) as int].group@
        == services[d[k][0] as int].group@ by {
        assert(d[k] == parts[k]);
    }
    assert forall|k: int| 0 <= k < d.len() - 1 implies services[(#[trigger] d[k])[0] as int].group@ != services[d[k
        + 1][0] as int].group@ by {
        assert(d[k] == parts[k]);
        assert(d[k + 1] == parts[k + 1]);
    }
}

/// How a list of services is cut into sections is determined by the display
/// order: the runs of one group.
pub proof fn lemma_grouping_unique(services: Seq<Service>, p: Seq<usize>, parts1: Seq<Seq<usize>>, parts2: Seq<Seq<usize>>)
    requires
        is_grouping(services, p, parts1),
        is_grouping(services, p, parts2),
    ensures
        parts1 == parts2,
    decreases parts1.len(),
{
    if parts1.len() == 0 || parts2.len() == 0 {
        if parts1.len() > 0 {
            assert(parts1.last().len() > 0);
            lemma_grouping_drop_last(services, p, parts1);
            assert(p.len() > 0);
            assert(joined(parts2) == Seq::<usize>::empty());
        }
        if parts2.len() > 0 {
            assert(parts2.last().len() > 0);
            lemma_grouping_drop_last(services, p, parts2);
            assert(p.len() > 0);
            assert(joined(parts1) == Seq::<usize>::empty());
        }
    } else {
        lemma_grouping_drop_last(services, p, parts1);
        lemma_grouping_drop_last(services, p, parts2);
        let n1 = parts1.len() as int;
        let n2 = parts2.len() as int;
        let l1 = parts1.last().len() as int;
        let l2 = parts2.last().len() as int;
        let g = services[p.last() as int].group@;
        assert(l1 > 0 && l2 > 0);
        assert forall|t: int| p.len() - l1 <= t < p.len() implies services[p[t] as int].group@ == g by {
            assert(p[t] == parts1.last()[t - (p.len() - l1)]);
            assert(p.last() == parts1.last()[l1 - 1]);
            assert(services[parts1[n1 - 1][t - (p.len() - l1)] as int].group@ == services[parts1[n1 - 1][0] as int].group@);
            assert(services[parts1[n1 - 1][l1 - 1] as int].group@ == services[parts1[n1 - 1][0] as int].group@);
        }
        assert forall|t: int| p.len() - l2 <= t < p.len() implies services[p[t] as int].group@ == g by {
            assert(p[t] == parts2.last()[t - (p.len() - l2)]);
            assert(p.last() == parts2.last()[l2 - 1]);
            assert(services[parts2[n2 - 1][t - (p.len() - l2)] as int].group@ == services[parts2[n2 - 1][0] as int].group@);
            assert(services[parts2[n2 - 1][l2 - 1] as int].group@ == services[parts2[n2 - 1][0] as int].group@);
        }
        if l1 < l2 {
            lemma_run_boundary(services, p, parts1, g);
        } else if l2 < l1 {
            lemma_run_boundary(services, p, parts2, g);
        }
        assert(parts1.last() =~= parts2.last()) by {
            assert(parts1.last() =~= p.skip(p.len() - l1));
            assert(parts2.last() =~= p.skip(p.len() - l2));
        }
        assert(joined(parts1.drop_last()) =~= p.take(p.len() - l1));
        assert(joined(parts2.drop_last()) =~= p.take(p.len() - l2));
        lemma_grouping_unique(services, joined(parts1.drop_last()), parts1.drop_last(), parts2.drop_last());
        assert(parts1 =~= parts2) by {
            assert(parts1 == parts1.drop_last().push(parts1.last()));
            assert(parts2 == parts2.drop_last().push(parts2.last()));
        }
    }
}

/// Just before the last part of a grouping with more than one part stands an
/// entry of another group than the last part's.
proof fn lemma_run_boundary(services: Seq<Service>, p: Seq<usize>, parts: Seq<Seq<usize>>, g: Seq<char>)
    requires
        is_grouping(services, p, parts),
        parts.len() > 0,
        services[parts.last()[0] as int].group@ == g,
        p.len() > parts.last().len(),
    ensures
        services[p[p.len() - parts.last().len() - 1] as int].group@ != g,
{
    let n = parts.len() as int;
    lemma_grouping_drop_last(services, p, parts);
    let d = parts.drop_last();
    assert(joined(d).len() > 0);
    assert(d.len() > 0) by {
        if d.len() == 0 {
            assert(joined(d) == Seq::<usize>::empty());
        }
    }
    lemma_grouping_drop_last(services, joined(d), d);
    let prev = parts[n - 2];
    assert(d.last() == prev);
    assert(prev.len() > 0);
    assert(joined(d).last() == prev.last());
    assert(p[p.len() - parts.last().len() - 1] == joined(d).last());
    assert(services[prev[prev.len() - 1] as int].group@ == services[prev[0] as int].group@);
    assert(services[(parts[n - 2])[0] as int].group@ != services[parts[n - 1][0] as int].group@);
}

/// Where part `k` starts in the joined sequence.
pub open spec fn part_start(parts: Seq<Seq<usize>>, k: int) -> nat {
    joined(parts.take(k)).len()
}

/// Part `k` sits in the joined sequence right after the parts before it.
proof fn lemma_joined_index(parts: Seq<Seq<usize>>, k: int, m: int)
    requires
        0 <= k < parts.len(),
        0 <= m < parts[k].len(),
    ensures
        part_start(parts, k) + parts[k].len() == part_start(parts, k + 1),
        part_start(parts, k + 1) <= joined(parts).len(),
        joined(parts)[part_start(parts, k) + m] == parts[k][m],
    decreases parts.len(),
{
    let n = parts.len() as int;
    assert(parts.take(k + 1).drop_last() == parts.take(k));
    assert(parts.take(k + 1).last() == parts[k]);
    if k == n - 1 {
        assert(parts.take(n) == parts);
        assert(parts.drop_last() == parts.take(k));
    } else {
        let shorter = parts.drop_last();
        assert(shorter[k] == parts[k]);
        assert(shorter.take(k) == parts.take(k));
        assert(shorter.take(k + 1) == parts.take(k + 1));
        lemma_joined_index(shorter, k, m);
    }
}

/// Part starts grow with the part number.
proof fn lemma_part_start_monotone(parts: Seq<Seq<usize>>, k1: int, k2: int)
    requires
        0 <= k1 < k2 <= parts.len(),
        forall|k: int| 0 <= k < parts.len() ==> (#[trigger] parts[k]).len() > 0,
    ensures
        part_start(parts, k1) < part_start(parts, k2),
    decreases k2 - k1,
{
    lemma_joined_index(parts, k1, 0);
    if k1 + 1 < k2 {
        lemma_part_start_monotone(parts, k1 + 1, k2);
    }
}

/// Each group has one section: different sections of the page show different
/// groups.
pub proof fn lemma_one_section_per_group(services: Seq<Service>, p: Seq<usize>, parts: Seq<Seq<usize>>, k1: int, k2: int)
    requires
        is_page_order(services, p),
        is_grouping(services, p, parts),
        0 <= k1 < k2 < parts.len(),
    ensures
        services[parts[k1][0] as int].group@ != services[parts[k2][0] as int].group@,
{
    let x = parts[k1][0] as int;
    let z = parts[k1 + 1][0] as int;
    let y = parts[k2][0] as int;
    assert(parts[k1].len() > 0 && parts[k1 + 1].len() > 0 && parts[k2].len() > 0);
    if k1 + 1 < k2 && services[x].group@ == services[y].group@ {
        lemma_joined_index(parts, k1, 0);
        lemma_joined_index(parts, k1 + 1, 0);
        lemma_joined_index(parts, k2, 0);
        lemma_part_start_monotone(parts, k1, k1 + 1);
        lemma_part_start_monotone(parts, k1 + 1, k2);
        let a = part_start(parts, k1) as int;
        let b = part_start(parts, k1 + 1) as int;
        let c = part_start(parts, k2) as int;
        assert(p[a] as int == x && p[b] as int == z && p[c] as int == y);
        assert(page_ahead(services, p[a] as int, p[b] as int));
        assert(page_ahead(services, p[b] as int, p[c] as int));
        let gx = services[x].group@;
        let gz = services[z].group@;
        assert(gx != gz);
        lemma_seq_less_asymmetric(gx, gz);
    }
}

/// The page for a list of services is determined: two layouts that both meet
/// `is_layout` show the same summary and the same sections with the same rows.
pub proof fn lemma_layout_determined(services: Seq<Service>, a: PageLayout, b: PageLayout)
    requires
        is_layout(services, a),
        is_layout(services, b),
    ensures
        a.summary@ == b.summary@,
        a.sections.len() == b.sections.len(),
        forall|k: int|
            0 <= k < a.sections.len() ==> {
                &&& (#[trigger] a.sections@[k]).group@ == b.sections@[k].group@
                &&& a.sections@[k].count == b.sections@[k].count
                &&& a.sections@[k].rows.len() == b.sections@[k].rows.len()
                &&& forall|m: int|
                    0 <= m < a.sections@[k].rows.len() ==> {
                        &&& (#[trigger] a.sections@[k].rows@[m]).service@ == b.sections@[k].rows@[m].service@
                        &&& a.sections@[k].rows@[m].initial@ == b.sections@[k].rows@[m].initial@
                        &&& a.sections@[k].rows@[m].address@ == b.sections@[k].rows@[m].address@
                    }
            },
{
    let (p1, parts1) = choose|p: Seq<usize>, parts: Seq<Seq<usize>>|
        #![trigger is_grouping(services, p, parts)]
        {
            &&& is_page_order(services, p)
            &&& is_grouping(services, p, parts)
            &&& parts.len() == a.sections.len()
            &&& forall|k: int| 0 <= k < parts.len() ==> section_shows(services, parts[k], #[trigger] a.sections@[k])
            &&& a.summary@ == summary_of(services.len(), parts.len())
        };
    let (p2, parts2) = choose|p: Seq<usize>, parts: Seq<Seq<usize>>|
        #![trigger is_grouping(services, p, parts)]
        {
            &&& is_page_order(services, p)
            &&& is_grouping(services, p, parts)
            &&& parts.len() == b.sections.len()
            &&& forall|k: int| 0 <= k < parts.len() ==> section_shows(services, parts[k], #[trigger] b.sections@[k])
            &&& b.summary@ == summary_of(services.len(), parts.len())
        };
    lemma_page_order_unique(services, p1, p2);
    lemma_grouping_unique(services, p1, parts1, parts2);
    assert forall|k: int| 0 <= k < a.sections.len() implies {
        &&& (#[trigger] a.sections@[k]).group@ == b.sections@[k].group@
        &&& a.sections@[k].count == b.sections@[k].count
        &&& a.sections@[k].rows.len() == b.sections@[k].rows.len()
        &&& forall|m: int|
            0 <= m < a.sections@[k].rows.len() ==> {
                &&& (#[trigger] a.sections@[k].rows@[m]).service@ == b.sections@[k].rows@[m].service@
                &&& a.sections@[k].rows@[m].initial@ == b.sections@[k].rows@[m].initial@
                &&& a.sections@[k].rows@[m].address@ == b.sections@[k].rows@[m].address@
            }
    } by {
        assert(section_shows(services, parts1[k], a.sections@[k]));
        assert(section_shows(services, parts2[k], b.sections@[k]));
        assert forall|m: int| 0 <= m < a.sections@[k].rows.len() implies {
            &&& (#[trigger] a.sections@[k].rows@[m]).service@ == b.sections@[k].rows@[m].service@
            &&& a.sections@[k].rows@[m].initial@ == b.sections@[k].rows@[m].initial@
            &&& a.sections@[k].rows@[m].address@ == b.sections@[k].rows@[m].address@
        } by {
            assert(row_shows(services[parts1[k][m] as int], a.sections@[k].rows@[m]));
            assert(row_shows(services[parts2[k][m] as int], b.sections@[k].rows@[m]));
        }
    }
}

/// The page for a list of services (`is_layout`).
pub fn page_layout(services: &Vec<Service>) -> (r: PageLayout)
    ensures
        is_layout(services@, r),
{
    let p = page_order(services);
    let mut sections: Vec<PageSection> = Vec::new();
    let mut rows: Vec<PageRow> = Vec::new();
    let mut group = String::new();
    let ghost mut done: Seq<Seq<usize>> = seq![];
    let ghost mut cur: Seq<usize> = seq![];
    for j in 0..p.len()
        invariant
            is_page_order(services@, p@),
            sections.len() == done.len(),
            forall|k: int| 0 <= k < done.len() ==> section_shows(services@, done[k], #[trigger] sections@[k]),
            forall|k: int| 0 <= k < done.len() ==> (#[trigger] done[k]).len() > 0,
            forall|k: int, m: int|
                0 <= k < done.len() && 0 <= m < done[k].len() ==> services@[(#[trigger] done[k][m]) as int].group@
                    == services@[done[k][0] as int].group@,
            forall|k: int|
                0 <= k < done.len() - 1 ==> services@[(#[trigger] done[k])[0] as int].group@ != services@[done[k
                    + 1][0] as int].group@,
            j > 0 ==> cur.len() > 0,
            cur.len() == rows.len(),
            forall|m: int| 0 <= m < cur.len() ==> row_shows(services@[cur[m] as int], #[trigger] rows@[m]),
            cur.len() > 0 ==> group@ == services@[cur[0] as int].group@,
            forall|m: int| 0 <= m < cur.len() ==> services@[(#[trigger] cur[m]) as int].group@ == group@,
            done.len() > 0 && cur.len() > 0 ==> services@[done.last()[0] as int].group@ != group@,
            joined(done) + cur == p@.take(j as int),
    {
        let i = p[j];
        let row = make_row(&services[i]);
        proof {
            assert(p@.take(j + 1) == p@.take(j as int).push(i));
        }
        if rows.len() > 0 && services[i].group == group {
            rows.push(row);
            proof {
                cur = cur.push(i);
            }
        } else {
            if rows.len() > 0 {
                let count = rows.len();
                sections.push(PageSection { group, count, rows });
                proof {
                    let old_done = done;
                    done = done.push(cur);
                    assert(done.drop_last() == old_done);
                    assert(joined(done) == joined(old_done) + cur);
                }
            }
            rows = vec![row];
            group = services[i].group.clone();
            assert(rows@[0] == row);
            proof {
                cur = seq![i];
                assert(joined(done) + cur == p@.take(j + 1));
            }
        }
    }
    if rows.len() > 0 {
        let count = rows.len();
        sections.push(PageSection { group, count, rows });
        proof {
            let old_done = done;
            done = done.push(cur);
            assert(done.drop_last() == old_done);
        }
    }
    proof {
        assert(p@.take(p.len() as int) == p@);
        assert(joined(done) == p@) by {
            if p.len() == 0 {
                assert(joined(done) == Seq::<usize>::empty());
            }
        }
        assert(is_grouping(services@, p@, done));
    }
    let summary = summary_text(services.len(), sections.len());
    let r = PageLayout { summary, sections };
    assert(is_grouping(services@, p@, done) && is_page_order(services@, p@) && done.len() == r.sections.len());
    r
}


/// The number a string of decimal digits denotes, read most significant digit first.
pub open spec fn digits_value(s: Seq<char>) -> int
    decreases s.len(),
{
    if s.len() == 0 {
        0
    } else {
        digits_value(s.drop_last()) * 10 + ((s.last() as int) - ('0' as int))
    }
}

/// `decimal(n)` is the standard base-ten notation of `n`: it is made of the
/// digits `0` to `9`, reads back as `n`, and has no leading zero.
pub proof fn lemma_decimal_reads_back(n: nat)
    ensures
        decimal(n).len() > 0,
        forall|i: int| 0 <= i < decimal(n).len() ==> '0' <= #[trigger] decimal(n)[i] <= '9',
        digits_value(decimal(n)) == n,
        n > 0 ==> decimal(n)[0] != '0',
    decreases n,
{
    if n < 10 {
        let d = digit_char(n as int);
        assert(d as int == '0' as int + n);
        assert(decimal(n).drop_last() =~= Seq::<char>::empty());
        assert(digits_value(decimal(n).drop_last()) == 0);
        assert(decimal(n).last() == d);
        assert(digits_value(decimal(n)) == digits_value(decimal(n).drop_last()) * 10 + ((d as int) - ('0' as int)));
    } else {
        lemma_decimal_reads_back(n / 10);
        let d = digit_char((n % 10) as int);
        assert(d as int == '0' as int + n % 10);
        assert(decimal(n).drop_last() =~= decimal(n / 10));
        assert(n == (n / 10) * 10 + n % 10);
        assert(decimal(n).last() == d);
        assert(digits_value(decimal(n)) == digits_value(decimal(n).drop_last()) * 10 + ((d as int) - ('0' as int)));
        assert(decimal(n)[0] == decimal(n / 10)[0]);
    }
}

} // verus!
