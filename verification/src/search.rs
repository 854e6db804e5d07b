//! Quick search: fuzzy scoring of services against a typed query, the ranking
//! shown in the search panel, and the panel's keyboard handling.

use vstd::prelude::*;
use crate::service::Service;
use crate::text::{ascii_lower, ascii_lower_all, ascii_upper, ascii_upper_all, is_ascii_text, find_from, less_than, seq_less, lemma_seq_less_asymmetric, lemma_seq_less_total, lemma_seq_less_transitive, alphanumeric, chars_of, is_alphanumeric, is_white_space, lowercase, to_lowercase, white_space};

verus! {


/// A character sequence with every whitespace character left out.
pub open spec fn without_white_space(s: Seq<char>) -> Seq<char>
    decreases s.len(),
{
    if s.len() == 0 {
        s
    } else {
        let rest = without_white_space(s.drop_last());
        if is_white_space(s.last()) {
            rest
        } else {
            rest.push(s.last())
        }
    }
}

/// Points for matching a query character at `index`: ten for the match, eight
/// more at the start of a word, five more right after the previous match.
pub open spec fn match_points(c: Seq<char>, index: nat, previous: Option<nat>) -> int {
    10 + (if index == 0 || !alphanumeric(c[index - 1]) {
        8int
    } else {
        0int
    }) + (if previous matches Some(p) && index == p + 1 {
        5int
    } else {
        0int
    })
}

/// Score of matching `q[k..]` in order into `c`, starting the search at `position`:
/// each character is matched at its first occurrence from there on, earns
/// `match_points` and loses one point per character skipped to reach it.
/// `None` when some character finds no match.
pub open spec fn score_from(q: Seq<char>, c: Seq<char>, k: nat, position: nat, previous: Option<nat>) -> Option<int>
    decreases q.len() - k,
{
    if k >= q.len() {
        Some(0)
    } else {
        match find_from(c, q[k as int], position) {
            None => None,
            Some(index) => match score_from(q, c, k + 1, index + 1, Some(index)) {
                None => None,
                Some(rest) => Some(match_points(c, index, previous) - (index - position) + rest),
            },
        }
    }
}

/// The fuzzy score of a prepared query `q` (lower case, no whitespace) against a
/// lower-cased candidate `c`.
pub open spec fn chars_score(q: Seq<char>, c: Seq<char>) -> Option<int> {
    score_from(q, c, 0, 0, None)
}

/// Whether scoring `q[k..]` from `position`, with `acc` points so far, stays
/// within `i32`: every matched position fits in an `i32`, and the running score
/// never passes `i32::MAX` while a match's points are added (skipped characters
/// only lower it, and it never falls below minus the position reached).
pub open spec fn fits_from(q: Seq<char>, c: Seq<char>, k: nat, position: nat, previous: Option<nat>, acc: int) -> bool
    decreases q.len() - k,
{
    if k >= q.len() {
        true
    } else {
        match find_from(c, q[k as int], position) {
            None => true,
            Some(index) => {
                &&& index <= i32::MAX
                &&& acc + match_points(c, index, previous) <= i32::MAX
                &&& fits_from(q, c, k + 1, index + 1, Some(index), acc + match_points(c, index, previous) - (index - position))
            },
        }
    }
}

/// Whether the `i32` arithmetic of scoring `q` against `c` stays in range, so
/// that the score computed is `chars_score` exactly.
pub open spec fn score_fits(q: Seq<char>, c: Seq<char>) -> bool {
    fits_from(q, c, 0, 0, None, 0)
}

/// The query as it is matched: lower-cased, whitespace removed.
pub open spec fn prepared_query(query: Seq<char>) -> Seq<char> {
    without_white_space(lowercase(query))
}

/// The fuzzy score of `query` against `candidate`, both compared in lower case.
pub open spec fn fuzzy(query: Seq<char>, candidate: Seq<char>) -> Option<int> {
    chars_score(prepared_query(query), lowercase(candidate))
}

/// An optional score shifted by `by`.
pub open spec fn shifted(by: int, o: Option<int>) -> Option<int> {
    match o {
        Some(v) => Some(by + v),
        None => None,
    }
}

/// The spec value of an optional index.
pub open spec fn index_nat(o: Option<usize>) -> Option<nat> {
    match o {
        Some(v) => Some(v as nat),
        None => None,
    }
}

/// `idx` places `q[k..]` in order into `c[position..]`: increasing positions,
/// each holding the matching character.
pub open spec fn places(q: Seq<char>, c: Seq<char>, k: nat, position: nat, idx: Seq<int>) -> bool {
    &&& k <= q.len()
    &&& idx.len() == q.len() - k
    &&& forall|t: int| 0 <= t < idx.len() ==> position <= #[trigger] idx[t] < c.len() && c[idx[t]] == q[k + t]
    &&& forall|t1: int, t2: int| 0 <= t1 < t2 < idx.len() ==> #[trigger] idx[t1] < #[trigger] idx[t2]
}

/// `q` occurs in `c` as a subsequence (its characters in order, gaps allowed).
pub open spec fn is_subsequence(q: Seq<char>, c: Seq<char>) -> bool {
    exists|idx: Seq<int>| #[trigger] places(q, c, 0, 0, idx)
}

/// `find_from` finds the first occurrence at or after `from`.
proof fn lemma_find_from_first(c: Seq<char>, w: char, from: nat, j: int)
    requires
        from <= j < c.len(),
        c[j] == w,
    ensures
        find_from(c, w, from) matches Some(i) && from <= i <= j && c[i as int] == w,
    decreases j - from,
{
    if c[from as int] != w {
        lemma_find_from_first(c, w, from + 1, j);
    }
}

/// Scoring from `k` and `position` succeeds exactly when the rest of the query
/// can be placed in order after `position`.
proof fn lemma_score_from_some(q: Seq<char>, c: Seq<char>, k: nat, position: nat, previous: Option<nat>)
    requires
        k <= q.len(),
    ensures
        score_from(q, c, k, position, previous) is Some <==> exists|idx: Seq<int>| #[trigger] places(q, c, k, position, idx),
    decreases q.len() - k,
{
    if k == q.len() {
        assert(places(q, c, k, position, Seq::<int>::empty()));
    } else {
        crate::html::lemma_find_from_bounds(c, q[k as int], position);
        match find_from(c, q[k as int], position) {
            Some(i) => {
                lemma_score_from_some(q, c, k + 1, i + 1, Some(i));
                if score_from(q, c, k, position, previous) is Some {
                    let rest = choose|idx: Seq<int>| #[trigger] places(q, c, k + 1, i + 1, idx);
                    let idx = seq![i as int] + rest;
                    assert forall|t: int| 0 <= t < idx.len() implies position <= #[trigger] idx[t] < c.len() && c[idx[t]]
                        == q[k + t] by {
                        if t > 0 {
                            assert(idx[t] == rest[t - 1]);
                        }
                    }
                    assert forall|t1: int, t2: int| 0 <= t1 < t2 < idx.len() implies #[trigger] idx[t1] < #[trigger] idx[t2] by {
                        if t1 > 0 {
                            assert(idx[t1] == rest[t1 - 1]);
                        }
                        assert(idx[t2] == rest[t2 - 1]);
                    }
                    assert(places(q, c, k, position, idx));
                }
                if exists|idx: Seq<int>| #[trigger] places(q, c, k, position, idx) {
                    let idx = choose|idx: Seq<int>| #[trigger] places(q, c, k, position, idx);
                    lemma_find_from_first(c, q[k as int], position, idx[0]);
                    let rest = idx.drop_first();
                    assert forall|t: int| 0 <= t < rest.len() implies i + 1 <= #[trigger] rest[t] < c.len() && c[rest[t]]
                        == q[(k + 1) + t] by {
                        assert(rest[t] == idx[t + 1]);
                        assert(idx[0] < idx[t + 1]);
                    }
                    assert forall|t1: int, t2: int| 0 <= t1 < t2 < rest.len() implies #[trigger] rest[t1] < #[trigger] rest[t2] by {
                        assert(rest[t1] == idx[t1 + 1]);
                        assert(rest[t2] == idx[t2 + 1]);
                    }
                    assert(places(q, c, k + 1, i + 1, rest));
                }
            },
            None => {
                if exists|idx: Seq<int>| #[trigger] places(q, c, k, position, idx) {
                    let idx = choose|idx: Seq<int>| #[trigger] places(q, c, k, position, idx);
                    lemma_find_from_first(c, q[k as int], position, idx[0]);
                }
            },
        }
    }
}

/// The query matches exactly when its prepared characters occur, in order, in
/// the lower-cased candidate.
pub proof fn lemma_match_is_subsequence(query: Seq<char>, candidate: Seq<char>)
    ensures
        fuzzy(query, candidate) is Some <==> is_subsequence(prepared_query(query), lowercase(candidate)),
{
    lemma_score_from_some(prepared_query(query), lowercase(candidate), 0, 0, None);
}

/// A query with nothing but whitespace matches every candidate with score 0.
pub proof fn lemma_blank_query_scores_zero(query: Seq<char>, candidate: Seq<char>)
    requires
        prepared_query(query).len() == 0,
    ensures
        fuzzy(query, candidate) == Some(0int),
{
}

/// A match found in `c` is found at the same place in `c + d`.
proof fn lemma_find_from_append(c: Seq<char>, d: Seq<char>, w: char, from: nat)
    requires
        find_from(c, w, from) is Some,
    ensures
        find_from(c + d, w, from) == find_from(c, w, from),
    decreases c.len() - from,
{
    if from < c.len() && c[from as int] != w {
        lemma_find_from_append(c, d, w, from + 1);
    }
}

/// Scoring that succeeds in `c` gives the same score in `c + d`.
proof fn lemma_score_from_append(q: Seq<char>, c: Seq<char>, d: Seq<char>, k: nat, position: nat, previous: Option<nat>)
    requires
        score_from(q, c, k, position, previous) is Some,
    ensures
        score_from(q, c + d, k, position, previous) == score_from(q, c, k, position, previous),
    decreases q.len() - k,
{
    if k < q.len() {
        lemma_find_from_append(c, d, q[k as int], position);
        crate::html::lemma_find_from_bounds(c, q[k as int], position);
        let index = find_from(c, q[k as int], position)->0;
        lemma_score_from_append(q, c, d, k + 1, index + 1, Some(index));
        if index > 0 {
            assert((c + d)[index - 1] == c[index - 1]);
        }
        assert(match_points(c + d, index, previous) == match_points(c, index, previous));
    }
}

/// Appending characters to a candidate keeps an existing match and its score.
pub proof fn lemma_append_keeps_score(q: Seq<char>, c: Seq<char>, d: Seq<char>)
    requires
        chars_score(q, c) is Some,
    ensures
        chars_score(q, c + d) == chars_score(q, c),
{
    lemma_score_from_append(q, c, d, 0, 0, None);
}

/// The fuzzy score of ASCII text, where lower-casing is ASCII lower-casing
/// (what `fuzzy` is on ASCII text, see `fuzzy_score`).
pub open spec fn ascii_fuzzy(query: Seq<char>, candidate: Seq<char>) -> Option<int> {
    chars_score(without_white_space(ascii_lower_all(query)), ascii_lower_all(candidate))
}

/// ASCII lower-casing is done character by character.
proof fn lemma_ascii_lower_concat(a: Seq<char>, b: Seq<char>)
    ensures
        ascii_lower_all(a + b) == ascii_lower_all(a) + ascii_lower_all(b),
{
    assert(ascii_lower_all(a + b) =~= ascii_lower_all(a) + ascii_lower_all(b));
}

/// Lower-casing after upper-casing is plain lower-casing.
proof fn lemma_ascii_lower_upper(s: Seq<char>)
    ensures
        ascii_lower_all(ascii_upper_all(s)) == ascii_lower_all(s),
{
    assert forall|i: int| 0 <= i < s.len() implies ascii_lower(ascii_upper(s[i])) == ascii_lower(s[i]) by {
        let c = s[i];
        if 'a' <= c <= 'z' {
            let u = ((c as u32) - 32) as char;
            assert(u as u32 == (c as u32) - 32);
            assert(((u as u32) + 32) as char == c);
        }
    }
    assert(ascii_lower_all(ascii_upper_all(s)) =~= ascii_lower_all(s));
}

/// ASCII lower-casing neither makes nor unmakes whitespace.
proof fn lemma_ascii_lower_white_space(c: char)
    ensures
        is_white_space(ascii_lower(c)) == is_white_space(c),
{
    if 'A' <= c <= 'Z' {
        let l = ((c as u32) + 32) as char;
        assert(l as u32 == (c as u32) + 32);
    }
}

/// Removing whitespace and ASCII lower-casing can be done in either order.
proof fn lemma_white_space_lower_commute(s: Seq<char>)
    ensures
        without_white_space(ascii_lower_all(s)) == ascii_lower_all(without_white_space(s)),
    decreases s.len(),
{
    if s.len() > 0 {
        lemma_white_space_lower_commute(s.drop_last());
        lemma_ascii_lower_white_space(s.last());
        assert(ascii_lower_all(s).drop_last() =~= ascii_lower_all(s.drop_last()));
        let rest = without_white_space(s.drop_last());
        assert(ascii_lower_all(rest.push(s.last())) =~= ascii_lower_all(rest).push(ascii_lower(s.last())));
    } else {
        assert(ascii_lower_all(s) =~= s);
    }
}

/// Whitespace appended after the fact is dropped.
proof fn lemma_white_space_push(s: Seq<char>, c: char)
    ensures
        without_white_space(s.push(c)) == if is_white_space(c) {
            without_white_space(s)
        } else {
            without_white_space(s).push(c)
        },
{
    assert(s.push(c).drop_last() =~= s);
}

/// Removing whitespace twice is removing it once.
proof fn lemma_white_space_twice(s: Seq<char>)
    ensures
        without_white_space(without_white_space(s)) == without_white_space(s),
    decreases s.len(),
{
    if s.len() > 0 {
        lemma_white_space_twice(s.drop_last());
        let rest = without_white_space(s.drop_last());
        if !is_white_space(s.last()) {
            lemma_white_space_push(rest, s.last());
        }
    }
}

/// Appending characters to an ASCII candidate keeps an existing match and its score.
pub proof fn lemma_ascii_append_keeps_score(query: Seq<char>, candidate: Seq<char>, more: Seq<char>)
    requires
        ascii_fuzzy(query, candidate) is Some,
    ensures
        ascii_fuzzy(query, candidate + more) == ascii_fuzzy(query, candidate),
{
    lemma_ascii_lower_concat(candidate, more);
    lemma_append_keeps_score(without_white_space(ascii_lower_all(query)), ascii_lower_all(candidate), ascii_lower_all(more));
}

/// ASCII case does not matter: upper-casing query and candidate leaves the score unchanged.
pub proof fn lemma_ascii_case_ignored(query: Seq<char>, candidate: Seq<char>)
    ensures
        ascii_fuzzy(ascii_upper_all(query), ascii_upper_all(candidate)) == ascii_fuzzy(query, candidate),
{
    lemma_ascii_lower_upper(query);
    lemma_ascii_lower_upper(candidate);
}

/// Whitespace in the query does not matter: removing it leaves the score unchanged.
pub proof fn lemma_query_white_space_ignored(query: Seq<char>, candidate: Seq<char>)
    ensures
        ascii_fuzzy(without_white_space(query), candidate) == ascii_fuzzy(query, candidate),
{
    lemma_white_space_lower_commute(without_white_space(query));
    lemma_white_space_lower_commute(query);
    lemma_white_space_twice(query);
}

/// The characters of `s` that are not whitespace.
pub fn strip_white_space(s: &Vec<char>) -> (r: Vec<char>)
    ensures
        r@ == without_white_space(s@),
{
    let mut out: Vec<char> = Vec::new();
    for i in 0..s.len()
        invariant
            out@ == without_white_space(s@.take(i as int)),
    {
        assert(s@.take(i + 1).drop_last() == s@.take(i as int));
        if !white_space(s[i]) {
            out.push(s[i]);
        }
    }
    assert(s@.take(s.len() as int) == s@);
    out
}

/// Scores a prepared query against a lower-cased candidate (`chars_score`),
/// where the `i32` arithmetic stays in range (`score_fits`).
pub fn score_chars(q: &Vec<char>, c: &Vec<char>) -> (r: Option<i32>)
    requires
        score_fits(q@, c@),
    ensures
        match r {
            Some(v) => chars_score(q@, c@) == Some(v as int),
            None => chars_score(q@, c@) is None,
        },
{
    let mut position: usize = 0;
    let mut score: i32 = 0;
    let mut previous: Option<usize> = None;
    let mut k: usize = 0;
    while k < q.len()
        invariant
            k <= q.len(),
            k <= position <= c.len(),
            position <= 0x8000_0000,
            -(position as int) <= score,
            score_fits(q@, c@) ==> fits_from(q@, c@, k as nat, position as nat, index_nat(previous), score as int),
            score_fits(q@, c@),
            previous matches Some(p) ==> p + 1 == position,
            chars_score(q@, c@) == shifted(score as int, score_from(q@, c@, k as nat, position as nat, index_nat(previous))),
        decreases q.len() - k,
    {
        let wanted = q[k];
        let mut index = position;
        while index < c.len() && c[index] != wanted
            invariant
                position <= index <= c.len(),
                find_from(c@, wanted, position as nat) == find_from(c@, wanted, index as nat),
            decreases c.len() - index,
        {
            index = index + 1;
        }
        if index == c.len() {
            return None;
        }
        let ghost old_score = score;
        let ghost rest = score_from(q@, c@, (k + 1) as nat, (index + 1) as nat, Some(index as nat));
        score = score + 10;
        if index == 0 || !is_alphanumeric(c[index - 1]) {
            score = score + 8;
        }
        if let Some(last) = previous {
            if index == last + 1 {
                score = score + 5;
            }
        }
        score = score - ((index - position) as i32);
        assert(score == old_score + match_points(c@, index as nat, index_nat(previous)) - (index - position));
        previous = Some(index);
        position = index + 1;
        k = k + 1;
    }
    Some(score)
}

/// Whether scoring `q` against `c` keeps its `i32` arithmetic in range
/// (`score_fits`), worked out with a wider accumulator.
fn score_fits_chars(q: &Vec<char>, c: &Vec<char>) -> (r: bool)
    ensures
        r == score_fits(q@, c@),
{
    let mut position: usize = 0;
    let mut score: i64 = 0;
    let mut previous: Option<usize> = None;
    let mut k: usize = 0;
    while k < q.len()
        invariant
            k <= q.len(),
            position <= c.len(),
            position <= 0x8000_0000,
            -(position as int) <= score <= i32::MAX,
            previous matches Some(p) ==> p + 1 == position,
            score_fits(q@, c@) == fits_from(q@, c@, k as nat, position as nat, index_nat(previous), score as int),
        decreases q.len() - k,
    {
        let wanted = q[k];
        let mut index = position;
        while index < c.len() && c[index] != wanted
            invariant
                position <= index <= c.len(),
                find_from(c@, wanted, position as nat) == find_from(c@, wanted, index as nat),
            decreases c.len() - index,
        {
            index = index + 1;
        }
        if index == c.len() {
            return true;
        }
        if index > 0x7fff_ffff {
            return false;
        }
        let mut points: i64 = 10;
        if index == 0 || !is_alphanumeric(c[index - 1]) {
            points = points + 8;
        }
        if let Some(last) = previous {
            if index == last + 1 {
                points = points + 5;
            }
        }
        assert(points == match_points(c@, index as nat, index_nat(previous)));
        if score + points > 0x7fff_ffff {
            return false;
        }
        score = score + points - ((index - position) as i64);
        previous = Some(index);
        position = index + 1;
        k = k + 1;
    }
    true
}

/// Scores `candidate` against `query`: every non-whitespace character of the
/// lower-cased query must occur, in order, in the lower-cased candidate; matches
/// at word starts and runs of consecutive matches score higher, skipped
/// characters lower. `None` when the query does not match; `Some(0)` for a query
/// with nothing but whitespace. Asks that the `i32` arithmetic stay in range
/// (`score_fits`); on ASCII text the score is `ascii_fuzzy`.
pub fn fuzzy_score(query: &str, candidate: &str) -> (r: Option<i32>)
    requires
        score_fits(prepared_query(query@), lowercase(candidate@)),
    ensures
        match r {
            Some(v) => fuzzy(query@, candidate@) == Some(v as int),
            None => fuzzy(query@, candidate@) is None,
        },
        is_ascii_text(query@) && is_ascii_text(candidate@) ==> fuzzy(query@, candidate@) == ascii_fuzzy(query@, candidate@),
{
    let q = strip_white_space(&chars_of(to_lowercase(query).as_str()));
    let c = chars_of(to_lowercase(candidate).as_str());
    score_chars(&q, &c)
}


/// At most this many services are offered by the search panel.
pub const RESULT_LIMIT: usize = 12;

/// The text a service is searched by: its name, a space, its group.
pub open spec fn search_text(s: Service) -> Seq<char> {
    s.name@ + seq![' '] + s.group@
}

/// Whether a service is offered for `query`: the query matches its search text.
pub open spec fn is_match(query: Seq<char>, s: Service) -> bool {
    fuzzy(query, search_text(s)) is Some
}

/// Whether the `i32` arithmetic of scoring every service for `query` stays in
/// range (`score_fits`).
pub open spec fn scorable(query: Seq<char>, services: Seq<Service>) -> bool {
    forall|j: int| 0 <= j < services.len() ==> score_fits(prepared_query(query), #[trigger] lowercase(search_text(services[j])))
}

/// The score of a service for `query` (meaningful when `is_match` holds).
pub open spec fn match_score(query: Seq<char>, s: Service) -> int {
    match fuzzy(query, search_text(s)) {
        Some(v) => v,
        None => 0,
    }
}

/// The order of the result list: higher score first, then name in `String`
/// order, then position in the input.
pub open spec fn ahead(sa: int, na: Seq<char>, ia: int, sb: int, nb: Seq<char>, ib: int) -> bool {
    ||| sa > sb
    ||| sa == sb && seq_less(na, nb)
    ||| sa == sb && na == nb && ia < ib
}

/// `ahead` for the services at positions `i` and `j`.
pub open spec fn ranks_ahead(query: Seq<char>, services: Seq<Service>, i: int, j: int) -> bool {
    ahead(
        match_score(query, services[i]),
        services[i].name@,
        i,
        match_score(query, services[j]),
        services[j].name@,
        j,
    )
}

/// `r` lists, in result order, the best `RESULT_LIMIT` matching services (by position
/// in `services`), or all of them when fewer match.
pub open spec fn is_ranking(query: Seq<char>, services: Seq<Service>, r: Seq<usize>) -> bool {
    &&& r.len() <= RESULT_LIMIT
    &&& forall|k: int| 0 <= k < r.len() ==> #[trigger] r[k] < services.len() && is_match(query, services[r[k] as int])
    &&& forall|k1: int, k2: int|
        0 <= k1 < k2 < r.len() ==> ranks_ahead(query, services, #[trigger] r[k1] as int, #[trigger] r[k2] as int)
    &&& forall|j: int|
        0 <= j < services.len() && #[trigger] is_match(query, services[j]) && !r.contains(j as usize) ==> r.len()
            == RESULT_LIMIT && ranks_ahead(query, services, r[RESULT_LIMIT - 1] as int, j)
}

/// `ahead` is transitive.
pub proof fn lemma_ahead_transitive(sa: int, na: Seq<char>, ia: int, sb: int, nb: Seq<char>, ib: int, sc: int, nc: Seq<char>, ic: int)
    requires
        ahead(sa, na, ia, sb, nb, ib),
        ahead(sb, nb, ib, sc, nc, ic),
    ensures
        ahead(sa, na, ia, sc, nc, ic),
{
    if sa == sb && sb == sc {
        if seq_less(na, nb) && seq_less(nb, nc) {
            lemma_seq_less_transitive(na, nb, nc);
        }
    }
}

/// Of two entries at different positions, one is `ahead` of the other, never both.
pub proof fn lemma_ahead_total(sa: int, na: Seq<char>, ia: int, sb: int, nb: Seq<char>, ib: int)
    requires
        ia != ib,
    ensures
        ahead(sa, na, ia, sb, nb, ib) || ahead(sb, nb, ib, sa, na, ia),
        !(ahead(sa, na, ia, sb, nb, ib) && ahead(sb, nb, ib, sa, na, ia)),
{
    lemma_seq_less_asymmetric(na, nb);
    lemma_seq_less_asymmetric(nb, na);
    if na != nb {
        lemma_seq_less_total(na, nb);
    }
}

/// Positions of the services offered for `query`, best first (`is_ranking`);
/// `None` when the `i32` arithmetic of some score would leave its range (not
/// `scorable`).
pub fn ranked_indices(query: &str, services: &Vec<Service>) -> (r: Option<Vec<usize>>)
    ensures
        match r {
            Some(v) => scorable(query@, services@) && is_ranking(query@, services@, v@),
            None => !scorable(query@, services@),
        },
{
    let ghost qs = query@;
    let prepared = strip_white_space(&chars_of(to_lowercase(query).as_str()));
    let mut names: Vec<Vec<char>> = Vec::new();
    for i in 0..services.len()
        invariant
            names.len() == i,
            forall|t: int| 0 <= t < i ==> #[trigger] names@[t]@ == services@[t].name@,
    {
        names.push(chars_of(services[i].name.as_str()));
    }
    // entries: (score, position) of every match seen so far, in result order
    let mut entries: Vec<(i32, usize)> = Vec::new();
    for i in 0..services.len()
        invariant
            qs == query@,
            prepared@ == prepared_query(qs),
            forall|t: int| 0 <= t < i ==> score_fits(prepared_query(qs), #[trigger] lowercase(search_text(services@[t]))),
            names.len() == services.len(),
            forall|t: int| 0 <= t < services.len() ==> #[trigger] names@[t]@ == services@[t].name@,
            forall|t: int|
                0 <= t < entries.len() ==> {
                    &&& #[trigger] entries@[t].1 < i
                    &&& is_match(qs, services@[entries@[t].1 as int])
                    &&& entries@[t].0 as int == match_score(qs, services@[entries@[t].1 as int])
                },
            forall|t1: int, t2: int|
                0 <= t1 < t2 < entries.len() ==> ranks_ahead(
                    qs,
                    services@,
                    #[trigger] entries@[t1].1 as int,
                    #[trigger] entries@[t2].1 as int,
                ),
            forall|j: int|
                0 <= j < i && #[trigger] is_match(qs, services@[j]) ==> exists|t: int|
                    0 <= t < entries.len() && #[trigger] entries@[t].1 == j,
    {
        let mut text = services[i].name.clone();
        text.append(" ");
        text.append(services[i].group.as_str());
        proof {
            reveal_strlit(" ");
            assert(text@ == search_text(services@[i as int]));
        }
        let lowered = chars_of(to_lowercase(text.as_str()).as_str());
        if !score_fits_chars(&prepared, &lowered) {
            assert(!score_fits(prepared_query(qs), lowercase(search_text(services@[i as int]))));
            return None;
        }
        {
            if let Some(score) = fuzzy_score(query, text.as_str()) {
                let mut t: usize = 0;
                while t < entries.len() && !entry_ahead(score, i, entries[t].0, entries[t].1, &names)
                    invariant
                        t <= entries.len(),
                        i < services.len(),
                        names.len() == services.len(),
                        forall|u: int| 0 <= u < services.len() ==> #[trigger] names@[u]@ == services@[u].name@,
                        forall|u: int| 0 <= u < entries.len() ==> #[trigger] entries@[u].1 < i,
                        forall|u: int|
                            0 <= u < t ==> !ahead(
                                score as int,
                                services@[i as int].name@,
                                i as int,
                                (#[trigger] entries@[u]).0 as int,
                                services@[entries@[u].1 as int].name@,
                                entries@[u].1 as int,
                            ),
                    decreases entries.len() - t,
                {
                    t = t + 1;
                }
                let ghost old_entries = entries@;
                entries.insert(t, (score, i));
                proof {
                    lemma_insert_keeps_order(qs, services@, old_entries, entries@, t as int, score as int, i);
                    assert forall|j: int| 0 <= j < i + 1 && #[trigger] is_match(qs, services@[j]) implies exists|u: int|
                        0 <= u < entries.len() && #[trigger] entries@[u].1 == j by {
                        if j == i {
                            assert(entries@[t as int].1 == j);
                        } else {
                            let u0 = choose|u: int| 0 <= u < old_entries.len() && #[trigger] old_entries[u].1 == j;
                            if u0 < t {
                                assert(entries@[u0].1 == j);
                            } else {
                                assert(entries@[u0 + 1].1 == j);
                            }
                        }
                    }
                }
            }
        }
    }
    let mut r: Vec<usize> = Vec::new();
    let mut k: usize = 0;
    while k < entries.len() && k < RESULT_LIMIT
        invariant
            k <= entries.len(),
            k <= RESULT_LIMIT,
            r.len() == k,
            forall|u: int| 0 <= u < k ==> #[trigger] r@[u] == entries@[u].1,
        decreases entries.len() - k,
    {
        r.push(entries[k].1);
        k = k + 1;
    }
    proof {
        assert forall|j: int|
            0 <= j < services.len() && #[trigger] is_match(qs, services@[j]) && !r@.contains(j as usize) implies r@.len()
                == RESULT_LIMIT && ranks_ahead(qs, services@, r@[RESULT_LIMIT - 1] as int, j) by {
            let t = choose|t: int| 0 <= t < entries.len() && #[trigger] entries@[t].1 == j;
            if t < k {
                assert(r@[t] == j as usize);
            }
            assert(ranks_ahead(qs, services@, entries@[RESULT_LIMIT - 1].1 as int, entries@[t].1 as int));
        }
    }
    Some(r)
}

/// Whether the new entry `(sa, ia)` goes ahead of the existing entry `(sb, ib)`.
fn entry_ahead(sa: i32, ia: usize, sb: i32, ib: usize, names: &Vec<Vec<char>>) -> (r: bool)
    requires
        ia < names.len(),
        ib < names.len(),
    ensures
        r == ahead(sa as int, names@[ia as int]@, ia as int, sb as int, names@[ib as int]@, ib as int),
{
    if sa != sb {
        sa > sb
    } else if less_than(&names[ia], &names[ib]) {
        true
    } else if less_than(&names[ib], &names[ia]) {
        false
    } else {
        proof {
            if names@[ia as int]@ != names@[ib as int]@ {
                lemma_seq_less_total(names@[ia as int]@, names@[ib as int]@);
            }
        }
        ia < ib
    }
}

/// Inserting a new match in front of the first entry it is `ahead` of keeps the
/// entries in result order.
proof fn lemma_insert_keeps_order(
    qs: Seq<char>,
    services: Seq<Service>,
    old_entries: Seq<(i32, usize)>,
    new_entries: Seq<(i32, usize)>,
    t: int,
    score: int,
    i: usize,
)
    requires
        0 <= t <= old_entries.len(),
        i < services.len(),
        new_entries == old_entries.insert(t, (score as i32, i)),
        score == match_score(qs, services[i as int]),
        -0x8000_0000 <= score < 0x8000_0000,
        forall|u: int| 0 <= u < old_entries.len() ==> (#[trigger] old_entries[u]).1 < i && old_entries[u].1 < services.len()
            && old_entries[u].0 as int == match_score(qs, services[old_entries[u].1 as int]),
        forall|t1: int, t2: int|
            0 <= t1 < t2 < old_entries.len() ==> ranks_ahead(
                qs,
                services,
                #[trigger] old_entries[t1].1 as int,
                #[trigger] old_entries[t2].1 as int,
            ),
        forall|u: int|
            0 <= u < t ==> !ahead(
                score,
                services[i as int].name@,
                i as int,
                (#[trigger] old_entries[u]).0 as int,
                services[old_entries[u].1 as int].name@,
                old_entries[u].1 as int,
            ),
        t < old_entries.len() ==> ahead(
            score,
            services[i as int].name@,
            i as int,
            old_entries[t].0 as int,
            services[old_entries[t].1 as int].name@,
            old_entries[t].1 as int,
        ),
    ensures
        forall|t1: int, t2: int|
            0 <= t1 < t2 < new_entries.len() ==> ranks_ahead(
                qs,
                services,
                #[trigger] new_entries[t1].1 as int,
                #[trigger] new_entries[t2].1 as int,
            ),
{
    assert forall|t1: int, t2: int| 0 <= t1 < t2 < new_entries.len() implies ranks_ahead(
        qs,
        services,
        #[trigger] new_entries[t1].1 as int,
        #[trigger] new_entries[t2].1 as int,
    ) by {
        let a = new_entries[t1].1 as int;
        let b = new_entries[t2].1 as int;
        if t2 < t {
            assert(new_entries[t1] == old_entries[t1]);
            assert(new_entries[t2] == old_entries[t2]);
        } else if t2 == t {
            assert(new_entries[t1] == old_entries[t1]);
            let o = old_entries[t1];
            lemma_ahead_total(
                score,
                services[i as int].name@,
                i as int,
                o.0 as int,
                services[o.1 as int].name@,
                o.1 as int,
            );
        } else if t1 == t {
            assert(new_entries[t2] == old_entries[t2 - 1]);
            if t2 - 1 > t {
                assert(ranks_ahead(qs, services, old_entries[t].1 as int, old_entries[t2 - 1].1 as int));
                let o = old_entries[t];
                let p = old_entries[t2 - 1];
                lemma_ahead_transitive(
                    score,
                    services[i as int].name@,
                    i as int,
                    o.0 as int,
                    services[o.1 as int].name@,
                    o.1 as int,
                    p.0 as int,
                    services[p.1 as int].name@,
                    p.1 as int,
                );
            }
        } else if t1 < t {
            assert(new_entries[t1] == old_entries[t1]);
            assert(new_entries[t2] == old_entries[t2 - 1]);
        } else {
            assert(new_entries[t1] == old_entries[t1 - 1]);
            assert(new_entries[t2] == old_entries[t2 - 1]);
        }
    }
}

/// `ranks_ahead` between different positions is a strict total order.
proof fn lemma_ranks_ahead_order(query: Seq<char>, services: Seq<Service>, a: int, b: int)
    requires
        a != b,
    ensures
        ranks_ahead(query, services, a, b) || ranks_ahead(query, services, b, a),
        !(ranks_ahead(query, services, a, b) && ranks_ahead(query, services, b, a)),
{
    lemma_ahead_total(
        match_score(query, services[a]),
        services[a].name@,
        a,
        match_score(query, services[b]),
        services[b].name@,
        b,
    );
}

/// For a given query and list of services there is only one ranking: the
/// result list is fully determined.
pub proof fn lemma_ranking_unique(query: Seq<char>, services: Seq<Service>, r1: Seq<usize>, r2: Seq<usize>)
    requires
        is_ranking(query, services, r1),
        is_ranking(query, services, r2),
    ensures
        r1 == r2,
{
    let n = if r1.len() < r2.len() { r1.len() } else { r2.len() };
    assert forall|k: int| 0 <= k < n implies r1[k] == r2[k] by {
        lemma_ranking_prefix(query, services, r1, r2, k);
    }
    if r1.len() < r2.len() {
        lemma_ranking_longer(query, services, r1, r2);
    } else if r2.len() < r1.len() {
        assert forall|k: int| 0 <= k < n implies r2[k] == r1[k] by {
            lemma_ranking_prefix(query, services, r1, r2, k);
        }
        lemma_ranking_longer(query, services, r2, r1);
    }
    assert(r1 =~= r2);
}

/// Two rankings agree at every position both have.
proof fn lemma_ranking_prefix(query: Seq<char>, services: Seq<Service>, r1: Seq<usize>, r2: Seq<usize>, k: int)
    requires
        is_ranking(query, services, r1),
        is_ranking(query, services, r2),
        0 <= k < r1.len(),
        k < r2.len(),
    ensures
        r1[k] == r2[k],
    decreases k,
{
    assert forall|m: int| 0 <= m < k implies r1[m] == r2[m] by {
        lemma_ranking_prefix(query, services, r1, r2, m);
    }
    let a = r1[k] as int;
    let b = r2[k] as int;
    if a != b {
        lemma_ranks_ahead_order(query, services, a, b);
        if ranks_ahead(query, services, a, b) {
            lemma_ahead_of_place(query, services, r1, r2, k);
        } else {
            lemma_ahead_of_place(query, services, r2, r1, k);
        }
    }
}

/// The entry at place `k` of one ranking cannot go ahead of the entry at the
/// same place of another ranking that agrees before `k`.
proof fn lemma_ahead_of_place(query: Seq<char>, services: Seq<Service>, r1: Seq<usize>, r2: Seq<usize>, k: int)
    requires
        is_ranking(query, services, r1),
        is_ranking(query, services, r2),
        0 <= k < r1.len(),
        k < r2.len(),
        forall|m: int| 0 <= m < k ==> r1[m] == r2[m],
        r1[k] != r2[k],
    ensures
        !ranks_ahead(query, services, r1[k] as int, r2[k] as int),
{
    let a = r1[k] as int;
    let b = r2[k] as int;
    if ranks_ahead(query, services, a, b) {
        assert(r1[k] < services.len() && is_match(query, services[a]));
        if r2.contains(a as usize) {
            let p = choose|p: int| 0 <= p < r2.len() && r2[p] == a as usize;
            if p < k {
                assert(r1[p] == r2[p]);
                assert(ranks_ahead(query, services, r1[p] as int, r1[k] as int));
                lemma_seq_less_asymmetric(services[a].name@, services[a].name@);
            } else if p > k {
                assert(ranks_ahead(query, services, r2[k] as int, r2[p] as int));
                lemma_ranks_ahead_order(query, services, a, b);
            }
        } else {
            let last = r2[RESULT_LIMIT - 1] as int;
            assert(ranks_ahead(query, services, last, a));
            if k < RESULT_LIMIT - 1 {
                assert(ranks_ahead(query, services, b, last));
                lemma_ahead_transitive(
                    match_score(query, services[b]), services[b].name@, b,
                    match_score(query, services[last]), services[last].name@, last,
                    match_score(query, services[a]), services[a].name@, a,
                );
            }
            lemma_ranks_ahead_order(query, services, a, b);
        }
    }
}

/// A ranking is never shorter than another ranking it agrees with.
proof fn lemma_ranking_longer(query: Seq<char>, services: Seq<Service>, r1: Seq<usize>, r2: Seq<usize>)
    requires
        is_ranking(query, services, r1),
        is_ranking(query, services, r2),
        forall|m: int| 0 <= m < r1.len() && m < r2.len() ==> r1[m] == r2[m],
    ensures
        r1.len() >= r2.len(),
{
    if r1.len() < r2.len() {
        let k = r1.len() as int;
        let x = r2[k];
        assert(x < services.len() && is_match(query, services[x as int]));
        if r1.contains(x) {
            let p = choose|p: int| 0 <= p < r1.len() && r1[p] == x;
            assert(r2[p] == x);
            assert(ranks_ahead(query, services, r2[p] as int, r2[k] as int));
            lemma_seq_less_asymmetric(services[x as int].name@, services[x as int].name@);
        } else {
            assert(r1.len() == RESULT_LIMIT);
        }
    }
}

/// The services offered by the search panel for `query`: the best
/// `RESULT_LIMIT` matches in result order (see `is_ranking`); `None` when the
/// `i32` arithmetic of some score would leave its range (not `scorable`).
pub fn rank_services(query: &str, services: &Vec<Service>) -> (r: Option<Vec<Service>>)
    ensures
        match r {
            Some(v) => scorable(query@, services@) && exists|order: Seq<usize>|
                #![trigger is_ranking(query@, services@, order)]
                is_ranking(query@, services@, order) && v@.len() == order.len() && forall|k: int|
                    0 <= k < order.len() ==> (#[trigger] v@[k])@ == services@[order[k] as int]@,
            None => !scorable(query@, services@),
        },
{
    let order = match ranked_indices(query, services) {
        Some(order) => order,
        None => return None,
    };
    let mut r: Vec<Service> = Vec::new();
    for k in 0..order.len()
        invariant
            is_ranking(query@, services@, order@),
            scorable(query@, services@),
            r.len() == k,
            forall|u: int| 0 <= u < k ==> (#[trigger] r@[u])@ == services@[order@[u] as int]@,
    {
        r.push(services[order[k]].duplicate());
    }
    Some(r)
}


/// Whether two strings are equal.
pub fn str_is(a: &str, b: &str) -> (r: bool)
    ensures
        r == (a@ == b@),
{
    a.to_owned() == b.to_owned()
}

/// The search panel's state: whether it is shown, the query typed, and which
/// result is highlighted.
pub struct SearchState {
    pub open: bool,
    pub query: String,
    pub selected: usize,
}

/// Opens the search panel with an empty query and the first result highlighted.
pub fn open_search(state: &mut SearchState)
    ensures
        final(state).open,
        final(state).query@.len() == 0,
        final(state).selected == 0,
{
    state.open = true;
    state.query = String::new();
    state.selected = 0;
}

/// What a key press in the search box asks of the page.
pub struct KeyOutcome {
    /// The browser's default handling of the key is suppressed.
    pub prevent_default: bool,
    /// The page goes to the result at this position.
    pub navigate_to: Option<usize>,
}

impl SearchState {
    /// A closed panel with an empty query.
    pub fn new() -> (r: SearchState)
        ensures
            !r.open,
            r.query@.len() == 0,
            r.selected == 0,
    {
        SearchState { open: false, query: String::new(), selected: 0 }
    }

    /// The query was edited: the new text is kept and the first result highlighted.
    pub fn set_query(&mut self, text: String)
        ensures
            final(self).query@ == text@,
            final(self).selected == 0,
            final(self).open == old(self).open,
    {
        self.query = text;
        self.selected = 0;
    }

    /// A key pressed in the search box, with `count` results listed. With
    /// results, `ArrowDown` and `ArrowUp` move the highlight cyclically and
    /// `Enter` goes to the highlighted result (the last one when the highlight
    /// is past the end); these suppress the default handling. `Escape` closes
    /// the panel. Other keys change nothing.
    pub fn on_key(&mut self, key: &str, count: usize) -> (r: KeyOutcome)
        requires
            key@ == "ArrowDown"@ && count > 0 ==> old(self).selected < usize::MAX,
            key@ == "ArrowUp"@ && count > 0 ==> old(self).selected + count <= usize::MAX,
        ensures
            final(self).query == old(self).query,
            if key@ == "ArrowDown"@ && count > 0 {
                &&& final(self).selected == (old(self).selected + 1) % (count as int)
                &&& final(self).open == old(self).open
                &&& r.prevent_default && r.navigate_to is None
            } else if key@ == "ArrowUp"@ && count > 0 {
                &&& final(self).selected == (old(self).selected + count - 1) % (count as int)
                &&& final(self).open == old(self).open
                &&& r.prevent_default && r.navigate_to is None
            } else if key@ == "Enter"@ && count > 0 {
                &&& final(self).selected == old(self).selected
                &&& final(self).open == old(self).open
                &&& r.prevent_default
                &&& r.navigate_to == Some(
                    if old(self).selected < count - 1 {
                        old(self).selected
                    } else {
                        (count - 1) as usize
                    },
                )
            } else if key@ == "Escape"@ {
                &&& final(self).selected == old(self).selected
                &&& !final(self).open
                &&& !r.prevent_default && r.navigate_to is None
            } else {
                &&& final(self).selected == old(self).selected
                &&& final(self).open == old(self).open
                &&& !r.prevent_default && r.navigate_to is None
            },
    {
        if str_is(key, "ArrowDown") && count > 0 {
            self.selected = (self.selected + 1) % count;
            KeyOutcome { prevent_default: true, navigate_to: None }
        } else if str_is(key, "ArrowUp") && count > 0 {
            self.selected = (self.selected + count - 1) % count;
            KeyOutcome { prevent_default: true, navigate_to: None }
        } else if str_is(key, "Enter") && count > 0 {
            let last = count - 1;
            let index = if self.selected < last {
                self.selected
            } else {
                last
            };
            KeyOutcome { prevent_default: true, navigate_to: Some(index) }
        } else if str_is(key, "Escape") {
            self.open = false;
            KeyOutcome { prevent_default: false, navigate_to: None }
        } else {
            KeyOutcome { prevent_default: false, navigate_to: None }
        }
    }
}

/// What a key press anywhere on the page does to the search panel.
pub enum Shortcut {
    /// Suppress the default handling and open the panel afresh (`open_search`).
    Open,
    /// Close the panel.
    Close,
    /// Nothing.
    Ignore,
}

/// The page-wide shortcut for a key press: Cmd-K or Ctrl-K (either case), or a
/// bare `/` typed outside an editable element, opens the search; `Escape`
/// closes it.
pub fn shortcut_for(key: &str, meta: bool, ctrl: bool, alt: bool, in_editable: bool) -> (r: Shortcut)
    ensures
        ({
            let command_k = (meta || ctrl) && (key@ == seq!['k'] || key@ == seq!['K']);
            let slash = key@ == seq!['/'] && !alt && !meta && !ctrl && !in_editable;
            if command_k || slash {
                r is Open
            } else if key@ == "Escape"@ {
                r is Close
            } else {
                r is Ignore
            }
        }),
{
    let k = vec!['k'];
    let upper_k = vec!['K'];
    let slash_key = vec!['/'];
    let chars = chars_of(key);
    assert(k@ =~= seq!['k']);
    assert(upper_k@ =~= seq!['K']);
    assert(slash_key@ =~= seq!['/']);
    let command_k = (meta || ctrl) && (crate::text::same_chars(&chars, &k) || crate::text::same_chars(&chars, &upper_k));
    let slash = crate::text::same_chars(&chars, &slash_key) && !alt && !meta && !ctrl && !in_editable;
    if command_k || slash {
        Shortcut::Open
    } else if str_is(key, "Escape") {
        Shortcut::Close
    } else {
        Shortcut::Ignore
    }
}

/// Whether a favicon image has failed to load: it has finished loading and has
/// no width.
pub fn favicon_missing(complete: bool, natural_width: u32) -> (r: bool)
    ensures
        r == (complete && natural_width == 0),
{
    complete && natural_width == 0
}


/// The first occurrence of `w` at or after `from` is at `i` when `c[i]` is `w`
/// and nothing between holds it.
proof fn lemma_find_from_exact(c: Seq<char>, w: char, from: nat, i: int)
    requires
        from <= i < c.len(),
        c[i] == w,
        forall|k: int| from <= k < i ==> c[k] != w,
    ensures
        find_from(c, w, from) == Some(i as nat),
    decreases i - from,
{
    if from < i {
        lemma_find_from_exact(c, w, from + 1, i);
    }
}

/// Points for one matched character: ten for the match; at least eighteen at the
/// start of the candidate or after any character that is not alphanumeric (a
/// space, `-`, `.`, ...); at least fifteen right after the previous match; exactly
/// ten inside a word away from the previous match; never more than twenty-three.
pub proof fn lemma_match_points_bonus(c: Seq<char>, index: nat, previous: Option<nat>)
    ensures
        10 <= match_points(c, index, previous) <= 23,
        index == 0 ==> match_points(c, index, previous) >= 18,
        index > 0 && !alphanumeric(c[index - 1]) ==> match_points(c, index, previous) >= 18,
        (previous matches Some(p) && index == p + 1) ==> match_points(c, index, previous) >= 15,
        index > 0 && alphanumeric(c[index - 1]) && !(previous matches Some(p) && index == p + 1) ==> match_points(
            c,
            index,
            previous,
        ) == 10,
{
}

/// A one-character query scores by where it first occurs at `i`: ten, eight more
/// when `i` starts the candidate or follows a character that is not
/// alphanumeric, one less for each character before it.
pub proof fn lemma_single_char_score(x: char, c: Seq<char>, i: int)
    requires
        0 <= i < c.len(),
        c[i] == x,
        forall|k: int| 0 <= k < i ==> c[k] != x,
    ensures
        chars_score(seq![x], c) == Some(10 + (if i == 0 || !alphanumeric(c[i - 1]) { 8int } else { 0int }) - i),
{
    let q = seq![x];
    lemma_find_from_exact(c, x, 0, i);
    assert(q[0] == x);
    assert(score_from(q, c, 1, (i + 1) as nat, Some(i as nat)) == Some(0int));
    assert(score_from(q, c, 0, 0, None) == Some(match_points(c, i as nat, None) - i + 0));
}

/// A two-character query whose first character first occurs at `i` and whose
/// second follows right after it scores both matches, each with its word-start
/// bonus, five more for the run, less the `i` characters skipped.
pub proof fn lemma_adjacent_pair_score(x: char, y: char, c: Seq<char>, i: int)
    requires
        0 <= i,
        i + 1 < c.len(),
        c[i] == x,
        c[i + 1] == y,
        forall|k: int| 0 <= k < i ==> c[k] != x,
    ensures
        chars_score(seq![x, y], c) == Some(
            10 + (if i == 0 || !alphanumeric(c[i - 1]) { 8int } else { 0int }) + 10 + (if !alphanumeric(c[i]) {
                8int
            } else {
                0int
            }) + 5 - i,
        ),
{
    let q = seq![x, y];
    lemma_find_from_exact(c, x, 0, i);
    lemma_find_from_exact(c, y, (i + 1) as nat, i + 1);
    assert(q[0] == x && q[1] == y);
    assert(score_from(q, c, 2, (i + 2) as nat, Some((i + 1) as nat)) == Some(0int));
    let second = match_points(c, (i + 1) as nat, Some(i as nat));
    assert(score_from(q, c, 1, (i + 1) as nat, Some(i as nat)) == Some(second - 0 + 0));
    assert(score_from(q, c, 0, 0, None) == Some(match_points(c, i as nat, None) - i + second));
}

/// Putting characters in front of a candidate keeps a match a match.
proof fn lemma_prepend_keeps_match(q: Seq<char>, p: Seq<char>, c: Seq<char>)
    requires
        chars_score(q, c) is Some,
    ensures
        chars_score(q, p + c) is Some,
{
    lemma_score_from_some(q, c, 0, 0, None);
    let idx = choose|idx: Seq<int>| #[trigger] places(q, c, 0, 0, idx);
    let shifted_idx = Seq::new(idx.len(), |t: int| idx[t] + p.len());
    assert forall|t: int| 0 <= t < shifted_idx.len() implies 0 <= #[trigger] shifted_idx[t] < (p + c).len() && (p + c)[shifted_idx[t]]
        == q[0 + t] by {
        assert(c[idx[t]] == q[0 + t]);
    }
    assert forall|t1: int, t2: int| 0 <= t1 < t2 < shifted_idx.len() implies #[trigger] shifted_idx[t1] < #[trigger] shifted_idx[t2] by {
        assert(idx[t1] < idx[t2]);
    }
    assert(places(q, p + c, 0, 0, shifted_idx));
    lemma_score_from_some(q, p + c, 0, 0, None);
}

/// A service is offered for a query that matches only its group: on ASCII text,
/// a query matching the group matches the service's search text.
pub proof fn lemma_group_match_offers(query: Seq<char>, s: Service)
    requires
        ascii_fuzzy(query, s.group@) is Some,
    ensures
        ascii_fuzzy(query, search_text(s)) is Some,
{
    let front = s.name@ + seq![' '];
    assert(search_text(s) =~= front + s.group@);
    lemma_ascii_lower_concat(front, s.group@);
    lemma_prepend_keeps_match(without_white_space(ascii_lower_all(query)), ascii_lower_all(front), ascii_lower_all(s.group@));
}

/// A query matching a service's name matches its search text with the same
/// score: the name comes first, the group after it.
pub proof fn lemma_name_match_keeps_score(query: Seq<char>, s: Service)
    requires
        ascii_fuzzy(query, s.name@) is Some,
    ensures
        ascii_fuzzy(query, search_text(s)) == ascii_fuzzy(query, s.name@),
{
    assert(search_text(s) =~= s.name@ + (seq![' '] + s.group@));
    lemma_ascii_append_keeps_score(query, s.name@, seq![' '] + s.group@);
}

} // verus!
