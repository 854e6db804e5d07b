//! Favicons a service's home page declares: the `<link ...>` tags of an HTML
//! page, their attributes, and the icon links among them.
//!
//! The scanners follow two regular expressions, applied the way
//! `Regex::find_iter` / `captures_iter` apply them (leftmost match first,
//! scanning on from the end of the previous match):
//! tags are `(?is)<link\b[^>]*>`, attributes inside a tag are
//! `(?i)([a-z][a-z0-9-]*)\s*=\s*["']([^"']*)["']`.

use vstd::prelude::*;
use crate::text::{
    ascii_lower_all, chars_of, find_char, find_from, is_white_space, lower_ascii, same_chars,
    slice_chars, string_of, white_space,
};
use crate::weburl::{joined_url, same_origin_spec, url_view_opt, UrlView, WebUrl};

verus! {

/// Whether a character is a Unicode word character (`\w`), as `regex_syntax`
/// decides.
pub uninterp spec fn word_character(c: char) -> bool;

/// `regex_syntax::is_word_character`: Alphabetic, Join_Control, Decimal_Number,
/// Mark or Connector_Punctuation. Only that the answer is `word_character(c)` is
/// claimed; the Unicode tables are not spelled out.
#[verifier::external_body]
fn is_word_character(c: char) -> (r: bool)
    ensures
        r == word_character(c),
{
    regex_syntax::is_word_character(c)
}

/// A character that a case-insensitive pattern letter `lower` (ASCII, lower case)
/// matches under Unicode simple case folding: the letter in either case, and
/// also KELVIN SIGN for `k` and LATIN SMALL LETTER LONG S for `s`.
pub open spec fn folds_to(c: char, lower: char) -> bool {
    ||| c == lower
    ||| c as u32 + 32 == lower as u32
    ||| lower == 'k' && c == '\u{212A}'
    ||| lower == 's' && c == '\u{17F}'
}

/// A `<link` opening at `i`, followed by a word boundary.
pub open spec fn link_opener_at(h: Seq<char>, i: int) -> bool {
    &&& 0 <= i
    &&& i + 5 <= h.len()
    &&& h[i] == '<'
    &&& folds_to(h[i + 1], 'l')
    &&& folds_to(h[i + 2], 'i')
    &&& folds_to(h[i + 3], 'n')
    &&& folds_to(h[i + 4], 'k')
    &&& (i + 5 == h.len() || !word_character(h[i + 5]))
}

/// The end (one past the closing `>`) of the link tag that starts at `i`, if one does.
pub open spec fn link_tag_at(h: Seq<char>, i: nat) -> Option<nat> {
    if link_opener_at(h, i as int) {
        match find_from(h, '>', (i + 5) as nat) {
            Some(j) => Some(j + 1),
            None => None,
        }
    } else {
        None
    }
}

/// The leftmost link tag starting at or after `from`, as (start, end).
pub open spec fn next_link_tag(h: Seq<char>, from: nat) -> Option<(nat, nat)>
    decreases h.len() - from,
{
    if from >= h.len() {
        None
    } else {
        match link_tag_at(h, from) {
            Some(e) => Some((from, e)),
            None => next_link_tag(h, from + 1),
        }
    }
}

/// All link tags of `h` from `from` on, each search resuming at the end of the
/// previous tag.
pub open spec fn link_tags(h: Seq<char>, from: nat) -> Seq<(nat, nat)>
    decreases h.len() - from,
{
    match next_link_tag(h, from) {
        Some((s, e)) => if from < e <= h.len() {
            seq![(s, e)] + link_tags(h, e)
        } else {
            seq![]
        },
        None => seq![],
    }
}

/// Where `link_opener_at` holds.
fn opener_at(h: &Vec<char>, i: usize) -> (r: bool)
    ensures
        r == link_opener_at(h@, i as int),
{
    if i >= h.len() || h.len() - i < 5 {
        return false;
    }
    h[i] == '<' && folds(h[i + 1], 'l') && folds(h[i + 2], 'i') && folds(h[i + 3], 'n') && folds(h[i + 4], 'k')
        && (i + 5 == h.len() || !is_word_character(h[i + 5]))
}

/// Where `folds_to` holds.
fn folds(c: char, lower: char) -> (r: bool)
    requires
        'a' <= lower <= 'z',
    ensures
        r == folds_to(c, lower),
{
    c == lower || (c as u32) + 32 == lower as u32 || (lower == 'k' && c == '\u{212A}') || (lower == 's' && c
        == '\u{17F}')
}

/// The leftmost link tag at or after `from` (`next_link_tag`).
fn find_link_tag(h: &Vec<char>, from: usize) -> (r: Option<(usize, usize)>)
    ensures
        match r {
            Some((s, e)) => next_link_tag(h@, from as nat) == Some((s as nat, e as nat)) && from <= s < e <= h.len(),
            None => next_link_tag(h@, from as nat) is None,
        },
{
    let mut i = from;
    while i < h.len()
        invariant
            from <= i,
            next_link_tag(h@, from as nat) == next_link_tag(h@, i as nat),
        decreases h.len() - i,
    {
        if opener_at(h, i) {
            if let Some(j) = find_char(h, '>', i + 5) {
                proof {
                    lemma_find_from_bounds(h@, '>', (i + 5) as nat);
                }
                return Some((i, j + 1));
            }
        }
        i = i + 1;
    }
    None
}

/// What `find_from` returns lies in range.
pub proof fn lemma_find_from_bounds(c: Seq<char>, wanted: char, from: nat)
    ensures
        find_from(c, wanted, from) matches Some(i) ==> from <= i < c.len() && c[i as int] == wanted,
    decreases c.len() - from,
{
    if from < c.len() && c[from as int] != wanted {
        lemma_find_from_bounds(c, wanted, from + 1);
    }
}

/// The spans (start, end) of all link tags in `h` (`link_tags(h, 0)`).
pub fn link_tag_spans(h: &Vec<char>) -> (r: Vec<(usize, usize)>)
    ensures
        r@.len() == link_tags(h@, 0).len(),
        forall|k: int|
            0 <= k < r@.len() ==> (#[trigger] r@[k]).0 as nat == link_tags(h@, 0)[k].0 && r@[k].1 as nat
                == link_tags(h@, 0)[k].1 && r@[k].0 < r@[k].1 <= h.len(),
{
    let mut out: Vec<(usize, usize)> = Vec::new();
    let mut pos: usize = 0;
    let ghost done: Seq<(nat, nat)> = seq![];
    while pos < h.len()
        invariant
            pos <= h.len(),
            out@.len() == done.len(),
            forall|k: int|
                0 <= k < out@.len() ==> (#[trigger] out@[k]).0 as nat == done[k].0 && out@[k].1 as nat == done[k].1
                    && out@[k].0 < out@[k].1 <= h.len(),
            link_tags(h@, 0) == done + link_tags(h@, pos as nat),
        decreases h.len() - pos,
    {
        match find_link_tag(h, pos) {
            Some((s, e)) => {
                proof {
                    assert(link_tags(h@, pos as nat) == seq![(s as nat, e as nat)] + link_tags(h@, e as nat));
                    done = done.push((s as nat, e as nat));
                    assert(link_tags(h@, 0) == done + link_tags(h@, e as nat));
                }
                out.push((s, e));
                pos = e;
            },
            None => {
                proof {
                    assert(link_tags(h@, pos as nat) == Seq::<(nat, nat)>::empty());
                    assert(link_tags(h@, 0) == done);
                }
                return out;
            },
        }
    }
    proof {
        assert(link_tags(h@, pos as nat) == Seq::<(nat, nat)>::empty());
        assert(link_tags(h@, 0) == done);
    }
    out
}


/// A letter that may start an attribute name: `[a-z]` under case folding.
pub open spec fn name_start(c: char) -> bool {
    ||| 'a' <= c <= 'z'
    ||| 'A' <= c <= 'Z'
    ||| c == '\u{17F}'
    ||| c == '\u{212A}'
}

/// A character that may continue an attribute name: `[a-z0-9-]` under case folding.
pub open spec fn name_char(c: char) -> bool {
    name_start(c) || ('0' <= c <= '9') || c == '-'
}

/// A quote that opens or closes an attribute value.
pub open spec fn is_quote(c: char) -> bool {
    c == '"' || c == '\''
}

/// The end of the longest run of name characters starting at `from`.
pub open spec fn name_run_end(t: Seq<char>, from: nat) -> nat
    decreases t.len() - from,
{
    if from < t.len() && name_char(t[from as int]) {
        name_run_end(t, from + 1)
    } else {
        from
    }
}

/// The end of the longest run of whitespace starting at `from`.
pub open spec fn space_run_end(t: Seq<char>, from: nat) -> nat
    decreases t.len() - from,
{
    if from < t.len() && is_white_space(t[from as int]) {
        space_run_end(t, from + 1)
    } else {
        from
    }
}

/// The first quote at or after `from`.
pub open spec fn first_quote(t: Seq<char>, from: nat) -> Option<nat>
    decreases t.len() - from,
{
    if from >= t.len() {
        None
    } else if is_quote(t[from as int]) {
        Some(from)
    } else {
        first_quote(t, from + 1)
    }
}

/// Where one attribute sits in a tag: its name `t[start..name_end]` and its value
/// `t[value_start..value_end]`; the match ends one past `value_end`.
pub struct AttrSpan {
    pub start: nat,
    pub name_end: nat,
    pub value_start: nat,
    pub value_end: nat,
}

/// The attribute that matches at `p`, if one does: a name, optional whitespace,
/// `=`, optional whitespace, a quote, the value up to the next quote of either
/// kind, that quote.
pub open spec fn attribute_at(t: Seq<char>, p: nat) -> Option<AttrSpan> {
    if p < t.len() && name_start(t[p as int]) {
        let q = name_run_end(t, p + 1);
        let r = space_run_end(t, q);
        if r < t.len() && t[r as int] == '=' {
            let s = space_run_end(t, r + 1);
            if s < t.len() && is_quote(t[s as int]) {
                match first_quote(t, s + 1) {
                    Some(v) => Some(AttrSpan { start: p, name_end: q, value_start: s + 1, value_end: v }),
                    None => None,
                }
            } else {
                None
            }
        } else {
            None
        }
    } else {
        None
    }
}

/// The leftmost attribute match at or after `from`.
pub open spec fn next_attribute(t: Seq<char>, from: nat) -> Option<AttrSpan>
    decreases t.len() - from,
{
    if from >= t.len() {
        None
    } else {
        match attribute_at(t, from) {
            Some(a) => Some(a),
            None => next_attribute(t, from + 1),
        }
    }
}

/// All attribute matches of `t` from `from` on, each search resuming after the
/// previous match.
pub open spec fn attributes(t: Seq<char>, from: nat) -> Seq<AttrSpan>
    decreases t.len() - from,
{
    match next_attribute(t, from) {
        Some(a) => if from < a.value_end + 1 <= t.len() {
            seq![a] + attributes(t, a.value_end + 1)
        } else {
            seq![]
        },
        None => seq![],
    }
}

/// Spans found by the exec scanner, with `usize` positions.
pub struct FoundAttr {
    pub start: usize,
    pub name_end: usize,
    pub value_start: usize,
    pub value_end: usize,
}

/// The spec value of a found attribute.
pub open spec fn found_view(f: FoundAttr) -> AttrSpan {
    AttrSpan {
        start: f.start as nat,
        name_end: f.name_end as nat,
        value_start: f.value_start as nat,
        value_end: f.value_end as nat,
    }
}

/// Facts about the runs and quotes the attribute grammar uses.
pub proof fn lemma_runs(t: Seq<char>, from: nat)
    ensures
        from <= name_run_end(t, from),
        from <= t.len() ==> name_run_end(t, from) <= t.len(),
        from <= space_run_end(t, from),
        from <= t.len() ==> space_run_end(t, from) <= t.len(),
        first_quote(t, from) matches Some(v) ==> from <= v < t.len() && is_quote(t[v as int]),
    decreases t.len() - from,
{
    if from < t.len() {
        lemma_runs(t, from + 1);
    }
}

fn is_name_start(c: char) -> (r: bool)
    ensures
        r == name_start(c),
{
    ('a' <= c && c <= 'z') || ('A' <= c && c <= 'Z') || c == '\u{17F}' || c == '\u{212A}'
}

fn is_name_char(c: char) -> (r: bool)
    ensures
        r == name_char(c),
{
    is_name_start(c) || ('0' <= c && c <= '9') || c == '-'
}

fn name_run(t: &Vec<char>, from: usize) -> (r: usize)
    requires
        from <= t.len(),
    ensures
        r as nat == name_run_end(t@, from as nat),
{
    let mut i = from;
    while i < t.len() && is_name_char(t[i])
        invariant
            from <= i <= t.len(),
            name_run_end(t@, from as nat) == name_run_end(t@, i as nat),
        decreases t.len() - i,
    {
        i = i + 1;
    }
    i
}

fn space_run(t: &Vec<char>, from: usize) -> (r: usize)
    requires
        from <= t.len(),
    ensures
        r as nat == space_run_end(t@, from as nat),
{
    let mut i = from;
    while i < t.len() && white_space(t[i])
        invariant
            from <= i <= t.len(),
            space_run_end(t@, from as nat) == space_run_end(t@, i as nat),
        decreases t.len() - i,
    {
        i = i + 1;
    }
    i
}

fn quote_from(t: &Vec<char>, from: usize) -> (r: Option<usize>)
    ensures
        match r {
            Some(v) => first_quote(t@, from as nat) == Some(v as nat),
            None => first_quote(t@, from as nat) is None,
        },
{
    let mut i = from;
    while i < t.len()
        invariant
            from <= i,
            first_quote(t@, from as nat) == first_quote(t@, i as nat),
        decreases t.len() - i,
    {
        if t[i] == '"' || t[i] == '\'' {
            return Some(i);
        }
        i = i + 1;
    }
    None
}

/// The attribute matching at `p` (`attribute_at`).
fn attribute_here(t: &Vec<char>, p: usize) -> (r: Option<FoundAttr>)
    ensures
        match r {
            Some(f) => attribute_at(t@, p as nat) == Some(found_view(f)),
            None => attribute_at(t@, p as nat) is None,
        },
{
    if p >= t.len() || !is_name_start(t[p]) {
        return None;
    }
    let q = name_run(t, p + 1);
    proof {
        lemma_runs(t@, (p + 1) as nat);
    }
    let r = space_run(t, q);
    proof {
        lemma_runs(t@, q as nat);
    }
    if r >= t.len() || t[r] != '=' {
        return None;
    }
    let s = space_run(t, r + 1);
    proof {
        lemma_runs(t@, (r + 1) as nat);
    }
    if s >= t.len() || !(t[s] == '"' || t[s] == '\'') {
        return None;
    }
    match quote_from(t, s + 1) {
        Some(v) => Some(FoundAttr { start: p, name_end: q, value_start: s + 1, value_end: v }),
        None => None,
    }
}

/// The leftmost attribute at or after `from` (`next_attribute`).
fn find_attribute(t: &Vec<char>, from: usize) -> (r: Option<FoundAttr>)
    ensures
        match r {
            Some(f) => next_attribute(t@, from as nat) == Some(found_view(f)) && from <= f.start < f.name_end
                <= f.value_start - 1 && f.value_start <= f.value_end < t.len(),
            None => next_attribute(t@, from as nat) is None,
        },
{
    let mut i = from;
    while i < t.len()
        invariant
            from <= i,
            next_attribute(t@, from as nat) == next_attribute(t@, i as nat),
        decreases t.len() - i,
    {
        if let Some(f) = attribute_here(t, i) {
            proof {
                lemma_runs(t@, (i + 1) as nat);
                lemma_runs(t@, f.name_end as nat);
                let r = space_run_end(t@, f.name_end as nat);
                lemma_runs(t@, r + 1);
                lemma_runs(t@, f.value_start as nat);
            }
            return Some(f);
        }
        i = i + 1;
    }
    None
}

/// All attribute matches of a tag (`attributes(t, 0)`).
pub fn attribute_spans(t: &Vec<char>) -> (r: Vec<FoundAttr>)
    ensures
        r@.len() == attributes(t@, 0).len(),
        forall|k: int|
            0 <= k < r@.len() ==> found_view(#[trigger] r@[k]) == attributes(t@, 0)[k] && r@[k].start
                < r@[k].name_end <= r@[k].value_start <= r@[k].value_end < t.len(),
{
    let mut out: Vec<FoundAttr> = Vec::new();
    let mut pos: usize = 0;
    let ghost done: Seq<AttrSpan> = seq![];
    while pos < t.len()
        invariant
            pos <= t.len(),
            out@.len() == done.len(),
            forall|k: int|
                0 <= k < out@.len() ==> found_view(#[trigger] out@[k]) == done[k] && out@[k].start
                    < out@[k].name_end <= out@[k].value_start <= out@[k].value_end < t.len(),
            attributes(t@, 0) == done + attributes(t@, pos as nat),
        decreases t.len() - pos,
    {
        match find_attribute(t, pos) {
            Some(f) => {
                let end = f.value_end + 1;
                proof {
                    assert(attributes(t@, pos as nat) == seq![found_view(f)] + attributes(t@, end as nat));
                    done = done.push(found_view(f));
                    assert(attributes(t@, 0) == done + attributes(t@, end as nat));
                }
                out.push(f);
                pos = end;
            },
            None => {
                proof {
                    assert(attributes(t@, pos as nat) == Seq::<AttrSpan>::empty());
                    assert(attributes(t@, 0) == done);
                }
                return out;
            },
        }
    }
    proof {
        assert(attributes(t@, pos as nat) == Seq::<AttrSpan>::empty());
        assert(attributes(t@, 0) == done);
    }
    out
}


/// The attribute name that marks a link's relation.
pub open spec fn rel_key() -> Seq<char> {
    seq!['r', 'e', 'l']
}

/// The attribute name that holds a link's target.
pub open spec fn href_key() -> Seq<char> {
    seq!['h', 'r', 'e', 'f']
}

/// The value of the last attribute among `attrs` whose name, ASCII-lower-cased,
/// is `key`.
pub open spec fn last_value(t: Seq<char>, attrs: Seq<AttrSpan>, key: Seq<char>) -> Option<Seq<char>>
    decreases attrs.len(),
{
    if attrs.len() == 0 {
        None
    } else {
        let a = attrs.last();
        if ascii_lower_all(t.subrange(a.start as int, a.name_end as int)) == key {
            Some(t.subrange(a.value_start as int, a.value_end as int))
        } else {
            last_value(t, attrs.drop_last(), key)
        }
    }
}

/// ASCII whitespace as `str::split_ascii_whitespace` splits on it.
pub open spec fn ascii_space(c: char) -> bool {
    c == ' ' || c == '\t' || c == '\n' || c == '\u{C}' || c == '\r'
}

/// `tok` is one of the ASCII-whitespace-separated words of `s`.
pub open spec fn has_word(s: Seq<char>, tok: Seq<char>) -> bool {
    exists|i: int| #[trigger] word_at(s, tok, i)
}

/// `tok` occurs in `s` at `i`, with ASCII whitespace or an end of `s` on both sides.
pub open spec fn word_at(s: Seq<char>, tok: Seq<char>, i: int) -> bool {
    &&& 0 <= i
    &&& i + tok.len() <= s.len()
    &&& s.subrange(i, i + tok.len()) == tok
    &&& (i == 0 || ascii_space(s[i - 1]))
    &&& (i + tok.len() == s.len() || ascii_space(s[i + tok.len()]))
}

/// The word that makes a link a favicon link.
pub open spec fn icon_word() -> Seq<char> {
    seq!['i', 'c', 'o', 'n']
}

/// The word that makes a link a touch-icon link.
pub open spec fn touch_icon_word() -> Seq<char> {
    seq!['a', 'p', 'p', 'l', 'e', '-', 't', 'o', 'u', 'c', 'h', '-', 'i', 'c', 'o', 'n']
}

/// A (lower-cased) `rel` value that declares an icon.
pub open spec fn declares_icon(rel: Seq<char>) -> bool {
    has_word(rel, icon_word()) || has_word(rel, touch_icon_word())
}

/// The icon a link tag declares: its `rel` (the last one, ASCII-lower-cased)
/// holds the word `icon` or `apple-touch-icon`, its `href` (the last one)
/// resolves against `page`, and the result has the origin of `service`.
pub open spec fn tag_icon(t: Seq<char>, page: UrlView, service: UrlView) -> Option<UrlView> {
    let attrs = attributes(t, 0);
    match last_value(t, attrs, rel_key()) {
        None => None,
        Some(rel) => if !declares_icon(ascii_lower_all(rel)) {
            None
        } else {
            match last_value(t, attrs, href_key()) {
                None => None,
                Some(href) => match joined_url(page, href) {
                    None => None,
                    Some(u) => if same_origin_spec(u, service) {
                        Some(u)
                    } else {
                        None
                    },
                },
            }
        },
    }
}

fn is_ascii_space(c: char) -> (r: bool)
    ensures
        r == ascii_space(c),
{
    c == ' ' || c == '\t' || c == '\n' || c == '\u{C}' || c == '\r'
}

/// Whether `tok` is one of the ASCII-whitespace-separated words of `s` (`has_word`).
fn contains_word(s: &Vec<char>, tok: &Vec<char>) -> (r: bool)
    requires
        tok.len() > 0,
    ensures
        r == has_word(s@, tok@),
{
    if tok.len() > s.len() {
        assert forall|i: int| !#[trigger] word_at(s@, tok@, i) by {}
        return false;
    }
    let last = s.len() - tok.len();
    for i in 0..last + 1
        invariant
            last + tok.len() == s.len(),
            forall|j: int| 0 <= j < i ==> !#[trigger] word_at(s@, tok@, j),
    {
        let here = slice_chars(s, i, i + tok.len());
        if same_chars(&here, tok) && (i == 0 || is_ascii_space(s[i - 1])) && (i == last || is_ascii_space(
            s[i + tok.len()],
        )) {
            assert(word_at(s@, tok@, i as int));
            return true;
        }
    }
    assert forall|i: int| !#[trigger] word_at(s@, tok@, i) by {}
    false
}

/// The icon that a link tag's characters declare (`tag_icon`).
pub fn tag_icon_chars(t: &Vec<char>, page: &WebUrl, service: &WebUrl) -> (r: Option<WebUrl>)
    ensures
        url_view_opt(r) == tag_icon(t@, page@, service@),
{
    let attrs = attribute_spans(t);
    let ghost all = attributes(t@, 0);
    let rel_name = vec!['r', 'e', 'l'];
    let href_name = vec!['h', 'r', 'e', 'f'];
    let mut rel: Option<Vec<char>> = None;
    let mut href: Option<Vec<char>> = None;
    for k in 0..attrs.len()
        invariant
            attrs@.len() == all.len(),
            forall|u: int|
                0 <= u < attrs@.len() ==> found_view(#[trigger] attrs@[u]) == all[u] && attrs@[u].start
                    < attrs@[u].name_end <= attrs@[u].value_start <= attrs@[u].value_end < t.len(),
            rel_name@ == rel_key(),
            href_name@ == href_key(),
            match rel {
                Some(v) => last_value(t@, all.take(k as int), rel_key()) == Some(v@),
                None => last_value(t@, all.take(k as int), rel_key()) is None,
            },
            match href {
                Some(v) => last_value(t@, all.take(k as int), href_key()) == Some(v@),
                None => last_value(t@, all.take(k as int), href_key()) is None,
            },
    {
        let a = &attrs[k];
        let name = lower_ascii(&slice_chars(t, a.start, a.name_end));
        proof {
            assert(all.take(k + 1).drop_last() == all.take(k as int));
            assert(all.take(k + 1).last() == all[k as int]);
        }
        if same_chars(&name, &rel_name) {
            rel = Some(slice_chars(t, a.value_start, a.value_end));
        } else if same_chars(&name, &href_name) {
            href = Some(slice_chars(t, a.value_start, a.value_end));
        }
        proof {
            if name@ == rel_key() {
                assert(last_value(t@, all.take(k + 1), href_key()) == last_value(t@, all.take(k as int), href_key()));
            }
        }
    }
    proof {
        assert(all.take(attrs.len() as int) == all);
    }
    let rel = match rel {
        Some(v) => lower_ascii(&v),
        None => return None,
    };
    let icon = vec!['i', 'c', 'o', 'n'];
    let touch = vec!['a', 'p', 'p', 'l', 'e', '-', 't', 'o', 'u', 'c', 'h', '-', 'i', 'c', 'o', 'n'];
    if !contains_word(&rel, &icon) && !contains_word(&rel, &touch) {
        return None;
    }
    let href = match href {
        Some(v) => string_of(&v),
        None => return None,
    };
    let url = match page.join(href.as_str()) {
        Some(u) => u,
        None => return None,
    };
    if url.same_origin(service) {
        Some(url)
    } else {
        None
    }
}

/// The icon a link tag declares (`tag_icon`), resolved against `page` and kept
/// only when it has the origin of `service`.
pub fn icon_from_tag(tag: &str, page: &WebUrl, service: &WebUrl) -> (r: Option<WebUrl>)
    ensures
        url_view_opt(r) == tag_icon(tag@, page@, service@),
{
    tag_icon_chars(&chars_of(tag), page, service)
}

/// The views of a list of URLs.
pub open spec fn urls_view(v: Seq<WebUrl>) -> Seq<UrlView> {
    v.map_values(|u: WebUrl| u@)
}

/// The found URLs in order, each kept only the first time its text occurs.
pub open spec fn first_occurrences(items: Seq<Option<UrlView>>) -> Seq<UrlView>
    decreases items.len(),
{
    if items.len() == 0 {
        seq![]
    } else {
        let kept = first_occurrences(items.drop_last());
        match items.last() {
            Some(u) => if exists|k: int| 0 <= k < kept.len() && (#[trigger] kept[k]).href == u.href {
                kept
            } else {
                kept.push(u)
            },
            None => kept,
        }
    }
}

/// What each link tag of `h` declares (`tag_icon`), in document order.
pub open spec fn tag_icons(h: Seq<char>, page: UrlView, service: UrlView) -> Seq<Option<UrlView>> {
    link_tags(h, 0).map_values(|sp: (nat, nat)| tag_icon(h.subrange(sp.0 as int, sp.1 as int), page, service))
}

/// The icons a page declares: for each link tag in document order its icon
/// (`tag_icon`), without repeats.
pub open spec fn page_icons(h: Seq<char>, page: UrlView, service: UrlView) -> Seq<UrlView> {
    first_occurrences(tag_icons(h, page, service))
}

/// The kept URLs all differ, and all have the service's origin when every
/// found URL has it.
proof fn lemma_first_occurrences(items: Seq<Option<UrlView>>, service: UrlView)
    requires
        forall|i: int| 0 <= i < items.len() ==> (#[trigger] items[i] matches Some(u) ==> same_origin_spec(u, service)),
    ensures
        forall|a: int, b: int|
            0 <= a < b < first_occurrences(items).len() ==> (#[trigger] first_occurrences(items)[a]).href
                != (#[trigger] first_occurrences(items)[b]).href,
        forall|a: int| 0 <= a < first_occurrences(items).len() ==> same_origin_spec(#[trigger] first_occurrences(items)[a], service),
    decreases items.len(),
{
    if items.len() > 0 {
        let rest = items.drop_last();
        assert forall|i: int| 0 <= i < rest.len() implies (#[trigger] rest[i] matches Some(u) ==> same_origin_spec(u, service)) by {
            assert(rest[i] == items[i]);
        }
        lemma_first_occurrences(rest, service);
        assert(items[items.len() - 1] == items.last());
    }
}

/// A page's icons never repeat a URL, and all have the service's origin.
pub proof fn lemma_page_icons_unique_same_origin(h: Seq<char>, page: UrlView, service: UrlView)
    ensures
        forall|a: int, b: int|
            0 <= a < b < page_icons(h, page, service).len() ==> (#[trigger] page_icons(h, page, service)[a]).href
                != (#[trigger] page_icons(h, page, service)[b]).href,
        forall|a: int| 0 <= a < page_icons(h, page, service).len() ==> same_origin_spec(#[trigger] page_icons(h, page, service)[a], service),
{
    let items = tag_icons(h, page, service);
    assert forall|i: int| 0 <= i < items.len() implies (#[trigger] items[i] matches Some(u) ==> same_origin_spec(u, service)) by {
        let sp = link_tags(h, 0)[i];
        assert(items[i] == tag_icon(h.subrange(sp.0 as int, sp.1 as int), page, service));
    }
    lemma_first_occurrences(items, service);
}

/// The icons the HTML page `html`, fetched from `page`, declares for `service`:
/// in document order, without repeats, each resolved against `page` and of the
/// service's origin.
pub fn icon_links(html: &str, page: &WebUrl, service: &WebUrl) -> (r: Vec<WebUrl>)
    ensures
        urls_view(r@) == page_icons(html@, page@, service@),
{
    let h = chars_of(html);
    let spans = link_tag_spans(&h);
    let ghost items = tag_icons(h@, page@, service@);
    let mut icons: Vec<WebUrl> = Vec::new();
    for k in 0..spans.len()
        invariant
            h@ == html@,
            items == tag_icons(h@, page@, service@),
            spans@.len() == link_tags(h@, 0).len(),
            forall|u: int|
                0 <= u < spans@.len() ==> (#[trigger] spans@[u]).0 as nat == link_tags(h@, 0)[u].0
                    && spans@[u].1 as nat == link_tags(h@, 0)[u].1 && spans@[u].0 < spans@[u].1 <= h.len(),
            urls_view(icons@) == first_occurrences(items.take(k as int)),
    {
        let tag = slice_chars(&h, spans[k].0, spans[k].1);
        let found = tag_icon_chars(&tag, page, service);
        proof {
            assert(items.take(k + 1).drop_last() == items.take(k as int));
            assert(items[k as int] == url_view_opt(found));
        }
        if let Some(url) = found {
            let mut seen = false;
            let mut j: usize = 0;
            while j < icons.len()
                invariant
                    j <= icons.len(),
                    seen <==> exists|m: int| 0 <= m < j && (#[trigger] icons@[m])@.href == url@.href,
                decreases icons.len() - j,
            {
                if icons[j].same_url(&url) {
                    seen = true;
                }
                j = j + 1;
            }
            proof {
                let kept = first_occurrences(items.take(k as int));
                assert(kept == urls_view(icons@));
                if seen {
                    let m = choose|m: int| 0 <= m < j && (#[trigger] icons@[m])@.href == url@.href;
                    assert(kept[m].href == url@.href);
                } else {
                    assert forall|m: int| 0 <= m < kept.len() implies (#[trigger] kept[m]).href != url@.href by {
                        assert(kept[m] == icons@[m]@);
                    }
                }
            }
            if !seen {
                icons.push(url);
                proof {
                    assert(urls_view(icons@) == urls_view(icons@.drop_last()).push(icons@.last()@));
                }
            }
        }
    }
    proof {
        assert(items.take(spans.len() as int) == items);
    }
    icons
}


/// A link declares an icon only through a `rel` word that is exactly `icon` or
/// `apple-touch-icon`; and a `rel` made of one word declares an icon exactly
/// when that word is `icon` or `apple-touch-icon` (so `mask-icon` or
/// `shortcut-icon` do not).
pub proof fn lemma_icon_rel_words(rel: Seq<char>)
    ensures
        declares_icon(rel) ==> has_word(rel, seq!['i', 'c', 'o', 'n']) || has_word(
            rel,
            seq!['a', 'p', 'p', 'l', 'e', '-', 't', 'o', 'u', 'c', 'h', '-', 'i', 'c', 'o', 'n'],
        ),
        (forall|k: int| 0 <= k < rel.len() ==> !ascii_space(#[trigger] rel[k])) ==> (declares_icon(rel) <==> (rel
            == seq!['i', 'c', 'o', 'n'] || rel == seq![
            'a',
            'p',
            'p',
            'l',
            'e',
            '-',
            't',
            'o',
            'u',
            'c',
            'h',
            '-',
            'i',
            'c',
            'o',
            'n',
        ])),
{
    assert(icon_word() =~= seq!['i', 'c', 'o', 'n']);
    assert(touch_icon_word() =~= seq!['a', 'p', 'p', 'l', 'e', '-', 't', 'o', 'u', 'c', 'h', '-', 'i', 'c', 'o', 'n']);
    if forall|k: int| 0 <= k < rel.len() ==> !ascii_space(#[trigger] rel[k]) {
        if has_word(rel, icon_word()) {
            let i = choose|i: int| #[trigger] word_at(rel, icon_word(), i);
            if i > 0 {
                assert(!ascii_space(rel[i - 1]));
            }
            if i + 4 < rel.len() {
                assert(!ascii_space(rel[i + 4]));
            }
            assert(rel =~= rel.subrange(i, i + 4));
        }
        if has_word(rel, touch_icon_word()) {
            let i = choose|i: int| #[trigger] word_at(rel, touch_icon_word(), i);
            if i > 0 {
                assert(!ascii_space(rel[i - 1]));
            }
            if i + 16 < rel.len() {
                assert(!ascii_space(rel[i + 16]));
            }
            assert(rel =~= rel.subrange(i, i + 16));
        }
        if rel == icon_word() {
            assert(rel.subrange(0, 4) =~= rel);
            assert(word_at(rel, icon_word(), 0));
        }
        if rel == touch_icon_word() {
            assert(rel.subrange(0, 16) =~= rel);
            assert(word_at(rel, touch_icon_word(), 0));
        }
    }
}

} // verus!
