//! The streaming filter: extracts the client and the queried domain from one
//! BIND query-log line and annotates the line when the domain is blocked.

use vstd::prelude::*;

use crate::index::{ends_com, ends_with_com, lemma_dot_suffix_is_ancestor, subsumed, DomainIndex};
use crate::sub_domains::{
    dot_positions, is_ancestor, lemma_dot_positions_desc_membership, str_eq, sub_domain_iterator,
};

verus! {

/// `pat` occurs in `s` at position `i`.
pub open spec fn contains_at(s: Seq<char>, pat: Seq<char>, i: int) -> bool {
    0 <= i && i + pat.len() <= s.len() && s.subrange(i, i + pat.len()) == pat
}

/// The first position at or after `from` where `pat` occurs in `s`.
pub open spec fn find_idx(s: Seq<char>, pat: Seq<char>, from: int) -> Option<int>
    decreases s.len() - from,
{
    if from < 0 || from + pat.len() > s.len() {
        None
    } else if s.subrange(from, from + pat.len()) == pat {
        Some(from)
    } else if from >= s.len() {
        // cannot arise: an empty pattern matches at `s.len()`
        None
    } else {
        find_idx(s, pat, from + 1)
    }
}

pub proof fn lemma_find_idx_props(s: Seq<char>, pat: Seq<char>, from: int)
    ensures
        match find_idx(s, pat, from) {
            Some(i) => from <= i && contains_at(s, pat, i),
            None => true,
        },
    decreases s.len() - from,
{
    if from < 0 || from + pat.len() > s.len() {
    } else if s.subrange(from, from + pat.len()) == pat {
    } else if from >= s.len() {
    } else {
        lemma_find_idx_props(s, pat, from + 1);
    }
}

#[verifier::loop_isolation(false)]
fn matches_at(s: &str, pat: &str, i: usize) -> (r: bool)
    requires
        i + pat@.len() <= s@.len(),
        s@.len() <= usize::MAX,
    ensures
        r == contains_at(s@, pat@, i as int),
{
    let m = pat.unicode_len();
    let mut k: usize = 0;
    while k < m
        invariant
            k <= m,
            m == pat@.len(),
            i + m <= s@.len(),
            forall|t: int| 0 <= t < k ==> s@[i + t] == pat@[t],
        decreases m - k,
    {
        if s.get_char(i + k) != pat.get_char(k) {
            proof {
                assert(s@.subrange(i as int, i + m) != pat@) by {
                    assert(s@.subrange(i as int, i + m)[k as int] == s@[i + k]);
                }
            }
            return false;
        }
        k = k + 1;
    }
    proof {
        assert(s@.subrange(i as int, i + m) =~= pat@);
    }
    true
}

/// Finds the first occurrence of `pat` in `s` at or after `from`.
#[verifier::loop_isolation(false)]
pub fn find(s: &str, pat: &str, from: usize) -> (r: Option<usize>)
    ensures
        match r {
            Some(i) => find_idx(s@, pat@, from as int) == Some(i as int),
            None => find_idx(s@, pat@, from as int) is None,
        },
        s@.len() <= usize::MAX,
{
    let n = s.unicode_len();
    let m = pat.unicode_len();
    if m > n {
        return None;
    }
    if from > n - m {
        return None;
    }
    let mut i: usize = from;
    while i <= n - m
        invariant
            from <= i,
            i <= n - m + 1,
            find_idx(s@, pat@, from as int) == find_idx(s@, pat@, i as int),
        decreases n - i,
    {
        if matches_at(s, pat, i) {
            return Some(i);
        }
        proof {
            if m == 0 {
                assert(s@.subrange(i as int, i as int) =~= pat@);
                assert(false);
            }
        }
        i = i + 1;
    }
    None
}

/// The text between the first occurrence of `pref` and the next occurrence of
/// `suf` after it.
pub open spec fn spec_extract(line: Seq<char>, pref: Seq<char>, suf: Seq<char>) -> Option<
    Seq<char>,
> {
    match find_idx(line, pref, 0) {
        None => None,
        Some(i) => {
            let start = i + pref.len();
            match find_idx(line, suf, start) {
                None => None,
                Some(j) => Some(line.subrange(start, j)),
            }
        },
    }
}

/// Extracts the text that follows the first occurrence of `pref` and precedes
/// the next occurrence of `suf`.
pub fn extract<'a>(line: &'a str, pref: &str, suf: &str) -> (r: Option<&'a str>)
    ensures
        match r {
            Some(sub) => spec_extract(line@, pref@, suf@) == Some(sub@),
            None => spec_extract(line@, pref@, suf@) is None,
        },
{
    match find(line, pref, 0) {
        None => None,
        Some(index_pref) => {
            proof {
                lemma_find_idx_props(line@, pref@, 0);
            }
            let start = index_pref + pref.unicode_len();
            match find(line, suf, start) {
                None => None,
                Some(end) => {
                    proof {
                        lemma_find_idx_props(line@, suf@, start as int);
                    }
                    Some(line.substring_char(start, end))
                },
            }
        },
    }
}

/// `d` itself, or any ancestor of it, is in the index.
pub open spec fn domain_blocked(d: Seq<char>, index: Seq<Seq<char>>) -> bool {
    index.contains(d) || subsumed(d, index)
}

/// Tests the domain and every ancestor suffix of it against the index.
#[verifier::loop_isolation(false)]
pub fn is_domain_blocked_by_index(domain: &str, index: &DomainIndex) -> (r: bool)
    ensures
        r == domain_blocked(domain@, index@),
{
    if index.contains(domain) {
        return true;
    }
    let ghost ds = dot_positions(domain@);
    let ancestors = sub_domain_iterator(domain, 0);
    let n = ancestors.len();
    let mut k: usize = 0;
    while k < n
        invariant
            k <= n,
            forall|j: int| 0 <= j < k ==> !index@.contains(#[trigger] ancestors@[j]@),
        decreases n - k,
    {
        if index.contains(ancestors[k]) {
            proof {
                lemma_dot_suffix_is_ancestor(domain@, k as int);
            }
            return true;
        }
        k = k + 1;
    }
    proof {
        if subsumed(domain@, index@) {
            let a = choose|a: Seq<char>| index@.contains(a) && is_ancestor(a, domain@);
            let i = choose|i: int|
                0 <= i < domain@.len() && domain@[i] == '.' && a == domain@.subrange(
                    i + 1,
                    domain@.len() as int,
                );
            lemma_dot_positions_desc_membership(domain@, domain@.len() as int, i);
            assert(ds.contains(i));
            let kk = choose|kk: int| 0 <= kk < ds.len() && ds[kk] == i;
            assert(ancestors@[kk]@ == a);
            assert(false);
        }
    }
    false
}

/// Which partition a queried domain is tested against, and whether it is
/// blocked there.
pub open spec fn spec_domain_blocked(d: Seq<char>, com: Seq<Seq<char>>, net: Seq<Seq<char>>) -> bool {
    if ends_com(d) {
        domain_blocked(d, com)
    } else {
        domain_blocked(d, net)
    }
}

pub fn is_domain_blocked(
    domain: &str,
    blacklist_com: &DomainIndex,
    blacklist_net: &DomainIndex,
) -> (r: bool)
    ensures
        r == spec_domain_blocked(domain@, blacklist_com@, blacklist_net@),
{
    if ends_with_com(domain) {
        is_domain_blocked_by_index(domain, blacklist_com)
    } else {
        is_domain_blocked_by_index(domain, blacklist_net)
    }
}

fn contains_str(v: &Vec<String>, s: &str) -> (r: bool)
    ensures
        r == v.deep_view().contains(s@),
{
    let n = v.len();
    let mut i: usize = 0;
    while i < n
        invariant
            i <= n,
            n == v@.len(),
            forall|j: int| 0 <= j < i ==> v.deep_view()[j] != s@,
        decreases n - i,
    {
        if str_eq(v[i].as_str(), s) {
            proof {
                assert(v.deep_view()[i as int] == s@);
            }
            return true;
        }
        i = i + 1;
    }
    false
}

/// What the filter writes for one log line: the line itself when it passes
/// through, a short annotation when the queried domain is blocked, nothing
/// when a client filter is configured and the line's client is not in it.
pub open spec fn spec_filter_line(
    line: Seq<char>,
    com: Seq<Seq<char>>,
    net: Seq<Seq<char>>,
    ip_filter: Seq<Seq<char>>,
) -> Option<Seq<char>> {
    let dom = spec_extract(line, "query: "@, " "@);
    let cli = spec_extract(line, "client "@, "#"@);
    if dom is Some && cli is Some {
        if ip_filter.len() == 0 || ip_filter.contains(cli->Some_0) {
            if spec_domain_blocked(dom->Some_0, com, net) {
                Some(cli->Some_0 + " "@ + dom->Some_0 + " blocked\n"@)
            } else {
                Some(line)
            }
        } else {
            None
        }
    } else {
        Some(line)
    }
}

/// Transforms one log line.  A line with both markers whose domain is blocked
/// is replaced by a `<client> <domain> blocked` annotation; one whose client
/// is excluded by a non-empty `ip_filter` is dropped; every other line passes
/// through unchanged.
pub fn filter_line(
    line: &str,
    blacklist_com: &DomainIndex,
    blacklist_net: &DomainIndex,
    ip_filter: &Vec<String>,
) -> (r: Option<String>)
    ensures
        match r {
            Some(out) => spec_filter_line(
                line@,
                blacklist_com@,
                blacklist_net@,
                ip_filter.deep_view(),
            ) == Some(out@),
            None => spec_filter_line(
                line@,
                blacklist_com@,
                blacklist_net@,
                ip_filter.deep_view(),
            ) is None,
        },
{
    let domain_opt = extract(line, "query: ", " ");
    let client_opt = extract(line, "client ", "#");
    match (domain_opt, client_opt) {
        (Some(domain), Some(client)) => {
            if ip_filter.len() == 0 || contains_str(ip_filter, client) {
                if is_domain_blocked(domain, blacklist_com, blacklist_net) {
                    let mut out = String::new();
                    out.append(client);
                    out.append(" ");
                    out.append(domain);
                    out.append(" blocked\n");
                    Some(out)
                } else {
                    Some(line.to_owned())
                }
            } else {
                None
            }
        },
        _ => Some(line.to_owned()),
    }
}

/// The pieces of `s` between its commas, in order; an input without a comma
/// is a single piece, so an empty input is one empty piece.
pub open spec fn spec_split_commas(s: Seq<char>) -> Seq<Seq<char>>
    decreases s.len(),
    via spec_split_commas_decreases
{
    match find_idx(s, ","@, 0) {
        None => seq![s],
        Some(i) => seq![s.subrange(0, i)] + spec_split_commas(s.subrange(i + 1, s.len() as int)),
    }
}

#[via_fn]
proof fn spec_split_commas_decreases(s: Seq<char>) {
    reveal_strlit(",");
    lemma_find_idx_props(s, ","@, 0);
}

/// Splits a comma-separated list, as the client filter parameter is written.
pub fn split_commas(s: &str) -> (r: Vec<String>)
    ensures
        r.deep_view() == spec_split_commas(s@),
    decreases s@.len(),
{
    proof {
        reveal_strlit(",");
        lemma_find_idx_props(s@, ","@, 0);
    }
    match find(s, ",", 0) {
        None => {
            let mut r: Vec<String> = Vec::new();
            r.push(s.to_owned());
            proof {
                assert(r.deep_view() =~~= seq![s@]);
            }
            r
        },
        Some(i) => {
            let n = s.unicode_len();
            let piece = s.substring_char(0, i);
            let rest = s.substring_char(i + 1, n);
            let mut r: Vec<String> = Vec::new();
            r.push(piece.to_owned());
            let mut tail = split_commas(rest);
            r.append(&mut tail);
            proof {
                assert(r.deep_view() =~~= seq![s@.subrange(0, i as int)] + spec_split_commas(
                    s@.subrange(i + 1, s@.len() as int),
                ));
            }
            r
        },
    }
}

} // verus!
