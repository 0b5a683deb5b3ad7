//! Domains, their dot counts, and the subdomain (ancestor-suffix) sequence.

use vstd::prelude::*;

verus! {

/// Number of occurrences of `c` in `s`.
pub open spec fn count_occ(s: Seq<char>, c: char) -> nat
    decreases s.len(),
{
    if s.len() == 0 {
        0
    } else {
        count_occ(s.drop_last(), c) + if s.last() == c {
            1nat
        } else {
            0nat
        }
    }
}

pub proof fn lemma_count_occ_concat(s: Seq<char>, t: Seq<char>, c: char)
    ensures
        count_occ(s + t, c) == count_occ(s, c) + count_occ(t, c),
    decreases t.len(),
{
    if t.len() == 0 {
        assert(s + t =~= s);
    } else {
        assert((s + t).drop_last() =~= s + t.drop_last());
        lemma_count_occ_concat(s, t.drop_last(), c);
    }
}

/// Counts how many times `chr` occurs in `line`.
pub fn count_char_occurences(line: &str, chr: char) -> (r: usize)
    ensures
        r == count_occ(line@, chr),
{
    let n = line.unicode_len();
    let mut i: usize = 0;
    let mut count: usize = 0;
    while i < n
        invariant
            i <= n,
            n == line@.len(),
            count == count_occ(line@.subrange(0, i as int), chr),
            count <= i,
        decreases n - i,
    {
        let c = line.get_char(i);
        proof {
            assert(line@.subrange(0, (i + 1) as int).drop_last() =~= line@.subrange(0, i as int));
        }
        if c == chr {
            count = count + 1;
        }
        i = i + 1;
    }
    proof {
        assert(line@.subrange(0, n as int) =~= line@);
    }
    count
}

/// The indices of the `'.'` characters of `s` that lie before `from`,
/// listed from the largest down to the smallest.
pub open spec fn dot_positions_desc(s: Seq<char>, from: int) -> Seq<int>
    decreases from,
{
    if from <= 0 {
        Seq::empty()
    } else if s[from - 1] == '.' {
        seq![from - 1] + dot_positions_desc(s, from - 1)
    } else {
        dot_positions_desc(s, from - 1)
    }
}

/// All dot indices of `s`, largest first.
pub open spec fn dot_positions(s: Seq<char>) -> Seq<int> {
    dot_positions_desc(s, s.len() as int)
}

pub proof fn lemma_dot_positions_desc_membership(s: Seq<char>, from: int, x: int)
    requires
        from <= s.len(),
    ensures
        dot_positions_desc(s, from).contains(x) <==> (0 <= x < from && s[x] == '.'),
    decreases from,
{
    if from <= 0 {
    } else {
        lemma_dot_positions_desc_membership(s, from - 1, x);
        let tail = dot_positions_desc(s, from - 1);
        if s[from - 1] == '.' {
            let whole = seq![from - 1] + tail;
            if x == from - 1 {
                assert(whole[0] == x);
            }
            if tail.contains(x) {
                let k = choose|k: int| 0 <= k < tail.len() && tail[k] == x;
                assert(whole[k + 1] == x);
            }
            if whole.contains(x) {
                let k = choose|k: int| 0 <= k < whole.len() && whole[k] == x;
                if k > 0 {
                    assert(tail[k - 1] == x);
                }
            }
        }
    }
}

pub proof fn lemma_dot_positions_desc_sorted(s: Seq<char>, from: int)
    requires
        from <= s.len(),
    ensures
        forall|j: int, k: int|
            0 <= j < k < dot_positions_desc(s, from).len() ==> dot_positions_desc(s, from)[j]
                > dot_positions_desc(s, from)[k],
        forall|k: int|
            0 <= k < dot_positions_desc(s, from).len() ==> 0 <= #[trigger] dot_positions_desc(
                s,
                from,
            )[k] < from,
    decreases from,
{
    if from <= 0 {
    } else {
        lemma_dot_positions_desc_sorted(s, from - 1);
        let tail = dot_positions_desc(s, from - 1);
        if s[from - 1] == '.' {
            let whole = seq![from - 1] + tail;
            assert forall|k: int| 0 <= k < whole.len() implies 0 <= #[trigger] whole[k]
                < from by {
                if k > 0 {
                    assert(whole[k] == tail[k - 1]);
                }
            }
            assert forall|j: int, k: int| 0 <= j < k < whole.len() implies whole[j]
                > whole[k] by {
                assert(whole[k] == tail[k - 1]);
                if j > 0 {
                    assert(whole[j] == tail[j - 1]);
                }
            }
        }
    }
}

/// `a` is a proper dot-delimited suffix of `d`: the part of `d` that follows
/// some `'.'`.
pub open spec fn is_ancestor(a: Seq<char>, d: Seq<char>) -> bool {
    exists|i: int| 0 <= i < d.len() && d[i] == '.' && a == d.subrange(i + 1, d.len() as int)
}

pub proof fn lemma_count_occ_pos(s: Seq<char>, c: char)
    ensures
        count_occ(s, c) > 0 <==> exists|j: int| 0 <= j < s.len() && s[j] == c,
    decreases s.len(),
{
    if s.len() == 0 {
    } else {
        lemma_count_occ_pos(s.drop_last(), c);
        if s.last() == c {
            assert(s[s.len() - 1] == c);
        }
        if count_occ(s, c) > 0 && s.last() != c {
            let j = choose|j: int| 0 <= j < s.drop_last().len() && s.drop_last()[j] == c;
            assert(s[j] == c);
        }
        if exists|j: int| 0 <= j < s.len() && s[j] == c {
            let j = choose|j: int| 0 <= j < s.len() && s[j] == c;
            if j < s.len() - 1 {
                assert(s.drop_last()[j] == c);
            }
        }
    }
}

/// A proper dot-delimited suffix has strictly fewer dots than the domain.
pub proof fn lemma_ancestor_fewer_dots(a: Seq<char>, d: Seq<char>)
    requires
        is_ancestor(a, d),
    ensures
        count_occ(a, '.') < count_occ(d, '.'),
        a.len() < d.len(),
{
    let i = choose|i: int|
        0 <= i < d.len() && d[i] == '.' && a == d.subrange(i + 1, d.len() as int);
    let head = d.subrange(0, i + 1);
    assert(d =~= head + a);
    lemma_count_occ_concat(head, a, '.');
    assert(head.last() == '.');
    assert(count_occ(head, '.') > 0);
}

/// Yields the dot-delimited suffixes of `domain`, shortest first, skipping the
/// `min` shortest ones; entry `k` is the text that follows the `(min+k+1)`-th
/// dot counted from the right.
pub fn sub_domain_iterator<'a>(domain: &'a str, min: usize) -> (r: Vec<&'a str>)
    ensures
        ({
            let ds = dot_positions(domain@);
            &&& r@.len() == if min <= ds.len() {
                ds.len() - min
            } else {
                0int
            }
            &&& forall|k: int|
                0 <= k < r@.len() ==> #[trigger] r@[k]@ == domain@.subrange(
                    ds[min + k] + 1,
                    domain@.len() as int,
                )
        }),
{
    let n = domain.unicode_len();
    let ghost ds = dot_positions(domain@);
    let mut r: Vec<&'a str> = Vec::new();
    let mut i: usize = n;
    let mut skipped: usize = 0;
    let ghost mut seen: Seq<int> = Seq::empty();
    while i > 0
        invariant
            i <= n,
            n == domain@.len(),
            ds == dot_positions(domain@),
            seen + dot_positions_desc(domain@, i as int) =~= ds,
            skipped == if seen.len() < min {
                seen.len()
            } else {
                min as nat
            },
            r@.len() == if min <= seen.len() {
                seen.len() - min
            } else {
                0int
            },
            forall|k: int|
                0 <= k < r@.len() ==> #[trigger] r@[k]@ == domain@.subrange(
                    ds[min + k] + 1,
                    n as int,
                ),
        decreases i,
    {
        let c = domain.get_char(i - 1);
        if c == '.' {
            proof {
                assert(dot_positions_desc(domain@, i as int) =~= seq![i - 1 as int]
                    + dot_positions_desc(domain@, i - 1 as int));
                assert(ds[seen.len() as int] == i - 1);
            }
            if skipped < min {
                skipped = skipped + 1;
            } else {
                let sub = domain.substring_char(i, n);
                proof {
                    assert(min + r@.len() == seen.len());
                }
                r.push(sub);
            }
            proof {
                let ghost tail = dot_positions_desc(domain@, i - 1 as int);
                assert(seen.push(i - 1 as int) + tail =~= seen + (seq![i - 1 as int] + tail));
                seen = seen.push(i - 1 as int);
            }
        } else {
            proof {
                assert(dot_positions_desc(domain@, i as int) =~= dot_positions_desc(
                    domain@,
                    i - 1 as int,
                ));
            }
        }
        i = i - 1;
    }
    proof {
        assert(dot_positions_desc(domain@, 0int) =~= Seq::<int>::empty());
        assert(seen =~= ds);
    }
    r
}

/// Character-for-character string equality.
pub fn str_eq(a: &str, b: &str) -> (r: bool)
    ensures
        r == (a@ == b@),
{
    let n = a.unicode_len();
    let m = b.unicode_len();
    if n != m {
        return false;
    }
    let mut i: usize = 0;
    while i < n
        invariant
            i <= n,
            n == a@.len(),
            n == b@.len(),
            forall|j: int| 0 <= j < i ==> a@[j] == b@[j],
        decreases n - i,
    {
        if a.get_char(i) != b.get_char(i) {
            return false;
        }
        i = i + 1;
    }
    proof {
        assert(a@ =~= b@);
    }
    true
}

/// ASCII whitespace, as the line parser understands it.
pub open spec fn is_space_char(c: char) -> bool {
    c == ' ' || c == '\t' || c == '\n' || c == '\r' || c == '\u{b}' || c == '\u{c}'
}

fn is_space(c: char) -> (r: bool)
    ensures
        r == is_space_char(c),
{
    c == ' ' || c == '\t' || c == '\n' || c == '\r' || c == '\u{b}' || c == '\u{c}'
}

/// The part of `s` that precedes its first `'#'` (all of `s` if there is none).
pub open spec fn strip_comment(s: Seq<char>) -> Seq<char>
    decreases s.len(),
{
    if s.len() == 0 {
        Seq::empty()
    } else if s[0] == '#' {
        Seq::empty()
    } else {
        seq![s[0]] + strip_comment(s.subrange(1, s.len() as int))
    }
}

pub proof fn lemma_strip_comment_prefix(s: Seq<char>, k: int)
    requires
        0 <= k <= s.len(),
        forall|j: int| 0 <= j < k ==> s[j] != '#',
        k == s.len() || s[k] == '#',
    ensures
        strip_comment(s) == s.subrange(0, k),
    decreases s.len(),
{
    if s.len() == 0 {
        assert(strip_comment(s) =~= s.subrange(0, 0));
    } else if s[0] == '#' {
        assert(strip_comment(s) =~= s.subrange(0, 0));
    } else {
        let t = s.subrange(1, s.len() as int);
        lemma_strip_comment_prefix(t, k - 1);
        assert(seq![s[0]] + t.subrange(0, k - 1) =~= s.subrange(0, k));
    }
}

/// The maximal run of non-whitespace characters at the end of `s`.
pub open spec fn trailing_run(s: Seq<char>) -> Seq<char>
    decreases s.len(),
{
    if s.len() == 0 {
        Seq::empty()
    } else if is_space_char(s.last()) {
        Seq::empty()
    } else {
        trailing_run(s.drop_last()).push(s.last())
    }
}

/// The last whitespace-separated token of `s` (empty if `s` is all whitespace).
pub open spec fn last_token(s: Seq<char>) -> Seq<char>
    decreases s.len(),
{
    if s.len() == 0 {
        Seq::empty()
    } else if is_space_char(s.last()) {
        last_token(s.drop_last())
    } else {
        trailing_run(s)
    }
}

/// What a blocklist or whitelist line yields: the last token before any
/// comment, provided it contains at least one dot.
pub open spec fn parse_domain(line: Seq<char>) -> Option<Seq<char>> {
    let name = last_token(strip_comment(line));
    if count_occ(name, '.') >= 1 {
        Some(name)
    } else {
        None
    }
}

/// A domain candidate: a borrowed view into a text line, together with its
/// number of `'.'` separators.
pub struct Domain<'a> {
    pub name: &'a str,
    pub dots: usize,
}

impl<'a> Domain<'a> {
    /// The dot count is accurate and positive: single-label names are never
    /// candidates.
    pub open spec fn wf(self) -> bool {
        self.dots == count_occ(self.name@, '.') && 1 <= self.dots
    }

    /// Parses one input line: strips a `# ...` comment, takes the last
    /// whitespace-separated token (so a leading hosts-file IP column is
    /// ignored), and accepts it only if it contains a dot.
    pub fn new(line: &'a str) -> (r: Option<Domain<'a>>)
        ensures
            match r {
                Some(d) => parse_domain(line@) == Some(d.name@) && d.wf(),
                None => parse_domain(line@) is None,
            },
    {
        let n = line.unicode_len();
        let mut k: usize = 0;
        while k < n && line.get_char(k) != '#'
            invariant
                k <= n,
                n == line@.len(),
                forall|j: int| 0 <= j < k ==> line@[j] != '#',
            decreases n - k,
        {
            k = k + 1;
        }
        proof {
            lemma_strip_comment_prefix(line@, k as int);
        }
        let ghost stripped = strip_comment(line@);
        let mut e: usize = k;
        while e > 0 && is_space(line.get_char(e - 1))
            invariant
                e <= k <= n,
                n == line@.len(),
                stripped == line@.subrange(0, k as int),
                last_token(line@.subrange(0, e as int)) == last_token(stripped),
            decreases e,
        {
            proof {
                assert(line@.subrange(0, e as int).drop_last() =~= line@.subrange(0, e - 1));
            }
            e = e - 1;
        }
        if e == 0 {
            proof {
                assert(line@.subrange(0, 0) =~= Seq::<char>::empty());
            }
            return None;
        }
        proof {
            assert(last_token(line@.subrange(0, e as int)) == trailing_run(
                line@.subrange(0, e as int),
            ));
        }
        let mut b: usize = e;
        proof {
            assert(trailing_run(line@.subrange(0, e as int)) + line@.subrange(
                e as int,
                e as int,
            ) =~= trailing_run(line@.subrange(0, e as int)));
        }
        while b > 0 && !is_space(line.get_char(b - 1))
            invariant
                b <= e <= n,
                1 <= e,
                n == line@.len(),
                trailing_run(line@.subrange(0, e as int)) == trailing_run(
                    line@.subrange(0, b as int),
                ) + line@.subrange(b as int, e as int),
            decreases b,
        {
            proof {
                let pre = line@.subrange(0, b as int);
                assert(pre.drop_last() =~= line@.subrange(0, b - 1));
                assert(trailing_run(pre) == trailing_run(line@.subrange(0, b - 1)).push(
                    line@[b - 1],
                ));
                assert(trailing_run(line@.subrange(0, b - 1)).push(line@[b - 1]) + line@.subrange(
                    b as int,
                    e as int,
                ) =~= trailing_run(line@.subrange(0, b - 1)) + line@.subrange(b - 1, e as int));
            }
            b = b - 1;
        }
        proof {
            assert(trailing_run(line@.subrange(0, b as int)) =~= Seq::<char>::empty());
            assert(trailing_run(line@.subrange(0, e as int)) =~= line@.subrange(b as int, e as int));
        }
        let name = line.substring_char(b, e);
        let dots = count_char_occurences(name, '.');
        if dots > 0 {
            Some(Domain { name, dots })
        } else {
            None
        }
    }
}

pub proof fn lemma_strip_comment_chars(s: Seq<char>)
    ensures
        forall|j: int| 0 <= j < strip_comment(s).len() ==> #[trigger] strip_comment(s)[j] != '#',
    decreases s.len(),
{
    if s.len() == 0 || s[0] == '#' {
    } else {
        let t = s.subrange(1, s.len() as int);
        lemma_strip_comment_chars(t);
        let w = strip_comment(s);
        assert forall|j: int| 0 <= j < w.len() implies #[trigger] w[j] != '#' by {
            if j > 0 {
                assert(w[j] == strip_comment(t)[j - 1]);
            }
        }
    }
}

pub proof fn lemma_trailing_run_chars(s: Seq<char>)
    ensures
        forall|j: int|
            0 <= j < trailing_run(s).len() ==> !is_space_char(#[trigger] trailing_run(s)[j])
                && s.contains(trailing_run(s)[j]),
    decreases s.len(),
{
    if s.len() == 0 || is_space_char(s.last()) {
    } else {
        lemma_trailing_run_chars(s.drop_last());
        let w = trailing_run(s);
        assert forall|j: int|
            0 <= j < w.len() implies !is_space_char(#[trigger] w[j]) && s.contains(w[j]) by {
            if j < w.len() - 1 {
                assert(w[j] == trailing_run(s.drop_last())[j]);
                assert(s.drop_last().contains(w[j]));
                let i = choose|i: int|
                    0 <= i < s.drop_last().len() && s.drop_last()[i] == w[j];
                assert(s[i] == w[j]);
            } else {
                assert(w[j] == s.last());
                assert(s[s.len() - 1] == w[j]);
            }
        }
    }
}

pub proof fn lemma_last_token_chars(s: Seq<char>)
    ensures
        forall|j: int|
            0 <= j < last_token(s).len() ==> !is_space_char(#[trigger] last_token(s)[j])
                && s.contains(last_token(s)[j]),
    decreases s.len(),
{
    if s.len() == 0 {
    } else if is_space_char(s.last()) {
        lemma_last_token_chars(s.drop_last());
        let w = last_token(s);
        assert forall|j: int|
            0 <= j < w.len() implies !is_space_char(#[trigger] w[j]) && s.contains(w[j]) by {
            assert(w[j] == last_token(s.drop_last())[j]);
            assert(!is_space_char(last_token(s.drop_last())[j]));
            assert(s.drop_last().contains(last_token(s.drop_last())[j]));
            let i = choose|i: int| 0 <= i < s.drop_last().len() && s.drop_last()[i] == w[j];
            assert(s[i] == w[j]);
        }
    } else {
        lemma_trailing_run_chars(s);
    }
}

pub proof fn lemma_trailing_run_full(s: Seq<char>)
    requires
        forall|j: int| 0 <= j < s.len() ==> !is_space_char(#[trigger] s[j]),
    ensures
        trailing_run(s) == s,
    decreases s.len(),
{
    if s.len() == 0 {
        assert(trailing_run(s) =~= s);
    } else {
        assert forall|j: int|
            0 <= j < s.drop_last().len() implies !is_space_char(#[trigger] s.drop_last()[j]) by {
            assert(s.drop_last()[j] == s[j]);
        }
        lemma_trailing_run_full(s.drop_last());
        assert(trailing_run(s) =~= s);
    }
}

/// The name parsed out of a line parses to itself: a domain that compaction
/// writes out is read back unchanged when its own output is fed in as a
/// blocklist.
pub proof fn lemma_parse_roundtrip(line: Seq<char>, name: Seq<char>)
    requires
        parse_domain(line) == Some(name),
    ensures
        parse_domain(name) == Some(name),
{
    let stripped = strip_comment(line);
    lemma_strip_comment_chars(line);
    lemma_last_token_chars(stripped);
    assert(name == last_token(stripped));
    assert forall|j: int| 0 <= j < name.len() implies name[j] != '#' by {
        assert(!is_space_char(name[j]) && stripped.contains(name[j]));
        let i = choose|i: int| 0 <= i < stripped.len() && stripped[i] == name[j];
    }
    lemma_strip_comment_prefix(name, name.len() as int);
    assert(strip_comment(name) =~= name);
    if name.len() == 0 {
        assert(count_occ(name, '.') == 0);
        assert(false);
    }
    assert(!is_space_char(name[name.len() - 1]));
    lemma_trailing_run_full(name);
    assert(last_token(name) == name);
}

} // verus!
