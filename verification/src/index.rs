//! The subdomain hierarchy index: the dedup/covering-set algorithm over
//! sorted domain candidates, the whitelist index, and their statistics.

use vstd::multiset::Multiset;
use vstd::prelude::*;

use crate::statistics::Statistics;
use crate::sub_domains::{
    count_occ, is_ancestor, str_eq, sub_domain_iterator, dot_positions,
    lemma_dot_positions_desc_membership, lemma_dot_positions_desc_sorted, lemma_count_occ_pos,
    lemma_ancestor_fewer_dots, Domain, parse_domain,
};

verus! {

/// An index of domain names: a set of unique strings that remembers insertion
/// order.
pub struct DomainIndex {
    items: Vec<String>,
}

impl View for DomainIndex {
    type V = Seq<Seq<char>>;

    closed spec fn view(&self) -> Seq<Seq<char>> {
        self.items.deep_view()
    }
}

impl DomainIndex {
    /// The entries are pairwise distinct.
    pub open spec fn wf(&self) -> bool {
        self@.no_duplicates()
    }

    pub fn new() -> (r: DomainIndex)
        ensures
            r@ == Seq::<Seq<char>>::empty(),
            r.wf(),
    {
        let r = DomainIndex { items: Vec::new() };
        proof {
            assert(r@ =~= Seq::<Seq<char>>::empty());
        }
        r
    }

    pub fn len(&self) -> (r: usize)
        ensures
            r == self@.len(),
    {
        self.items.len()
    }

    pub fn get(&self, i: usize) -> (r: &String)
        requires
            i < self@.len(),
        ensures
            r@ == self@[i as int],
    {
        &self.items[i]
    }

    /// Whether `d` is one of the entries.
    pub fn contains(&self, d: &str) -> (r: bool)
        ensures
            r == self@.contains(d@),
    {
        let n = self.items.len();
        let mut i: usize = 0;
        while i < n
            invariant
                i <= n,
                n == self@.len(),
                self@ == self.items.deep_view(),
                forall|j: int| 0 <= j < i ==> self@[j] != d@,
            decreases n - i,
        {
            if str_eq(self.items[i].as_str(), d) {
                proof {
                    assert(self@[i as int] == d@);
                }
                return true;
            }
            i = i + 1;
        }
        false
    }

    /// Inserts `d` unless it is already present; reports whether it was new.
    pub fn insert(&mut self, d: String) -> (newly: bool)
        requires
            old(self).wf(),
        ensures
            final(self).wf(),
            newly == !old(self)@.contains(d@),
            final(self)@ == if newly {
                old(self)@.push(d@)
            } else {
                old(self)@
            },
    {
        if self.contains(d.as_str()) {
            return false;
        }
        let ghost old_view = self@;
        self.items.push(d);
        proof {
            assert(self@ =~= old_view.push(d@));
            assert forall|i: int, j: int|
                0 <= i < self@.len() && 0 <= j < self@.len() && i != j implies self@[i]
                != self@[j] by {
                let last = self@.len() - 1;
                if i == last && self@[i] == self@[j] {
                    assert(old_view[j] == d@);
                    assert(old_view.contains(d@));
                } else if j == last && self@[i] == self@[j] {
                    assert(old_view[i] == d@);
                    assert(old_view.contains(d@));
                } else if i != last && j != last {
                    assert(old_view[i] == self@[i]);
                    assert(old_view[j] == self@[j]);
                }
            }
        }
        true
    }
}

/// Some entry of `index` is a proper dot-delimited suffix of `d`.
pub open spec fn subsumed(d: Seq<char>, index: Seq<Seq<char>>) -> bool {
    exists|a: Seq<char>| index.contains(a) && is_ancestor(a, d)
}

/// Every entry contains at least one dot.
pub open spec fn all_have_dot(s: Seq<Seq<char>>) -> bool {
    forall|i: int| 0 <= i < s.len() ==> count_occ(#[trigger] s[i], '.') >= 1
}

/// The suffix of `d` that follows any of its dots is one of `d`'s ancestors.
pub proof fn lemma_dot_suffix_is_ancestor(d: Seq<char>, k: int)
    requires
        0 <= k < dot_positions(d).len(),
    ensures
        is_ancestor(d.subrange(dot_positions(d)[k] + 1, d.len() as int), d),
{
    lemma_dot_positions_desc_sorted(d, d.len() as int);
    let i = dot_positions(d)[k];
    lemma_dot_positions_desc_membership(d, d.len() as int, i);
    assert(dot_positions(d).contains(i));
}

/// An ancestor that itself contains a dot follows some dot of `d` other than
/// the rightmost one, so the subdomain walk that skips only the shortest
/// suffix still reaches it.
pub proof fn lemma_dotted_ancestor_in_walk(d: Seq<char>, a: Seq<char>)
    requires
        is_ancestor(a, d),
        count_occ(a, '.') >= 1,
    ensures
        exists|k: int|
            1 <= k < dot_positions(d).len() && a == d.subrange(
                #[trigger] dot_positions(d)[k] + 1,
                d.len() as int,
            ),
{
    let ds = dot_positions(d);
    lemma_dot_positions_desc_sorted(d, d.len() as int);
    let i = choose|i: int|
        0 <= i < d.len() && d[i] == '.' && a == d.subrange(i + 1, d.len() as int);
    lemma_dot_positions_desc_membership(d, d.len() as int, i);
    assert(ds.contains(i));
    let k = choose|k: int| 0 <= k < ds.len() && ds[k] == i;
    if k == 0 {
        lemma_count_occ_pos(a, '.');
        let m = choose|m: int| 0 <= m < a.len() && a[m] == '.';
        assert(d[i + 1 + m] == '.');
        lemma_dot_positions_desc_membership(d, d.len() as int, i + 1 + m);
        assert(ds.contains(i + 1 + m));
        let k2 = choose|k2: int| 0 <= k2 < ds.len() && ds[k2] == i + 1 + m;
        assert(false);
    }
    assert(ds[k] == i && a == d.subrange(ds[k] + 1, d.len() as int));
}

/// The whole processing state of one partition: the block index, the domains
/// already seen as whitelisted, and the counters.
pub struct IndexState {
    pub index: Seq<Seq<char>>,
    pub seen_whitelisted: Seq<Seq<char>>,
    pub parent: nat,
    pub duplicate: nat,
    pub whitelisted: nat,
    pub distinct_whitelisted: nat,
    pub blocked: nat,
}

/// Packages the executable values into one processing state.
pub open spec fn state_of(index: Seq<Seq<char>>, seen: Seq<Seq<char>>, st: Statistics) -> IndexState {
    IndexState {
        index: index,
        seen_whitelisted: seen,
        parent: st.parent as nat,
        duplicate: st.duplicate as nat,
        whitelisted: st.whitelisted as nat,
        distinct_whitelisted: st.distinct_whitelisted as nat,
        blocked: st.blocked as nat,
    }
}

pub open spec fn init_state() -> IndexState {
    IndexState {
        index: Seq::empty(),
        seen_whitelisted: Seq::empty(),
        parent: 0,
        duplicate: 0,
        whitelisted: 0,
        distinct_whitelisted: 0,
        blocked: 0,
    }
}

/// What processing one candidate does: a candidate with an already-blocked
/// ancestor is subsumed; otherwise an exact whitelist match suppresses it;
/// otherwise it is inserted, counting duplicates.
pub open spec fn step_state(st: IndexState, d: Seq<char>, wl: Seq<Seq<char>>) -> IndexState {
    if subsumed(d, st.index) {
        IndexState { parent: st.parent + 1, ..st }
    } else if wl.contains(d) {
        if st.seen_whitelisted.contains(d) {
            IndexState { whitelisted: st.whitelisted + 1, ..st }
        } else {
            IndexState {
                whitelisted: st.whitelisted + 1,
                distinct_whitelisted: st.distinct_whitelisted + 1,
                seen_whitelisted: st.seen_whitelisted.push(d),
                ..st
            }
        }
    } else if st.index.contains(d) {
        IndexState { duplicate: st.duplicate + 1, ..st }
    } else {
        IndexState { blocked: st.blocked + 1, index: st.index.push(d), ..st }
    }
}

/// Processing a whole candidate sequence, first to last.
pub open spec fn run_state(cands: Seq<Seq<char>>, wl: Seq<Seq<char>>) -> IndexState
    decreases cands.len(),
{
    if cands.len() == 0 {
        init_state()
    } else {
        step_state(run_state(cands.drop_last(), wl), cands.last(), wl)
    }
}

/// Adds `domain` to the block index unless an ancestor of it is already
/// blocked (`parent`), it is whitelisted exactly (`whitelisted`), or it is a
/// duplicate input line (`duplicate`).
#[verifier::loop_isolation(false)]
pub fn process_bad_domain(
    domain: &str,
    index: &mut DomainIndex,
    whitelist: &DomainIndex,
    statistics: &mut Statistics,
    whitelisted: &mut DomainIndex,
)
    requires
        count_occ(domain@, '.') >= 1,
        old(index).wf(),
        all_have_dot(old(index)@),
        old(whitelisted).wf(),
        old(statistics).parent < usize::MAX,
        old(statistics).duplicate < usize::MAX,
        old(statistics).whitelisted < usize::MAX,
        old(statistics).distinct_whitelisted < usize::MAX,
        old(statistics).blocked < usize::MAX,
    ensures
        final(index).wf(),
        all_have_dot(final(index)@),
        final(whitelisted).wf(),
        state_of(final(index)@, final(whitelisted)@, *final(statistics)) == step_state(
            state_of(old(index)@, old(whitelisted)@, *old(statistics)),
            domain@,
            whitelist@,
        ),
        subsumed(domain@, old(index)@) ==> final(index)@ == old(index)@ && final(whitelisted)@
            == old(whitelisted)@ && *final(statistics) == (Statistics {
            parent: (old(statistics).parent + 1) as usize,
            ..*old(statistics)
        }),
{
    let ghost ds = dot_positions(domain@);
    let ancestors = sub_domain_iterator(domain, 1);
    let n = ancestors.len();
    let mut k: usize = 0;
    while k < n
        invariant
            k <= n,
            n == ancestors@.len(),
            ds == dot_positions(domain@),
            n == if 1 <= ds.len() {
                ds.len() - 1
            } else {
                0int
            },
            forall|j: int|
                0 <= j < n ==> #[trigger] ancestors@[j]@ == domain@.subrange(
                    ds[1 + j] + 1,
                    domain@.len() as int,
                ),
            forall|j: int| 0 <= j < k ==> !index@.contains(#[trigger] ancestors@[j]@),
            *statistics == *old(statistics),
            *index == *old(index),
            *whitelisted == *old(whitelisted),
        decreases n - k,
    {
        if index.contains(ancestors[k]) {
            proof {
                lemma_dot_suffix_is_ancestor(domain@, 1 + k as int);
            }
            statistics.increment_parent();
            return ;
        }
        k = k + 1;
    }
    proof {
        if subsumed(domain@, index@) {
            let a = choose|a: Seq<char>| index@.contains(a) && is_ancestor(a, domain@);
            let ia = choose|ia: int| 0 <= ia < index@.len() && index@[ia] == a;
            assert(count_occ(a, '.') >= 1);
            lemma_dotted_ancestor_in_walk(domain@, a);
            let kk = choose|kk: int|
                1 <= kk < ds.len() && a == domain@.subrange(ds[kk] + 1, domain@.len() as int);
            assert(ancestors@[kk - 1]@ == a);
            assert(false);
        }
    }
    if whitelist.contains(domain) {
        if whitelisted.insert(domain.to_owned()) {
            statistics.increment_distinct_whitelisted();
        }
        statistics.increment_whitelisted();
    } else {
        let ghost old_index = index@;
        if index.insert(domain.to_owned()) {
            statistics.increment_blocked();
            proof {
                assert forall|i: int| 0 <= i < index@.len() implies count_occ(
                    #[trigger] index@[i],
                    '.',
                ) >= 1 by {
                    if i < old_index.len() {
                        assert(index@[i] == old_index[i]);
                    } else {
                        assert(index@[i] == domain@);
                    }
                }
            }
        } else {
            statistics.increment_duplicate();
        }
    }
}

/// The last three characters are `"com"` (as `str::ends_with` sees it, so a
/// domain like `"xcom"` counts too).
pub open spec fn ends_com(s: Seq<char>) -> bool {
    s.len() >= 3 && s[s.len() - 3] == 'c' && s[s.len() - 2] == 'o' && s[s.len() - 1] == 'm'
}

pub fn ends_with_com(s: &str) -> (r: bool)
    ensures
        r == ends_com(s@),
{
    let n = s.unicode_len();
    if n < 3 {
        return false;
    }
    s.get_char(n - 3) == 'c' && s.get_char(n - 2) == 'o' && s.get_char(n - 1) == 'm'
}

/// Selects the candidates of one partition: those ending in `"com"`, or the
/// complement.
pub open spec fn com_selector(com: bool) -> spec_fn(Seq<char>) -> bool {
    |s: Seq<char>| ends_com(s) == com
}

/// The names of the candidates, in order.
pub open spec fn candidate_names<'a>(ds: Seq<Domain<'a>>) -> Seq<Seq<char>> {
    ds.map_values(|dm: Domain<'a>| dm.name@)
}

/// Builds the block index of one partition (the candidates whose name ends in
/// `"com"`, or the complement) and its statistics.
#[verifier::loop_isolation(false)]
pub fn process_baddies(bad_domains: &Vec<Domain>, whitelist: &DomainIndex, com: bool) -> (r: (
    DomainIndex,
    Statistics,
))
    requires
        forall|i: int| 0 <= i < bad_domains@.len() ==> (#[trigger] bad_domains@[i]).wf(),
    ensures
        ({
            let cands = candidate_names(bad_domains@).filter(com_selector(com));
            let st = run_state(cands, whitelist@);
            &&& r.0@ == st.index
            &&& r.0.wf()
            &&& all_have_dot(r.0@)
            &&& r.1.parent == st.parent
            &&& r.1.duplicate == st.duplicate
            &&& r.1.whitelisted == st.whitelisted
            &&& r.1.distinct_whitelisted == st.distinct_whitelisted
            &&& r.1.blocked == st.blocked
        }),
        sorted_by_dots(bad_domains@) ==> minimal_index(r.0@),
{
    let mut blacklist = DomainIndex::new();
    let mut whitelisted = DomainIndex::new();
    let mut statistics = Statistics::new();
    let ghost pred = com_selector(com);
    let ghost mut fcands: Seq<Seq<char>> = Seq::empty();
    proof {
        reveal(Seq::filter);
        assert(bad_domains@.subrange(0, 0) =~= Seq::<Domain>::empty());
        assert(candidate_names(bad_domains@.subrange(0, 0)) =~= Seq::<Seq<char>>::empty());
        assert(candidate_names(bad_domains@.subrange(0, 0)).filter(pred) =~= fcands);
    }
    let n = bad_domains.len();
    let mut i: usize = 0;
    while i < n
        invariant
            i <= n,
            n == bad_domains@.len(),
            fcands == candidate_names(bad_domains@.subrange(0, i as int)).filter(pred),
            fcands.len() <= i,
            blacklist.wf(),
            all_have_dot(blacklist@),
            whitelisted.wf(),
            state_of(blacklist@, whitelisted@, statistics) == run_state(fcands, whitelist@),
            statistics.parent + statistics.duplicate + statistics.whitelisted + statistics.blocked
                <= fcands.len(),
            statistics.distinct_whitelisted <= statistics.whitelisted,
        decreases n - i,
    {
        let d = &bad_domains[i];
        let ghost prefix = candidate_names(bad_domains@.subrange(0, i as int));
        let ghost prefix1 = candidate_names(bad_domains@.subrange(0, i + 1));
        proof {
            reveal(Seq::filter);
            assert(bad_domains@.subrange(0, i + 1).drop_last() =~= bad_domains@.subrange(
                0,
                i as int,
            ));
            assert(prefix1.drop_last() =~= prefix);
            assert(prefix1.last() == bad_domains@[i as int].name@);
            assert(prefix1.filter(pred) == if pred(prefix1.last()) {
                prefix.filter(pred).push(prefix1.last())
            } else {
                prefix.filter(pred)
            });
        }
        if ends_with_com(d.name) == com {
            process_bad_domain(d.name, &mut blacklist, whitelist, &mut statistics,
                &mut whitelisted);
            proof {
                let fcands1 = fcands.push(bad_domains@[i as int].name@);
                assert(fcands1.drop_last() =~= fcands);
                assert(run_state(fcands1, whitelist@) == step_state(
                    run_state(fcands, whitelist@),
                    bad_domains@[i as int].name@,
                    whitelist@,
                ));
                fcands = fcands1;
            }
        }
        i = i + 1;
    }
    proof {
        assert(bad_domains@.subrange(0, n as int) =~= bad_domains@);
        if sorted_by_dots(bad_domains@) {
            lemma_selected_sorted(bad_domains@, com);
            lemma_run_state_minimal(
                candidate_names(bad_domains@).filter(com_selector(com)),
                whitelist@,
            );
        }
    }
    (blacklist, statistics)
}

/// Candidates ordered by increasing dot count: ancestors always precede the
/// descendants they may cover.  This ordering is load-bearing: without it a
/// child inserted before its parent would remain redundantly stored.
pub open spec fn sorted_by_dots<'a>(s: Seq<Domain<'a>>) -> bool {
    forall|i: int, j: int| 0 <= i < j < s.len() ==> s[i].dots <= s[j].dots
}

/// Sorts the candidates by increasing dot count (selection sort).
#[verifier::loop_isolation(false)]
pub fn sort_domains<'a>(v: &mut Vec<Domain<'a>>)
    ensures
        sorted_by_dots(final(v)@),
        final(v)@.to_multiset() == old(v)@.to_multiset(),
        forall|k: int| 0 <= k < final(v)@.len() ==> old(v)@.contains(#[trigger] final(v)@[k]),
{
    broadcast use vstd::seq_lib::group_to_multiset_ensures;

    let ghost orig = v@;
    let mut out: Vec<Domain<'a>> = Vec::new();
    proof {
        assert forall|x: Domain<'a>|
            out@.to_multiset().add(v@.to_multiset()).count(x) == orig.to_multiset().count(x) by {
            assert(out@.to_multiset() =~= Multiset::<Domain<'a>>::empty());
        }
        assert(out@.to_multiset().add(v@.to_multiset()) =~= orig.to_multiset());
    }
    while v.len() > 0
        invariant
            out@.to_multiset().add(v@.to_multiset()) == orig.to_multiset(),
            sorted_by_dots(out@),
            forall|a: int, b: int|
                0 <= a < out@.len() && 0 <= b < v@.len() ==> out@[a].dots <= v@[b].dots,
        decreases v@.len(),
    {
        let mut mi: usize = 0;
        let mut k: usize = 1;
        while k < v.len()
            invariant
                mi < k <= v@.len(),
                forall|t: int| 0 <= t < k ==> v@[mi as int].dots <= v@[t].dots,
            decreases v@.len() - k,
        {
            if v[k].dots < v[mi].dots {
                mi = k;
            }
            k = k + 1;
        }
        let ghost v0 = v@;
        let ghost out0 = out@;
        let d = v.remove(mi);
        out.push(d);
        proof {
            assert(v0.to_multiset().count(d) > 0);
            assert(out@.to_multiset().add(v@.to_multiset()) =~= orig.to_multiset());
        }
    }
    proof {
        assert(v@.to_multiset() =~= Multiset::<Domain<'a>>::empty());
        assert(out@.to_multiset() =~= orig.to_multiset());
        assert forall|k: int| 0 <= k < out@.len() implies orig.contains(#[trigger] out@[k]) by {
            assert(out@.to_multiset().count(out@[k]) > 0);
        }
    }
    *v = out;
}

/// The domain, and every ancestor suffix of it that itself contains a dot:
/// what one whitelist entry contributes to the whitelist index.
pub open spec fn whitelist_closure(name: Seq<char>) -> Set<Seq<char>> {
    Set::new(|a: Seq<char>| a == name || (is_ancestor(a, name) && count_occ(a, '.') >= 1))
}

/// The suffix after any dot other than the rightmost one still contains the
/// rightmost dot.
proof fn lemma_walk_suffix_has_dot(d: Seq<char>, k: int)
    requires
        1 <= k < dot_positions(d).len(),
    ensures
        count_occ(d.subrange(dot_positions(d)[k] + 1, d.len() as int), '.') >= 1,
{
    let ds = dot_positions(d);
    lemma_dot_positions_desc_sorted(d, d.len() as int);
    lemma_dot_positions_desc_membership(d, d.len() as int, ds[0]);
    assert(ds.contains(ds[0]));
    let a = d.subrange(ds[k] + 1, d.len() as int);
    assert(a[ds[0] - ds[k] - 1] == '.');
    lemma_count_occ_pos(a, '.');
}

/// Adds a non-comment line to the whitelist index: the domain itself and all
/// of its ancestor suffixes, so that the index, inspected independently,
/// reflects the full protected hierarchy.
#[verifier::loop_isolation(false)]
pub fn process_whitelist_line(line: &str, index: &mut DomainIndex)
    requires
        old(index).wf(),
    ensures
        final(index).wf(),
        match parse_domain(line@) {
            Some(name) => final(index)@.to_set() == old(index)@.to_set() + whitelist_closure(
                name,
            ),
            None => final(index)@ == old(index)@,
        },
{
    let dom_opt = Domain::new(line);
    match dom_opt {
        None => {},
        Some(domain) => {
            let ghost name = domain.name@;
            let ghost ds = dot_positions(name);
            let ancestors = sub_domain_iterator(domain.name, 1);
            let n = ancestors.len();
            let mut k: usize = 0;
            while k < n
                invariant
                    k <= n,
                    index.wf(),
                    forall|x: Seq<char>|
                        old(index)@.contains(x) ==> #[trigger] index@.contains(x),
                    forall|j: int| 0 <= j < k ==> index@.contains(#[trigger] ancestors@[j]@),
                    forall|x: Seq<char>|
                        #[trigger] index@.contains(x) ==> old(index)@.contains(x) || (is_ancestor(
                            x,
                            name,
                        ) && count_occ(x, '.') >= 1),
                decreases n - k,
            {
                proof {
                    lemma_dot_suffix_is_ancestor(name, 1 + k as int);
                    lemma_walk_suffix_has_dot(name, 1 + k as int);
                }
                let ghost pre = index@;
                index.insert(ancestors[k].to_owned());
                proof {
                    assert forall|x: Seq<char>| pre.contains(x) implies #[trigger] index@.contains(
                        x,
                    ) by {
                        let j = choose|j: int| 0 <= j < pre.len() && pre[j] == x;
                        assert(index@[j] == x);
                    }
                    if index@.len() > pre.len() {
                        assert(index@[pre.len() as int] == ancestors@[k as int]@);
                    }
                    assert(index@.contains(ancestors@[k as int]@));
                    assert forall|x: Seq<char>| #[trigger] index@.contains(x) implies pre.contains(
                        x,
                    ) || x == ancestors@[k as int]@ by {
                        let j = choose|j: int| 0 <= j < index@.len() && index@[j] == x;
                        if j < pre.len() {
                            assert(pre[j] == x);
                        }
                    }
                }
                k = k + 1;
            }
            let ghost pre = index@;
            index.insert(domain.name.to_owned());
            proof {
                assert forall|x: Seq<char>| pre.contains(x) implies #[trigger] index@.contains(
                    x,
                ) by {
                    let j = choose|j: int| 0 <= j < pre.len() && pre[j] == x;
                    assert(index@[j] == x);
                }
                if index@.len() > pre.len() {
                    assert(index@[pre.len() as int] == name);
                }
                assert(index@.contains(name));
                assert forall|x: Seq<char>|
                    index@.to_set().contains(x) implies (old(index)@.to_set()
                    + whitelist_closure(name)).contains(x) by {
                    let j = choose|j: int| 0 <= j < index@.len() && index@[j] == x;
                    if j < pre.len() {
                        assert(pre[j] == x);
                        assert(pre.contains(x));
                    } else {
                        assert(x == name);
                    }
                }
                assert forall|x: Seq<char>|
                    (old(index)@.to_set() + whitelist_closure(name)).contains(
                    x,
                ) implies index@.to_set().contains(x) by {
                    if !old(index)@.contains(x) && x != name {
                        lemma_dotted_ancestor_in_walk(name, x);
                        let kk = choose|kk: int|
                            1 <= kk < ds.len() && x == name.subrange(
                                #[trigger] ds[kk] + 1,
                                name.len() as int,
                            );
                        assert(ancestors@[kk - 1]@ == x);
                        assert(index@.contains(ancestors@[kk - 1]@));
                    }
                }
                assert(index@.to_set() =~= old(index)@.to_set() + whitelist_closure(name));
            }
        },
    }
}

/// The domains that a sequence of input lines yields, in order.
pub open spec fn parsed_names(lines: Seq<Seq<char>>) -> Seq<Seq<char>>
    decreases lines.len(),
{
    if lines.len() == 0 {
        Seq::empty()
    } else {
        let rest = parsed_names(lines.drop_last());
        match parse_domain(lines.last()) {
            Some(nm) => rest.push(nm),
            None => rest,
        }
    }
}

/// Parses every line of a blocklist file; lines that yield no usable domain
/// contribute nothing.
#[verifier::loop_isolation(false)]
pub fn collect_domains<'a>(lines: &'a Vec<String>) -> (r: Vec<Domain<'a>>)
    ensures
        candidate_names(r@) == parsed_names(lines.deep_view()),
        forall|i: int| 0 <= i < r@.len() ==> (#[trigger] r@[i]).wf(),
{
    let mut r: Vec<Domain<'a>> = Vec::new();
    let n = lines.len();
    let mut i: usize = 0;
    proof {
        assert(lines.deep_view().subrange(0, 0) =~= Seq::<Seq<char>>::empty());
        assert(candidate_names(r@) =~= Seq::<Seq<char>>::empty());
    }
    while i < n
        invariant
            i <= n,
            n == lines@.len(),
            candidate_names(r@) == parsed_names(lines.deep_view().subrange(0, i as int)),
            forall|j: int| 0 <= j < r@.len() ==> (#[trigger] r@[j]).wf(),
        decreases n - i,
    {
        let ghost r0 = r@;
        let line = &lines[i];
        match Domain::new(line.as_str()) {
            Some(d) => {
                r.push(d);
                proof {
                    assert(candidate_names(r@) =~= candidate_names(r0).push(d.name@));
                }
            },
            None => {},
        }
        proof {
            let pre1 = lines.deep_view().subrange(0, i + 1);
            assert(pre1.drop_last() =~= lines.deep_view().subrange(0, i as int));
            assert(pre1.last() == lines@[i as int]@);
        }
        i = i + 1;
    }
    proof {
        assert(lines.deep_view().subrange(0, n as int) =~= lines.deep_view());
    }
    r
}

/// No entry is a proper dot-delimited suffix of another: the index is a
/// minimal covering set.
pub open spec fn minimal_index(s: Seq<Seq<char>>) -> bool {
    forall|i: int, j: int|
        0 <= i < s.len() && 0 <= j < s.len() ==> !is_ancestor(#[trigger] s[i], #[trigger] s[j])
}

/// Candidate names ordered by increasing dot count.
pub open spec fn sorted_by_dot_count(c: Seq<Seq<char>>) -> bool {
    forall|i: int, j: int|
        0 <= i < j < c.len() ==> count_occ(#[trigger] c[i], '.') <= count_occ(
            #[trigger] c[j],
            '.',
        )
}

/// Every element a filter keeps occurs in the sequence it was filtered from.
proof fn lemma_filter_elems<A>(s: Seq<A>, pred: spec_fn(A) -> bool)
    ensures
        forall|k: int| 0 <= k < s.filter(pred).len() ==> s.contains(#[trigger] s.filter(pred)[k]),
    decreases s.len(),
{
    reveal(Seq::filter);
    if s.len() > 0 {
        let prev = s.drop_last();
        lemma_filter_elems(prev, pred);
        let f = s.filter(pred);
        let fp = prev.filter(pred);
        assert forall|k: int| 0 <= k < f.len() implies s.contains(#[trigger] f[k]) by {
            if k < fp.len() {
                assert(f[k] == fp[k]);
                assert(prev.contains(fp[k]));
                let i = choose|i: int| 0 <= i < prev.len() && prev[i] == fp[k];
                assert(s[i] == f[k]);
            } else {
                assert(f[k] == s.last());
                assert(s[s.len() - 1] == f[k]);
            }
        }
    }
}

/// Selecting one partition out of candidates sorted by dot count keeps them
/// sorted by dot count.
pub proof fn lemma_selected_sorted<'a>(ds: Seq<Domain<'a>>, com: bool)
    requires
        sorted_by_dots(ds),
        forall|i: int| 0 <= i < ds.len() ==> (#[trigger] ds[i]).wf(),
    ensures
        sorted_by_dot_count(candidate_names(ds).filter(com_selector(com))),
    decreases ds.len(),
{
    reveal(Seq::filter);
    let pred = com_selector(com);
    if ds.len() > 0 {
        let prev = ds.drop_last();
        assert(forall|i: int| 0 <= i < prev.len() ==> prev[i] == ds[i]);
        lemma_selected_sorted(prev, com);
        let names = candidate_names(ds);
        let pnames = candidate_names(prev);
        assert(names.drop_last() =~= pnames);
        let f = names.filter(pred);
        let fp = pnames.filter(pred);
        lemma_filter_elems(pnames, pred);
        assert forall|a: int, b: int| 0 <= a < b < f.len() implies count_occ(
            #[trigger] f[a],
            '.',
        ) <= count_occ(#[trigger] f[b], '.') by {
            if b < fp.len() {
                assert(f[a] == fp[a] && f[b] == fp[b]);
            } else {
                assert(b == fp.len() && f[b] == names.last());
                assert(f[a] == fp[a]);
                assert(pnames.contains(fp[a]));
                let i = choose|i: int| 0 <= i < pnames.len() && pnames[i] == fp[a];
                assert(fp[a] == ds[i].name@);
                assert(count_occ(ds[i].name@, '.') == ds[i].dots);
                assert(names.last() == ds[ds.len() - 1].name@);
                assert(ds[i].dots <= ds[ds.len() - 1].dots);
            }
        }
    }
}

/// Minimality of the covering set: over candidates sorted by dot count,
/// every ancestor is processed before any descendant it covers, so the
/// resulting block index never holds two entries in an ancestor/descendant
/// relationship.  Its entries all come from the candidate list.
pub proof fn lemma_run_state_minimal(cands: Seq<Seq<char>>, wl: Seq<Seq<char>>)
    requires
        sorted_by_dot_count(cands),
    ensures
        minimal_index(run_state(cands, wl).index),
        forall|x: Seq<char>|
            #[trigger] run_state(cands, wl).index.contains(x) ==> cands.contains(x),
    decreases cands.len(),
{
    if cands.len() == 0 {
    } else {
        let prev = cands.drop_last();
        assert(forall|i: int| 0 <= i < prev.len() ==> prev[i] == cands[i]);
        lemma_run_state_minimal(prev, wl);
        let st = run_state(prev, wl);
        let d = cands.last();
        let newidx = run_state(cands, wl).index;
        assert forall|x: Seq<char>| prev.contains(x) implies cands.contains(x) by {
            let i = choose|i: int| 0 <= i < prev.len() && prev[i] == x;
            assert(cands[i] == x);
        }
        if subsumed(d, st.index) || wl.contains(d) || st.index.contains(d) {
            assert(newidx == st.index);
        } else {
            assert(newidx == st.index.push(d));
            assert forall|x: Seq<char>| #[trigger] newidx.contains(x) implies cands.contains(
                x,
            ) by {
                let j = choose|j: int| 0 <= j < newidx.len() && newidx[j] == x;
                if j < st.index.len() {
                    assert(st.index[j] == x);
                    assert(st.index.contains(x));
                } else {
                    assert(x == d);
                    assert(cands[cands.len() - 1] == x);
                }
            }
            assert forall|i: int, j: int|
                0 <= i < newidx.len() && 0 <= j < newidx.len() implies !is_ancestor(
                #[trigger] newidx[i],
                #[trigger] newidx[j],
            ) by {
                let last = newidx.len() - 1;
                if i < last && j < last {
                    assert(newidx[i] == st.index[i] && newidx[j] == st.index[j]);
                } else if i == last && j < last {
                    if is_ancestor(newidx[i], newidx[j]) {
                        lemma_ancestor_fewer_dots(newidx[i], newidx[j]);
                        assert(st.index.contains(st.index[j]));
                        assert(prev.contains(st.index[j]));
                        let ix = choose|ix: int| 0 <= ix < prev.len() && prev[ix] == st.index[j];
                        assert(count_occ(cands[ix], '.') <= count_occ(d, '.'));
                        assert(false);
                    }
                } else if j == last && i < last {
                    if is_ancestor(newidx[i], newidx[j]) {
                        assert(st.index.contains(st.index[i]));
                        assert(subsumed(d, st.index));
                        assert(false);
                    }
                } else {
                    if is_ancestor(newidx[i], newidx[j]) {
                        lemma_ancestor_fewer_dots(d, d);
                        assert(false);
                    }
                }
            }
        }
    }
}

/// In a minimal covering set, a domain with an ancestor in the set does not
/// itself appear in the set.
pub proof fn lemma_minimal_excludes_descendants(s: Seq<Seq<char>>, a: Seq<char>, d: Seq<char>)
    requires
        minimal_index(s),
        s.contains(a),
        is_ancestor(a, d),
    ensures
        !s.contains(d),
{
    if s.contains(d) {
        let ia = choose|ia: int| 0 <= ia < s.len() && s[ia] == a;
        let id = choose|id: int| 0 <= id < s.len() && s[id] == d;
        assert(!is_ancestor(s[ia], s[id]));
    }
}

/// Idempotence of compaction: feeding a minimal index back in as the
/// blocklist, with an empty whitelist, re-blocks every entry and yields the
/// identical index, in order; nothing is counted as subsumed, duplicate or
/// whitelisted.
pub proof fn lemma_compaction_idempotent(cands: Seq<Seq<char>>)
    requires
        minimal_index(cands),
        cands.no_duplicates(),
    ensures
        run_state(cands, Seq::empty()).index == cands,
        run_state(cands, Seq::empty()).blocked == cands.len(),
        run_state(cands, Seq::empty()).parent == 0,
        run_state(cands, Seq::empty()).duplicate == 0,
        run_state(cands, Seq::empty()).whitelisted == 0,
        run_state(cands, Seq::empty()).distinct_whitelisted == 0,
    decreases cands.len(),
{
    if cands.len() == 0 {
        assert(run_state(cands, Seq::empty()).index =~= cands);
    } else {
        let prev = cands.drop_last();
        assert(forall|i: int| 0 <= i < prev.len() ==> prev[i] == cands[i]);
        lemma_compaction_idempotent(prev);
        let st = run_state(prev, Seq::empty());
        let d = cands.last();
        if subsumed(d, st.index) {
            let a = choose|a: Seq<char>| st.index.contains(a) && is_ancestor(a, d);
            let ia = choose|ia: int| 0 <= ia < prev.len() && prev[ia] == a;
            assert(is_ancestor(cands[ia], cands[cands.len() - 1]));
            assert(false);
        }
        if st.index.contains(d) {
            let ia = choose|ia: int| 0 <= ia < prev.len() && prev[ia] == d;
            assert(cands[ia] == cands[cands.len() - 1]);
            assert(false);
        }
        assert(!Seq::<Seq<char>>::empty().contains(d));
        assert(run_state(cands, Seq::empty()).index =~= cands);
    }
}

/// What a sequence of whitelist lines (or resolved CNAME targets) contributes
/// to the whitelist index.
pub open spec fn whitelist_set(lines: Seq<Seq<char>>) -> Set<Seq<char>>
    decreases lines.len(),
{
    if lines.len() == 0 {
        Set::empty()
    } else {
        whitelist_set(lines.drop_last()) + (match parse_domain(lines.last()) {
            Some(name) => whitelist_closure(name),
            None => Set::empty(),
        })
    }
}

/// Builds the whitelist index from the whitelist file's lines and the resolved
/// CNAME targets of its entries.
#[verifier::loop_isolation(false)]
pub fn build_whitelist(lines: &Vec<String>, cnames: &Vec<String>) -> (r: DomainIndex)
    ensures
        r.wf(),
        r@.to_set() == whitelist_set(lines.deep_view()) + whitelist_set(cnames.deep_view()),
{
    let mut index = DomainIndex::new();
    proof {
        assert(index@.to_set() =~= Set::<Seq<char>>::empty());
        assert(lines.deep_view().subrange(0, 0) =~= Seq::<Seq<char>>::empty());
        assert(index@.to_set() =~= whitelist_set(lines.deep_view().subrange(0, 0)));
    }
    let n = lines.len();
    let mut i: usize = 0;
    while i < n
        invariant
            i <= n,
            n == lines@.len(),
            index.wf(),
            index@.to_set() == whitelist_set(lines.deep_view().subrange(0, i as int)),
        decreases n - i,
    {
        let ghost pre = index@.to_set();
        process_whitelist_line(lines[i].as_str(), &mut index);
        proof {
            let lv = lines.deep_view();
            assert(lv.subrange(0, i + 1).drop_last() =~= lv.subrange(0, i as int));
            assert(lv.subrange(0, i + 1).last() == lines@[i as int]@);
            match parse_domain(lines@[i as int]@) {
                Some(name) => {
                    assert(index@.to_set() =~= whitelist_set(lv.subrange(0, i + 1)));
                },
                None => {
                    assert(pre + Set::<Seq<char>>::empty() =~= pre);
                    assert(index@.to_set() =~= whitelist_set(lv.subrange(0, i + 1)));
                },
            }
        }
        i = i + 1;
    }
    proof {
        assert(lines.deep_view().subrange(0, n as int) =~= lines.deep_view());
        assert(cnames.deep_view().subrange(0, 0) =~= Seq::<Seq<char>>::empty());
        assert(index@.to_set() =~= whitelist_set(lines.deep_view()) + whitelist_set(
            cnames.deep_view().subrange(0, 0),
        ));
    }
    let m = cnames.len();
    let mut j: usize = 0;
    while j < m
        invariant
            j <= m,
            m == cnames@.len(),
            index.wf(),
            index@.to_set() == whitelist_set(lines.deep_view()) + whitelist_set(
                cnames.deep_view().subrange(0, j as int),
            ),
        decreases m - j,
    {
        let ghost pre = index@.to_set();
        process_whitelist_line(cnames[j].as_str(), &mut index);
        proof {
            let cv = cnames.deep_view();
            assert(cv.subrange(0, j + 1).drop_last() =~= cv.subrange(0, j as int));
            assert(cv.subrange(0, j + 1).last() == cnames@[j as int]@);
            match parse_domain(cnames@[j as int]@) {
                Some(name) => {
                    assert(index@.to_set() =~= whitelist_set(lines.deep_view()) + whitelist_set(
                        cv.subrange(0, j + 1),
                    ));
                },
                None => {
                    assert(pre + Set::<Seq<char>>::empty() =~= pre);
                    assert(index@.to_set() =~= whitelist_set(lines.deep_view()) + whitelist_set(
                        cv.subrange(0, j + 1),
                    ));
                },
            }
        }
        j = j + 1;
    }
    proof {
        assert(cnames.deep_view().subrange(0, m as int) =~= cnames.deep_view());
    }
    index
}

} // verus!
