use dns_block::index::{
    build_whitelist, collect_domains, process_bad_domain, process_baddies,
    process_whitelist_line, sort_domains, DomainIndex,
};
use dns_block::statistics::Statistics;

fn strings(v: &[&str]) -> Vec<String> {
    v.iter().map(|s| s.to_string()).collect()
}

fn index_entries(index: &DomainIndex) -> Vec<String> {
    let mut out = Vec::new();
    for i in 0..index.len() {
        out.push(index.get(i).clone());
    }
    out
}

#[test]
fn subsumed_candidate_counts_as_parent_test() {
    // a candidate with an already-blocked ancestor is never stored
    let mut index = DomainIndex::new();
    index.insert("fb.com".to_string());
    let whitelist = DomainIndex::new();
    let mut whitelisted = DomainIndex::new();
    let mut statistics = Statistics::new();
    process_bad_domain(
        "ads.fb.com",
        &mut index,
        &whitelist,
        &mut statistics,
        &mut whitelisted,
    );
    assert_eq!(1, statistics.parent);
    assert_eq!(0, statistics.blocked);
    assert!(!index.contains("ads.fb.com"));
    assert_eq!(vec!["fb.com".to_string()], index_entries(&index));
}

#[test]
fn duplicate_candidate_test() {
    let mut index = DomainIndex::new();
    let whitelist = DomainIndex::new();
    let mut whitelisted = DomainIndex::new();
    let mut statistics = Statistics::new();
    process_bad_domain(
        "fb.com",
        &mut index,
        &whitelist,
        &mut statistics,
        &mut whitelisted,
    );
    process_bad_domain(
        "fb.com",
        &mut index,
        &whitelist,
        &mut statistics,
        &mut whitelisted,
    );
    assert_eq!(1, statistics.blocked);
    assert_eq!(1, statistics.duplicate);
    assert_eq!(vec!["fb.com".to_string()], index_entries(&index));
}

#[test]
fn whitelisted_candidate_test() {
    let mut index = DomainIndex::new();
    let mut whitelist = DomainIndex::new();
    process_whitelist_line("good.example.com", &mut whitelist);
    let mut whitelisted = DomainIndex::new();
    let mut statistics = Statistics::new();
    process_bad_domain(
        "good.example.com",
        &mut index,
        &whitelist,
        &mut statistics,
        &mut whitelisted,
    );
    process_bad_domain(
        "good.example.com",
        &mut index,
        &whitelist,
        &mut statistics,
        &mut whitelisted,
    );
    assert_eq!(2, statistics.whitelisted);
    assert_eq!(1, statistics.distinct_whitelisted);
    assert_eq!(0, statistics.blocked);
    assert!(!index.contains("good.example.com"));
}

#[test]
fn whitelist_line_inserts_ancestors_test() {
    let mut whitelist = DomainIndex::new();
    process_whitelist_line("ads.example.com", &mut whitelist);
    assert!(whitelist.contains("ads.example.com"));
    assert!(whitelist.contains("example.com"));
    assert!(!whitelist.contains("com"));
}

#[test]
fn whitelist_exact_match_only_test() {
    // only exact whitelist membership suppresses blocking: a subdomain of a
    // whitelisted domain is still blocked
    let mut index = DomainIndex::new();
    let mut whitelist = DomainIndex::new();
    process_whitelist_line("good.example.com", &mut whitelist);
    let mut whitelisted = DomainIndex::new();
    let mut statistics = Statistics::new();
    process_bad_domain(
        "tracker.example.net",
        &mut index,
        &whitelist,
        &mut statistics,
        &mut whitelisted,
    );
    assert_eq!(1, statistics.blocked);
    assert!(index.contains("tracker.example.net"));
}

#[test]
fn process_baddies_partitions_test() {
    let lines = strings(&[
        "fb.com",
        "many.ads.fb.com",
        "ads.fb.com",
        "tracker.net",
        "sub.tracker.net",
        "fb.com",
    ]);
    let mut domains = collect_domains(&lines);
    sort_domains(&mut domains);
    let whitelist = DomainIndex::new();
    let (com_index, com_stats) = process_baddies(&domains, &whitelist, true);
    let (net_index, net_stats) = process_baddies(&domains, &whitelist, false);

    assert_eq!(vec!["fb.com".to_string()], index_entries(&com_index));
    assert_eq!(1, com_stats.blocked);
    assert_eq!(2, com_stats.parent);
    assert_eq!(1, com_stats.duplicate);

    assert_eq!(vec!["tracker.net".to_string()], index_entries(&net_index));
    assert_eq!(1, net_stats.blocked);
    assert_eq!(1, net_stats.parent);

    let total = Statistics::aggregate(&com_stats, &net_stats);
    assert_eq!(2, total.blocked);
    assert_eq!(3, total.parent);
    assert_eq!(1, total.duplicate);
    assert_eq!(0, total.whitelisted);
}

#[test]
fn minimality_test() {
    // no two stored domains are in an ancestor/descendant relationship
    let lines = strings(&["a.b.example.com", "b.example.com", "example.com", "x.example.com"]);
    let mut domains = collect_domains(&lines);
    sort_domains(&mut domains);
    let whitelist = DomainIndex::new();
    let (index, _) = process_baddies(&domains, &whitelist, true);
    let entries = index_entries(&index);
    assert_eq!(vec!["example.com".to_string()], entries);
    for a in &entries {
        for b in &entries {
            if a != b {
                assert!(!b.ends_with(&format!(".{}", a)));
            }
        }
    }
}

#[test]
fn compaction_idempotent_test() {
    let lines = strings(&[
        "ads.fb.com",
        "fb.com",
        "tracker.net",
        "a.tracker.net",
        "b.tracker.net",
        "site.org",
    ]);
    let mut domains = collect_domains(&lines);
    sort_domains(&mut domains);
    let whitelist = DomainIndex::new();
    let (com1, _) = process_baddies(&domains, &whitelist, true);
    let (net1, _) = process_baddies(&domains, &whitelist, false);
    let mut first: Vec<String> = index_entries(&com1);
    first.extend(index_entries(&net1));

    // feed the output back in as a blocklist with an empty whitelist
    let mut domains2 = collect_domains(&first);
    sort_domains(&mut domains2);
    let (com2, stats2c) = process_baddies(&domains2, &whitelist, true);
    let (net2, stats2n) = process_baddies(&domains2, &whitelist, false);
    let mut second: Vec<String> = index_entries(&com2);
    second.extend(index_entries(&net2));

    let mut first_sorted = first.clone();
    first_sorted.sort();
    let mut second_sorted = second.clone();
    second_sorted.sort();
    assert_eq!(first_sorted, second_sorted);
    assert_eq!(0, stats2c.parent + stats2n.parent);
    assert_eq!(0, stats2c.duplicate + stats2n.duplicate);
    assert_eq!(first.len(), stats2c.blocked + stats2n.blocked);
}

#[test]
fn build_whitelist_test() {
    let lines = strings(&["good.example.com # keep", "# nothing"]);
    let cnames = strings(&["cdn.provider.net"]);
    let whitelist = build_whitelist(&lines, &cnames);
    assert!(whitelist.contains("good.example.com"));
    assert!(whitelist.contains("example.com"));
    assert!(whitelist.contains("cdn.provider.net"));
    assert!(whitelist.contains("provider.net"));
    assert!(!whitelist.contains("com"));
    assert!(!whitelist.contains("net"));
}

#[test]
fn sort_domains_test() {
    let lines = strings(&["a.b.c.com", "x.com", "m.n.com"]);
    let mut domains = collect_domains(&lines);
    sort_domains(&mut domains);
    assert_eq!(3, domains.len());
    assert_eq!("x.com", domains[0].name);
    assert_eq!("m.n.com", domains[1].name);
    assert_eq!("a.b.c.com", domains[2].name);
}

#[test]
fn statistics_counters_test() {
    let mut s = Statistics::new();
    s.increment_parent();
    s.increment_duplicate();
    s.increment_whitelisted();
    s.increment_distinct_whitelisted();
    s.increment_blocked();
    s.increment_blocked();
    assert_eq!(1, s.parent);
    assert_eq!(1, s.duplicate);
    assert_eq!(1, s.whitelisted);
    assert_eq!(1, s.distinct_whitelisted);
    assert_eq!(2, s.blocked);
}
