use dns_block::filter::{
    extract, filter_line, find, is_domain_blocked, is_domain_blocked_by_index, split_commas,
};
use dns_block::index::DomainIndex;

#[test]
fn extraction_test() {
    let line = "20-Jan-2021 10:10:10.536 client 10.0.0.30#7216 (mydomain.com): view internal: query: mydomain.com IN A + (10.0.0.12)";
    assert_eq!("10.0.0.30", extract(&line, "client ", "#").unwrap());
    assert_eq!(
        "mydomain.com",
        extract(&line, "query: ", " ").unwrap()
    );
}

#[test]
fn extraction_missing_marker_test() {
    assert_eq!(None, extract("no markers here", "query: ", " "));
    assert_eq!(None, extract("query: unterminated", "query: ", "#"));
}

#[test]
fn find_test() {
    assert_eq!(Some(3), find("abcabc", "abc", 1));
    assert_eq!(Some(0), find("abcabc", "abc", 0));
    assert_eq!(None, find("abcabc", "xyz", 0));
}

#[test]
fn blocked_line_is_annotated_test() {
    let line = "client 10.0.0.30#7216 (mydomain.com): view internal: query: mydomain.com IN A + (10.0.0.12)\n";
    let mut com = DomainIndex::new();
    com.insert("mydomain.com".to_string());
    let net = DomainIndex::new();
    let no_filter: Vec<String> = Vec::new();
    let out = filter_line(line, &com, &net, &no_filter);
    assert_eq!(Some("10.0.0.30 mydomain.com blocked\n".to_string()), out);
}

#[test]
fn unblocked_line_passes_through_test() {
    let line = "client 10.0.0.30#7216 (mydomain.com): view internal: query: mydomain.com IN A + (10.0.0.12)\n";
    let com = DomainIndex::new();
    let net = DomainIndex::new();
    let no_filter: Vec<String> = Vec::new();
    let out = filter_line(line, &com, &net, &no_filter);
    assert_eq!(Some(line.to_string()), out);
}

#[test]
fn line_without_markers_passes_through_test() {
    let line = "zone transfer completed\n";
    let mut com = DomainIndex::new();
    com.insert("mydomain.com".to_string());
    let net = DomainIndex::new();
    let no_filter: Vec<String> = Vec::new();
    assert_eq!(
        Some(line.to_string()),
        filter_line(line, &com, &net, &no_filter)
    );
}

#[test]
fn client_filter_test() {
    let line = "client 10.0.0.30#7216 (mydomain.com): view internal: query: mydomain.com IN A\n";
    let mut com = DomainIndex::new();
    com.insert("mydomain.com".to_string());
    let net = DomainIndex::new();

    let allowed = split_commas("10.0.0.30,10.0.0.31");
    assert_eq!(
        Some("10.0.0.30 mydomain.com blocked\n".to_string()),
        filter_line(line, &com, &net, &allowed)
    );

    let other = split_commas("10.0.0.99");
    assert_eq!(None, filter_line(line, &com, &net, &other));
}

#[test]
fn split_commas_test() {
    assert_eq!(vec!["a", "b", "c"], split_commas("a,b,c"));
    assert_eq!(vec!["10.0.0.30"], split_commas("10.0.0.30"));
    assert_eq!(vec!["", ""], split_commas(","));
    assert_eq!(vec![""], split_commas(""));
}

#[test]
fn blocked_by_index_test() {
    let mut index = DomainIndex::new();
    index.insert("fb.com".to_string());
    // the exact domain and every descendant are blocked; others are not
    assert!(is_domain_blocked_by_index("fb.com", &index));
    assert!(is_domain_blocked_by_index("ads.fb.com", &index));
    assert!(is_domain_blocked_by_index("many.ads.fb.com", &index));
    assert!(!is_domain_blocked_by_index("notfb.com", &index));
    assert!(!is_domain_blocked_by_index("fb.org", &index));
}

#[test]
fn blocked_picks_partition_test() {
    let mut com = DomainIndex::new();
    com.insert("fb.com".to_string());
    let mut net = DomainIndex::new();
    net.insert("tracker.net".to_string());
    assert!(is_domain_blocked("ads.fb.com", &com, &net));
    assert!(is_domain_blocked("x.tracker.net", &com, &net));
    // a .com domain is only tested against the com partition
    assert!(!is_domain_blocked("fb.commercial.org", &com, &net));
}
