use dns_block::sub_domains::{count_char_occurences, sub_domain_iterator, Domain};

#[test]
fn sub_domain_iterator_test() {
    let subdomains = sub_domain_iterator("many.ads.fb.com", 1);
    assert_eq!("fb.com", subdomains[0]);
    assert_eq!("ads.fb.com", subdomains[1]);
    assert_eq!(2, subdomains.len());
}

#[test]
fn sub_domain_iterator_short_domain_test() {
    // skipping the domain's own rightmost label leaves only "fb.com"
    let subdomains = sub_domain_iterator("ads.fb.com", 1);
    assert_eq!(vec!["fb.com"], subdomains);
}

#[test]
fn sub_domain_iterator_no_skip_test() {
    let subdomains = sub_domain_iterator("ads.fb.com", 0);
    assert_eq!(vec!["com", "fb.com"], subdomains);
}

#[test]
fn sub_domain_iterator_skip_all_test() {
    let subdomains = sub_domain_iterator("fb.com", 2);
    assert_eq!(0, subdomains.len());
}

#[test]
fn domain_constructor_test() {
    let nd = vec!["# just a comment", "   # just a comment", "localhost"];

    for line in &nd {
        let od = Domain::new(line);
        assert!(od.is_none());
    }

    let v = vec![
        "domain.com",
        "domain.com # domain and comment",
        "10.0.0.1 domain.com",
        " 10.0.0.1  domain.com # comment",
    ];

    for line in &v {
        let od = Domain::new(line);
        assert!(od.is_some());
        let d = od.unwrap();
        assert_eq!("domain.com", d.name);
        assert_eq!(1, d.dots);
    }
}

#[test]
fn domain_constructor_empty_test() {
    assert!(Domain::new("").is_none());
    assert!(Domain::new("   ").is_none());
}

#[test]
fn count_char_occurences_test() {
    assert_eq!(3, count_char_occurences("many.ads.fb.com", '.'));
    assert_eq!(0, count_char_occurences("localhost", '.'));
    assert_eq!(0, count_char_occurences("", '.'));
}
