use dns_block::index::DomainIndex;
use dns_block::output::{render_bind_output, render_output};

const PREAMBLE: &str = "$TTL 60\n@   IN    SOA  localhost. root.localhost.  (\n        2   ; serial \n        3H  ; refresh \n        1H  ; retry \n        1W  ; expiry \n        1H) ; minimum \n    IN    NS    localhost.\n";

#[test]
fn bind_output_test() {
    let mut com = DomainIndex::new();
    com.insert("example.com".to_string());
    let net = DomainIndex::new();
    let out = render_bind_output(&com, &net);
    let expected = format!(
        "{}example.com CNAME .\n*.example.com CNAME .\n",
        PREAMBLE
    );
    assert_eq!(expected, out);
}

#[test]
fn bind_output_empty_test() {
    let com = DomainIndex::new();
    let net = DomainIndex::new();
    assert_eq!(PREAMBLE.to_string(), render_bind_output(&com, &net));
}

#[test]
fn plain_output_test() {
    let mut com = DomainIndex::new();
    com.insert("example.com".to_string());
    com.insert("other.com".to_string());
    let mut net = DomainIndex::new();
    net.insert("tracker.net".to_string());
    let out = render_output(&com, &net);
    assert_eq!("example.com\nother.com\ntracker.net\n", out);
}

#[test]
fn plain_output_empty_test() {
    let com = DomainIndex::new();
    let net = DomainIndex::new();
    assert_eq!("", render_output(&com, &net));
}
