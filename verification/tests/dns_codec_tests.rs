use dns_block::dns_codec::{
    compute_url_length, create_request, extract_data, extract_name, read, CodecError,
};

const BUF: [u8; 137] = [
    0x10, 0xe8, 0x81, 0x80, 0x00, 0x01, 0x00, 0x04, 0x00, 0x00, 0x00, 0x00, 0x03, 0x77, 0x77,
    0x77, 0x08, 0x62, 0x61, 0x78, 0x2d, 0x73, 0x68, 0x6f, 0x70, 0x02, 0x6e, 0x6c, 0x00, 0x00,
    0x01, 0x00, 0x01, 0xc0, 0x0c, 0x00, 0x05, 0x00, 0x01, 0x00, 0x00, 0x0d, 0x57, 0x00, 0x1f,
    0x03, 0x77, 0x77, 0x77, 0x08, 0x62, 0x61, 0x78, 0x2d, 0x73, 0x68, 0x6f, 0x70, 0x02, 0x6e,
    0x6c, 0x09, 0x65, 0x64, 0x67, 0x65, 0x73, 0x75, 0x69, 0x74, 0x65, 0x03, 0x6e, 0x65, 0x74,
    0x00, 0xc0, 0x2d, 0x00, 0x05, 0x00, 0x01, 0x00, 0x00, 0x53, 0x63, 0x00, 0x11, 0x05, 0x61,
    0x31, 0x39, 0x35, 0x38, 0x01, 0x72, 0x06, 0x61, 0x6b, 0x61, 0x6d, 0x61, 0x69, 0xc0, 0x47,
    0xc0, 0x58, 0x00, 0x01, 0x00, 0x01, 0x00, 0x00, 0x00, 0x13, 0x00, 0x04, 0x5f, 0x64, 0x61,
    0x6a, 0xc0, 0x58, 0x00, 0x01, 0x00, 0x01, 0x00, 0x00, 0x00, 0x13, 0x00, 0x04, 0x5f, 0x64,
    0x61, 0x5a,
];

#[test]
fn test_response_parsing() {
    assert_eq!(
        "www.bax-shop.nl".as_bytes().to_vec(),
        extract_name(&BUF, 12).unwrap()
    );
    assert_eq!(
        "a1958.r.akamai.net".as_bytes().to_vec(),
        extract_name(&BUF, 121).unwrap()
    );
    println!("{:?}", extract_name(&BUF, 45));
}

#[test]
fn test_calculate_url_length() {
    assert_eq!(17, compute_url_length(&BUF, 12).unwrap());
    assert_eq!(2, compute_url_length(&BUF, 33).unwrap());
    assert_eq!(17, compute_url_length(&BUF, 88).unwrap());
}

#[test]
fn extract_name_compression_test() {
    // the first answer's record data holds the uncompressed alias chain target
    assert_eq!(
        "www.bax-shop.nl.edgesuite.net".as_bytes().to_vec(),
        extract_name(&BUF, 45).unwrap()
    );
}

#[test]
fn extract_data_cnames_test() {
    // the two CNAME records of the captured response, in order
    let cnames = extract_data(&BUF).unwrap();
    assert_eq!(2, cnames.len());
    assert_eq!("www.bax-shop.nl.edgesuite.net".as_bytes().to_vec(), cnames[0]);
    assert_eq!("a1958.r.akamai.net".as_bytes().to_vec(), cnames[1]);
}

#[test]
fn extract_data_truncated_test() {
    // cutting the message inside the last record must fail, not panic
    assert_eq!(Err(CodecError::Decoding), extract_data(&BUF[0..130]));
    assert_eq!(Err(CodecError::Decoding), extract_data(&BUF[0..10]));
    assert_eq!(Err(CodecError::Decoding), extract_data(&[]));
}

#[test]
fn extract_name_out_of_bounds_test() {
    assert_eq!(Err(CodecError::Decoding), extract_name(&BUF, 137));
    assert_eq!(Err(CodecError::Decoding), extract_name(&BUF, 136));
}

#[test]
fn extract_name_pointer_cycle_test() {
    // a pointer to itself must be rejected, not loop forever
    let buf: [u8; 2] = [0xc0, 0x00];
    assert_eq!(Err(CodecError::Decoding), extract_name(&buf, 0));
}

#[test]
fn read_test() {
    assert_eq!(4, read(&BUF, 6));
    assert_eq!(0x10e8, read(&BUF, 0));
}

#[test]
fn create_request_test() {
    let req = create_request("abc.de".as_bytes(), 0x1234).unwrap();
    let expected: Vec<u8> = vec![
        0x12, 0x34, 1, 0, 0, 1, 0, 0, 0, 0, 0, 0, // header
        3, b'a', b'b', b'c', 2, b'd', b'e', 0, // length-prefixed labels
        0, 1, 0, 1, // QTYPE A, QCLASS IN
    ];
    assert_eq!(expected, req);
}

#[test]
fn create_request_roundtrip_test() {
    let req = create_request("www.bax-shop.nl".as_bytes(), 0x10e8).unwrap();
    // the question section of the captured response was built the same way
    assert_eq!(&BUF[12..29], &req[12..29]);
    assert_eq!(17, compute_url_length(&req, 12).unwrap());
    assert_eq!(
        "www.bax-shop.nl".as_bytes().to_vec(),
        extract_name(&req, 12).unwrap()
    );
}

#[test]
fn create_request_label_too_long_test() {
    let long_label = format!("{}.com", "a".repeat(64));
    assert_eq!(
        Err(CodecError::Encoding),
        create_request(long_label.as_bytes(), 1)
    );
    let ok_label = format!("{}.com", "a".repeat(63));
    assert!(create_request(ok_label.as_bytes(), 1).is_ok());
}

#[test]
fn create_request_name_too_long_test() {
    let long_name = "ab.".repeat(85);
    assert!(long_name.len() + 2 > 255);
    assert_eq!(
        Err(CodecError::Encoding),
        create_request(long_name.as_bytes(), 1)
    );
}
