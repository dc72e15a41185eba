use rsfly::settings::ServerInfo;
use rsfly::trojan_util::{DialPlan, TrojanError, TrojanUtil};

const TEST_DIGEST: &str = "90a3ed9e32b2aaf4c61c410eb925426119e1a9dc53d4286ade99a809";

#[test]
fn request_for_ipv4_destination() {
    let frame = TrojanUtil::send_trojan_request("test", "1.2.3.4", 80).unwrap();
    let mut expected = TEST_DIGEST.as_bytes().to_vec();
    expected.extend_from_slice(b"\r\n");
    expected.extend_from_slice(&[0x01, 0x01, 0x01, 0x02, 0x03, 0x04, 0x00, 0x50]);
    expected.extend_from_slice(b"\r\n");
    assert_eq!(frame, expected);
    assert_eq!(frame.len(), 56 + 2 + 8 + 2);
}

#[test]
fn digest_is_56_hex_characters() {
    let frame = TrojanUtil::send_trojan_request("test", "a", 1).unwrap();
    assert_eq!(&frame[..56], TEST_DIGEST.as_bytes());
    assert_eq!(&frame[56..58], b"\r\n");
    let empty = TrojanUtil::send_trojan_request("", "a", 1).unwrap();
    assert_eq!(
        &empty[..56],
        "d14a028c2a3a2bc9476102bb288234c415a2b01f828ea62ac5b3e42f".as_bytes()
    );
}

#[test]
fn request_for_domain_destination() {
    let frame = TrojanUtil::send_trojan_request("test", "example.com", 443).unwrap();
    let mut expected = TEST_DIGEST.as_bytes().to_vec();
    expected.extend_from_slice(b"\r\n\x01\x03\x0bexample.com\x01\xbb\r\n");
    assert_eq!(frame, expected);
}

#[test]
fn request_for_ipv6_destination() {
    let frame = TrojanUtil::send_trojan_request("test", "2001:db8::1", 443).unwrap();
    let mut expected = TEST_DIGEST.as_bytes().to_vec();
    expected.extend_from_slice(b"\r\n\x01\x04");
    expected.extend_from_slice(&[0x20, 0x01, 0x0d, 0xb8, 0, 0, 0, 0, 0, 0, 0, 0, 0, 0, 0, 1]);
    expected.extend_from_slice(b"\x01\xbb\r\n");
    assert_eq!(frame, expected);
}

#[test]
fn bracketed_ipv6_is_sent_as_a_name() {
    let frame = TrojanUtil::send_trojan_request("test", "[::1]", 443).unwrap();
    assert_eq!(&frame[58..], b"\x01\x03\x05[::1]\x01\xbb\r\n");
}

#[test]
fn name_length_counts_bytes() {
    let frame = TrojanUtil::send_trojan_request("test", "bücher.de", 80).unwrap();
    let mut expected = vec![0x01, 0x03, 10];
    expected.extend_from_slice("bücher.de".as_bytes());
    expected.extend_from_slice(b"\x00\x50\r\n");
    assert_eq!(&frame[58..], &expected[..]);
}

#[test]
fn long_names_are_refused() {
    let fits = "a".repeat(255);
    let frame = TrojanUtil::send_trojan_request("test", &fits, 80).unwrap();
    assert_eq!(frame.len(), 58 + 3 + 255 + 4);
    assert_eq!(frame[60], 255);
    let too_long = "a".repeat(256);
    assert_eq!(
        TrojanUtil::send_trojan_request("test", &too_long, 80),
        Err(TrojanError::DomainTooLong)
    );
    let wide = "ü".repeat(128);
    assert_eq!(TrojanUtil::send_trojan_request("test", &wide, 80), Err(TrojanError::DomainTooLong));
}

#[test]
fn request_behind_a_given_credential_line() {
    let frame = TrojanUtil::frame_request("cafe", "10.0.0.1", 0x1234).unwrap();
    assert_eq!(frame, b"cafe\r\n\x01\x01\x0a\x00\x00\x01\x12\x34\r\n");
    let frame = TrojanUtil::frame_request("", "", 0).unwrap();
    assert_eq!(frame, b"\r\n\x01\x03\x00\x00\x00\r\n");
    assert_eq!(
        TrojanUtil::frame_request("cafe", &"x".repeat(300), 1),
        Err(TrojanError::DomainTooLong)
    );
}

#[test]
fn dial_plan_names_the_server() {
    let server = ServerInfo {
        scheme: "trojan".to_string(),
        port: 443,
        query: String::new(),
        host: "node1.example.net".to_string(),
        name: "node 1".to_string(),
        key: "secret".to_string(),
        sni: "cdn.example.net".to_string(),
        index: 1,
    };
    assert_eq!(
        TrojanUtil::create_connection(&server),
        DialPlan {
            address: "node1.example.net:443".to_string(),
            server_name: "cdn.example.net".to_string(),
            timeout_secs: 5,
        }
    );
}
