use rsfly::error::ProtocolError;
use rsfly::socks5_helper::{handle_socks5, Socks5Outcome, Socks5State};

const METHOD_REPLY: [u8; 2] = [0x05, 0x00];
const SUCCESS_REPLY: [u8; 10] = [0x05, 0x00, 0x00, 0x01, 0, 0, 0, 0, 0, 0];

fn accepted(host: &str, port: u16, consumed: usize) -> Socks5Outcome {
    let mut written = METHOD_REPLY.to_vec();
    written.extend_from_slice(&SUCCESS_REPLY);
    Socks5Outcome { result: Ok((host.to_string(), port)), written, consumed }
}

fn refused(error: ProtocolError, written: &[u8], consumed: usize) -> Socks5Outcome {
    Socks5Outcome { result: Err(error), written: written.to_vec(), consumed }
}

#[test]
fn connect_to_ipv4() {
    let stream = [5, 1, 0, 5, 1, 0, 1, 1, 2, 3, 4, 0, 80];
    assert_eq!(handle_socks5(&stream), accepted("1.2.3.4", 80, 13));
}

#[test]
fn connect_to_ipv4_leaves_the_payload_unread() {
    let stream = [5, 2, 2, 0, 5, 1, 0, 1, 192, 168, 1, 5, 0x1f, 0x90, b'G', b'E', b'T'];
    assert_eq!(handle_socks5(&stream), accepted("192.168.1.5", 8080, 14));
}

#[test]
fn connect_to_domain() {
    let mut stream = vec![5, 1, 0, 5, 1, 0, 3, 11];
    stream.extend_from_slice(b"example.com");
    stream.extend_from_slice(&[0x01, 0xbb]);
    assert_eq!(handle_socks5(&stream), accepted("example.com", 443, 21));
}

#[test]
fn connect_to_empty_domain() {
    let stream = [5, 1, 0, 5, 1, 0, 3, 0, 0, 80];
    assert_eq!(handle_socks5(&stream), accepted("", 80, 10));
}

#[test]
fn domain_bytes_are_decoded_lossily() {
    let stream = [5, 1, 0, 5, 1, 0, 3, 3, b'a', 0xff, b'b', 0, 80];
    assert_eq!(handle_socks5(&stream), accepted("a\u{fffd}b", 80, 13));
    let utf8 = "bücher.de".as_bytes();
    let mut stream = vec![5, 1, 0, 5, 1, 0, 3, utf8.len() as u8];
    stream.extend_from_slice(utf8);
    stream.extend_from_slice(&[0, 80]);
    assert_eq!(handle_socks5(&stream), accepted("bücher.de", 80, 10 + utf8.len()));
}

#[test]
fn connect_to_ipv6() {
    let mut stream = vec![5, 1, 0, 5, 1, 0, 4];
    stream.extend_from_slice(&[0x20, 0x01, 0x0d, 0xb8, 0, 0, 0, 0, 0, 0, 0, 0, 0, 0, 0, 1]);
    stream.extend_from_slice(&[0x01, 0xbb]);
    assert_eq!(handle_socks5(&stream), accepted("[2001:db8::1]", 443, 25));
}

#[test]
fn connect_to_ipv6_loopback() {
    let mut stream = vec![5, 1, 0, 5, 1, 0, 4];
    stream.extend_from_slice(&[0, 0, 0, 0, 0, 0, 0, 0, 0, 0, 0, 0, 0, 0, 0, 1]);
    stream.extend_from_slice(&[0xff, 0xff]);
    assert_eq!(handle_socks5(&stream), accepted("[::1]", 65535, 25));
}

#[test]
fn short_or_foreign_greeting_is_malformed() {
    assert_eq!(handle_socks5(&[]), refused(ProtocolError::MalformedHandshake, &[], 0));
    assert_eq!(handle_socks5(&[5]), refused(ProtocolError::MalformedHandshake, &[], 1));
    assert_eq!(handle_socks5(&[4, 1, 0]), refused(ProtocolError::MalformedHandshake, &[], 2));
}

#[test]
fn missing_no_auth_method_is_refused() {
    assert_eq!(handle_socks5(&[5, 1, 2]), refused(ProtocolError::NoAcceptableAuth, &[], 3));
    assert_eq!(handle_socks5(&[5, 0]), refused(ProtocolError::NoAcceptableAuth, &[], 2));
    assert_eq!(handle_socks5(&[5, 2, 1, 2, 5]), refused(ProtocolError::NoAcceptableAuth, &[], 4));
}

#[test]
fn request_with_another_version_is_malformed() {
    assert_eq!(
        handle_socks5(&[5, 1, 0, 4, 1, 0, 1, 1, 2, 3, 4, 0, 80]),
        refused(ProtocolError::MalformedRequest, &METHOD_REPLY, 7)
    );
}

#[test]
fn bind_and_udp_associate_are_unsupported() {
    assert_eq!(
        handle_socks5(&[5, 1, 0, 5, 2, 0, 1, 1, 2, 3, 4, 0, 80]),
        refused(ProtocolError::UnsupportedCommand, &METHOD_REPLY, 7)
    );
    assert_eq!(
        handle_socks5(&[5, 1, 0, 5, 3, 0, 1, 1, 2, 3, 4, 0, 80]),
        refused(ProtocolError::UnsupportedCommand, &METHOD_REPLY, 7)
    );
}

#[test]
fn unknown_address_type_is_refused() {
    assert_eq!(
        handle_socks5(&[5, 1, 0, 5, 1, 0, 2, 1, 2, 3, 4, 0, 80]),
        refused(ProtocolError::UnknownAddressType, &METHOD_REPLY, 7)
    );
    assert_eq!(
        handle_socks5(&[5, 1, 0, 5, 1, 0, 0]),
        refused(ProtocolError::UnknownAddressType, &METHOD_REPLY, 7)
    );
}

#[test]
fn input_that_ends_early_is_truncated() {
    assert_eq!(handle_socks5(&[5, 3, 0]), refused(ProtocolError::Truncated, &[], 3));
    assert_eq!(handle_socks5(&[5, 1, 0, 5, 1]), refused(ProtocolError::Truncated, &METHOD_REPLY, 5));
    assert_eq!(
        handle_socks5(&[5, 1, 0, 5, 1, 0, 1, 1, 2, 3]),
        refused(ProtocolError::Truncated, &METHOD_REPLY, 10)
    );
    assert_eq!(
        handle_socks5(&[5, 1, 0, 5, 1, 0, 3]),
        refused(ProtocolError::Truncated, &METHOD_REPLY, 7)
    );
    assert_eq!(
        handle_socks5(&[5, 1, 0, 5, 1, 0, 3, 5, b'a', b'b']),
        refused(ProtocolError::Truncated, &METHOD_REPLY, 10)
    );
    assert_eq!(
        handle_socks5(&[5, 1, 0, 5, 1, 0, 4, 1, 2, 3]),
        refused(ProtocolError::Truncated, &METHOD_REPLY, 10)
    );
}

#[test]
fn the_machine_asks_for_each_read_in_turn() {
    let state = Socks5State::new();
    assert_eq!(state.wanted(), 2);
    assert!(!state.is_terminal());
    let (state, reply) = state.advance(&[5, 2]);
    assert_eq!(state, Socks5State::Methods { count: 2 });
    assert!(reply.is_empty());
    assert_eq!(state.wanted(), 2);
    let (state, reply) = state.advance(&[1, 0]);
    assert_eq!(state, Socks5State::Request);
    assert_eq!(reply, METHOD_REPLY);
    assert_eq!(state.wanted(), 4);
    let (state, reply) = state.advance(&[5, 1, 0, 3]);
    assert_eq!(state, Socks5State::DomainLength);
    assert!(reply.is_empty());
    assert_eq!(state.wanted(), 1);
    let (state, reply) = state.advance(&[2]);
    assert_eq!(state, Socks5State::DomainName { length: 2 });
    assert!(reply.is_empty());
    assert_eq!(state.wanted(), 4);
    let (state, reply) = state.advance(&[b'a', b'b', 0x12, 0x34]);
    assert_eq!(state, Socks5State::Connected { host: "ab".to_string(), port: 0x1234 });
    assert_eq!(reply, SUCCESS_REPLY);
    assert!(state.is_terminal());
    assert_eq!(state.wanted(), 0);
    let (state, reply) = state.advance(&[1, 2, 3]);
    assert_eq!(state, Socks5State::Connected { host: "ab".to_string(), port: 0x1234 });
    assert!(reply.is_empty());
}

#[test]
fn the_machine_picks_the_address_state_by_type() {
    let (state, _) = Socks5State::Request.advance(&[5, 1, 0, 1]);
    assert_eq!(state, Socks5State::Ipv4Address);
    assert_eq!(state.wanted(), 6);
    let (state, _) = Socks5State::Request.advance(&[5, 1, 9, 4]);
    assert_eq!(state, Socks5State::Ipv6Address);
    assert_eq!(state.wanted(), 18);
    let (state, reply) = Socks5State::Request.advance(&[5, 1, 0]);
    assert_eq!(state, Socks5State::Failed { error: ProtocolError::Truncated });
    assert!(reply.is_empty());
    assert!(state.is_terminal());
    let (state, _) = Socks5State::Greeting.advance(&[5, 1, 0]);
    assert_eq!(state, Socks5State::Failed { error: ProtocolError::MalformedHandshake });
}
