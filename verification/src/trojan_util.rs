//! The client side of the Trojan handshake: the request that opens a tunnel,
//! and the splitting of `host:port` targets.

use sha2::Digest;
use vstd::prelude::*;
use vstd::utf8::encode_utf8;
use crate::address::{
    host_port_text, ipv4_of_text, ipv4_text, join_host_port, lemma_ipv4_canonical,
    lemma_ipv4_round_trip, lemma_ipv4_text_chars, parse_ipv4, parse_port, port_bytes,
    split_host_port_spec, AddressError, WireAddress,
};
use crate::ipv6::{
    ipv6_of_text, ipv6_text, lemma_ipv6_round_trip, lemma_ipv6_text_has_colon, octets, octets_of,
    parse_ipv6,
};
use crate::settings::ServerInfo;
use crate::text::{chars_of, find_first, find_last, hex_digit_char, string_of};

verus! {

/// Why no Trojan request could be built.
#[derive(Debug, Clone, Copy, PartialEq, Eq, Structural)]
pub enum TrojanError {
    /// The destination is a domain name of more than 255 bytes.
    DomainTooLong,
}

/// The SHA-224 digest of `data`.
pub uninterp spec fn sha224(data: Seq<u8>) -> Seq<u8>;

/// `Digest::digest` of the crate `sha2`, for `Sha224`: the digest of `data`,
/// which is a function of the data and 28 bytes long.
#[verifier::external_body]
fn sha224_digest(data: &[u8]) -> (out: Vec<u8>)
    ensures
        out@ == sha224(data@),
        out@.len() == 28,
{
    sha2::Sha224::digest(data).to_vec()
}

/// Two lowercase hexadecimal digits for each byte of `data`, the high half
/// of the byte first.
pub open spec fn hex_lower(data: Seq<u8>) -> Seq<char> {
    Seq::new(
        2 * data.len(),
        |i: int|
            if i % 2 == 0 {
                hex_digit_char((data[i / 2] / 16) as nat)
            } else {
                hex_digit_char((data[i / 2] % 16) as nat)
            },
    )
}

/// `hex::encode` of the crate `hex`: the lowercase hexadecimal text of
/// `data`, two digits for each byte.
#[verifier::external_body]
fn hex_encode(data: &[u8]) -> (out: String)
    ensures
        out@ == hex_lower(data@),
{
    hex::encode(data)
}

/// How a Trojan request names the host `host`: as an IPv4 address where the
/// text is one in dotted decimal, else as an IPv6 address where the text is
/// one, else as a domain name, by its UTF-8 bytes.
pub open spec fn classify_host(host: Seq<char>) -> WireAddress {
    match ipv4_of_text(host) {
        Some(a) => WireAddress::Ipv4 { octets: a },
        None => match ipv6_of_text(host) {
            Some(segs) => WireAddress::Ipv6 { octets: octets_of(segs) },
            None => WireAddress::Domain { name: encode_utf8(host) },
        },
    }
}

/// The Trojan request: the credential line, the command CONNECT, the
/// destination, the port in network order, and a closing line end.
pub open spec fn trojan_frame(credential: Seq<char>, target: WireAddress, port: u16) -> Seq<u8> {
    encode_utf8(credential) + seq![13u8, 10u8] + seq![1u8] + target.encoded() + port_bytes(port)
        + seq![13u8, 10u8]
}

/// The credential line of `password`: the hexadecimal text of its SHA-224
/// digest.
pub open spec fn credential_of(password: Seq<char>) -> Seq<char> {
    hex_lower(sha224(encode_utf8(password)))
}

/// The hexadecimal text of `data` is twice as long as `data`, and each of its
/// characters is one byte in UTF-8, the character's own number.
pub proof fn lemma_hex_is_ascii(data: Seq<u8>)
    ensures
        hex_lower(data).len() == 2 * data.len(),
        encode_utf8(hex_lower(data)).len() == 2 * data.len(),
        forall|i: int|
            0 <= i < 2 * data.len() ==> encode_utf8(hex_lower(data))[i] == hex_lower(data)[i] as u8,
{
    let text = hex_lower(data);
    assert(vstd::utf8::is_ascii_chars(text));
    vstd::utf8::is_ascii_chars_encode_utf8(text);
}

/// A host in dotted decimal is sent as the four octets that it denotes.
pub proof fn lemma_classify_ipv4(a: Seq<u8>)
    requires
        a.len() == 4,
    ensures
        classify_host(ipv4_text(a)) == (WireAddress::Ipv4 { octets: a }),
{
    lemma_ipv4_round_trip(a);
}

/// A host in the canonical text of an IPv6 address is sent as the sixteen
/// octets of that address.
pub proof fn lemma_classify_ipv6(segs: Seq<u16>)
    requires
        segs.len() == 8,
    ensures
        classify_host(ipv6_text(segs)) == (WireAddress::Ipv6 { octets: octets_of(segs) }),
{
    let text = ipv6_text(segs);
    lemma_ipv6_round_trip(segs);
    lemma_ipv6_text_has_colon(segs);
    if let Some(a) = ipv4_of_text(text) {
        lemma_ipv4_canonical(text);
        lemma_ipv4_text_chars(a);
        let i = choose|i: int| 0 <= i < text.len() && text[i] == ':';
        assert(crate::text::is_digit(ipv4_text(a)[i]) || ipv4_text(a)[i] == '.');
    }
}

/// Appends `tail` to `out`.
fn push_bytes(out: &mut Vec<u8>, tail: &[u8])
    ensures
        final(out)@ == old(out)@ + tail@,
{
    let mut i: usize = 0;
    while i < tail.len()
        invariant
            i <= tail@.len(),
            out@ == old(out)@ + tail@.take(i as int),
        decreases tail@.len() - i,
    {
        out.push(tail[i]);
        i += 1;
    }
    assert(tail@.take(tail@.len() as int) == tail@);
}

/// How to reach an upstream server: the address to dial, how long to wait for
/// the connection, and the server name for the TLS handshake.
#[derive(Debug, Clone, PartialEq, Eq)]
pub struct DialPlan {
    pub address: String,
    pub server_name: String,
    pub timeout_secs: u64,
}

/// Helpers of the Trojan client.
#[derive(Clone)]
pub struct TrojanUtil {}

impl TrojanUtil {
    /// Splits `host:port`, or `[host]:port` with an IPv6 literal, into host and
    /// port.
    pub fn split_host_port(addr: &str) -> (out: Result<(String, u16), AddressError>)
        ensures
            match out {
                Ok((host, port)) => split_host_port_spec(addr@) == Ok::<_, AddressError>(
                    (host@, port),
                ),
                Err(e) => split_host_port_spec(addr@) == Err::<(Seq<char>, u16), _>(e),
            },
    {
        let chars = chars_of(addr);
        let len = chars.len();
        match find_last(chars.as_slice(), ']') {
            Some(close) => {
                match find_first(chars.as_slice(), '[') {
                    None => Err(AddressError::InvalidBracket),
                    Some(open) => {
                        if open > close {
                            Err(AddressError::InvalidBracket)
                        } else if len - close < 2 {
                            Err(AddressError::MissingPort)
                        } else {
                            let behind = &chars.as_slice()[close + 2..len];
                            assert(behind@ == chars@.skip(close + 2));
                            match parse_port(behind) {
                                Some(port) => Ok(
                                    (string_of(chars.as_slice(), open + 1, close), port),
                                ),
                                None => Err(AddressError::InvalidPort),
                            }
                        }
                    },
                }
            },
            None => {
                match find_last(chars.as_slice(), ':') {
                    None => Err(AddressError::MissingPort),
                    Some(colon) => {
                        let behind = &chars.as_slice()[colon + 1..len];
                        assert(behind@ == chars@.skip(colon + 1));
                        match parse_port(behind) {
                            Some(port) => {
                                assert(chars@.subrange(0, colon as int) == chars@.take(
                                    colon as int,
                                ));
                                Ok((string_of(chars.as_slice(), 0, colon), port))
                            },
                            None => Err(AddressError::InvalidPort),
                        }
                    },
                }
            },
        }
    }

    /// Lays out the connection to the server `conf`: its `host:port`, a wait
    /// of five seconds at most, and its server name.
    pub fn create_connection(conf: &ServerInfo) -> (plan: DialPlan)
        ensures
            plan.address@ == host_port_text(conf.host@, conf.port),
            plan.server_name@ == conf.sni@,
            plan.timeout_secs == 5,
    {
        DialPlan {
            address: join_host_port(conf.host.as_str(), conf.port),
            server_name: conf.sni.clone(),
            timeout_secs: 5,
        }
    }

    /// Builds the request that follows the credential line `credential`, for
    /// the destination `target_addr:port`.
    pub fn frame_request(credential: &str, target_addr: &str, port: u16) -> (out: Result<
        Vec<u8>,
        TrojanError,
    >)
        ensures
            match out {
                Ok(frame) => classify_host(target_addr@).well_formed() && frame@ == trojan_frame(
                    credential@,
                    classify_host(target_addr@),
                    port,
                ),
                Err(e) => e == TrojanError::DomainTooLong && !classify_host(
                    target_addr@,
                ).well_formed(),
            },
    {
        let mut req: Vec<u8> = Vec::new();
        push_bytes(&mut req, credential.as_bytes());
        req.push(13);
        req.push(10);
        req.push(1);
        let ghost prefix = encode_utf8(credential@) + seq![13u8, 10u8] + seq![1u8];
        assert(req@ == prefix);
        let chars = chars_of(target_addr);
        match parse_ipv4(chars.as_slice()) {
            Some(v4) => {
                req.push(1);
                push_bytes(&mut req, v4.as_slice());
                assert(req@ == prefix + classify_host(target_addr@).encoded());
            },
            None => match parse_ipv6(chars.as_slice()) {
                Some(segs) => {
                    let v6 = octets(&segs);
                    req.push(4);
                    push_bytes(&mut req, v6.as_slice());
                    assert(req@ == prefix + classify_host(target_addr@).encoded());
                },
                None => {
                    let name = target_addr.as_bytes();
                    if name.len() > 255 {
                        return Err(TrojanError::DomainTooLong);
                    }
                    req.push(3);
                    req.push(name.len() as u8);
                    push_bytes(&mut req, name);
                    assert(req@ == prefix + classify_host(target_addr@).encoded());
                },
            },
        }
        req.push((port / 256) as u8);
        req.push((port % 256) as u8);
        req.push(13);
        req.push(10);
        assert(req@ == trojan_frame(credential@, classify_host(target_addr@), port));
        Ok(req)
    }

    /// Builds the Trojan request for the credential `password` and the
    /// destination `target_addr:port`. The bytes are to be written to the
    /// tunnel at once; the server sends no answer to them.
    pub fn send_trojan_request(password: &str, target_addr: &str, port: u16) -> (out: Result<
        Vec<u8>,
        TrojanError,
    >)
        ensures
            match out {
                Ok(frame) => classify_host(target_addr@).well_formed() && frame@ == trojan_frame(
                    credential_of(password@),
                    classify_host(target_addr@),
                    port,
                ),
                Err(e) => e == TrojanError::DomainTooLong && !classify_host(
                    target_addr@,
                ).well_formed(),
            },
            credential_of(password@).len() == 56,
            encode_utf8(credential_of(password@)).len() == 56,
    {
        proof {
            lemma_hex_is_ascii(sha224(encode_utf8(password@)));
        }
        let digest = sha224_digest(password.as_bytes());
        let credential = hex_encode(digest.as_slice());
        TrojanUtil::frame_request(credential.as_str(), target_addr, port)
    }
}

impl TrojanError {
    /// The error in words.
    pub open spec fn message_text(self) -> Seq<char> {
        "domain too long for trojan"@
    }

    /// The error in words, for a log line.
    pub fn message(&self) -> (out: String)
        ensures
            out@ == self.message_text(),
    {
        "domain too long for trojan".to_owned()
    }
}

} // verus!
