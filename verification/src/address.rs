//! Textual forms of network endpoints: ports, `host:port` pairs and IPv4
//! addresses, and the form of a destination on the wire.

use vstd::prelude::*;
use crate::text::{
    bounded_decimal, decimal_text, find_first, first_index, is_digit, last_index,
    lemma_canonical_numeral, lemma_decimal_text, lemma_first_index_is, lemma_index_absent,
    lemma_last_index_is, lemma_split_first_joined, lemma_split_first_parts, push_decimal,
    read_decimal, split_first,
};

verus! {

/// Why a `host:port` string could not be split.
#[derive(Debug, Clone, Copy, PartialEq, Eq, Structural)]
pub enum AddressError {
    /// A `]` without a `[` before it.
    InvalidBracket,
    /// No colon, or nothing behind the closing bracket.
    MissingPort,
    /// The port is no decimal number below 65536.
    InvalidPort,
}

/// The port that `s` denotes: an optional `+`, then decimal digits, at least
/// one, whose value fits sixteen bits.
pub open spec fn port_of_text(s: Seq<char>) -> Option<u16> {
    let digits = if s.len() > 0 && s[0] == '+' {
        s.skip(1)
    } else {
        s
    };
    match bounded_decimal(digits, 65535) {
        Some(v) => Some(v as u16),
        None => None,
    }
}

/// Reads `chars` as a port.
pub fn parse_port(chars: &[char]) -> (port: Option<u16>)
    ensures
        port == port_of_text(chars@),
{
    let start: usize = if 0 < chars.len() && chars[0] == '+' {
        1
    } else {
        0
    };
    proof {
        if start == 0 {
            assert(chars@.subrange(0, chars@.len() as int) == chars@);
        } else {
            assert(chars@.subrange(1, chars@.len() as int) == chars@.skip(1));
        }
    }
    match read_decimal(chars, start, chars.len(), 65535) {
        Some(v) => Some(v as u16),
        None => None,
    }
}

/// `host:port`, with the port as its shortest decimal numeral.
pub open spec fn host_port_text(host: Seq<char>, port: u16) -> Seq<char> {
    host + seq![':'] + decimal_text(port as nat)
}

/// Formats `host` and `port` as `host:port`.
pub fn join_host_port(host: &str, port: u16) -> (out: String)
    ensures
        out@ == host_port_text(host@, port),
{
    let mut out = host.to_owned();
    out.push(':');
    push_decimal(&mut out, port);
    out
}

/// The host and port that `addr` names. With a `]` in it, the host stands
/// between the first `[` and the last `]`, one separator follows, and the rest
/// is the port. Without one, the last colon separates host and port.
pub open spec fn split_host_port_spec(addr: Seq<char>) -> Result<(Seq<char>, u16), AddressError> {
    match last_index(addr, ']') {
        Some(close) => match first_index(addr, '[') {
            None => Err(AddressError::InvalidBracket),
            Some(open) => if open > close {
                Err(AddressError::InvalidBracket)
            } else if close + 2 > addr.len() {
                Err(AddressError::MissingPort)
            } else {
                match port_of_text(addr.skip(close + 2)) {
                    Some(port) => Ok((addr.subrange(open + 1, close), port)),
                    None => Err(AddressError::InvalidPort),
                }
            },
        },
        None => match last_index(addr, ':') {
            None => Err(AddressError::MissingPort),
            Some(colon) => match port_of_text(addr.skip(colon + 1)) {
                Some(port) => Ok((addr.take(colon), port)),
                None => Err(AddressError::InvalidPort),
            },
        },
    }
}

/// The shortest numeral of a number below 65536 reads as that number.
pub proof fn lemma_port_round_trip(port: u16)
    ensures
        port_of_text(decimal_text(port as nat)) == Some(port),
{
    lemma_decimal_text(port as nat);
}

/// Splitting `host:port` gives back the host and the port, for every host
/// without a closing bracket.
pub proof fn lemma_split_join(host: Seq<char>, port: u16)
    requires
        forall|i: int| 0 <= i < host.len() ==> host[i] != ']',
    ensures
        split_host_port_spec(host_port_text(host, port)) == Ok::<_, AddressError>((host, port)),
{
    let digits = decimal_text(port as nat);
    let addr = host_port_text(host, port);
    lemma_decimal_text(port as nat);
    assert forall|j: int| 0 <= j < addr.len() implies addr[j] != ']' by {
        if j > host.len() {
            assert(addr[j] == digits[j - host.len() - 1]);
            assert(is_digit(digits[j - host.len() - 1]));
        }
    }
    lemma_index_absent(addr, ']');
    assert forall|j: int| host.len() < j < addr.len() implies addr[j] != ':' by {
        assert(addr[j] == digits[j - host.len() - 1]);
        assert(is_digit(digits[j - host.len() - 1]));
    }
    lemma_last_index_is(addr, ':', host.len() as int);
    assert(addr.skip(host.len() as int + 1) == digits);
    assert(addr.take(host.len() as int) == host);
}

/// Splitting `[host]:port` gives back the host and the port, for every host
/// without brackets.
pub proof fn lemma_split_bracketed(host: Seq<char>, port: u16)
    requires
        forall|i: int| 0 <= i < host.len() ==> host[i] != ']' && host[i] != '[',
    ensures
        split_host_port_spec(seq!['['] + host + seq![']', ':'] + decimal_text(port as nat))
            == Ok::<_, AddressError>((host, port)),
{
    let digits = decimal_text(port as nat);
    let addr = seq!['['] + host + seq![']', ':'] + digits;
    let close: int = host.len() as int + 1;
    lemma_decimal_text(port as nat);
    assert forall|j: int| close < j < addr.len() implies addr[j] != ']' by {
        if j > close + 1 {
            assert(addr[j] == digits[j - close - 2]);
            assert(is_digit(digits[j - close - 2]));
        }
    }
    lemma_last_index_is(addr, ']', close);
    lemma_first_index_is(addr, '[', 0);
    assert(addr.skip(close + 2) == digits);
    assert(addr.subrange(1, close) == host);
}

/// Dotted-decimal text of the four octets `a`.
pub open spec fn ipv4_text(a: Seq<u8>) -> Seq<char>
    recommends
        a.len() == 4,
{
    decimal_text(a[0] as nat) + seq!['.'] + decimal_text(a[1] as nat) + seq!['.'] + decimal_text(
        a[2] as nat,
    ) + seq!['.'] + decimal_text(a[3] as nat)
}

/// Appends the dotted-decimal text of `octets` to `out`.
pub(crate) fn push_ipv4(out: &mut String, octets: &[u8; 4])
    ensures
        final(out)@ == old(out)@ + ipv4_text(octets@),
{
    push_decimal(out, octets[0] as u16);
    out.push('.');
    push_decimal(out, octets[1] as u16);
    out.push('.');
    push_decimal(out, octets[2] as u16);
    out.push('.');
    push_decimal(out, octets[3] as u16);
    assert(out@ == old(out)@ + ipv4_text(octets@));
}

/// Dotted-decimal text of an IPv4 address.
pub fn format_ipv4(octets: &[u8; 4]) -> (out: String)
    ensures
        out@ == ipv4_text(octets@),
{
    let mut out = String::new();
    push_ipv4(&mut out, octets);
    assert(out@ == ipv4_text(octets@));
    out
}

/// A destination in the form that a SOCKS5 or Trojan request carries.
pub enum WireAddress {
    /// Four octets.
    Ipv4 { octets: Seq<u8> },
    /// The bytes of a domain name.
    Domain { name: Seq<u8> },
    /// Sixteen octets.
    Ipv6 { octets: Seq<u8> },
}

impl WireAddress {
    /// Whether the address has a wire form: the octets are four or sixteen,
    /// the name fits a length of one byte.
    pub open spec fn well_formed(self) -> bool {
        match self {
            WireAddress::Ipv4 { octets } => octets.len() == 4,
            WireAddress::Domain { name } => name.len() <= 255,
            WireAddress::Ipv6 { octets } => octets.len() == 16,
        }
    }

    /// The address type, then the address; a name behind its length.
    pub open spec fn encoded(self) -> Seq<u8> {
        match self {
            WireAddress::Ipv4 { octets } => seq![1u8] + octets,
            WireAddress::Domain { name } => seq![3u8, name.len() as u8] + name,
            WireAddress::Ipv6 { octets } => seq![4u8] + octets,
        }
    }
}

/// The two bytes of `port` in network order.
pub open spec fn port_bytes(port: u16) -> Seq<u8> {
    seq![(port / 256) as u8, (port % 256) as u8]
}

/// The octet that `s` denotes: one to three decimal digits without a needless
/// leading zero, of value below 256.
pub open spec fn octet_of_text(s: Seq<char>) -> Option<u8> {
    if s.len() <= 3 && (s.len() == 1 || s[0] != '0') {
        match bounded_decimal(s, 255) {
            Some(v) => Some(v as u8),
            None => None,
        }
    } else {
        None
    }
}

/// The four octets that the dotted-decimal text `s` denotes.
pub open spec fn ipv4_of_text(s: Seq<char>) -> Option<Seq<u8>> {
    match split_first(s, '.') {
        Some((first, rest1)) => match split_first(rest1, '.') {
            Some((second, rest2)) => match split_first(rest2, '.') {
                Some((third, fourth)) => match (
                    octet_of_text(first),
                    octet_of_text(second),
                    octet_of_text(third),
                    octet_of_text(fourth),
                ) {
                    (Some(a), Some(b), Some(c), Some(d)) => Some(seq![a, b, c, d]),
                    _ => None,
                },
                None => None,
            },
            None => None,
        },
        None => None,
    }
}

/// Reads `chars` as one octet.
pub fn parse_octet(chars: &[char]) -> (out: Option<u8>)
    ensures
        out == octet_of_text(chars@),
{
    let n = chars.len();
    if n == 0 || n > 3 || (n > 1 && chars[0] == '0') {
        return None;
    }
    assert(chars@.subrange(0, n as int) == chars@);
    match read_decimal(chars, 0, n, 255) {
        Some(v) => Some(v as u8),
        None => None,
    }
}

/// Reads `chars` as an IPv4 address in dotted decimal.
pub fn parse_ipv4(chars: &[char]) -> (out: Option<[u8; 4]>)
    ensures
        match out {
            Some(octets) => ipv4_of_text(chars@) == Some(octets@),
            None => ipv4_of_text(chars@) is None,
        },
{
    let len = chars.len();
    let dot1 = match find_first(chars, '.') {
        Some(i) => i,
        None => { return None; },
    };
    let rest1 = &chars[dot1 + 1..len];
    assert(rest1@ == chars@.skip(dot1 + 1));
    let dot2 = match find_first(rest1, '.') {
        Some(i) => i,
        None => { return None; },
    };
    let rest2 = &rest1[dot2 + 1..rest1.len()];
    assert(rest2@ == rest1@.skip(dot2 + 1));
    let dot3 = match find_first(rest2, '.') {
        Some(i) => i,
        None => { return None; },
    };
    let first = &chars[0..dot1];
    let second = &rest1[0..dot2];
    let third = &rest2[0..dot3];
    let fourth = &rest2[dot3 + 1..rest2.len()];
    assert(first@ == chars@.take(dot1 as int));
    assert(second@ == rest1@.take(dot2 as int));
    assert(third@ == rest2@.take(dot3 as int));
    assert(fourth@ == rest2@.skip(dot3 + 1));
    match (parse_octet(first), parse_octet(second), parse_octet(third), parse_octet(fourth)) {
        (Some(a), Some(b), Some(c), Some(d)) => {
            let octets: [u8; 4] = [a, b, c, d];
            assert(octets@ == seq![a, b, c, d]);
            Some(octets)
        },
        _ => None,
    }
}

/// The shortest numeral of an octet reads as that octet, and holds no dot.
pub proof fn lemma_octet_round_trip(v: u8)
    ensures
        octet_of_text(decimal_text(v as nat)) == Some(v),
        forall|i: int|
            0 <= i < decimal_text(v as nat).len() ==> decimal_text(v as nat)[i] != '.',
{
    let s = decimal_text(v as nat);
    lemma_decimal_text(v as nat);
    assert forall|i: int| 0 <= i < s.len() implies s[i] != '.' by {
        assert(is_digit(s[i]));
    }
}

/// Text that reads as an octet is the shortest numeral of that octet.
pub proof fn lemma_octet_canonical(s: Seq<char>)
    ensures
        octet_of_text(s) matches Some(v) ==> s == decimal_text(v as nat),
{
    if octet_of_text(s) is Some {
        lemma_canonical_numeral(s);
    }
}

/// The dotted-decimal text is the first numeral, a dot, and the text of the
/// three others, nested to the right.
proof fn lemma_ipv4_text_nested(a: Seq<u8>)
    ensures
        ipv4_text(a) == decimal_text(a[0] as nat) + seq!['.'] + (decimal_text(a[1] as nat) + seq![
            '.',
        ] + (decimal_text(a[2] as nat) + seq!['.'] + decimal_text(a[3] as nat))),
{
    let d0 = decimal_text(a[0] as nat);
    let d1 = decimal_text(a[1] as nat);
    let d2 = decimal_text(a[2] as nat);
    let d3 = decimal_text(a[3] as nat);
    let dot = seq!['.'];
    assert(ipv4_text(a) =~= d0 + dot + (d1 + dot + (d2 + dot + d3)));
}

/// Dotted-decimal text is made of digits and dots, seven characters at
/// least.
pub proof fn lemma_ipv4_text_chars(a: Seq<u8>)
    ensures
        ipv4_text(a).len() >= 7,
        forall|i: int|
            0 <= i < ipv4_text(a).len() ==> is_digit(#[trigger] ipv4_text(a)[i]) || ipv4_text(
                a,
            )[i] == '.',
{
    let d0 = decimal_text(a[0] as nat);
    let d1 = decimal_text(a[1] as nat);
    let d2 = decimal_text(a[2] as nat);
    let d3 = decimal_text(a[3] as nat);
    lemma_decimal_text(a[0] as nat);
    lemma_decimal_text(a[1] as nat);
    lemma_decimal_text(a[2] as nat);
    lemma_decimal_text(a[3] as nat);
    let text = ipv4_text(a);
    assert forall|i: int| 0 <= i < text.len() implies is_digit(#[trigger] text[i]) || text[i]
        == '.' by {
        let e1 = d0.len() as int;
        let e2 = e1 + 1 + d1.len();
        let e3 = e2 + 1 + d2.len();
        if i < e1 {
            assert(text[i] == d0[i]);
        } else if i == e1 {
        } else if i < e2 {
            assert(text[i] == d1[i - e1 - 1]);
        } else if i == e2 {
        } else if i < e3 {
            assert(text[i] == d2[i - e2 - 1]);
        } else if i == e3 {
        } else {
            assert(text[i] == d3[i - e3 - 1]);
        }
    }
}

/// The dotted-decimal text of four octets reads as those octets.
pub proof fn lemma_ipv4_round_trip(a: Seq<u8>)
    requires
        a.len() == 4,
    ensures
        ipv4_of_text(ipv4_text(a)) == Some(a),
{
    let d0 = decimal_text(a[0] as nat);
    let d1 = decimal_text(a[1] as nat);
    let d2 = decimal_text(a[2] as nat);
    let d3 = decimal_text(a[3] as nat);
    let dot = seq!['.'];
    let rest2 = d2 + dot + d3;
    let rest1 = d1 + dot + rest2;
    lemma_ipv4_text_nested(a);
    assert(split_first(ipv4_text(a), '.') == Some((d0, rest1))) by {
        lemma_octet_round_trip(a[0]);
        lemma_split_first_joined(d0, '.', rest1);
    }
    assert(split_first(rest1, '.') == Some((d1, rest2))) by {
        lemma_octet_round_trip(a[1]);
        lemma_split_first_joined(d1, '.', rest2);
    }
    assert(split_first(rest2, '.') == Some((d2, d3))) by {
        lemma_octet_round_trip(a[2]);
        lemma_split_first_joined(d2, '.', d3);
    }
    assert(octet_of_text(d0) == Some(a[0])) by {
        lemma_octet_round_trip(a[0]);
    }
    assert(octet_of_text(d1) == Some(a[1])) by {
        lemma_octet_round_trip(a[1]);
    }
    assert(octet_of_text(d2) == Some(a[2])) by {
        lemma_octet_round_trip(a[2]);
    }
    assert(octet_of_text(d3) == Some(a[3])) by {
        lemma_octet_round_trip(a[3]);
    }
    assert(seq![a[0], a[1], a[2], a[3]] =~= a);
}

/// Text that reads as an IPv4 address is the dotted-decimal text of the four
/// octets that it reads as.
pub proof fn lemma_ipv4_canonical(s: Seq<char>)
    ensures
        ipv4_of_text(s) matches Some(a) ==> a.len() == 4 && s == ipv4_text(a),
{
    if let Some(a) = ipv4_of_text(s) {
        let (first, rest1) = split_first(s, '.').unwrap();
        let (second, rest2) = split_first(rest1, '.').unwrap();
        let (third, fourth) = split_first(rest2, '.').unwrap();
        let dot = seq!['.'];
        assert(s == first + dot + rest1) by {
            lemma_split_first_parts(s, '.');
        }
        assert(rest1 == second + dot + rest2) by {
            lemma_split_first_parts(rest1, '.');
        }
        assert(rest2 == third + dot + fourth) by {
            lemma_split_first_parts(rest2, '.');
        }
        assert(a == seq![
            octet_of_text(first).unwrap(),
            octet_of_text(second).unwrap(),
            octet_of_text(third).unwrap(),
            octet_of_text(fourth).unwrap(),
        ]);
        assert(first == decimal_text(a[0] as nat)) by {
            lemma_octet_canonical(first);
        }
        assert(second == decimal_text(a[1] as nat)) by {
            lemma_octet_canonical(second);
        }
        assert(third == decimal_text(a[2] as nat)) by {
            lemma_octet_canonical(third);
        }
        assert(fourth == decimal_text(a[3] as nat)) by {
            lemma_octet_canonical(fourth);
        }
        lemma_ipv4_text_nested(a);
    }
}

impl AddressError {
    /// The error in words.
    pub open spec fn message_text(self) -> Seq<char> {
        match self {
            AddressError::InvalidBracket => "invalid IPv6 bracket"@,
            AddressError::MissingPort => "missing port"@,
            AddressError::InvalidPort => "invalid port"@,
        }
    }

    /// The error in words, for a log line.
    pub fn message(&self) -> (out: String)
        ensures
            out@ == self.message_text(),
    {
        match self {
            AddressError::InvalidBracket => "invalid IPv6 bracket".to_owned(),
            AddressError::MissingPort => "missing port".to_owned(),
            AddressError::InvalidPort => "invalid port".to_owned(),
        }
    }
}

} // verus!
