use rsfly::address::{
    format_ipv4, join_host_port, parse_ipv4, parse_octet, parse_port, AddressError,
};
use rsfly::ipv6::{format_ipv6, octets, parse_hex_group, parse_ipv6, segments};
use rsfly::text::{chars_of, find_first, find_last, same_text};
use rsfly::trojan_util::TrojanUtil;

fn chars(s: &str) -> Vec<char> {
    s.chars().collect()
}

#[test]
fn split_bracketed_ipv6() {
    assert_eq!(
        TrojanUtil::split_host_port("[2001:db8::1]:443"),
        Ok(("2001:db8::1".to_string(), 443))
    );
}

#[test]
fn split_plain_host() {
    assert_eq!(
        TrojanUtil::split_host_port("example.com:8080"),
        Ok(("example.com".to_string(), 8080))
    );
}

#[test]
fn split_uses_the_last_colon() {
    assert_eq!(
        TrojanUtil::split_host_port("2001:db8::1:443"),
        Ok(("2001:db8::1".to_string(), 443))
    );
    assert_eq!(TrojanUtil::split_host_port(":80"), Ok((String::new(), 80)));
}

#[test]
fn split_reports_each_error() {
    assert_eq!(TrojanUtil::split_host_port("example.com"), Err(AddressError::MissingPort));
    assert_eq!(TrojanUtil::split_host_port(""), Err(AddressError::MissingPort));
    assert_eq!(TrojanUtil::split_host_port("::1]:443"), Err(AddressError::InvalidBracket));
    assert_eq!(TrojanUtil::split_host_port("]x[:443"), Err(AddressError::InvalidBracket));
    assert_eq!(TrojanUtil::split_host_port("[::1]"), Err(AddressError::MissingPort));
    assert_eq!(TrojanUtil::split_host_port("[::1]:"), Err(AddressError::InvalidPort));
    assert_eq!(TrojanUtil::split_host_port("example.com:"), Err(AddressError::InvalidPort));
    assert_eq!(TrojanUtil::split_host_port("example.com:http"), Err(AddressError::InvalidPort));
    assert_eq!(TrojanUtil::split_host_port("example.com:65536"), Err(AddressError::InvalidPort));
    assert_eq!(TrojanUtil::split_host_port("example.com:-1"), Err(AddressError::InvalidPort));
    assert_eq!(TrojanUtil::split_host_port("example.com: 80"), Err(AddressError::InvalidPort));
}

#[test]
fn split_skips_one_separator_behind_the_bracket() {
    assert_eq!(TrojanUtil::split_host_port("[::1]x443"), Ok(("::1".to_string(), 443)));
    assert_eq!(TrojanUtil::split_host_port("a[b]:1"), Ok(("b".to_string(), 1)));
}

#[test]
fn ports_are_read_like_unsigned_integers() {
    assert_eq!(parse_port(&chars("0")), Some(0));
    assert_eq!(parse_port(&chars("65535")), Some(65535));
    assert_eq!(parse_port(&chars("65536")), None);
    assert_eq!(parse_port(&chars("+443")), Some(443));
    assert_eq!(parse_port(&chars("000080")), Some(80));
    assert_eq!(parse_port(&chars("00000000000000000000080")), Some(80));
    assert_eq!(parse_port(&chars("99999999999999999999")), None);
    assert_eq!(parse_port(&chars("+")), None);
    assert_eq!(parse_port(&chars("")), None);
    assert_eq!(parse_port(&chars("++1")), None);
    assert_eq!(parse_port(&chars("8 0")), None);
    for text in ["0", "7", "+7", "080", "65535", "65536", "70000", "", "+", "-1", "1_0", "١"] {
        assert_eq!(parse_port(&chars(text)), text.parse::<u16>().ok(), "{text:?}");
    }
}

#[test]
fn join_then_split_gives_the_parts_back() {
    for (host, port) in [("example.com", 8080u16), ("10.0.0.1", 0), ("a:b", 65535), ("", 1)] {
        let joined = join_host_port(host, port);
        assert_eq!(joined, format!("{host}:{port}"));
        assert_eq!(TrojanUtil::split_host_port(&joined), Ok((host.to_string(), port)));
    }
}

#[test]
fn ipv4_text_is_dotted_decimal() {
    assert_eq!(format_ipv4(&[1, 2, 3, 4]), "1.2.3.4");
    assert_eq!(format_ipv4(&[0, 0, 0, 0]), "0.0.0.0");
    assert_eq!(format_ipv4(&[255, 255, 255, 255]), "255.255.255.255");
    assert_eq!(format_ipv4(&[192, 168, 10, 100]), "192.168.10.100");
}

#[test]
fn ipv4_text_is_read_back() {
    assert_eq!(parse_ipv4(&chars("1.2.3.4")), Some([1, 2, 3, 4]));
    assert_eq!(parse_ipv4(&chars("255.255.255.255")), Some([255, 255, 255, 255]));
    assert_eq!(parse_ipv4(&chars("0.0.0.0")), Some([0, 0, 0, 0]));
    for text in [
        "", "1.2.3", "1.2.3.4.5", "1.2.3.", ".1.2.3", "1..2.3", "256.1.1.1", "01.2.3.4", "1.2.3.04",
        "00.0.0.0", "1.2.3.4 ", " 1.2.3.4", "1.2.3.a", "1.2.3.-4", "+1.2.3.4", "1.2.3.1000",
        "example.com",
    ] {
        assert_eq!(parse_ipv4(&chars(text)), None, "{text:?}");
    }
    assert_eq!(parse_octet(&chars("0")), Some(0));
    assert_eq!(parse_octet(&chars("255")), Some(255));
    assert_eq!(parse_octet(&chars("256")), None);
    assert_eq!(parse_octet(&chars("00")), None);
}

fn v6(segs: [u16; 8]) -> String {
    format_ipv6(&octets(&segs))
}

#[test]
fn ipv6_text_is_canonical() {
    assert_eq!(v6([0, 0, 0, 0, 0, 0, 0, 0]), "::");
    assert_eq!(v6([0, 0, 0, 0, 0, 0, 0, 1]), "::1");
    assert_eq!(v6([0x2001, 0xdb8, 0, 0, 0, 0, 0, 1]), "2001:db8::1");
    assert_eq!(v6([1, 0, 0, 0, 0, 0, 0, 0]), "1::");
    assert_eq!(v6([1, 2, 3, 4, 5, 6, 7, 8]), "1:2:3:4:5:6:7:8");
    assert_eq!(v6([1, 0, 3, 4, 5, 6, 7, 8]), "1:0:3:4:5:6:7:8");
    assert_eq!(v6([1, 0, 0, 2, 0, 0, 0, 3]), "1:0:0:2::3");
    assert_eq!(v6([1, 0, 0, 2, 0, 0, 3, 4]), "1::2:0:0:3:4");
    assert_eq!(v6([0, 0, 1, 0, 0, 0, 0, 0]), "0:0:1::");
    assert_eq!(v6([0xfe80, 0, 0, 0, 0xabcd, 0xef01, 0x10, 0xffff]), "fe80::abcd:ef01:10:ffff");
    assert_eq!(v6([0, 0, 0, 0, 0, 0xffff, 0x0102, 0x0304]), "::ffff:1.2.3.4");
    assert_eq!(v6([0, 0, 0, 0, 0, 0, 0x0102, 0x0304]), "::102:304");
    assert_eq!(v6([0, 0, 0, 0, 0, 0xffff, 0, 0]), "::ffff:0.0.0.0");
}

#[test]
fn ipv6_text_is_read() {
    assert_eq!(parse_ipv6(&chars("::")), Some([0; 8]));
    assert_eq!(parse_ipv6(&chars("::1")), Some([0, 0, 0, 0, 0, 0, 0, 1]));
    assert_eq!(parse_ipv6(&chars("1::")), Some([1, 0, 0, 0, 0, 0, 0, 0]));
    assert_eq!(parse_ipv6(&chars("2001:db8::1")), Some([0x2001, 0xdb8, 0, 0, 0, 0, 0, 1]));
    assert_eq!(parse_ipv6(&chars("2001:DB8::1")), Some([0x2001, 0xdb8, 0, 0, 0, 0, 0, 1]));
    assert_eq!(parse_ipv6(&chars("1:2:3:4:5:6:7:8")), Some([1, 2, 3, 4, 5, 6, 7, 8]));
    assert_eq!(parse_ipv6(&chars("1:2:3:4:5:6:7::")), Some([1, 2, 3, 4, 5, 6, 7, 0]));
    assert_eq!(parse_ipv6(&chars("::2:3:4:5:6:7:8")), Some([0, 2, 3, 4, 5, 6, 7, 8]));
    assert_eq!(parse_ipv6(&chars("0001:0002::")), Some([1, 2, 0, 0, 0, 0, 0, 0]));
    assert_eq!(
        parse_ipv6(&chars("::ffff:1.2.3.4")),
        Some([0, 0, 0, 0, 0, 0xffff, 0x0102, 0x0304])
    );
    assert_eq!(parse_ipv6(&chars("::1.2.3.4")), Some([0, 0, 0, 0, 0, 0, 0x0102, 0x0304]));
    assert_eq!(
        parse_ipv6(&chars("1:2:3:4:5:6:1.2.3.4")),
        Some([1, 2, 3, 4, 5, 6, 0x0102, 0x0304])
    );
    assert_eq!(parse_ipv6(&chars("64:ff9b::192.0.2.33")), Some([0x64, 0xff9b, 0, 0, 0, 0, 0xc000, 0x0221]));
    for text in [
        "", ":", ":::", "1", "1:2:3:4:5:6:7", "1:2:3:4:5:6:7:8:9", "1:2:3:4:5:6:7:8::", "::1:2:3:4:5:6:7:8",
        "1::2::3", "12345::", "g::", "1:2:3:4:5:6:7:1.2.3.4", "1.2.3.4", "1.2.3.4::", "::1.2.3.4:5",
        "::1.2.3", "::01.2.3.4", "[::1]", "::1%eth0", " ::1", "::1 ", "1:::2", "1:2:", ":1:2::",
        "::1:2:3:4:5:6:1.2.3.4", "example.com", "::-1",
    ] {
        assert_eq!(parse_ipv6(&chars(text)), None, "{text:?}");
    }
    assert_eq!(parse_hex_group(&chars("ffff")), Some(0xffff));
    assert_eq!(parse_hex_group(&chars("AbCd")), Some(0xabcd));
    assert_eq!(parse_hex_group(&chars("0")), Some(0));
    assert_eq!(parse_hex_group(&chars("00000")), None);
    assert_eq!(parse_hex_group(&chars("")), None);
}

#[test]
fn ipv6_text_with_embedded_ipv4_is_read() {
    assert_eq!(parse_ipv6(&chars("1:2:3:4:5::1.2.3.4")), Some([1, 2, 3, 4, 5, 0, 0x0102, 0x0304]));
    assert_eq!(parse_ipv6(&chars("1:2:3:4:5:6::1.2.3.4")), None);
    assert_eq!(parse_ipv6(&chars("1::1.2.3.256")), None);
    assert_eq!(parse_ipv6(&chars("::ffff:1.2.3.4.5")), None);
    assert_eq!(parse_ipv6(&chars("1:2::3:4:")), None);
    assert_eq!(parse_ipv6(&chars("0:0:0:0:0:0:0:0")), Some([0; 8]));
    assert_eq!(parse_ipv6(&chars("00:0::")), Some([0; 8]));
    assert_eq!(parse_ipv6(&chars("::00001")), None);
    assert_eq!(parse_ipv6(&chars("a:b:c:d:e:f:0:1")), Some([10, 11, 12, 13, 14, 15, 0, 1]));
    assert_eq!(parse_ipv6(&chars("A:B:C:D:E:F:0:1")), Some([10, 11, 12, 13, 14, 15, 0, 1]));
}

#[test]
fn ipv6_text_round_trips() {
    for segs in [
        [0u16; 8],
        [0, 0, 0, 0, 0, 0, 0, 1],
        [0x2001, 0xdb8, 0, 0, 0, 0, 0, 1],
        [1, 0, 0, 2, 0, 0, 0, 3],
        [1, 0, 0, 2, 0, 0, 3, 4],
        [0, 0, 0, 0, 0, 0xffff, 0x7f00, 1],
        [0xffff; 8],
        [0, 1, 0, 1, 0, 1, 0, 1],
    ] {
        let text = v6(segs);
        assert_eq!(parse_ipv6(&chars(&text)), Some(segs), "{text}");
    }
}

#[test]
fn groups_and_octets_are_inverse() {
    let bytes = [0x20, 0x01, 0x0d, 0xb8, 0, 0, 0, 0, 0, 0, 0, 0, 0xff, 0xfe, 0, 1];
    assert_eq!(segments(&bytes), [0x2001, 0xdb8, 0, 0, 0, 0, 0xfffe, 1]);
    assert_eq!(octets(&segments(&bytes)), bytes);
}

#[test]
fn octets_are_in_network_order() {
    assert_eq!(
        octets(&[0x2001, 0xdb8, 0, 0, 0, 0, 0, 1]),
        [0x20, 0x01, 0x0d, 0xb8, 0, 0, 0, 0, 0, 0, 0, 0, 0, 0, 0, 1]
    );
}

#[test]
fn text_helpers_agree_with_strings() {
    assert_eq!(chars_of("héllo"), chars("héllo"));
    assert_eq!(find_first(&chars("a.b.c"), '.'), Some(1));
    assert_eq!(find_last(&chars("a.b.c"), '.'), Some(3));
    assert_eq!(find_first(&chars("abc"), '.'), None);
    assert_eq!(find_last(&chars(""), '.'), None);
    assert!(same_text("trojan", "trojan"));
    assert!(!same_text("trojan", "Trojan"));
    assert!(!same_text("trojan", "trojans"));
}
