//! The textual forms of IPv6 addresses: writing the canonical one, reading
//! all of them.

use vstd::prelude::*;
use crate::address::{
    ipv4_of_text, ipv4_text, lemma_ipv4_round_trip, lemma_ipv4_text_chars, parse_ipv4, push_ipv4,
};
use crate::text::{
    digit_of, digit_value, find_first, first_index, hex_digit_char, hex_text,
    is_digit, lemma_index_absent, lemma_split_first_joined, push_hex,
};

verus! {

/// The eight 16-bit groups of the sixteen octets `octets`, each read in
/// network order.
pub open spec fn segments_of(octets: Seq<u8>) -> Seq<u16>
    recommends
        octets.len() == 16,
{
    Seq::new(8, |i: int| (octets[2 * i] as int * 256 + octets[2 * i + 1] as int) as u16)
}

/// Length of the run of zero groups that starts at `from`.
pub open spec fn zero_run(segs: Seq<u16>, from: int) -> nat
    decreases segs.len() - from,
{
    if 0 <= from < segs.len() && segs[from] == 0 {
        1 + zero_run(segs, from + 1)
    } else {
        0
    }
}

/// Start and length of the longest run of zero groups at or after `from`,
/// the leftmost of them where several are longest; length 0 where no group
/// is zero.
pub open spec fn longest_zero_run(segs: Seq<u16>, from: int) -> (int, nat)
    decreases segs.len() - from,
{
    if from < 0 || from >= segs.len() {
        (0, 0)
    } else {
        let rest = longest_zero_run(segs, from + 1);
        let here = zero_run(segs, from);
        if here > 0 && here >= rest.1 {
            (from, here)
        } else {
            rest
        }
    }
}

/// No run at or after `from` is longer than the longest, the longest starts
/// where `longest_zero_run` says, and every run that starts before it and at
/// or after `from` is shorter.
pub proof fn lemma_longest_zero_run(segs: Seq<u16>, from: int)
    requires
        0 <= from,
    ensures
        forall|i: int| from <= i ==> zero_run(segs, i) <= longest_zero_run(segs, from).1,
        longest_zero_run(segs, from).1 > 0 ==> {
            let (start, len) = longest_zero_run(segs, from);
            &&& from <= start < segs.len()
            &&& zero_run(segs, start) == len
            &&& forall|i: int| from <= i < start ==> zero_run(segs, i) < len
        },
    decreases segs.len() - from,
{
    if from < segs.len() {
        lemma_longest_zero_run(segs, from + 1);
    }
}

/// The hexadecimal numerals of `segs`, joined by colons.
pub open spec fn hex_groups(segs: Seq<u16>) -> Seq<char>
    decreases segs.len(),
{
    if segs.len() == 0 {
        Seq::empty()
    } else if segs.len() == 1 {
        hex_text(segs[0] as nat)
    } else {
        hex_groups(segs.drop_last()) + seq![':'] + hex_text(segs.last() as nat)
    }
}

/// Whether `segs` is an IPv4 address mapped into IPv6: five zero groups, then
/// `ffff`.
pub open spec fn is_ipv4_mapped(segs: Seq<u16>) -> bool {
    segs[0] == 0 && segs[1] == 0 && segs[2] == 0 && segs[3] == 0 && segs[4] == 0 && segs[5]
        == 0xffff
}

/// Canonical text of the IPv6 address with groups `segs`: lowercase
/// hexadecimal groups without leading zeros, the leftmost longest run of two
/// or more zero groups written as `::`, and a mapped IPv4 address in dotted
/// decimal behind `::ffff:`.
pub open spec fn ipv6_text(segs: Seq<u16>) -> Seq<char>
    recommends
        segs.len() == 8,
{
    if is_ipv4_mapped(segs) {
        seq![':', ':', 'f', 'f', 'f', 'f', ':'] + ipv4_text(
            seq![
                (segs[6] / 256) as u8,
                (segs[6] % 256) as u8,
                (segs[7] / 256) as u8,
                (segs[7] % 256) as u8,
            ],
        )
    } else {
        let (start, len) = longest_zero_run(segs, 0);
        if len > 1 {
            hex_groups(segs.take(start)) + seq![':', ':'] + hex_groups(segs.skip(start + len))
        } else {
            hex_groups(segs)
        }
    }
}

/// Appends the numerals of `segs[from..to]`, joined by colons, to `out`.
fn push_groups(out: &mut String, segs: &[u16; 8], from: usize, to: usize)
    requires
        from <= to <= 8,
    ensures
        final(out)@ == old(out)@ + hex_groups(segs@.subrange(from as int, to as int)),
{
    let mut i: usize = from;
    assert(segs@.subrange(from as int, from as int) == Seq::<u16>::empty());
    while i < to
        invariant
            from <= i <= to <= 8,
            out@ == old(out)@ + hex_groups(segs@.subrange(from as int, i as int)),
        decreases to - i,
    {
        let ghost before = segs@.subrange(from as int, i as int);
        let ghost after = segs@.subrange(from as int, i + 1);
        assert(after.drop_last() == before);
        if i > from {
            out.push(':');
        }
        push_hex(out, segs[i]);
        assert(out@ == old(out)@ + hex_groups(after));
        i += 1;
    }
}

/// Start and length of the leftmost longest run of zero groups.
fn find_zero_run(segs: &[u16; 8]) -> (run: (usize, usize))
    ensures
        (run.0 as int, run.1 as nat) == longest_zero_run(segs@, 0),
        run.0 + run.1 <= 8,
{
    let mut best: (usize, usize) = (0, 0);
    let mut here: usize = 0;
    let mut i: usize = 8;
    while i > 0
        invariant
            i <= 8,
            here as nat == zero_run(segs@, i as int),
            (best.0 as int, best.1 as nat) == longest_zero_run(segs@, i as int),
            i + here <= 8,
            best.0 + best.1 <= 8,
        decreases i,
    {
        i -= 1;
        if segs[i] == 0 {
            here += 1;
        } else {
            here = 0;
        }
        if here > 0 && here >= best.1 {
            best = (i, here);
        }
    }
    best
}

/// The groups of an IPv6 address given by its sixteen octets.
pub fn segments(octets: &[u8; 16]) -> (segs: [u16; 8])
    ensures
        segs@ == segments_of(octets@),
{
    let mut segs = [0u16; 8];
    let mut i: usize = 0;
    while i < 8
        invariant
            i <= 8,
            forall|j: int| 0 <= j < i ==> segs@[j] == segments_of(octets@)[j],
        decreases 8 - i,
    {
        let hi: u16 = octets[2 * i] as u16;
        let lo: u16 = octets[2 * i + 1] as u16;
        segs[i] = hi * 256 + lo;
        i += 1;
    }
    assert(segs@ =~= segments_of(octets@));
    segs
}

/// Canonical text of an IPv6 address.
pub fn format_ipv6(octets: &[u8; 16]) -> (out: String)
    ensures
        out@ == ipv6_text(segments_of(octets@)),
{
    let segs = segments(octets);
    let mut out = String::new();
    if segs[0] == 0 && segs[1] == 0 && segs[2] == 0 && segs[3] == 0 && segs[4] == 0 && segs[5]
        == 0xffff {
        out.push(':');
        out.push(':');
        out.push('f');
        out.push('f');
        out.push('f');
        out.push('f');
        out.push(':');
        let quad: [u8; 4] = [
            (segs[6] / 256) as u8,
            (segs[6] % 256) as u8,
            (segs[7] / 256) as u8,
            (segs[7] % 256) as u8,
        ];
        push_ipv4(&mut out, &quad);
        assert(quad@ == seq![
            (segs[6] / 256) as u8,
            (segs[6] % 256) as u8,
            (segs[7] / 256) as u8,
            (segs[7] % 256) as u8,
        ]);
        assert(out@ == ipv6_text(segs@));
    } else {
        let (start, len) = find_zero_run(&segs);
        if len > 1 {
            push_groups(&mut out, &segs, 0, start);
            out.push(':');
            out.push(':');
            push_groups(&mut out, &segs, start + len, 8);
            assert(segs@.subrange(0, start as int) == segs@.take(start as int));
            assert(segs@.subrange(start + len, 8) == segs@.skip(start + len));
            assert(out@ == ipv6_text(segs@));
        } else {
            push_groups(&mut out, &segs, 0, 8);
            assert(segs@.subrange(0, 8) == segs@);
            assert(out@ == ipv6_text(segs@));
        }
    }
    out
}

/// Whether `c` is a hexadecimal digit, of either case.
pub open spec fn is_hex_digit(c: char) -> bool {
    is_digit(c) || ('a' <= c && c <= 'f') || ('A' <= c && c <= 'F')
}

/// The value of the hexadecimal digit `c`.
pub open spec fn hex_digit_value(c: char) -> nat {
    if is_digit(c) {
        digit_value(c)
    } else if 'a' <= c && c <= 'f' {
        (c as u32 - 'a' as u32 + 10) as nat
    } else if 'A' <= c && c <= 'F' {
        (c as u32 - 'A' as u32 + 10) as nat
    } else {
        0
    }
}

/// Whether every character of `s` is a hexadecimal digit.
pub open spec fn all_hex_digits(s: Seq<char>) -> bool {
    forall|i: int| 0 <= i < s.len() ==> is_hex_digit(#[trigger] s[i])
}

/// The number that the digits of `s` denote in base sixteen; 0 for no digits.
pub open spec fn hex_value(s: Seq<char>) -> nat
    decreases s.len(),
{
    if s.len() == 0 {
        0
    } else {
        hex_value(s.drop_last()) * 16 + hex_digit_value(s.last())
    }
}

/// The group that `s` denotes: one to four hexadecimal digits.
pub open spec fn hex_group_of_text(s: Seq<char>) -> Option<u16> {
    if 1 <= s.len() <= 4 && all_hex_digits(s) {
        Some(hex_value(s) as u16)
    } else {
        None
    }
}

/// The two groups that hold the four octets `a`.
pub open spec fn quad_groups(a: Seq<u8>) -> Seq<u16> {
    seq![(a[0] as int * 256 + a[1] as int) as u16, (a[2] as int * 256 + a[3] as int) as u16]
}

/// The groups that the colon-separated fields of `s` denote. Each field is a
/// hexadecimal group; where `allow_quad` holds, the last may instead be an
/// IPv4 address in dotted decimal, which stands for two groups.
pub open spec fn group_list(s: Seq<char>, allow_quad: bool) -> Option<Seq<u16>>
    decreases s.len(),
{
    match first_index(s, ':') {
        None => match hex_group_of_text(s) {
            Some(g) => Some(seq![g]),
            None => if allow_quad {
                match ipv4_of_text(s) {
                    Some(a) => Some(quad_groups(a)),
                    None => None,
                }
            } else {
                None
            },
        },
        Some(i) => if 0 <= i < s.len() {
            match (hex_group_of_text(s.take(i)), group_list(s.skip(i + 1), allow_quad)) {
                (Some(g), Some(rest)) => Some(seq![g] + rest),
                _ => None,
            }
        } else {
            None
        },
    }
}

/// As `group_list`, with no groups for the empty text.
pub open spec fn groups_of_text(s: Seq<char>, allow_quad: bool) -> Option<Seq<u16>> {
    if s.len() == 0 {
        Some(Seq::empty())
    } else {
        group_list(s, allow_quad)
    }
}

/// Index of the first pair of adjacent colons in `s`.
pub open spec fn double_colon(s: Seq<char>) -> Option<int>
    decreases s.len(),
{
    if s.len() < 2 {
        None
    } else if s[0] == ':' && s[1] == ':' {
        Some(0)
    } else {
        match double_colon(s.drop_first()) {
            Some(i) => Some(i + 1),
            None => None,
        }
    }
}

/// `n` zero groups.
pub open spec fn zero_groups(n: int) -> Seq<u16> {
    Seq::new(n as nat, |i: int| 0u16)
}

/// The eight groups that the text `s` denotes. Without `::` the text is eight
/// groups, the last two of which may be written as an IPv4 address. With
/// `::`, hexadecimal groups stand before the first `::` and groups after it,
/// seven at most together, and zero groups fill the gap.
pub open spec fn ipv6_of_text(s: Seq<char>) -> Option<Seq<u16>> {
    match double_colon(s) {
        None => match group_list(s, true) {
            Some(groups) => if groups.len() == 8 {
                Some(groups)
            } else {
                None
            },
            None => None,
        },
        Some(i) => match (groups_of_text(s.take(i), false), groups_of_text(s.skip(i + 2), true)) {
            (Some(head), Some(tail)) => if head.len() + tail.len() <= 7 {
                Some(head + zero_groups(8 - head.len() - tail.len()) + tail)
            } else {
                None
            },
            _ => None,
        },
    }
}

/// The sixteen octets of eight groups, each group in network order.
pub open spec fn octets_of(segs: Seq<u16>) -> Seq<u8> {
    Seq::new(16, |i: int| if i % 2 == 0 {
        (segs[i / 2] / 256) as u8
    } else {
        (segs[i / 2] % 256) as u8
    })
}

/// `double_colon` is the least position of two adjacent colons.
pub proof fn lemma_double_colon(s: Seq<char>)
    ensures
        match double_colon(s) {
            Some(i) => 0 <= i && i + 1 < s.len() && s[i] == ':' && s[i + 1] == ':' && forall|j: int|
                0 <= j < i ==> !(s[j] == ':' && #[trigger] s[j + 1] == ':'),
            None => forall|j: int| 0 <= j && j + 1 < s.len() ==> !(s[j] == ':' && #[trigger] s[j + 1] == ':'),
        },
    decreases s.len(),
{
    if s.len() >= 2 && !(s[0] == ':' && s[1] == ':') {
        let rest = s.drop_first();
        lemma_double_colon(rest);
        match double_colon(rest) {
            Some(i) => {
                assert(s[i + 1] == rest[i] && s[i + 2] == rest[i + 1]);
                assert forall|j: int| 0 <= j < i + 1 implies !(s[j] == ':' && #[trigger] s[j + 1]
                    == ':') by {
                    if j > 0 {
                        assert(s[j] == rest[j - 1] && s[j + 1] == rest[j - 1 + 1]);
                    }
                }
            },
            None => {
                assert forall|j: int| 0 <= j && j + 1 < s.len() implies !(s[j] == ':'
                    && #[trigger] s[j + 1] == ':') by {
                    if j > 0 {
                        assert(s[j] == rest[j - 1] && s[j + 1] == rest[j - 1 + 1]);
                    }
                }
            },
        }
    }
}

/// Exec test for a hexadecimal digit, with its value.
pub fn hex_digit_of(c: char) -> (d: Option<u8>)
    ensures
        d is Some <==> is_hex_digit(c),
        d matches Some(v) ==> v as nat == hex_digit_value(c) && v < 16,
{
    if 'a' <= c && c <= 'f' {
        let v: u32 = c as u32 - 'a' as u32 + 10;
        Some(v as u8)
    } else if 'A' <= c && c <= 'F' {
        let v: u32 = c as u32 - 'A' as u32 + 10;
        Some(v as u8)
    } else {
        digit_of(c)
    }
}

/// Reads `chars` as one hexadecimal group.
pub fn parse_hex_group(chars: &[char]) -> (out: Option<u16>)
    ensures
        out == hex_group_of_text(chars@),
{
    let n = chars.len();
    if n == 0 || n > 4 {
        return None;
    }
    let mut acc: u16 = 0;
    let mut i: usize = 0;
    while i < n
        invariant
            i <= n <= 4,
            n == chars@.len(),
            acc as nat == hex_value(chars@.take(i as int)),
            all_hex_digits(chars@.take(i as int)),
            i == 0 ==> acc == 0,
            i == 1 ==> acc < 16,
            i == 2 ==> acc < 256,
            i == 3 ==> acc < 4096,
        decreases n - i,
    {
        let ghost prefix = chars@.take(i + 1);
        assert(prefix.drop_last() == chars@.take(i as int));
        assert(prefix.last() == chars@[i as int]);
        match hex_digit_of(chars[i]) {
            None => {
                assert(!is_hex_digit(chars@[i as int]));
                return None;
            },
            Some(d) => {
                acc = acc * 16 + d as u16;
                assert forall|j: int| 0 <= j < prefix.len() implies is_hex_digit(
                    #[trigger] prefix[j],
                ) by {
                    if j < i {
                        assert(prefix[j] == chars@.take(i as int)[j]);
                    }
                }
            },
        }
        i += 1;
    }
    assert(chars@.take(n as int) == chars@);
    Some(acc)
}

/// Index of the first pair of adjacent colons in `chars`.
pub fn find_double_colon(chars: &[char]) -> (found: Option<usize>)
    ensures
        match found {
            Some(i) => i + 1 < chars@.len() && double_colon(chars@) == Some(i as int),
            None => double_colon(chars@) is None,
        },
{
    let n = chars.len();
    if n < 2 {
        return None;
    }
    let mut i: usize = 0;
    while i + 1 < n
        invariant
            i + 1 <= n,
            n == chars@.len(),
            forall|j: int| 0 <= j < i ==> !(chars@[j] == ':' && #[trigger] chars@[j + 1] == ':'),
        decreases n - i,
    {
        if chars[i] == ':' && chars[i + 1] == ':' {
            proof {
                lemma_double_colon(chars@);
                assert(chars@[i as int] == ':' && chars@[i + 1] == ':');
            }
            return Some(i);
        }
        i += 1;
    }
    proof {
        lemma_double_colon(chars@);
    }
    None
}

/// Reads the colon-separated fields of `chars` as groups.
pub fn parse_group_list(chars: &[char], allow_quad: bool) -> (out: Option<Vec<u16>>)
    ensures
        match out {
            Some(groups) => group_list(chars@, allow_quad) == Some(groups@),
            None => group_list(chars@, allow_quad) is None,
        },
{
    let mut groups: Vec<u16> = Vec::new();
    let mut rest: &[char] = chars;
    loop
        invariant
            group_list(chars@, allow_quad) == match group_list(rest@, allow_quad) {
                Some(more) => Some(groups@ + more),
                None => None,
            },
        decreases rest@.len(),
    {
        let len = rest.len();
        match find_first(rest, ':') {
            None => {
                match parse_hex_group(rest) {
                    Some(g) => {
                        proof {
                            assert(groups@ + seq![g] == groups@.push(g));
                        }
                        groups.push(g);
                        return Some(groups);
                    },
                    None => {
                        if !allow_quad {
                            return None;
                        }
                        match parse_ipv4(rest) {
                            Some(a) => {
                                let hi: u16 = a[0] as u16 * 256 + a[1] as u16;
                                let lo: u16 = a[2] as u16 * 256 + a[3] as u16;
                                proof {
                                    assert(quad_groups(a@) == seq![hi, lo]);
                                    assert(groups@ + seq![hi, lo] == groups@.push(hi).push(lo));
                                }
                                groups.push(hi);
                                groups.push(lo);
                                return Some(groups);
                            },
                            None => {
                                return None;
                            },
                        }
                    },
                }
            },
            Some(i) => {
                let field = &rest[0..i];
                let after = &rest[i + 1..len];
                assert(field@ == rest@.take(i as int));
                assert(after@ == rest@.skip(i + 1));
                match parse_hex_group(field) {
                    None => {
                        return None;
                    },
                    Some(g) => {
                        proof {
                            match group_list(after@, allow_quad) {
                                Some(more) => {
                                    assert(groups@ + (seq![g] + more) == groups@.push(g) + more);
                                },
                                None => {},
                            }
                        }
                        groups.push(g);
                        rest = after;
                    },
                }
            },
        }
    }
}

/// Reads `chars` as an IPv6 address.
pub fn parse_ipv6(chars: &[char]) -> (out: Option<[u16; 8]>)
    ensures
        match out {
            Some(segs) => ipv6_of_text(chars@) == Some(segs@),
            None => ipv6_of_text(chars@) is None,
        },
{
    let len = chars.len();
    match find_double_colon(chars) {
        None => {
            match parse_group_list(chars, true) {
                Some(groups) => {
                    if groups.len() != 8 {
                        return None;
                    }
                    let mut segs = [0u16; 8];
                    let mut k: usize = 0;
                    while k < 8
                        invariant
                            k <= 8,
                            groups@.len() == 8,
                            forall|j: int| 0 <= j < k ==> segs@[j] == groups@[j],
                        decreases 8 - k,
                    {
                        segs[k] = groups[k];
                        k += 1;
                    }
                    assert(segs@ == groups@);
                    Some(segs)
                },
                None => None,
            }
        },
        Some(i) => {
            let head_text = &chars[0..i];
            let tail_text = &chars[i + 2..len];
            assert(head_text@ == chars@.take(i as int));
            assert(tail_text@ == chars@.skip(i + 2));
            let head: Vec<u16> = if head_text.len() == 0 {
                Vec::new()
            } else {
                match parse_group_list(head_text, false) {
                    Some(groups) => groups,
                    None => { return None; },
                }
            };
            let tail: Vec<u16> = if tail_text.len() == 0 {
                Vec::new()
            } else {
                match parse_group_list(tail_text, true) {
                    Some(groups) => groups,
                    None => { return None; },
                }
            };
            assert(groups_of_text(head_text@, false) == Some(head@));
            assert(groups_of_text(tail_text@, true) == Some(tail@));
            let h = head.len();
            let t = tail.len();
            if h > 7 || t > 7 || h + t > 7 {
                return None;
            }
            let ghost want = head@ + zero_groups(8 - h - t) + tail@;
            let mut segs = [0u16; 8];
            let mut k: usize = 0;
            while k < h
                invariant
                    k <= h,
                    h == head@.len(),
                    t == tail@.len(),
                    h + t <= 7,
                    want == head@ + zero_groups(8 - h - t) + tail@,
                    forall|j: int| 0 <= j < k ==> segs@[j] == want[j],
                    forall|j: int| k <= j < 8 ==> segs@[j] == 0,
                decreases h - k,
            {
                segs[k] = head[k];
                k += 1;
            }
            let mut m: usize = 0;
            while m < t
                invariant
                    m <= t,
                    h == head@.len(),
                    t == tail@.len(),
                    h + t <= 7,
                    want == head@ + zero_groups(8 - h - t) + tail@,
                    forall|j: int| 0 <= j < 8 - t + m ==> segs@[j] == want[j],
                decreases t - m,
            {
                segs[8 - t + m] = tail[m];
                m += 1;
            }
            assert(segs@ =~= want);
            Some(segs)
        },
    }
}

/// The sixteen octets of eight groups.
pub fn octets(segs: &[u16; 8]) -> (out: [u8; 16])
    ensures
        out@ == octets_of(segs@),
{
    let mut out = [0u8; 16];
    let mut i: usize = 0;
    while i < 8
        invariant
            i <= 8,
            forall|j: int| 0 <= j < 2 * i ==> out@[j] == octets_of(segs@)[j],
        decreases 8 - i,
    {
        out[2 * i] = (segs[i] / 256) as u8;
        out[2 * i + 1] = (segs[i] % 256) as u8;
        i += 1;
    }
    assert(out@ =~= octets_of(segs@));
    out
}

/// A lowercase hexadecimal digit is a hexadecimal digit of its value, and no
/// colon.
pub proof fn lemma_hex_digit_char(d: nat)
    requires
        d < 16,
    ensures
        is_hex_digit(hex_digit_char(d)),
        hex_digit_value(hex_digit_char(d)) == d,
        hex_digit_char(d) != ':',
        hex_digit_char(d) != '.',
{
}

/// The hexadecimal numeral of a group is one to four hexadecimal digits that
/// denote the group.
pub proof fn lemma_hex_text(n: nat)
    requires
        n < 65536,
    ensures
        1 <= hex_text(n).len() <= 4,
        all_hex_digits(hex_text(n)),
        hex_value(hex_text(n)) == n,
        forall|i: int| 0 <= i < hex_text(n).len() ==> hex_text(n)[i] != ':',
        n < 16 ==> hex_text(n).len() == 1,
        16 <= n < 256 ==> hex_text(n).len() == 2,
        256 <= n < 4096 ==> hex_text(n).len() == 3,
    decreases n,
{
    let s = hex_text(n);
    if n < 16 {
        lemma_hex_digit_char(n);
        assert(s.drop_last() == Seq::<char>::empty());
        assert(hex_value(s.drop_last()) == 0);
    } else {
        lemma_hex_text(n / 16);
        lemma_hex_digit_char(n % 16);
        let head = hex_text(n / 16);
        assert(s.drop_last() == head);
        assert forall|i: int| 0 <= i < s.len() implies is_hex_digit(#[trigger] s[i]) && s[i]
            != ':' by {
            if i < head.len() {
                assert(s[i] == head[i]);
            }
        }
    }
}

/// The numeral of a group reads as that group.
pub proof fn lemma_hex_group_round_trip(g: u16)
    ensures
        hex_group_of_text(hex_text(g as nat)) == Some(g),
{
    lemma_hex_text(g as nat);
}

/// The joined numerals of two or more groups are the numeral of the first, a
/// colon, and the joined numerals of the others.
pub proof fn lemma_hex_groups_left(gs: Seq<u16>)
    requires
        gs.len() >= 2,
    ensures
        hex_groups(gs) == hex_text(gs[0] as nat) + seq![':'] + hex_groups(gs.drop_first()),
    decreases gs.len(),
{
    let first = hex_text(gs[0] as nat);
    let last = hex_text(gs.last() as nat);
    let colon = seq![':'];
    if gs.len() == 2 {
        assert(gs.drop_last().len() == 1);
        assert(gs.drop_first().len() == 1);
        assert(gs.drop_last()[0] == gs[0]);
        assert(gs.drop_first()[0] == gs[1]);
        assert(gs.last() == gs[1]);
        assert(hex_groups(gs.drop_last()) == first);
        assert(hex_groups(gs.drop_first()) == last);
        assert(hex_groups(gs) == hex_groups(gs.drop_last()) + colon + last);
    } else {
        let front = gs.drop_last();
        let back = gs.drop_first();
        lemma_hex_groups_left(front);
        assert(front[0] == gs[0]);
        assert(front.drop_first() == back.drop_last());
        assert(back.last() == gs.last());
        let middle = hex_groups(back.drop_last());
        assert(hex_groups(gs) == (first + colon + middle) + colon + last);
        assert(hex_groups(back) == middle + colon + last);
        assert((first + colon + middle) + colon + last =~= first + colon + (middle + colon + last));
    }
}

/// The joined numerals of one or more groups start and end with a digit and
/// hold no two colons side by side, and no dot.
pub proof fn lemma_hex_groups_shape(gs: Seq<u16>)
    requires
        gs.len() >= 1,
    ensures
        hex_groups(gs).len() >= 1,
        hex_groups(gs)[0] != ':',
        hex_groups(gs).last() != ':',
        forall|j: int|
            0 <= j && j + 1 < hex_groups(gs).len() ==> !(hex_groups(gs)[j] == ':'
                && #[trigger] hex_groups(gs)[j + 1] == ':'),
    decreases gs.len(),
{
    let text = hex_groups(gs);
    let last = hex_text(gs.last() as nat);
    lemma_hex_text(gs.last() as nat);
    if gs.len() == 1 {
        assert(text == last);
    } else {
        let front = hex_groups(gs.drop_last());
        lemma_hex_groups_shape(gs.drop_last());
        assert(text == front + seq![':'] + last);
        assert(text[0] == front[0]);
        assert(text.last() == last.last());
        assert forall|j: int| 0 <= j && j + 1 < text.len() implies !(text[j] == ':'
            && #[trigger] text[j + 1] == ':') by {
            if j + 1 < front.len() {
                assert(text[j] == front[j] && text[j + 1] == front[j + 1]);
            } else if j + 1 == front.len() {
                assert(text[j] == front.last());
            } else if j == front.len() {
                assert(text[j + 1] == last[0]);
            } else {
                assert(text[j] == last[j - front.len() - 1]);
            }
        }
    }
}

/// The joined numerals of one or more groups read as those groups.
pub proof fn lemma_group_list_round_trip(gs: Seq<u16>, allow_quad: bool)
    requires
        gs.len() >= 1,
    ensures
        group_list(hex_groups(gs), allow_quad) == Some(gs),
    decreases gs.len(),
{
    let first = hex_text(gs[0] as nat);
    lemma_hex_text(gs[0] as nat);
    lemma_hex_group_round_trip(gs[0]);
    if gs.len() == 1 {
        assert(hex_groups(gs) == first);
        lemma_index_absent(first, ':');
        assert(seq![gs[0]] =~= gs);
    } else {
        let rest = hex_groups(gs.drop_first());
        lemma_hex_groups_left(gs);
        lemma_split_first_joined(first, ':', rest);
        lemma_group_list_round_trip(gs.drop_first(), allow_quad);
        let text = hex_groups(gs);
        assert(text.take(first.len() as int) == first);
        assert(text.skip(first.len() as int + 1) == rest);
        assert(seq![gs[0]] + gs.drop_first() =~= gs);
    }
}

/// The joined numerals of any number of groups read as those groups, the
/// empty text as none.
pub proof fn lemma_groups_round_trip(gs: Seq<u16>, allow_quad: bool)
    ensures
        groups_of_text(hex_groups(gs), allow_quad) == Some(gs),
{
    if gs.len() == 0 {
        assert(gs =~= Seq::<u16>::empty());
    } else {
        lemma_hex_groups_shape(gs);
        lemma_group_list_round_trip(gs, allow_quad);
    }
}

/// In a text made of joined numerals, `::` and something that starts with no
/// colon, the first pair of colons is that `::`.
pub proof fn lemma_double_colon_joined(head: Seq<u16>, tail: Seq<char>)
    requires
        tail.len() == 0 || tail[0] != ':',
    ensures
        double_colon(hex_groups(head) + seq![':', ':'] + tail) == Some(
            hex_groups(head).len() as int,
        ),
{
    let front = hex_groups(head);
    let text = front + seq![':', ':'] + tail;
    let at = front.len() as int;
    if head.len() > 0 {
        lemma_hex_groups_shape(head);
    }
    lemma_double_colon(text);
    assert(text[at] == ':' && text[at + 1] == ':');
    assert forall|j: int| 0 <= j < at implies !(text[j] == ':' && #[trigger] text[j + 1]
        == ':') by {
        assert(text[j] == front[j]);
        if j + 1 < at {
            assert(text[j + 1] == front[j + 1]);
        } else {
            assert(front[j] == front.last());
        }
    }
}

/// The groups of a run of zeros are zero.
pub proof fn lemma_zero_run_is_zero(segs: Seq<u16>, from: int, k: int)
    requires
        0 <= from <= k < from + zero_run(segs, from),
    ensures
        k < segs.len(),
        segs[k] == 0,
    decreases k - from,
{
    if k > from {
        lemma_zero_run_is_zero(segs, from + 1, k);
    }
}

/// The group `ffff` reads as 65535.
proof fn lemma_marker_group()
    ensures
        hex_group_of_text(seq!['f', 'f', 'f', 'f']) == Some(0xffffu16),
{
    let marker = seq!['f', 'f', 'f', 'f'];
    let three = seq!['f', 'f', 'f'];
    let two = seq!['f', 'f'];
    let one = seq!['f'];
    assert(marker.drop_last() =~= three);
    assert(three.drop_last() =~= two);
    assert(two.drop_last() =~= one);
    assert(one.drop_last() =~= Seq::<char>::empty());
    assert(hex_digit_value('f') == 15);
    assert(hex_value(one) == 15) by {
        reveal_with_fuel(hex_value, 2);
    }
    assert(hex_value(two) == 255);
    assert(hex_value(three) == 4095);
    assert(hex_value(marker) == 65535);
}

/// Dotted-decimal text behind the group `ffff` reads as three groups.
proof fn lemma_mapped_tail(quad: Seq<u8>)
    requires
        quad.len() == 4,
    ensures
        group_list(seq!['f', 'f', 'f', 'f'] + seq![':'] + ipv4_text(quad), true) == Some(
            seq![0xffffu16] + quad_groups(quad),
        ),
{
    let dotted = ipv4_text(quad);
    let marker = seq!['f', 'f', 'f', 'f'];
    let tail = marker + seq![':'] + dotted;
    lemma_marker_group();
    lemma_ipv4_text_chars(quad);
    assert(group_list(dotted, true) == Some(quad_groups(quad))) by {
        lemma_ipv4_round_trip(quad);
        lemma_index_absent(dotted, ':');
        assert(hex_group_of_text(dotted) is None);
    }
    lemma_split_first_joined(marker, ':', dotted);
    assert(tail.take(4) == marker);
    assert(tail.skip(5) == dotted);
}

/// The text of a mapped IPv4 address reads as its eight groups.
proof fn lemma_mapped_round_trip(segs: Seq<u16>)
    requires
        segs.len() == 8,
        is_ipv4_mapped(segs),
    ensures
        ipv6_of_text(ipv6_text(segs)) == Some(segs),
{
    let quad = seq![
        (segs[6] / 256) as u8,
        (segs[6] % 256) as u8,
        (segs[7] / 256) as u8,
        (segs[7] % 256) as u8,
    ];
    let tail = seq!['f', 'f', 'f', 'f'] + seq![':'] + ipv4_text(quad);
    let text = ipv6_text(segs);
    assert(text =~= seq![':', ':'] + tail);
    assert(text[0] == ':' && text[1] == ':');
    assert(double_colon(text) == Some(0int));
    assert(text.take(0).len() == 0);
    assert(text.skip(2) =~= tail);
    lemma_mapped_tail(quad);
    assert(quad_groups(quad) =~= seq![segs[6], segs[7]]);
    let groups = seq![0xffffu16] + quad_groups(quad);
    assert(groups.len() == 3);
    assert(Seq::<u16>::empty() + zero_groups(5) + groups =~= segs);
}

/// The canonical text of an address reads as that address.
pub proof fn lemma_ipv6_round_trip(segs: Seq<u16>)
    requires
        segs.len() == 8,
    ensures
        ipv6_of_text(ipv6_text(segs)) == Some(segs),
{
    if is_ipv4_mapped(segs) {
        lemma_mapped_round_trip(segs);
    } else {
        let (start, len) = longest_zero_run(segs, 0);
        lemma_longest_zero_run(segs, 0);
        if len > 1 {
            let head = segs.take(start);
            let tail = segs.skip(start + len);
            let tail_text = hex_groups(tail);
            let text = ipv6_text(segs);
            assert(start + len <= 8) by {
                lemma_zero_run_is_zero(segs, start, start + len - 1);
            }
            if tail.len() > 0 {
                lemma_hex_groups_shape(tail);
            }
            lemma_double_colon_joined(head, tail_text);
            let at = hex_groups(head).len() as int;
            assert(text.take(at) =~= hex_groups(head));
            assert(text.skip(at + 2) =~= tail_text);
            lemma_groups_round_trip(head, false);
            lemma_groups_round_trip(tail, true);
            assert forall|k: int| start <= k < start + len implies segs[k] == 0 by {
                lemma_zero_run_is_zero(segs, start, k);
            }
            assert(head + zero_groups(8 - head.len() - tail.len()) + tail =~= segs);
        } else {
            let text = hex_groups(segs);
            lemma_hex_groups_shape(segs);
            lemma_double_colon(text);
            lemma_group_list_round_trip(segs, true);
        }
    }
}

/// The canonical text of an address holds a colon.
pub proof fn lemma_ipv6_text_has_colon(segs: Seq<u16>)
    requires
        segs.len() == 8,
    ensures
        exists|i: int| 0 <= i < ipv6_text(segs).len() && ipv6_text(segs)[i] == ':',
{
    let text = ipv6_text(segs);
    if is_ipv4_mapped(segs) {
        assert(text[0] == ':');
    } else {
        let (start, len) = longest_zero_run(segs, 0);
        if len > 1 {
            let at = hex_groups(segs.take(start)).len() as int;
            assert(text[at] == ':');
        } else {
            let at = hex_groups(segs.drop_last()).len() as int;
            assert(text[at] == ':');
        }
    }
}

} // verus!
