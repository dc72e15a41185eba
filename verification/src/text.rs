//! Strings as sequences of characters: conversion, search, whitespace and
//! decimal numerals.

use vstd::prelude::*;

verus! {

/// `String::push` of the standard library: appends one character to the end
/// of the string.
pub assume_specification[ String::push ](s: &mut String, c: char)
    ensures
        final(s)@ == old(s)@.push(c),
;

/// The characters of `s`, in order.
pub fn chars_of(s: &str) -> (out: Vec<char>)
    ensures
        out@ == s@,
{
    let mut out: Vec<char> = Vec::new();
    for c in it: s.chars()
        invariant
            out@ == it.seq().take(it.index()),
            it.seq() == s@,
    {
        out.push(c);
    }
    out
}

/// The string made of the characters `chars[from..to]`.
pub(crate) fn string_of(chars: &[char], from: usize, to: usize) -> (out: String)
    requires
        from <= to <= chars@.len(),
    ensures
        out@ == chars@.subrange(from as int, to as int),
{
    let mut out = String::new();
    let mut i: usize = from;
    while i < to
        invariant
            from <= i <= to <= chars@.len(),
            out@ == chars@.subrange(from as int, i as int),
        decreases to - i,
    {
        out.push(chars[i]);
        i += 1;
    }
    out
}

/// Index of the first occurrence of `c` in `s`.
pub open spec fn first_index(s: Seq<char>, c: char) -> Option<int>
    decreases s.len(),
{
    if s.len() == 0 {
        None
    } else if s[0] == c {
        Some(0)
    } else {
        match first_index(s.drop_first(), c) {
            Some(i) => Some(i + 1),
            None => None,
        }
    }
}

/// Index of the last occurrence of `c` in `s`.
pub open spec fn last_index(s: Seq<char>, c: char) -> Option<int>
    decreases s.len(),
{
    if s.len() == 0 {
        None
    } else if s.last() == c {
        Some(s.len() - 1)
    } else {
        last_index(s.drop_last(), c)
    }
}

/// `first_index` is `Some(i)` exactly for the least position `i` that holds
/// `c`, and `None` exactly when `c` does not occur.
pub proof fn lemma_first_index(s: Seq<char>, c: char)
    ensures
        match first_index(s, c) {
            Some(i) => 0 <= i < s.len() && s[i] == c && forall|j: int| 0 <= j < i ==> s[j] != c,
            None => forall|j: int| 0 <= j < s.len() ==> s[j] != c,
        },
    decreases s.len(),
{
    if s.len() > 0 && s[0] != c {
        let rest = s.drop_first();
        lemma_first_index(rest, c);
        match first_index(rest, c) {
            Some(i) => {
                assert forall|j: int| 0 <= j < i + 1 implies s[j] != c by {
                    if j > 0 {
                        assert(s[j] == rest[j - 1]);
                    }
                }
            },
            None => {
                assert forall|j: int| 0 <= j < s.len() implies s[j] != c by {
                    if j > 0 {
                        assert(s[j] == rest[j - 1]);
                    }
                }
            },
        }
    }
}

/// `last_index` is `Some(i)` exactly for the greatest position `i` that holds
/// `c`, and `None` exactly when `c` does not occur.
pub proof fn lemma_last_index(s: Seq<char>, c: char)
    ensures
        match last_index(s, c) {
            Some(i) => 0 <= i < s.len() && s[i] == c && forall|j: int|
                i < j < s.len() ==> s[j] != c,
            None => forall|j: int| 0 <= j < s.len() ==> s[j] != c,
        },
    decreases s.len(),
{
    if s.len() > 0 && s.last() != c {
        let rest = s.drop_last();
        lemma_last_index(rest, c);
        match last_index(rest, c) {
            Some(i) => {
                assert forall|j: int| i < j < s.len() implies s[j] != c by {
                    if j < s.len() - 1 {
                        assert(s[j] == rest[j]);
                    }
                }
            },
            None => {
                assert forall|j: int| 0 <= j < s.len() implies s[j] != c by {
                    if j < s.len() - 1 {
                        assert(s[j] == rest[j]);
                    }
                }
            },
        }
    }
}

/// A position that holds `c` and has no `c` before it is the first index.
pub proof fn lemma_first_index_is(s: Seq<char>, c: char, i: int)
    requires
        0 <= i < s.len(),
        s[i] == c,
        forall|j: int| 0 <= j < i ==> s[j] != c,
    ensures
        first_index(s, c) == Some(i),
{
    lemma_first_index(s, c);
}

/// A position that holds `c` and has no `c` after it is the last index.
pub proof fn lemma_last_index_is(s: Seq<char>, c: char, i: int)
    requires
        0 <= i < s.len(),
        s[i] == c,
        forall|j: int| i < j < s.len() ==> s[j] != c,
    ensures
        last_index(s, c) == Some(i),
{
    lemma_last_index(s, c);
}

/// A sequence without `c` has no index of it.
pub proof fn lemma_index_absent(s: Seq<char>, c: char)
    requires
        forall|j: int| 0 <= j < s.len() ==> s[j] != c,
    ensures
        first_index(s, c) is None,
        last_index(s, c) is None,
{
    lemma_first_index(s, c);
    lemma_last_index(s, c);
}

/// Position of the first `c` in `chars`.
pub fn find_first(chars: &[char], c: char) -> (found: Option<usize>)
    ensures
        match found {
            Some(i) => i < chars@.len() && chars@[i as int] == c && first_index(chars@, c) == Some(
                i as int,
            ),
            None => first_index(chars@, c) is None,
        },
{
    let mut i: usize = 0;
    while i < chars.len()
        invariant
            i <= chars@.len(),
            forall|j: int| 0 <= j < i ==> chars@[j] != c,
        decreases chars@.len() - i,
    {
        if chars[i] == c {
            proof {
                lemma_first_index_is(chars@, c, i as int);
            }
            return Some(i);
        }
        i += 1;
    }
    proof {
        lemma_index_absent(chars@, c);
    }
    None
}

/// Position of the last `c` in `chars`.
pub fn find_last(chars: &[char], c: char) -> (found: Option<usize>)
    ensures
        match found {
            Some(i) => i < chars@.len() && chars@[i as int] == c && last_index(chars@, c) == Some(
                i as int,
            ),
            None => last_index(chars@, c) is None,
        },
{
    let mut i: usize = chars.len();
    while i > 0
        invariant
            i <= chars@.len(),
            forall|j: int| i <= j < chars@.len() ==> chars@[j] != c,
        decreases i,
    {
        i -= 1;
        if chars[i] == c {
            proof {
                lemma_last_index_is(chars@, c, i as int);
            }
            return Some(i);
        }
    }
    proof {
        lemma_index_absent(chars@, c);
    }
    None
}

/// Whether `c` has the Unicode property White_Space.
pub open spec fn is_whitespace(c: char) -> bool {
    let u = c as u32;
    ||| 0x09 <= u <= 0x0d
    ||| u == 0x20
    ||| u == 0x85
    ||| u == 0xa0
    ||| u == 0x1680
    ||| 0x2000 <= u <= 0x200a
    ||| u == 0x2028
    ||| u == 0x2029
    ||| u == 0x202f
    ||| u == 0x205f
    ||| u == 0x3000
}

/// Exec test for `is_whitespace`.
pub fn char_is_whitespace(c: char) -> (b: bool)
    ensures
        b == is_whitespace(c),
{
    let u: u32 = c as u32;
    (0x09 <= u && u <= 0x0d) || u == 0x20 || u == 0x85 || u == 0xa0 || u == 0x1680 || (0x2000 <= u
        && u <= 0x200a) || u == 0x2028 || u == 0x2029 || u == 0x202f || u == 0x205f || u == 0x3000
}

/// Whether `c` is one of the ten ASCII decimal digits.
pub open spec fn is_digit(c: char) -> bool {
    '0' <= c && c <= '9'
}

/// The value of the decimal digit `c`.
pub open spec fn digit_value(c: char) -> nat {
    if is_digit(c) {
        (c as u32 - '0' as u32) as nat
    } else {
        0
    }
}

/// The decimal digit of value `d`.
pub open spec fn digit_char(d: nat) -> char {
    if d == 0 {
        '0'
    } else if d == 1 {
        '1'
    } else if d == 2 {
        '2'
    } else if d == 3 {
        '3'
    } else if d == 4 {
        '4'
    } else if d == 5 {
        '5'
    } else if d == 6 {
        '6'
    } else if d == 7 {
        '7'
    } else if d == 8 {
        '8'
    } else {
        '9'
    }
}

/// Whether every character of `s` is a decimal digit.
pub open spec fn all_digits(s: Seq<char>) -> bool {
    forall|i: int| 0 <= i < s.len() ==> is_digit(#[trigger] s[i])
}

/// The number that the digits of `s` denote in base ten; 0 for no digits.
pub open spec fn decimal_value(s: Seq<char>) -> nat
    decreases s.len(),
{
    if s.len() == 0 {
        0
    } else {
        decimal_value(s.drop_last()) * 10 + digit_value(s.last())
    }
}

/// The shortest decimal numeral of `n`.
pub open spec fn decimal_text(n: nat) -> Seq<char>
    decreases n,
{
    if n < 10 {
        seq![digit_char(n)]
    } else {
        decimal_text(n / 10).push(digit_char(n % 10))
    }
}

/// The value of a numeral is at least the value of each of its prefixes.
pub proof fn lemma_decimal_value_prefix(s: Seq<char>, k: int)
    requires
        0 <= k <= s.len(),
    ensures
        decimal_value(s.take(k)) <= decimal_value(s),
    decreases s.len(),
{
    if k == s.len() {
        assert(s.take(k) == s);
    } else {
        lemma_decimal_value_prefix(s.drop_last(), k);
        assert(s.drop_last().take(k) == s.take(k));
    }
}

/// A numeral of `n` is made of digits, starts with a zero only when `n` is
/// zero, and denotes `n`.
pub proof fn lemma_decimal_text(n: nat)
    ensures
        decimal_text(n).len() >= 1,
        all_digits(decimal_text(n)),
        decimal_value(decimal_text(n)) == n,
        (decimal_text(n)[0] == '0') == (n == 0),
        n < 10 ==> decimal_text(n).len() == 1,
        10 <= n < 100 ==> decimal_text(n).len() == 2,
        100 <= n < 1000 ==> decimal_text(n).len() == 3,
        1000 <= n < 10000 ==> decimal_text(n).len() == 4,
        10000 <= n < 100000 ==> decimal_text(n).len() == 5,
    decreases n,
{
    if n < 10 {
        let s = decimal_text(n);
        assert(s.drop_last() == Seq::<char>::empty());
        assert(decimal_value(s.drop_last()) == 0);
    } else {
        lemma_decimal_text(n / 10);
        let head = decimal_text(n / 10);
        let s = decimal_text(n);
        assert(s.drop_last() == head);
        assert(s[0] == head[0]);
    }
}

/// Whether the digits `chars[from..to]`, at least one, denote a number of at
/// most `max`; then that number.
pub open spec fn bounded_decimal(s: Seq<char>, max: nat) -> Option<nat> {
    if s.len() > 0 && all_digits(s) && decimal_value(s) <= max {
        Some(decimal_value(s))
    } else {
        None
    }
}

/// Reads `chars[from..to]` as a decimal number of at most `max`.
pub(crate) fn read_decimal(chars: &[char], from: usize, to: usize, max: u32) -> (out: Option<u32>)
    requires
        from <= to <= chars@.len(),
        max <= 400_000_000,
    ensures
        match out {
            Some(v) => bounded_decimal(chars@.subrange(from as int, to as int), max as nat)
                == Some(v as nat),
            None => bounded_decimal(chars@.subrange(from as int, to as int), max as nat) is None,
        },
{
    let ghost s = chars@.subrange(from as int, to as int);
    if from == to {
        return None;
    }
    let mut acc: u32 = 0;
    let mut i: usize = from;
    while i < to
        invariant
            from <= i <= to <= chars@.len(),
            max <= 400_000_000,
            s == chars@.subrange(from as int, to as int),
            acc <= max,
            acc as nat == decimal_value(s.take(i - from)),
            all_digits(s.take(i - from)),
        decreases to - i,
    {
        let ghost prefix = s.take(i - from + 1);
        proof {
            assert(prefix.drop_last() == s.take(i - from));
            assert(prefix.last() == chars@[i as int]);
            lemma_decimal_value_prefix(s, i - from + 1);
        }
        match digit_of(chars[i]) {
            None => {
                assert(!is_digit(s[i - from]));
                return None;
            },
            Some(d) => {
                let next: u32 = acc * 10 + d as u32;
                if next > max {
                    return None;
                }
                acc = next;
                assert forall|j: int| 0 <= j < prefix.len() implies is_digit(
                    #[trigger] prefix[j],
                ) by {
                    if j < i - from {
                        assert(prefix[j] == s.take(i - from)[j]);
                    }
                }
            },
        }
        i += 1;
    }
    assert(s.take(to - from) == s);
    Some(acc)
}

/// Exec test for a decimal digit, with its value.
pub fn digit_of(c: char) -> (d: Option<u8>)
    ensures
        d is Some <==> is_digit(c),
        d matches Some(v) ==> v as nat == digit_value(c) && v < 10,
{
    if '0' <= c && c <= '9' {
        let v: u32 = c as u32 - '0' as u32;
        Some(v as u8)
    } else {
        None
    }
}

/// The decimal digit of value `d`.
pub(crate) fn digit_char_of(d: u8) -> (c: char)
    requires
        d < 10,
    ensures
        c == digit_char(d as nat),
{
    match d {
        0 => '0',
        1 => '1',
        2 => '2',
        3 => '3',
        4 => '4',
        5 => '5',
        6 => '6',
        7 => '7',
        8 => '8',
        _ => '9',
    }
}

/// Appends the shortest decimal numeral of `n` to `out`.
pub(crate) fn push_decimal(out: &mut String, n: u16)
    ensures
        final(out)@ == old(out)@ + decimal_text(n as nat),
    decreases n,
{
    if n >= 10 {
        push_decimal(out, n / 10);
    }
    out.push(digit_char_of((n % 10) as u8));
    assert(out@ == old(out)@ + decimal_text(n as nat));
}

/// The lowercase hexadecimal digit of value `d`.
pub open spec fn hex_digit_char(d: nat) -> char {
    if d < 10 {
        digit_char(d)
    } else if d == 10 {
        'a'
    } else if d == 11 {
        'b'
    } else if d == 12 {
        'c'
    } else if d == 13 {
        'd'
    } else if d == 14 {
        'e'
    } else {
        'f'
    }
}

/// The shortest lowercase hexadecimal numeral of `n`.
pub open spec fn hex_text(n: nat) -> Seq<char>
    decreases n,
{
    if n < 16 {
        seq![hex_digit_char(n)]
    } else {
        hex_text(n / 16).push(hex_digit_char(n % 16))
    }
}

/// The lowercase hexadecimal digit of value `d`.
pub(crate) fn hex_digit_char_of(d: u8) -> (c: char)
    requires
        d < 16,
    ensures
        c == hex_digit_char(d as nat),
{
    match d {
        10 => 'a',
        11 => 'b',
        12 => 'c',
        13 => 'd',
        14 => 'e',
        15 => 'f',
        _ => digit_char_of(d),
    }
}

/// Appends the shortest lowercase hexadecimal numeral of `n` to `out`.
pub(crate) fn push_hex(out: &mut String, n: u16)
    ensures
        final(out)@ == old(out)@ + hex_text(n as nat),
    decreases n,
{
    if n >= 16 {
        push_hex(out, n / 16);
    }
    out.push(hex_digit_char_of((n % 16) as u8));
    assert(out@ == old(out)@ + hex_text(n as nat));
}

/// The text that lossy UTF-8 decoding makes of `bytes`.
pub uninterp spec fn lossy_utf8(bytes: Seq<u8>) -> Seq<char>;

/// `String::from_utf8_lossy` of the standard library. Its result is a
/// function of the bytes; on well-formed UTF-8 it is the text that the bytes
/// encode, and elsewhere each malformed stretch is replaced by U+FFFD.
#[verifier::external_body]
pub(crate) fn decode_lossy(bytes: &[u8]) -> (out: String)
    ensures
        out@ == lossy_utf8(bytes@),
        vstd::utf8::valid_utf8(bytes@) ==> out@ == vstd::utf8::decode_utf8(bytes@),
{
    String::from_utf8_lossy(bytes).into_owned()
}

/// `s` cut at its first `c`: what stands before it and what stands after.
pub open spec fn split_first(s: Seq<char>, c: char) -> Option<(Seq<char>, Seq<char>)> {
    match first_index(s, c) {
        Some(i) => Some((s.take(i), s.skip(i + 1))),
        None => None,
    }
}

/// A text without `c`, then `c`, then any text, is cut between the two.
pub proof fn lemma_split_first_joined(before: Seq<char>, c: char, after: Seq<char>)
    requires
        forall|i: int| 0 <= i < before.len() ==> before[i] != c,
    ensures
        split_first(before + seq![c] + after, c) == Some((before, after)),
        first_index(before + seq![c] + after, c) == Some(before.len() as int),
{
    let s = before + seq![c] + after;
    lemma_first_index_is(s, c, before.len() as int);
    assert(s.take(before.len() as int) == before);
    assert(s.skip(before.len() as int + 1) == after);
}

/// The two parts that `split_first` gives make up the text again, and the
/// first holds no `c`.
pub proof fn lemma_split_first_parts(s: Seq<char>, c: char)
    ensures
        match split_first(s, c) {
            Some((before, after)) => s == before + seq![c] + after && forall|i: int|
                0 <= i < before.len() ==> before[i] != c,
            None => forall|i: int| 0 <= i < s.len() ==> s[i] != c,
        },
{
    lemma_first_index(s, c);
    match split_first(s, c) {
        Some((before, after)) => {
            assert(s =~= before + seq![c] + after);
        },
        None => {},
    }
}

/// The digit of a digit's value is that digit.
pub proof fn lemma_digit_char_value(c: char)
    requires
        is_digit(c),
    ensures
        digit_char(digit_value(c)) == c,
        digit_value(c) < 10,
{
    let u = c as u32;
    assert(0x30 <= u <= 0x39);
    if u == 0x30 {
        assert(c == '0');
    } else if u == 0x31 {
        assert(c == '1');
    } else if u == 0x32 {
        assert(c == '2');
    } else if u == 0x33 {
        assert(c == '3');
    } else if u == 0x34 {
        assert(c == '4');
    } else if u == 0x35 {
        assert(c == '5');
    } else if u == 0x36 {
        assert(c == '6');
    } else if u == 0x37 {
        assert(c == '7');
    } else if u == 0x38 {
        assert(c == '8');
    } else {
        assert(c == '9');
    }
}

/// Digits that do not start with a needless zero are the shortest numeral of
/// their value.
pub proof fn lemma_canonical_numeral(s: Seq<char>)
    requires
        s.len() >= 1,
        all_digits(s),
        s.len() == 1 || s[0] != '0',
    ensures
        s == decimal_text(decimal_value(s)),
    decreases s.len(),
{
    let head = s.drop_last();
    assert(is_digit(s.last()));
    lemma_digit_char_value(s.last());
    if s.len() == 1 {
        assert(head.len() == 0);
        assert(decimal_value(head) == 0);
        assert(s =~= seq![s.last()]);
    } else {
        assert(head[0] == s[0]);
        assert forall|i: int| 0 <= i < head.len() implies is_digit(#[trigger] head[i]) by {
            assert(head[i] == s[i]);
        }
        lemma_canonical_numeral(head);
        lemma_decimal_text(decimal_value(head));
        let v = decimal_value(head);
        assert(v != 0);
        let n = decimal_value(s);
        assert(n == v * 10 + digit_value(s.last()));
        assert(n / 10 == v && n % 10 == digit_value(s.last()));
        assert(s =~= head.push(s.last()));
    }
}

/// Whether `a` and `b` hold the same characters.
pub fn same_text(a: &str, b: &str) -> (same: bool)
    ensures
        same == (a@ == b@),
{
    let x = chars_of(a);
    let y = chars_of(b);
    if x.len() != y.len() {
        return false;
    }
    let mut i: usize = 0;
    while i < x.len()
        invariant
            i <= x@.len(),
            x@ == a@,
            y@ == b@,
            x@.len() == y@.len(),
            forall|j: int| 0 <= j < i ==> x@[j] == y@[j],
        decreases x@.len() - i,
    {
        let equal = x[i] == y[i];
        if !equal {
            return false;
        }
        i += 1;
    }
    assert(x@ =~= y@);
    true
}

/// How many whitespace characters `s` starts with.
pub open spec fn space_len(s: Seq<char>) -> nat
    decreases s.len(),
{
    if s.len() > 0 && is_whitespace(s[0]) {
        1 + space_len(s.drop_first())
    } else {
        0
    }
}

/// How many characters other than whitespace `s` starts with.
pub open spec fn word_len(s: Seq<char>) -> nat
    decreases s.len(),
{
    if s.len() > 0 && !is_whitespace(s[0]) {
        1 + word_len(s.drop_first())
    } else {
        0
    }
}

/// The first whitespace-delimited word of `s`; empty where `s` has none.
pub open spec fn first_word(s: Seq<char>) -> Seq<char> {
    let t = s.skip(space_len(s) as int);
    t.take(word_len(t) as int)
}

/// What follows the first word of `s`.
pub open spec fn after_first_word(s: Seq<char>) -> Seq<char> {
    let t = s.skip(space_len(s) as int);
    t.skip(word_len(t) as int)
}

/// Whether `s` holds nothing but whitespace.
pub open spec fn is_blank(s: Seq<char>) -> bool {
    space_len(s) == s.len()
}

/// A text that starts with something other than whitespace starts with no
/// whitespace.
pub proof fn lemma_no_leading_space(s: Seq<char>)
    requires
        s.len() == 0 || !is_whitespace(s[0]),
    ensures
        space_len(s) == 0,
{
}

/// Whitespace in front of a text that starts with something else is counted
/// in full.
pub proof fn lemma_space_len_joined(spaces: Seq<char>, rest: Seq<char>)
    requires
        forall|i: int| 0 <= i < spaces.len() ==> is_whitespace(spaces[i]),
        rest.len() == 0 || !is_whitespace(rest[0]),
    ensures
        space_len(spaces + rest) == spaces.len(),
    decreases spaces.len(),
{
    let s = spaces + rest;
    if spaces.len() == 0 {
        assert(s == rest);
    } else {
        assert(s[0] == spaces[0]);
        assert(s.drop_first() == spaces.drop_first() + rest);
        lemma_space_len_joined(spaces.drop_first(), rest);
    }
}

/// A word in front of a text that starts with whitespace, or of nothing, is
/// counted in full.
pub proof fn lemma_word_len_joined(word: Seq<char>, rest: Seq<char>)
    requires
        forall|i: int| 0 <= i < word.len() ==> !is_whitespace(word[i]),
        rest.len() == 0 || is_whitespace(rest[0]),
    ensures
        word_len(word + rest) == word.len(),
    decreases word.len(),
{
    let s = word + rest;
    if word.len() == 0 {
        assert(s == rest);
    } else {
        assert(s[0] == word[0]);
        assert(s.drop_first() == word.drop_first() + rest);
        lemma_word_len_joined(word.drop_first(), rest);
    }
}

/// How many whitespace characters `chars[from..]` starts with.
pub(crate) fn count_spaces(chars: &[char], from: usize) -> (n: usize)
    requires
        from <= chars@.len(),
    ensures
        n == space_len(chars@.skip(from as int)),
        from + n <= chars@.len(),
{
    let len = chars.len();
    let mut i: usize = from;
    while i < len && char_is_whitespace(chars[i])
        invariant
            from <= i <= len,
            len == chars@.len(),
            space_len(chars@.skip(from as int)) == (i - from) + space_len(chars@.skip(i as int)),
        decreases len - i,
    {
        let ghost rest = chars@.skip(i as int);
        assert(rest[0] == chars@[i as int]);
        assert(rest.drop_first() == chars@.skip(i + 1));
        i += 1;
    }
    proof {
        let rest = chars@.skip(i as int);
        if i < len {
            assert(rest[0] == chars@[i as int]);
        }
    }
    i - from
}

/// How many characters other than whitespace `chars[from..]` starts with.
pub(crate) fn count_word(chars: &[char], from: usize) -> (n: usize)
    requires
        from <= chars@.len(),
    ensures
        n == word_len(chars@.skip(from as int)),
        from + n <= chars@.len(),
{
    let len = chars.len();
    let mut i: usize = from;
    while i < len && !char_is_whitespace(chars[i])
        invariant
            from <= i <= len,
            len == chars@.len(),
            word_len(chars@.skip(from as int)) == (i - from) + word_len(chars@.skip(i as int)),
        decreases len - i,
    {
        let ghost rest = chars@.skip(i as int);
        assert(rest[0] == chars@[i as int]);
        assert(rest.drop_first() == chars@.skip(i + 1));
        i += 1;
    }
    proof {
        let rest = chars@.skip(i as int);
        if i < len {
            assert(rest[0] == chars@[i as int]);
        }
    }
    i - from
}

} // verus!
