//! The HTTP front end: the CONNECT request of a client, read line by line.

use vstd::prelude::*;
use vstd::string::StringSliceAdditionalSpecFns;
use crate::address::{host_port_text, lemma_split_join, split_host_port_spec};
use crate::error::ProtocolError;
use crate::text::{
    after_first_word, chars_of, count_spaces, count_word, decimal_text, first_word, is_blank,
    is_digit, is_whitespace, lemma_decimal_text, lemma_no_leading_space, lemma_space_len_joined, lemma_word_len_joined, same_text, space_len, string_of, word_len,
};
use crate::trojan_util::TrojanUtil;

verus! {

/// Where an HTTP conversation stands.
#[derive(Debug, Clone, PartialEq, Eq)]
pub enum HttpState {
    /// Waiting for the request line.
    RequestLine,
    /// Waiting for the end of the headers of a CONNECT to `target`.
    Headers { target: String },
    /// The client asked to be connected to `host:port`.
    Connected { host: String, port: u16 },
    /// The conversation failed.
    Failed { error: ProtocolError },
}

/// An `HttpState` with its texts as sequences of characters.
pub enum HttpPhase {
    RequestLine,
    Headers { target: Seq<char> },
    Connected { host: Seq<char>, port: u16 },
    Failed { error: ProtocolError },
}

impl View for HttpState {
    type V = HttpPhase;

    open spec fn view(&self) -> HttpPhase {
        match *self {
            HttpState::RequestLine => HttpPhase::RequestLine,
            HttpState::Headers { target } => HttpPhase::Headers { target: target@ },
            HttpState::Connected { host, port } => HttpPhase::Connected { host: host@, port },
            HttpState::Failed { error } => HttpPhase::Failed { error },
        }
    }
}

/// The only method that the front end serves.
pub open spec fn connect_word() -> Seq<char> {
    seq!['C', 'O', 'N', 'N', 'E', 'C', 'T']
}

/// The answer to an accepted CONNECT: `HTTP/1.1 200 Connection Established`
/// and an empty line.
pub open spec fn established_reply() -> Seq<u8> {
    "HTTP/1.1 200 Connection Established\r\n\r\n".spec_bytes()
}

/// The verdict on the first byte of a connection, seen before anything is
/// read: a connection without one is empty, and the byte 22 opens a TLS
/// handshake, which this front end does not serve.
pub open spec fn first_byte_verdict(first: Option<u8>) -> Result<(), ProtocolError> {
    match first {
        None => Err(ProtocolError::EmptyRequest),
        Some(byte) => if byte == 22 {
            Err(ProtocolError::HttpsNotSupported)
        } else {
            Ok(())
        },
    }
}

/// The phase that ends a CONNECT to `target`.
pub open spec fn target_phase(target: Seq<char>) -> HttpPhase {
    match split_host_port_spec(target) {
        Ok((host, port)) => HttpPhase::Connected { host, port },
        Err(reason) => HttpPhase::Failed { error: ProtocolError::InvalidTarget { reason } },
    }
}

impl HttpPhase {
    /// Whether the conversation is over.
    pub open spec fn is_terminal(self) -> bool {
        self is Connected || self is Failed
    }

    /// The phase after `line` has been read, and the bytes to write back. The
    /// request line must start with the word CONNECT and name a target next.
    /// The headers end with a line of nothing but whitespace, or with the end
    /// of the input, which reads as an empty line; then the answer is due,
    /// and the target is split.
    pub open spec fn on_line(self, line: Seq<char>) -> (HttpPhase, Seq<u8>) {
        match self {
            HttpPhase::RequestLine => if first_word(line) != connect_word() {
                (HttpPhase::Failed { error: ProtocolError::WrongMethod }, Seq::empty())
            } else if first_word(after_first_word(line)).len() == 0 {
                (HttpPhase::Failed { error: ProtocolError::MissingTarget }, Seq::empty())
            } else {
                (HttpPhase::Headers { target: first_word(after_first_word(line)) }, Seq::empty())
            },
            HttpPhase::Headers { target } => if is_blank(line) {
                (target_phase(target), established_reply())
            } else {
                (self, Seq::empty())
            },
            HttpPhase::Connected { .. } => (self, Seq::empty()),
            HttpPhase::Failed { .. } => (self, Seq::empty()),
        }
    }

    /// What a conversation that stops in this phase has come to.
    pub open spec fn result(self) -> Result<(Seq<char>, u16), ProtocolError> {
        match self {
            HttpPhase::Connected { host, port } => Ok((host, port)),
            HttpPhase::Failed { error } => Err(error),
            _ => Err(ProtocolError::Truncated),
        }
    }
}

/// Checks the first byte of a connection, which is looked at and left in
/// place.
pub fn inspect_first_byte(first: Option<u8>) -> (out: Result<(), ProtocolError>)
    ensures
        out == first_byte_verdict(first),
{
    match first {
        None => Err(ProtocolError::EmptyRequest),
        Some(byte) => if byte == 22 {
            Err(ProtocolError::HttpsNotSupported)
        } else {
            Ok(())
        },
    }
}

/// The target that the request line `chars` names behind the word CONNECT.
fn read_request_line(chars: &[char]) -> (out: Result<String, ProtocolError>)
    ensures
        match out {
            Ok(target) => HttpPhase::RequestLine.on_line(chars@).0 == (HttpPhase::Headers {
                target: target@,
            }),
            Err(error) => HttpPhase::RequestLine.on_line(chars@).0 == (HttpPhase::Failed { error }),
        },
{
    let len = chars.len();
    let s0 = count_spaces(chars, 0);
    let w0 = count_word(chars, s0);
    let method = string_of(chars, s0, s0 + w0);
    proof {
        reveal_strlit("CONNECT");
        assert("CONNECT"@ =~= connect_word());
        assert(chars@.skip(0) == chars@);
        assert(chars@.skip(s0 as int).take(w0 as int) == chars@.subrange(
            s0 as int,
            s0 + w0,
        ));
    }
    if !same_text(method.as_str(), "CONNECT") {
        return Err(ProtocolError::WrongMethod);
    }
    let ghost after = after_first_word(chars@);
    let at = s0 + w0;
    assert(after == chars@.skip(at as int));
    let s1 = count_spaces(chars, at);
    let w1 = count_word(chars, at + s1);
    proof {
        assert(after.skip(s1 as int) == chars@.skip(at + s1));
        assert(after.skip(s1 as int).take(w1 as int) == chars@.subrange(at + s1, at + s1 + w1));
    }
    if w1 == 0 {
        return Err(ProtocolError::MissingTarget);
    }
    Ok(string_of(chars, at + s1, at + s1 + w1))
}

impl HttpState {
    /// The state in which every conversation starts, once its first byte has
    /// passed.
    pub fn new() -> (state: HttpState)
        ensures
            state@ == HttpPhase::RequestLine,
    {
        HttpState::RequestLine
    }

    /// Whether the conversation is over.
    pub fn is_terminal(&self) -> (b: bool)
        ensures
            b == self@.is_terminal(),
    {
        match self {
            HttpState::Connected { .. } => true,
            HttpState::Failed { .. } => true,
            _ => false,
        }
    }

    /// Takes the line that was read, the empty text at the end of the input,
    /// and gives the next state with the bytes to write back to the client.
    pub fn on_line(self, line: &str) -> (out: (HttpState, Vec<u8>))
        ensures
            (out.0@, out.1@) == self@.on_line(line@),
    {
        match self {
            HttpState::RequestLine => {
                let chars = chars_of(line);
                match read_request_line(chars.as_slice()) {
                    Ok(target) => (HttpState::Headers { target }, Vec::new()),
                    Err(error) => (HttpState::Failed { error }, Vec::new()),
                }
            },
            HttpState::Headers { target } => {
                let chars = chars_of(line);
                let spaces = count_spaces(chars.as_slice(), 0);
                assert(chars@.skip(0) == chars@);
                if spaces == chars.len() {
                    let reply = vstd::slice::slice_to_vec(
                        "HTTP/1.1 200 Connection Established\r\n\r\n".as_bytes(),
                    );
                    let next = match TrojanUtil::split_host_port(target.as_str()) {
                        Ok((host, port)) => HttpState::Connected { host, port },
                        Err(reason) => HttpState::Failed {
                            error: ProtocolError::InvalidTarget { reason },
                        },
                    };
                    (next, reply)
                } else {
                    (HttpState::Headers { target }, Vec::new())
                }
            },
            HttpState::Connected { host, port } => (HttpState::Connected { host, port }, Vec::new()),
            HttpState::Failed { error } => (HttpState::Failed { error }, Vec::new()),
        }
    }
}

/// What one conversation came to.
pub struct HttpExchange {
    /// The destination, or why there is none.
    pub result: Result<(Seq<char>, u16), ProtocolError>,
    /// Everything written to the client, in order.
    pub written: Seq<u8>,
    /// How many of the lines were read.
    pub lines_read: nat,
}

/// The conversation that starts in `phase` with a client that sends `lines`
/// and then closes.
pub open spec fn exchange_from(phase: HttpPhase, lines: Seq<Seq<char>>) -> HttpExchange
    decreases lines.len(),
{
    if phase.is_terminal() {
        HttpExchange { result: phase.result(), written: Seq::empty(), lines_read: 0 }
    } else if lines.len() == 0 {
        let (next, reply) = phase.on_line(Seq::empty());
        HttpExchange { result: next.result(), written: reply, lines_read: 0 }
    } else {
        let (next, reply) = phase.on_line(lines[0]);
        let rest = exchange_from(next, lines.drop_first());
        HttpExchange {
            result: rest.result,
            written: reply + rest.written,
            lines_read: 1 + rest.lines_read,
        }
    }
}

/// The whole conversation with a client whose first byte is `first` and
/// whose input reads as `lines`.
pub open spec fn http_exchange(first: Option<u8>, lines: Seq<Seq<char>>) -> HttpExchange {
    match first_byte_verdict(first) {
        Err(error) => HttpExchange { result: Err(error), written: Seq::empty(), lines_read: 0 },
        Ok(_) => exchange_from(HttpPhase::RequestLine, lines),
    }
}

/// What `handle_http` reports of a conversation.
#[derive(Debug, PartialEq, Eq)]
pub struct HttpOutcome {
    /// The destination, or why there is none.
    pub result: Result<(String, u16), ProtocolError>,
    /// Everything to write to the client, in order.
    pub written: Vec<u8>,
    /// How many of the lines were read.
    pub lines_read: usize,
}

impl View for HttpOutcome {
    type V = HttpExchange;

    open spec fn view(&self) -> HttpExchange {
        HttpExchange {
            result: match self.result {
                Ok((host, port)) => Ok((host@, port)),
                Err(error) => Err(error),
            },
            written: self.written@,
            lines_read: self.lines_read as nat,
        }
    }
}

/// The texts of `lines`.
pub open spec fn texts(lines: Seq<String>) -> Seq<Seq<char>> {
    Seq::new(lines.len(), |i: int| lines[i]@)
}

fn finish(state: HttpState, written: Vec<u8>, lines_read: usize) -> (out: HttpOutcome)
    ensures
        out@ == (HttpExchange {
            result: state@.result(),
            written: written@,
            lines_read: lines_read as nat,
        }),
{
    let result = match state {
        HttpState::Connected { host, port } => Ok((host, port)),
        HttpState::Failed { error } => Err(error),
        _ => Err(ProtocolError::Truncated),
    };
    HttpOutcome { result, written, lines_read }
}

/// Runs the front end on a connection whose first byte is `first` and whose
/// input reads as `lines` before it ends.
pub fn handle_http(first: Option<u8>, lines: &[String]) -> (out: HttpOutcome)
    ensures
        out@ == http_exchange(first, texts(lines@)),
{
    match inspect_first_byte(first) {
        Err(error) => {
            return HttpOutcome { result: Err(error), written: Vec::new(), lines_read: 0 };
        },
        Ok(_) => {},
    }
    let total = lines.len();
    let ghost all = texts(lines@);
    let mut state = HttpState::new();
    let mut written: Vec<u8> = Vec::new();
    let mut i: usize = 0;
    proof {
        assert(all.skip(0) == all);
        let whole = exchange_from(HttpPhase::RequestLine, all);
        assert(written@ + whole.written == whole.written);
    }
    while !state.is_terminal() && i < total
        invariant
            i <= total,
            total == lines@.len(),
            all == texts(lines@),
            ({
                let rest = exchange_from(state@, all.skip(i as int));
                exchange_from(HttpPhase::RequestLine, all) == HttpExchange {
                    result: rest.result,
                    written: written@ + rest.written,
                    lines_read: i as nat + rest.lines_read,
                }
            }),
        decreases total - i,
    {
        let ghost before = state@;
        let ghost tail = all.skip(i as int);
        assert(tail[0] == lines@[i as int]@);
        assert(tail.drop_first() == all.skip(i + 1));
        let (next, mut reply) = state.on_line(lines[i].as_str());
        proof {
            let rest = exchange_from(next@, tail.drop_first());
            assert(exchange_from(before, tail) == HttpExchange {
                result: rest.result,
                written: reply@ + rest.written,
                lines_read: 1 + rest.lines_read,
            });
            assert(written@ + (reply@ + rest.written) == (written@ + reply@) + rest.written);
        }
        state = next;
        written.append(&mut reply);
        i += 1;
    }
    if state.is_terminal() {
        proof {
            let rest = exchange_from(state@, all.skip(i as int));
            assert(written@ + rest.written == written@);
        }
        finish(state, written, i)
    } else {
        let ghost before = state@;
        assert(all.skip(i as int).len() == 0);
        let (next, mut reply) = state.on_line("");
        proof {
            reveal_strlit("");
            assert(""@ =~= Seq::<char>::empty());
        }
        written.append(&mut reply);
        finish(next, written, i)
    }
}

/// A connection that opens with a TLS handshake fails before anything is
/// read, and nothing is written.
pub proof fn lemma_tls_rejected(lines: Seq<Seq<char>>)
    ensures
        http_exchange(Some(22u8), lines) == (HttpExchange {
            result: Err(ProtocolError::HttpsNotSupported),
            written: Seq::empty(),
            lines_read: 0,
        }),
{
}

/// The request line `CONNECT target HTTP/1.1`, with its line end.
pub open spec fn connect_line(target: Seq<char>) -> Seq<char> {
    connect_word() + seq![' '] + target + seq![
        ' ',
        'H',
        'T',
        'T',
        'P',
        '/',
        '1',
        '.',
        '1',
        '\r',
        '\n',
    ]
}

/// The line that ends the headers.
pub open spec fn blank_line() -> Seq<char> {
    seq!['\r', '\n']
}

/// The request line of a CONNECT to a target without whitespace names that
/// target.
proof fn lemma_connect_line_read(target: Seq<char>)
    requires
        target.len() > 0,
        forall|i: int| 0 <= i < target.len() ==> !is_whitespace(target[i]),
    ensures
        HttpPhase::RequestLine.on_line(connect_line(target)) == (
            HttpPhase::Headers { target },
            Seq::<u8>::empty(),
        ),
{
    let version = seq![' ', 'H', 'T', 'T', 'P', '/', '1', '.', '1', '\r', '\n'];
    let line = connect_line(target);
    let behind = seq![' '] + target + version;
    assert(line =~= connect_word() + behind);
    assert(line[0] == 'C');
    lemma_no_leading_space(line);
    assert(line.skip(0) == line);
    assert(behind[0] == ' ');
    lemma_word_len_joined(connect_word(), behind);
    assert(word_len(line) == 7);
    assert(line.take(7) =~= connect_word());
    assert(first_word(line) == connect_word());
    assert(line.skip(7) =~= behind);
    assert(after_first_word(line) == behind);
    let named = target + version;
    assert(behind =~= seq![' '] + named);
    assert(named[0] == target[0]);
    lemma_space_len_joined(seq![' '], named);
    assert(behind.skip(1) =~= named);
    assert(version[0] == ' ');
    lemma_word_len_joined(target, version);
    assert(named.take(target.len() as int) =~= target);
    assert(first_word(behind) == target);
}

/// A CONNECT request for a target without whitespace, with no headers, is
/// answered once its two lines are read, and the target is split into the
/// destination.
pub proof fn lemma_connect_answered(first: u8, target: Seq<char>, more: Seq<Seq<char>>)
    requires
        first != 22,
        target.len() > 0,
        forall|i: int| 0 <= i < target.len() ==> !is_whitespace(target[i]),
    ensures
        http_exchange(Some(first), seq![connect_line(target), blank_line()] + more) == (
        HttpExchange {
            result: target_phase(target).result(),
            written: established_reply(),
            lines_read: 2,
        }),
{
    let lines = seq![connect_line(target), blank_line()] + more;
    let waiting = HttpPhase::Headers { target };
    lemma_connect_line_read(target);
    assert(lines[0] == connect_line(target));
    let after = lines.drop_first();
    assert(after[0] == blank_line());
    assert(is_blank(blank_line())) by {
        reveal_with_fuel(space_len, 3);
    }
    assert(waiting.on_line(blank_line()) == (target_phase(target), established_reply()));
    let end = exchange_from(target_phase(target), after.drop_first());
    assert(end.written == Seq::<u8>::empty());
    assert(exchange_from(waiting, after) == HttpExchange {
        result: target_phase(target).result(),
        written: established_reply() + end.written,
        lines_read: 1,
    });
    assert(established_reply() + Seq::<u8>::empty() == established_reply());
    assert(Seq::<u8>::empty() + established_reply() == established_reply());
}

/// A request `CONNECT host:port HTTP/1.1` with no headers, for a host
/// without whitespace and without a closing bracket, reports that host and
/// port and is answered with the line `200 Connection Established`.
pub proof fn lemma_connect_accepted(first: u8, host: Seq<char>, port: u16, more: Seq<Seq<char>>)
    requires
        first != 22,
        forall|i: int| 0 <= i < host.len() ==> !is_whitespace(host[i]) && host[i] != ']',
    ensures
        http_exchange(
            Some(first),
            seq![connect_line(host_port_text(host, port)), blank_line()] + more,
        ) == (HttpExchange {
            result: Ok((host, port)),
            written: established_reply(),
            lines_read: 2,
        }),
{
    let target = host_port_text(host, port);
    let digits = decimal_text(port as nat);
    lemma_decimal_text(port as nat);
    assert forall|i: int| 0 <= i < target.len() implies !is_whitespace(target[i]) by {
        if i > host.len() {
            assert(target[i] == digits[i - host.len() - 1]);
            assert(is_digit(digits[i - host.len() - 1]));
        }
    }
    lemma_split_join(host, port);
    lemma_connect_answered(first, target, more);
}

} // verus!
