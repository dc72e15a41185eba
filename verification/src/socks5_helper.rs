//! The SOCKS5 front end: greeting, method selection and CONNECT request, as a
//! state machine over the bytes that the client sends.

use vstd::prelude::*;
use crate::address::{format_ipv4, ipv4_text, port_bytes, WireAddress};
use crate::ipv6::{format_ipv6, ipv6_text, segments_of};
use crate::error::ProtocolError;
use crate::text::{decode_lossy, lossy_utf8};

verus! {

/// Where a SOCKS5 conversation stands.
#[derive(Debug, Clone, PartialEq, Eq)]
pub enum Socks5State {
    /// Waiting for version and method count.
    Greeting,
    /// Waiting for `count` method identifiers.
    Methods { count: u8 },
    /// Waiting for version, command, reserved byte and address type.
    Request,
    /// Waiting for four address bytes and the port.
    Ipv4Address,
    /// Waiting for the length of a domain name.
    DomainLength,
    /// Waiting for a domain name of `length` bytes and the port.
    DomainName { length: u8 },
    /// Waiting for sixteen address bytes and the port.
    Ipv6Address,
    /// The client asked to be connected to `host:port`.
    Connected { host: String, port: u16 },
    /// The conversation failed.
    Failed { error: ProtocolError },
}

/// A `Socks5State` with its host as a sequence of characters.
pub enum Socks5Phase {
    Greeting,
    Methods { count: u8 },
    Request,
    Ipv4Address,
    DomainLength,
    DomainName { length: u8 },
    Ipv6Address,
    Connected { host: Seq<char>, port: u16 },
    Failed { error: ProtocolError },
}

impl View for Socks5State {
    type V = Socks5Phase;

    open spec fn view(&self) -> Socks5Phase {
        match *self {
            Socks5State::Greeting => Socks5Phase::Greeting,
            Socks5State::Methods { count } => Socks5Phase::Methods { count },
            Socks5State::Request => Socks5Phase::Request,
            Socks5State::Ipv4Address => Socks5Phase::Ipv4Address,
            Socks5State::DomainLength => Socks5Phase::DomainLength,
            Socks5State::DomainName { length } => Socks5Phase::DomainName { length },
            Socks5State::Ipv6Address => Socks5Phase::Ipv6Address,
            Socks5State::Connected { host, port } => Socks5Phase::Connected { host: host@, port },
            Socks5State::Failed { error } => Socks5Phase::Failed { error },
        }
    }
}

/// The reply that selects the method "no authentication".
pub open spec fn method_reply() -> Seq<u8> {
    seq![5u8, 0u8]
}

/// The reply that reports success, with the bound address left at zero.
pub open spec fn success_reply() -> Seq<u8> {
    seq![5u8, 0u8, 0u8, 1u8, 0u8, 0u8, 0u8, 0u8, 0u8, 0u8]
}

/// The 16-bit number with high byte `hi` and low byte `lo`.
pub open spec fn be16(hi: u8, lo: u8) -> u16 {
    (hi as int * 256 + lo as int) as u16
}

impl Socks5Phase {
    /// Whether the conversation is over.
    pub open spec fn is_terminal(self) -> bool {
        self is Connected || self is Failed
    }

    /// How many bytes the next step reads.
    pub open spec fn wanted(self) -> nat {
        match self {
            Socks5Phase::Greeting => 2,
            Socks5Phase::Methods { count } => count as nat,
            Socks5Phase::Request => 4,
            Socks5Phase::Ipv4Address => 6,
            Socks5Phase::DomainLength => 1,
            Socks5Phase::DomainName { length } => length as nat + 2,
            Socks5Phase::Ipv6Address => 18,
            Socks5Phase::Connected { .. } => 0,
            Socks5Phase::Failed { .. } => 0,
        }
    }

    /// How many steps can follow at most.
    pub open spec fn steps_left(self) -> nat {
        match self {
            Socks5Phase::Greeting => 5,
            Socks5Phase::Methods { .. } => 4,
            Socks5Phase::Request => 3,
            Socks5Phase::Ipv4Address => 1,
            Socks5Phase::DomainLength => 2,
            Socks5Phase::DomainName { .. } => 1,
            Socks5Phase::Ipv6Address => 1,
            Socks5Phase::Connected { .. } => 0,
            Socks5Phase::Failed { .. } => 0,
        }
    }

    /// The phase after `chunk` has been read, and the bytes to write back.
    /// A chunk of another length than `wanted` says that the input ended.
    pub open spec fn step(self, chunk: Seq<u8>) -> (Socks5Phase, Seq<u8>) {
        let truncated = (Socks5Phase::Failed { error: ProtocolError::Truncated }, Seq::<u8>::empty());
        match self {
            Socks5Phase::Greeting => if chunk.len() != 2 || chunk[0] != 5 {
                (Socks5Phase::Failed { error: ProtocolError::MalformedHandshake }, Seq::empty())
            } else {
                (Socks5Phase::Methods { count: chunk[1] }, Seq::empty())
            },
            Socks5Phase::Methods { count } => if chunk.len() != count {
                truncated
            } else if !chunk.contains(0u8) {
                (Socks5Phase::Failed { error: ProtocolError::NoAcceptableAuth }, Seq::empty())
            } else {
                (Socks5Phase::Request, method_reply())
            },
            Socks5Phase::Request => if chunk.len() != 4 {
                truncated
            } else if chunk[0] != 5 {
                (Socks5Phase::Failed { error: ProtocolError::MalformedRequest }, Seq::empty())
            } else if chunk[1] != 1 {
                (Socks5Phase::Failed { error: ProtocolError::UnsupportedCommand }, Seq::empty())
            } else if chunk[3] == 1 {
                (Socks5Phase::Ipv4Address, Seq::empty())
            } else if chunk[3] == 3 {
                (Socks5Phase::DomainLength, Seq::empty())
            } else if chunk[3] == 4 {
                (Socks5Phase::Ipv6Address, Seq::empty())
            } else {
                (Socks5Phase::Failed { error: ProtocolError::UnknownAddressType }, Seq::empty())
            },
            Socks5Phase::Ipv4Address => if chunk.len() != 6 {
                truncated
            } else {
                (
                    Socks5Phase::Connected {
                        host: ipv4_text(chunk.take(4)),
                        port: be16(chunk[4], chunk[5]),
                    },
                    success_reply(),
                )
            },
            Socks5Phase::DomainLength => if chunk.len() != 1 {
                truncated
            } else {
                (Socks5Phase::DomainName { length: chunk[0] }, Seq::empty())
            },
            Socks5Phase::DomainName { length } => if chunk.len() != length + 2 {
                truncated
            } else {
                (
                    Socks5Phase::Connected {
                        host: lossy_utf8(chunk.take(length as int)),
                        port: be16(chunk[length as int], chunk[length + 1]),
                    },
                    success_reply(),
                )
            },
            Socks5Phase::Ipv6Address => if chunk.len() != 18 {
                truncated
            } else {
                (
                    Socks5Phase::Connected {
                        host: seq!['['] + ipv6_text(segments_of(chunk.take(16))) + seq![']'],
                        port: be16(chunk[16], chunk[17]),
                    },
                    success_reply(),
                )
            },
            Socks5Phase::Connected { .. } => (self, Seq::empty()),
            Socks5Phase::Failed { .. } => (self, Seq::empty()),
        }
    }
}

/// Whether `chunk` holds the byte `b`.
fn has_byte(chunk: &[u8], b: u8) -> (found: bool)
    ensures
        found == chunk@.contains(b),
{
    let mut i: usize = 0;
    while i < chunk.len()
        invariant
            i <= chunk@.len(),
            forall|j: int| 0 <= j < i ==> chunk@[j] != b,
        decreases chunk@.len() - i,
    {
        if chunk[i] == b {
            return true;
        }
        i += 1;
    }
    false
}

/// The port in the two bytes at `at`, in network order.
fn read_port(chunk: &[u8], at: usize) -> (port: u16)
    requires
        at + 2 <= chunk@.len(),
    ensures
        port == be16(chunk@[at as int], chunk@[at + 1]),
{
    let hi: u16 = chunk[at] as u16;
    let lo: u16 = chunk[at + 1] as u16;
    hi * 256 + lo
}

fn failed(error: ProtocolError) -> (out: (Socks5State, Vec<u8>))
    ensures
        out.0@ == (Socks5Phase::Failed { error }),
        out.1@ == Seq::<u8>::empty(),
{
    (Socks5State::Failed { error }, Vec::new())
}

fn connected(host: String, port: u16) -> (out: (Socks5State, Vec<u8>))
    ensures
        out.0@ == (Socks5Phase::Connected { host: host@, port }),
        out.1@ == success_reply(),
{
    let mut reply: Vec<u8> = Vec::new();
    reply.push(5);
    reply.push(0);
    reply.push(0);
    reply.push(1);
    reply.push(0);
    reply.push(0);
    reply.push(0);
    reply.push(0);
    reply.push(0);
    reply.push(0);
    assert(reply@ == success_reply());
    (Socks5State::Connected { host, port }, reply)
}

impl Socks5State {
    /// The state in which every conversation starts.
    pub fn new() -> (state: Socks5State)
        ensures
            state@ == Socks5Phase::Greeting,
    {
        Socks5State::Greeting
    }

    /// Whether the conversation is over.
    pub fn is_terminal(&self) -> (b: bool)
        ensures
            b == self@.is_terminal(),
    {
        match self {
            Socks5State::Connected { .. } => true,
            Socks5State::Failed { .. } => true,
            _ => false,
        }
    }

    /// How many bytes to read for the next step: at most so many in one read
    /// for the greeting, exactly so many afterwards.
    pub fn wanted(&self) -> (n: usize)
        ensures
            n == self@.wanted(),
    {
        match self {
            Socks5State::Greeting => 2,
            Socks5State::Methods { count } => *count as usize,
            Socks5State::Request => 4,
            Socks5State::Ipv4Address => 6,
            Socks5State::DomainLength => 1,
            Socks5State::DomainName { length } => *length as usize + 2,
            Socks5State::Ipv6Address => 18,
            Socks5State::Connected { .. } => 0,
            Socks5State::Failed { .. } => 0,
        }
    }

    /// Takes the bytes that were read and gives the next state with the bytes
    /// to write back to the client.
    pub fn advance(self, chunk: &[u8]) -> (out: (Socks5State, Vec<u8>))
        ensures
            (out.0@, out.1@) == self@.step(chunk@),
    {
        match self {
            Socks5State::Greeting => {
                if chunk.len() != 2 || chunk[0] != 5 {
                    failed(ProtocolError::MalformedHandshake)
                } else {
                    (Socks5State::Methods { count: chunk[1] }, Vec::new())
                }
            },
            Socks5State::Methods { count } => {
                if chunk.len() != count as usize {
                    failed(ProtocolError::Truncated)
                } else if !has_byte(chunk, 0) {
                    failed(ProtocolError::NoAcceptableAuth)
                } else {
                    let mut reply: Vec<u8> = Vec::new();
                    reply.push(5);
                    reply.push(0);
                    assert(reply@ == method_reply());
                    (Socks5State::Request, reply)
                }
            },
            Socks5State::Request => {
                if chunk.len() != 4 {
                    failed(ProtocolError::Truncated)
                } else if chunk[0] != 5 {
                    failed(ProtocolError::MalformedRequest)
                } else if chunk[1] != 1 {
                    failed(ProtocolError::UnsupportedCommand)
                } else if chunk[3] == 1 {
                    (Socks5State::Ipv4Address, Vec::new())
                } else if chunk[3] == 3 {
                    (Socks5State::DomainLength, Vec::new())
                } else if chunk[3] == 4 {
                    (Socks5State::Ipv6Address, Vec::new())
                } else {
                    failed(ProtocolError::UnknownAddressType)
                }
            },
            Socks5State::Ipv4Address => {
                if chunk.len() != 6 {
                    failed(ProtocolError::Truncated)
                } else {
                    let octets: [u8; 4] = [chunk[0], chunk[1], chunk[2], chunk[3]];
                    assert(octets@ == chunk@.take(4));
                    connected(format_ipv4(&octets), read_port(chunk, 4))
                }
            },
            Socks5State::DomainLength => {
                if chunk.len() != 1 {
                    failed(ProtocolError::Truncated)
                } else {
                    (Socks5State::DomainName { length: chunk[0] }, Vec::new())
                }
            },
            Socks5State::DomainName { length } => {
                let n: usize = length as usize;
                if chunk.len() != n + 2 {
                    failed(ProtocolError::Truncated)
                } else {
                    let name = &chunk[0..n];
                    assert(name@ == chunk@.take(n as int));
                    connected(decode_lossy(name), read_port(chunk, n))
                }
            },
            Socks5State::Ipv6Address => {
                if chunk.len() != 18 {
                    failed(ProtocolError::Truncated)
                } else {
                    let mut octets = [0u8; 16];
                    let mut i: usize = 0;
                    while i < 16
                        invariant
                            i <= 16,
                            chunk@.len() == 18,
                            forall|j: int| 0 <= j < i ==> octets@[j] == chunk@[j],
                        decreases 16 - i,
                    {
                        octets[i] = chunk[i];
                        i += 1;
                    }
                    assert(octets@ == chunk@.take(16));
                    let mut host = String::new();
                    host.push('[');
                    host.append(format_ipv6(&octets).as_str());
                    host.push(']');
                    assert(host@ == seq!['['] + ipv6_text(segments_of(chunk@.take(16))) + seq![']']);
                    connected(host, read_port(chunk, 16))
                }
            },
            Socks5State::Connected { host, port } => (
                Socks5State::Connected { host, port },
                Vec::new(),
            ),
            Socks5State::Failed { error } => (Socks5State::Failed { error }, Vec::new()),
        }
    }
}

/// What one conversation came to.
pub struct Socks5Exchange {
    /// The destination, or why there is none.
    pub result: Result<(Seq<char>, u16), ProtocolError>,
    /// Everything written to the client, in order.
    pub written: Seq<u8>,
    /// How many bytes of the client's were read.
    pub consumed: nat,
}

/// The conversation that starts in `phase` with a client that sends `stream`
/// and then closes: each step reads what the phase wants, or what is left.
pub open spec fn exchange_from(phase: Socks5Phase, stream: Seq<u8>) -> Socks5Exchange
    decreases phase.steps_left(),
{
    match phase {
        Socks5Phase::Connected { host, port } => Socks5Exchange {
            result: Ok((host, port)),
            written: Seq::empty(),
            consumed: 0,
        },
        Socks5Phase::Failed { error } => Socks5Exchange {
            result: Err(error),
            written: Seq::empty(),
            consumed: 0,
        },
        _ => {
            let n = if phase.wanted() <= stream.len() {
                phase.wanted()
            } else {
                stream.len()
            };
            let (next, reply) = phase.step(stream.take(n as int));
            let rest = exchange_from(next, stream.skip(n as int));
            Socks5Exchange {
                result: rest.result,
                written: reply + rest.written,
                consumed: n + rest.consumed,
            }
        },
    }
}

/// The whole conversation with a client that sends `stream`.
pub open spec fn socks5_exchange(stream: Seq<u8>) -> Socks5Exchange {
    exchange_from(Socks5Phase::Greeting, stream)
}

/// What `handle_socks5` reports of a conversation.
#[derive(Debug, PartialEq, Eq)]
pub struct Socks5Outcome {
    /// The destination, or why there is none.
    pub result: Result<(String, u16), ProtocolError>,
    /// Everything to write to the client, in order.
    pub written: Vec<u8>,
    /// How many bytes of the client's were read.
    pub consumed: usize,
}

impl View for Socks5Outcome {
    type V = Socks5Exchange;

    open spec fn view(&self) -> Socks5Exchange {
        Socks5Exchange {
            result: match self.result {
                Ok((host, port)) => Ok((host@, port)),
                Err(error) => Err(error),
            },
            written: self.written@,
            consumed: self.consumed as nat,
        }
    }
}

/// Runs the front end on everything that a client sent before it closed.
pub fn handle_socks5(stream: &[u8]) -> (out: Socks5Outcome)
    ensures
        out@ == socks5_exchange(stream@),
{
    let mut state = Socks5State::new();
    let mut written: Vec<u8> = Vec::new();
    let mut consumed: usize = 0;
    proof {
        assert(stream@.skip(0) == stream@);
        assert(written@ + socks5_exchange(stream@).written == socks5_exchange(stream@).written);
    }
    while !state.is_terminal()
        invariant
            consumed <= stream@.len(),
            ({
                let rest = exchange_from(state@, stream@.skip(consumed as int));
                socks5_exchange(stream@) == Socks5Exchange {
                    result: rest.result,
                    written: written@ + rest.written,
                    consumed: (consumed + rest.consumed) as nat,
                }
            }),
        decreases state@.steps_left(),
    {
        let left: usize = stream.len() - consumed;
        let n: usize = if state.wanted() <= left {
            state.wanted()
        } else {
            left
        };
        let chunk = &stream[consumed..consumed + n];
        let ghost before = state@;
        let ghost tail = stream@.skip(consumed as int);
        assert(chunk@ == tail.take(n as int));
        assert(tail.skip(n as int) == stream@.skip(consumed + n));
        let (next, mut reply) = state.advance(chunk);
        proof {
            let rest = exchange_from(next@, tail.skip(n as int));
            assert(exchange_from(before, tail) == Socks5Exchange {
                result: rest.result,
                written: reply@ + rest.written,
                consumed: (n + rest.consumed) as nat,
            });
            assert(written@ + (reply@ + rest.written) == (written@ + reply@) + rest.written);
        }
        state = next;
        written.append(&mut reply);
        consumed += n;
    }
    let result = match state {
        Socks5State::Connected { host, port } => Ok((host, port)),
        Socks5State::Failed { error } => Err(error),
        _ => Err(ProtocolError::Truncated),
    };
    let out = Socks5Outcome { result, written, consumed };
    assert(out@.written == socks5_exchange(stream@).written);
    out
}

/// The greeting of a client that offers `methods`.
pub open spec fn greeting(methods: Seq<u8>) -> Seq<u8> {
    seq![5u8, methods.len() as u8] + methods
}

/// The CONNECT request for `target` and `port`.
pub open spec fn connect_request(reserved: u8, target: WireAddress, port: u16) -> Seq<u8> {
    seq![5u8, 1u8, reserved] + target.encoded() + port_bytes(port)
}

/// The host name under which the front end reports `target`.
pub open spec fn reported_host(target: WireAddress) -> Seq<char> {
    match target {
        WireAddress::Ipv4 { octets } => ipv4_text(octets),
        WireAddress::Domain { name } => lossy_utf8(name),
        WireAddress::Ipv6 { octets } => seq!['['] + ipv6_text(segments_of(octets)) + seq![']'],
    }
}

/// Once the greeting of a client that offers "no authentication" is read,
/// the method reply is written and the conversation goes on with the request.
proof fn lemma_greeting_passed(methods: Seq<u8>, tail: Seq<u8>)
    requires
        methods.len() <= 255,
        methods.contains(0u8),
    ensures
        socks5_exchange(greeting(methods) + tail) == ({
            let rest = exchange_from(Socks5Phase::Request, tail);
            Socks5Exchange {
                result: rest.result,
                written: method_reply() + rest.written,
                consumed: greeting(methods).len() + rest.consumed,
            }
        }),
{
    let stream = greeting(methods) + tail;
    let after_greeting = stream.skip(2);
    reveal_with_fuel(exchange_from, 3);
    assert(stream.take(2) == seq![5u8, methods.len() as u8]);
    assert(after_greeting.take(methods.len() as int) == methods);
    assert(after_greeting.skip(methods.len() as int) == tail);
    let rest = exchange_from(Socks5Phase::Request, tail);
    assert(Seq::<u8>::empty() + (method_reply() + rest.written) == method_reply() + rest.written);
}

/// The conversation from a phase that waits for input is its next step, then
/// the conversation from the phase that the step leads to.
proof fn lemma_unfold(phase: Socks5Phase, stream: Seq<u8>, n: int)
    requires
        !phase.is_terminal(),
        n == if phase.wanted() <= stream.len() {
            phase.wanted() as int
        } else {
            stream.len() as int
        },
    ensures
        exchange_from(phase, stream) == ({
            let (next, reply) = phase.step(stream.take(n));
            let rest = exchange_from(next, stream.skip(n));
            Socks5Exchange {
                result: rest.result,
                written: reply + rest.written,
                consumed: (n + rest.consumed) as nat,
            }
        }),
{
}

/// The last step of an accepted request: the address and the port are read,
/// the success reply is written.
proof fn lemma_address_read(
    phase: Socks5Phase,
    block: Seq<u8>,
    rest: Seq<u8>,
    host: Seq<char>,
    port: u16,
)
    requires
        !phase.is_terminal(),
        phase.wanted() == block.len(),
        phase.step(block) == (Socks5Phase::Connected { host, port }, success_reply()),
    ensures
        exchange_from(phase, block + rest) == (Socks5Exchange {
            result: Ok((host, port)),
            written: success_reply(),
            consumed: block.len(),
        }),
{
    let stream = block + rest;
    let n = block.len() as int;
    lemma_unfold(phase, stream, n);
    assert(stream.take(n) == block);
    let end = exchange_from(Socks5Phase::Connected { host, port }, stream.skip(n));
    assert(end.written == Seq::<u8>::empty());
    assert(success_reply() + Seq::<u8>::empty() == success_reply());
}

/// The port that its two bytes denote is the port.
proof fn lemma_port_bytes(port: u16)
    ensures
        be16(port_bytes(port)[0], port_bytes(port)[1]) == port,
        port_bytes(port).len() == 2,
{
}

/// A CONNECT request for a well-formed target is answered with the success
/// reply, and the target is reported.
proof fn lemma_request_passed(reserved: u8, target: WireAddress, port: u16, rest: Seq<u8>)
    requires
        target.well_formed(),
    ensures
        exchange_from(Socks5Phase::Request, connect_request(reserved, target, port) + rest) == (
        Socks5Exchange {
            result: Ok((reported_host(target), port)),
            written: success_reply(),
            consumed: connect_request(reserved, target, port).len(),
        }),
{
    let request = connect_request(reserved, target, port);
    let stream = request + rest;
    let header = seq![5u8, 1u8, reserved, target.encoded()[0]];
    let after_header = stream.skip(4);
    let pb = port_bytes(port);
    lemma_port_bytes(port);
    lemma_unfold(Socks5Phase::Request, stream, 4);
    assert(stream.take(4) == header);
    assert(Seq::<u8>::empty() + success_reply() == success_reply());
    match target {
        WireAddress::Ipv4 { octets } => {
            let block = octets + pb;
            assert(after_header == block + rest);
            assert(block.take(4) == octets);
            assert(block[4] == pb[0] && block[5] == pb[1]);
            assert(Socks5Phase::Request.step(header).0 == Socks5Phase::Ipv4Address);
            lemma_address_read(Socks5Phase::Ipv4Address, block, rest, ipv4_text(octets), port);
        },
        WireAddress::Domain { name } => {
            let n = name.len() as int;
            let length = seq![name.len() as u8];
            let block = name + pb;
            let waiting = Socks5Phase::DomainName { length: name.len() as u8 };
            assert(after_header == length + (block + rest));
            assert(Socks5Phase::Request.step(header).0 == Socks5Phase::DomainLength);
            lemma_unfold(Socks5Phase::DomainLength, after_header, 1);
            assert(after_header.take(1) == length);
            assert(after_header.skip(1) == block + rest);
            assert(Socks5Phase::DomainLength.step(length) == (waiting, Seq::<u8>::empty()));
            assert(block.take(n) == name);
            assert(block[n] == pb[0] && block[n + 1] == pb[1]);
            lemma_address_read(waiting, block, rest, lossy_utf8(name), port);
        },
        WireAddress::Ipv6 { octets } => {
            let block = octets + pb;
            assert(after_header == block + rest);
            assert(block.take(16) == octets);
            assert(block[16] == pb[0] && block[17] == pb[1]);
            assert(Socks5Phase::Request.step(header).0 == Socks5Phase::Ipv6Address);
            lemma_address_read(Socks5Phase::Ipv6Address, block, rest, reported_host(target), port);
        },
    }
}

/// A client that offers "no authentication" and asks to be connected to a
/// well-formed target gets the method reply, then the success reply, and the
/// front end reports that target and port; what the client sends after the
/// request is left unread.
pub proof fn lemma_connect_accepted(
    methods: Seq<u8>,
    reserved: u8,
    target: WireAddress,
    port: u16,
    rest: Seq<u8>,
)
    requires
        methods.len() <= 255,
        methods.contains(0u8),
        target.well_formed(),
    ensures
        socks5_exchange(greeting(methods) + connect_request(reserved, target, port) + rest)
            == (Socks5Exchange {
            result: Ok((reported_host(target), port)),
            written: method_reply() + success_reply(),
            consumed: greeting(methods).len() + connect_request(reserved, target, port).len(),
        }),
{
    let request = connect_request(reserved, target, port);
    lemma_greeting_passed(methods, request + rest);
    lemma_request_passed(reserved, target, port, rest);
    assert(greeting(methods) + request + rest == greeting(methods) + (request + rest));
}

/// A request with another command than CONNECT, or with an address type that
/// is none of the three, fails, and nothing but the method reply is written.
pub proof fn lemma_request_refused(
    methods: Seq<u8>,
    command: u8,
    reserved: u8,
    address_type: u8,
    rest: Seq<u8>,
)
    requires
        methods.len() <= 255,
        methods.contains(0u8),
        command != 1 || (address_type != 1 && address_type != 3 && address_type != 4),
    ensures
        socks5_exchange(greeting(methods) + seq![5u8, command, reserved, address_type] + rest)
            == (Socks5Exchange {
            result: Err(
                if command != 1 {
                    ProtocolError::UnsupportedCommand
                } else {
                    ProtocolError::UnknownAddressType
                },
            ),
            written: method_reply(),
            consumed: methods.len() + 6,
        }),
{
    let header = seq![5u8, command, reserved, address_type];
    let stream = greeting(methods) + header + rest;
    let after_greeting = stream.skip(2);
    let after_methods = after_greeting.skip(methods.len() as int);
    reveal_with_fuel(exchange_from, 6);
    assert(stream.take(2) == seq![5u8, methods.len() as u8]);
    assert(after_greeting.take(methods.len() as int) == methods);
    assert(after_methods == header + rest);
    assert(after_methods.take(4) == header);
}

/// Whatever the client sends, the success reply is written exactly when a
/// destination is reported, and then it follows the method reply; a failed
/// conversation has written nothing, or the method reply alone.
pub proof fn lemma_success_reply_iff_connected(stream: Seq<u8>)
    ensures
        socks5_exchange(stream).result is Ok <==> socks5_exchange(stream).written == method_reply()
            + success_reply(),
        socks5_exchange(stream).result is Err ==> socks5_exchange(stream).written == Seq::<
            u8,
        >::empty() || socks5_exchange(stream).written == method_reply(),
{
    reveal_with_fuel(exchange_from, 6);
    let ex = socks5_exchange(stream);
    assert((method_reply() + success_reply()).len() == 12);
    assert(method_reply().len() == 2);
    assert(ex.result is Ok ==> ex.written =~= method_reply() + success_reply());
    assert(ex.result is Err ==> ex.written =~= Seq::<u8>::empty() || ex.written =~= method_reply());
}

} // verus!
