//! What to do with an accepted connection: where to dial, and what to send
//! before the relay starts.

use vstd::prelude::*;
use crate::address::{host_port_text, join_host_port};
use crate::router::{route, Disposition, Route, Router};
use crate::settings::ServerInfo;
use crate::trojan_util::{
    classify_host, credential_of, trojan_frame, DialPlan, TrojanError, TrojanUtil,
};

verus! {

/// The steps that bring a connection to its destination.
#[derive(Debug, PartialEq, Eq)]
pub enum Transfer<'a> {
    /// Dial `target` and relay; the label says which rule decided.
    Direct { target: String, label: String },
    /// Dial `server` as `dial` says, send `request` through the tunnel, and
    /// relay. Where no request can be built, give the connection up.
    Tunnel { server: &'a ServerInfo, dial: DialPlan, request: Result<Vec<u8>, TrojanError> },
}

impl<'a> Transfer<'a> {
    /// Whether the transfer carries out the routing decision `route` for the
    /// destination `addr:port`, with the servers of `router`.
    pub open spec fn carries_out(self, route: Route, router: &Router, addr: Seq<char>, port: u16) -> bool {
        let pool = router.context().servers();
        match (self, route) {
            (Transfer::Direct { target, label }, Route::Direct { label: text }) => {
                &&& label@ == text
                &&& target@ == host_port_text(addr, port)
            },
            (Transfer::Tunnel { server, dial, request }, Route::Proxy { index }) => {
                &&& 1 <= index <= pool.list@.len()
                &&& *server == pool.list@[index - 1]
                &&& dial.address@ == host_port_text(server.host@, server.port)
                &&& dial.server_name@ == server.sni@
                &&& dial.timeout_secs == 5
                &&& match request {
                    Ok(frame) => classify_host(addr).well_formed() && frame@ == trojan_frame(
                        credential_of(server.key@),
                        classify_host(addr),
                        port,
                    ),
                    Err(e) => e == TrojanError::DomainTooLong && !classify_host(addr).well_formed(),
                }
            },
            _ => false,
        }
    }
}

/// Routes the destination `addr:port` and lays out what follows: for a
/// direct connection the address to dial, for a tunnelled one the server to
/// dial and the request that opens the tunnel.
pub fn transfer<'a>(router: &'a Router, addr: &str, port: u16) -> (out: Transfer<'a>)
    ensures
        out.carries_out(route(&router.context().settings(), addr@), router, addr@, port),
{
    match router.do_route(addr) {
        Disposition::Direct { label } => Transfer::Direct {
            target: join_host_port(addr, port),
            label,
        },
        Disposition::Proxy { server } => Transfer::Tunnel {
            server,
            dial: TrojanUtil::create_connection(server),
            request: TrojanUtil::send_trojan_request(server.key.as_str(), addr, port),
        },
    }
}

} // verus!
