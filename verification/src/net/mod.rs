//! Networking foundation: the driver interface, the loopback driver, ping
//! and the HTTP client stub.

pub mod driver;
pub mod http;
pub mod loopback;

use vstd::prelude::*;

use crate::text;
use driver::{NetDriver, SendResult};
use loopback::{overwrite_prefix, LoopbackDriver, LoopbackView};

verus! {

/// The network stack: the loopback device and whether it was brought up.
pub struct NetState {
    loopback: LoopbackDriver,
    initialized: bool,
}

pub struct NetView {
    pub loopback: LoopbackView,
    pub initialized: bool,
}

impl View for NetState {
    type V = NetView;

    closed spec fn view(&self) -> NetView {
        NetView { loopback: self.loopback@, initialized: self.initialized }
    }
}

/// The bytes of the ping payload, `tuwaiqos-ping`.
pub open spec fn ping_payload() -> Seq<u8> {
    seq![116u8, 117u8, 119u8, 97u8, 105u8, 113u8, 111u8, 115u8, 45u8, 112u8, 105u8, 110u8, 103u8]
}

pub open spec fn is_local_host(host: Seq<char>) -> bool {
    host == "localhost"@ || host == "127.0.0.1"@
}

/// What `ping` answers and leaves behind.
pub open spec fn ping_spec(v: NetView, host: Seq<char>) -> (NetView, Result<Seq<char>, &'static str>) {
    let h = text::trim_spec(host);
    if !is_local_host(h) {
        (v, Err("only localhost is supported"))
    } else if !v.initialized {
        (v, Err("network not initialized"))
    } else if !v.loopback.up {
        (v, Err("loopback dropped packet"))
    } else {
        let sent = LoopbackView {
            buffer: overwrite_prefix(v.loopback.buffer, ping_payload(), 13),
            length: 13,
            up: true,
        };
        (NetView { loopback: sent, ..v }, Ok("Reply from localhost: ok"@))
    }
}

impl NetState {
    /// The stack before `init`: the loopback is down.
    pub fn new() -> (r: Self)
        ensures
            r@.loopback == (LoopbackView {
                buffer: Seq::new(512, |i: int| 0u8),
                length: 0,
                up: false,
            }),
            !r@.initialized,
    {
        NetState { loopback: LoopbackDriver::new(), initialized: false }
    }
}

/// Brings up the loopback driver.
pub fn init(net: &mut NetState)
    ensures
        final(net)@ == (NetView {
            loopback: LoopbackView { length: 0, up: true, ..old(net)@.loopback },
            initialized: true,
        }),
{
    net.loopback.init();
    net.initialized = true;
}

fn loopback_mut(net: &mut NetState) -> (r: Result<&mut LoopbackDriver, &'static str>)
    ensures
        old(net)@.initialized ==> r is Ok && *r->Ok_0 == old(net).loopback && final(net).loopback
            == *final(r->Ok_0) && final(net).initialized,
        !old(net)@.initialized ==> r is Err && r->Err_0 == "network not initialized" && *final(net)
            == *old(net),
{
    if !net.initialized {
        return Err("network not initialized");
    }
    Ok(&mut net.loopback)
}

/// High-level status for `net status`.
pub fn status_lines() -> (r: [&'static str; 2])
    ensures
        r[0]@ == "Network: initialized"@,
        r[1]@ == "Loopback: active"@,
{
    ["Network: initialized", "Loopback: active"]
}

/// Sends a test packet to localhost and reports the result.
pub fn ping(net: &mut NetState, host: &str) -> (r: Result<String, &'static str>)
    ensures
        ({
            let (v2, res) = ping_spec(old(net)@, host@);
            &&& final(net)@ == v2
            &&& match (r, res) {
                (Ok(s), Ok(t)) => s@ == t,
                (Err(e), Err(e2)) => e == e2,
                _ => false,
            }
        }),
{
    let host = text::trim(host);
    if !text::str_eq(host, "localhost") && !text::str_eq(host, "127.0.0.1") {
        return Err("only localhost is supported");
    }
    let driver = match loopback_mut(net) {
        Ok(d) => d,
        Err(e) => return Err(e),
    };
    let payload: [u8; 13] = [116u8, 117, 119, 97, 105, 113, 111, 115, 45, 112, 105, 110, 103];
    assert(payload@ =~= ping_payload());
    match driver.send(payload.as_slice()) {
        SendResult::Delivered => {},
        SendResult::Dropped => return Err("loopback dropped packet"),
    }
    let mut buffer = [0u8; 64];
    let received = match driver.receive(vstd::array::ref_mut_array_unsizing_coercion(&mut buffer)) {
        Some(n) => n,
        None => return Err("no loopback reply"),
    };
    if received != payload.len() {
        return Err("unexpected reply size");
    }
    Ok(String::from_str("Reply from localhost: ok"))
}

/// The HTTP client stub.
pub fn http_client() -> (r: http::HttpClient) {
    http::HttpClient::new()
}

pub fn is_initialized(net: &NetState) -> (r: bool)
    ensures
        r == net@.initialized,
{
    net.initialized
}

/// Ping always reaches localhost once the network is up: for either name
/// of the local host, on an initialized stack, the reply is received.
pub proof fn lemma_ping_after_init(v: NetView, host: Seq<char>)
    requires
        v.initialized,
        v.loopback.up,
        is_local_host(text::trim_spec(host)),
    ensures
        ping_spec(v, host).1 == Ok::<Seq<char>, &'static str>("Reply from localhost: ok"@),
{
}

/// A stack that was initialized has its loopback up.
pub open spec fn stack_consistent(v: NetView) -> bool {
    v.initialized ==> v.loopback.up
}

/// Every reachable stack is consistent: a new one is not initialized,
/// `init` brings the loopback up with it, and `ping` keeps it so.  (So the
/// dropped-packet answer of `ping` never comes from a stack built by these
/// functions.)
pub proof fn lemma_stack_stays_consistent(v: NetView, host: Seq<char>)
    requires
        stack_consistent(v),
    ensures
        stack_consistent(ping_spec(v, host).0),
        stack_consistent(
            NetView { loopback: LoopbackView { length: 0, up: true, ..v.loopback }, initialized: true },
        ),
        v.initialized ==> ping_spec(v, host).1 != Err::<Seq<char>, &'static str>(
            "loopback dropped packet",
        ),
{
}

} // verus!
