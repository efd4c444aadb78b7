//! Loopback network driver.
//!
//! Packets sent to `127.0.0.1` never leave the machine: they are copied
//! into an internal buffer and read back, which is enough to test the
//! networking stack before a real NIC driver exists.

use vstd::prelude::*;

use super::driver::{NetDriver, SendResult};

verus! {

pub const BUFFER_SIZE: usize = 512;

pub struct LoopbackDriver {
    buffer: [u8; 512],
    length: usize,
    up: bool,
}

pub struct LoopbackView {
    pub buffer: Seq<u8>,
    pub length: nat,
    pub up: bool,
}

impl View for LoopbackDriver {
    type V = LoopbackView;

    closed spec fn view(&self) -> LoopbackView {
        LoopbackView { buffer: self.buffer@, length: self.length as nat, up: self.up }
    }
}

/// The driver's well-formedness: a full buffer, holding at most that much.
pub open spec fn loopback_wf(v: LoopbackView) -> bool {
    v.buffer.len() == BUFFER_SIZE && v.length <= BUFFER_SIZE
}

/// `dst` with its first `len` bytes taken from `src`.
pub open spec fn overwrite_prefix(dst: Seq<u8>, src: Seq<u8>, len: int) -> Seq<u8> {
    src.take(len) + dst.skip(len)
}

pub open spec fn min(a: int, b: int) -> int {
    if a <= b {
        a
    } else {
        b
    }
}

impl LoopbackDriver {
    #[verifier::type_invariant]
    spec fn holds_at_most_buffer(&self) -> bool {
        self.length <= BUFFER_SIZE
    }

    /// A driver that is down and holds no packet.
    pub fn new() -> (r: Self)
        ensures
            r@ == (LoopbackView { buffer: Seq::new(512, |i: int| 0u8), length: 0, up: false }),
    {
        let r = LoopbackDriver { buffer: [0u8; 512], length: 0, up: false };
        assert(r.buffer@ =~= Seq::new(512, |i: int| 0u8));
        r
    }

    /// Brings the driver up with no packet pending.
    pub fn init(&mut self)
        ensures
            final(self)@ == (LoopbackView { length: 0, up: true, ..old(self)@ }),
    {
        proof {
            use_type_invariant(&*self);
        }
        self.up = true;
        self.length = 0;
    }
}

impl NetDriver for LoopbackDriver {
    fn name(&self) -> (r: &'static str)
        ensures
            r@ == "loopback"@,
    {
        "loopback"
    }

    fn is_up(&self) -> (r: bool)
        ensures
            r == self@.up,
    {
        self.up
    }

    /// Keeps (up to a buffer's worth of) the payload for the next receive;
    /// a driver that is down drops it.
    fn send(&mut self, payload: &[u8]) -> (r: SendResult)
        ensures
            !old(self)@.up ==> r == SendResult::Dropped && final(self)@ == old(self)@,
            old(self)@.up ==> r == SendResult::Delivered && final(self)@ == (LoopbackView {
                buffer: overwrite_prefix(
                    old(self)@.buffer,
                    payload@,
                    min(payload@.len() as int, BUFFER_SIZE as int),
                ),
                length: min(payload@.len() as int, BUFFER_SIZE as int) as nat,
                up: true,
            }),
    {
        proof {
            use_type_invariant(&*self);
        }
        if !self.up {
            return SendResult::Dropped;
        }
        let len = if payload.len() < BUFFER_SIZE {
            payload.len()
        } else {
            BUFFER_SIZE
        };
        let ghost start = self.buffer@;
        let mut i: usize = 0;
        while i < len
            invariant
                i <= len,
                len <= payload@.len(),
                len <= BUFFER_SIZE,
                self.buffer@.len() == BUFFER_SIZE,
                self.buffer@ == overwrite_prefix(start, payload@, i as int),
                start.len() == BUFFER_SIZE,
                self.up,
                self.length <= BUFFER_SIZE,
            decreases len - i,
        {
            self.buffer[i] = payload[i];
            assert(self.buffer@ =~= overwrite_prefix(start, payload@, i + 1));
            i = i + 1;
        }
        self.length = len;
        SendResult::Delivered
    }

    /// Copies the pending packet (as much as fits) into `buffer`.
    fn receive(&mut self, buffer: &mut [u8]) -> (r: Option<usize>)
        ensures
            final(self)@ == old(self)@,
            old(self)@.length == 0 ==> r is None && final(buffer)@ == old(buffer)@,
            old(self)@.length > 0 ==> ({
                let len = min(old(self)@.length as int, old(buffer)@.len() as int);
                r == Some(len as usize) && final(buffer)@ == overwrite_prefix(
                    old(buffer)@,
                    old(self)@.buffer,
                    len,
                )
            }),
    {
        proof {
            use_type_invariant(&*self);
        }
        if self.length == 0 {
            return None;
        }
        let len = if self.length < buffer.len() {
            self.length
        } else {
            buffer.len()
        };
        let ghost start = buffer@;
        let mut i: usize = 0;
        while i < len
            invariant
                i <= len,
                len <= self.length,
                self.length <= BUFFER_SIZE,
                len <= start.len(),
                buffer@.len() == start.len(),
                buffer@ == overwrite_prefix(start, self.buffer@, i as int),
                self.buffer@.len() == BUFFER_SIZE,
            decreases len - i,
        {
            buffer[i] = self.buffer[i];
            assert(buffer@ =~= overwrite_prefix(start, self.buffer@, i + 1));
            i = i + 1;
        }
        Some(len)
    }
}

/// The loopback gives back what it was sent: after a delivered send, a
/// receive into a buffer of at least the payload's length yields the
/// payload (up to the driver's buffer size).
pub proof fn lemma_send_then_receive(v: LoopbackView, payload: Seq<u8>, out: Seq<u8>)
    requires
        loopback_wf(v),
        v.up,
        payload.len() > 0,
        out.len() >= min(payload.len() as int, BUFFER_SIZE as int),
    ensures
        ({
            let len = min(payload.len() as int, BUFFER_SIZE as int);
            let sent = LoopbackView {
                buffer: overwrite_prefix(v.buffer, payload, len),
                length: len as nat,
                up: true,
            };
            &&& sent.length > 0
            &&& min(sent.length as int, out.len() as int) == len
            &&& overwrite_prefix(out, sent.buffer, len).take(len) == payload.take(len)
        }),
{
    let len = min(payload.len() as int, BUFFER_SIZE as int);
    let buf = overwrite_prefix(v.buffer, payload, len);
    assert(overwrite_prefix(out, buf, len).take(len) =~= payload.take(len));
}

} // verus!
