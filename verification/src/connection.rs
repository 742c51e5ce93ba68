//! The per-socket connection state machine.
//!
//! A connection tracks its readiness interest, an outbound FIFO of frames
//! waiting to be sent, a read continuation (the incremental decoder's
//! state) and a write continuation (how many bytes of the head frame have
//! already been handed to the socket). The socket itself lives with the
//! driver; the driver feeds received bytes in through [`Connection::readable`]
//! and reports how many bytes the socket accepted through
//! [`Connection::writable`].
//!
//! Outbound frames are shared, read-only buffers (`Rc<Vec<u8>>`): during a
//! broadcast every connection's queue holds a reference to the same
//! allocation, and no payload is copied per connection.

use vstd::prelude::*;

use std::rc::Rc;

use crate::codec::ReadProgress;
use crate::codec::ReadState;
use crate::codec::encode_len;
use crate::codec::feed;
use crate::codec::feed_bytes;
use crate::codec::frame_bytes;
use crate::codec::init_read;
use crate::codec::len_bytes;
use crate::codec::read_wf;

verus! {

/// An opaque name for a connection slot. No two simultaneously live
/// connections share one; after removal it may name a later connection.
#[derive(Clone, Copy, PartialEq, Eq, Structural, Debug, Hash)]
pub struct Token(pub usize);

/// The readiness kinds a connection wants from the poller. Hang-up
/// detection is always on (see [`ConnectionView::wf`]); write interest
/// tracks whether anything is queued.
#[derive(Clone, Copy, PartialEq, Eq, Structural, Debug)]
pub struct Interest {
    pub readable: bool,
    pub writable: bool,
    pub hangup: bool,
}

/// A connection's state as specifications see it.
pub struct ConnectionView {
    /// The slot this connection occupies.
    pub token: Token,
    /// What the connection currently asks the poller for.
    pub interest: Interest,
    /// Payloads queued for sending, oldest first.
    pub queue: Seq<Seq<u8>>,
    /// Bytes of the head frame's 8-byte header already accepted by the socket.
    pub hdr_sent: nat,
    /// Bytes of the head frame's payload already accepted by the socket.
    pub body_sent: nat,
    /// The inbound decoder's continuation.
    pub read: ReadProgress,
    /// Marked for removal at the end of the tick; inert to further events.
    pub draining: bool,
}

impl ConnectionView {
    /// Well-formed connection state: hang-up detection and read interest
    /// are always registered; the decoder state is well formed; the write
    /// continuation points inside the head frame (header first, then
    /// payload) and is cleared while nothing is queued; write interest is
    /// held exactly while something is queued; and every queued payload's
    /// length is encodable in the 8-byte header.
    pub open spec fn wf(self) -> bool {
        &&& self.interest.hangup
        &&& self.interest.readable
        &&& read_wf(self.read)
        &&& self.hdr_sent <= 8
        &&& self.hdr_sent < 8 ==> self.body_sent == 0
        &&& self.queue.len() == 0 ==> self.hdr_sent == 0 && self.body_sent == 0
        &&& self.queue.len() > 0 ==> self.hdr_sent + self.body_sent < 8 + self.queue[0].len()
        &&& (self.interest.writable <==> self.queue.len() > 0)
        &&& forall|i: int| 0 <= i < self.queue.len() ==> #[trigger] self.queue[i].len() <= u64::MAX
    }
}

/// The bytes a connection wants to hand the socket next: the rest of the
/// head frame's header or, once the header is out, the rest of its payload.
pub open spec fn pending_chunk(v: ConnectionView) -> Seq<u8>
    recommends
        v.wf(),
        v.queue.len() > 0,
{
    if v.hdr_sent < 8 {
        len_bytes(v.queue[0].len() as u64).skip(v.hdr_sent as int)
    } else {
        v.queue[0].skip(v.body_sent as int)
    }
}

/// A connection after its fully sent head frame is retired: the next
/// queued frame starts from its first byte, and write interest is kept
/// only while something remains queued.
pub open spec fn pop_head(v: ConnectionView) -> ConnectionView
    recommends
        v.queue.len() > 0,
{
    ConnectionView {
        queue: v.queue.drop_first(),
        hdr_sent: 0,
        body_sent: 0,
        interest: (Interest { writable: v.queue.len() > 1, ..v.interest }),
        ..v
    }
}

/// How a write readiness event advances the write continuation when the
/// socket accepted `n` bytes of the pending chunk: the offset moves
/// forward by exactly `n`, and the head frame is retired only once every
/// one of its bytes is out.
pub open spec fn advance_write(v: ConnectionView, n: nat) -> ConnectionView
    recommends
        v.wf(),
        v.queue.len() > 0,
        n <= pending_chunk(v).len(),
{
    if v.hdr_sent < 8 {
        if v.hdr_sent + n < 8 {
            ConnectionView { hdr_sent: v.hdr_sent + n, ..v }
        } else if v.queue[0].len() > 0 {
            ConnectionView { hdr_sent: 8, body_sent: 0, ..v }
        } else {
            pop_head(v)
        }
    } else {
        if v.body_sent + n < v.queue[0].len() {
            ConnectionView { body_sent: v.body_sent + n, ..v }
        } else {
            pop_head(v)
        }
    }
}

/// The unsent rest of the head frame's full wire form (header, then
/// payload). The write continuation is always an offset into this one
/// frame: `hdr_sent + body_sent` bytes of it are already out.
pub open spec fn frame_remaining(v: ConnectionView) -> Seq<u8>
    recommends
        v.wf(),
        v.queue.len() > 0,
{
    frame_bytes(v.queue[0]).skip((v.hdr_sent + v.body_sent) as int)
}

/// Partial-write resumption: when the socket accepts `n` of the pending
/// bytes and the head frame is not yet finished, the next dispatch resumes
/// exactly after those `n` bytes. The queue is untouched — no later frame
/// is started before the head frame fully drains — the offset into the
/// frame's wire form advances by exactly `n`, and the bytes still to send
/// are the old remainder with its first `n` bytes gone: nothing is
/// retransmitted, dropped or reordered. When the accepted bytes finish the
/// frame, it is retired and the next frame starts from its first byte.
pub proof fn lemma_partial_write_resumption(v: ConnectionView, n: nat)
    requires
        v.wf(),
        v.queue.len() > 0,
        n <= pending_chunk(v).len(),
    ensures
        advance_write(v, n).wf(),
        v.hdr_sent + v.body_sent + n < 8 + v.queue[0].len() ==> advance_write(v, n).queue
            == v.queue,
        v.hdr_sent + v.body_sent + n < 8 + v.queue[0].len() ==> advance_write(v, n).hdr_sent
            + advance_write(v, n).body_sent == v.hdr_sent + v.body_sent + n,
        v.hdr_sent + v.body_sent + n < 8 + v.queue[0].len() ==> frame_remaining(advance_write(v, n))
            == frame_remaining(v).skip(n as int),
        v.hdr_sent + v.body_sent + n < 8 + v.queue[0].len() ==> advance_write(v, n)
            == (ConnectionView {
            hdr_sent: advance_write(v, n).hdr_sent,
            body_sent: advance_write(v, n).body_sent,
            ..v
        }),
        v.hdr_sent + v.body_sent + n == 8 + v.queue[0].len() ==> advance_write(v, n) == pop_head(
            v,
        ),
{
    let w = advance_write(v, n);
    let head = v.queue[0];
    let fb = frame_bytes(head);
    assert(fb.len() == 8 + head.len());
    if v.hdr_sent < 8 {
        if v.hdr_sent + n < 8 {
            assert(frame_remaining(w) =~= frame_remaining(v).skip(n as int));
        } else if head.len() > 0 {
            assert(w.hdr_sent + w.body_sent == 8);
            assert(frame_remaining(w) =~= frame_remaining(v).skip(n as int));
        } else {
            assert(forall|i: int|
                0 <= i < w.queue.len() ==> #[trigger] w.queue[i].len() <= u64::MAX) by {
                assert(forall|i: int|
                    0 <= i < w.queue.len() ==> w.queue[i] == v.queue[i + 1]
                        && #[trigger] v.queue[i + 1].len() <= u64::MAX);
            }
        }
    } else {
        if v.body_sent + n < head.len() {
            assert(frame_remaining(w) =~= frame_remaining(v).skip(n as int));
        } else {
            assert(forall|i: int|
                0 <= i < w.queue.len() ==> #[trigger] w.queue[i].len() <= u64::MAX) by {
                assert(forall|i: int|
                    0 <= i < w.queue.len() ==> w.queue[i] == v.queue[i + 1]
                        && #[trigger] v.queue[i + 1].len() <= u64::MAX);
            }
        }
    }
}

/// Relies on std's `Rc::as_ref`: the reference leads to the shared
/// allocation, whose contents the `Rc` view already names.
#[verifier::external_body]
pub(crate) fn rc_bytes(rc: &Rc<Vec<u8>>) -> (r: &Vec<u8>)
    ensures
        r@ == rc@,
{
    rc.as_ref()
}

/// Relies on std's `Rc::clone`: the clone shares the same allocation, so
/// it holds the same bytes; no payload is copied.
#[verifier::external_body]
pub(crate) fn rc_clone(rc: &Rc<Vec<u8>>) -> (r: Rc<Vec<u8>>)
    ensures
        r@ == rc@,
{
    rc.clone()
}

/// A stateful wrapper around one accepted, non-blocking stream socket.
/// The socket handle itself stays with the driver; everything the relay
/// decides about the connection is here.
pub struct Connection {
    token: Token,
    interest: Interest,
    send_queue: std::collections::VecDeque<Rc<Vec<u8>>>,
    hdr_sent: usize,
    body_sent: usize,
    read: ReadState,
    draining: bool,
}

impl View for Connection {
    type V = ConnectionView;

    closed spec fn view(&self) -> ConnectionView {
        ConnectionView {
            token: self.token,
            interest: self.interest,
            queue: self.send_queue@.map_values(|m: Rc<Vec<u8>>| m@),
            hdr_sent: self.hdr_sent as nat,
            body_sent: self.body_sent as nat,
            read: self.read@,
            draining: self.draining,
        }
    }
}

impl Connection {
    /// The state a connection is born with: read and hang-up interest, an
    /// empty outbound queue, no continuations, not draining.
    pub open spec fn init_view(token: Token) -> ConnectionView {
        ConnectionView {
            token: token,
            interest: (Interest { readable: true, writable: false, hangup: true }),
            queue: Seq::empty(),
            hdr_sent: 0,
            body_sent: 0,
            read: init_read(),
            draining: false,
        }
    }

    /// Make the connection for a freshly accepted socket.
    pub fn new(token: Token) -> (c: Connection)
        ensures
            c@ == Self::init_view(token),
            c@.wf(),
    {
        let c = Connection {
            token,
            interest: Interest { readable: true, writable: false, hangup: true },
            send_queue: std::collections::VecDeque::new(),
            hdr_sent: 0,
            body_sent: 0,
            read: ReadState::Header(Vec::new()),
            draining: false,
        };
        proof {
            assert(c@.queue =~= Seq::<Seq<u8>>::empty());
            assert(c@.read == init_read());
        }
        c
    }

    /// Handle a read readiness event: feed the bytes the socket delivered
    /// and return the payloads of the frames that completed during this
    /// call, in arrival order. Partial headers and partial bodies are kept
    /// as the read continuation and resumed by the next call; zero-length
    /// frames are dropped and never returned.
    pub fn readable(&mut self, data: &[u8]) -> (frames: Vec<Vec<u8>>)
        requires
            old(self)@.wf(),
        ensures
            final(self)@.wf(),
            final(self)@ == (ConnectionView { read: feed(old(self)@.read, data@).0, ..old(self)@ }),
            frames.deep_view() == feed(old(self)@.read, data@).1,
    {
        let mut st = ReadState::Header(Vec::new());
        core::mem::swap(&mut st, &mut self.read);
        let (st2, frames) = feed_bytes(st, data);
        self.read = st2;
        frames
    }

    /// Queue an outgoing frame payload at the tail of the outbound queue
    /// and register write interest. The buffer is shared and read-only:
    /// a broadcast hands every connection a reference to one allocation.
    pub fn send_message(&mut self, message: Rc<Vec<u8>>)
        requires
            old(self)@.wf(),
        ensures
            final(self)@.wf(),
            final(self)@ == (ConnectionView {
                queue: old(self)@.queue.push(message@),
                interest: (Interest { writable: true, ..old(self)@.interest }),
                ..old(self)@
            }),
    {
        proof {
            assert((*message).len() == message@.len());
        }
        self.send_queue.push_back(message);
        self.interest.writable = true;
        proof {
            assert(self@.queue =~= old(self)@.queue.push(message@));
        }
    }

    /// The bytes this connection should hand the socket next: `None` when
    /// nothing is queued, else the unsent rest of the head frame's header,
    /// or of its payload once the header is out.
    pub fn next_chunk(&self) -> (r: Option<Vec<u8>>)
        requires
            self@.wf(),
        ensures
            self@.queue.len() == 0 ==> r is None,
            self@.queue.len() > 0 ==> (r matches Some(c) && c@ == pending_chunk(self@)),
    {
        if self.send_queue.len() == 0 {
            return None;
        }
        let head = rc_bytes(&self.send_queue[0]);
        proof {
            assert(self@.queue[0] == head@);
        }
        let mut chunk: Vec<u8> = Vec::new();
        if self.hdr_sent < 8 {
            let hdr = encode_len(head.len() as u64);
            let mut i: usize = self.hdr_sent;
            while i < 8
                invariant
                    self@.hdr_sent <= i <= 8,
                    hdr@ == len_bytes(self@.queue[0].len() as u64),
                    chunk@ == hdr@.subrange(self@.hdr_sent as int, i as int),
                decreases 8 - i,
            {
                chunk.push(hdr[i]);
                proof {
                    assert(chunk@ =~= hdr@.subrange(self@.hdr_sent as int, i + 1));
                }
                i += 1;
            }
            proof {
                assert(chunk@ =~= len_bytes(self@.queue[0].len() as u64).skip(
                    self@.hdr_sent as int,
                ));
            }
        } else {
            let mut i: usize = self.body_sent;
            while i < head.len()
                invariant
                    self@.body_sent <= i <= head@.len(),
                    head@ == self@.queue[0],
                    chunk@ == head@.subrange(self@.body_sent as int, i as int),
                decreases head@.len() - i,
            {
                chunk.push(head[i]);
                proof {
                    assert(chunk@ =~= head@.subrange(self@.body_sent as int, i + 1));
                }
                i += 1;
            }
            proof {
                assert(chunk@ =~= self@.queue[0].skip(self@.body_sent as int));
            }
        }
        Some(chunk)
    }

    /// This connection's token.
    pub fn token(&self) -> (t: Token)
        ensures
            t == self@.token,
    {
        self.token
    }

    /// The connection's current interest set, for (re)registration with
    /// the readiness source.
    pub fn interest(&self) -> (r: Interest)
        ensures
            r == self@.interest,
    {
        self.interest
    }

    /// How many frames wait in the outbound queue.
    pub fn queue_len(&self) -> (r: usize)
        ensures
            r == self@.queue.len(),
    {
        self.send_queue.len()
    }

    /// Whether the connection is marked for removal at the next sweep.
    pub fn is_draining(&self) -> (r: bool)
        ensures
            r == self@.draining,
    {
        self.draining
    }

    /// Mark the connection for removal at the end of the tick. From here
    /// on it is inert: further readiness events for it are ignored, and
    /// the sweep frees its slot. Any in-flight partially read frame is
    /// discarded with it.
    pub fn set_draining(&mut self)
        ensures
            final(self)@ == (ConnectionView { draining: true, ..old(self)@ }),
            old(self)@.wf() ==> final(self)@.wf(),
    {
        self.draining = true;
    }

    /// Retire the fully sent head frame: the next queued frame starts at
    /// its first byte, and write interest is dropped when the queue runs
    /// empty.
    fn retire_head(&mut self)
        requires
            old(self)@.wf(),
            old(self)@.queue.len() > 0,
        ensures
            final(self)@ == pop_head(old(self)@),
            final(self)@.wf(),
    {
        let _ = self.send_queue.pop_front();
        self.hdr_sent = 0;
        self.body_sent = 0;
        if self.send_queue.len() == 0 {
            self.interest.writable = false;
        }
        proof {
            assert(self@.queue =~= old(self)@.queue.drop_first());
        }
    }

    /// Handle the outcome of a write readiness event: the socket accepted
    /// `sent` bytes of the pending chunk. The continuation advances by
    /// exactly those bytes — nothing is retransmitted, dropped or
    /// reordered — and the head frame is retired only when its last byte
    /// is out.
    pub fn writable(&mut self, sent: usize)
        requires
            old(self)@.wf(),
            old(self)@.queue.len() > 0,
            sent <= pending_chunk(old(self)@).len(),
        ensures
            final(self)@.wf(),
            final(self)@ == advance_write(old(self)@, sent as nat),
    {
        if self.hdr_sent < 8 {
            let new_hdr = self.hdr_sent + sent;
            if new_hdr < 8 {
                self.hdr_sent = new_hdr;
            } else {
                let head_len = rc_bytes(&self.send_queue[0]).len();
                proof {
                    assert(self@.queue[0].len() == head_len);
                }
                if head_len > 0 {
                    self.hdr_sent = 8;
                    self.body_sent = 0;
                } else {
                    self.retire_head();
                }
            }
        } else {
            let head_len = rc_bytes(&self.send_queue[0]).len();
            proof {
                assert(self@.queue[0].len() == head_len);
            }
            let new_body = self.body_sent + sent;
            if new_body < head_len {
                self.body_sent = new_body;
            } else {
                self.retire_head();
            }
        }
    }
}

} // verus!
