//! The reactor: it owns the connection table and the listener's sentinel
//! token, and decides what every readiness notification means. The driver
//! that owns the sockets and the poller runs the tick loop: it polls,
//! asks [`Server::ready`] what to do with each notification, performs the
//! socket calls, and hands the outcomes back in (`accept`, `readable`,
//! `wrote`, `mark_draining`). At the end of a tick it reregisters every
//! active connection's interest and calls [`Server::sweep`], which frees
//! every draining connection's slot.
//!
//! Removal is always deferred to the sweep: dispatch only marks a
//! connection draining, so the table is never mutated while a tick's
//! notifications still refer to it.

use vstd::prelude::*;

use std::rc::Rc;

use crate::codec::ReadProgress;
use crate::codec::feed;
use crate::connection::Connection;
use crate::connection::ConnectionView;
use crate::connection::Interest;
use crate::connection::Token;
use crate::connection::advance_write;
use crate::connection::pending_chunk;
use crate::connection::rc_clone;
use crate::table::ConnTable;
use crate::table::first_free;
use crate::table::table_wf;

verus! {

/// One readiness notification's kinds, as the readiness source reports
/// them for a token.
#[derive(Clone, Copy, PartialEq, Eq, Structural, Debug)]
pub struct Readiness {
    pub readable: bool,
    pub writable: bool,
    pub error: bool,
    pub hangup: bool,
}

/// What the reactor decides to do with one notification, in the fixed
/// priority order: an error or hang-up closes the connection and nothing
/// else happens to it this tick; otherwise a writable event drains its
/// queue and a readable event reads from it — or, on the listener, runs
/// the accept loop.
#[derive(Clone, Copy, PartialEq, Eq, Structural, Debug)]
pub struct Plan {
    /// Mark the connection draining; skip all other handling this tick.
    pub close: bool,
    /// Run the accept loop on the listener socket.
    pub accept: bool,
    /// Read from this connection's socket and feed the bytes in.
    pub read: bool,
    /// Write this connection's pending chunk to its socket.
    pub write: bool,
}

/// The reactor's state as specifications see it.
pub struct ServerView {
    /// The listener's sentinel token, distinct from every slot token.
    pub listener: Token,
    /// The connection table, slot by slot.
    pub conns: Seq<Option<ConnectionView>>,
}

impl ServerView {
    /// Well-formed reactor state: the table is well formed and the
    /// listener's token lies outside the table, so it can never collide
    /// with a connection's token.
    pub open spec fn wf(self) -> bool {
        &&& table_wf(self.conns)
        &&& self.listener.0 >= self.conns.len()
    }
}

/// Whether this token names a live connection (its slot is occupied).
pub open spec fn live_at(s: Seq<Option<ConnectionView>>, t: Token) -> bool {
    t.0 < s.len() && s[t.0 as int] is Some
}

/// The connection this token names.
pub open spec fn conn_at(s: Seq<Option<ConnectionView>>, t: Token) -> ConnectionView
    recommends
        live_at(s, t),
{
    s[t.0 as int]->Some_0
}

/// The plan that does nothing.
pub open spec fn plan_none() -> Plan {
    Plan { close: false, accept: false, read: false, write: false }
}

/// The dispatch rule for one notification. Priority: error, then hang-up,
/// each closing the connection; then writable and readable dispatch. A
/// readable listener accepts; unknown tokens and draining connections are
/// ignored.
pub open spec fn plan_of(v: ServerView, token: Token, e: Readiness) -> Plan {
    if token == v.listener {
        if e.error || e.hangup {
            plan_none()
        } else {
            Plan { close: false, accept: e.readable, read: false, write: false }
        }
    } else if !live_at(v.conns, token) {
        plan_none()
    } else if conn_at(v.conns, token).draining {
        plan_none()
    } else if e.error || e.hangup {
        Plan { close: true, accept: false, read: false, write: false }
    } else {
        Plan { close: false, accept: false, read: e.readable, write: e.writable }
    }
}

/// One connection after a broadcast reaches it: the completed frames join
/// the tail of its queue (write interest follows), and the sender's
/// decoder moves to its new state.
pub open spec fn fan_target(
    c: ConnectionView,
    frames: Seq<Seq<u8>>,
    is_sender: bool,
    new_read: ReadProgress,
) -> ConnectionView {
    ConnectionView {
        queue: c.queue + frames,
        interest: if frames.len() > 0 {
            Interest { writable: true, ..c.interest }
        } else {
            c.interest
        },
        read: if is_sender { new_read } else { c.read },
        ..c
    }
}

/// One slot of the table after a read event on `token`: empty slots stay
/// empty; a live connection becomes its own fan-out target.
pub open spec fn fan_slot(
    s: Seq<Option<ConnectionView>>,
    token: Token,
    data: Seq<u8>,
    i: int,
) -> Option<ConnectionView>
    recommends
        live_at(s, token),
        0 <= i < s.len(),
{
    match s[i] {
        Some(c) => Some(
            fan_target(
                c,
                feed(conn_at(s, token).read, data).1,
                i == token.0 as int,
                feed(conn_at(s, token).read, data).0,
            ),
        ),
        None => None,
    }
}

/// The whole table after a read event on `token`: the sender's decoder
/// advances over `data`, and every frame that completed is appended to
/// every live connection's queue — the sender's included.
pub open spec fn fan_out_view(s: Seq<Option<ConnectionView>>, token: Token, data: Seq<u8>) -> Seq<
    Option<ConnectionView>,
>
    recommends
        live_at(s, token),
{
    Seq::new(s.len(), |i: int| fan_slot(s, token, data, i))
}

/// The table after the sweep: every draining connection's slot is freed;
/// every other slot is untouched.
pub open spec fn swept(s: Seq<Option<ConnectionView>>) -> Seq<Option<ConnectionView>> {
    Seq::new(
        s.len(),
        |i: int|
            match s[i] {
                Some(c) => if c.draining {
                    None
                } else {
                    Some(c)
                },
                None => None,
            },
    )
}

/// Fan-out completeness: after a read event on one connection, every live
/// connection — the sender included — has exactly the frames that
/// completed appended to its queue, in order; empty slots stay empty, and
/// nothing else about any connection changes (the sender's decoder state
/// aside).
pub proof fn lemma_fan_out_completeness(
    s: Seq<Option<ConnectionView>>,
    token: Token,
    data: Seq<u8>,
    j: int,
)
    requires
        live_at(s, token),
        0 <= j < s.len(),
    ensures
        fan_out_view(s, token, data).len() == s.len(),
        s[j] is None ==> fan_out_view(s, token, data)[j] is None,
        s[j] matches Some(c) ==> fan_out_view(s, token, data)[j] matches Some(c2) && c2.queue
            == c.queue + feed(conn_at(s, token).read, data).1,
        s[j] matches Some(c) ==> fan_out_view(s, token, data)[j] == Some(
            fan_target(
                c,
                feed(conn_at(s, token).read, data).1,
                j == token.0 as int,
                feed(conn_at(s, token).read, data).0,
            ),
        ),
{
}

/// Isolation: an error or hang-up on connection `a` — a draining mark,
/// and the sweep that then frees `a`'s slot — leaves connection `b`'s
/// state, its queue included, exactly as it was.
pub proof fn lemma_isolation(s: Seq<Option<ConnectionView>>, a: Token, b: Token)
    requires
        live_at(s, a),
        live_at(s, b),
        a != b,
    ensures
        s.update(a.0 as int, Some((ConnectionView { draining: true, ..conn_at(s, a) })))[b.0 as int]
            == s[b.0 as int],
        !conn_at(s, b).draining ==> swept(s)[b.0 as int] == s[b.0 as int],
{
}

/// The reactor. The listener socket, the poller and the event buffer live
/// with the driver; the table and the dispatch rules live here.
pub struct Server {
    conns: ConnTable,
    token: Token,
}

impl View for Server {
    type V = ServerView;

    closed spec fn view(&self) -> ServerView {
        ServerView { listener: self.token, conns: self.conns@ }
    }
}

impl Server {
    /// Make a reactor with a table of this many slots. The listener's
    /// sentinel token is the first value past the slot range, so it never
    /// names a connection.
    pub fn new(capacity: usize) -> (s: Server)
        ensures
            s@.wf(),
            s@.listener == Token(capacity),
            s@.conns.len() == capacity,
            forall|i: int| 0 <= i < capacity ==> #[trigger] s@.conns[i] is None,
    {
        Server { conns: ConnTable::new(capacity), token: Token(capacity) }
    }

    /// The listener's sentinel token.
    pub fn listener_token(&self) -> (t: Token)
        ensures
            t == self@.listener,
    {
        self.token
    }

    /// How many connections the table can hold.
    pub fn capacity(&self) -> (r: usize)
        ensures
            r == self@.conns.len(),
    {
        self.conns.capacity()
    }

    /// Whether this token names a live connection.
    pub fn contains(&self, token: Token) -> (r: bool)
        ensures
            r == live_at(self@.conns, token),
    {
        self.conns.contains(token)
    }

    /// Borrow the connection this token names. Callers check liveness
    /// first: looking up a stale or unknown token is a caller error.
    pub fn connection(&self, token: Token) -> (r: &Connection)
        requires
            live_at(self@.conns, token),
        ensures
            r@ == conn_at(self@.conns, token),
    {
        self.conns.get(token)
    }

    /// Decide what one readiness notification means. A writable event for
    /// the listener is an invariant violation of the readiness source and
    /// is excluded here; the driver treats it as fatal.
    pub fn ready(&self, token: Token, e: Readiness) -> (p: Plan)
        requires
            self@.wf(),
            !(token == self@.listener && !e.error && !e.hangup && e.writable),
        ensures
            p == plan_of(self@, token, e),
    {
        if token == self.token {
            if e.error || e.hangup {
                return Plan { close: false, accept: false, read: false, write: false };
            }
            return Plan { close: false, accept: e.readable, read: false, write: false };
        }
        if !self.conns.contains(token) {
            return Plan { close: false, accept: false, read: false, write: false };
        }
        if self.conns.get(token).is_draining() {
            return Plan { close: false, accept: false, read: false, write: false };
        }
        if e.error || e.hangup {
            return Plan { close: true, accept: false, read: false, write: false };
        }
        Plan { close: false, accept: false, read: e.readable, write: e.writable }
    }

    /// Place one freshly accepted socket: a new connection in the lowest
    /// free slot, registered for read and hang-up interest, and its token.
    /// A full table returns no token and is left exactly as it was, every
    /// existing connection untouched; the driver drops the socket and the
    /// listener keeps running.
    pub fn accept(&mut self) -> (r: Option<Token>)
        requires
            old(self)@.wf(),
        ensures
            final(self)@.wf(),
            final(self)@.listener == old(self)@.listener,
            final(self)@.conns.len() == old(self)@.conns.len(),
            r matches Some(t) ==> first_free(old(self)@.conns) == Some(t.0 as int)
                && final(self)@.conns == old(self)@.conns.update(
                t.0 as int,
                Some(Connection::init_view(t)),
            ),
            r is None ==> first_free(old(self)@.conns) is None && final(self)@ == old(self)@,
    {
        self.conns.insert()
    }

    /// Mark the connection this token names for removal at the next sweep
    /// (after an error, a hang-up, or a failed reregistration). Every
    /// other connection, and everything else about this one, is untouched.
    /// Unknown tokens are ignored.
    pub fn mark_draining(&mut self, token: Token)
        requires
            old(self)@.wf(),
        ensures
            final(self)@.wf(),
            final(self)@.listener == old(self)@.listener,
            !live_at(old(self)@.conns, token) ==> final(self)@ == old(self)@,
            live_at(old(self)@.conns, token) ==> final(self)@.conns == old(self)@.conns.update(
                token.0 as int,
                Some(
                    (ConnectionView {
                        draining: true,
                        ..conn_at(old(self)@.conns, token)
                    }),
                ),
            ),
    {
        if self.conns.contains(token) {
            let mut c = self.conns.take_conn(token);
            c.set_draining();
            self.conns.put_conn(token, c);
            proof {
                assert(old(self)@.conns[token.0 as int] is Some);
            }
        } else {
            proof {
                assert(final(self)@.conns =~= old(self)@.conns);
            }
        }
    }

    /// The pending chunk of the connection this token names: what the
    /// driver should write to its socket next, or `None` when the token is
    /// unknown or nothing is queued.
    pub fn next_chunk(&self, token: Token) -> (r: Option<Vec<u8>>)
        requires
            self@.wf(),
        ensures
            !live_at(self@.conns, token) ==> r is None,
            live_at(self@.conns, token) && conn_at(self@.conns, token).queue.len() == 0 ==> r
                is None,
            live_at(self@.conns, token) && conn_at(self@.conns, token).queue.len() > 0 ==> (
            r matches Some(c) && c@ == pending_chunk(conn_at(self@.conns, token))),
    {
        if !self.conns.contains(token) {
            return None;
        }
        self.conns.get(token).next_chunk()
    }

    /// Record that the socket accepted `sent` bytes of this connection's
    /// pending chunk. Only that connection's write continuation moves —
    /// by exactly those bytes — and every other connection is untouched.
    pub fn wrote(&mut self, token: Token, sent: usize)
        requires
            old(self)@.wf(),
            live_at(old(self)@.conns, token),
            conn_at(old(self)@.conns, token).queue.len() > 0,
            sent <= pending_chunk(conn_at(old(self)@.conns, token)).len(),
        ensures
            final(self)@.wf(),
            final(self)@.listener == old(self)@.listener,
            final(self)@.conns == old(self)@.conns.update(
                token.0 as int,
                Some(advance_write(conn_at(old(self)@.conns, token), sent as nat)),
            ),
    {
        let mut c = self.conns.take_conn(token);
        c.writable(sent);
        self.conns.put_conn(token, c);
    }

    /// Free every draining connection's slot and return their tokens in
    /// ascending order, exactly once each; every other connection is
    /// untouched. The driver drops the returned tokens' sockets.
    pub fn sweep(&mut self) -> (removed: Vec<Token>)
        requires
            old(self)@.wf(),
        ensures
            final(self)@.wf(),
            final(self)@.listener == old(self)@.listener,
            final(self)@.conns == swept(old(self)@.conns),
            forall|k: int|
                0 <= k < removed@.len() ==> live_at(old(self)@.conns, #[trigger] removed@[k])
                    && conn_at(old(self)@.conns, removed@[k]).draining,
            forall|i: int|
                0 <= i < old(self)@.conns.len() ==> ((#[trigger] old(self)@.conns[i] matches Some(c)
                    && c.draining) ==> removed@.contains(Token(i as usize))),
            forall|k1: int, k2: int|
                0 <= k1 < k2 < removed@.len() ==> #[trigger] removed@[k1].0 < #[trigger] removed@[k2].0,
    {
        let ghost snap = self@.conns;
        let n = self.conns.capacity();
        let mut removed: Vec<Token> = Vec::new();
        let mut i: usize = 0;
        while i < n
            invariant
                i <= n,
                n == self@.conns.len(),
                self@.conns.len() == snap.len(),
                self@.listener == old(self)@.listener,
                snap == old(self)@.conns,
                table_wf(snap),
                table_wf(self@.conns),
                forall|j: int| 0 <= j < i ==> #[trigger] self@.conns[j] == swept(snap)[j],
                forall|j: int| i <= j < n ==> #[trigger] self@.conns[j] == snap[j],
                forall|k: int|
                    0 <= k < removed@.len() ==> live_at(snap, #[trigger] removed@[k]) && conn_at(
                        snap,
                        removed@[k],
                    ).draining && removed@[k].0 < i,
                forall|j: int|
                    0 <= j < i ==> ((#[trigger] snap[j] matches Some(c) && c.draining)
                        ==> removed@.contains(Token(j as usize))),
                forall|k1: int, k2: int|
                    0 <= k1 < k2 < removed@.len() ==> #[trigger] removed@[k1].0
                        < #[trigger] removed@[k2].0,
            decreases n - i,
        {
            let t = Token(i);
            if self.conns.contains(t) {
                if self.conns.get(t).is_draining() {
                    self.conns.remove(t);
                    let ghost pre = removed@;
                    removed.push(t);
                    proof {
                        assert forall|x: Token| pre.contains(x) implies removed@.contains(x) by {
                            let idx = choose|idx: int| 0 <= idx < pre.len() && pre[idx] == x;
                            assert(removed@[idx] == x);
                        }
                        assert(removed@[pre.len() as int] == t);
                        assert(removed@.contains(t));
                    }
                }
            }
            i += 1;
        }
        removed
    }

    /// Handle a read readiness event: feed the bytes the socket delivered
    /// to the connection this token names; every frame that completed is
    /// wrapped once in a shared buffer and enqueued onto every live
    /// connection's queue, the sender included. Events for unknown tokens
    /// or draining connections are ignored, and no other part of any
    /// connection's state changes.
    pub fn readable(&mut self, token: Token, data: &[u8])
        requires
            old(self)@.wf(),
        ensures
            final(self)@.wf(),
            final(self)@.listener == old(self)@.listener,
            final(self)@.conns.len() == old(self)@.conns.len(),
            !live_at(old(self)@.conns, token) ==> final(self)@ == old(self)@,
            live_at(old(self)@.conns, token) && conn_at(old(self)@.conns, token).draining
                ==> final(self)@ == old(self)@,
            live_at(old(self)@.conns, token) && !conn_at(old(self)@.conns, token).draining
                ==> final(self)@.conns == fan_out_view(old(self)@.conns, token, data@),
    {
        if !self.conns.contains(token) {
            return;
        }
        let ghost orig = old(self)@.conns;
        let ghost sender0 = conn_at(orig, token);
        let mut conn = self.conns.take_conn(token);
        if conn.is_draining() {
            self.conns.put_conn(token, conn);
            proof {
                assert(final(self)@.conns =~= orig);
            }
            return;
        }
        let frames = conn.readable(data);
        self.conns.put_conn(token, conn);
        let ghost fed = feed(sender0.read, data@);
        let ghost snap = self@.conns;

        // wrap each completed frame once; every queue shares the buffer
        let mut rest = frames;
        let mut shared: Vec<Rc<Vec<u8>>> = Vec::new();
        proof {
            assert(shared@.map_values(|m: Rc<Vec<u8>>| m@) + rest.deep_view() =~= fed.1);
        }
        while rest.len() > 0
            invariant
                shared@.map_values(|m: Rc<Vec<u8>>| m@) + rest.deep_view() == fed.1,
            decreases rest@.len(),
        {
            let ghost pre_shared = shared@.map_values(|m: Rc<Vec<u8>>| m@);
            let ghost pre_rest = rest.deep_view();
            let f = rest.remove(0);
            let r = Rc::new(f);
            shared.push(r);
            proof {
                assert(rest.deep_view() =~~= pre_rest.drop_first());
                assert(shared@.map_values(|m: Rc<Vec<u8>>| m@) =~~= pre_shared.push(pre_rest[0]));
                assert(pre_shared.push(pre_rest[0]) + pre_rest.drop_first() =~= pre_shared
                    + pre_rest);
            }
        }
        proof {
            assert(rest.deep_view() =~= Seq::<Seq<u8>>::empty());
            assert(shared@.map_values(|m: Rc<Vec<u8>>| m@) + Seq::<Seq<u8>>::empty()
                =~= shared@.map_values(|m: Rc<Vec<u8>>| m@));
        }

        // fan out: append the shared frames to every live connection's queue
        let n = self.conns.capacity();
        let mut i: usize = 0;
        while i < n
            invariant
                i <= n,
                n == snap.len(),
                self@.conns.len() == snap.len(),
                self@.listener == old(self)@.listener,
                table_wf(self@.conns),
                shared@.map_values(|m: Rc<Vec<u8>>| m@) == fed.1,
                snap == orig.update(token.0 as int, Some(ConnectionView { read: fed.0, ..sender0 })),
                live_at(orig, token),
                sender0 == conn_at(orig, token),
                fed == feed(conn_at(orig, token).read, data@),
                table_wf(orig),
                forall|j: int| 0 <= j < i ==> #[trigger] self@.conns[j] == fan_out_view(
                    orig,
                    token,
                    data@,
                )[j],
                forall|j: int| i <= j < snap.len() ==> #[trigger] self@.conns[j] == snap[j],
            decreases n - i,
        {
            let t = Token(i);
            if self.conns.contains(t) {
                let ghost cv = conn_at(snap, t);
                let mut c = self.conns.take_conn(t);
                proof {
                    assert(cv.queue + fed.1.take(0) =~= cv.queue);
                }
                let mut k: usize = 0;
                while k < shared.len()
                    invariant
                        k <= shared@.len(),
                        shared@.map_values(|m: Rc<Vec<u8>>| m@) == fed.1,
                        fed.1.len() == shared@.len(),
                        cv.wf(),
                        c@.wf(),
                        c@.token == cv.token,
                        c@.read == cv.read,
                        c@.draining == cv.draining,
                        c@.hdr_sent == cv.hdr_sent,
                        c@.body_sent == cv.body_sent,
                        c@.queue == cv.queue + fed.1.take(k as int),
                        c@.interest == (Interest {
                            writable: k > 0 || cv.interest.writable,
                            ..cv.interest
                        }),
                    decreases shared@.len() - k,
                {
                    let ghost pre_queue = c@.queue;
                    c.send_message(rc_clone(&shared[k]));
                    proof {
                        assert(shared@.map_values(|m: Rc<Vec<u8>>| m@)[k as int] == fed.1[k as int]);
                        assert(pre_queue.push(fed.1[k as int]) =~= cv.queue + fed.1.take(k + 1));
                    }
                    k += 1;
                }
                proof {
                    assert(cv.queue + fed.1.take(fed.1.len() as int) =~= cv.queue + fed.1);
                }
                self.conns.put_conn(t, c);
                proof {
                    let c0 = orig[i as int]->Some_0;
                    assert(cv.queue == c0.queue && cv.interest == c0.interest && cv.token
                        == c0.token && cv.draining == c0.draining && cv.hdr_sent == c0.hdr_sent
                        && cv.body_sent == c0.body_sent);
                    assert(c@.queue =~= c0.queue + fed.1);
                    assert(c@ == fan_target(c0, fed.1, i as int == token.0 as int, fed.0));
                    assert(self@.conns[i as int] == fan_out_view(orig, token, data@)[i as int]);
                }
            } else {
                proof {
                    assert(snap[token.0 as int] is Some);
                    assert(self@.conns[i as int] == snap[i as int]);
                    assert(snap[i as int] is None);
                    assert(orig[i as int] is None);
                    assert(fan_out_view(orig, token, data@)[i as int] is None);
                }
            }
            i += 1;
        }
        proof {
            assert(final(self)@.conns =~= fan_out_view(orig, token, data@));
        }
    }

    /// The tokens of every connection that stays active this tick — live
    /// and not draining — in ascending order, exactly once each. The
    /// driver reregisters each one's interest: registration is one-shot,
    /// so this happens every tick.
    pub fn active_tokens(&self) -> (r: Vec<Token>)
        ensures
            forall|k: int|
                0 <= k < r@.len() ==> live_at(self@.conns, #[trigger] r@[k]) && !conn_at(
                    self@.conns,
                    r@[k],
                ).draining,
            forall|i: int|
                0 <= i < self@.conns.len() ==> ((#[trigger] self@.conns[i] matches Some(c)
                    && !c.draining) ==> r@.contains(Token(i as usize))),
            forall|k1: int, k2: int| 0 <= k1 < k2 < r@.len() ==> #[trigger] r@[k1].0 < #[trigger] r@[k2].0,
    {
        let n = self.conns.capacity();
        let mut r: Vec<Token> = Vec::new();
        let mut i: usize = 0;
        while i < n
            invariant
                i <= n,
                n == self@.conns.len(),
                forall|k: int|
                    0 <= k < r@.len() ==> live_at(self@.conns, #[trigger] r@[k]) && !conn_at(
                        self@.conns,
                        r@[k],
                    ).draining && r@[k].0 < i,
                forall|j: int|
                    0 <= j < i ==> ((#[trigger] self@.conns[j] matches Some(c) && !c.draining)
                        ==> r@.contains(Token(j as usize))),
                forall|k1: int, k2: int|
                    0 <= k1 < k2 < r@.len() ==> #[trigger] r@[k1].0 < #[trigger] r@[k2].0,
            decreases n - i,
        {
            let t = Token(i);
            if self.conns.contains(t) {
                if !self.conns.get(t).is_draining() {
                    let ghost pre = r@;
                    r.push(t);
                    proof {
                        assert forall|x: Token| pre.contains(x) implies r@.contains(x) by {
                            let idx = choose|idx: int| 0 <= idx < pre.len() && pre[idx] == x;
                            assert(r@[idx] == x);
                        }
                        assert(r@[pre.len() as int] == t);
                        assert(r@.contains(t));
                    }
                }
            }
            i += 1;
        }
        r
    }

    /// The interest set this token's connection wants registered, or
    /// `None` for an unknown token.
    pub fn interest_of(&self, token: Token) -> (r: Option<Interest>)
        ensures
            live_at(self@.conns, token) ==> r == Some(conn_at(self@.conns, token).interest),
            !live_at(self@.conns, token) ==> r is None,
    {
        if self.conns.contains(token) {
            Some(self.conns.get(token).interest())
        } else {
            None
        }
    }
}

} // verus!
