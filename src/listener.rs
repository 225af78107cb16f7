use vstd::prelude::*;
use crate::replay::{check_step, RecentFilter};
use crate::shards::{single_shard, PeerAddr};
use crate::table::{replaced_at, consistent, delete_step, rebind_step, SessionTable, TableView};

verus! {

/// Handshake messages, as decrypted under a cookie key.
pub enum HandshakeFrame {
    ClientHello { long_pk: [u8; 32], eph_pk: [u8; 32], version: u8 },
    ServerHello { long_pk: [u8; 32], eph_pk: [u8; 32], resume_token: Vec<u8> },
    ClientResume { resume_token: Vec<u8>, shard_id: u8 },
}

/// What the event loop does about one decrypted handshake frame.
#[derive(Clone, Copy, Debug)]
pub enum HandshakeAction {
    /// Answer with a ServerHello built from the client's keys.
    ReplyHello { long_pk: [u8; 32], eph_pk: [u8; 32] },
    /// An existing session now also routes from the sender.
    Rebound,
    /// Unknown token: decrypt it and, if it opens, register a new session.
    NewSession,
    /// Unsupported version: stop trying further keys on this datagram.
    Stop,
    /// Not a frame a server acts on.
    Ignore,
}

/// The protocol version this server speaks.
pub const PROTOCOL_VERSION: u8 = 1;

/// How handling `frame` from `addr` moves the table from `o` to `n` with
/// decision `r`.
pub open spec fn handshake_step<S>(
    o: TableView<S>,
    frame: HandshakeFrame,
    addr: PeerAddr,
    n: TableView<S>,
    r: HandshakeAction,
) -> bool {
    match frame {
        HandshakeFrame::ClientHello { long_pk, eph_pk, version } => n == o && if version
            == PROTOCOL_VERSION {
            r == (HandshakeAction::ReplyHello { long_pk, eph_pk })
        } else {
            r == HandshakeAction::Stop
        },
        HandshakeFrame::ClientResume { resume_token, shard_id } => {
            &&& rebind_step(o, addr, shard_id, resume_token@, n, r == HandshakeAction::Rebound)
            &&& (r == HandshakeAction::Rebound || r == HandshakeAction::NewSession)
            &&& consistent(o) ==> consistent(n)
        },
        HandshakeFrame::ServerHello { .. } => n == o && r == HandshakeAction::Ignore,
    }
}

/// A repeated ClientHello is answered the same way: the same decision,
/// built from the client's keys alone, with the session table untouched.
pub proof fn lemma_hello_idempotent<S>(
    o: TableView<S>,
    frame: HandshakeFrame,
    a1: PeerAddr,
    a2: PeerAddr,
    m: TableView<S>,
    r1: HandshakeAction,
    n: TableView<S>,
    r2: HandshakeAction,
)
    requires
        frame is ClientHello,
        handshake_step(o, frame, a1, m, r1),
        handshake_step(m, frame, a2, n, r2),
    ensures
        r1 == r2,
        m == o,
        n == o,
{
}

/// The decision state of the listener's event loop: the replay filter and
/// the session table, over session handles of type `S`.
pub struct ListenerState<S> {
    pub filter: RecentFilter,
    pub table: SessionTable<S>,
}

impl<S> ListenerState<S> {
    pub open spec fn wf(&self) -> bool {
        self.table.wf()
    }

    pub open spec fn view(&self) -> TableView<S> {
        self.table.view()
    }

    /// A fresh state at time `now`: an empty filter and an empty table.
    pub fn new(now: u64) -> (r: ListenerState<S>)
        ensures
            r.wf(),
            r.filter@.curr == Set::<Seq<u8>>::empty(),
            r.filter@.last == Set::<Seq<u8>>::empty(),
            r.view().sessions.dom() == Set::<Seq<u8>>::empty(),
            r.view().routes.dom() == Set::<PeerAddr>::empty(),
    {
        let r = ListenerState { filter: RecentFilter::new(now), table: SessionTable::new() };
        r
    }

    /// The session a datagram from `addr` belongs to, if any.
    pub fn route(&self, addr: PeerAddr) -> (r: Option<&S>)
        requires
            self.wf(),
        ensures
            match r {
                Some(h) => self.view().routes.contains_key(addr) && self.view().sessions.contains_key(
                    self.view().routes[addr],
                ) && *h == self.view().sessions[self.view().routes[addr]].0,
                None => !(self.view().routes.contains_key(addr) && self.view().sessions.contains_key(
                    self.view().routes[addr],
                )),
            },
    {
        self.table.lookup(addr)
    }

    /// Replay screen for a datagram that no session accepted: true if it
    /// may go on to the handshake. The verdict is `fresh` of the two
    /// filters' answers; see `RecentFilter::check`.
    pub fn screen(&mut self, buffer: &[u8], now: u64) -> (r: bool)
        ensures
            check_step(old(self).filter@, buffer@, now, final(self).filter@, r),
            final(self).table == old(self).table,
    {
        self.filter.check(buffer, now)
    }

    /// A session died: forget it and its routes.
    pub fn on_dead(&mut self, token: Vec<u8>)
        requires
            old(self).wf(),
        ensures
            final(self).wf(),
            delete_step(old(self).view(), token@, final(self).view()),
            consistent(old(self).view()) ==> consistent(final(self).view()),
    {
        self.table.delete(token)
    }

    /// Decides what to do about a handshake frame from `addr`.
    pub fn on_handshake(&mut self, frame: HandshakeFrame, addr: PeerAddr) -> (r: HandshakeAction)
        requires
            old(self).wf(),
        ensures
            final(self).wf(),
            handshake_step(old(self).view(), frame, addr, final(self).view(), r),
    {
        match frame {
            HandshakeFrame::ClientHello { long_pk, eph_pk, version } => {
                if version != PROTOCOL_VERSION {
                    HandshakeAction::Stop
                } else {
                    HandshakeAction::ReplyHello { long_pk, eph_pk }
                }
            },
            HandshakeFrame::ClientResume { resume_token, shard_id } => {
                if self.table.rebind(addr, shard_id, resume_token) {
                    HandshakeAction::Rebound
                } else {
                    HandshakeAction::NewSession
                }
            },
            HandshakeFrame::ServerHello { .. } => HandshakeAction::Ignore,
        }
    }

    /// Registers a session whose resume token opened, with `shard_id`
    /// bound to the sender `addr`.
    pub fn register(&mut self, token: Vec<u8>, handle: S, shard_id: u8, addr: PeerAddr)
        requires
            old(self).wf(),
        ensures
            final(self).wf(),
            final(self).view().sessions == old(self).view().sessions.insert(
                token@,
                (handle, seq![(shard_id, addr)]),
            ),
            final(self).view().routes == old(self).view().routes.insert(addr, token@),
            consistent(old(self).view()) && !old(self).view().sessions.contains_key(token@) ==> consistent(
                final(self).view(),
            ),
    {
        let addrs = single_shard(shard_id, addr);
        let t2 = token.clone();
        let ghost t = token@;
        self.table.new_sess(token, handle, addrs);
        let ghost mid = self.table.view();
        assert(mid.sessions.contains_key(t));
        let ok = self.table.rebind(addr, shard_id, t2);
        proof {
            let e = mid.sessions[t].1;
            assert(e == seq![(shard_id, addr)]);
            let n = self.table.view();
            let ne = n.sessions[t].1;
            if exists|i: int| replaced_at(mid, n, e, ne, shard_id, addr, t, i) {
                let i = choose|i: int| replaced_at(mid, n, e, ne, shard_id, addr, t, i);
                assert(i == 0);
                assert(ne =~= seq![(shard_id, addr)]);
                assert(n.routes =~= old(self).view().routes.insert(addr, t));
            } else {
                assert(e[0].0 == shard_id);
            }
            assert(n.sessions =~= old(self).view().sessions.insert(t, (handle, seq![(shard_id, addr)])));
        }
    }
}

} // verus!
