use vstd::prelude::*;
use crate::assoc::{
    assoc, lemma_assoc_absent, lemma_assoc_at, lemma_assoc_has, lemma_assoc_push,
    lemma_assoc_remove, lemma_assoc_update, unique_keys,
};
use crate::shards::{
    bind_shard, binds, keys_unique, shard_entries, shards_get_index, shards_len, PeerAddr,
    ShardMap,
};

verus! {

/// A resume token and the session registered under it.
struct SessEntry<S> {
    token: Vec<u8>,
    handle: S,
    addrs: ShardMap,
}

/// What a session table holds: each token's session handle and shard
/// addresses, and which token each peer address routes to.
pub struct TableView<S> {
    pub sessions: Map<Seq<u8>, (S, Seq<(u8, PeerAddr)>)>,
    pub routes: Map<PeerAddr, Seq<u8>>,
}

/// Every routed address belongs to the session it routes to.
pub open spec fn consistent<S>(v: TableView<S>) -> bool {
    forall|a: PeerAddr| #[trigger] v.routes.contains_key(a) ==> v.sessions.contains_key(v.routes[a])
        && binds(v.sessions[v.routes[a]].1, a)
}

/// No session binds a shard id twice.
pub open spec fn shards_wf<S>(v: TableView<S>) -> bool {
    forall|t: Seq<u8>| #[trigger] v.sessions.contains_key(t) ==> keys_unique(v.sessions[t].1)
}

/// Shard `shard_id` of the session `t`, found at position `i` of its
/// shards `e`, is rebound to `addr`, giving `ne`; its old address loses its
/// route and `addr` routes to `t`.
pub open spec fn replaced_at<S>(
    o: TableView<S>,
    n: TableView<S>,
    e: Seq<(u8, PeerAddr)>,
    ne: Seq<(u8, PeerAddr)>,
    shard_id: u8,
    addr: PeerAddr,
    t: Seq<u8>,
    i: int,
) -> bool {
    &&& 0 <= i < e.len()
    &&& e[i].0 == shard_id
    &&& ne == e.update(i, (shard_id, addr))
    &&& n.routes == o.routes.remove(e[i].1).insert(addr, t)
}

/// Shard `shard_id`, absent from `e`, is bound to `addr` last, giving
/// `ne`, and `addr` routes to `t`.
pub open spec fn appended<S>(
    o: TableView<S>,
    n: TableView<S>,
    e: Seq<(u8, PeerAddr)>,
    ne: Seq<(u8, PeerAddr)>,
    shard_id: u8,
    addr: PeerAddr,
    t: Seq<u8>,
) -> bool {
    &&& forall|i: int| 0 <= i < e.len() ==> e[i].0 != shard_id
    &&& ne == e.push((shard_id, addr))
    &&& n.routes == o.routes.insert(addr, t)
}

/// Session `t` of `o` has its shards rebound, becoming `ne` in `n`.
pub open spec fn shards_rebound<S>(
    o: TableView<S>,
    n: TableView<S>,
    t: Seq<u8>,
    shard_id: u8,
    addr: PeerAddr,
    ne: Seq<(u8, PeerAddr)>,
) -> bool {
    let e = o.sessions[t].1;
    &&& n.sessions == o.sessions.insert(t, (o.sessions[t].0, ne))
    &&& ne.len() > 0
    &&& (exists|i: int| replaced_at(o, n, e, ne, shard_id, addr, t, i)) || appended(
        o,
        n,
        e,
        ne,
        shard_id,
        addr,
        t,
    )
}

/// How `rebind(addr, shard_id, t)` moves the table from `o` to `n`.
pub open spec fn rebind_step<S>(
    o: TableView<S>,
    addr: PeerAddr,
    shard_id: u8,
    t: Seq<u8>,
    n: TableView<S>,
    r: bool,
) -> bool {
    if !o.sessions.contains_key(t) {
        !r && n == o
    } else {
        &&& r
        &&& exists|ne: Seq<(u8, PeerAddr)>| shards_rebound(o, n, t, shard_id, addr, ne)
    }
}

/// How `delete(t)` moves the table from `o` to `n`.
pub open spec fn delete_step<S>(o: TableView<S>, t: Seq<u8>, n: TableView<S>) -> bool {
    if !o.sessions.contains_key(t) {
        n == o
    } else {
        &&& n.sessions == o.sessions.remove(t)
        &&& forall|a: PeerAddr|
            #[trigger] n.routes.contains_key(a) <==> o.routes.contains_key(a) && !binds(o.sessions[t].1, a)
        &&& forall|a: PeerAddr| #[trigger] n.routes.contains_key(a) ==> n.routes[a] == o.routes[a]
    }
}

/// A rebind keeps shard ids distinct within each session.
pub proof fn lemma_rebind_shards_wf<S>(
    o: TableView<S>,
    addr: PeerAddr,
    shard_id: u8,
    t: Seq<u8>,
    n: TableView<S>,
    r: bool,
)
    requires
        shards_wf(o),
        rebind_step(o, addr, shard_id, t, n, r),
    ensures
        shards_wf(n),
        r ==> n.sessions.contains_key(t) && binds(n.sessions[t].1, addr),
        r ==> exists|i: int|
            0 <= i < n.sessions[t].1.len() && #[trigger] n.sessions[t].1[i] == (shard_id, addr),
{
    if r {
        let e = o.sessions[t].1;
        let ne = choose|ne: Seq<(u8, PeerAddr)>| shards_rebound(o, n, t, shard_id, addr, ne);
        if exists|i: int| replaced_at(o, n, e, ne, shard_id, addr, t, i) {
            let i = choose|i: int| replaced_at(o, n, e, ne, shard_id, addr, t, i);
            assert(ne[i] == (shard_id, addr));
        } else {
            assert(ne[e.len() as int] == (shard_id, addr));
        }
        assert(keys_unique(n.sessions[t].1));
    }
}

/// The routing invariant survives a rebind: every routed address still
/// belongs to the session it routes to.
pub proof fn lemma_rebind_consistent<S>(
    o: TableView<S>,
    addr: PeerAddr,
    shard_id: u8,
    t: Seq<u8>,
    n: TableView<S>,
    r: bool,
)
    requires
        consistent(o),
        shards_wf(o),
        rebind_step(o, addr, shard_id, t, n, r),
    ensures
        consistent(n),
        shards_wf(n),
{
    lemma_rebind_shards_wf(o, addr, shard_id, t, n, r);
    if r {
        let e = o.sessions[t].1;
        let ne = n.sessions[t].1;
        assert forall|a: PeerAddr| #[trigger] n.routes.contains_key(a) implies n.sessions.contains_key(
            n.routes[a],
        ) && binds(n.sessions[n.routes[a]].1, a) by {
            if a != addr {
                let t2 = n.routes[a];
                assert(o.routes.contains_key(a) && o.routes[a] == t2);
                if t2 == t {
                    let j = choose|j: int| 0 <= j < e.len() && e[j].1 == a;
                    if exists|i: int| replaced_at(o, n, e, ne, shard_id, addr, t, i) {
            let i = choose|i: int| replaced_at(o, n, e, ne, shard_id, addr, t, i);
                        assert(j != i);
                        assert(ne[j] == e[j]);
                    } else {
                        assert(ne[j] == e[j]);
                    }
                }
            }
        }
    }
}

/// The routing invariant survives a delete.
pub proof fn lemma_delete_consistent<S>(o: TableView<S>, t: Seq<u8>, n: TableView<S>)
    requires
        consistent(o),
        shards_wf(o),
        delete_step(o, t, n),
    ensures
        consistent(n),
        shards_wf(n),
{
}

/// The routing invariant survives registering a session under a token not
/// yet in use.
pub proof fn lemma_new_sess_consistent<S>(
    o: TableView<S>,
    t: Seq<u8>,
    h: S,
    e: Seq<(u8, PeerAddr)>,
    n: TableView<S>,
)
    requires
        consistent(o),
        shards_wf(o),
        keys_unique(e),
        !o.sessions.contains_key(t),
        n.sessions == o.sessions.insert(t, (h, e)),
        n.routes == o.routes,
    ensures
        consistent(n),
        shards_wf(n),
{
}

/// Rebind eviction: binding a shard of a session to `a1` and then the same
/// shard to another address `a2` leaves `a1` unrouted and `a2` routed to
/// that session.
pub proof fn lemma_rebind_evicts<S>(
    o: TableView<S>,
    a1: PeerAddr,
    a2: PeerAddr,
    shard_id: u8,
    t: Seq<u8>,
    m: TableView<S>,
    r1: bool,
    n: TableView<S>,
    r2: bool,
)
    requires
        shards_wf(o),
        rebind_step(o, a1, shard_id, t, m, r1),
        r1,
        rebind_step(m, a2, shard_id, t, n, r2),
        a1 != a2,
    ensures
        r2,
        !n.routes.contains_key(a1),
        n.routes.contains_key(a2),
        n.routes[a2] == t,
        n.sessions.contains_key(t),
{
    lemma_rebind_shards_wf(o, a1, shard_id, t, m, r1);
    let e = m.sessions[t].1;
    let k = choose|i: int| 0 <= i < e.len() && #[trigger] e[i] == (shard_id, a1);
    assert(e[k].0 == shard_id);
    let ne = choose|ne: Seq<(u8, PeerAddr)>| shards_rebound(m, n, t, shard_id, a2, ne);
    assert(n.sessions[t].1 == ne);
    if exists|i: int| replaced_at(m, n, e, ne, shard_id, a2, t, i) {
        let i = choose|i: int| replaced_at(m, n, e, ne, shard_id, a2, t, i);
        assert(i == k);
    } else {
        assert(appended(m, n, e, ne, shard_id, a2, t));
        assert(e[k].0 != shard_id);
    }
}

/// Soft-state routing between resume tokens, sessions and peer addresses.
pub struct SessionTable<S> {
    sessions: Vec<SessEntry<S>>,
    routes: Vec<(PeerAddr, Vec<u8>)>,
}

/// Whether two byte strings are equal.
pub fn bytes_eq(a: &[u8], b: &[u8]) -> (r: bool)
    ensures
        r == (a@ == b@),
{
    if a.len() != b.len() {
        return false;
    }
    let mut i: usize = 0;
    while i < a.len()
        invariant
            a@.len() == b@.len(),
            i <= a@.len(),
            forall|j: int| 0 <= j < i ==> a@[j] == b@[j],
        decreases a@.len() - i,
    {
        if a[i] != b[i] {
            return false;
        }
        i = i + 1;
    }
    assert(a@ =~= b@);
    true
}

impl<S> SessionTable<S> {
    closed spec fn sess_seq(&self) -> Seq<(Seq<u8>, (S, Seq<(u8, PeerAddr)>))> {
        self.sessions@.map_values(|e: SessEntry<S>| (e.token@, (e.handle, shard_entries(e.addrs))))
    }

    closed spec fn route_seq(&self) -> Seq<(PeerAddr, Seq<u8>)> {
        self.routes@.map_values(|r: (PeerAddr, Vec<u8>)| (r.0, r.1@))
    }

    pub closed spec fn view(&self) -> TableView<S> {
        TableView { sessions: assoc(self.sess_seq()), routes: assoc(self.route_seq()) }
    }

    /// Tokens and addresses are each held once, and no session binds a
    /// shard id twice.
    pub closed spec fn wf(&self) -> bool {
        &&& unique_keys(self.sess_seq())
        &&& unique_keys(self.route_seq())
        &&& forall|i: int| 0 <= i < self.sessions@.len() ==> keys_unique(
            #[trigger] shard_entries(self.sessions@[i].addrs),
        )
    }

    /// An empty table.
    pub fn new() -> (r: SessionTable<S>)
        ensures
            r.wf(),
            r.view().sessions == Map::<Seq<u8>, (S, Seq<(u8, PeerAddr)>)>::empty(),
            r.view().routes == Map::<PeerAddr, Seq<u8>>::empty(),
    {
        let r = SessionTable { sessions: Vec::new(), routes: Vec::new() };
        assert(r.sess_seq() =~= Seq::empty());
        assert(r.route_seq() =~= Seq::empty());
        r
    }

    /// A well-formed table binds no shard id twice in any session.
    pub proof fn lemma_wf_view(&self)
        requires
            self.wf(),
        ensures
            shards_wf(self.view()),
    {
        assert forall|t: Seq<u8>| #[trigger] self.view().sessions.contains_key(t) implies keys_unique(
            self.view().sessions[t].1,
        ) by {
            lemma_assoc_has(self.sess_seq(), t);
            let i = choose|i: int| 0 <= i < self.sess_seq().len() && self.sess_seq()[i].0 == t;
            lemma_assoc_at(self.sess_seq(), i);
        }
    }

    fn find_session(&self, token: &[u8]) -> (r: Option<usize>)
        ensures
            match r {
                Some(i) => i < self.sess_seq().len() && self.sess_seq()[i as int].0 == token@,
                None => forall|i: int| 0 <= i < self.sess_seq().len() ==> self.sess_seq()[i].0 != token@,
            },
    {
        let mut i: usize = 0;
        while i < self.sessions.len()
            invariant
                i <= self.sessions@.len(),
                forall|j: int| 0 <= j < i ==> self.sess_seq()[j].0 != token@,
            decreases self.sessions@.len() - i,
        {
            if bytes_eq(self.sessions[i].token.as_slice(), token) {
                return Some(i);
            }
            i = i + 1;
        }
        None
    }

    fn find_route(&self, addr: PeerAddr) -> (r: Option<usize>)
        ensures
            match r {
                Some(i) => i < self.route_seq().len() && self.route_seq()[i as int].0 == addr,
                None => forall|i: int| 0 <= i < self.route_seq().len() ==> self.route_seq()[i].0 != addr,
            },
    {
        let mut i: usize = 0;
        while i < self.routes.len()
            invariant
                i <= self.routes@.len(),
                forall|j: int| 0 <= j < i ==> self.route_seq()[j].0 != addr,
            decreases self.routes@.len() - i,
        {
            if self.routes[i].0 == addr {
                return Some(i);
            }
            i = i + 1;
        }
        None
    }

    fn route_remove(&mut self, addr: PeerAddr)
        requires
            old(self).wf(),
        ensures
            final(self).wf(),
            final(self).view().routes == old(self).view().routes.remove(addr),
            final(self).view().sessions == old(self).view().sessions,
    {
        match self.find_route(addr) {
            Some(i) => {
                let ghost rs = self.route_seq();
                self.routes.remove(i);
                assert(self.route_seq() =~= rs.remove(i as int));
                proof {
                    lemma_assoc_remove(rs, i as int);
                }
            },
            None => {
                proof {
                    lemma_assoc_absent(self.route_seq(), addr);
                }
                assert(self.view().routes =~= old(self).view().routes.remove(addr));
            },
        }
    }

    fn route_set(&mut self, addr: PeerAddr, token: Vec<u8>)
        requires
            old(self).wf(),
        ensures
            final(self).wf(),
            final(self).view().routes == old(self).view().routes.insert(addr, token@),
            final(self).view().sessions == old(self).view().sessions,
    {
        let ghost rs = self.route_seq();
        match self.find_route(addr) {
            Some(i) => {
                self.routes.set(i, (addr, token));
                assert(self.route_seq() =~= rs.update(i as int, (rs[i as int].0, token@)));
                proof {
                    lemma_assoc_update(rs, i as int, token@);
                }
            },
            None => {
                self.routes.push((addr, token));
                assert(self.route_seq() =~= rs.push((addr, token@)));
                proof {
                    lemma_assoc_push(rs, addr, token@);
                }
            },
        }
    }
}

impl<S> SessionTable<S> {
    /// Binds `shard_id` of the session registered under `token` to `addr`,
    /// evicting the address that shard had from the routes, and routes
    /// `addr` to `token`. Returns false, changing nothing, if the token is
    /// unknown.
    pub fn rebind(&mut self, addr: PeerAddr, shard_id: u8, token: Vec<u8>) -> (r: bool)
        requires
            old(self).wf(),
        ensures
            final(self).wf(),
            rebind_step(old(self).view(), addr, shard_id, token@, final(self).view(), r),
            consistent(old(self).view()) ==> consistent(final(self).view()),
    {
        proof {
            old(self).lemma_wf_view();
        }
        let r = self.rebind_inner(addr, shard_id, token);
        proof {
            if consistent(old(self).view()) {
                lemma_rebind_consistent(old(self).view(), addr, shard_id, token@, self.view(), r);
            }
        }
        r
    }

    fn rebind_inner(&mut self, addr: PeerAddr, shard_id: u8, token: Vec<u8>) -> (r: bool)
        requires
            old(self).wf(),
        ensures
            final(self).wf(),
            rebind_step(old(self).view(), addr, shard_id, token@, final(self).view(), r),
    {
        let ghost ss = self.sess_seq();
        match self.find_session(token.as_slice()) {
            None => {
                proof {
                    lemma_assoc_absent(ss, token@);
                }
                false
            },
            Some(i) => {
                proof {
                    lemma_assoc_at(ss, i as int);
                }
                let ghost o = self.view();
                let ghost e0 = shard_entries(self.sessions@[i as int].addrs);
                let mut e = self.sessions.remove(i);
                let prev = bind_shard(&mut e.addrs, shard_id, addr);
                let ghost ne = shard_entries(e.addrs);
                let ghost h = e.handle;
                self.sessions.insert(i, e);
                assert(self.sess_seq() =~= ss.update(i as int, (ss[i as int].0, (h, ne))));
                proof {
                    lemma_assoc_update(ss, i as int, (h, ne));
                }
                assert forall|k: int| 0 <= k < self.sessions@.len() implies keys_unique(
                    #[trigger] shard_entries(self.sessions@[k].addrs),
                ) by {
                    if k != i {
                        assert(self.sessions@[k] == old(self).sessions@[k]);
                    }
                }
                match prev {
                    Some(oa) => {
                        self.route_remove(oa);
                    },
                    None => {},
                }
                self.route_set(addr, token);
                proof {
                    let n = self.view();
                    assert(n.sessions == o.sessions.insert(token@, (o.sessions[token@].0, ne)));
                    match prev {
                        Some(oa) => {
                            let k = choose|k: int|
                                0 <= k < e0.len() && e0[k] == (shard_id, oa) && ne == e0.update(
                                    k,
                                    (shard_id, addr),
                                );
                            assert(ne[k] == (shard_id, addr));
                            assert(n.routes == o.routes.remove(e0[k].1).insert(addr, token@));
                            assert(replaced_at(o, n, e0, ne, shard_id, addr, token@, k));
                        },
                        None => {
                            assert(ne[e0.len() as int] == (shard_id, addr));
                            assert(appended(o, n, e0, ne, shard_id, addr, token@));
                        },
                    }
                    assert(e0 == o.sessions[token@].1);
                    assert(ne.len() > 0);
                    assert(shards_rebound(o, n, token@, shard_id, addr, ne));
                    assert(rebind_step(o, addr, shard_id, token@, n, true));
                }
                true
            },
        }
    }

    /// Removes the session registered under `token` and every route from
    /// an address that session binds.
    pub fn delete(&mut self, token: Vec<u8>)
        requires
            old(self).wf(),
        ensures
            final(self).wf(),
            delete_step(old(self).view(), token@, final(self).view()),
            consistent(old(self).view()) ==> consistent(final(self).view()),
    {
        proof {
            old(self).lemma_wf_view();
        }
        let ghost t = token@;
        self.delete_inner(token);
        proof {
            if consistent(old(self).view()) {
                lemma_delete_consistent(old(self).view(), t, self.view());
            }
        }
    }

    fn delete_inner(&mut self, token: Vec<u8>)
        requires
            old(self).wf(),
        ensures
            final(self).wf(),
            delete_step(old(self).view(), token@, final(self).view()),
    {
        let ghost ss = self.sess_seq();
        match self.find_session(token.as_slice()) {
            None => {
                proof {
                    lemma_assoc_absent(ss, token@);
                }
            },
            Some(i) => {
                proof {
                    lemma_assoc_at(ss, i as int);
                    lemma_assoc_remove(ss, i as int);
                }
                let e = self.sessions.remove(i);
                assert(self.sess_seq() =~= ss.remove(i as int));
                assert forall|k: int| 0 <= k < self.sessions@.len() implies keys_unique(
                    #[trigger] shard_entries(self.sessions@[k].addrs),
                ) by {
                    if k < i {
                        assert(self.sessions@[k] == old(self).sessions@[k]);
                    } else {
                        assert(self.sessions@[k] == old(self).sessions@[k + 1]);
                    }
                }
                let ghost es = shard_entries(e.addrs);
                let ghost o = old(self).view();
                let n = shards_len(&e.addrs);
                let mut j: usize = 0;
                while j < n
                    invariant
                        self.wf(),
                        n == es.len(),
                        j <= n,
                        es == shard_entries(e.addrs),
                        self.view().sessions == o.sessions.remove(token@),
                        forall|a: PeerAddr| #[trigger]
                            self.view().routes.contains_key(a) <==> o.routes.contains_key(a) && !(exists|
                                k: int,
                            | 0 <= k < j && es[k].1 == a),
                        forall|a: PeerAddr| #[trigger]
                            self.view().routes.contains_key(a) ==> self.view().routes[a] == o.routes[a],
                    decreases n - j,
                {
                    match shards_get_index(&e.addrs, j) {
                        Some((_, a)) => {
                            self.route_remove(a);
                            assert(es[j as int].1 == a);
                        },
                        None => {},
                    }
                    j = j + 1;
                }
                assert forall|a: PeerAddr| #[trigger]
                    self.view().routes.contains_key(a) <==> o.routes.contains_key(a) && !binds(
                        o.sessions[token@].1,
                        a,
                    ) by {
                    assert(o.sessions[token@].1 == es);
                }
            },
        }
    }

    /// The session handle that datagrams from `addr` go to, if any.
    pub fn lookup(&self, addr: PeerAddr) -> (r: Option<&S>)
        requires
            self.wf(),
        ensures
            match r {
                Some(h) => self.view().routes.contains_key(addr) && self.view().sessions.contains_key(
                    self.view().routes[addr],
                ) && *h == self.view().sessions[self.view().routes[addr]].0,
                None => !(self.view().routes.contains_key(addr) && self.view().sessions.contains_key(
                    self.view().routes[addr],
                )),
            },
    {
        match self.find_route(addr) {
            None => {
                proof {
                    lemma_assoc_absent(self.route_seq(), addr);
                }
                None
            },
            Some(i) => {
                proof {
                    lemma_assoc_at(self.route_seq(), i as int);
                }
                match self.find_session(self.routes[i].1.as_slice()) {
                    None => {
                        proof {
                            lemma_assoc_absent(self.sess_seq(), self.route_seq()[i as int].1);
                        }
                        None
                    },
                    Some(k) => {
                        proof {
                            lemma_assoc_at(self.sess_seq(), k as int);
                        }
                        Some(&self.sessions[k].handle)
                    },
                }
            },
        }
    }

    /// The shard addresses of the session under `token`, if any.
    pub fn addrs_of(&self, token: &[u8]) -> (r: Option<&ShardMap>)
        requires
            self.wf(),
        ensures
            match r {
                Some(m) => self.view().sessions.contains_key(token@) && shard_entries(*m)
                    == self.view().sessions[token@].1,
                None => !self.view().sessions.contains_key(token@),
            },
    {
        match self.find_session(token) {
            None => {
                proof {
                    lemma_assoc_absent(self.sess_seq(), token@);
                }
                None
            },
            Some(k) => {
                proof {
                    lemma_assoc_at(self.sess_seq(), k as int);
                }
                Some(&self.sessions[k].addrs)
            },
        }
    }

    /// Registers a session under `token` with its handle and shard
    /// addresses, replacing any session already there.
    pub fn new_sess(&mut self, token: Vec<u8>, handle: S, addrs: ShardMap)
        requires
            old(self).wf(),
            keys_unique(shard_entries(addrs)),
        ensures
            final(self).wf(),
            final(self).view().sessions == old(self).view().sessions.insert(
                token@,
                (handle, shard_entries(addrs)),
            ),
            final(self).view().routes == old(self).view().routes,
            consistent(old(self).view()) && !old(self).view().sessions.contains_key(token@) ==> consistent(
                final(self).view(),
            ),
    {
        proof {
            old(self).lemma_wf_view();
        }
        let ghost ss = self.sess_seq();
        let ghost v = (handle, shard_entries(addrs));
        let ghost t = token@;
        match self.find_session(token.as_slice()) {
            Some(i) => {
                self.sessions.set(i, SessEntry { token, handle, addrs });
                assert(self.sess_seq() =~= ss.update(i as int, (ss[i as int].0, v)));
                proof {
                    lemma_assoc_update(ss, i as int, v);
                }
                assert forall|k: int| 0 <= k < self.sessions@.len() implies keys_unique(
                    #[trigger] shard_entries(self.sessions@[k].addrs),
                ) by {
                    if k != i {
                        assert(self.sessions@[k] == old(self).sessions@[k]);
                    }
                }
            },
            None => {
                self.sessions.push(SessEntry { token, handle, addrs });
                assert(self.sess_seq() =~= ss.push((t, v)));
                proof {
                    lemma_assoc_push(ss, t, v);
                }
                assert forall|k: int| 0 <= k < self.sessions@.len() implies keys_unique(
                    #[trigger] shard_entries(self.sessions@[k].addrs),
                ) by {
                    if k < old(self).sessions@.len() {
                        assert(self.sessions@[k] == old(self).sessions@[k]);
                    }
                }
            },
        }
        proof {
            if consistent(old(self).view()) && !old(self).view().sessions.contains_key(t) {
                lemma_new_sess_consistent(old(self).view(), t, v.0, v.1, self.view());
            }
        }
    }
}

} // verus!
