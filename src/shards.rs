use vstd::prelude::*;
use indexmap::IndexMap;

verus! {

/// A peer's transport address: an IPv6 address (IPv4 is written mapped into
/// IPv6) and a port.
#[derive(Clone, Copy, Debug, PartialEq, Eq, Structural)]
pub struct PeerAddr {
    pub ip: u128,
    pub port: u16,
}

#[verifier::external_type_specification]
#[verifier::external_body]
#[verifier::reject_recursive_types(K)]
#[verifier::reject_recursive_types(V)]
#[verifier::reject_recursive_types(S)]
pub struct ExIndexMap<K, V, S>(IndexMap<K, V, S>);

/// The peer address of each shard of a session, in the order shards were
/// first bound.
pub type ShardMap = IndexMap<u8, PeerAddr>;

/// The entries of a shard map, in order.
pub uninterp spec fn shard_entries(m: ShardMap) -> Seq<(u8, PeerAddr)>;

/// Relies on `IndexMap::new`: the map starts empty.
#[verifier::external_body]
fn shards_new() -> (r: ShardMap)
    ensures
        shard_entries(r).len() == 0,
{
    IndexMap::new()
}

/// Relies on `IndexMap::insert`: a key already present keeps its place and
/// gets the new value, the old one being returned; a new key goes last.
#[verifier::external_body]
fn shards_insert(m: &mut ShardMap, k: u8, v: PeerAddr) -> (r: Option<PeerAddr>)
    ensures
        match r {
            Some(o) => exists|i: int|
                0 <= i < shard_entries(*old(m)).len() && shard_entries(*old(m))[i] == (k, o)
                    && shard_entries(*final(m)) == shard_entries(*old(m)).update(i, (k, v)),
            None => (forall|i: int|
                0 <= i < shard_entries(*old(m)).len() ==> shard_entries(*old(m))[i].0 != k)
                && shard_entries(*final(m)) == shard_entries(*old(m)).push((k, v)),
        },
{
    m.insert(k, v)
}

/// Relies on `IndexMap::get_index`: the entry at a position, if any.
#[verifier::external_body]
pub(crate) fn shards_get_index(m: &ShardMap, i: usize) -> (r: Option<(u8, PeerAddr)>)
    ensures
        i < shard_entries(*m).len() ==> r == Some(shard_entries(*m)[i as int]),
        i >= shard_entries(*m).len() ==> r is None,
{
    m.get_index(i).map(|(k, v)| (*k, *v))
}

/// Relies on `IndexMap::len`: the number of entries.
#[verifier::external_body]
pub(crate) fn shards_len(m: &ShardMap) -> (r: usize)
    ensures
        r == shard_entries(*m).len(),
{
    m.len()
}

/// No shard id appears twice.
pub open spec fn keys_unique(s: Seq<(u8, PeerAddr)>) -> bool {
    forall|i: int, j: int| 0 <= i < j < s.len() ==> s[i].0 != s[j].0
}

/// Some shard is bound to `a`.
pub open spec fn binds(s: Seq<(u8, PeerAddr)>, a: PeerAddr) -> bool {
    exists|i: int| 0 <= i < s.len() && s[i].1 == a
}

/// A shard map holding `shard_id -> addr` alone.
pub fn single_shard(shard_id: u8, addr: PeerAddr) -> (r: ShardMap)
    ensures
        shard_entries(r) == seq![(shard_id, addr)],
{
    let mut m = shards_new();
    shards_insert(&mut m, shard_id, addr);
    assert(shard_entries(m) =~= seq![(shard_id, addr)]);
    m
}

/// Binds `shard_id` to `addr`, returning the address it was bound to before.
pub fn bind_shard(m: &mut ShardMap, shard_id: u8, addr: PeerAddr) -> (r: Option<PeerAddr>)
    requires
        keys_unique(shard_entries(*old(m))),
    ensures
        keys_unique(shard_entries(*final(m))),
        match r {
            Some(o) => exists|i: int|
                0 <= i < shard_entries(*old(m)).len() && shard_entries(*old(m))[i] == (shard_id, o)
                    && shard_entries(*final(m)) == shard_entries(*old(m)).update(i, (shard_id, addr)),
            None => (forall|i: int|
                0 <= i < shard_entries(*old(m)).len() ==> shard_entries(*old(m))[i].0 != shard_id)
                && shard_entries(*final(m)) == shard_entries(*old(m)).push((shard_id, addr)),
        },
{
    shards_insert(m, shard_id, addr)
}

/// Output load balancing: advances the byte counter (wrapping) and picks
/// the shard at the counter modulo the number of shards.
pub fn pick_addr(ctr: u8, m: &ShardMap) -> (r: (u8, PeerAddr))
    requires
        0 < shard_entries(*m).len() < 256,
    ensures
        r.0 == (ctr as int + 1) % 256,
        r.1 == shard_entries(*m)[(r.0 as int) % (shard_entries(*m).len() as int)].1,
{
    let next = ctr.wrapping_add(1);
    let n = shards_len(m) as u8;
    let idx = (next % n) as usize;
    match shards_get_index(m, idx) {
        Some((_, a)) => (next, a),
        None => (next, PeerAddr { ip: 0, port: 0 }),
    }
}

/// The number of bound shards.
pub fn shard_count(m: &ShardMap) -> (r: usize)
    ensures
        r == shard_entries(*m).len(),
{
    shards_len(m)
}

/// `pick_addr` where it is defined: `None` when no shard is bound or there
/// are 256 of them, which a byte counter cannot index.
pub fn try_pick_addr(ctr: u8, m: &ShardMap) -> (r: Option<(u8, PeerAddr)>)
    ensures
        (0 < shard_entries(*m).len() < 256) <==> r is Some,
        r matches Some(p) ==> p.0 == (ctr as int + 1) % 256 && p.1 == shard_entries(*m)[(p.0 as int)
            % (shard_entries(*m).len() as int)].1,
{
    let n = shards_len(m);
    if n == 0 || n >= 256 {
        None
    } else {
        Some(pick_addr(ctr, m))
    }
}

} // verus!
