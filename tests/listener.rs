use sosistab::listener::{HandshakeAction, HandshakeFrame, ListenerState};
use sosistab::replay::{fresh, RecentFilter};
use sosistab::shards::{bind_shard, pick_addr, single_shard, PeerAddr};
use sosistab::table::{bytes_eq, SessionTable};

fn addr(n: u16) -> PeerAddr {
    PeerAddr { ip: 0xffff_7f00_0001, port: n }
}

#[test]
fn replay_first_check_passes_then_refused() {
    let mut f = RecentFilter::new(0);
    assert!(f.check(b"hello", 0));
    assert!(!f.check(b"hello", 1_000));
    assert!(!f.check(b"hello", 600_000));
    assert!(f.check(b"other", 600_000));
}

#[test]
fn replay_within_ten_seconds_dropped() {
    let mut st: ListenerState<u32> = ListenerState::new(0);
    let raw = vec![7u8; 1000];
    assert!(st.screen(&raw, 0));
    assert!(!st.screen(&raw, 9_999));
}

#[test]
fn replay_remembered_across_one_rotation() {
    let mut f = RecentFilter::new(0);
    assert!(f.check(b"x", 500_000));
    // the current filter is retired here; "x" moves to the previous one
    assert!(f.check(b"y", 601_000));
    assert!(!f.check(b"x", 700_000));
}

#[test]
fn replay_forgotten_after_two_rotations() {
    let mut f = RecentFilter::new(0);
    assert!(f.check(b"x", 0));
    assert!(f.check(b"y", 601_000));
    assert!(f.check(b"z", 1_202_000));
    assert!(f.check(b"x", 1_202_001));
}

#[test]
fn bytes_equality() {
    assert!(bytes_eq(b"abc", b"abc"));
    assert!(!bytes_eq(b"abc", b"abd"));
    assert!(!bytes_eq(b"abc", b"ab"));
    assert!(bytes_eq(b"", b""));
}

#[test]
fn table_rebind_unknown_token_fails() {
    let mut t: SessionTable<u32> = SessionTable::new();
    assert!(!t.rebind(addr(1), 0, b"tok".to_vec()));
    assert!(t.lookup(addr(1)).is_none());
}

#[test]
fn table_register_rebind_lookup() {
    let mut t: SessionTable<u32> = SessionTable::new();
    t.new_sess(b"tok".to_vec(), 42, single_shard(0, addr(1)));
    assert!(t.rebind(addr(1), 0, b"tok".to_vec()));
    assert_eq!(t.lookup(addr(1)), Some(&42));
    assert!(t.lookup(addr(2)).is_none());
}

#[test]
fn table_rebind_evicts_old_address() {
    let mut t: SessionTable<u32> = SessionTable::new();
    t.new_sess(b"tok".to_vec(), 7, single_shard(0, addr(1)));
    assert!(t.rebind(addr(1), 0, b"tok".to_vec()));
    assert!(t.rebind(addr(2), 0, b"tok".to_vec()));
    assert!(t.lookup(addr(1)).is_none());
    assert_eq!(t.lookup(addr(2)), Some(&7));
    let m = t.addrs_of(b"tok").unwrap();
    assert_eq!(m.len(), 1);
    assert_eq!(m.get_index(0), Some((&0u8, &addr(2))));
}

#[test]
fn table_delete_purges_routes() {
    let mut t: SessionTable<u32> = SessionTable::new();
    t.new_sess(b"a".to_vec(), 1, single_shard(0, addr(1)));
    t.rebind(addr(1), 0, b"a".to_vec());
    t.rebind(addr(2), 1, b"a".to_vec());
    t.new_sess(b"b".to_vec(), 2, single_shard(0, addr(3)));
    t.rebind(addr(3), 0, b"b".to_vec());
    t.delete(b"a".to_vec());
    assert!(t.lookup(addr(1)).is_none());
    assert!(t.lookup(addr(2)).is_none());
    assert_eq!(t.lookup(addr(3)), Some(&2));
    assert!(t.addrs_of(b"a").is_none());
    // deleting an unknown token changes nothing
    t.delete(b"zzz".to_vec());
    assert_eq!(t.lookup(addr(3)), Some(&2));
}

#[test]
fn shard_binding_keeps_order_and_returns_old() {
    let mut m = single_shard(0, addr(1));
    assert_eq!(bind_shard(&mut m, 1, addr(2)), None);
    assert_eq!(bind_shard(&mut m, 0, addr(3)), Some(addr(1)));
    assert_eq!(m.get_index(0), Some((&0u8, &addr(3))));
    assert_eq!(m.get_index(1), Some((&1u8, &addr(2))));
}

#[test]
fn round_robin_over_two_shards() {
    let mut m = single_shard(0, addr(1));
    bind_shard(&mut m, 1, addr(2));
    let (c1, a1) = pick_addr(0, &m);
    let (c2, a2) = pick_addr(c1, &m);
    let (c3, a3) = pick_addr(c2, &m);
    assert_eq!((c1, c2, c3), (1, 2, 3));
    assert_eq!(a1, addr(2));
    assert_eq!(a2, addr(1));
    assert_eq!(a3, addr(2));
    let (c, a) = pick_addr(255, &m);
    assert_eq!(c, 0);
    assert_eq!(a, addr(1));
}

#[test]
fn hello_version_one_gets_reply() {
    let mut st: ListenerState<u32> = ListenerState::new(0);
    let act = st.on_handshake(
        HandshakeFrame::ClientHello { long_pk: [1; 32], eph_pk: [2; 32], version: 1 },
        addr(1),
    );
    match act {
        HandshakeAction::ReplyHello { long_pk, eph_pk } => {
            assert_eq!(long_pk, [1; 32]);
            assert_eq!(eph_pk, [2; 32]);
        }
        other => panic!("unexpected {:?}", other),
    }
}

#[test]
fn hello_wrong_version_stops() {
    let mut st: ListenerState<u32> = ListenerState::new(0);
    let act = st.on_handshake(
        HandshakeFrame::ClientHello { long_pk: [1; 32], eph_pk: [2; 32], version: 2 },
        addr(1),
    );
    assert!(matches!(act, HandshakeAction::Stop));
}

#[test]
fn server_hello_ignored() {
    let mut st: ListenerState<u32> = ListenerState::new(0);
    let act = st.on_handshake(
        HandshakeFrame::ServerHello { long_pk: [1; 32], eph_pk: [2; 32], resume_token: vec![1] },
        addr(1),
    );
    assert!(matches!(act, HandshakeAction::Ignore));
}

#[test]
fn resume_then_shard_then_rebind() {
    let mut st: ListenerState<u32> = ListenerState::new(0);
    let tok = b"token".to_vec();
    // resume on the hello address: new session, delivered once
    let act = st.on_handshake(
        HandshakeFrame::ClientResume { resume_token: tok.clone(), shard_id: 0 },
        addr(1),
    );
    assert!(matches!(act, HandshakeAction::NewSession));
    st.register(tok.clone(), 9, 0, addr(1));
    assert_eq!(st.route(addr(1)), Some(&9));
    // a second shard from another address: no new session
    let act = st.on_handshake(
        HandshakeFrame::ClientResume { resume_token: tok.clone(), shard_id: 1 },
        addr(2),
    );
    assert!(matches!(act, HandshakeAction::Rebound));
    assert_eq!(st.route(addr(2)), Some(&9));
    assert_eq!(st.table.addrs_of(&tok).unwrap().len(), 2);
    // shard 0 moves to a new address
    let act = st.on_handshake(
        HandshakeFrame::ClientResume { resume_token: tok.clone(), shard_id: 0 },
        addr(3),
    );
    assert!(matches!(act, HandshakeAction::Rebound));
    assert!(st.route(addr(1)).is_none());
    assert_eq!(st.route(addr(3)), Some(&9));
    // the session dies
    st.on_dead(tok.clone());
    assert!(st.route(addr(2)).is_none());
    assert!(st.route(addr(3)).is_none());
}

#[test]
fn repeated_hello_same_decision() {
    let mut st: ListenerState<u32> = ListenerState::new(0);
    let hello = || HandshakeFrame::ClientHello { long_pk: [5; 32], eph_pk: [6; 32], version: 1 };
    let a = st.on_handshake(hello(), addr(1));
    let b = st.on_handshake(hello(), addr(1));
    match (a, b) {
        (
            HandshakeAction::ReplyHello { long_pk: l1, eph_pk: e1 },
            HandshakeAction::ReplyHello { long_pk: l2, eph_pk: e2 },
        ) => {
            assert_eq!(l1, l2);
            assert_eq!(e1, e2);
            assert_eq!(l1, [5; 32]);
        }
        other => panic!("unexpected {:?}", other),
    }
    assert!(st.route(addr(1)).is_none());
}

#[test]
fn replay_verdict_from_filter_answers() {
    assert!(fresh(false, false));
    assert!(!fresh(true, false));
    assert!(!fresh(false, true));
    assert!(!fresh(true, true));
}

#[test]
fn replay_forgotten_after_idle_period() {
    let mut f = RecentFilter::new(0);
    assert!(f.check(b"x", 100_000));
    // nothing checked in between: more than 1200 s since the filter started
    assert!(f.check(b"x", 1_300_000));
    assert!(!f.check(b"x", 1_300_001));
}

#[test]
fn replay_rotation_just_past_ten_minutes() {
    let mut f = RecentFilter::new(0);
    assert!(f.check(b"x", 0));
    // 600.5 s: rotated, but "x" is still in the previous filter
    assert!(!f.check(b"x", 600_500));
}

#[test]
fn replay_window_ends_on_schedule() {
    let mut f = RecentFilter::new(0);
    assert!(f.check(b"b", 0));
    assert!(f.check(b"other", 1_100_000));
    // "b" was last seen 1600 s ago: both of its periods have ended
    assert!(f.check(b"b", 1_600_000));
}

#[test]
fn replay_forgotten_at_exactly_twenty_minutes() {
    let mut f = RecentFilter::new(0);
    assert!(f.check(b"b", 0));
    assert!(f.check(b"b", 1_200_000));
}

#[test]
fn checked_pick_refuses_empty_map() {
    let m = sosistab::shards::single_shard(3, addr(9));
    assert_eq!(sosistab::shards::shard_count(&m), 1);
    assert_eq!(sosistab::shards::try_pick_addr(7, &m), Some((8, addr(9))));
    let empty: sosistab::shards::ShardMap = indexmap::IndexMap::new();
    assert_eq!(sosistab::shards::try_pick_addr(7, &empty), None);
}
