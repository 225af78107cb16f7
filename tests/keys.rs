use sosistab::keys::session_keys;

#[test]
fn session_keys_are_keyed_hashes() {
    let up = [1u8; 32];
    let dn = [2u8; 32];
    let secret = [9u8; 32];
    let (u, d) = session_keys(&up, &dn, &secret);
    assert_eq!(&u, blake3::keyed_hash(&up, &secret).as_bytes());
    assert_eq!(&d, blake3::keyed_hash(&dn, &secret).as_bytes());
    assert_ne!(u, d);
    assert_ne!(u, secret);
    assert_ne!(u, up);
}

#[test]
fn session_keys_are_deterministic() {
    let up = [3u8; 32];
    let dn = [4u8; 32];
    assert_eq!(session_keys(&up, &dn, b"k"), session_keys(&up, &dn, b"k"));
    assert_ne!(session_keys(&up, &dn, b"k").0, session_keys(&up, &dn, b"j").0);
}
