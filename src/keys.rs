use vstd::prelude::*;

verus! {

/// BLAKE3 in keyed mode: the 32-byte MAC of `input` under `key`.
pub uninterp spec fn blake3_keyed(key: Seq<u8>, input: Seq<u8>) -> Seq<u8>;

/// Relies on `blake3::keyed_hash`: a deterministic 32-byte keyed hash.
#[verifier::external_body]
fn keyed_hash(key: &[u8; 32], input: &[u8]) -> (r: [u8; 32])
    ensures
        r@ == blake3_keyed(key@, input@),
{
    *blake3::keyed_hash(key, input).as_bytes()
}

/// Directional session keys derived from a handshake's shared secret: the
/// upstream key under `up_label`, the downstream key under `dn_label`.
pub fn session_keys(up_label: &[u8; 32], dn_label: &[u8; 32], sess_key: &[u8]) -> (r: (
    [u8; 32],
    [u8; 32],
))
    ensures
        r.0@ == blake3_keyed(up_label@, sess_key@),
        r.1@ == blake3_keyed(dn_label@, sess_key@),
{
    (keyed_hash(up_label, sess_key), keyed_hash(dn_label, sess_key))
}

} // verus!
