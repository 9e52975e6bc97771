//! Crossing between a device's Personae root and its seat in the graph's
//! key group, read off the lane's pre-keys.
//!
//! Nothing persists the mapping, and nothing needs to: pre-keys are
//! plaintext and retained, so the lane can always be asked again. A device
//! that re-publishes simply resolves again, to its latest pre-key.

use vstd::prelude::*;

use crate::sorted::compare_ids;

verus! {

/// The pre-keys read off the lane, in lane order, each as its Personae root
/// and the key-group seat it publishes.
pub open spec fn prekey_views(p: Seq<([u8; 32], [u8; 32])>) -> Seq<(Seq<u8>, Seq<u8>)> {
    p.map_values(|e: ([u8; 32], [u8; 32])| (e.0@, e.1@))
}

/// The seat the lane's latest pre-key for `root` publishes.
pub open spec fn seat_of(p: Seq<(Seq<u8>, Seq<u8>)>, root: Seq<u8>) -> Option<Seq<u8>>
    decreases p.len(),
{
    if p.len() == 0 {
        None
    } else if p.last().0 == root {
        Some(p.last().1)
    } else {
        seat_of(p.drop_last(), root)
    }
}

/// The root the lane's latest pre-key for `seat` belongs to.
pub open spec fn root_of(p: Seq<(Seq<u8>, Seq<u8>)>, seat: Seq<u8>) -> Option<Seq<u8>>
    decreases p.len(),
{
    if p.len() == 0 {
        None
    } else if p.last().1 == seat {
        Some(p.last().0)
    } else {
        root_of(p.drop_last(), seat)
    }
}

/// Which seat belongs to a Personae root: the seat its latest pre-key on
/// the lane publishes. `p` holds the lane's pre-keys that decoded and whose
/// roots verified, in lane order, each as (root, seat). A root with no
/// pre-key is `None`, the ordinary state of a device paired but never
/// joined to the key group.
pub fn recipient_for_root(p: &Vec<([u8; 32], [u8; 32])>, root: &[u8; 32]) -> (r: Option<[u8; 32]>)
    ensures
        match r {
            Some(s) => seat_of(prekey_views(p@), root@) == Some(s@),
            None => seat_of(prekey_views(p@), root@) is None,
        },
{
    let ghost v = prekey_views(p@);
    let mut i: usize = p.len();
    assert(v.subrange(0, i as int) =~= v);
    while i > 0
        invariant
            i <= p@.len(),
            v == prekey_views(p@),
            seat_of(v, root@) == seat_of(v.subrange(0, i as int), root@),
        decreases i,
    {
        let ghost w = v.subrange(0, i as int);
        assert(w.drop_last() =~= v.subrange(0, i - 1));
        assert(w.last() == (p@[i - 1].0@, p@[i - 1].1@));
        if compare_ids(&p[i - 1].0, root) == 0 {
            return Some(p[i - 1].1);
        }
        i = i - 1;
    }
    None
}

/// Which Personae root a seat belongs to: the root of the latest pre-key
/// on the lane that publishes it.
pub fn root_for_recipient(p: &Vec<([u8; 32], [u8; 32])>, seat: &[u8; 32]) -> (r: Option<[u8; 32]>)
    ensures
        match r {
            Some(x) => root_of(prekey_views(p@), seat@) == Some(x@),
            None => root_of(prekey_views(p@), seat@) is None,
        },
{
    let ghost v = prekey_views(p@);
    let mut i: usize = p.len();
    assert(v.subrange(0, i as int) =~= v);
    while i > 0
        invariant
            i <= p@.len(),
            v == prekey_views(p@),
            root_of(v, seat@) == root_of(v.subrange(0, i as int), seat@),
        decreases i,
    {
        let ghost w = v.subrange(0, i as int);
        assert(w.drop_last() =~= v.subrange(0, i - 1));
        assert(w.last() == (p@[i - 1].0@, p@[i - 1].1@));
        if compare_ids(&p[i - 1].1, seat) == 0 {
            return Some(p[i - 1].0);
        }
        i = i - 1;
    }
    None
}


/// What the group session's sealed storage key is derived under.
pub const SESSION_STORAGE_CONTEXT: &'static str = "graphshell.personal-graph.group-session.storage.v1";
/// The prefix of the salt a device derives its group-session identity with.
pub const SESSION_IDENTITY_CONTEXT: &'static str = "graphshell.personal-graph.group-session/v1/";

/// The salt a device derives its group-session identity with, for `graph`.
pub fn session_identity_salt(graph: [u8; 32]) -> (r: Vec<u8>)
    ensures
        r@ == vstd::utf8::encode_utf8(SESSION_IDENTITY_CONTEXT@) + graph@,
{
    crate::sorted::salted(SESSION_IDENTITY_CONTEXT, graph)
}

/// BLAKE3's key derivation of `material` under `context`.
pub uninterp spec fn blake3_derive_key(context: Seq<char>, material: Seq<u8>) -> Seq<u8>;

/// `blake3::derive_key`: a 32-byte key derived from `material` under the
/// `context` string, a function of the two alone.
#[verifier::external_body]
fn derive_key(context: &str, material: &[u8; 32]) -> (r: [u8; 32])
    ensures
        r@ == blake3_derive_key(context@, material@),
{
    blake3::derive_key(context, material)
}

/// The key that seals a device's group-session state on its own disk: the
/// BLAKE3 key derivation, under [`SESSION_STORAGE_CONTEXT`], of the seed of
/// the keypair the device derived with [`session_identity_salt`].
pub fn storage_key(seed: &[u8; 32]) -> (r: [u8; 32])
    ensures
        r@ == blake3_derive_key(SESSION_STORAGE_CONTEXT@, seed@),
{
    derive_key(SESSION_STORAGE_CONTEXT, seed)
}

} // verus!
