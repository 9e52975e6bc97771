//! One device's seat on one graph's carriage topic: what opening it needs,
//! the salt its carriage writer key is derived with, and which slot
//! versions it holds and serves.

use vstd::prelude::*;

use crate::sorted::{bytes_lt, compare_ids, lemma_bytes_lt_transitive, lemma_bytes_lt_trichotomy};

verus! {

/// The prefix of the salt a device derives its carriage writer key with.
pub const CARRIAGE_SALT_PREFIX: &'static str = "graphshell.carriage.writer.v1/";

/// Everything opening a carriage host needs to know. `C` is the ceilings
/// this host can assert beyond the absolute backstop.
#[derive(Clone, Debug, PartialEq, Eq)]
pub struct CarriageHostConfig<C> {
    /// The personal graph whose carriage topic this host joins.
    pub graph: [u8; 32],
    /// Where the carriage store lives, beside the graph's own store.
    pub store_path: String,
    /// One trusted issuer root per persona of the owner.
    pub trusted_roots: Vec<[u8; 32]>,
    pub ceilings: C,
    /// Peer tickets to dial and tag onto the carriage overlay.
    pub peer_tickets: Vec<String>,
    /// Paired node ids to tag onto the overlay, dialable via discovery.
    pub paired_nodes: Vec<[u8; 32]>,
}

/// The salt a device derives its carriage writer key with, for `graph`:
/// distinct from the personal graph's own, so the two lanes never share a
/// writer.
pub fn carriage_identity_salt(graph: [u8; 32]) -> (r: Vec<u8>)
    ensures
        r@ == vstd::utf8::encode_utf8(CARRIAGE_SALT_PREFIX@) + graph@,
{
    crate::sorted::salted(CARRIAGE_SALT_PREFIX, graph)
}

/// One slot version a host holds: its issue number, the hash of the record
/// it carries, and when its lease ends.
#[derive(Clone, Copy, Debug, PartialEq, Eq)]
pub struct HeldLease {
    pub issue: u64,
    pub payload: [u8; 32],
    pub expires_at_ms: u64,
}

/// What a host holds after reading `s`, one stored slot version after
/// another: for each slot, the version with the highest issue, the earlier
/// read winning a tie, since two writers may have written one slot.
pub open spec fn held_after(s: Seq<([u8; 32], HeldLease)>) -> Map<Seq<u8>, HeldLease>
    decreases s.len(),
{
    if s.len() == 0 {
        Map::empty()
    } else {
        let m = held_after(s.drop_last());
        let slot = s.last().0@;
        let lease = s.last().1;
        if m.contains_key(slot) && lease.issue <= m[slot].issue {
            m
        } else {
            m.insert(slot, lease)
        }
    }
}

/// Held slots in strictly ascending byte order, each once.
pub open spec fn slots_sorted(s: Seq<([u8; 32], HeldLease)>) -> bool {
    forall|i: int, j: int| 0 <= i < j < s.len() ==> bytes_lt(#[trigger] s[i].0@, #[trigger] s[j].0@)
}

/// The held view `s` spells: each slot's lease.
pub open spec fn spells(s: Seq<([u8; 32], HeldLease)>, m: Map<Seq<u8>, HeldLease>) -> bool {
    &&& forall|k: Seq<u8>| m.contains_key(k) <==> exists|i: int| 0 <= i < s.len() && #[trigger] s[i].0@ == k
    &&& forall|i: int| 0 <= i < s.len() ==> m.contains_key(#[trigger] s[i].0@) && m[s[i].0@] == s[i].1
}

/// The held view rebuilt from stored slot versions, read in order: each
/// slot once, in byte order, with its newest version.
pub fn held_slots(stored: &Vec<([u8; 32], HeldLease)>) -> (r: Vec<([u8; 32], HeldLease)>)
    ensures
        slots_sorted(r@),
        spells(r@, held_after(stored@)),
{
    let mut held: Vec<([u8; 32], HeldLease)> = Vec::new();
    let mut i: usize = 0;
    assert(stored@.subrange(0, 0) =~= Seq::<([u8; 32], HeldLease)>::empty());
    while i < stored.len()
        invariant
            i <= stored@.len(),
            slots_sorted(held@),
            spells(held@, held_after(stored@.subrange(0, i as int))),
        decreases stored@.len() - i,
    {
        let ghost m = held_after(stored@.subrange(0, i as int));
        proof {
            assert(stored@.subrange(0, i + 1).drop_last() =~= stored@.subrange(0, i as int));
            assert(stored@.subrange(0, i + 1).last() == stored@[i as int]);
        }
        let (slot, lease) = stored[i];
        absorb(&mut held, slot, lease, Ghost(m));
        i = i + 1;
    }
    assert(stored@.subrange(0, stored@.len() as int) =~= stored@);
    held
}

/// Read one stored slot version into the held view `m` that `held` spells.
fn absorb(held: &mut Vec<([u8; 32], HeldLease)>, slot: [u8; 32], lease: HeldLease, Ghost(m): Ghost<Map<Seq<u8>, HeldLease>>)
    requires
        slots_sorted(old(held)@),
        spells(old(held)@, m),
    ensures
        slots_sorted(final(held)@),
        spells(
            final(held)@,
            if m.contains_key(slot@) && lease.issue <= m[slot@].issue {
                m
            } else {
                m.insert(slot@, lease)
            },
        ),
{
    let ghost old_s = held@;
    let mut p: usize = 0;
    let mut stop = false;
    while p < held.len() && !stop
        invariant
            held@ == old_s,
            slots_sorted(old_s),
            p <= old_s.len(),
            forall|i: int| 0 <= i < p ==> bytes_lt(#[trigger] old_s[i].0@, slot@),
            stop ==> p < old_s.len() && !bytes_lt(old_s[p as int].0@, slot@),
        decreases old_s.len() - p + (if stop { 0int } else { 1int }),
    {
        if compare_ids(&held[p].0, &slot) < 0 {
            p = p + 1;
        } else {
            stop = true;
        }
    }
    if stop && compare_ids(&held[p].0, &slot) == 0 {
        assert(m.contains_key(slot@) && m[slot@] == old_s[p as int].1);
        if lease.issue > held[p].1.issue {
            held.set(p, (slot, lease));
            proof {
                let s = held@;
                let n = m.insert(slot@, lease);
                assert forall|i: int, j: int| 0 <= i < j < s.len() implies bytes_lt(
                    #[trigger] s[i].0@,
                    #[trigger] s[j].0@,
                ) by {
                    assert(old_s[i].0@ == s[i].0@ || i == p);
                    assert(old_s[j].0@ == s[j].0@ || j == p);
                    assert(bytes_lt(old_s[i].0@, old_s[j].0@));
                }
                assert forall|k: Seq<u8>| n.contains_key(k) <==> exists|i: int| 0 <= i < s.len() && #[trigger] s[i].0@ == k by {
                    if n.contains_key(k) {
                        if k == slot@ {
                            assert(s[p as int].0@ == k);
                        } else {
                            let i = choose|i: int| 0 <= i < old_s.len() && #[trigger] old_s[i].0@ == k;
                            assert(s[i].0@ == k);
                        }
                    }
                    if exists|i: int| 0 <= i < s.len() && #[trigger] s[i].0@ == k {
                        let i = choose|i: int| 0 <= i < s.len() && #[trigger] s[i].0@ == k;
                        if i != p {
                            assert(old_s[i].0@ == k);
                        }
                    }
                }
                assert forall|i: int| 0 <= i < s.len() implies n.contains_key(#[trigger] s[i].0@) && n[s[i].0@] == s[i].1 by {
                    if i != p {
                        assert(old_s[i] == s[i]);
                        assert(s[i].0@ != slot@) by {
                            if i < p {
                                lemma_bytes_lt_trichotomy(old_s[i].0@, old_s[p as int].0@);
                            } else {
                                lemma_bytes_lt_trichotomy(old_s[p as int].0@, old_s[i].0@);
                            }
                        }
                    }
                }
            }
        }
    } else {
        proof {
            if stop {
                lemma_bytes_lt_trichotomy(old_s[p as int].0@, slot@);
            }
            assert(!m.contains_key(slot@)) by {
                if m.contains_key(slot@) {
                    let i = choose|i: int| 0 <= i < old_s.len() && #[trigger] old_s[i].0@ == slot@;
                    if i < p {
                        lemma_bytes_lt_trichotomy(old_s[i].0@, slot@);
                    } else if stop {
                        if i > p {
                            assert(bytes_lt(old_s[p as int].0@, old_s[i].0@));
                            lemma_bytes_lt_trichotomy(old_s[p as int].0@, slot@);
                            lemma_bytes_lt_transitive(slot@, old_s[p as int].0@, old_s[i].0@);
                            lemma_bytes_lt_trichotomy(slot@, slot@);
                        }
                    }
                }
            }
        }
        held.insert(p, (slot, lease));
        proof {
            let s = held@;
            let n = m.insert(slot@, lease);
            assert(s =~= old_s.insert(p as int, (slot, lease)));
            assert forall|i: int, j: int| 0 <= i < j < s.len() implies bytes_lt(
                #[trigger] s[i].0@,
                #[trigger] s[j].0@,
            ) by {
                if j < p {
                } else if j == p {
                } else if i < p {
                    if j - 1 > p {
                        assert(bytes_lt(old_s[p as int].0@, old_s[j - 1].0@));
                        lemma_bytes_lt_transitive(slot@, old_s[p as int].0@, old_s[j - 1].0@);
                    }
                    lemma_bytes_lt_transitive(old_s[i].0@, slot@, old_s[j - 1].0@);
                } else if i == p {
                    if j - 1 > p {
                        assert(bytes_lt(old_s[p as int].0@, old_s[j - 1].0@));
                        lemma_bytes_lt_transitive(slot@, old_s[p as int].0@, old_s[j - 1].0@);
                    }
                } else {
                    assert(bytes_lt(old_s[i - 1].0@, old_s[j - 1].0@));
                }
            }
            assert forall|k: Seq<u8>| n.contains_key(k) <==> exists|i: int| 0 <= i < s.len() && #[trigger] s[i].0@ == k by {
                if n.contains_key(k) {
                    if k == slot@ {
                        assert(s[p as int].0@ == k);
                    } else {
                        let i = choose|i: int| 0 <= i < old_s.len() && #[trigger] old_s[i].0@ == k;
                        if i < p {
                            assert(s[i].0@ == k);
                        } else {
                            assert(s[i + 1].0@ == k);
                        }
                    }
                }
                if exists|i: int| 0 <= i < s.len() && #[trigger] s[i].0@ == k {
                    let i = choose|i: int| 0 <= i < s.len() && #[trigger] s[i].0@ == k;
                    if i < p {
                        assert(old_s[i].0@ == k);
                    } else if i > p {
                        assert(old_s[i - 1].0@ == k);
                    }
                }
            }
            assert forall|i: int| 0 <= i < s.len() implies n.contains_key(#[trigger] s[i].0@) && n[s[i].0@] == s[i].1 by {
                if i < p {
                    assert(s[i] == old_s[i]);
                    assert(old_s[i].0@ != slot@);
                } else if i > p {
                    assert(s[i] == old_s[i - 1]);
                    assert(old_s[i - 1].0@ != slot@);
                }
            }
        }
    }
}

/// What a host holds is each slot's newest stored version: a slot is held
/// exactly when some stored version names it, and the held lease is one of
/// that slot's stored versions with no stored version of the slot issued
/// later.
pub proof fn lemma_held_is_newest(s: Seq<([u8; 32], HeldLease)>, k: Seq<u8>)
    ensures
        held_after(s).contains_key(k) <==> exists|i: int| 0 <= i < s.len() && #[trigger] s[i].0@ == k,
        held_after(s).contains_key(k) ==> exists|i: int|
            0 <= i < s.len() && #[trigger] s[i].0@ == k && s[i].1 == held_after(s)[k],
        held_after(s).contains_key(k) ==> forall|i: int|
            0 <= i < s.len() && #[trigger] s[i].0@ == k ==> s[i].1.issue <= held_after(s)[k].issue,
    decreases s.len(),
{
    if s.len() > 0 {
        let t = s.drop_last();
        lemma_held_is_newest(t, k);
        assert forall|i: int| 0 <= i < t.len() implies #[trigger] t[i] == s[i] by {}
        let n = s.len() - 1;
        if exists|i: int| 0 <= i < s.len() && #[trigger] s[i].0@ == k {
            let i = choose|i: int| 0 <= i < s.len() && #[trigger] s[i].0@ == k;
            if i < n {
                assert(t[i].0@ == k);
            }
        }
        if held_after(t).contains_key(k) {
            let i = choose|i: int| 0 <= i < t.len() && #[trigger] t[i].0@ == k && t[i].1 == held_after(t)[k];
            assert(s[i].0@ == k && s[i].1 == held_after(t)[k]);
        }
        assert forall|i: int| 0 <= i < s.len() && #[trigger] s[i].0@ == k && held_after(s).contains_key(k)
            implies s[i].1.issue <= held_after(s)[k].issue by {
            if i < n {
                assert(t[i].0@ == k);
            }
        }
        if held_after(s).contains_key(k) {
            if s.last().0@ == k && !(held_after(t).contains_key(k) && s.last().1.issue <= held_after(t)[k].issue) {
                assert(s[n].0@ == k && s[n].1 == held_after(s)[k]);
            }
        }
    }
}

/// The lease a host serves for `slot` at `now_ms`: the one it holds, unless
/// that lease has ended; a replica must not serve stale material.
pub fn serving_lease(held: &Vec<([u8; 32], HeldLease)>, slot: &[u8; 32], now_ms: u64) -> (r: Option<HeldLease>)
    requires
        slots_sorted(held@),
    ensures
        match r {
            Some(l) => exists|i: int|
                0 <= i < held@.len() && #[trigger] held@[i].0@ == slot@ && held@[i].1 == l
                    && now_ms < l.expires_at_ms,
            None => forall|i: int|
                0 <= i < held@.len() && #[trigger] held@[i].0@ == slot@ ==> held@[i].1.expires_at_ms
                    <= now_ms,
        },
{
    let mut i: usize = 0;
    while i < held.len()
        invariant
            i <= held@.len(),
            slots_sorted(held@),
            forall|k: int| 0 <= k < i ==> #[trigger] held@[k].0@ != slot@,
        decreases held@.len() - i,
    {
        if compare_ids(&held[i].0, slot) == 0 {
            let lease = held[i].1;
            proof {
                assert forall|k: int| 0 <= k < held@.len() && #[trigger] held@[k].0@ == slot@ implies k == i by {
                    if k != i {
                        if k < i {
                        } else {
                            assert(bytes_lt(held@[i as int].0@, held@[k].0@));
                            lemma_bytes_lt_trichotomy(slot@, slot@);
                        }
                    }
                }
            }
            if now_ms < lease.expires_at_ms {
                return Some(lease);
            } else {
                return None;
            }
        }
        i = i + 1;
    }
    None
}

} // verus!
