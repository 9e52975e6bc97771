//! Which device holds which addressed blob, as the personal graph's lane
//! reports it.
//!
//! Each observation is an immutable statement, kept once under its record
//! id: a record replayed later changes nothing. The ledger keeps them in
//! time order (then by device, then by record), which is the order every
//! device folds them in. A device holds a blob when its latest statement
//! about that blob says so; the holders a device asks to fetch from are the
//! other devices that reported holding it, newest report first.

use vstd::prelude::*;

use crate::hexcode::{node_id_of, parse_node_id};
use crate::personal_sync::{AuthoredOperation, BlobAvailabilityObservation, PersonalGraphEvent, SyncSelection};
use crate::sorted::{
    compare_ids, id_views, ids_sorted, insert_sorted_id, insert_sorted_string, lists_id,
    string_views, strictly_sorted,
};
use crate::text::{chars_of, compare_chars, lemma_seq_lt_transitive, lemma_seq_lt_trichotomy, seq_lt, str_eq};

verus! {

/// Ledger order: by time, then device, then record id.
pub open spec fn obs_lt(a: BlobAvailabilityObservation, b: BlobAvailabilityObservation) -> bool {
    ||| a.at_ms < b.at_ms
    ||| a.at_ms == b.at_ms && seq_lt(a.device@, b.device@)
    ||| a.at_ms == b.at_ms && a.device@ == b.device@ && a.record_id < b.record_id
}

/// Strictly ascending in ledger order.
pub open spec fn ordered(s: Seq<BlobAvailabilityObservation>) -> bool {
    forall|i: int, j: int| 0 <= i < j < s.len() ==> obs_lt(#[trigger] s[i], #[trigger] s[j])
}

/// No record id occurs twice.
pub open spec fn distinct_records(s: Seq<BlobAvailabilityObservation>) -> bool {
    forall|i: int, j: int|
        0 <= i < s.len() && 0 <= j < s.len() && i != j ==> (#[trigger] s[i]).record_id
            != (#[trigger] s[j]).record_id
}

/// Whether an observation under `record_id` is already kept.
pub open spec fn has_record(s: Seq<BlobAvailabilityObservation>, record_id: u128) -> bool {
    exists|i: int| 0 <= i < s.len() && (#[trigger] s[i]).record_id == record_id
}

/// Where `o` goes in an ascending ledger: after every observation before it.
pub open spec fn obs_pos(s: Seq<BlobAvailabilityObservation>, o: BlobAvailabilityObservation) -> nat
    decreases s.len(),
{
    if s.len() == 0 {
        0
    } else if obs_lt(s[0], o) {
        1 + obs_pos(s.drop_first(), o)
    } else {
        0
    }
}

proof fn lemma_obs_lt_irreflexive(a: BlobAvailabilityObservation)
    ensures
        !obs_lt(a, a),
{
    lemma_seq_lt_trichotomy(a.device@, a.device@);
}

proof fn lemma_obs_lt_transitive(
    a: BlobAvailabilityObservation,
    b: BlobAvailabilityObservation,
    c: BlobAvailabilityObservation,
)
    requires
        obs_lt(a, b),
        obs_lt(b, c),
    ensures
        obs_lt(a, c),
{
    if a.at_ms == b.at_ms && b.at_ms == c.at_ms {
        if seq_lt(a.device@, b.device@) && seq_lt(b.device@, c.device@) {
            lemma_seq_lt_transitive(a.device@, b.device@, c.device@);
        }
    }
}

/// Two observations with different record ids are ordered one way or the other.
proof fn lemma_obs_lt_total(a: BlobAvailabilityObservation, b: BlobAvailabilityObservation)
    requires
        a.record_id != b.record_id,
    ensures
        obs_lt(a, b) || obs_lt(b, a),
        !(obs_lt(a, b) && obs_lt(b, a)),
{
    lemma_seq_lt_trichotomy(a.device@, b.device@);
    lemma_seq_lt_trichotomy(b.device@, a.device@);
}

proof fn lemma_obs_pos(s: Seq<BlobAvailabilityObservation>, o: BlobAvailabilityObservation, p: int)
    requires
        0 <= p <= s.len(),
        forall|q: int| 0 <= q < p ==> obs_lt(#[trigger] s[q], o),
        p == s.len() || !obs_lt(s[p], o),
    ensures
        obs_pos(s, o) == p,
    decreases p,
{
    if p > 0 {
        let t = s.drop_first();
        assert forall|q: int| 0 <= q < p - 1 implies obs_lt(#[trigger] t[q], o) by {
            assert(obs_lt(s[q + 1], o));
        }
        lemma_obs_pos(t, o, p - 1);
    }
}

/// What observing `o` does to a ledger: nothing when its record id is
/// already kept, otherwise it goes in at its place in ledger order.
pub open spec fn observe_step(s: Seq<BlobAvailabilityObservation>, o: BlobAvailabilityObservation) -> Seq<
    BlobAvailabilityObservation,
> {
    if has_record(s, o.record_id) {
        s
    } else {
        s.insert(obs_pos(s, o) as int, o)
    }
}

/// Observing each of `a` in turn.
pub open spec fn observe_all(
    s: Seq<BlobAvailabilityObservation>,
    a: Seq<BlobAvailabilityObservation>,
) -> Seq<BlobAvailabilityObservation>
    decreases a.len(),
{
    if a.len() == 0 {
        s
    } else {
        observe_all(observe_step(s, a[0]), a.drop_first())
    }
}

/// Inserting an observation with a new record id at its place keeps the
/// ledger ascending and each record id once.
proof fn lemma_insert_ordered(s: Seq<BlobAvailabilityObservation>, o: BlobAvailabilityObservation, p: int)
    requires
        ordered(s),
        distinct_records(s),
        !has_record(s, o.record_id),
        0 <= p <= s.len(),
        forall|q: int| 0 <= q < p ==> obs_lt(#[trigger] s[q], o),
        p == s.len() || !obs_lt(s[p], o),
    ensures
        ordered(s.insert(p, o)),
        distinct_records(s.insert(p, o)),
        s.insert(p, o).to_set() == s.to_set().insert(o),
{
    let n = s.insert(p, o);
    if p < s.len() {
        assert(s[p].record_id != o.record_id);
        lemma_obs_lt_total(s[p], o);
    }
    assert forall|i: int, j: int| 0 <= i < j < n.len() implies obs_lt(#[trigger] n[i], #[trigger] n[j]) by {
        if j < p {
        } else if j == p {
        } else if i < p {
            if j - 1 > p {
                lemma_obs_lt_transitive(o, s[p], s[j - 1]);
            }
            lemma_obs_lt_transitive(s[i], o, s[j - 1]);
        } else if i == p {
            if j - 1 > p {
                lemma_obs_lt_transitive(o, s[p], s[j - 1]);
            }
        } else {
            assert(obs_lt(s[i - 1], s[j - 1]));
        }
    }
    assert forall|i: int, j: int|
        0 <= i < n.len() && 0 <= j < n.len() && i != j implies (#[trigger] n[i]).record_id
        != (#[trigger] n[j]).record_id by {
        if i != p && j != p {
            let a = if i < p { i } else { i - 1 };
            let b = if j < p { j } else { j - 1 };
            assert(s[a].record_id != s[b].record_id);
        } else if i == p {
            let b = if j < p { j } else { j - 1 };
            assert(s[b].record_id != o.record_id);
        } else {
            let a = if i < p { i } else { i - 1 };
            assert(s[a].record_id != o.record_id);
        }
    }
    assert(n.to_set() =~= s.to_set().insert(o)) by {
        assert forall|x: BlobAvailabilityObservation| n.to_set().contains(x) implies s.to_set().insert(o).contains(x) by {
            let i = choose|i: int| 0 <= i < n.len() && n[i] == x;
            if i < p {
                assert(s[i] == x);
            } else if i > p {
                assert(s[i - 1] == x);
            }
        }
        assert forall|x: BlobAvailabilityObservation| s.to_set().insert(o).contains(x) implies n.to_set().contains(x) by {
            if x == o {
                assert(n[p] == x);
            } else {
                let i = choose|i: int| 0 <= i < s.len() && s[i] == x;
                if i < p {
                    assert(n[i] == x);
                } else {
                    assert(n[i + 1] == x);
                }
            }
        }
    }
}

/// `obs_pos` is the first place whose observation does not come before `o`.
proof fn lemma_obs_pos_props(s: Seq<BlobAvailabilityObservation>, o: BlobAvailabilityObservation)
    ensures
        obs_pos(s, o) <= s.len(),
        forall|q: int| 0 <= q < obs_pos(s, o) ==> obs_lt(#[trigger] s[q], o),
        obs_pos(s, o) == s.len() || !obs_lt(s[obs_pos(s, o) as int], o),
    decreases s.len(),
{
    if s.len() > 0 && obs_lt(s[0], o) {
        let t = s.drop_first();
        lemma_obs_pos_props(t, o);
        assert forall|q: int| 0 <= q < obs_pos(s, o) implies obs_lt(#[trigger] s[q], o) by {
            if q > 0 {
                assert(s[q] == t[q - 1]);
            }
        }
        if obs_pos(s, o) < s.len() {
            assert(s[obs_pos(s, o) as int] == t[obs_pos(t, o) as int]);
        }
    }
}

/// A record id always names the same observation.
pub open spec fn unique_ids(set: Set<BlobAvailabilityObservation>) -> bool {
    forall|x: BlobAvailabilityObservation, y: BlobAvailabilityObservation|
        set.contains(x) && set.contains(y) && x.record_id == y.record_id ==> x == y
}

proof fn lemma_observe_step(s: Seq<BlobAvailabilityObservation>, o: BlobAvailabilityObservation)
    requires
        ordered(s),
        distinct_records(s),
        unique_ids(s.to_set().insert(o)),
    ensures
        ordered(observe_step(s, o)),
        distinct_records(observe_step(s, o)),
        observe_step(s, o).to_set() == s.to_set().insert(o),
{
    if has_record(s, o.record_id) {
        let i = choose|i: int| 0 <= i < s.len() && (#[trigger] s[i]).record_id == o.record_id;
        assert(s.to_set().contains(s[i]));
        assert(s.to_set().insert(o).contains(s[i]));
        assert(s.to_set().insert(o).contains(o));
        assert(s[i] == o);
        assert(s.to_set().insert(o) =~= s.to_set());
    } else {
        lemma_obs_pos_props(s, o);
        lemma_insert_ordered(s, o, obs_pos(s, o) as int);
    }
}

proof fn lemma_observe_all(s: Seq<BlobAvailabilityObservation>, a: Seq<BlobAvailabilityObservation>)
    requires
        ordered(s),
        distinct_records(s),
        unique_ids(s.to_set() + a.to_set()),
    ensures
        ordered(observe_all(s, a)),
        distinct_records(observe_all(s, a)),
        observe_all(s, a).to_set() == s.to_set() + a.to_set(),
    decreases a.len(),
{
    if a.len() == 0 {
        assert(a.to_set() =~= Set::<BlobAvailabilityObservation>::empty());
        assert(s.to_set() + a.to_set() =~= s.to_set());
    } else {
        let rest = a.drop_first();
        assert(a.to_set() =~= rest.to_set().insert(a[0])) by {
            assert forall|x: BlobAvailabilityObservation| a.to_set().contains(x) implies rest.to_set().insert(a[0]).contains(x) by {
                let i = choose|i: int| 0 <= i < a.len() && a[i] == x;
                if i > 0 {
                    assert(rest[i - 1] == x);
                }
            }
            assert forall|x: BlobAvailabilityObservation| rest.to_set().insert(a[0]).contains(x) implies a.to_set().contains(x) by {
                if x != a[0] {
                    let i = choose|i: int| 0 <= i < rest.len() && rest[i] == x;
                    assert(a[i + 1] == x);
                }
            }
        }
        assert(unique_ids(s.to_set().insert(a[0]))) by {
            assert(s.to_set().insert(a[0]).subset_of(s.to_set() + a.to_set()));
        }
        lemma_observe_step(s, a[0]);
        let s1 = observe_step(s, a[0]);
        assert(s1.to_set() + rest.to_set() =~= s.to_set() + a.to_set());
        lemma_observe_all(s1, rest);
    }
}

/// In an ascending ledger the first observation occurs nowhere else.
proof fn lemma_drop_first_set(x: Seq<BlobAvailabilityObservation>)
    requires
        ordered(x),
        x.len() > 0,
    ensures
        x.drop_first().to_set() == x.to_set().remove(x[0]),
        ordered(x.drop_first()),
{
    let t = x.drop_first();
    assert(t.to_set() =~= x.to_set().remove(x[0])) by {
        assert forall|y: BlobAvailabilityObservation| t.to_set().contains(y) implies x.to_set().remove(x[0]).contains(y) by {
            let i = choose|i: int| 0 <= i < t.len() && t[i] == y;
            assert(x[i + 1] == y);
            assert(obs_lt(x[0], x[i + 1]));
            lemma_obs_lt_irreflexive(x[0]);
        }
        assert forall|y: BlobAvailabilityObservation| x.to_set().remove(x[0]).contains(y) implies t.to_set().contains(y) by {
            let i = choose|i: int| 0 <= i < x.len() && x[i] == y;
            assert(i > 0);
            assert(t[i - 1] == y);
        }
    }
    assert forall|i: int, j: int| 0 <= i < j < t.len() implies obs_lt(#[trigger] t[i], #[trigger] t[j]) by {
        assert(obs_lt(x[i + 1], x[j + 1]));
    }
}

/// Two ascending ledgers holding the same observations are the same ledger.
proof fn lemma_ordered_unique(x: Seq<BlobAvailabilityObservation>, y: Seq<BlobAvailabilityObservation>)
    requires
        ordered(x),
        ordered(y),
        x.to_set() == y.to_set(),
    ensures
        x == y,
    decreases x.len(),
{
    if x.len() == 0 {
        if y.len() > 0 {
            assert(y.to_set().contains(y[0]));
        }
        assert(x =~= y);
    } else {
        if y.len() == 0 {
            assert(x.to_set().contains(x[0]));
        }
        assert(x.to_set().contains(x[0]));
        assert(y.to_set().contains(y[0]));
        let j = choose|j: int| 0 <= j < y.len() && y[j] == x[0];
        let i = choose|i: int| 0 <= i < x.len() && x[i] == y[0];
        if j > 0 {
            assert(obs_lt(y[0], y[j]));
            if i > 0 {
                assert(obs_lt(x[0], x[i]));
                lemma_obs_lt_transitive(x[0], x[i], x[0]);
            }
            lemma_obs_lt_irreflexive(x[0]);
            lemma_obs_lt_irreflexive(y[0]);
        }
        assert(x[0] == y[0]);
        lemma_drop_first_set(x);
        lemma_drop_first_set(y);
        lemma_ordered_unique(x.drop_first(), y.drop_first());
        assert(x =~= seq![x[0]] + x.drop_first());
        assert(y =~= seq![y[0]] + y.drop_first());
    }
}

/// Devices that receive the same observations keep the same ledger, in
/// whatever order the observations arrive and however often they are
/// replayed, as long as a record id always names the same observation.
pub proof fn lemma_arrival_order_does_not_matter(
    a: Seq<BlobAvailabilityObservation>,
    b: Seq<BlobAvailabilityObservation>,
)
    requires
        a.to_set() == b.to_set(),
        unique_ids(a.to_set()),
    ensures
        observe_all(Seq::empty(), a) == observe_all(Seq::empty(), b),
{
    let e = Seq::<BlobAvailabilityObservation>::empty();
    assert(e.to_set() =~= Set::<BlobAvailabilityObservation>::empty());
    assert(e.to_set() + a.to_set() =~= a.to_set());
    assert(e.to_set() + b.to_set() =~= b.to_set());
    lemma_observe_all(e, a);
    lemma_observe_all(e, b);
    lemma_ordered_unique(observe_all(e, a), observe_all(e, b));
}

/// Ledger order, computed.
fn obs_less(a: &BlobAvailabilityObservation, b: &BlobAvailabilityObservation) -> (r: bool)
    ensures
        r == obs_lt(*a, *b),
{
    if a.at_ms != b.at_ms {
        return a.at_ms < b.at_ms;
    }
    let c = compare_chars(&chars_of(a.device.as_str()), &chars_of(b.device.as_str()));
    if c != 0 {
        return c < 0;
    }
    a.record_id < b.record_id
}

/// A copy of an observation, field by field.
fn copy_observation(o: &BlobAvailabilityObservation) -> (r: BlobAvailabilityObservation)
    ensures
        r == *o,
{
    BlobAvailabilityObservation {
        record_id: o.record_id,
        container_id: o.container_id,
        blob: o.blob,
        device: o.device.clone(),
        available: o.available,
        at_ms: o.at_ms,
    }
}

/// The blob availability a device has folded from its lane: every
/// observation kept once, in ledger order.
pub struct BlobAvailability {
    observations: Vec<BlobAvailabilityObservation>,
}

impl BlobAvailability {
    /// The kept observations, in ledger order.
    pub closed spec fn view_seq(&self) -> Seq<BlobAvailabilityObservation> {
        self.observations@
    }

    /// Ascending in ledger order, each record id once.
    pub closed spec fn wf(&self) -> bool {
        ordered(self.observations@) && distinct_records(self.observations@)
    }

    /// A well-formed ledger holds its observations in ledger order, each
    /// record id once.
    pub proof fn lemma_ledger_order(&self)
        requires
            self.wf(),
        ensures
            ordered(self.view_seq()),
            distinct_records(self.view_seq()),
    {
    }

    /// Nothing observed yet.
    pub fn new() -> (r: Self)
        ensures
            r.wf(),
            r.view_seq() == Seq::<BlobAvailabilityObservation>::empty(),
    {
        BlobAvailability { observations: Vec::new() }
    }

    /// The kept observations, in ledger order.
    pub fn observations(&self) -> (r: &[BlobAvailabilityObservation])
        ensures
            r@ == self.view_seq(),
    {
        self.observations.as_slice()
    }

    /// Keep `observation` unless its record id is already kept: the first
    /// statement under a record id stands, and replaying it changes nothing.
    pub fn observe(&mut self, observation: BlobAvailabilityObservation)
        requires
            old(self).wf(),
        ensures
            final(self).wf(),
            final(self).view_seq() == observe_step(old(self).view_seq(), observation),
    {
        let ghost s = self.observations@;
        let mut i: usize = 0;
        while i < self.observations.len()
            invariant
                i <= s.len(),
                self.observations@ == s,
                ordered(s),
                distinct_records(s),
                forall|q: int| 0 <= q < i ==> (#[trigger] s[q]).record_id != observation.record_id,
            decreases s.len() - i,
        {
            if self.observations[i].record_id == observation.record_id {
                return;
            }
            i = i + 1;
        }
        assert(!has_record(s, observation.record_id));
        let mut p: usize = 0;
        let mut stop = false;
        while p < self.observations.len() && !stop
            invariant
                p <= s.len(),
                self.observations@ == s,
                ordered(s),
                distinct_records(s),
                !has_record(s, observation.record_id),
                forall|q: int| 0 <= q < p ==> obs_lt(#[trigger] s[q], observation),
                stop ==> p < s.len() && !obs_lt(s[p as int], observation),
            decreases s.len() - p + (if stop { 0int } else { 1int }),
        {
            if obs_less(&self.observations[p], &observation) {
                p = p + 1;
            } else {
                stop = true;
            }
        }
        proof {
            lemma_obs_pos(s, observation, p as int);
            if p < s.len() {
                lemma_obs_lt_total(s[p as int], observation);
            }
        }
        let ghost o = observation;
        self.observations.insert(p, observation);
        proof {
            assert(self.observations@ =~= s.insert(p as int, o));
            lemma_insert_ordered(s, o, p as int);
        }
    }
}


/// Whether `o` is a statement about `blob` on `device`.
pub open spec fn about(o: BlobAvailabilityObservation, blob: Seq<u8>, device: Seq<char>) -> bool {
    o.blob@ == blob && o.device@ == device
}

/// Whether `a` is at least as recent as `b`: later, or as late with a record
/// id at least as large.
pub open spec fn as_recent(a: BlobAvailabilityObservation, b: BlobAvailabilityObservation) -> bool {
    a.at_ms > b.at_ms || (a.at_ms == b.at_ms && a.record_id >= b.record_id)
}

/// Whether `s[i]` is the latest statement about `blob` on `device`.
pub open spec fn is_latest(
    s: Seq<BlobAvailabilityObservation>,
    blob: Seq<u8>,
    device: Seq<char>,
    i: int,
) -> bool {
    &&& 0 <= i < s.len()
    &&& about(s[i], blob, device)
    &&& forall|j: int| 0 <= j < s.len() && about(#[trigger] s[j], blob, device) ==> as_recent(s[i], s[j])
}

/// Whether `device` holds `blob`: its latest statement about the blob says so.
pub open spec fn holds(s: Seq<BlobAvailabilityObservation>, blob: Seq<u8>, device: Seq<char>) -> bool {
    exists|i: int| is_latest(s, blob, device, i) && s[i].available
}

impl BlobAvailability {
    /// Whether `device` holds `blob`, by its latest statement about it.
    pub fn holds(&self, blob: &[u8; 32], device: &str) -> (r: bool)
        requires
            self.wf(),
        ensures
            r == holds(self.view_seq(), blob@, device@),
    {
        let ghost s = self.observations@;
        let mut best: Option<usize> = None;
        let mut k: usize = 0;
        while k < self.observations.len()
            invariant
                k <= s.len(),
                self.observations@ == s,
                match best {
                    None => forall|j: int| 0 <= j < k ==> !about(#[trigger] s[j], blob@, device@),
                    Some(b) => b < k && about(s[b as int], blob@, device@) && forall|j: int|
                        0 <= j < k && about(#[trigger] s[j], blob@, device@) ==> as_recent(
                            s[b as int],
                            s[j],
                        ),
                },
            decreases s.len() - k,
        {
            let o = &self.observations[k];
            if compare_ids(&o.blob, blob) == 0 && str_eq(o.device.as_str(), device) {
                match best {
                    None => {
                        best = Some(k);
                    },
                    Some(b) => {
                        let cur = &self.observations[b];
                        if o.at_ms > cur.at_ms || (o.at_ms == cur.at_ms && o.record_id > cur.record_id) {
                            best = Some(k);
                        }
                    },
                }
            }
            k = k + 1;
        }
        match best {
            None => false,
            Some(b) => {
                proof {
                    assert(is_latest(s, blob@, device@, b as int));
                    assert forall|i: int| is_latest(s, blob@, device@, i) implies i == b by {
                        if i != b {
                            assert(s[i].record_id != s[b as int].record_id);
                        }
                    }
                }
                self.observations[b].available
            },
        }
    }

    /// The devices that hold `blob`, each once, in ascending order.
    pub fn holders_of(&self, blob: &[u8; 32]) -> (r: Vec<String>)
        requires
            self.wf(),
        ensures
            strictly_sorted(string_views(r@)),
            string_views(r@).to_set() == Set::new(|d: Seq<char>| holds(self.view_seq(), blob@, d)),
    {
        let ghost s = self.observations@;
        let mut out: Vec<String> = Vec::new();
        let mut i: usize = 0;
        assert(string_views(out@).to_set() =~= Set::<Seq<char>>::empty());
        while i < self.observations.len()
            invariant
                i <= s.len(),
                self.observations@ == s,
                ordered(s),
                distinct_records(s),
                strictly_sorted(string_views(out@)),
                string_views(out@).to_set() == Set::new(
                    |d: Seq<char>|
                        holds(s, blob@, d) && exists|j: int|
                            0 <= j < i && (#[trigger] s[j]).blob@ == blob@ && s[j].device@ == d,
                ),
            decreases s.len() - i,
        {
            let ghost before = string_views(out@).to_set();
            let o = &self.observations[i];
            let ghost d = o.device@;
            if compare_ids(&o.blob, blob) == 0 && self.holds(blob, o.device.as_str()) {
                insert_sorted_string(&mut out, o.device.clone());
            }
            proof {
                let next = Set::new(
                    |x: Seq<char>|
                        holds(s, blob@, x) && exists|j: int|
                            0 <= j < i + 1 && (#[trigger] s[j]).blob@ == blob@ && s[j].device@ == x,
                );
                assert(string_views(out@).to_set() =~= next) by {
                    assert forall|x: Seq<char>| next.contains(x) implies string_views(out@).to_set().contains(x) by {
                        let j = choose|j: int|
                            0 <= j < i + 1 && (#[trigger] s[j]).blob@ == blob@ && s[j].device@ == x;
                        if j < i {
                            assert(before.contains(x));
                        }
                    }
                    assert forall|x: Seq<char>| string_views(out@).to_set().contains(x) implies next.contains(x) by {
                        if before.contains(x) {
                            let j = choose|j: int|
                                0 <= j < i && (#[trigger] s[j]).blob@ == blob@ && s[j].device@ == x;
                            assert(0 <= j < i + 1);
                        } else {
                            assert(x == d);
                            assert(s[i as int].blob@ == blob@);
                        }
                    }
                }
            }
            i = i + 1;
        }
        proof {
            assert(string_views(out@).to_set() =~= Set::new(|d: Seq<char>| holds(s, blob@, d))) by {
                assert forall|d: Seq<char>| holds(s, blob@, d) implies string_views(out@).to_set().contains(d) by {
                    let w = choose|w: int| is_latest(s, blob@, d, w) && s[w].available;
                    assert(s[w].blob@ == blob@ && s[w].device@ == d);
                }
            }
        }
        out
    }
}

/// Where the run of equally timed observations that ends `s` starts.
pub open spec fn block_start(s: Seq<BlobAvailabilityObservation>) -> nat
    decreases s.len(),
{
    if s.len() <= 1 {
        0
    } else if s[s.len() - 2].at_ms == s.last().at_ms {
        block_start(s.drop_last())
    } else {
        (s.len() - 1) as nat
    }
}

pub proof fn lemma_block_start_below(s: Seq<BlobAvailabilityObservation>)
    requires
        s.len() > 0,
    ensures
        block_start(s) < s.len(),
    decreases s.len(),
{
    if s.len() > 1 && s[s.len() - 2].at_ms == s.last().at_ms {
        lemma_block_start_below(s.drop_last());
    }
}

/// The block start is where the final run of equal times begins.
proof fn lemma_block_start(s: Seq<BlobAvailabilityObservation>, k: int)
    requires
        0 <= k < s.len(),
        forall|i: int| k <= i < s.len() ==> (#[trigger] s[i]).at_ms == s.last().at_ms,
        k == 0 || s[k - 1].at_ms != s.last().at_ms,
    ensures
        block_start(s) == k,
    decreases s.len(),
{
    if k < s.len() - 1 {
        assert(s[s.len() - 2].at_ms == s.last().at_ms);
        let t = s.drop_last();
        assert(t.last() == s[s.len() - 2]);
        assert forall|i: int| k <= i < t.len() implies (#[trigger] t[i]).at_ms == t.last().at_ms by {
            assert(t[i] == s[i]);
        }
        lemma_block_start(t, k);
    }
}

/// The ledger newest first: its runs of equal times from the last to the
/// first, each run in ledger order. On a ledger in time order this is the
/// stable sort by descending time.
pub open spec fn newest_first(s: Seq<BlobAvailabilityObservation>) -> Seq<BlobAvailabilityObservation>
    decreases s.len(),
{
    if s.len() == 0 {
        Seq::empty()
    } else {
        let k = block_start(s);
        proof {
            lemma_block_start_below(s);
        }
        s.subrange(k as int, s.len() as int) + newest_first(s.subrange(0, k as int))
    }
}

/// One observation's contribution to the holders of `blob`: a report that
/// the blob is available, from a device whose name is a node id other than
/// `own` and not yet listed, adds that node.
pub open spec fn holder_step(
    h: Seq<Seq<u8>>,
    o: BlobAvailabilityObservation,
    blob: Seq<u8>,
    own: Seq<u8>,
) -> Seq<Seq<u8>> {
    if o.blob@ == blob && o.available {
        match node_id_of(o.device@) {
            Some(n) => if n != own && !h.contains(n) {
                h.push(n)
            } else {
                h
            },
            None => h,
        }
    } else {
        h
    }
}

/// The holders gathered from `s` in order, starting from `h`.
pub open spec fn holders_from(
    h: Seq<Seq<u8>>,
    s: Seq<BlobAvailabilityObservation>,
    blob: Seq<u8>,
    own: Seq<u8>,
) -> Seq<Seq<u8>>
    decreases s.len(),
{
    if s.len() == 0 {
        h
    } else {
        holders_from(holder_step(h, s[0], blob, own), s.drop_first(), blob, own)
    }
}

proof fn lemma_holders_concat(
    h: Seq<Seq<u8>>,
    a: Seq<BlobAvailabilityObservation>,
    b: Seq<BlobAvailabilityObservation>,
    blob: Seq<u8>,
    own: Seq<u8>,
)
    ensures
        holders_from(h, a + b, blob, own) == holders_from(holders_from(h, a, blob, own), b, blob, own),
    decreases a.len(),
{
    if a.len() > 0 {
        assert((a + b).drop_first() =~= a.drop_first() + b);
        assert((a + b)[0] == a[0]);
        lemma_holders_concat(holder_step(h, a[0], blob, own), a.drop_first(), b, blob, own);
    } else {
        assert(a + b =~= b);
    }
}

proof fn lemma_holders_push(
    h: Seq<Seq<u8>>,
    a: Seq<BlobAvailabilityObservation>,
    x: BlobAvailabilityObservation,
    blob: Seq<u8>,
    own: Seq<u8>,
)
    ensures
        holders_from(h, a.push(x), blob, own) == holder_step(holders_from(h, a, blob, own), x, blob, own),
{
    lemma_holders_concat(h, a, seq![x], blob, own);
    assert(a.push(x) =~= a + seq![x]);
    let g = holders_from(h, a, blob, own);
    assert(seq![x].drop_first() =~= Seq::<BlobAvailabilityObservation>::empty());
    assert(seq![x][0] == x);
    assert(holders_from(holder_step(g, x, blob, own), Seq::empty(), blob, own) == holder_step(
        g,
        x,
        blob,
        own,
    ));
}

/// Gathering holders never lists this device, nor any device twice, when it
/// starts from a list that does neither.
pub proof fn lemma_holders_exclude_self_and_repeats(
    h: Seq<Seq<u8>>,
    s: Seq<BlobAvailabilityObservation>,
    blob: Seq<u8>,
    own: Seq<u8>,
)
    requires
        !h.contains(own),
        h.no_duplicates(),
    ensures
        !holders_from(h, s, blob, own).contains(own),
        holders_from(h, s, blob, own).no_duplicates(),
    decreases s.len(),
{
    if s.len() > 0 {
        let h1 = holder_step(h, s[0], blob, own);
        assert(!h1.contains(own) && h1.no_duplicates()) by {
            if h1 != h {
                let n = node_id_of(s[0].device@)->Some_0;
                assert(h1 == h.push(n));
                assert forall|i: int, j: int| 0 <= i < j < h1.len() implies h1[i] != h1[j] by {
                    if j == h.len() {
                        assert(h.contains(h[i]));
                    }
                }
                if h1.contains(own) {
                    let k = choose|k: int| 0 <= k < h1.len() && h1[k] == own;
                    if k < h.len() {
                        assert(h.contains(own));
                    }
                }
            }
        }
        lemma_holders_exclude_self_and_repeats(h1, s.drop_first(), blob, own);
    }
}


impl BlobAvailability {
    /// The paired devices to fetch `blob` from: every other device that
    /// reported holding it and whose name is a node id, each once, newest
    /// report first. `own` is this device's node id.
    pub fn blob_holders(&self, blob: &[u8; 32], own: &[u8; 32]) -> (r: Vec<[u8; 32]>)
        ensures
            id_views(r@) == holders_from(Seq::empty(), newest_first(self.view_seq()), blob@, own@),
    {
        let ghost s = self.observations@;
        let ghost goal = holders_from(Seq::empty(), newest_first(s), blob@, own@);
        let mut holders: Vec<[u8; 32]> = Vec::new();
        let mut hi: usize = self.observations.len();
        assert(s.subrange(0, hi as int) =~= s);
        assert(id_views(holders@) =~= Seq::<Seq<u8>>::empty());
        while hi > 0
            invariant
                hi <= s.len(),
                self.observations@ == s,
                holders_from(id_views(holders@), newest_first(s.subrange(0, hi as int)), blob@, own@)
                    == goal,
            decreases hi,
        {
            let t = self.observations[hi - 1].at_ms;
            let mut k: usize = hi - 1;
            while k > 0 && self.observations[k - 1].at_ms == t
                invariant
                    k < hi <= s.len(),
                    self.observations@ == s,
                    t == s[hi - 1].at_ms,
                    forall|i: int| k <= i < hi ==> (#[trigger] s[i]).at_ms == t,
                decreases k,
            {
                k = k - 1;
            }
            let ghost p = s.subrange(0, hi as int);
            proof {
                assert forall|i: int| k <= i < p.len() implies (#[trigger] p[i]).at_ms == p.last().at_ms by {
                    assert(p[i] == s[i]);
                }
                lemma_block_start(p, k as int);
                assert(p.subrange(k as int, p.len() as int) =~= s.subrange(k as int, hi as int));
                assert(p.subrange(0, k as int) =~= s.subrange(0, k as int));
                lemma_holders_concat(
                    id_views(holders@),
                    s.subrange(k as int, hi as int),
                    newest_first(s.subrange(0, k as int)),
                    blob@,
                    own@,
                );
            }
            let ghost h0 = id_views(holders@);
            let mut i: usize = k;
            assert(s.subrange(k as int, k as int) =~= Seq::<BlobAvailabilityObservation>::empty());
            while i < hi
                invariant
                    k <= i <= hi <= s.len(),
                    self.observations@ == s,
                    id_views(holders@) == holders_from(h0, s.subrange(k as int, i as int), blob@, own@),
                decreases hi - i,
            {
                let o = &self.observations[i];
                proof {
                    assert(s.subrange(k as int, i + 1) =~= s.subrange(k as int, i as int).push(s[i as int]));
                    lemma_holders_push(h0, s.subrange(k as int, i as int), s[i as int], blob@, own@);
                }
                if compare_ids(&o.blob, blob) == 0 && o.available {
                    match parse_node_id(o.device.as_str()) {
                        Ok(node) => {
                            if compare_ids(&node, own) != 0 && !lists_id(&holders, &node) {
                                let ghost before = id_views(holders@);
                                holders.push(node);
                                proof {
                                    assert(id_views(holders@) =~= before.push(node@));
                                }
                            }
                        },
                        Err(()) => {},
                    }
                }
                i = i + 1;
            }
            hi = k;
        }
        proof {
            assert(s.subrange(0, 0) =~= Seq::<BlobAvailabilityObservation>::empty());
        }
        holders
    }
}

/// The availability statements among `events`, in order.
pub open spec fn observations_in(events: Seq<PersonalGraphEvent>) -> Seq<BlobAvailabilityObservation>
    decreases events.len(),
{
    if events.len() == 0 {
        Seq::empty()
    } else {
        observations_in(events.drop_last()) + match events.last() {
            PersonalGraphEvent::ObserveBlobAvailability { observation } => seq![observation],
            _ => Seq::empty(),
        }
    }
}

/// The availability statements of operations in causal order.
pub open spec fn availability_events(ops: Seq<AuthoredOperation>) -> Seq<BlobAvailabilityObservation>
    decreases ops.len(),
{
    if ops.len() == 0 {
        Seq::empty()
    } else {
        availability_events(ops.drop_last()) + observations_in(ops.last().events@)
    }
}

proof fn lemma_observe_all_concat(
    s: Seq<BlobAvailabilityObservation>,
    a: Seq<BlobAvailabilityObservation>,
    b: Seq<BlobAvailabilityObservation>,
)
    ensures
        observe_all(s, a + b) == observe_all(observe_all(s, a), b),
    decreases a.len(),
{
    if a.len() == 0 {
        assert(a + b =~= b);
    } else {
        assert((a + b).drop_first() =~= a.drop_first() + b);
        assert((a + b)[0] == a[0]);
        lemma_observe_all_concat(observe_step(s, a[0]), a.drop_first(), b);
    }
}

/// Fold the lane's availability statements, in causal order, into a
/// ledger. A device that does not project availability keeps none.
pub fn fold_blob_availability(ops: &Vec<AuthoredOperation>, selection: &SyncSelection) -> (r: BlobAvailability)
    ensures
        r.wf(),
        r.view_seq() == if selection@.blob_availability {
            observe_all(Seq::empty(), availability_events(ops@))
        } else {
            Seq::empty()
        },
{
    let mut ledger = BlobAvailability::new();
    if !selection.projects_blob_availability() {
        return ledger;
    }
    let ghost e = Seq::<BlobAvailabilityObservation>::empty();
    let mut i: usize = 0;
    assert(ops@.subrange(0, 0) =~= Seq::<AuthoredOperation>::empty());
    while i < ops.len()
        invariant
            i <= ops@.len(),
            ledger.wf(),
            ledger.view_seq() == observe_all(e, availability_events(ops@.subrange(0, i as int))),
        decreases ops@.len() - i,
    {
        let events = &ops[i].events;
        let ghost before = availability_events(ops@.subrange(0, i as int));
        let mut j: usize = 0;
        assert(events@.subrange(0, 0) =~= Seq::<PersonalGraphEvent>::empty());
        assert(before + observations_in(events@.subrange(0, 0)) =~= before);
        while j < events.len()
            invariant
                j <= events@.len(),
                ledger.wf(),
                ledger.view_seq() == observe_all(
                    e,
                    before + observations_in(events@.subrange(0, j as int)),
                ),
            decreases events@.len() - j,
        {
            let ghost prefix = events@.subrange(0, j as int);
            proof {
                assert(events@.subrange(0, j + 1).drop_last() =~= prefix);
                assert(events@.subrange(0, j + 1).last() == events@[j as int]);
            }
            match &events[j] {
                PersonalGraphEvent::ObserveBlobAvailability { observation } => {
                    let ghost x = *observation;
                    let ghost t = ledger.view_seq();
                    ledger.observe(copy_observation(observation));
                    proof {
                        lemma_observe_all_concat(e, before + observations_in(prefix), seq![x]);
                        assert(observe_all(observe_step(t, x), Seq::empty()) == observe_step(t, x));
                        assert(seq![x].drop_first() =~= Seq::<BlobAvailabilityObservation>::empty());
                        assert(seq![x][0] == x);
                        assert(before + observations_in(events@.subrange(0, j + 1)) =~= (before
                            + observations_in(prefix)) + seq![x]);
                    }
                },
                _ => {
                    proof {
                        assert(before + observations_in(events@.subrange(0, j + 1)) =~= before
                            + observations_in(prefix));
                    }
                },
            }
            j = j + 1;
        }
        proof {
            assert(events@.subrange(0, events@.len() as int) =~= events@);
            assert(ops@.subrange(0, i + 1).drop_last() =~= ops@.subrange(0, i as int));
            assert(ops@.subrange(0, i + 1).last() == ops@[i as int]);
        }
        i = i + 1;
    }
    assert(ops@.subrange(0, ops@.len() as int) =~= ops@);
    ledger
}


/// How many statements in `s` name `blob`.
pub open spec fn statements_about(s: Seq<BlobAvailabilityObservation>, blob: Seq<u8>) -> nat
    decreases s.len(),
{
    if s.len() == 0 {
        0
    } else {
        statements_about(s.drop_last(), blob) + if s.last().blob@ == blob {
            1nat
        } else {
            0nat
        }
    }
}

impl BlobAvailability {
    /// How many kept statements name `blob`, whatever they say.
    pub fn statement_count(&self, blob: &[u8; 32]) -> (r: usize)
        ensures
            r == statements_about(self.view_seq(), blob@),
    {
        let ghost s = self.observations@;
        let mut n: usize = 0;
        let mut i: usize = 0;
        assert(s.subrange(0, 0) =~= Seq::<BlobAvailabilityObservation>::empty());
        while i < self.observations.len()
            invariant
                i <= s.len(),
                self.observations@ == s,
                n == statements_about(s.subrange(0, i as int), blob@),
                n <= i,
            decreases s.len() - i,
        {
            proof {
                assert(s.subrange(0, i + 1).drop_last() =~= s.subrange(0, i as int));
                assert(s.subrange(0, i + 1).last() == s[i as int]);
            }
            if compare_ids(&self.observations[i].blob, blob) == 0 {
                n = n + 1;
            }
            i = i + 1;
        }
        assert(s.subrange(0, s.len() as int) =~= s);
        n
    }

    /// The blobs some device holds, each once, in ascending byte order.
    pub fn available_blobs(&self) -> (r: Vec<[u8; 32]>)
        requires
            self.wf(),
        ensures
            ids_sorted(id_views(r@)),
            id_views(r@).to_set() == Set::new(
                |b: Seq<u8>| exists|d: Seq<char>| holds(self.view_seq(), b, d),
            ),
    {
        let ghost s = self.observations@;
        let mut out: Vec<[u8; 32]> = Vec::new();
        let mut i: usize = 0;
        assert(id_views(out@).to_set() =~= Set::<Seq<u8>>::empty());
        while i < self.observations.len()
            invariant
                i <= s.len(),
                self.observations@ == s,
                ordered(s),
                distinct_records(s),
                ids_sorted(id_views(out@)),
                id_views(out@).to_set() == Set::new(
                    |b: Seq<u8>|
                        exists|j: int|
                            0 <= j < i && (#[trigger] s[j]).blob@ == b && holds(s, b, s[j].device@),
                ),
            decreases s.len() - i,
        {
            let ghost before = id_views(out@).to_set();
            let o = &self.observations[i];
            if self.holds(&o.blob, o.device.as_str()) {
                insert_sorted_id(&mut out, o.blob);
            }
            proof {
                let next = Set::new(
                    |b: Seq<u8>|
                        exists|j: int|
                            0 <= j < i + 1 && (#[trigger] s[j]).blob@ == b && holds(s, b, s[j].device@),
                );
                assert(id_views(out@).to_set() =~= next) by {
                    assert forall|b: Seq<u8>| next.contains(b) implies id_views(out@).to_set().contains(b) by {
                        let j = choose|j: int|
                            0 <= j < i + 1 && (#[trigger] s[j]).blob@ == b && holds(s, b, s[j].device@);
                        if j < i {
                            assert(before.contains(b));
                        }
                    }
                    assert forall|b: Seq<u8>| id_views(out@).to_set().contains(b) implies next.contains(b) by {
                        if before.contains(b) {
                            let j = choose|j: int|
                                0 <= j < i && (#[trigger] s[j]).blob@ == b && holds(s, b, s[j].device@);
                            assert(0 <= j < i + 1);
                        } else {
                            assert(b == s[i as int].blob@);
                        }
                    }
                }
            }
            i = i + 1;
        }
        proof {
            let goal = Set::new(|b: Seq<u8>| exists|d: Seq<char>| holds(s, b, d));
            assert(id_views(out@).to_set() =~= goal) by {
                assert forall|b: Seq<u8>| goal.contains(b) implies id_views(out@).to_set().contains(b) by {
                    let d = choose|d: Seq<char>| holds(s, b, d);
                    let w = choose|w: int| is_latest(s, b, d, w) && s[w].available;
                    assert(s[w].blob@ == b && s[w].device@ == d);
                }
                assert forall|b: Seq<u8>| id_views(out@).to_set().contains(b) implies goal.contains(b) by {
                    let j = choose|j: int|
                        0 <= j < s.len() && (#[trigger] s[j]).blob@ == b && holds(s, b, s[j].device@);
                    assert(holds(s, b, s[j].device@));
                }
            }
        }
        out
    }
}

} // verus!
