//! The persona handler preferences a device folds from its lane: for each
//! preference key the handler most recently set for it, kept in key order.

use vstd::prelude::*;

use crate::personal_sync::{AuthoredOperation, PersonalGraphEvent, SyncSelection};
use crate::text::{chars_of, compare_chars, lemma_seq_lt_transitive, lemma_seq_lt_trichotomy, seq_lt};

verus! {

/// Keys strictly ascending, hence each once.
pub open spec fn keys_ascending(v: Seq<(String, String)>) -> bool {
    forall|i: int, j: int| 0 <= i < j < v.len() ==> seq_lt(#[trigger] v[i].0@, #[trigger] v[j].0@)
}

/// The preferences as a map from key to handler.
pub open spec fn pref_map(v: Seq<(String, String)>) -> Map<Seq<char>, Seq<char>>
    decreases v.len(),
{
    if v.len() == 0 {
        Map::empty()
    } else {
        pref_map(v.drop_last()).insert(v.last().0@, v.last().1@)
    }
}

/// The preferences set by `events`, each later setting replacing an earlier.
pub open spec fn prefs_after(m: Map<Seq<char>, Seq<char>>, events: Seq<PersonalGraphEvent>) -> Map<
    Seq<char>,
    Seq<char>,
>
    decreases events.len(),
{
    if events.len() == 0 {
        m
    } else {
        let before = prefs_after(m, events.drop_last());
        match events.last() {
            PersonalGraphEvent::SetHandlerPreference { key, handler } => before.insert(key@, handler@),
            _ => before,
        }
    }
}

/// The preferences set by operations in causal order.
pub open spec fn prefs_of(ops: Seq<AuthoredOperation>) -> Map<Seq<char>, Seq<char>>
    decreases ops.len(),
{
    if ops.len() == 0 {
        Map::empty()
    } else {
        prefs_after(prefs_of(ops.drop_last()), ops.last().events@)
    }
}

proof fn lemma_pref_map_keys(v: Seq<(String, String)>)
    requires
        keys_ascending(v),
    ensures
        forall|k: Seq<char>| pref_map(v).dom().contains(k) <==> exists|i: int| 0 <= i < v.len() && #[trigger] v[i].0@ == k,
        forall|i: int| 0 <= i < v.len() ==> pref_map(v)[#[trigger] v[i].0@] == v[i].1@,
    decreases v.len(),
{
    if v.len() > 0 {
        let t = v.drop_last();
        assert(keys_ascending(t)) by {
            assert forall|i: int, j: int| 0 <= i < j < t.len() implies seq_lt(#[trigger] t[i].0@, #[trigger] t[j].0@) by {
                assert(seq_lt(v[i].0@, v[j].0@));
            }
        }
        lemma_pref_map_keys(t);
        assert forall|k: Seq<char>| pref_map(v).dom().contains(k) implies exists|i: int| 0 <= i < v.len() && #[trigger] v[i].0@ == k by {
            if k != v.last().0@ {
                assert(pref_map(t).dom().contains(k));
                let i = choose|i: int| 0 <= i < t.len() && #[trigger] t[i].0@ == k;
                assert(v[i] == t[i]);
            } else {
                assert(v[v.len() - 1].0@ == k);
            }
        }
        assert forall|k: Seq<char>| (exists|i: int| 0 <= i < v.len() && #[trigger] v[i].0@ == k) implies pref_map(v).dom().contains(k) by {
            let i = choose|i: int| 0 <= i < v.len() && #[trigger] v[i].0@ == k;
            if i < v.len() - 1 {
                assert(t[i] == v[i]);
                assert(pref_map(t).dom().contains(k));
            }
        }
        assert forall|i: int| 0 <= i < v.len() implies pref_map(v)[#[trigger] v[i].0@] == v[i].1@ by {
            if i < v.len() - 1 {
                assert(t[i] == v[i]);
                assert(seq_lt(v[i].0@, v[v.len() - 1].0@));
                lemma_seq_lt_trichotomy(v[i].0@, v[v.len() - 1].0@);
            }
        }
    }
}

/// Two ascending lists whose maps agree are the same up to their text.
proof fn lemma_pref_map_ext(v: Seq<(String, String)>, m: Map<Seq<char>, Seq<char>>)
    requires
        keys_ascending(v),
        forall|k: Seq<char>| m.dom().contains(k) <==> exists|i: int| 0 <= i < v.len() && #[trigger] v[i].0@ == k,
        forall|i: int| 0 <= i < v.len() ==> m[#[trigger] v[i].0@] == v[i].1@,
    ensures
        pref_map(v) == m,
{
    lemma_pref_map_keys(v);
    assert(pref_map(v) =~= m) by {
        assert forall|k: Seq<char>| #[trigger] m.dom().contains(k) implies pref_map(v)[k] == m[k] by {
            let i = choose|i: int| 0 <= i < v.len() && #[trigger] v[i].0@ == k;
        }
    }
}

/// The handler preferences of a device, one per key, in key order.
pub struct HandlerPreferences {
    entries: Vec<(String, String)>,
}

impl HandlerPreferences {
    /// Each key with its handler.
    pub closed spec fn view_map(&self) -> Map<Seq<char>, Seq<char>> {
        pref_map(self.entries@)
    }

    /// Keys ascend.
    pub closed spec fn wf(&self) -> bool {
        keys_ascending(self.entries@)
    }

    /// No preferences.
    pub fn new() -> (r: Self)
        ensures
            r.wf(),
            r.view_map() == Map::<Seq<char>, Seq<char>>::empty(),
    {
        HandlerPreferences { entries: Vec::new() }
    }

    /// The preferences, in ascending key order.
    pub fn entries(&self) -> (r: &[(String, String)])
        requires
            self.wf(),
        ensures
            keys_ascending(r@),
            pref_map(r@) == self.view_map(),
    {
        self.entries.as_slice()
    }

    /// Prefer `handler` for `key`, replacing any earlier preference.
    pub fn set(&mut self, key: &str, handler: &str)
        requires
            old(self).wf(),
        ensures
            final(self).wf(),
            final(self).view_map() == old(self).view_map().insert(key@, handler@),
    {
        let ghost v = self.entries@;
        let ghost m = pref_map(v).insert(key@, handler@);
        proof {
            lemma_pref_map_keys(v);
        }
        let kc = chars_of(key);
        let mut p: usize = 0;
        let mut stop = false;
        while p < self.entries.len() && !stop
            invariant
                p <= v.len(),
                self.entries@ == v,
                keys_ascending(v),
                kc@ == key@,
                forall|q: int| 0 <= q < p ==> seq_lt(#[trigger] v[q].0@, key@),
                stop ==> p < v.len() && !seq_lt(v[p as int].0@, key@),
            decreases v.len() - p + (if stop { 0int } else { 1int }),
        {
            let c = chars_of(self.entries[p].0.as_str());
            if compare_chars(&c, &kc) < 0 {
                p = p + 1;
            } else {
                stop = true;
            }
        }
        let found = if stop {
            let c = chars_of(self.entries[p].0.as_str());
            compare_chars(&c, &kc) == 0
        } else {
            false
        };
        if found {
            self.entries.set(p, (key.to_owned(), handler.to_owned()));
            proof {
                let n = self.entries@;
                assert(n[p as int].0@ == v[p as int].0@);
                assert(keys_ascending(n)) by {
                    assert forall|i: int, j: int| 0 <= i < j < n.len() implies seq_lt(#[trigger] n[i].0@, #[trigger] n[j].0@) by {
                        assert(n[i].0@ == v[i].0@ && n[j].0@ == v[j].0@);
                    }
                }
                assert forall|k: Seq<char>| m.dom().contains(k) <==> exists|i: int| 0 <= i < n.len() && #[trigger] n[i].0@ == k by {
                    if m.dom().contains(k) && k != key@ {
                        let i = choose|i: int| 0 <= i < v.len() && #[trigger] v[i].0@ == k;
                        assert(n[i].0@ == k);
                    }
                    if exists|i: int| 0 <= i < n.len() && #[trigger] n[i].0@ == k {
                        let i = choose|i: int| 0 <= i < n.len() && #[trigger] n[i].0@ == k;
                        assert(v[i].0@ == k);
                    }
                }
                assert forall|i: int| 0 <= i < n.len() implies m[#[trigger] n[i].0@] == n[i].1@ by {
                    if i != p {
                        assert(n[i] == v[i]);
                        if v[i].0@ == key@ {
                            if i < p {
                                lemma_seq_lt_trichotomy(v[i].0@, key@);
                            } else {
                                assert(seq_lt(v[p as int].0@, v[i].0@));
                                lemma_seq_lt_trichotomy(v[p as int].0@, v[i].0@);
                            }
                        }
                    }
                }
                lemma_pref_map_ext(n, m);
            }
        } else {
            proof {
                if stop {
                    lemma_seq_lt_trichotomy(v[p as int].0@, key@);
                }
            }
            self.entries.insert(p, (key.to_owned(), handler.to_owned()));
            proof {
                let n = self.entries@;
                assert(n =~= v.insert(p as int, n[p as int]));
                assert(keys_ascending(n)) by {
                    assert forall|i: int, j: int| 0 <= i < j < n.len() implies seq_lt(#[trigger] n[i].0@, #[trigger] n[j].0@) by {
                        if j < p {
                        } else if j == p {
                        } else if i < p {
                            if j - 1 > p {
                                lemma_seq_lt_transitive(key@, v[p as int].0@, v[j - 1].0@);
                            }
                            lemma_seq_lt_transitive(v[i].0@, key@, v[j - 1].0@);
                        } else if i == p {
                            if j - 1 > p {
                                lemma_seq_lt_transitive(key@, v[p as int].0@, v[j - 1].0@);
                            }
                        } else {
                            assert(seq_lt(v[i - 1].0@, v[j - 1].0@));
                        }
                    }
                }
                assert forall|k: Seq<char>| m.dom().contains(k) <==> exists|i: int| 0 <= i < n.len() && #[trigger] n[i].0@ == k by {
                    if m.dom().contains(k) {
                        if k == key@ {
                            assert(n[p as int].0@ == k);
                        } else {
                            let i = choose|i: int| 0 <= i < v.len() && #[trigger] v[i].0@ == k;
                            if i < p {
                                assert(n[i].0@ == k);
                            } else {
                                assert(n[i + 1].0@ == k);
                            }
                        }
                    }
                    if exists|i: int| 0 <= i < n.len() && #[trigger] n[i].0@ == k {
                        let i = choose|i: int| 0 <= i < n.len() && #[trigger] n[i].0@ == k;
                        if i < p {
                            assert(v[i].0@ == k);
                        } else if i > p {
                            assert(v[i - 1].0@ == k);
                        }
                    }
                }
                assert forall|i: int| 0 <= i < n.len() implies m[#[trigger] n[i].0@] == n[i].1@ by {
                    if i < p {
                        assert(n[i] == v[i]);
                        lemma_seq_lt_trichotomy(v[i].0@, key@);
                    } else if i > p {
                        assert(n[i] == v[i - 1]);
                        if p < v.len() {
                            if i - 1 > p {
                                assert(seq_lt(v[p as int].0@, v[i - 1].0@));
                                lemma_seq_lt_transitive(key@, v[p as int].0@, v[i - 1].0@);
                            }
                            lemma_seq_lt_trichotomy(key@, v[i - 1].0@);
                        }
                    }
                }
                lemma_pref_map_ext(n, m);
            }
        }
    }
}

/// Fold the lane's handler preferences, in causal order: a later setting
/// for a key replaces an earlier one. A device that does not project
/// handler preferences keeps none.
pub fn fold_handler_preferences(ops: &Vec<AuthoredOperation>, selection: &SyncSelection) -> (r: HandlerPreferences)
    ensures
        r.wf(),
        r.view_map() == if selection@.handler_preferences {
            prefs_of(ops@)
        } else {
            Map::empty()
        },
{
    let mut prefs = HandlerPreferences::new();
    if !selection.projects_handler_preferences() {
        return prefs;
    }
    let mut i: usize = 0;
    assert(ops@.subrange(0, 0) =~= Seq::<AuthoredOperation>::empty());
    while i < ops.len()
        invariant
            i <= ops@.len(),
            prefs.wf(),
            prefs.view_map() == prefs_of(ops@.subrange(0, i as int)),
        decreases ops@.len() - i,
    {
        let events = &ops[i].events;
        let ghost start = prefs.view_map();
        let mut j: usize = 0;
        assert(events@.subrange(0, 0) =~= Seq::<PersonalGraphEvent>::empty());
        while j < events.len()
            invariant
                j <= events@.len(),
                prefs.wf(),
                prefs.view_map() == prefs_after(start, events@.subrange(0, j as int)),
            decreases events@.len() - j,
        {
            proof {
                assert(events@.subrange(0, j + 1).drop_last() =~= events@.subrange(0, j as int));
                assert(events@.subrange(0, j + 1).last() == events@[j as int]);
            }
            match &events[j] {
                PersonalGraphEvent::SetHandlerPreference { key, handler } => {
                    prefs.set(key.as_str(), handler.as_str());
                },
                _ => {},
            }
            j = j + 1;
        }
        proof {
            assert(events@.subrange(0, events@.len() as int) =~= events@);
            assert(ops@.subrange(0, i + 1).drop_last() =~= ops@.subrange(0, i as int));
            assert(ops@.subrange(0, i + 1).last() == ops@[i as int]);
        }
        i = i + 1;
    }
    assert(ops@.subrange(0, ops@.len() as int) =~= ops@);
    prefs
}

} // verus!
