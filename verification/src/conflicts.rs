//! Which concurrent edits a device reports as conflicts.
//!
//! Two operations conflict on a target when neither happened before the
//! other, both took part in the causal order, and each carries an edit this
//! device projects to that target, the two edits differing in content. The
//! report names, for each such target in character order, every operation
//! that took part in such a pair, in byte order.

use vstd::prelude::*;

use crate::personal_sync::{event_target, projects_spec, target_spec, PersonalGraphEvent, SyncConflict, SyncSelection};
use crate::sorted::{id_views, ids_sorted, insert_sorted_id};
use crate::text::{chars_of, compare_chars, lemma_seq_lt_transitive, lemma_seq_lt_trichotomy, seq_lt, str_eq};

verus! {

/// One event of a stored operation, as conflict detection reads it.
#[derive(Clone, Debug)]
pub struct ConflictEvent {
    /// The target the event edits, when this device projects it.
    pub target: Option<String>,
    /// The event's encoded content: two events are the same edit exactly
    /// when these agree.
    pub content: Vec<u8>,
}

/// One stored operation, as conflict detection reads it.
#[derive(Clone, Debug)]
pub struct ConflictRecord {
    /// The operation's hash.
    pub operation: [u8; 32],
    /// Whether the operation took part in the causal order.
    pub effective: bool,
    pub events: Vec<ConflictEvent>,
}

/// `e` is a projected edit to `t`.
pub open spec fn edits(e: ConflictEvent, t: Seq<char>) -> bool {
    e.target matches Some(s) && s@ == t
}

/// Event `a` of `x` and event `b` of `y` both edit `t`, with different
/// content.
pub open spec fn apart(x: ConflictRecord, y: ConflictRecord, a: int, b: int, t: Seq<char>) -> bool {
    &&& 0 <= a < x.events@.len()
    &&& 0 <= b < y.events@.len()
    &&& edits(x.events@[a], t)
    &&& edits(y.events@[b], t)
    &&& x.events@[a].content@ != y.events@[b].content@
}

/// Events `a` of `x` and `b` of `y` put the operation `p.1`, one of the
/// two, in conflict on `p.0`.
pub open spec fn pair_hit(x: ConflictRecord, y: ConflictRecord, a: int, b: int, p: (Seq<char>, Seq<u8>)) -> bool {
    apart(x, y, a, b, p.0) && (p.1 == x.operation@ || p.1 == y.operation@)
}

/// Neither of records `i` and `j` happened before the other, and both took
/// part in the causal order.
pub open spec fn concurrent(records: Seq<ConflictRecord>, before: Seq<Seq<bool>>, i: int, j: int) -> bool {
    &&& 0 <= i < records.len()
    &&& 0 <= j < records.len()
    &&& i != j
    &&& records[i].effective
    &&& records[j].effective
    &&& !before[i][j]
    &&& !before[j][i]
}

/// The operation `op` took part in a conflict on `t`.
pub open spec fn in_conflict(records: Seq<ConflictRecord>, before: Seq<Seq<bool>>, t: Seq<char>, op: Seq<u8>) -> bool {
    exists|i: int, j: int, a: int, b: int|
        concurrent(records, before, i, j) && #[trigger] pair_hit(records[i], records[j], a, b, (t, op))
}

/// Every (target, operation) pair the records put in conflict.
pub open spec fn conflict_set(records: Seq<ConflictRecord>, before: Seq<Seq<bool>>) -> Set<(Seq<char>, Seq<u8>)> {
    Set::new(|p: (Seq<char>, Seq<u8>)| in_conflict(records, before, p.0, p.1))
}

/// The rows of a happens-before matrix.
pub open spec fn rows(before: Seq<Vec<bool>>) -> Seq<Seq<bool>> {
    before.map_values(|r: Vec<bool>| r@)
}

/// The conflict report as pairs of a target and an operation named under it.
pub open spec fn found(s: Seq<SyncConflict>) -> Set<(Seq<char>, Seq<u8>)> {
    Set::new(
        |p: (Seq<char>, Seq<u8>)|
            exists|k: int|
                0 <= k < s.len() && #[trigger] s[k].target@ == p.0 && id_views(
                    s[k].operations@,
                ).contains(p.1),
    )
}

/// Targets strictly ascending, each naming a nonempty, strictly ascending
/// list of operations.
pub open spec fn report_wf(s: Seq<SyncConflict>) -> bool {
    &&& forall|i: int, j: int| 0 <= i < j < s.len() ==> seq_lt(#[trigger] s[i].target@, #[trigger] s[j].target@)
    &&& forall|i: int|
        0 <= i < s.len() ==> ids_sorted(id_views(#[trigger] s[i].operations@)) && s[i].operations@.len()
            > 0
}

/// Add `op` under `target`, keeping the report well formed.
fn note(report: &mut Vec<SyncConflict>, target: &str, op: [u8; 32])
    requires
        report_wf(old(report)@),
    ensures
        report_wf(final(report)@),
        found(final(report)@) == found(old(report)@).insert((target@, op@)),
{
    let ghost old_s = report@;
    let tc = chars_of(target);
    let mut p: usize = 0;
    let mut stop = false;
    while p < report.len() && !stop
        invariant
            report@ == old_s,
            report_wf(old_s),
            p <= old_s.len(),
            tc@ == target@,
            forall|i: int| 0 <= i < p ==> seq_lt(#[trigger] old_s[i].target@, target@),
            stop ==> p < old_s.len() && !seq_lt(old_s[p as int].target@, target@),
        decreases old_s.len() - p + (if stop { 0int } else { 1int }),
    {
        let c = chars_of(report[p].target.as_str());
        if compare_chars(&c, &tc) < 0 {
            p = p + 1;
        } else {
            stop = true;
        }
    }
    if stop && str_eq(report[p].target.as_str(), target) {
        let mut entry = report.remove(p);
        let ghost old_ops = id_views(entry.operations@);
        insert_sorted_id(&mut entry.operations, op);
        report.insert(p, entry);
        proof {
            let s = report@;
            assert(s =~= old_s.update(p as int, s[p as int]));
            assert(s[p as int].target@ == target@);
            assert(id_views(s[p as int].operations@).to_set() == old_ops.to_set().insert(op@));
            assert forall|q: (Seq<char>, Seq<u8>)| found(s).contains(q) == found(old_s).insert(
                (target@, op@),
            ).contains(q) by {
                if found(s).contains(q) {
                    let k = choose|k: int|
                        0 <= k < s.len() && #[trigger] s[k].target@ == q.0 && id_views(
                            s[k].operations@,
                        ).contains(q.1);
                    if k == p {
                        assert(id_views(s[k].operations@).to_set().contains(q.1));
                        if q.1 != op@ {
                            assert(old_ops.to_set().contains(q.1));
                            assert(id_views(old_s[k].operations@).contains(q.1));
                        }
                    } else {
                        assert(old_s[k] == s[k]);
                    }
                }
                if found(old_s).insert((target@, op@)).contains(q) {
                    if q == (target@, op@) {
                        assert(id_views(s[p as int].operations@).to_set().contains(op@));
                        assert(s[p as int].target@ == q.0 && id_views(s[p as int].operations@).contains(q.1));
                    } else {
                        let k = choose|k: int|
                            0 <= k < old_s.len() && #[trigger] old_s[k].target@ == q.0 && id_views(
                                old_s[k].operations@,
                            ).contains(q.1);
                        if k == p {
                            assert(old_ops.to_set().contains(q.1));
                            assert(id_views(s[k].operations@).to_set().contains(q.1));
                            assert(s[k].target@ == q.0 && id_views(s[k].operations@).contains(q.1));
                        } else {
                            assert(s[k] == old_s[k]);
                            assert(s[k].target@ == q.0 && id_views(s[k].operations@).contains(q.1));
                        }
                    }
                }
            }
            assert(found(s) =~= found(old_s).insert((target@, op@)));
            assert(id_views(s[p as int].operations@).len() > 0) by {
                assert(id_views(s[p as int].operations@).to_set().contains(op@));
            }
        }
    } else {
        proof {
            if stop {
                lemma_seq_lt_trichotomy(old_s[p as int].target@, target@);
            }
        }
        let mut ops: Vec<[u8; 32]> = Vec::new();
        ops.push(op);
        let entry = SyncConflict { target: target.to_owned(), operations: ops };
        report.insert(p, entry);
        proof {
            let s = report@;
            assert(s =~= old_s.insert(p as int, s[p as int]));
            assert(id_views(s[p as int].operations@) =~= seq![op@]);
            assert forall|i: int, j: int| 0 <= i < j < s.len() implies seq_lt(
                #[trigger] s[i].target@,
                #[trigger] s[j].target@,
            ) by {
                if j < p {
                } else if j == p {
                } else if i < p {
                    if j - 1 > p {
                        assert(seq_lt(old_s[p as int].target@, old_s[j - 1].target@));
                        lemma_seq_lt_transitive(target@, old_s[p as int].target@, old_s[j - 1].target@);
                    }
                    lemma_seq_lt_transitive(old_s[i].target@, target@, old_s[j - 1].target@);
                } else if i == p {
                    if j - 1 > p {
                        assert(seq_lt(old_s[p as int].target@, old_s[j - 1].target@));
                        lemma_seq_lt_transitive(target@, old_s[p as int].target@, old_s[j - 1].target@);
                    }
                } else {
                    assert(seq_lt(old_s[i - 1].target@, old_s[j - 1].target@));
                }
            }
            assert forall|i: int| 0 <= i < s.len() implies ids_sorted(
                id_views(#[trigger] s[i].operations@),
            ) && s[i].operations@.len() > 0 by {
                if i < p {
                    assert(s[i] == old_s[i]);
                } else if i > p {
                    assert(s[i] == old_s[i - 1]);
                }
            }
            assert forall|q: (Seq<char>, Seq<u8>)| found(s).contains(q) == found(old_s).insert(
                (target@, op@),
            ).contains(q) by {
                if found(s).contains(q) {
                    let k = choose|k: int|
                        0 <= k < s.len() && #[trigger] s[k].target@ == q.0 && id_views(
                            s[k].operations@,
                        ).contains(q.1);
                    if k < p {
                        assert(s[k] == old_s[k]);
                    } else if k > p {
                        assert(s[k] == old_s[k - 1]);
                    } else {
                        assert(id_views(s[k].operations@)[0] == op@);
                    }
                }
                if found(old_s).insert((target@, op@)).contains(q) {
                    if q == (target@, op@) {
                        assert(id_views(s[p as int].operations@)[0] == op@);
                        assert(s[p as int].target@ == q.0 && id_views(s[p as int].operations@).contains(q.1));
                    } else {
                        let k = choose|k: int|
                            0 <= k < old_s.len() && #[trigger] old_s[k].target@ == q.0 && id_views(
                                old_s[k].operations@,
                            ).contains(q.1);
                        if k < p {
                            assert(s[k] == old_s[k]);
                            assert(s[k].target@ == q.0 && id_views(s[k].operations@).contains(q.1));
                        } else {
                            assert(s[k + 1] == old_s[k]);
                            assert(s[k + 1].target@ == q.0 && id_views(s[k + 1].operations@).contains(q.1));
                        }
                    }
                }
            }
            assert(found(s) =~= found(old_s).insert((target@, op@)));
        }
    }
}

/// The pairs events of `x` before (`na`, `nb`), in row order against the
/// events of `y`, put in conflict.
spec fn pair_found(x: ConflictRecord, y: ConflictRecord, na: int, nb: int) -> Set<(Seq<char>, Seq<u8>)> {
    Set::new(
        |p: (Seq<char>, Seq<u8>)|
            exists|a: int, b: int| (a < na || (a == na && b < nb)) && #[trigger] pair_hit(x, y, a, b, p),
    )
}

proof fn lemma_pair_step(x: ConflictRecord, y: ConflictRecord, a: int, b: int)
    ensures
        pair_found(x, y, a, b + 1) == pair_found(x, y, a, b).union(
            Set::new(|p: (Seq<char>, Seq<u8>)| pair_hit(x, y, a, b, p)),
        ),
{
    let cell = Set::new(|p: (Seq<char>, Seq<u8>)| pair_hit(x, y, a, b, p));
    assert forall|p: (Seq<char>, Seq<u8>)| pair_found(x, y, a, b + 1).contains(p) == pair_found(
        x,
        y,
        a,
        b,
    ).union(cell).contains(p) by {
        if pair_found(x, y, a, b + 1).contains(p) {
            let (a1, b1) = choose|a1: int, b1: int|
                (a1 < a || (a1 == a && b1 < b + 1)) && #[trigger] pair_hit(x, y, a1, b1, p);
            if a1 == a && b1 == b {
                assert(cell.contains(p));
            } else {
                assert(pair_found(x, y, a, b).contains(p));
            }
        }
        if pair_found(x, y, a, b).contains(p) {
            let (a1, b1) = choose|a1: int, b1: int|
                (a1 < a || (a1 == a && b1 < b)) && #[trigger] pair_hit(x, y, a1, b1, p);
            assert(pair_hit(x, y, a1, b1, p));
        }
        if cell.contains(p) {
            assert(pair_hit(x, y, a, b, p));
        }
    }
    assert(pair_found(x, y, a, b + 1) =~= pair_found(x, y, a, b).union(cell));
}

proof fn lemma_pair_row(x: ConflictRecord, y: ConflictRecord, a: int)
    ensures
        pair_found(x, y, a, y.events@.len() as int) == pair_found(x, y, a + 1, 0),
{
    assert forall|p: (Seq<char>, Seq<u8>)| pair_found(x, y, a, y.events@.len() as int).contains(p)
        == pair_found(x, y, a + 1, 0).contains(p) by {
        if pair_found(x, y, a, y.events@.len() as int).contains(p) {
            let (a1, b1) = choose|a1: int, b1: int|
                (a1 < a || (a1 == a && b1 < y.events@.len())) && #[trigger] pair_hit(x, y, a1, b1, p);
            assert(pair_hit(x, y, a1, b1, p));
        }
        if pair_found(x, y, a + 1, 0).contains(p) {
            let (a1, b1) = choose|a1: int, b1: int|
                (a1 < a + 1 || (a1 == a + 1 && b1 < 0)) && #[trigger] pair_hit(x, y, a1, b1, p);
            assert(pair_hit(x, y, a1, b1, p));
        }
    }
    assert(pair_found(x, y, a, y.events@.len() as int) =~= pair_found(x, y, a + 1, 0));
}

/// Whether two byte strings are equal.
fn bytes_eq(a: &Vec<u8>, b: &Vec<u8>) -> (r: bool)
    ensures
        r == (a@ == b@),
{
    if a.len() != b.len() {
        return false;
    }
    let mut i: usize = 0;
    while i < a.len()
        invariant
            a@.len() == b@.len(),
            i <= a@.len(),
            forall|k: int| 0 <= k < i ==> a@[k] == b@[k],
        decreases a@.len() - i,
    {
        if a[i] != b[i] {
            return false;
        }
        i = i + 1;
    }
    assert(a@ =~= b@);
    true
}

/// Note every conflict between the events of `x` and those of `y`.
fn scan_pair(report: &mut Vec<SyncConflict>, x: &ConflictRecord, y: &ConflictRecord)
    requires
        report_wf(old(report)@),
    ensures
        report_wf(final(report)@),
        found(final(report)@) == found(old(report)@).union(pair_found(*x, *y, x.events@.len() as int, 0)),
{
    let ghost start = found(report@);
    assert(pair_found(*x, *y, 0, 0) =~= Set::empty());
    assert(start.union(pair_found(*x, *y, 0, 0)) =~= start);
    let mut a: usize = 0;
    while a < x.events.len()
        invariant
            a <= x.events@.len(),
            report_wf(report@),
            found(report@) == start.union(pair_found(*x, *y, a as int, 0)),
        decreases x.events@.len() - a,
    {
        let mut b: usize = 0;
        while b < y.events.len()
            invariant
                a < x.events@.len(),
                b <= y.events@.len(),
                report_wf(report@),
                found(report@) == start.union(pair_found(*x, *y, a as int, b as int)),
            decreases y.events@.len() - b,
        {
            let ghost before_step = found(report@);
            let ghost cell = Set::new(|p: (Seq<char>, Seq<u8>)| pair_hit(*x, *y, a as int, b as int, p));
            proof {
                lemma_pair_step(*x, *y, a as int, b as int);
            }
            let mut hit = false;
            match &x.events[a].target {
                Some(s) => match &y.events[b].target {
                    Some(u) => {
                        if str_eq(s.as_str(), u.as_str()) && !bytes_eq(
                            &x.events[a].content,
                            &y.events[b].content,
                        ) {
                            hit = true;
                            note(report, s.as_str(), x.operation);
                            note(report, s.as_str(), y.operation);
                            proof {
                                let h = set![(s@, x.operation@), (s@, y.operation@)];
                                assert forall|p: (Seq<char>, Seq<u8>)| cell.contains(p) == h.contains(p) by {
                                    if cell.contains(p) {
                                        assert(pair_hit(*x, *y, a as int, b as int, p));
                                    }
                                    if h.contains(p) {
                                        assert(apart(*x, *y, a as int, b as int, s@));
                                    }
                                }
                                assert(cell =~= h);
                                assert(found(report@) =~= before_step.union(h));
                            }
                        }
                    },
                    None => {},
                },
                None => {},
            }
            proof {
                if !hit {
                    assert forall|p: (Seq<char>, Seq<u8>)| !cell.contains(p) by {
                        if cell.contains(p) {
                            assert(pair_hit(*x, *y, a as int, b as int, p));
                        }
                    }
                    assert(cell =~= Set::empty());
                }
                assert(found(report@) =~= start.union(pair_found(*x, *y, a as int, b + 1)));
            }
            b = b + 1;
        }
        proof {
            lemma_pair_row(*x, *y, a as int);
        }
        a = a + 1;
    }
}

/// The pairs records before (`ni`, `nj`), taken in row order with the
/// earlier record first, put in conflict.
spec fn all_found(records: Seq<ConflictRecord>, before: Seq<Seq<bool>>, ni: int, nj: int) -> Set<
    (Seq<char>, Seq<u8>),
> {
    Set::new(
        |p: (Seq<char>, Seq<u8>)|
            exists|i: int, j: int, a: int, b: int|
                i < j && (i < ni || (i == ni && j < nj)) && concurrent(records, before, i, j)
                    && #[trigger] pair_hit(records[i], records[j], a, b, p),
    )
}

proof fn lemma_all_step(records: Seq<ConflictRecord>, before: Seq<Seq<bool>>, i: int, j: int)
    requires
        0 <= i < j < records.len(),
    ensures
        all_found(records, before, i, j + 1) == all_found(records, before, i, j).union(
            if concurrent(records, before, i, j) {
                pair_found(records[i], records[j], records[i].events@.len() as int, 0)
            } else {
                Set::empty()
            },
        ),
{
    let extra = if concurrent(records, before, i, j) {
        pair_found(records[i], records[j], records[i].events@.len() as int, 0)
    } else {
        Set::empty()
    };
    assert forall|p: (Seq<char>, Seq<u8>)| all_found(records, before, i, j + 1).contains(p)
        == all_found(records, before, i, j).union(extra).contains(p) by {
        if all_found(records, before, i, j + 1).contains(p) {
            let (i1, j1, a1, b1) = choose|i1: int, j1: int, a1: int, b1: int|
                i1 < j1 && (i1 < i || (i1 == i && j1 < j + 1)) && concurrent(records, before, i1, j1)
                    && #[trigger] pair_hit(records[i1], records[j1], a1, b1, p);
            if i1 == i && j1 == j {
                assert(pair_hit(records[i], records[j], a1, b1, p));
                assert(extra.contains(p));
            } else {
                assert(all_found(records, before, i, j).contains(p));
            }
        }
        if all_found(records, before, i, j).contains(p) {
            let (i1, j1, a1, b1) = choose|i1: int, j1: int, a1: int, b1: int|
                i1 < j1 && (i1 < i || (i1 == i && j1 < j)) && concurrent(records, before, i1, j1)
                    && #[trigger] pair_hit(records[i1], records[j1], a1, b1, p);
            assert(pair_hit(records[i1], records[j1], a1, b1, p));
        }
        if extra.contains(p) {
            let (a1, b1) = choose|a1: int, b1: int|
                (a1 < records[i].events@.len() || (a1 == records[i].events@.len() && b1 < 0))
                    && #[trigger] pair_hit(records[i], records[j], a1, b1, p);
            assert(pair_hit(records[i], records[j], a1, b1, p));
        }
    }
    assert(all_found(records, before, i, j + 1) =~= all_found(records, before, i, j).union(extra));
}

proof fn lemma_all_row(records: Seq<ConflictRecord>, before: Seq<Seq<bool>>, i: int)
    requires
        0 <= i < records.len(),
    ensures
        all_found(records, before, i, records.len() as int) == all_found(records, before, i + 1, i + 2),
{
    let n = records.len() as int;
    assert forall|p: (Seq<char>, Seq<u8>)| all_found(records, before, i, n).contains(p)
        == all_found(records, before, i + 1, i + 2).contains(p) by {
        if all_found(records, before, i, n).contains(p) {
            let (i1, j1, a1, b1) = choose|i1: int, j1: int, a1: int, b1: int|
                i1 < j1 && (i1 < i || (i1 == i && j1 < n)) && concurrent(records, before, i1, j1)
                    && #[trigger] pair_hit(records[i1], records[j1], a1, b1, p);
            assert(pair_hit(records[i1], records[j1], a1, b1, p));
        }
        if all_found(records, before, i + 1, i + 2).contains(p) {
            let (i1, j1, a1, b1) = choose|i1: int, j1: int, a1: int, b1: int|
                i1 < j1 && (i1 < i + 1 || (i1 == i + 1 && j1 < i + 2)) && concurrent(
                    records,
                    before,
                    i1,
                    j1,
                ) && #[trigger] pair_hit(records[i1], records[j1], a1, b1, p);
            assert(pair_hit(records[i1], records[j1], a1, b1, p));
        }
    }
    assert(all_found(records, before, i, n) =~= all_found(records, before, i + 1, i + 2));
}

proof fn lemma_all_complete(records: Seq<ConflictRecord>, before: Seq<Seq<bool>>)
    ensures
        all_found(records, before, records.len() as int, records.len() + 1int) == conflict_set(
            records,
            before,
        ),
{
    let n = records.len() as int;
    assert forall|p: (Seq<char>, Seq<u8>)| all_found(records, before, n, n + 1).contains(p)
        == conflict_set(records, before).contains(p) by {
        if all_found(records, before, n, n + 1).contains(p) {
            let (i1, j1, a1, b1) = choose|i1: int, j1: int, a1: int, b1: int|
                i1 < j1 && (i1 < n || (i1 == n && j1 < n + 1)) && concurrent(records, before, i1, j1)
                    && #[trigger] pair_hit(records[i1], records[j1], a1, b1, p);
            assert(pair_hit(records[i1], records[j1], a1, b1, (p.0, p.1)));
        }
        if conflict_set(records, before).contains(p) {
            let (i1, j1, a1, b1) = choose|i1: int, j1: int, a1: int, b1: int|
                concurrent(records, before, i1, j1) && #[trigger] pair_hit(
                    records[i1],
                    records[j1],
                    a1,
                    b1,
                    (p.0, p.1),
                );
            if i1 < j1 {
                assert(pair_hit(records[i1], records[j1], a1, b1, p));
            } else {
                assert(concurrent(records, before, j1, i1));
                assert(pair_hit(records[j1], records[i1], b1, a1, p));
            }
        }
    }
    assert(all_found(records, before, n, n + 1) =~= conflict_set(records, before));
}

/// The conflicts among stored operations, given which happened before
/// which: `before[i][j]` when operation `i` happened before operation `j`.
///
/// For every target two concurrent effective operations both edit with
/// different content, one entry, in character order of targets, naming in
/// byte order every operation that took part in such a pair; nothing else.
pub fn collect_conflicts(records: &Vec<ConflictRecord>, before: &Vec<Vec<bool>>) -> (r: Vec<SyncConflict>)
    requires
        before@.len() == records@.len(),
        forall|i: int| 0 <= i < before@.len() ==> (#[trigger] before@[i])@.len() == records@.len(),
    ensures
        report_wf(r@),
        found(r@) == conflict_set(records@, rows(before@)),
{
    let ghost rs = records@;
    let ghost bs = rows(before@);
    let mut report: Vec<SyncConflict> = Vec::new();
    assert(all_found(rs, bs, 0, 1) =~= Set::empty()) by {
        assert forall|p: (Seq<char>, Seq<u8>)| !all_found(rs, bs, 0, 1).contains(p) by {
            if all_found(rs, bs, 0, 1).contains(p) {
                let (i1, j1, a1, b1) = choose|i1: int, j1: int, a1: int, b1: int|
                    i1 < j1 && (i1 < 0 || (i1 == 0 && j1 < 1)) && concurrent(rs, bs, i1, j1)
                        && #[trigger] pair_hit(rs[i1], rs[j1], a1, b1, p);
            }
        }
    }
    assert(found(report@) =~= Set::empty());
    let n = records.len();
    let mut i: usize = 0;
    while i < n
        invariant
            n == rs.len(),
            rs == records@,
            bs == rows(before@),
            before@.len() == n,
            forall|k: int| 0 <= k < n ==> (#[trigger] before@[k])@.len() == n,
            i <= n,
            report_wf(report@),
            found(report@) == all_found(rs, bs, i as int, i + 1),
        decreases n - i,
    {
        let mut j: usize = i + 1;
        while j < n
            invariant
                n == rs.len(),
                rs == records@,
                bs == rows(before@),
                before@.len() == n,
                forall|k: int| 0 <= k < n ==> (#[trigger] before@[k])@.len() == n,
                i < n,
                i < j <= n,
                report_wf(report@),
                found(report@) == all_found(rs, bs, i as int, j as int),
            decreases n - j,
        {
            proof {
                lemma_all_step(rs, bs, i as int, j as int);
                assert(bs[i as int] == before@[i as int]@);
                assert(bs[j as int] == before@[j as int]@);
            }
            if records[i].effective && records[j].effective && !before[i][j] && !before[j][i] {
                scan_pair(&mut report, &records[i], &records[j]);
            }
            j = j + 1;
        }
        proof {
            lemma_all_row(rs, bs, i as int);
        }
        i = i + 1;
    }
    proof {
        lemma_all_complete(rs, bs);
    }
    report
}

/// How conflict detection reads one event: the target it edits when this
/// device projects it, nothing otherwise, and its `content` as given.
/// `payload_digest` is the written digest of a pre-key bundle's or
/// dispatch's bytes.
pub fn conflict_event(
    selection: &SyncSelection,
    event: &PersonalGraphEvent,
    payload_digest: &str,
    content: Vec<u8>,
) -> (r: ConflictEvent)
    requires
        selection.wf(),
    ensures
        r.target matches Some(t) ==> projects_spec(selection@, *event) && t@ == target_spec(
            *event,
            payload_digest@,
        ),
        r.target is None ==> !projects_spec(selection@, *event),
        r.content@ == content@,
{
    let target = if selection.projects(event) {
        Some(event_target(event, payload_digest))
    } else {
        None
    };
    ConflictEvent { target, content }
}

/// Operations that are all causally ordered never conflict: with every two
/// effective operations one happening before the other, nothing is
/// reported.
pub proof fn lemma_ordered_history_has_no_conflicts(records: Seq<ConflictRecord>, before: Seq<Seq<bool>>)
    requires
        forall|i: int, j: int|
            0 <= i < records.len() && 0 <= j < records.len() && i != j && records[i].effective
                && records[j].effective ==> #[trigger] before[i][j] || #[trigger] before[j][i],
    ensures
        conflict_set(records, before) == Set::<(Seq<char>, Seq<u8>)>::empty(),
{
    assert forall|p: (Seq<char>, Seq<u8>)| !conflict_set(records, before).contains(p) by {
        if conflict_set(records, before).contains(p) {
            let (i, j, a, b) = choose|i: int, j: int, a: int, b: int|
                concurrent(records, before, i, j) && #[trigger] pair_hit(
                    records[i],
                    records[j],
                    a,
                    b,
                    (p.0, p.1),
                );
            assert(before[i][j] || before[j][i]);
        }
    }
    assert(conflict_set(records, before) =~= Set::empty());
}

/// A conflict is between two edits: where no two operations share a hash,
/// every operation named under a target is named there beside another.
pub proof fn lemma_a_conflict_names_two_operations(
    records: Seq<ConflictRecord>,
    before: Seq<Seq<bool>>,
    t: Seq<char>,
    op: Seq<u8>,
)
    requires
        forall|i: int, j: int|
            0 <= i < records.len() && 0 <= j < records.len() && i != j ==> (#[trigger] records[i]).operation@
                != (#[trigger] records[j]).operation@,
        conflict_set(records, before).contains((t, op)),
    ensures
        exists|other: Seq<u8>| other != op && conflict_set(records, before).contains((t, other)),
{
    let (i, j, a, b) = choose|i: int, j: int, a: int, b: int|
        concurrent(records, before, i, j) && #[trigger] pair_hit(records[i], records[j], a, b, (t, op));
    let other = if op == records[i].operation@ {
        records[j].operation@
    } else {
        records[i].operation@
    };
    assert(records[i].operation@ != records[j].operation@);
    assert(pair_hit(records[i], records[j], a, b, (t, other)));
    assert(in_conflict(records, before, t, other));
    assert(conflict_set(records, before).contains((t, other)));
}

} // verus!
