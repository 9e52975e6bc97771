//! Bounded checking of the named Woodshed musical-comparison disclosure.
//!
//! This is a product adapter, not an authentication claim: the fixed source
//! tuple identifies the disclosure shape this practice proof reads, not who
//! supplied it. A disclosure is refused when its reported partitions or its
//! singleton motion disagree with the literal pitch sets it supplies.

use vstd::prelude::*;

use crate::json::{
    decimal, json_view, json_views, lemma_json_views, object_get, push_decimal, view_as_u64,
    view_get, JsonValue, JsonView,
};
use crate::practice_workspace::ComparisonRecord;
use crate::text::{chars_of, is_blank, push_str, str_eq, trim};

verus! {

/// Maximum accepted UTF-8 input size before JSON parsing.
pub const MAX_WOODSHED_DISCLOSURE_BYTES: usize = 262144;

/// Refuse a disclosure larger than [`MAX_WOODSHED_DISCLOSURE_BYTES`] in
/// UTF-8, before anything parses it.
pub fn check_disclosure_size(json: &str) -> (r: Result<(), String>)
    ensures
        match r {
            Ok(()) => vstd::utf8::encode_utf8(json@).len() <= MAX_WOODSHED_DISCLOSURE_BYTES,
            Err(e) => vstd::utf8::encode_utf8(json@).len() > MAX_WOODSHED_DISCLOSURE_BYTES
                && e@ == "Woodshed disclosure exceeds the 256 KiB input limit"@,
        },
{
    if crate::text::utf8_len_exceeds(&chars_of(json), MAX_WOODSHED_DISCLOSURE_BYTES) {
        Err("Woodshed disclosure exceeds the 256 KiB input limit".to_owned())
    } else {
        Ok(())
    }
}

/// The most pitches one pitch set may list.
pub const MAX_PITCHES: usize = 12;

/// The longest tone label, in characters.
pub const MAX_TONE_LABEL_CHARS: usize = 24;

/// The longest subject label, in characters.
pub const MAX_SUBJECT_LABEL_CHARS: usize = 100;

/// A set of pitch classes with their labels: slot `c` holds pitch class `c`.
#[derive(Debug, PartialEq, Eq)]
pub struct PitchSet {
    labels: Vec<Option<String>>,
}

/// No pitch classes.
pub open spec fn no_pitches() -> Seq<Option<Seq<char>>> {
    Seq::new(12, |i: int| None)
}

pub open spec fn label_views(v: Seq<Option<String>>) -> Seq<Option<Seq<char>>> {
    v.map_values(
        |o: Option<String>|
            match o {
                Some(s) => Some(s@),
                None => None,
            },
    )
}

impl PitchSet {
    /// One slot per pitch class.
    pub closed spec fn wf(&self) -> bool {
        self.labels@.len() == 12
    }
}

impl View for PitchSet {
    type V = Seq<Option<Seq<char>>>;

    closed spec fn view(&self) -> Seq<Option<Seq<char>>> {
        label_views(self.labels@)
    }
}

/// How many pitch classes a set holds.
pub open spec fn pitch_count(s: Seq<Option<Seq<char>>>) -> nat
    decreases s.len(),
{
    if s.len() == 0 {
        0
    } else {
        pitch_count(s.drop_last()) + if s.last() is Some {
            1nat
        } else {
            0nat
        }
    }
}

/// `path[i]` followed by `tail`.
pub open spec fn at_index(path: Seq<char>, i: nat, tail: Seq<char>) -> Seq<char> {
    path + "["@ + decimal(i) + "]"@ + tail
}

/// What one listed pitch contributes, or why it is refused: it must be an
/// object whose `pitch_class` is an integer below 12 not yet listed and
/// whose `label` is a non-blank string of at most 24 characters.
pub open spec fn pitch_item(
    path: Seq<char>,
    item: JsonView,
    i: nat,
    acc: Seq<Option<Seq<char>>>,
) -> Result<(u64, Seq<char>), Seq<char>> {
    match item {
        JsonView::Object(entries) => {
            let pc = match view_get(entries, "pitch_class"@) {
                Some(v) => view_as_u64(v),
                None => None,
            };
            if !(pc is Some && pc->Some_0 < 12) {
                Err(at_index(path, i, ".pitch_class must be an integer below 12"@))
            } else {
                let label = match view_get(entries, "label"@) {
                    Some(JsonView::Str(s)) => Some(s),
                    _ => None,
                };
                if !(label is Some && trim(label->Some_0).len() > 0 && label->Some_0.len() <= 24) {
                    Err(
                        at_index(
                            path,
                            i,
                            ".label must be non-empty and at most 24 characters"@,
                        ),
                    )
                } else if acc[pc->Some_0 as int] is Some {
                    Err(path + " repeats pitch class "@ + decimal(pc->Some_0 as nat))
                } else {
                    Ok((pc->Some_0, label->Some_0))
                }
            }
        },
        _ => Err(at_index(path, i, " must be an object"@)),
    }
}

/// Read listed pitches from position `i` on, into `acc`.
pub open spec fn pitch_scan(
    path: Seq<char>,
    items: Seq<JsonView>,
    i: nat,
    acc: Seq<Option<Seq<char>>>,
) -> Result<Seq<Option<Seq<char>>>, Seq<char>>
    decreases items.len() - i,
{
    if i >= items.len() {
        Ok(acc)
    } else {
        match pitch_item(path, items[i as int], i, acc) {
            Err(m) => Err(m),
            Ok(p) => pitch_scan(path, items, i + 1, acc.update(p.0 as int, Some(p.1))),
        }
    }
}

/// A pitch set as disclosed: an array of at most 12 pitches.
pub open spec fn pitch_set_outcome(path: Seq<char>, v: JsonView) -> Result<
    Seq<Option<Seq<char>>>,
    Seq<char>,
> {
    match v {
        JsonView::Array(items) => if items.len() > 12 {
            Err(path + " may contain at most 12 pitches"@)
        } else {
            pitch_scan(path, items, 0, no_pitches())
        },
        _ => Err(path + " must be an array"@),
    }
}

fn error_at(path: &str, index: usize, tail: &str) -> (r: String)
    ensures
        r@ == at_index(path@, index as nat, tail@),
{
    let mut out = path.to_owned();
    push_str(&mut out, "[");
    push_decimal(&mut out, index as u64);
    push_str(&mut out, "]");
    push_str(&mut out, tail);
    out
}

/// Read one disclosed pitch set.
pub fn parse_pitch_set(path: &str, value: &JsonValue) -> (r: Result<PitchSet, String>)
    ensures
        r matches Ok(p) ==> p.wf(),
        match r {
            Ok(p) => pitch_set_outcome(path@, json_view(*value)) == Ok::<
                Seq<Option<Seq<char>>>,
                Seq<char>,
            >(p@),
            Err(e) => pitch_set_outcome(path@, json_view(*value)) == Err::<
                Seq<Option<Seq<char>>>,
                Seq<char>,
            >(e@),
        },
{
    let items = match value.as_array() {
        None => {
            let mut m = path.to_owned();
            push_str(&mut m, " must be an array");
            return Err(m);
        },
        Some(items) => items,
    };
    let ghost views = json_views(items@);
    proof {
        lemma_json_views(items@);
    }
    if items.len() > 12 {
        let mut m = path.to_owned();
        push_str(&mut m, " may contain at most 12 pitches");
        return Err(m);
    }
    let mut labels: Vec<Option<String>> = Vec::new();
    let mut k: usize = 0;
    while k < 12
        invariant
            k <= 12,
            labels@.len() == k,
            forall|q: int| 0 <= q < k ==> (#[trigger] labels@[q]) is None,
        decreases 12 - k,
    {
        labels.push(None);
        k = k + 1;
    }
    proof {
        assert(label_views(labels@) =~= no_pitches());
    }
    let mut i: usize = 0;
    while i < items.len()
        invariant
            i <= items@.len(),
            items@.len() <= 12,
            labels@.len() == 12,
            views == json_views(items@),
            views.len() == items@.len(),
            forall|q: int| 0 <= q < items@.len() ==> #[trigger] views[q] == json_view(items@[q]),
            pitch_set_outcome(path@, json_view(*value)) == pitch_scan(
                path@,
                views,
                i as nat,
                label_views(labels@),
            ),
        decreases items@.len() - i,
    {
        let ghost acc = label_views(labels@);
        let object = match items[i].as_object() {
            None => return Err(error_at(path, i, " must be an object")),
            Some(o) => o,
        };
        let pc = match object_get(object, "pitch_class") {
            Some(v) => v.as_u64(),
            None => None,
        };
        let pc = match pc {
            Some(c) => {
                if c < 12 {
                    c
                } else {
                    return Err(error_at(path, i, ".pitch_class must be an integer below 12"));
                }
            },
            None => return Err(error_at(path, i, ".pitch_class must be an integer below 12")),
        };
        let label = match object_get(object, "label") {
            Some(v) => v.as_str(),
            None => None,
        };
        let label = match label {
            Some(l) => {
                let count = chars_of(l).len();
                if is_blank(l) || count > 24 {
                    return Err(
                        error_at(path, i, ".label must be non-empty and at most 24 characters"),
                    );
                }
                l
            },
            None => return Err(
                error_at(path, i, ".label must be non-empty and at most 24 characters"),
            ),
        };
        if labels[pc as usize].is_some() {
            let mut m = path.to_owned();
            push_str(&mut m, " repeats pitch class ");
            push_decimal(&mut m, pc);
            return Err(m);
        }
        labels.set(pc as usize, Some(label.to_owned()));
        proof {
            assert(label_views(labels@) =~= acc.update(pc as int, Some(label@)));
        }
        i = i + 1;
    }
    Ok(PitchSet { labels })
}

} // verus!

verus! {

/// Why a subject label is refused, if it is: blank, or over 100 characters.
pub open spec fn subject_label_check(path: Seq<char>, label: Seq<char>) -> Option<Seq<char>> {
    if trim(label).len() == 0 || label.len() > 100 {
        Some(path + " must be non-empty and at most 100 characters"@)
    } else {
        None
    }
}

/// Check a subject label.
pub fn validate_subject_label(path: &str, label: &str) -> (r: Result<(), String>)
    ensures
        match r {
            Ok(()) => subject_label_check(path@, label@) is None,
            Err(e) => subject_label_check(path@, label@) == Some(e@),
        },
{
    let count = chars_of(label).len();
    if is_blank(label) || count > 100 {
        let mut m = path.to_owned();
        push_str(&mut m, " must be non-empty and at most 100 characters");
        return Err(m);
    }
    Ok(())
}

/// The pitches of `l` that `r` lacks.
pub open spec fn difference_spec(l: Seq<Option<Seq<char>>>, r: Seq<Option<Seq<char>>>) -> Seq<
    Option<Seq<char>>,
> {
    Seq::new(
        12,
        |i: int|
            if r[i] is None {
                l[i]
            } else {
                None
            },
    )
}

/// The pitches of `left` absent from `right`, with `left`'s labels.
pub fn difference(left: &PitchSet, right: &PitchSet) -> (r: PitchSet)
    requires
        left.wf(),
        right.wf(),
    ensures
        r.wf(),
        r@ == difference_spec(left@, right@),
{
    let mut labels: Vec<Option<String>> = Vec::new();
    let mut i: usize = 0;
    while i < 12
        invariant
            i <= 12,
            left.labels@.len() == 12,
            right.labels@.len() == 12,
            labels@.len() == i,
            forall|q: int|
                0 <= q < i ==> label_views(labels@)[q] == difference_spec(left@, right@)[q],
        decreases 12 - i,
    {
        let ghost before = labels@;
        match &right.labels[i] {
            Some(_) => labels.push(None),
            None => match &left.labels[i] {
                Some(l) => labels.push(Some(l.clone())),
                None => labels.push(None),
            },
        }
        proof {
            let lv = label_views(left.labels@);
            let rv = label_views(right.labels@);
            assert(rv[i as int] is None <==> right.labels@[i as int] is None);
            assert(lv[i as int] == match left.labels@[i as int] {
                Some(s) => Some(s@),
                None => None,
            });
            assert(left@ == lv);
            assert(right@ == rv);
            assert(label_views(labels@)[i as int] == match labels@[i as int] {
                Some(s) => Some(s@),
                None => None,
            });
            assert(label_views(labels@)[i as int] == difference_spec(left@, right@)[i as int]);
            assert forall|q: int| 0 <= q < i + 1 implies label_views(labels@)[q]
                == difference_spec(left@, right@)[q] by {
                if q < i {
                    assert(labels@[q] == before[q]);
                    assert(label_views(before)[q] == difference_spec(left@, right@)[q]);
                }
            }
        }
        i = i + 1;
    }
    assert(label_views(labels@) =~= difference_spec(left@, right@));
    PitchSet { labels }
}

/// Whether two pitch sets hold the same classes with the same labels.
pub fn same_pitches(a: &PitchSet, b: &PitchSet) -> (r: bool)
    requires
        a.wf(),
        b.wf(),
    ensures
        r == (a@ == b@),
{
    let mut i: usize = 0;
    while i < 12
        invariant
            i <= 12,
            a.labels@.len() == 12,
            b.labels@.len() == 12,
            forall|q: int| 0 <= q < i ==> a@[q] == b@[q],
        decreases 12 - i,
    {
        let same = match (&a.labels[i], &b.labels[i]) {
            (Some(x), Some(y)) => str_eq(x.as_str(), y.as_str()),
            (None, None) => true,
            _ => false,
        };
        if !same {
            proof {
                assert(a@[i as int] != b@[i as int]);
            }
            return false;
        }
        i = i + 1;
    }
    assert(a@ =~= b@);
    true
}

/// How many pitch classes a set holds.
pub fn count_pitches(a: &PitchSet) -> (r: usize)
    requires
        a.wf(),
    ensures
        r == pitch_count(a@),
{
    let mut n: usize = 0;
    let mut i: usize = 0;
    assert(a@.subrange(0, 0) =~= Seq::<Option<Seq<char>>>::empty());
    while i < 12
        invariant
            i <= 12,
            n <= i,
            a.labels@.len() == 12,
            n == pitch_count(a@.subrange(0, i as int)),
        decreases 12 - i,
    {
        if a.labels[i].is_some() {
            n = n + 1;
        }
        proof {
            assert(a@.subrange(0, i + 1).drop_last() =~= a@.subrange(0, i as int));
        }
        i = i + 1;
    }
    assert(a@.subrange(0, 12) =~= a@);
    n
}

/// The pitches both sets hold, scanning from class `i` upward: a class held
/// by both under different labels is refused.
pub open spec fn shared_scan(
    l: Seq<Option<Seq<char>>>,
    r: Seq<Option<Seq<char>>>,
    i: nat,
    acc: Seq<Option<Seq<char>>>,
) -> Result<Seq<Option<Seq<char>>>, Seq<char>>
    decreases 12 - i,
{
    if i >= 12 {
        Ok(acc)
    } else if l[i as int] is Some && r[i as int] is Some {
        if l[i as int] != r[i as int] {
            Err(
                "Pitch class "@ + decimal(i)
                    + " has conflicting labels in the supplied pitch sets"@,
            )
        } else {
            shared_scan(l, r, i + 1, acc.update(i as int, l[i as int]))
        }
    } else {
        shared_scan(l, r, i + 1, acc)
    }
}

fn shared(left: &PitchSet, right: &PitchSet) -> (r: Result<PitchSet, String>)
    requires
        left.wf(),
        right.wf(),
    ensures
        match r {
            Ok(p) => p.wf() && shared_scan(left@, right@, 0, no_pitches()) == Ok::<
                Seq<Option<Seq<char>>>,
                Seq<char>,
            >(p@),
            Err(e) => shared_scan(left@, right@, 0, no_pitches()) == Err::<
                Seq<Option<Seq<char>>>,
                Seq<char>,
            >(e@),
        },
{
    let mut labels: Vec<Option<String>> = Vec::new();
    let mut k: usize = 0;
    while k < 12
        invariant
            k <= 12,
            labels@.len() == k,
            forall|q: int| 0 <= q < k ==> (#[trigger] labels@[q]) is None,
        decreases 12 - k,
    {
        labels.push(None);
        k = k + 1;
    }
    proof {
        assert(label_views(labels@) =~= no_pitches());
    }
    let mut i: usize = 0;
    while i < 12
        invariant
            i <= 12,
            left.labels@.len() == 12,
            right.labels@.len() == 12,
            labels@.len() == 12,
            shared_scan(left@, right@, 0, no_pitches()) == shared_scan(
                left@,
                right@,
                i as nat,
                label_views(labels@),
            ),
        decreases 12 - i,
    {
        let ghost acc = label_views(labels@);
        match (&left.labels[i], &right.labels[i]) {
            (Some(l), Some(r)) => {
                if !str_eq(l.as_str(), r.as_str()) {
                    let mut m = "Pitch class ".to_owned();
                    push_decimal(&mut m, i as u64);
                    push_str(&mut m, " has conflicting labels in the supplied pitch sets");
                    return Err(m);
                }
                labels.set(i, Some(l.clone()));
                proof {
                    assert(label_views(labels@) =~= acc.update(i as int, left@[i as int]));
                }
            },
            _ => {},
        }
        i = i + 1;
    }
    Ok(PitchSet { labels })
}

} // verus!

verus! {

/// A named field of the comparison's result, or the sentence saying it is
/// missing.
pub open spec fn result_field_spec(c: ComparisonRecord, name: Seq<char>) -> Result<
    JsonView,
    Seq<char>,
> {
    let found = match json_view(c.result) {
        JsonView::Object(entries) => view_get(entries, name),
        _ => None,
    };
    match found {
        Some(v) => Ok(v),
        None => Err("Woodshed result is missing "@ + name),
    }
}

fn result_field<'a>(record: &'a ComparisonRecord, name: &str) -> (r: Result<&'a JsonValue, String>)
    ensures
        match r {
            Ok(v) => result_field_spec(*record, name@) == Ok::<JsonView, Seq<char>>(json_view(*v)),
            Err(e) => result_field_spec(*record, name@) == Err::<JsonView, Seq<char>>(e@),
        },
{
    let found = match record.result.as_object() {
        Some(entries) => object_get(entries, name),
        None => None,
    };
    match found {
        Some(v) => Ok(v),
        None => {
            let mut m = "Woodshed result is missing ".to_owned();
            push_str(&mut m, name);
            Err(m)
        },
    }
}

/// A subject's disclosed pitch set, or the sentence saying it is missing.
pub open spec fn subject_pitches_spec(path: Seq<char>, disclosed: Seq<(String, JsonValue)>) -> Result<
    Seq<Option<Seq<char>>>,
    Seq<char>,
> {
    match view_get(crate::json::entry_views(disclosed), "pitch_set"@) {
        None => Err(path + " is missing"@),
        Some(v) => pitch_set_outcome(path, v),
    }
}

fn pitch_set(path: &str, disclosed: &Vec<(String, JsonValue)>) -> (r: Result<PitchSet, String>)
    ensures
        match r {
            Ok(p) => p.wf() && subject_pitches_spec(path@, disclosed@) == Ok::<
                Seq<Option<Seq<char>>>,
                Seq<char>,
            >(p@),
            Err(e) => subject_pitches_spec(path@, disclosed@) == Err::<
                Seq<Option<Seq<char>>>,
                Seq<char>,
            >(e@),
        },
{
    match object_get(disclosed, "pitch_set") {
        None => {
            let mut m = path.to_owned();
            push_str(&mut m, " is missing");
            Err(m)
        },
        Some(v) => parse_pitch_set(path, v),
    }
}

/// A result field read as a pitch set at path `result.<name>`.
pub open spec fn result_pitches_spec(c: ComparisonRecord, name: Seq<char>) -> Result<
    Seq<Option<Seq<char>>>,
    Seq<char>,
> {
    match result_field_spec(c, name) {
        Err(m) => Err(m),
        Ok(v) => pitch_set_outcome("result."@ + name, v),
    }
}

fn result_pitch_set(record: &ComparisonRecord, name: &str) -> (r: Result<PitchSet, String>)
    ensures
        match r {
            Ok(p) => p.wf() && result_pitches_spec(*record, name@) == Ok::<
                Seq<Option<Seq<char>>>,
                Seq<char>,
            >(p@),
            Err(e) => result_pitches_spec(*record, name@) == Err::<
                Seq<Option<Seq<char>>>,
                Seq<char>,
            >(e@),
        },
{
    let value = match result_field(record, name) {
        Err(m) => return Err(m),
        Ok(v) => v,
    };
    let mut path = "result.".to_owned();
    push_str(&mut path, name);
    parse_pitch_set(path.as_str(), value)
}

/// One disclosed pitch read as a one-element pitch set.
pub open spec fn single_pitch_spec(path: Seq<char>, v: JsonView) -> Result<
    Seq<Option<Seq<char>>>,
    Seq<char>,
> {
    pitch_set_outcome(path, JsonView::Array(seq![v]))
}

fn single_pitch(path: &str, value: &JsonValue) -> (r: Result<PitchSet, String>)
    ensures
        match r {
            Ok(p) => p.wf() && single_pitch_spec(path@, json_view(*value)) == Ok::<
                Seq<Option<Seq<char>>>,
                Seq<char>,
            >(p@),
            Err(e) => single_pitch_spec(path@, json_view(*value)) == Err::<
                Seq<Option<Seq<char>>>,
                Seq<char>,
            >(e@),
        },
{
    let mut items: Vec<JsonValue> = Vec::new();
    items.push(value.clone());
    let array = JsonValue::Array(items);
    proof {
        lemma_json_views(items@);
        assert(json_views(items@) =~= seq![json_view(*value)]);
    }
    parse_pitch_set(path, &array)
}

/// Whether a reported singleton motion agrees with the directional
/// differences: absent, it does; present, there must be exactly one pitch on
/// each side and its `from` and `to` must be exactly those pitches.
pub open spec fn motion_check(
    c: ComparisonRecord,
    left_only: Seq<Option<Seq<char>>>,
    right_only: Seq<Option<Seq<char>>>,
) -> Result<(), Seq<char>> {
    let motion = match json_view(c.result) {
        JsonView::Object(entries) => view_get(entries, "singleton_motion"@),
        _ => None,
    };
    match motion {
        None => Ok(()),
        Some(m) => if pitch_count(left_only) != 1 || pitch_count(right_only) != 1 {
            Err("singleton_motion requires one left_only and one right_only pitch"@)
        } else {
            match m {
                JsonView::Object(me) => match view_get(me, "from"@) {
                    None => Err("singleton_motion.from is missing"@),
                    Some(f) => match single_pitch_spec("result.singleton_motion.from"@, f) {
                        Err(x) => Err(x),
                        Ok(from) => match view_get(me, "to"@) {
                            None => Err("singleton_motion.to is missing"@),
                            Some(t) => match single_pitch_spec("result.singleton_motion.to"@, t) {
                                Err(x) => Err(x),
                                Ok(to) => if from != left_only || to != right_only {
                                    Err(
                                        "singleton_motion disagrees with the disclosed directional differences"@,
                                    )
                                } else {
                                    Ok(())
                                },
                            },
                        },
                    },
                },
                _ => Err("singleton_motion must be an object"@),
            }
        },
    }
}

fn validate_singleton_motion(
    record: &ComparisonRecord,
    left_only: &PitchSet,
    right_only: &PitchSet,
) -> (r: Result<(), String>)
    requires
        left_only.wf(),
        right_only.wf(),
    ensures
        match r {
            Ok(()) => motion_check(*record, left_only@, right_only@) is Ok,
            Err(e) => motion_check(*record, left_only@, right_only@) == Err::<(), Seq<char>>(e@),
        },
{
    let motion = match record.result.as_object() {
        Some(entries) => object_get(entries, "singleton_motion"),
        None => None,
    };
    let motion = match motion {
        None => return Ok(()),
        Some(m) => m,
    };
    if count_pitches(left_only) != 1 || count_pitches(right_only) != 1 {
        return Err("singleton_motion requires one left_only and one right_only pitch".to_owned());
    }
    let entries = match motion.as_object() {
        None => return Err("singleton_motion must be an object".to_owned()),
        Some(e) => e,
    };
    let from_value = match object_get(entries, "from") {
        None => return Err("singleton_motion.from is missing".to_owned()),
        Some(v) => v,
    };
    let from = match single_pitch("result.singleton_motion.from", from_value) {
        Err(m) => return Err(m),
        Ok(p) => p,
    };
    let to_value = match object_get(entries, "to") {
        None => return Err("singleton_motion.to is missing".to_owned()),
        Some(v) => v,
    };
    let to = match single_pitch("result.singleton_motion.to", to_value) {
        Err(m) => return Err(m),
        Ok(p) => p,
    };
    if !same_pitches(&from, left_only) || !same_pitches(&to, right_only) {
        return Err(
            "singleton_motion disagrees with the disclosed directional differences".to_owned(),
        );
    }
    Ok(())
}

} // verus!

verus! {

/// Why a comparison record is not a self-consistent Woodshed disclosure, if
/// it is not, in the order the checks run.
pub open spec fn woodshed_check(c: ComparisonRecord) -> Result<(), Seq<char>> {
    if c.source.authority@ != "woodshed"@ || c.source.domain@ != "music.practice"@
        || c.source.resource@ != "set:musical-comparison"@ {
        Err("Disclosure does not name the supported Woodshed practice source"@)
    } else if c.method.id@ != "keyed-pitch-set-singleton"@ || c.method.version != 1 {
        Err("Disclosure does not use the supported Woodshed comparison method"@)
    } else {
        match result_field_spec(c, "status"@) {
            Err(m) => Err(m),
            Ok(status) => if status != JsonView::Str("applicable"@) {
                Err("Woodshed comparison is not an applicable result"@)
            } else {
                match result_field_spec(c, "version"@) {
                    Err(m) => Err(m),
                    Ok(version) => if view_as_u64(version) != Some(1u64) {
                        Err("Woodshed comparison result version must be 1"@)
                    } else {
                        woodshed_sets_check(c)
                    },
                }
            },
        }
    }
}

/// The labels and pitch sets, once source, method and result header pass.
pub open spec fn woodshed_sets_check(c: ComparisonRecord) -> Result<(), Seq<char>> {
    match subject_label_check("left.label"@, c.left.label@) {
        Some(m) => Err(m),
        None => match subject_label_check("right.label"@, c.right.label@) {
            Some(m) => Err(m),
            None => match subject_pitches_spec("left.pitch_set"@, c.left.disclosed@) {
                Err(m) => Err(m),
                Ok(left) => match subject_pitches_spec("right.pitch_set"@, c.right.disclosed@) {
                    Err(m) => Err(m),
                    Ok(right) => woodshed_partition_check(c, left, right),
                },
            },
        },
    }
}

/// The reported partition against the literal pitch sets.
pub open spec fn woodshed_partition_check(
    c: ComparisonRecord,
    left: Seq<Option<Seq<char>>>,
    right: Seq<Option<Seq<char>>>,
) -> Result<(), Seq<char>> {
    match result_pitches_spec(c, "shared"@) {
        Err(m) => Err(m),
        Ok(shared) => match result_pitches_spec(c, "left_only"@) {
            Err(m) => Err(m),
            Ok(left_only) => match result_pitches_spec(c, "right_only"@) {
                Err(m) => Err(m),
                Ok(right_only) => match shared_scan(left, right, 0, no_pitches()) {
                    Err(m) => Err(m),
                    Ok(expected_shared) => {
                        let expected_left_only = difference_spec(left, right);
                        let expected_right_only = difference_spec(right, left);
                        if shared != expected_shared {
                            Err("Woodshed shared evidence disagrees with supplied pitch sets"@)
                        } else if left_only != expected_left_only {
                            Err("Woodshed left_only evidence disagrees with supplied pitch sets"@)
                        } else if right_only != expected_right_only {
                            Err("Woodshed right_only evidence disagrees with supplied pitch sets"@)
                        } else {
                            motion_check(c, expected_left_only, expected_right_only)
                        }
                    },
                },
            },
        },
    }
}

/// Check one parsed Woodshed comparison disclosure: the source and method it
/// names, the result header, both subject labels, and that the reported
/// partitions and singleton motion agree with the literal pitch sets. The
/// record is returned unchanged when it passes.
pub fn check_woodshed_comparison(record: ComparisonRecord) -> (r: Result<ComparisonRecord, String>)
    ensures
        match r {
            Ok(c) => woodshed_check(record) is Ok && c == record,
            Err(e) => woodshed_check(record) == Err::<(), Seq<char>>(e@),
        },
{
    if !str_eq(record.source.authority.as_str(), "woodshed") || !str_eq(
        record.source.domain.as_str(),
        "music.practice",
    ) || !str_eq(record.source.resource.as_str(), "set:musical-comparison") {
        return Err("Disclosure does not name the supported Woodshed practice source".to_owned());
    }
    if !str_eq(record.method.id.as_str(), "keyed-pitch-set-singleton") || record.method.version
        != 1 {
        return Err("Disclosure does not use the supported Woodshed comparison method".to_owned());
    }
    match result_field(&record, "status") {
        Err(m) => return Err(m),
        Ok(status) => {
            let applicable = match status.as_str() {
                Some(s) => str_eq(s, "applicable"),
                None => false,
            };
            if !applicable {
                return Err("Woodshed comparison is not an applicable result".to_owned());
            }
        },
    }
    match result_field(&record, "version") {
        Err(m) => return Err(m),
        Ok(version) => {
            let one = match version.as_u64() {
                Some(v) => v == 1,
                None => false,
            };
            if !one {
                return Err("Woodshed comparison result version must be 1".to_owned());
            }
        },
    }
    match validate_subject_label("left.label", record.left.label.as_str()) {
        Err(m) => return Err(m),
        Ok(()) => {},
    }
    match validate_subject_label("right.label", record.right.label.as_str()) {
        Err(m) => return Err(m),
        Ok(()) => {},
    }
    let left = match pitch_set("left.pitch_set", &record.left.disclosed) {
        Err(m) => return Err(m),
        Ok(p) => p,
    };
    let right = match pitch_set("right.pitch_set", &record.right.disclosed) {
        Err(m) => return Err(m),
        Ok(p) => p,
    };
    let reported_shared = match result_pitch_set(&record, "shared") {
        Err(m) => return Err(m),
        Ok(p) => p,
    };
    let reported_left_only = match result_pitch_set(&record, "left_only") {
        Err(m) => return Err(m),
        Ok(p) => p,
    };
    let reported_right_only = match result_pitch_set(&record, "right_only") {
        Err(m) => return Err(m),
        Ok(p) => p,
    };
    let expected_shared = match shared(&left, &right) {
        Err(m) => return Err(m),
        Ok(p) => p,
    };
    let expected_left_only = difference(&left, &right);
    let expected_right_only = difference(&right, &left);
    if !same_pitches(&reported_shared, &expected_shared) {
        return Err("Woodshed shared evidence disagrees with supplied pitch sets".to_owned());
    }
    if !same_pitches(&reported_left_only, &expected_left_only) {
        return Err("Woodshed left_only evidence disagrees with supplied pitch sets".to_owned());
    }
    if !same_pitches(&reported_right_only, &expected_right_only) {
        return Err("Woodshed right_only evidence disagrees with supplied pitch sets".to_owned());
    }
    match validate_singleton_motion(&record, &expected_left_only, &expected_right_only) {
        Err(m) => return Err(m),
        Ok(()) => {},
    }
    Ok(record)
}

proof fn lemma_pitch_scan_len(
    path: Seq<char>,
    items: Seq<JsonView>,
    i: nat,
    acc: Seq<Option<Seq<char>>>,
)
    requires
        acc.len() == 12,
    ensures
        pitch_scan(path, items, i, acc) is Ok ==> pitch_scan(path, items, i, acc)->Ok_0.len()
            == 12,
    decreases items.len() - i,
{
    if i < items.len() {
        match pitch_item(path, items[i as int], i, acc) {
            Err(_) => {},
            Ok(p) => {
                assert(p.0 < 12);
                lemma_pitch_scan_len(path, items, i + 1, acc.update(p.0 as int, Some(p.1)));
            },
        }
    }
}

proof fn lemma_pitch_set_len(path: Seq<char>, v: JsonView)
    ensures
        pitch_set_outcome(path, v) is Ok ==> pitch_set_outcome(path, v)->Ok_0.len() == 12,
{
    if let JsonView::Array(items) = v {
        lemma_pitch_scan_len(path, items, 0, no_pitches());
    }
}

proof fn lemma_shared_scan(
    l: Seq<Option<Seq<char>>>,
    r: Seq<Option<Seq<char>>>,
    i: nat,
    acc: Seq<Option<Seq<char>>>,
)
    requires
        i <= 12,
        acc.len() == 12,
        forall|j: int| i <= j < 12 ==> acc[j] is None,
    ensures
        shared_scan(l, r, i, acc) is Ok ==> ({
            let s = shared_scan(l, r, i, acc)->Ok_0;
            &&& s.len() == 12
            &&& forall|j: int| 0 <= j < i ==> s[j] == acc[j]
            &&& forall|j: int|
                i <= j < 12 ==> s[j] == (if l[j] is Some && r[j] is Some {
                    l[j]
                } else {
                    None
                })
            &&& forall|j: int| i <= j < 12 && l[j] is Some && r[j] is Some ==> l[j] == r[j]
        }),
    decreases 12 - i,
{
    if i < 12 {
        if l[i as int] is Some && r[i as int] is Some {
            if l[i as int] == r[i as int] {
                lemma_shared_scan(l, r, i + 1, acc.update(i as int, l[i as int]));
            }
        } else {
            lemma_shared_scan(l, r, i + 1, acc);
        }
    }
}

/// An accepted Woodshed disclosure is consistent with its literal pitch
/// sets: both subjects' pitch sets and the three reported partitions are
/// readable, the two subjects agree on the label of every pitch class they
/// share, `shared` is exactly the classes both hold, `left_only` exactly the
/// classes only the left holds, and `right_only` exactly the classes only
/// the right holds, each with its subject's label.
pub proof fn lemma_accepted_partition_matches_pitch_sets(c: ComparisonRecord)
    requires
        woodshed_check(c) is Ok,
    ensures
        subject_pitches_spec("left.pitch_set"@, c.left.disclosed@) is Ok,
        subject_pitches_spec("right.pitch_set"@, c.right.disclosed@) is Ok,
        result_pitches_spec(c, "shared"@) is Ok,
        result_pitches_spec(c, "left_only"@) is Ok,
        result_pitches_spec(c, "right_only"@) is Ok,
        ({
            let l = subject_pitches_spec("left.pitch_set"@, c.left.disclosed@)->Ok_0;
            let r = subject_pitches_spec("right.pitch_set"@, c.right.disclosed@)->Ok_0;
            let s = result_pitches_spec(c, "shared"@)->Ok_0;
            let lo = result_pitches_spec(c, "left_only"@)->Ok_0;
            let ro = result_pitches_spec(c, "right_only"@)->Ok_0;
            &&& l.len() == 12 && r.len() == 12
            &&& s.len() == 12 && lo.len() == 12 && ro.len() == 12
            &&& forall|i: int| 0 <= i < 12 && l[i] is Some && r[i] is Some ==> l[i] == r[i]
            &&& forall|i: int|
                0 <= i < 12 ==> s[i] == (if l[i] is Some && r[i] is Some {
                    l[i]
                } else {
                    None
                })
            &&& forall|i: int|
                0 <= i < 12 ==> lo[i] == (if r[i] is None {
                    l[i]
                } else {
                    None
                })
            &&& forall|i: int|
                0 <= i < 12 ==> ro[i] == (if l[i] is None {
                    r[i]
                } else {
                    None
                })
        }),
{
    let lv = view_get(crate::json::entry_views(c.left.disclosed@), "pitch_set"@);
    let rv = view_get(crate::json::entry_views(c.right.disclosed@), "pitch_set"@);
    if let Some(v) = lv {
        lemma_pitch_set_len("left.pitch_set"@, v);
    }
    if let Some(v) = rv {
        lemma_pitch_set_len("right.pitch_set"@, v);
    }
    let l = subject_pitches_spec("left.pitch_set"@, c.left.disclosed@)->Ok_0;
    let r = subject_pitches_spec("right.pitch_set"@, c.right.disclosed@)->Ok_0;
    assert(woodshed_sets_check(c) is Ok);
    assert(woodshed_partition_check(c, l, r) is Ok);
    assert forall|j: int| 0 <= j < 12 implies #[trigger] no_pitches()[j] is None by {}
    lemma_shared_scan(l, r, 0, no_pitches());
}

} // verus!
