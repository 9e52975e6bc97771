//! A JSON value as the practice disclosure carries it, with its mathematical
//! view and the canonical text a saved workspace compares.
//!
//! Objects hold their entries in the order they were written; their view is
//! the map those writes build, keys ascending and a later write to the same
//! key replacing the earlier one, exactly as `serde_json`'s ordered map does.

use vstd::prelude::*;

use crate::text::{chars_of, compare_chars, lemma_seq_lt_trichotomy, push_char, push_str, seq_lt};
use crate::hexcode::hex_char;

verus! {

/// A JSON number as `serde_json` keeps it.
///
/// A float is held by the text `serde_json` renders for it, which is all that
/// canonical output and the disclosure checks read of it.
#[derive(Debug, PartialEq)]
pub enum JsonNumber {
    PosInt(u64),
    NegInt(i64),
    Float(String),
}

/// A JSON document.
#[derive(Debug, PartialEq)]
pub enum JsonValue {
    Null,
    Bool(bool),
    Number(JsonNumber),
    String(String),
    Array(Vec<JsonValue>),
    Object(Vec<(String, JsonValue)>),
}

/// The mathematical number a [`JsonNumber`] stands for.
pub enum NumberView {
    PosInt(u64),
    NegInt(i64),
    Float(Seq<char>),
}

/// The mathematical value a [`JsonValue`] stands for: objects are sorted,
/// duplicate-free entry lists.
pub enum JsonView {
    Null,
    Bool(bool),
    Number(NumberView),
    Str(Seq<char>),
    Array(Seq<JsonView>),
    Object(Seq<(Seq<char>, JsonView)>),
}

pub open spec fn number_view(n: JsonNumber) -> NumberView {
    match n {
        JsonNumber::PosInt(u) => NumberView::PosInt(u),
        JsonNumber::NegInt(i) => NumberView::NegInt(i),
        JsonNumber::Float(t) => NumberView::Float(t@),
    }
}

/// The first position in `s` whose key does not sort before `k`.
pub open spec fn insert_pos(s: Seq<(Seq<char>, JsonView)>, k: Seq<char>) -> nat
    decreases s.len(),
{
    if s.len() == 0 {
        0
    } else if seq_lt(s[0].0, k) {
        1 + insert_pos(s.drop_first(), k)
    } else {
        0
    }
}

/// Write `k: v` into an entry list: replace the entry for `k`, or place it
/// before the first key that sorts after it.
pub open spec fn insert_entry(
    s: Seq<(Seq<char>, JsonView)>,
    k: Seq<char>,
    v: JsonView,
) -> Seq<(Seq<char>, JsonView)> {
    let p = insert_pos(s, k) as int;
    if p < s.len() && s[p].0 == k {
        s.update(p, (k, v))
    } else {
        s.insert(p, (k, v))
    }
}

pub open spec fn json_view(v: JsonValue) -> JsonView
    decreases v,
{
    match v {
        JsonValue::Null => JsonView::Null,
        JsonValue::Bool(b) => JsonView::Bool(b),
        JsonValue::Number(n) => JsonView::Number(number_view(n)),
        JsonValue::String(s) => JsonView::Str(s@),
        JsonValue::Array(items) => JsonView::Array(json_views(items@)),
        JsonValue::Object(entries) => JsonView::Object(entry_views(entries@)),
    }
}

pub open spec fn json_views(s: Seq<JsonValue>) -> Seq<JsonView>
    decreases s,
{
    if s.len() == 0 {
        Seq::empty()
    } else {
        json_views(s.subrange(0, s.len() - 1)).push(json_view(s[s.len() - 1]))
    }
}

/// The map a list of writes builds, later writes winning.
pub open spec fn entry_views(s: Seq<(String, JsonValue)>) -> Seq<(Seq<char>, JsonView)>
    decreases s,
{
    if s.len() == 0 {
        Seq::empty()
    } else {
        insert_entry(
            entry_views(s.subrange(0, s.len() - 1)),
            s[s.len() - 1].0@,
            json_view(s[s.len() - 1].1),
        )
    }
}

/// The decimal digits of `n`.
pub open spec fn decimal(n: nat) -> Seq<char>
    decreases n,
{
    if n < 10 {
        seq![digit_char(n)]
    } else {
        decimal(n / 10).push(digit_char(n % 10))
    }
}

pub open spec fn digit_char(d: nat) -> char {
    ((d % 10 + 48) as u8) as char
}

/// The text `serde_json` writes for a number.
pub open spec fn number_text(n: NumberView) -> Seq<char> {
    match n {
        NumberView::PosInt(u) => decimal(u as nat),
        NumberView::NegInt(i) => if i < 0 {
            seq!['-'] + decimal((-i) as nat)
        } else {
            decimal(i as nat)
        },
        NumberView::Float(t) => t,
    }
}

/// How `serde_json` writes one character inside a string: a quote and a
/// backslash are escaped with a backslash, the five control characters that
/// have a short escape use it, the other control characters below U+0020
/// become `\u00` and two lowercase hex digits, and everything else stands
/// as it is.
pub open spec fn json_escape(c: char) -> Seq<char> {
    if c == '"' {
        seq!['\\', '"']
    } else if c == '\\' {
        seq!['\\', '\\']
    } else if c == '\x08' {
        seq!['\\', 'b']
    } else if c == '\t' {
        seq!['\\', 't']
    } else if c == '\n' {
        seq!['\\', 'n']
    } else if c == '\x0c' {
        seq!['\\', 'f']
    } else if c == '\r' {
        seq!['\\', 'r']
    } else if (c as u32) < 0x20 {
        seq!['\\', 'u', '0', '0', hex_char((c as u32 / 16) as nat), hex_char((c as u32 % 16) as nat)]
    } else {
        seq![c]
    }
}

/// Each character of `s`, escaped.
pub open spec fn json_escaped(s: Seq<char>) -> Seq<char>
    decreases s.len(),
{
    if s.len() == 0 {
        Seq::empty()
    } else {
        json_escaped(s.drop_last()) + json_escape(s.last())
    }
}

/// What `serde_json::to_string` writes for a string: the string quoted, with
/// each character escaped.
pub open spec fn json_quoted(s: Seq<char>) -> Seq<char> {
    seq!['"'] + json_escaped(s) + seq!['"']
}

/// Canonical JSON: no whitespace, object keys ascending.
pub open spec fn canonical(v: JsonView) -> Seq<char>
    decreases v,
{
    match v {
        JsonView::Null => seq!['n', 'u', 'l', 'l'],
        JsonView::Bool(b) => if b {
            seq!['t', 'r', 'u', 'e']
        } else {
            seq!['f', 'a', 'l', 's', 'e']
        },
        JsonView::Number(n) => number_text(n),
        JsonView::Str(s) => json_quoted(s),
        JsonView::Array(items) => seq!['['] + canonical_list(items) + seq![']'],
        JsonView::Object(entries) => seq!['{'] + canonical_entries(entries) + seq!['}'],
    }
}

/// Items joined by commas.
pub open spec fn canonical_list(s: Seq<JsonView>) -> Seq<char>
    decreases s,
{
    if s.len() == 0 {
        Seq::empty()
    } else if s.len() == 1 {
        canonical(s[0])
    } else {
        canonical_list(s.subrange(0, s.len() - 1)) + seq![','] + canonical(s[s.len() - 1])
    }
}

/// `"key":value` pairs joined by commas.
pub open spec fn canonical_entries(s: Seq<(Seq<char>, JsonView)>) -> Seq<char>
    decreases s,
{
    if s.len() == 0 {
        Seq::empty()
    } else if s.len() == 1 {
        json_quoted(s[0].0) + seq![':'] + canonical(s[0].1)
    } else {
        canonical_entries(s.subrange(0, s.len() - 1)) + seq![','] + json_quoted(
            s[s.len() - 1].0,
        ) + seq![':'] + canonical(s[s.len() - 1].1)
    }
}

} // verus!

verus! {

/// `serde_json::to_string` on a string slice: the quoted, escaped string.
///
/// Serializing a `str` cannot fail (no map key and no custom `Serialize` is
/// involved), so the error arm is never taken.
#[verifier::external_body]
fn quote_json(s: &str) -> (r: String)
    ensures
        r@ == json_quoted(s@),
{
    match serde_json::to_string(s) {
        Ok(text) => text,
        Err(_) => String::new(),
    }
}

} // verus!

verus! {

/// Append the decimal digits of `n`.
pub fn push_decimal(out: &mut String, n: u64)
    ensures
        final(out)@ == old(out)@ + decimal(n as nat),
    decreases n,
{
    if n >= 10 {
        push_decimal(out, n / 10);
    }
    let d: u8 = (n % 10) as u8 + 48;
    push_char(out, d as char);
    proof {
        if n < 10 {
            assert(decimal(n as nat) =~= seq![digit_char(n as nat)]);
        }
    }
}

/// Append the text `serde_json` writes for `n`.
fn write_number(out: &mut String, n: &JsonNumber)
    ensures
        final(out)@ == old(out)@ + number_text(number_view(*n)),
{
    match n {
        JsonNumber::PosInt(u) => push_decimal(out, *u),
        JsonNumber::NegInt(i) => {
            if *i < 0 {
                push_char(out, '-');
                let magnitude: u64 = if *i == i64::MIN {
                    9223372036854775808u64
                } else {
                    (-*i) as u64
                };
                push_decimal(out, magnitude);
                proof {
                    assert(out@ =~= old(out)@ + (seq!['-'] + decimal((-*i) as nat)));
                }
            } else {
                push_decimal(out, *i as u64);
            }
        },
        JsonNumber::Float(t) => push_str(out, t.as_str()),
    }
}

} // verus!

verus! {

pub proof fn lemma_json_views(s: Seq<JsonValue>)
    ensures
        json_views(s).len() == s.len(),
        forall|i: int| 0 <= i < s.len() ==> #[trigger] json_views(s)[i] == json_view(s[i]),
    decreases s.len(),
{
    if s.len() > 0 {
        lemma_json_views(s.subrange(0, s.len() - 1));
    }
}

proof fn lemma_insert_pos_at(s: Seq<(Seq<char>, JsonView)>, k: Seq<char>, p: int)
    requires
        0 <= p <= s.len(),
        forall|q: int| 0 <= q < p ==> seq_lt(#[trigger] s[q].0, k),
        p == s.len() || !seq_lt(s[p].0, k),
    ensures
        insert_pos(s, k) == p,
    decreases p,
{
    if p > 0 {
        assert(seq_lt(s[0].0, k));
        let t = s.drop_first();
        assert forall|q: int| 0 <= q < p - 1 implies seq_lt(#[trigger] t[q].0, k) by {
            assert(seq_lt(s[q + 1].0, k));
        }
        lemma_insert_pos_at(t, k, p - 1);
    }
}

/// The entries named by `idx`, each with its key and value viewed.
pub open spec fn idx_entries(entries: Seq<(String, JsonValue)>, idx: Seq<usize>) -> Seq<
    (Seq<char>, JsonView),
> {
    Seq::new(
        idx.len(),
        |j: int| (entries[idx[j] as int].0@, json_view(entries[idx[j] as int].1)),
    )
}

/// The positions of an object's entries in ascending key order, each key
/// once, each naming the last write to that key.
fn sorted_indices(entries: &Vec<(String, JsonValue)>) -> (idx: Vec<usize>)
    ensures
        forall|j: int| 0 <= j < idx@.len() ==> (#[trigger] idx@[j]) < entries@.len(),
        idx_entries(entries@, idx@) == entry_views(entries@),
{
    let mut idx: Vec<usize> = Vec::new();
    let mut j: usize = 0;
    proof {
        assert(idx_entries(entries@, idx@) =~= entry_views(entries@.subrange(0, 0)));
    }
    while j < entries.len()
        invariant
            j <= entries@.len(),
            forall|q: int| 0 <= q < idx@.len() ==> (#[trigger] idx@[q]) < j,
            idx_entries(entries@, idx@) == entry_views(entries@.subrange(0, j as int)),
        decreases entries@.len() - j,
    {
        let ghost cur = idx_entries(entries@, idx@);
        let ghost k = entries@[j as int].0@;
        let ghost val = json_view(entries@[j as int].1);
        let kc = chars_of(entries[j].0.as_str());
        let mut p: usize = 0;
        let mut stop = false;
        while p < idx.len() && !stop
            invariant
                p <= idx@.len(),
                cur == idx_entries(entries@, idx@),
                forall|q: int| 0 <= q < idx@.len() ==> (#[trigger] idx@[q]) < j,
                j < entries@.len(),
                kc@ == k,
                k == entries@[j as int].0@,
                forall|q: int| 0 <= q < p ==> seq_lt(#[trigger] cur[q].0, k),
                stop ==> p < idx@.len() && !seq_lt(cur[p as int].0, k),
            decreases idx@.len() - p + (if stop { 0int } else { 1int }),
        {
            let other = chars_of(entries[idx[p]].0.as_str());
            if compare_chars(&other, &kc) < 0 {
                p = p + 1;
            } else {
                stop = true;
            }
        }
        proof {
            lemma_insert_pos_at(cur, k, p as int);
        }
        let mut same = false;
        if p < idx.len() {
            let other = chars_of(entries[idx[p]].0.as_str());
            same = compare_chars(&other, &kc) == 0;
        }
        if same {
            idx.set(p, j);
        } else {
            idx.insert(p, j);
        }
        proof {
            let s = entries@.subrange(0, j as int + 1);
            assert(s.subrange(0, s.len() - 1) =~= entries@.subrange(0, j as int));
            assert(entry_views(s) == insert_entry(cur, k, val));
            assert(idx_entries(entries@, idx@) =~= insert_entry(cur, k, val));
        }
        j = j + 1;
    }
    proof {
        assert(entries@.subrange(0, entries@.len() as int) =~= entries@);
    }
    idx
}

} // verus!

verus! {

/// Append the canonical JSON text of `v`: no whitespace, object keys
/// ascending, each key once with its last written value.
pub fn write_canonical_json(out: &mut String, v: &JsonValue)
    ensures
        final(out)@ == old(out)@ + canonical(json_view(*v)),
    decreases *v,
{
    match v {
        JsonValue::Null => {
            push_str(out, "null");
            proof {
                reveal_strlit("null");
            }
        },
        JsonValue::Bool(b) => {
            if *b {
                push_str(out, "true");
                proof {
                    reveal_strlit("true");
                }
            } else {
                push_str(out, "false");
                proof {
                    reveal_strlit("false");
                }
            }
        },
        JsonValue::Number(n) => write_number(out, n),
        JsonValue::String(s) => {
            let quoted = quote_json(s.as_str());
            push_str(out, quoted.as_str());
        },
        JsonValue::Array(items) => {
            let ghost start = out@;
            let ghost views = json_views(items@);
            proof {
                lemma_json_views(items@);
                assert(views.subrange(0, 0) =~= Seq::<JsonView>::empty());
            }
            push_char(out, '[');
            let mut i: usize = 0;
            while i < items.len()
                invariant
                    i <= items@.len(),
                    views == json_views(items@),
                    *v == JsonValue::Array(*items),
                    views.len() == items@.len(),
                    forall|q: int| 0 <= q < items@.len() ==> #[trigger] views[q] == json_view(items@[q]),
                    out@ == start + seq!['['] + canonical_list(views.subrange(0, i as int)),
                decreases items@.len() - i,
            {
                let ghost before = out@;
                if i > 0 {
                    push_char(out, ',');
                }
                proof {
                    assert(decreases_to!(*v => (*v)->Array_0));
                    assert(decreases_to!(*v => items@[i as int]));
                }
                write_canonical_json(out, &items[i]);
                proof {
                    let t = views.subrange(0, i as int + 1);
                    assert(t.subrange(0, t.len() - 1) =~= views.subrange(0, i as int));
                    assert(t[t.len() - 1] == json_view(items@[i as int]));
                    if i == 0 {
                        assert(out@ =~= start + seq!['['] + canonical_list(t));
                    } else {
                        assert(out@ =~= start + seq!['['] + canonical_list(t));
                    }
                }
                i = i + 1;
            }
            push_char(out, ']');
            proof {
                assert(views.subrange(0, views.len() as int) =~= views);
                assert(out@ =~= start + canonical(json_view(*v)));
            }
        },
        JsonValue::Object(entries) => {
            let ghost start = out@;
            let idx = sorted_indices(entries);
            let ghost views = idx_entries(entries@, idx@);
            proof {
                assert(views.subrange(0, 0) =~= Seq::<(Seq<char>, JsonView)>::empty());
            }
            push_char(out, '{');
            let mut i: usize = 0;
            while i < idx.len()
                invariant
                    i <= idx@.len(),
                    views == idx_entries(entries@, idx@),
                    *v == JsonValue::Object(*entries),
                    forall|q: int| 0 <= q < idx@.len() ==> (#[trigger] idx@[q]) < entries@.len(),
                    out@ == start + seq!['{'] + canonical_entries(views.subrange(0, i as int)),
                decreases idx@.len() - i,
            {
                if i > 0 {
                    push_char(out, ',');
                }
                let e = idx[i];
                let quoted = quote_json(entries[e].0.as_str());
                push_str(out, quoted.as_str());
                push_char(out, ':');
                proof {
                    assert(decreases_to!(*v => (*v)->Object_0));
                    assert(decreases_to!(*v => entries@[e as int].1));
                }
                write_canonical_json(out, &entries[e].1);
                proof {
                    let t = views.subrange(0, i as int + 1);
                    assert(t.subrange(0, t.len() - 1) =~= views.subrange(0, i as int));
                    assert(out@ =~= start + seq!['{'] + canonical_entries(t));
                }
                i = i + 1;
            }
            push_char(out, '}');
            proof {
                assert(views.subrange(0, views.len() as int) =~= views);
                assert(out@ =~= start + canonical(json_view(*v)));
            }
        },
    }
}

} // verus!

verus! {

impl Clone for JsonNumber {
    /// A copy standing for the same number.
    fn clone(&self) -> (r: Self)
        ensures
            number_view(r) == number_view(*self),
    {
        match self {
            JsonNumber::PosInt(u) => JsonNumber::PosInt(*u),
            JsonNumber::NegInt(i) => JsonNumber::NegInt(*i),
            JsonNumber::Float(t) => JsonNumber::Float(t.clone()),
        }
    }
}

impl Clone for JsonValue {
    /// A deep copy standing for the same document.
    fn clone(&self) -> (r: Self)
        ensures
            json_view(r) == json_view(*self),
        decreases *self,
    {
        match self {
            JsonValue::Null => JsonValue::Null,
            JsonValue::Bool(b) => JsonValue::Bool(*b),
            JsonValue::Number(n) => JsonValue::Number(n.clone()),
            JsonValue::String(s) => JsonValue::String(s.clone()),
            JsonValue::Array(items) => {
                let mut out: Vec<JsonValue> = Vec::new();
                let mut i: usize = 0;
                proof {
                    assert(out@ =~= items@.subrange(0, 0));
                }
                while i < items.len()
                    invariant
                        i <= items@.len(),
                        *self == JsonValue::Array(*items),
                        json_views(out@) == json_views(items@.subrange(0, i as int)),
                    decreases items@.len() - i,
                {
                    proof {
                        assert(decreases_to!(*self => (*self)->Array_0));
                        assert(decreases_to!(*self => items@[i as int]));
                    }
                    let c = items[i].clone();
                    let ghost before = out@;
                    out.push(c);
                    proof {
                        assert(out@.subrange(0, out@.len() - 1) =~= before);
                        let t = items@.subrange(0, i as int + 1);
                        assert(t.subrange(0, t.len() - 1) =~= items@.subrange(0, i as int));
                    }
                    i = i + 1;
                }
                proof {
                    assert(items@.subrange(0, items@.len() as int) =~= items@);
                }
                JsonValue::Array(out)
            },
            JsonValue::Object(entries) => {
                let mut out: Vec<(String, JsonValue)> = Vec::new();
                let mut i: usize = 0;
                proof {
                    assert(out@ =~= entries@.subrange(0, 0));
                }
                while i < entries.len()
                    invariant
                        i <= entries@.len(),
                        *self == JsonValue::Object(*entries),
                        entry_views(out@) == entry_views(entries@.subrange(0, i as int)),
                    decreases entries@.len() - i,
                {
                    proof {
                        assert(decreases_to!(*self => (*self)->Object_0));
                        assert(decreases_to!(*self => entries@[i as int].1));
                    }
                    let value = entries[i].1.clone();
                    let key = entries[i].0.clone();
                    let ghost before = out@;
                    out.push((key, value));
                    proof {
                        assert(out@.subrange(0, out@.len() - 1) =~= before);
                        let t = entries@.subrange(0, i as int + 1);
                        assert(t.subrange(0, t.len() - 1) =~= entries@.subrange(0, i as int));
                    }
                    i = i + 1;
                }
                proof {
                    assert(entries@.subrange(0, entries@.len() as int) =~= entries@);
                }
                JsonValue::Object(out)
            },
        }
    }
}

} // verus!

verus! {

/// The map built by writing these viewed entries in order.
pub open spec fn build_object(s: Seq<(Seq<char>, JsonView)>) -> Seq<(Seq<char>, JsonView)>
    decreases s.len(),
{
    if s.len() == 0 {
        Seq::empty()
    } else {
        insert_entry(build_object(s.drop_last()), s.last().0, s.last().1)
    }
}

/// Each entry with its key and value viewed.
pub open spec fn pair_views(s: Seq<(String, JsonValue)>) -> Seq<(Seq<char>, JsonView)> {
    Seq::new(s.len(), |i: int| (s[i].0@, json_view(s[i].1)))
}

/// An object's view is the map its entries build.
pub proof fn lemma_entry_views_build(s: Seq<(String, JsonValue)>)
    ensures
        entry_views(s) == build_object(pair_views(s)),
    decreases s.len(),
{
    if s.len() > 0 {
        let t = s.subrange(0, s.len() - 1);
        lemma_entry_views_build(t);
        assert(pair_views(s).drop_last() =~= pair_views(t));
    }
}

} // verus!

verus! {

/// The value an object's view holds under `k`: its first entry with that
/// key (views hold each key once).
pub open spec fn view_get(s: Seq<(Seq<char>, JsonView)>, k: Seq<char>) -> Option<JsonView>
    decreases s.len(),
{
    if s.len() == 0 {
        None
    } else if s[0].0 == k {
        Some(s[0].1)
    } else {
        view_get(s.drop_first(), k)
    }
}

proof fn lemma_view_get_at(s: Seq<(Seq<char>, JsonView)>, k: Seq<char>, i: int)
    requires
        0 <= i <= s.len(),
        forall|q: int| 0 <= q < i ==> (#[trigger] s[q]).0 != k,
    ensures
        i < s.len() && s[i].0 == k ==> view_get(s, k) == Some(s[i].1),
        i == s.len() ==> view_get(s, k) is None,
    decreases i,
{
    if i > 0 {
        let t = s.drop_first();
        assert forall|q: int| 0 <= q < i - 1 implies (#[trigger] t[q]).0 != k by {
            assert(s[q + 1].0 != k);
        }
        lemma_view_get_at(t, k, i - 1);
    }
}

proof fn lemma_insert_pos_below(s: Seq<(Seq<char>, JsonView)>, k: Seq<char>)
    ensures
        insert_pos(s, k) <= s.len(),
        forall|q: int| 0 <= q < insert_pos(s, k) ==> seq_lt(#[trigger] s[q].0, k),
    decreases s.len(),
{
    if s.len() > 0 && seq_lt(s[0].0, k) {
        let t = s.drop_first();
        lemma_insert_pos_below(t, k);
        assert forall|q: int| 0 <= q < insert_pos(s, k) implies seq_lt(#[trigger] s[q].0, k) by {
            if q > 0 {
                assert(s[q] == t[q - 1]);
            }
        }
    }
}

/// Looking a key up after writing it gives what was written; other keys are
/// unaffected.
pub proof fn lemma_insert_entry_get(
    s: Seq<(Seq<char>, JsonView)>,
    k: Seq<char>,
    v: JsonView,
    j: Seq<char>,
)
    ensures
        view_get(insert_entry(s, k, v), j) == if j == k {
            Some(v)
        } else {
            view_get(s, j)
        },
    decreases s.len(),
{
    let t = insert_entry(s, k, v);
    reveal_with_fuel(view_get, 2);
    if s.len() == 0 {
        assert(t =~= seq![(k, v)]);
        assert(t.drop_first() =~= Seq::<(Seq<char>, JsonView)>::empty());
    } else if seq_lt(s[0].0, k) {
        let rest = s.drop_first();
        lemma_insert_entry_get(rest, k, v, j);
        let pr = insert_pos(rest, k) as int;
        lemma_insert_pos_below(rest, k);
        assert(insert_pos(s, k) == pr + 1);
        if pr < rest.len() && rest[pr].0 == k {
            assert(s[pr + 1] == rest[pr]);
            assert(t == s.update(pr + 1, (k, v)));
            assert(insert_entry(rest, k, v) == rest.update(pr, (k, v)));
            assert(s.update(pr + 1, (k, v)) =~= seq![s[0]] + rest.update(pr, (k, v)));
        } else {
            if pr + 1 < s.len() {
                assert(s[pr + 1] == rest[pr]);
            }
            assert(t == s.insert(pr + 1, (k, v)));
            assert(insert_entry(rest, k, v) == rest.insert(pr, (k, v)));
            assert(s.insert(pr + 1, (k, v)) =~= seq![s[0]] + rest.insert(pr, (k, v)));
        }
        assert(t =~= seq![s[0]] + insert_entry(rest, k, v));
        assert(t.drop_first() =~= insert_entry(rest, k, v));
        assert(t[0] == s[0]);
        lemma_seq_lt_trichotomy(s[0].0, k);
    } else if s[0].0 == k {
        assert(t =~= s.update(0, (k, v)));
        assert(t.drop_first() =~= s.drop_first());
        assert(t[0] == (k, v));
    } else {
        assert(t =~= seq![(k, v)] + s);
        assert(t.drop_first() =~= s);
        assert(t[0] == (k, v));
    }
}

/// The last write to `k` among raw entries, viewed.
pub open spec fn last_write(s: Seq<(String, JsonValue)>, k: Seq<char>) -> Option<JsonView>
    decreases s.len(),
{
    if s.len() == 0 {
        None
    } else if s.last().0@ == k {
        Some(json_view(s.last().1))
    } else {
        last_write(s.drop_last(), k)
    }
}

/// An object's view holds, under each key, its last write.
pub proof fn lemma_view_get_last_write(s: Seq<(String, JsonValue)>, k: Seq<char>)
    ensures
        view_get(entry_views(s), k) == last_write(s, k),
    decreases s.len(),
{
    if s.len() > 0 {
        let p = s.subrange(0, s.len() - 1);
        assert(p =~= s.drop_last());
        lemma_view_get_last_write(p, k);
        lemma_insert_entry_get(entry_views(p), s.last().0@, json_view(s.last().1), k);
    }
}

/// The value an object holds under `key`: the last entry written for it.
pub fn object_get<'a>(entries: &'a Vec<(String, JsonValue)>, key: &str) -> (r: Option<
    &'a JsonValue,
>)
    ensures
        match r {
            Some(v) => view_get(entry_views(entries@), key@) == Some(json_view(*v)),
            None => view_get(entry_views(entries@), key@) is None,
        },
{
    proof {
        lemma_view_get_last_write(entries@, key@);
    }
    let k = chars_of(key);
    let mut i = entries.len();
    assert(entries@.subrange(0, i as int) =~= entries@);
    while i > 0
        invariant
            i <= entries@.len(),
            k@ == key@,
            last_write(entries@, key@) == last_write(entries@.subrange(0, i as int), key@),
            view_get(entry_views(entries@), key@) == last_write(entries@, key@),
        decreases i,
    {
        let c = chars_of(entries[i - 1].0.as_str());
        let ghost pre = entries@.subrange(0, i as int);
        assert(pre.last() == entries@[i - 1]);
        assert(pre.drop_last() =~= entries@.subrange(0, i - 1));
        if compare_chars(&c, &k) == 0 {
            proof {
                assert(pre.last().0@ == key@);
                assert(last_write(pre, key@) == Some(json_view(entries@[i - 1].1)));
            }
            return Some(&entries[i - 1].1);
        }
        i = i - 1;
    }
    None
}

/// `Value::as_u64`: a non-negative integer.
pub open spec fn view_as_u64(v: JsonView) -> Option<u64> {
    match v {
        JsonView::Number(NumberView::PosInt(u)) => Some(u),
        _ => None,
    }
}

impl JsonValue {
    /// The non-negative integer this is, if it is one.
    pub fn as_u64(&self) -> (r: Option<u64>)
        ensures
            r == view_as_u64(json_view(*self)),
    {
        match self {
            JsonValue::Number(JsonNumber::PosInt(u)) => Some(*u),
            _ => None,
        }
    }

    /// The string this is, if it is one.
    pub fn as_str(&self) -> (r: Option<&str>)
        ensures
            match json_view(*self) {
                JsonView::Str(s) => r matches Some(t) && t@ == s,
                _ => r is None,
            },
    {
        match self {
            JsonValue::String(s) => Some(s.as_str()),
            _ => None,
        }
    }

    /// The items of this array, if it is one.
    pub fn as_array(&self) -> (r: Option<&Vec<JsonValue>>)
        ensures
            match *self {
                JsonValue::Array(items) => r == Some(&items),
                _ => r is None,
            },
    {
        match self {
            JsonValue::Array(items) => Some(items),
            _ => None,
        }
    }

    /// The entries of this object, if it is one.
    pub fn as_object(&self) -> (r: Option<&Vec<(String, JsonValue)>>)
        ensures
            match *self {
                JsonValue::Object(entries) => r == Some(&entries),
                _ => r is None,
            },
    {
        match self {
            JsonValue::Object(entries) => Some(entries),
            _ => None,
        }
    }
}

} // verus!
