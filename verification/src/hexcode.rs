//! Lowercase hexadecimal text: node identifiers written and read back, and
//! fixed-width renderings of 64-bit values.

use vstd::prelude::*;

use crate::text::{chars_of, is_ws, push_char, trim, trim_chars};

verus! {

/// The lowercase hexadecimal digit for `d` (taken modulo 16).
pub open spec fn hex_char(d: nat) -> char {
    let d = d % 16;
    if d < 10 {
        ((d + 48) as u8) as char
    } else {
        ((d + 87) as u8) as char
    }
}

/// `n` in exactly `count` lowercase hex digits, most significant first,
/// zero-padded (higher digits are dropped when `n` needs more).
pub open spec fn hex_fixed(n: nat, count: nat) -> Seq<char>
    decreases count,
{
    if count == 0 {
        Seq::empty()
    } else {
        hex_fixed(n / 16, (count - 1) as nat).push(hex_char(n % 16))
    }
}

/// Sixteen to the power `count`: how many values `count` hex digits spell.
pub open spec fn hex_span(count: nat) -> nat
    decreases count,
{
    if count == 0 {
        1
    } else {
        16 * hex_span((count - 1) as nat)
    }
}

/// `count` hex digits are `count` characters.
pub proof fn lemma_hex_fixed_len(n: nat, count: nat)
    ensures
        hex_fixed(n, count).len() == count,
    decreases count,
{
    if count > 0 {
        lemma_hex_fixed_len(n / 16, (count - 1) as nat);
    }
}

proof fn lemma_hex_span_positive(count: nat)
    ensures
        hex_span(count) > 0,
    decreases count,
{
    if count > 0 {
        lemma_hex_span_positive((count - 1) as nat);
    }
}

proof fn lemma_hex_char_injective(a: nat, b: nat)
    requires
        a < 16,
        b < 16,
        hex_char(a) == hex_char(b),
    ensures
        a == b,
{
    assert(hex_char(a) as int == if a < 10 { a + 48 } else { a + 87 });
    assert(hex_char(b) as int == if b < 10 { b + 48 } else { b + 87 });
}

/// Fixed-width hex tells values apart up to its width: equal renderings
/// mean values equal modulo sixteen to the width.
pub proof fn lemma_hex_fixed_determines(a: nat, b: nat, count: nat)
    requires
        hex_fixed(a, count) == hex_fixed(b, count),
    ensures
        a % hex_span(count) == b % hex_span(count),
    decreases count,
{
    if count > 0 {
        let c1 = (count - 1) as nat;
        let pa = hex_fixed(a / 16, c1);
        let pb = hex_fixed(b / 16, c1);
        let full = hex_fixed(a, count);
        assert(full == pa.push(hex_char(a % 16)));
        assert(hex_fixed(b, count) == pb.push(hex_char(b % 16)));
        assert(pa =~= full.drop_last());
        assert(pb =~= full.drop_last());
        assert(full.last() == hex_char(a % 16));
        assert(full.last() == hex_char(b % 16));
        lemma_hex_char_injective(a % 16, b % 16);
        lemma_hex_fixed_determines(a / 16, b / 16, c1);
        lemma_hex_span_positive(c1);
        vstd::arithmetic::div_mod::lemma_mod_breakdown(a as int, 16, hex_span(c1) as int);
        vstd::arithmetic::div_mod::lemma_mod_breakdown(b as int, 16, hex_span(c1) as int);
    }
}

/// The two-digit lowercase hex of each byte, in order.
pub open spec fn hex_bytes(b: Seq<u8>) -> Seq<char>
    decreases b.len(),
{
    if b.len() == 0 {
        Seq::empty()
    } else {
        hex_bytes(b.drop_last()) + hex_fixed(b.last() as nat, 2)
    }
}

fn hex_digit(d: u64) -> (c: char)
    requires
        d < 16,
    ensures
        c == hex_char(d as nat),
{
    if d < 10 {
        let b: u8 = d as u8 + 48;
        b as char
    } else {
        let b: u8 = d as u8 + 87;
        b as char
    }
}

/// Append `n` as exactly `count` lowercase hex digits.
pub fn push_hex_fixed(out: &mut String, n: u64, count: u32)
    ensures
        final(out)@ == old(out)@ + hex_fixed(n as nat, count as nat),
    decreases count,
{
    if count > 0 {
        push_hex_fixed(out, n / 16, count - 1);
        let c = hex_digit(n % 16);
        push_char(out, c);
    }
}

} // verus!

verus! {

/// Whether `c` is an ASCII hexadecimal digit, either case.
pub open spec fn is_hex(c: char) -> bool {
    ('0' <= c && c <= '9') || ('a' <= c && c <= 'f') || ('A' <= c && c <= 'F')
}

/// The value of a hexadecimal digit.
pub open spec fn hex_val(c: char) -> nat {
    if '0' <= c && c <= '9' {
        (c as nat - 48) as nat
    } else if 'a' <= c && c <= 'f' {
        (c as nat - 87) as nat
    } else {
        (c as nat - 55) as nat
    }
}

/// A 32-byte node identifier written as 64 hex digits (surrounding
/// whitespace allowed): the bytes it spells, or `None`.
pub open spec fn node_id_of(text: Seq<char>) -> Option<Seq<u8>> {
    let t = trim(text);
    if t.len() == 64 && forall|i: int| 0 <= i < 64 ==> is_hex(#[trigger] t[i]) {
        Some(Seq::new(32, |i: int| (hex_val(t[2 * i]) * 16 + hex_val(t[2 * i + 1])) as u8))
    } else {
        None
    }
}

proof fn lemma_hex_fixed_two(x: nat)
    requires
        x < 256,
    ensures
        hex_fixed(x, 2).len() == 2,
        hex_fixed(x, 2)[0] == hex_char(x / 16),
        hex_fixed(x, 2)[1] == hex_char(x % 16),
{
    assert(hex_fixed(x / 16 / 16, 0).len() == 0);
    assert(hex_fixed(x / 16, 1) == hex_fixed(x / 16 / 16, 0).push(hex_char(x / 16 % 16)));
    assert(x / 16 % 16 == x / 16);
    assert(hex_fixed(x, 2) == hex_fixed(x / 16, 1).push(hex_char(x % 16)));
}

proof fn lemma_hex_bytes_shape(b: Seq<u8>)
    ensures
        hex_bytes(b).len() == 2 * b.len(),
        forall|i: int|
            0 <= i < b.len() ==> #[trigger] hex_bytes(b)[2 * i] == hex_char(b[i] as nat / 16),
        forall|i: int|
            0 <= i < b.len() ==> #[trigger] hex_bytes(b)[2 * i + 1] == hex_char(b[i] as nat % 16),
    decreases b.len(),
{
    if b.len() > 0 {
        let p = b.drop_last();
        lemma_hex_bytes_shape(p);
        let x = b.last() as nat;
        lemma_hex_fixed_two(x);
        let last = hex_fixed(x, 2);
        let h = hex_bytes(b);
        assert(h == hex_bytes(p) + last);
        assert forall|i: int| 0 <= i < b.len() implies #[trigger] h[2 * i] == hex_char(
            b[i] as nat / 16,
        ) by {
            if i < p.len() {
                assert(b[i] == p[i]);
                assert(hex_bytes(p)[2 * i] == hex_char(p[i] as nat / 16));
            } else {
                assert(h[2 * i] == last[0]);
            }
        }
        assert forall|i: int| 0 <= i < b.len() implies #[trigger] h[2 * i + 1] == hex_char(
            b[i] as nat % 16,
        ) by {
            if i < p.len() {
                assert(b[i] == p[i]);
                assert(hex_bytes(p)[2 * i + 1] == hex_char(p[i] as nat % 16));
            } else {
                assert(h[2 * i + 1] == last[1]);
            }
        }
    }
}

/// Each byte as two lowercase hex digits.
pub fn hex(bytes: &[u8; 32]) -> (r: String)
    ensures
        r@ == hex_bytes(bytes@),
{
    let mut out = String::new();
    let mut i: usize = 0;
    assert(bytes@.subrange(0, 0) =~= Seq::<u8>::empty());
    while i < 32
        invariant
            i <= 32,
            bytes@.len() == 32,
            out@ == hex_bytes(bytes@.subrange(0, i as int)),
        decreases 32 - i,
    {
        push_hex_fixed(&mut out, bytes[i] as u64, 2);
        proof {
            assert(bytes@.subrange(0, i + 1).drop_last() =~= bytes@.subrange(0, i as int));
        }
        i = i + 1;
    }
    assert(bytes@.subrange(0, 32) =~= bytes@);
    out
}

/// The first twelve hex digits of a node identifier, for labels.
pub fn short_hex(bytes: &[u8; 32]) -> (r: String)
    ensures
        r@ == hex_bytes(bytes@).subrange(0, 12),
{
    let full = hex(bytes);
    let v = chars_of(full.as_str());
    proof {
        lemma_hex_bytes_shape(bytes@);
    }
    let head = crate::text::sub_chars(&v, 0, 12);
    crate::text::string_from_chars(&head)
}

fn hex_value(c: char) -> (r: u8)
    requires
        is_hex(c),
    ensures
        r == hex_val(c),
{
    if '0' <= c && c <= '9' {
        (c as u32 - 48) as u8
    } else if 'a' <= c && c <= 'f' {
        (c as u32 - 87) as u8
    } else {
        (c as u32 - 55) as u8
    }
}

/// Read a node identifier written as 64 hex digits.
pub fn parse_node_id(value: &str) -> (r: Result<[u8; 32], ()>)
    ensures
        match r {
            Ok(node) => node_id_of(value@) == Some(node@),
            Err(()) => node_id_of(value@) is None,
        },
{
    let v = chars_of(value);
    let t = trim_chars(&v);
    if t.len() != 64 {
        return Err(());
    }
    let mut k: usize = 0;
    while k < 64
        invariant
            k <= 64,
            t@.len() == 64,
            t@ == trim(value@),
            forall|q: int| 0 <= q < k ==> is_hex(#[trigger] t@[q]),
        decreases 64 - k,
    {
        let c = t[k];
        if !(('0' <= c && c <= '9') || ('a' <= c && c <= 'f') || ('A' <= c && c <= 'F')) {
            proof {
                assert(!is_hex(t@[k as int]));
            }
            return Err(());
        }
        k = k + 1;
    }
    let mut node = [0u8; 32];
    let mut i: usize = 0;
    while i < 32
        invariant
            i <= 32,
            t@.len() == 64,
            t@ == trim(value@),
            forall|q: int| 0 <= q < 64 ==> is_hex(#[trigger] t@[q]),
            forall|q: int|
                0 <= q < i ==> #[trigger] node@[q] == (hex_val(t@[2 * q]) * 16 + hex_val(
                    t@[2 * q + 1],
                )) as u8,
        decreases 32 - i,
    {
        let hi = hex_value(t[2 * i]);
        let lo = hex_value(t[2 * i + 1]);
        node[i] = hi * 16 + lo;
        i = i + 1;
    }
    proof {
        assert(node@ =~= Seq::new(
            32,
            |q: int| (hex_val(t@[2 * q]) * 16 + hex_val(t@[2 * q + 1])) as u8,
        ));
    }
    Ok(node)
}

/// Reading back what [`hex`] wrote gives the same identifier.
pub proof fn lemma_parse_hex_round_trip(bytes: Seq<u8>)
    requires
        bytes.len() == 32,
    ensures
        node_id_of(hex_bytes(bytes)) == Some(bytes),
{
    let h = hex_bytes(bytes);
    lemma_hex_bytes_shape(bytes);
    assert forall|i: int| 0 <= i < h.len() implies !is_ws(#[trigger] h[i]) && is_hex(h[i]) by {
        let q = i / 2;
        assert(h[2 * q] == hex_char(bytes[q] as nat / 16));
        assert(h[2 * q + 1] == hex_char(bytes[q] as nat % 16));
        if i % 2 == 0 {
            assert(i == 2 * q);
        } else {
            assert(i == 2 * q + 1);
        }
    }
    crate::text::lemma_trim_of_no_ws(h);
    assert forall|q: int| 0 <= q < 32 implies (hex_val(h[2 * q]) * 16 + hex_val(h[2 * q + 1])) as u8
        == #[trigger] bytes[q] by {
        assert(h[2 * q] == hex_char(bytes[q] as nat / 16));
        assert(h[2 * q + 1] == hex_char(bytes[q] as nat % 16));
    }
    assert(Seq::new(32, |q: int| (hex_val(h[2 * q]) * 16 + hex_val(h[2 * q + 1])) as u8) =~= bytes);
}

} // verus!
