//! Sorted, duplicate-free vectors: the ordered sets the host keeps of names
//! and of 32-byte identifiers.

use vstd::prelude::*;

use crate::text::{chars_of, compare_chars, lemma_seq_lt_transitive, lemma_seq_lt_trichotomy, seq_lt};

verus! {

/// The character views of a vector of strings.
pub open spec fn string_views(v: Seq<String>) -> Seq<Seq<char>> {
    v.map_values(|s: String| s@)
}

/// Strictly increasing by character order, hence free of duplicates.
pub open spec fn strictly_sorted(s: Seq<Seq<char>>) -> bool {
    forall|i: int, j: int| 0 <= i < j < s.len() ==> seq_lt(#[trigger] s[i], #[trigger] s[j])
}

/// Insert `x` into a strictly sorted vector of strings, keeping it so.
pub fn insert_sorted_string(v: &mut Vec<String>, x: String)
    requires
        strictly_sorted(string_views(old(v)@)),
    ensures
        strictly_sorted(string_views(final(v)@)),
        string_views(final(v)@).to_set() == string_views(old(v)@).to_set().insert(x@),
{
    let ghost old_v = string_views(v@);
    let xc = chars_of(x.as_str());
    let mut p: usize = 0;
    let mut stop = false;
    while p < v.len() && !stop
        invariant
            string_views(v@) == old_v,
            strictly_sorted(old_v),
            p <= v@.len(),
            xc@ == x@,
            forall|i: int| 0 <= i < p ==> seq_lt(#[trigger] old_v[i], x@),
            stop ==> p < v@.len() && !seq_lt(old_v[p as int], x@),
        decreases v@.len() - p + (if stop { 0int } else { 1int }),
    {
        let c = chars_of(v[p].as_str());
        let r = compare_chars(&c, &xc);
        if r < 0 {
            p = p + 1;
        } else {
            stop = true;
        }
    }
    if stop {
        let c = chars_of(v[p].as_str());
        if compare_chars(&c, &xc) == 0 {
            proof {
                assert(old_v.to_set() =~= old_v.to_set().insert(x@)) by {
                    assert(old_v[p as int] == x@);
                }
            }
            return;
        }
    }
    proof {
        if stop {
            lemma_seq_lt_trichotomy(old_v[p as int], x@);
        }
    }
    v.insert(p, x);
    proof {
        let nv = string_views(v@);
        assert(nv =~= old_v.insert(p as int, x@));
        assert forall|i: int, j: int| 0 <= i < j < nv.len() implies seq_lt(
            #[trigger] nv[i],
            #[trigger] nv[j],
        ) by {
            if j < p {
            } else if j == p {
            } else if i < p {
                if j - 1 > p {
                    assert(seq_lt(old_v[p as int], old_v[j - 1]));
                    lemma_seq_lt_transitive(x@, old_v[p as int], old_v[j - 1]);
                }
                lemma_seq_lt_transitive(old_v[i], x@, old_v[j - 1]);
            } else if i == p {
                if j - 1 > p {
                    assert(seq_lt(old_v[p as int], old_v[j - 1]));
                    lemma_seq_lt_transitive(x@, old_v[p as int], old_v[j - 1]);
                }
            } else {
                assert(seq_lt(old_v[i - 1], old_v[j - 1]));
            }
        }
        assert(nv.to_set() =~= old_v.to_set().insert(x@)) by {
            assert forall|y: Seq<char>| nv.to_set().contains(y) implies old_v.to_set().insert(x@).contains(y) by {
                let i = choose|i: int| 0 <= i < nv.len() && nv[i] == y;
                if i < p {
                    assert(old_v[i] == y);
                } else if i > p {
                    assert(old_v[i - 1] == y);
                }
            }
            assert forall|y: Seq<char>| old_v.to_set().insert(x@).contains(y) implies nv.to_set().contains(y) by {
                if y == x@ {
                    assert(nv[p as int] == y);
                } else {
                    let i = choose|i: int| 0 <= i < old_v.len() && old_v[i] == y;
                    if i < p {
                        assert(nv[i] == y);
                    } else {
                        assert(nv[i + 1] == y);
                    }
                }
            }
        }
    }
}

/// Whether the strictly sorted vector `v` holds `x`.
pub fn sorted_contains(v: &Vec<String>, x: &str) -> (r: bool)
    ensures
        r == string_views(v@).contains(x@),
{
    let xc = chars_of(x);
    let mut i: usize = 0;
    while i < v.len()
        invariant
            i <= v@.len(),
            xc@ == x@,
            forall|j: int| 0 <= j < i ==> v@[j]@ != x@,
        decreases v@.len() - i,
    {
        let c = chars_of(v[i].as_str());
        if crate::text::chars_eq(&c, &xc) {
            proof {
                assert(string_views(v@)[i as int] == x@);
            }
            return true;
        }
        i = i + 1;
    }
    proof {
        if string_views(v@).contains(x@) {
            let j = choose|j: int| 0 <= j < string_views(v@).len() && string_views(v@)[j] == x@;
            assert(v@[j]@ == x@);
        }
    }
    false
}

/// The strings of strictly sorted `a` that `b` lacks, in order.
pub fn sorted_difference(a: &Vec<String>, b: &Vec<String>) -> (r: Vec<String>)
    requires
        strictly_sorted(string_views(a@)),
    ensures
        strictly_sorted(string_views(r@)),
        string_views(r@).to_set() == string_views(a@).to_set().difference(string_views(b@).to_set()),
{
    let ghost av = string_views(a@);
    let ghost bs = string_views(b@).to_set();
    let mut out: Vec<String> = Vec::new();
    let mut i: usize = 0;
    while i < a.len()
        invariant
            i <= a@.len(),
            av == string_views(a@),
            bs == string_views(b@).to_set(),
            strictly_sorted(av),
            strictly_sorted(string_views(out@)),
            forall|k: int|
                0 <= k < out@.len() ==> exists|j: int| 0 <= j < i && #[trigger] av[j] == (#[trigger] out@[k])@,
            string_views(out@).to_set() == av.subrange(0, i as int).to_set().difference(bs),
        decreases a@.len() - i,
    {
        let ghost before = string_views(out@);
        if !sorted_contains(b, a[i].as_str()) {
            out.push(a[i].clone());
            proof {
                let now = string_views(out@);
                assert(now =~= before.push(av[i as int]));
                assert forall|x: int, y: int| 0 <= x < y < now.len() implies seq_lt(
                    #[trigger] now[x],
                    #[trigger] now[y],
                ) by {
                    if y == before.len() {
                        let j = choose|j: int| 0 <= j < i && #[trigger] av[j] == (#[trigger] out@[x])@;
                        assert(seq_lt(av[j], av[i as int]));
                    } else {
                        assert(seq_lt(before[x], before[y]));
                    }
                }
                before.lemma_push_to_set_commute(av[i as int]);
            }
        }
        proof {
            av.subrange(0, i as int).lemma_push_to_set_commute(av[i as int]);
            assert(av.subrange(0, i + 1) =~= av.subrange(0, i as int).push(av[i as int]));
            assert(string_views(out@).to_set() =~= av.subrange(0, i + 1).to_set().difference(bs));
            assert forall|k: int| 0 <= k < out@.len() implies exists|j: int|
                0 <= j < i + 1 && #[trigger] av[j] == (#[trigger] out@[k])@ by {
                if k < before.len() {
                    let j = choose|j: int| 0 <= j < i && #[trigger] av[j] == (#[trigger] out@[k])@;
                    assert(0 <= j < i + 1);
                } else {
                    assert(av[i as int] == out@[k]@);
                }
            }
        }
        i = i + 1;
    }
    assert(av.subrange(0, av.len() as int) =~= av);
    out
}

/// Strict lexicographic order on byte sequences.
pub open spec fn bytes_lt(a: Seq<u8>, b: Seq<u8>) -> bool
    decreases a.len(),
{
    if a.len() == 0 {
        b.len() > 0
    } else if b.len() == 0 {
        false
    } else if a[0] != b[0] {
        a[0] < b[0]
    } else {
        bytes_lt(a.drop_first(), b.drop_first())
    }
}

proof fn lemma_bytes_lt_irreflexive(a: Seq<u8>)
    ensures
        !bytes_lt(a, a),
    decreases a.len(),
{
    if a.len() > 0 {
        lemma_bytes_lt_irreflexive(a.drop_first());
    }
}

/// Exactly one of `a < b`, `a == b`, `b < a` holds.
pub proof fn lemma_bytes_lt_trichotomy(a: Seq<u8>, b: Seq<u8>)
    ensures
        !bytes_lt(a, a),
        bytes_lt(a, b) ==> !bytes_lt(b, a),
        a != b ==> bytes_lt(a, b) || bytes_lt(b, a),
    decreases a.len(),
{
    lemma_bytes_lt_irreflexive(a);
    if a.len() > 0 && b.len() > 0 {
        lemma_bytes_lt_trichotomy(a.drop_first(), b.drop_first());
        if a[0] == b[0] && a != b {
            if a.drop_first() == b.drop_first() {
                assert(a =~= seq![a[0]] + a.drop_first());
                assert(b =~= seq![b[0]] + b.drop_first());
            }
        }
    } else if a.len() == 0 && b.len() == 0 {
        assert(a =~= b);
    }
}

/// Byte order is transitive.
pub proof fn lemma_bytes_lt_transitive(a: Seq<u8>, b: Seq<u8>, c: Seq<u8>)
    requires
        bytes_lt(a, b),
        bytes_lt(b, c),
    ensures
        bytes_lt(a, c),
    decreases a.len(),
{
    if a.len() > 0 && b.len() > 0 && c.len() > 0 && a[0] == b[0] && b[0] == c[0] {
        lemma_bytes_lt_transitive(a.drop_first(), b.drop_first(), c.drop_first());
    }
}

/// Three-way comparison of two 32-byte identifiers.
pub fn compare_ids(a: &[u8; 32], b: &[u8; 32]) -> (r: i8)
    ensures
        (r < 0) == bytes_lt(a@, b@),
        (r == 0) == (a@ == b@),
        (r > 0) == bytes_lt(b@, a@),
{
    proof {
        lemma_bytes_lt_trichotomy(a@, b@);
        assert(a@.skip(0) =~= a@);
        assert(b@.skip(0) =~= b@);
    }
    let mut i: usize = 0;
    while i < 32
        invariant
            i <= 32,
            a@.len() == 32,
            b@.len() == 32,
            forall|j: int| 0 <= j < i ==> a@[j] == b@[j],
            bytes_lt(a@, b@) == bytes_lt(a@.skip(i as int), b@.skip(i as int)),
            bytes_lt(b@, a@) == bytes_lt(b@.skip(i as int), a@.skip(i as int)),
        decreases 32 - i,
    {
        if a[i] != b[i] {
            if a[i] < b[i] {
                return -1;
            } else {
                return 1;
            }
        }
        proof {
            assert(a@.skip(i as int).drop_first() =~= a@.skip(i + 1));
            assert(b@.skip(i as int).drop_first() =~= b@.skip(i + 1));
        }
        i = i + 1;
    }
    assert(a@ =~= b@);
    0
}

/// The views of a vector of identifiers.
pub open spec fn id_views(v: Seq<[u8; 32]>) -> Seq<Seq<u8>> {
    v.map_values(|x: [u8; 32]| x@)
}

/// Strictly increasing by byte order, hence free of duplicates.
pub open spec fn ids_sorted(s: Seq<Seq<u8>>) -> bool {
    forall|i: int, j: int| 0 <= i < j < s.len() ==> bytes_lt(#[trigger] s[i], #[trigger] s[j])
}

/// Whether `v` lists the identifier `n`.
pub fn lists_id(v: &Vec<[u8; 32]>, n: &[u8; 32]) -> (r: bool)
    ensures
        r == id_views(v@).contains(n@),
{
    let mut i: usize = 0;
    while i < v.len()
        invariant
            i <= v@.len(),
            forall|j: int| 0 <= j < i ==> v@[j]@ != n@,
        decreases v@.len() - i,
    {
        if compare_ids(&v[i], n) == 0 {
            proof {
                assert(id_views(v@)[i as int] == n@);
            }
            return true;
        }
        i = i + 1;
    }
    proof {
        if id_views(v@).contains(n@) {
            let j = choose|j: int| 0 <= j < id_views(v@).len() && id_views(v@)[j] == n@;
            assert(v@[j]@ == n@);
        }
    }
    false
}

/// Insert `x` into a strictly sorted vector of identifiers, keeping it so.
pub fn insert_sorted_id(v: &mut Vec<[u8; 32]>, x: [u8; 32])
    requires
        ids_sorted(id_views(old(v)@)),
    ensures
        ids_sorted(id_views(final(v)@)),
        id_views(final(v)@).to_set() == id_views(old(v)@).to_set().insert(x@),
{
    let ghost old_v = id_views(v@);
    let mut p: usize = 0;
    let mut stop = false;
    while p < v.len() && !stop
        invariant
            id_views(v@) == old_v,
            ids_sorted(old_v),
            p <= v@.len(),
            forall|i: int| 0 <= i < p ==> bytes_lt(#[trigger] old_v[i], x@),
            stop ==> p < v@.len() && !bytes_lt(old_v[p as int], x@),
        decreases v@.len() - p + (if stop { 0int } else { 1int }),
    {
        let r = compare_ids(&v[p], &x);
        proof {
            assert(old_v[p as int] == v@[p as int]@);
        }
        if r < 0 {
            p = p + 1;
        } else {
            stop = true;
        }
    }
    if stop {
        let r = compare_ids(&v[p], &x);
        proof {
            assert(old_v[p as int] == v@[p as int]@);
        }
        if r == 0 {
            proof {
                assert(old_v.to_set() =~= old_v.to_set().insert(x@)) by {
                    assert(old_v[p as int] == x@);
                }
            }
            return;
        }
    }
    proof {
        if stop {
            lemma_bytes_lt_trichotomy(old_v[p as int], x@);
        }
    }
    v.insert(p, x);
    proof {
        let nv = id_views(v@);
        assert(nv =~= old_v.insert(p as int, x@));
        assert forall|i: int, j: int| 0 <= i < j < nv.len() implies bytes_lt(
            #[trigger] nv[i],
            #[trigger] nv[j],
        ) by {
            if j < p {
            } else if j == p {
            } else if i < p {
                if j - 1 > p {
                    assert(bytes_lt(old_v[p as int], old_v[j - 1]));
                    lemma_bytes_lt_transitive(x@, old_v[p as int], old_v[j - 1]);
                }
                lemma_bytes_lt_transitive(old_v[i], x@, old_v[j - 1]);
            } else if i == p {
                if j - 1 > p {
                    assert(bytes_lt(old_v[p as int], old_v[j - 1]));
                    lemma_bytes_lt_transitive(x@, old_v[p as int], old_v[j - 1]);
                }
            } else {
                assert(bytes_lt(old_v[i - 1], old_v[j - 1]));
            }
        }
        assert(nv.to_set() =~= old_v.to_set().insert(x@)) by {
            assert forall|y: Seq<u8>| nv.to_set().contains(y) implies old_v.to_set().insert(x@).contains(y) by {
                let i = choose|i: int| 0 <= i < nv.len() && nv[i] == y;
                if i < p {
                    assert(old_v[i] == y);
                } else if i > p {
                    assert(old_v[i - 1] == y);
                }
            }
            assert forall|y: Seq<u8>| old_v.to_set().insert(x@).contains(y) implies nv.to_set().contains(y) by {
                if y == x@ {
                    assert(nv[p as int] == y);
                } else {
                    let i = choose|i: int| 0 <= i < old_v.len() && old_v[i] == y;
                    if i < p {
                        assert(nv[i] == y);
                    } else {
                        assert(nv[i + 1] == y);
                    }
                }
            }
        }
    }
}

/// Whether `v` holds an identifier equal to `x`.
pub fn ids_contain(v: &Vec<[u8; 32]>, x: &[u8; 32]) -> (r: bool)
    ensures
        r == id_views(v@).contains(x@),
{
    let mut i: usize = 0;
    while i < v.len()
        invariant
            i <= v@.len(),
            forall|j: int| 0 <= j < i ==> v@[j]@ != x@,
        decreases v@.len() - i,
    {
        if compare_ids(&v[i], x) == 0 {
            proof {
                assert(id_views(v@)[i as int] == x@);
            }
            return true;
        }
        i = i + 1;
    }
    proof {
        if id_views(v@).contains(x@) {
            let j = choose|j: int| 0 <= j < id_views(v@).len() && id_views(v@)[j] == x@;
            assert(v@[j]@ == x@);
        }
    }
    false
}

} // verus!

verus! {

/// The UTF-8 bytes of `prefix` followed by `id`.
pub fn salted(prefix: &str, id: [u8; 32]) -> (r: Vec<u8>)
    ensures
        r@ == vstd::utf8::encode_utf8(prefix@) + id@,
{
    let head = prefix.as_bytes();
    let mut out: Vec<u8> = Vec::new();
    let mut i: usize = 0;
    while i < head.len()
        invariant
            i <= head@.len(),
            out@ == head@.subrange(0, i as int),
        decreases head@.len() - i,
    {
        out.push(head[i]);
        proof {
            assert(out@ =~= head@.subrange(0, i + 1));
        }
        i = i + 1;
    }
    let mut j: usize = 0;
    while j < 32
        invariant
            j <= 32,
            id@.len() == 32,
            out@ == head@ + id@.subrange(0, j as int),
        decreases 32 - j,
    {
        out.push(id[j]);
        proof {
            assert(out@ =~= head@ + id@.subrange(0, j + 1));
        }
        j = j + 1;
    }
    assert(id@.subrange(0, 32) =~= id@);
    assert(head@.subrange(0, head@.len() as int) =~= head@);
    out
}

} // verus!
