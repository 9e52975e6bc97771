//! Character-level text rules: whitespace, trimming, ASCII case, prefixes.

use vstd::prelude::*;

verus! {

/// Whether `c` has the Unicode `White_Space` property, as `char::is_whitespace` decides.
pub open spec fn is_ws(c: char) -> bool {
    let n = c as u32;
    ||| 0x09 <= n <= 0x0D
    ||| n == 0x20
    ||| n == 0x85
    ||| n == 0xA0
    ||| n == 0x1680
    ||| 0x2000 <= n <= 0x200A
    ||| n == 0x2028
    ||| n == 0x2029
    ||| n == 0x202F
    ||| n == 0x205F
    ||| n == 0x3000
}

/// Executable form of [`is_ws`].
pub fn is_whitespace(c: char) -> (b: bool)
    ensures
        b == is_ws(c),
{
    let n = c as u32;
    (0x09 <= n && n <= 0x0D) || n == 0x20 || n == 0x85 || n == 0xA0 || n == 0x1680 || (0x2000
        <= n && n <= 0x200A) || n == 0x2028 || n == 0x2029 || n == 0x202F || n == 0x205F || n
        == 0x3000
}

/// The characters of `s`, in order.
pub fn chars_of(s: &str) -> (v: Vec<char>)
    ensures
        v@ == s@,
{
    let mut v: Vec<char> = Vec::new();
    for c in it: s.chars()
        invariant
            v.len() == it.index(),
            forall|i: int| 0 <= i < v.len() ==> v@[i] == it.seq()[i],
    {
        v.push(c);
    }
    proof {
        broadcast use vstd::string::axiom_spec_iter;
    }
    assert(v@ =~= s@);
    v
}

} // verus!

verus! {

/// `String::push`: appends one character.
#[verifier::external_body]
pub fn push_char(s: &mut String, c: char)
    ensures
        final(s)@ == old(s)@.push(c),
{
    s.push(c);
}

/// A `String` holding exactly the characters of `v`.
pub fn string_from_chars(v: &Vec<char>) -> (s: String)
    ensures
        s@ == v@,
{
    let mut s = String::new();
    let mut i: usize = 0;
    while i < v.len()
        invariant
            i <= v.len(),
            s@ == v@.subrange(0, i as int),
        decreases v.len() - i,
    {
        push_char(&mut s, v[i]);
        i = i + 1;
        assert(s@ =~= v@.subrange(0, i as int));
    }
    assert(v@.subrange(0, v.len() as int) =~= v@);
    s
}

/// `s` with leading whitespace removed.
pub open spec fn trim_start(s: Seq<char>) -> Seq<char>
    decreases s.len(),
{
    if s.len() > 0 && is_ws(s[0]) {
        trim_start(s.drop_first())
    } else {
        s
    }
}

/// `s` with trailing whitespace removed.
pub open spec fn trim_end(s: Seq<char>) -> Seq<char>
    decreases s.len(),
{
    if s.len() > 0 && is_ws(s.last()) {
        trim_end(s.drop_last())
    } else {
        s
    }
}

/// `s` with surrounding whitespace removed, as `str::trim` does.
pub open spec fn trim(s: Seq<char>) -> Seq<char> {
    trim_end(trim_start(s))
}

/// Whether some character of `s` is whitespace.
pub open spec fn has_ws(s: Seq<char>) -> bool {
    exists|i: int| 0 <= i < s.len() && is_ws(#[trigger] s[i])
}

proof fn lemma_trim_start_head(s: Seq<char>)
    ensures
        trim_start(s).len() > 0 ==> !is_ws(trim_start(s)[0]),
    decreases s.len(),
{
    if s.len() > 0 && is_ws(s[0]) {
        lemma_trim_start_head(s.drop_first());
    }
}

/// The characters of `v` with surrounding whitespace removed.
pub fn trim_chars(v: &Vec<char>) -> (r: Vec<char>)
    ensures
        r@ == trim(v@),
{
    let mut lo: usize = 0;
    assert(v@.subrange(0, v@.len() as int) =~= v@);
    while lo < v.len() && is_whitespace(v[lo])
        invariant
            lo <= v.len(),
            trim_start(v@) == trim_start(v@.subrange(lo as int, v@.len() as int)),
        decreases v.len() - lo,
    {
        assert(v@.subrange(lo as int, v@.len() as int).drop_first() =~= v@.subrange(
            lo + 1,
            v@.len() as int,
        ));
        lo = lo + 1;
    }
    let ghost start = v@.subrange(lo as int, v@.len() as int);
    assert(trim_start(start) == start);
    let mut hi: usize = v.len();
    while hi > lo && is_whitespace(v[hi - 1])
        invariant
            lo <= hi <= v.len(),
            trim_end(start) == trim_end(v@.subrange(lo as int, hi as int)),
        decreases hi,
    {
        assert(v@.subrange(lo as int, hi as int).drop_last() =~= v@.subrange(
            lo as int,
            hi - 1,
        ));
        hi = hi - 1;
    }
    let mut r: Vec<char> = Vec::new();
    let mut i: usize = lo;
    while i < hi
        invariant
            lo <= i <= hi <= v.len(),
            r@ == v@.subrange(lo as int, i as int),
        decreases hi - i,
    {
        r.push(v[i]);
        i = i + 1;
        assert(r@ =~= v@.subrange(lo as int, i as int));
    }
    r
}

} // verus!

verus! {

/// One character with ASCII `A`..=`Z` mapped to `a`..=`z`.
pub open spec fn lower_char(c: char) -> char {
    if 'A' <= c <= 'Z' {
        ((c as u32) + 32) as char
    } else {
        c
    }
}

/// `s` with ASCII letters lowercased, as `str::to_ascii_lowercase` does.
pub open spec fn ascii_lower(s: Seq<char>) -> Seq<char> {
    Seq::new(s.len(), |i: int| lower_char(s[i]))
}

/// Executable form of [`lower_char`].
pub fn lower_ascii_char(c: char) -> (r: char)
    ensures
        r == lower_char(c),
{
    if 'A' <= c && c <= 'Z' {
        let n = (c as u8) + 32;
        n as char
    } else {
        c
    }
}

/// The characters of `v` with ASCII letters lowercased.
pub fn lower_chars(v: &Vec<char>) -> (r: Vec<char>)
    ensures
        r@ == ascii_lower(v@),
{
    let mut r: Vec<char> = Vec::new();
    let mut i: usize = 0;
    while i < v.len()
        invariant
            i <= v.len(),
            r@ =~= ascii_lower(v@).subrange(0, i as int),
        decreases v.len() - i,
    {
        r.push(lower_ascii_char(v[i]));
        i = i + 1;
    }
    r
}

/// Whether the two character sequences are equal.
pub fn chars_eq(a: &Vec<char>, b: &Vec<char>) -> (r: bool)
    ensures
        r == (a@ == b@),
{
    if a.len() != b.len() {
        return false;
    }
    let mut i: usize = 0;
    while i < a.len()
        invariant
            a.len() == b.len(),
            i <= a.len(),
            forall|j: int| 0 <= j < i ==> a@[j] == b@[j],
        decreases a.len() - i,
    {
        if a[i] != b[i] {
            return false;
        }
        i = i + 1;
    }
    assert(a@ =~= b@);
    true
}

/// Whether the two strings hold the same characters.
pub fn str_eq(a: &str, b: &str) -> (r: bool)
    ensures
        r == (a@ == b@),
{
    let x = chars_of(a);
    let y = chars_of(b);
    chars_eq(&x, &y)
}

/// Whether some character of `v` is whitespace.
pub fn any_whitespace(v: &Vec<char>) -> (r: bool)
    ensures
        r == has_ws(v@),
{
    let mut i: usize = 0;
    while i < v.len()
        invariant
            i <= v.len(),
            forall|j: int| 0 <= j < i ==> !is_ws(v@[j]),
        decreases v.len() - i,
    {
        if is_whitespace(v[i]) {
            return true;
        }
        i = i + 1;
    }
    false
}

/// Strict lexicographic order on characters, the order of `str`'s `Ord`.
pub open spec fn seq_lt(a: Seq<char>, b: Seq<char>) -> bool
    decreases a.len(),
{
    if a.len() == 0 {
        b.len() > 0
    } else if b.len() == 0 {
        false
    } else if a[0] != b[0] {
        a[0] < b[0]
    } else {
        seq_lt(a.drop_first(), b.drop_first())
    }
}

/// Exactly one of `a < b`, `a == b`, `b < a` holds.
pub proof fn lemma_seq_lt_trichotomy(a: Seq<char>, b: Seq<char>)
    ensures
        !seq_lt(a, a),
        seq_lt(a, b) ==> !seq_lt(b, a),
        a != b ==> seq_lt(a, b) || seq_lt(b, a),
    decreases a.len(),
{
    lemma_seq_lt_irreflexive(a);
    if a.len() > 0 && b.len() > 0 {
        lemma_seq_lt_trichotomy(a.drop_first(), b.drop_first());
        if a[0] == b[0] && a != b {
            if a.drop_first() == b.drop_first() {
                assert(a =~= seq![a[0]] + a.drop_first());
                assert(b =~= seq![b[0]] + b.drop_first());
            }
        }
    } else if a.len() == 0 && b.len() == 0 {
        assert(a =~= b);
    }
}

proof fn lemma_seq_lt_irreflexive(a: Seq<char>)
    ensures
        !seq_lt(a, a),
    decreases a.len(),
{
    if a.len() > 0 {
        lemma_seq_lt_irreflexive(a.drop_first());
    }
}

/// `<` on character sequences is transitive.
pub proof fn lemma_seq_lt_transitive(a: Seq<char>, b: Seq<char>, c: Seq<char>)
    requires
        seq_lt(a, b),
        seq_lt(b, c),
    ensures
        seq_lt(a, c),
    decreases a.len(),
{
    if a.len() > 0 && b.len() > 0 && c.len() > 0 && a[0] == b[0] && b[0] == c[0] {
        lemma_seq_lt_transitive(a.drop_first(), b.drop_first(), c.drop_first());
    }
}

proof fn lemma_seq_lt_skip(a: Seq<char>, b: Seq<char>, i: int)
    requires
        0 <= i < a.len(),
        i < b.len(),
        a[i] == b[i],
    ensures
        seq_lt(a.skip(i), b.skip(i)) == seq_lt(a.skip(i + 1), b.skip(i + 1)),
{
    assert(a.skip(i).drop_first() =~= a.skip(i + 1));
    assert(b.skip(i).drop_first() =~= b.skip(i + 1));
}

/// Three-way comparison: negative, zero or positive as `a` sorts before, with, or after `b`.
pub fn compare_chars(a: &Vec<char>, b: &Vec<char>) -> (r: i8)
    ensures
        (r < 0) == seq_lt(a@, b@),
        (r == 0) == (a@ == b@),
        (r > 0) == seq_lt(b@, a@),
{
    proof {
        lemma_seq_lt_trichotomy(a@, b@);
        assert(a@.skip(0) =~= a@);
        assert(b@.skip(0) =~= b@);
    }
    let mut i: usize = 0;
    while i < a.len() && i < b.len()
        invariant
            i <= a.len(),
            i <= b.len(),
            forall|j: int| 0 <= j < i ==> a@[j] == b@[j],
            seq_lt(a@, b@) == seq_lt(a@.skip(i as int), b@.skip(i as int)),
            seq_lt(b@, a@) == seq_lt(b@.skip(i as int), a@.skip(i as int)),
        decreases a.len() - i,
    {
        if a[i] != b[i] {
            if a[i] < b[i] {
                return -1;
            } else {
                return 1;
            }
        }
        proof {
            lemma_seq_lt_skip(a@, b@, i as int);
            lemma_seq_lt_skip(b@, a@, i as int);
        }
        i = i + 1;
    }
    if a.len() == b.len() {
        assert(a@ =~= b@);
        0
    } else if a.len() < b.len() {
        -1
    } else {
        1
    }
}

} // verus!

verus! {

/// `String::push_str`: appends `t`.
#[verifier::external_body]
pub fn push_str(s: &mut String, t: &str)
    ensures
        final(s)@ == old(s)@ + t@,
{
    s.push_str(t);
}

/// What `str`'s `Debug` formatting writes for `s`: quoted, with escapes.
pub uninterp spec fn debug_form(s: Seq<char>) -> Seq<char>;

/// `<str as Debug>::fmt`, rendered to a string.
#[verifier::external_body]
pub fn debug_text(s: &str) -> (r: String)
    ensures
        r@ == debug_form(s@),
{
    format!("{s:?}")
}

} // verus!

verus! {

proof fn lemma_lower_char_ws(c: char)
    ensures
        is_ws(lower_char(c)) == is_ws(c),
        lower_char(lower_char(c)) == lower_char(c),
{
}

proof fn lemma_trim_start_lower(s: Seq<char>)
    ensures
        trim_start(ascii_lower(s)) == ascii_lower(trim_start(s)),
    decreases s.len(),
{
    if s.len() > 0 {
        lemma_lower_char_ws(s[0]);
        assert(ascii_lower(s).drop_first() =~= ascii_lower(s.drop_first()));
        lemma_trim_start_lower(s.drop_first());
    }
}

proof fn lemma_trim_end_lower(s: Seq<char>)
    ensures
        trim_end(ascii_lower(s)) == ascii_lower(trim_end(s)),
    decreases s.len(),
{
    if s.len() > 0 {
        lemma_lower_char_ws(s.last());
        assert(ascii_lower(s).drop_last() =~= ascii_lower(s.drop_last()));
        lemma_trim_end_lower(s.drop_last());
    }
}

proof fn lemma_trim_end_tail(s: Seq<char>)
    ensures
        trim_end(s).len() > 0 ==> !is_ws(trim_end(s).last()),
        trim_end(s).len() > 0 && s.len() > 0 ==> trim_end(s)[0] == s[0],
    decreases s.len(),
{
    if s.len() > 0 && is_ws(s.last()) {
        lemma_trim_end_tail(s.drop_last());
    }
}

proof fn lemma_trim_start_fixed(s: Seq<char>)
    requires
        s.len() == 0 || !is_ws(s[0]),
    ensures
        trim_start(s) == s,
{
}

proof fn lemma_trim_end_fixed(s: Seq<char>)
    requires
        s.len() == 0 || !is_ws(s.last()),
    ensures
        trim_end(s) == s,
{
}

/// Trimming twice is trimming once.
pub proof fn lemma_trim_idempotent(s: Seq<char>)
    ensures
        trim(trim(s)) == trim(s),
{
    let t = trim(s);
    lemma_trim_start_head(s);
    lemma_trim_end_tail(trim_start(s));
    lemma_trim_start_fixed(t);
    lemma_trim_end_fixed(t);
}

/// Lowercasing commutes with trimming and is idempotent.
pub proof fn lemma_lower_trim(s: Seq<char>)
    ensures
        trim(ascii_lower(s)) == ascii_lower(trim(s)),
        ascii_lower(ascii_lower(s)) == ascii_lower(s),
{
    lemma_trim_start_lower(s);
    lemma_trim_end_lower(trim_start(s));
    assert forall|i: int| 0 <= i < s.len() implies #[trigger] ascii_lower(ascii_lower(s))[i]
        == ascii_lower(s)[i] by {
        lemma_lower_char_ws(s[i]);
    }
    assert(ascii_lower(ascii_lower(s)) =~= ascii_lower(s));
}

} // verus!

verus! {

/// Whether `p` is a prefix of `s`.
pub open spec fn is_prefix(p: Seq<char>, s: Seq<char>) -> bool {
    p.len() <= s.len() && s.subrange(0, p.len() as int) == p
}

/// Whether the characters of `p` begin `s`.
pub fn starts_with_chars(s: &Vec<char>, p: &Vec<char>) -> (r: bool)
    ensures
        r == is_prefix(p@, s@),
{
    if p.len() > s.len() {
        return false;
    }
    let mut i: usize = 0;
    while i < p.len()
        invariant
            p.len() <= s.len(),
            i <= p.len(),
            forall|j: int| 0 <= j < i ==> s@[j] == p@[j],
        decreases p.len() - i,
    {
        if s[i] != p[i] {
            return false;
        }
        i = i + 1;
    }
    assert(s@.subrange(0, p@.len() as int) =~= p@);
    true
}

/// The pieces of `s` between `'/'` separators, as `str::split('/')` yields them.
pub open spec fn segments(s: Seq<char>) -> Seq<Seq<char>>
    decreases s.len(),
{
    if s.len() == 0 {
        seq![Seq::empty()]
    } else {
        let p = segments(s.drop_last());
        if s.last() == '/' {
            p.push(Seq::empty())
        } else {
            p.update(p.len() - 1, p.last().push(s.last()))
        }
    }
}

/// There is always at least one segment.
pub proof fn lemma_segments_nonempty(s: Seq<char>)
    ensures
        segments(s).len() >= 1,
    decreases s.len(),
{
    if s.len() > 0 {
        lemma_segments_nonempty(s.drop_last());
    }
}

/// Whether some segment of `s` equals `target` ignoring ASCII case.
pub open spec fn has_segment_ignoring_case(s: Seq<char>, target: Seq<char>) -> bool {
    exists|i: int|
        0 <= i < segments(s).len() && ascii_lower(#[trigger] segments(s)[i]) == ascii_lower(target)
}

/// Executable form of [`has_segment_ignoring_case`].
pub fn has_segment_ignoring_case_exec(s: &Vec<char>, target: &Vec<char>) -> (r: bool)
    ensures
        r == has_segment_ignoring_case(s@, target@),
{
    let want = lower_chars(target);
    let mut cur: Vec<char> = Vec::new();
    let mut found = false;
    let mut i: usize = 0;
    proof {
        assert(s@.subrange(0, 0) =~= Seq::<char>::empty());
        assert(ascii_lower(Seq::<char>::empty()) =~= cur@);
    }
    while i < s.len()
        invariant
            i <= s.len(),
            want@ == ascii_lower(target@),
            segments(s@.subrange(0, i as int)).len() >= 1,
            cur@ == ascii_lower(segments(s@.subrange(0, i as int)).last()),
            found == exists|j: int|
                0 <= j < segments(s@.subrange(0, i as int)).len() - 1 && ascii_lower(
                    #[trigger] segments(s@.subrange(0, i as int))[j],
                ) == want@,
        decreases s.len() - i,
    {
        let ghost before = segments(s@.subrange(0, i as int));
        let c = s[i];
        proof {
            assert(s@.subrange(0, i + 1).drop_last() =~= s@.subrange(0, i as int));
            assert(s@.subrange(0, i + 1).last() == c);
            lemma_segments_nonempty(s@.subrange(0, i + 1));
        }
        if c == '/' {
            if chars_eq(&cur, &want) {
                found = true;
            }
            cur = Vec::new();
            proof {
                let after = segments(s@.subrange(0, i + 1));
                assert(after == before.push(Seq::empty()));
                assert(ascii_lower(Seq::<char>::empty()) =~= cur@);
                if found {
                    if cur@.len() == 0 {
                    }
                }
                assert forall|j: int| 0 <= j < before.len() implies #[trigger] after[j] == before[j] by {}
                if exists|j: int| 0 <= j < before.len() - 1 && ascii_lower(#[trigger] before[j]) == want@ {
                    let j = choose|j: int| 0 <= j < before.len() - 1 && ascii_lower(#[trigger] before[j]) == want@;
                    assert(ascii_lower(after[j]) == want@);
                }
                if ascii_lower(before.last()) == want@ {
                    assert(ascii_lower(after[before.len() - 1]) == want@);
                }
                if exists|j: int| 0 <= j < after.len() - 1 && ascii_lower(#[trigger] after[j]) == want@ {
                    let j = choose|j: int| 0 <= j < after.len() - 1 && ascii_lower(#[trigger] after[j]) == want@;
                    if j < before.len() - 1 {
                        assert(ascii_lower(before[j]) == want@);
                    } else {
                        assert(cur@ == want@ || found);
                    }
                }
            }
        } else {
            cur.push(lower_ascii_char(c));
            proof {
                let after = segments(s@.subrange(0, i + 1));
                assert(after == before.update(before.len() - 1, before.last().push(c)));
                assert(ascii_lower(before.last().push(c)) =~= ascii_lower(before.last()).push(lower_char(c)));
                assert forall|j: int| 0 <= j < before.len() - 1 implies #[trigger] after[j] == before[j] by {}
                if exists|j: int| 0 <= j < after.len() - 1 && ascii_lower(#[trigger] after[j]) == want@ {
                    let j = choose|j: int| 0 <= j < after.len() - 1 && ascii_lower(#[trigger] after[j]) == want@;
                    assert(ascii_lower(before[j]) == want@);
                }
                if exists|j: int| 0 <= j < before.len() - 1 && ascii_lower(#[trigger] before[j]) == want@ {
                    let j = choose|j: int| 0 <= j < before.len() - 1 && ascii_lower(#[trigger] before[j]) == want@;
                    assert(ascii_lower(after[j]) == want@);
                }
            }
        }
        i = i + 1;
    }
    proof {
        assert(s@.subrange(0, s@.len() as int) =~= s@);
    }
    let last = chars_eq(&cur, &want);
    proof {
        let segs = segments(s@);
        if has_segment_ignoring_case(s@, target@) {
            let j = choose|j: int| 0 <= j < segs.len() && ascii_lower(#[trigger] segs[j]) == ascii_lower(target@);
            if j < segs.len() - 1 {
                assert(found);
            }
        }
        if last {
            assert(ascii_lower(segs[segs.len() - 1]) == ascii_lower(target@));
        }
    }
    found || last
}

} // verus!

verus! {

/// Whether `s` is empty once trimmed: empty or all whitespace.
pub fn is_blank(s: &str) -> (r: bool)
    ensures
        r == (trim(s@).len() == 0),
{
    let c = chars_of(s);
    let t = trim_chars(&c);
    t.len() == 0
}

} // verus!

verus! {

/// The position of the first `c` in `s`.
pub open spec fn find_char(s: Seq<char>, c: char) -> Option<nat>
    decreases s.len(),
{
    if s.len() == 0 {
        None
    } else if s[0] == c {
        Some(0)
    } else {
        match find_char(s.drop_first(), c) {
            Some(i) => Some(i + 1),
            None => None,
        }
    }
}

/// `str::split_once(c)`: the text before and after the first `c`.
pub open spec fn split_once(s: Seq<char>, c: char) -> Option<(Seq<char>, Seq<char>)> {
    match find_char(s, c) {
        Some(i) => Some((s.take(i as int), s.skip(i as int + 1))),
        None => None,
    }
}

/// The first piece `str::split(c)` yields: everything before the first `c`.
pub open spec fn first_part(s: Seq<char>, c: char) -> Seq<char> {
    match split_once(s, c) {
        Some(p) => p.0,
        None => s,
    }
}

/// `str::trim_end_matches(c)`: `s` without every trailing `c`.
pub open spec fn strip_trailing(s: Seq<char>, c: char) -> Seq<char>
    decreases s.len(),
{
    if s.len() > 0 && s.last() == c {
        strip_trailing(s.drop_last(), c)
    } else {
        s
    }
}

proof fn lemma_find_char_at(s: Seq<char>, c: char, i: int)
    requires
        0 <= i <= s.len(),
        forall|q: int| 0 <= q < i ==> s[q] != c,
    ensures
        i < s.len() && s[i] == c ==> find_char(s, c) == Some(i as nat),
        i == s.len() ==> find_char(s, c) is None,
    decreases i,
{
    if i > 0 {
        let t = s.drop_first();
        assert forall|q: int| 0 <= q < i - 1 implies t[q] != c by {
            assert(s[q + 1] != c);
        }
        lemma_find_char_at(t, c, i - 1);
    }
}

/// The characters `v[lo..hi]`.
pub fn sub_chars(v: &Vec<char>, lo: usize, hi: usize) -> (r: Vec<char>)
    requires
        lo <= hi <= v@.len(),
    ensures
        r@ == v@.subrange(lo as int, hi as int),
{
    let mut out: Vec<char> = Vec::new();
    let mut i = lo;
    while i < hi
        invariant
            lo <= i <= hi,
            hi <= v@.len(),
            out@ == v@.subrange(lo as int, i as int),
        decreases hi - i,
    {
        out.push(v[i]);
        proof {
            assert(out@ =~= v@.subrange(lo as int, i + 1));
        }
        i = i + 1;
    }
    out
}

/// Executable form of [`find_char`].
pub fn find_char_exec(v: &Vec<char>, c: char) -> (r: Option<usize>)
    ensures
        match r {
            Some(i) => i < v.len() && find_char(v@, c) == Some(i as nat),
            None => find_char(v@, c) is None,
        },
{
    let mut i: usize = 0;
    while i < v.len() && v[i] != c
        invariant
            i <= v@.len(),
            forall|q: int| 0 <= q < i ==> v@[q] != c,
        decreases v@.len() - i,
    {
        i = i + 1;
    }
    proof {
        lemma_find_char_at(v@, c, i as int);
    }
    if i < v.len() {
        Some(i)
    } else {
        None
    }
}

/// Executable form of [`split_once`].
pub fn split_once_chars(v: &Vec<char>, c: char) -> (r: Option<(Vec<char>, Vec<char>)>)
    ensures
        match r {
            Some(p) => split_once(v@, c) == Some((p.0@, p.1@)),
            None => split_once(v@, c) is None,
        },
{
    match find_char_exec(v, c) {
        Some(i) => {
            let a = sub_chars(v, 0, i);
            let b = sub_chars(v, i + 1, v.len());
            proof {
                assert(a@ =~= v@.take(i as int));
                assert(b@ =~= v@.skip(i + 1));
            }
            Some((a, b))
        },
        None => None,
    }
}

/// Executable form of [`first_part`].
pub fn first_part_chars(v: &Vec<char>, c: char) -> (r: Vec<char>)
    ensures
        r@ == first_part(v@, c),
{
    match split_once_chars(v, c) {
        Some(p) => p.0,
        None => sub_chars(v, 0, v.len()),
    }
}

/// Executable form of [`strip_trailing`].
pub fn strip_trailing_chars(v: &Vec<char>, c: char) -> (r: Vec<char>)
    ensures
        r@ == strip_trailing(v@, c),
{
    let mut hi = v.len();
    assert(v@.subrange(0, hi as int) =~= v@);
    while hi > 0 && v[hi - 1] == c
        invariant
            hi <= v@.len(),
            strip_trailing(v@, c) == strip_trailing(v@.subrange(0, hi as int), c),
        decreases hi,
    {
        proof {
            assert(v@.subrange(0, hi as int).drop_last() =~= v@.subrange(0, hi - 1));
        }
        hi = hi - 1;
    }
    sub_chars(v, 0, hi)
}

} // verus!

verus! {

/// Text without whitespace trims to itself.
pub proof fn lemma_trim_of_no_ws(s: Seq<char>)
    requires
        forall|i: int| 0 <= i < s.len() ==> !is_ws(#[trigger] s[i]),
    ensures
        trim(s) == s,
{
    if s.len() > 0 {
        lemma_trim_start_fixed(s);
        lemma_trim_end_fixed(s);
    }
}

} // verus!

verus! {

/// Whether `m` occurs in `s` as a contiguous run.
pub open spec fn contains_seq(s: Seq<char>, m: Seq<char>) -> bool {
    exists|i: int| 0 <= i <= s.len() - m.len() && #[trigger] s.subrange(i, i + m.len()) == m
}

/// Whether the characters `m` occur in `s`.
pub fn contains_chars(s: &Vec<char>, m: &Vec<char>) -> (r: bool)
    ensures
        r == contains_seq(s@, m@),
{
    if m.len() > s.len() {
        return false;
    }
    let mut i: usize = 0;
    while i <= s.len() - m.len()
        invariant
            m@.len() <= s@.len(),
            i <= s@.len() - m@.len() + 1,
            forall|q: int| 0 <= q < i ==> #[trigger] s@.subrange(q, q + m@.len()) != m@,
        decreases s@.len() - m@.len() + 1 - i,
    {
        let mut j: usize = 0;
        while j < m.len() && s[i + j] == m[j]
            invariant
                m.len() <= s.len(),
                i <= s.len() - m.len(),
                j <= m.len(),
                forall|q: int| 0 <= q < j ==> s@[i + q] == m@[q],
            decreases m@.len() - j,
        {
            j = j + 1;
        }
        if j == m.len() {
            proof {
                assert(s@.subrange(i as int, i + m@.len()) =~= m@);
            }
            return true;
        }
        proof {
            assert(s@.subrange(i as int, i + m@.len())[j as int] != m@[j as int]);
        }
        i = i + 1;
    }
    proof {
        if contains_seq(s@, m@) {
            let q = choose|q: int| 0 <= q <= s@.len() - m@.len() && #[trigger] s@.subrange(
                q,
                q + m@.len(),
            ) == m@;
            assert(s@.subrange(q, q + m@.len()) != m@);
        }
    }
    false
}

} // verus!

verus! {

/// The length of `s` in UTF-8, counted character by character.
pub open spec fn utf8_size(s: Seq<char>) -> nat
    decreases s.len(),
{
    if s.len() == 0 {
        0
    } else {
        vstd::utf8::encode_scalar(s[0] as u32).len() + utf8_size(s.drop_first())
    }
}

proof fn lemma_utf8_size(s: Seq<char>)
    ensures
        vstd::utf8::encode_utf8(s).len() == utf8_size(s),
    decreases s.len(),
{
    if s.len() > 0 {
        lemma_utf8_size(s.drop_first());
    }
}

fn char_utf8_len(c: char) -> (r: usize)
    ensures
        r == vstd::utf8::encode_scalar(c as u32).len(),
{
    let u = c as u32;
    if u <= 0x7F {
        1
    } else if u <= 0x7FF {
        2
    } else if u <= 0xFFFF {
        assert(!(0xD800 <= u <= 0xDFFF));
        3
    } else {
        4
    }
}

/// Whether `v` takes more than `limit` bytes in UTF-8.
pub fn utf8_len_exceeds(v: &Vec<char>, limit: usize) -> (r: bool)
    requires
        limit <= 1_000_000,
    ensures
        r == (vstd::utf8::encode_utf8(v@).len() > limit),
{
    proof {
        lemma_utf8_size(v@);
    }
    let mut total: usize = 0;
    let mut i = v.len();
    assert(v@.skip(v@.len() as int) =~= Seq::<char>::empty());
    while i > 0
        invariant
            i <= v@.len(),
            total == utf8_size(v@.skip(i as int)),
            total <= limit,
            limit <= 1_000_000,
            vstd::utf8::encode_utf8(v@).len() == utf8_size(v@),
        decreases i,
    {
        let n = char_utf8_len(v[i - 1]);
        proof {
            assert(v@.skip(i - 1).drop_first() =~= v@.skip(i as int));
            assert(v@.skip(i - 1)[0] == v@[i - 1]);
        }
        total = total + n;
        i = i - 1;
        if total > limit {
            proof {
                lemma_utf8_size_suffix(v@, i as int);
            }
            return true;
        }
    }
    assert(v@.skip(0) =~= v@);
    false
}

proof fn lemma_utf8_size_suffix(s: Seq<char>, i: int)
    requires
        0 <= i <= s.len(),
    ensures
        utf8_size(s.skip(i)) <= utf8_size(s),
    decreases i,
{
    if i > 0 {
        lemma_utf8_size_suffix(s.drop_first(), i - 1);
        assert(s.drop_first().skip(i - 1) =~= s.skip(i));
    } else {
        assert(s.skip(0) =~= s);
    }
}

} // verus!
