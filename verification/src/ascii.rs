//! Byte-level helpers shared by the parser: ASCII case folding, whitespace
//! trimming, first-occurrence search, and byte-sequence comparison.
use vstd::prelude::*;

verus! {

/// ASCII whitespace, as `u8::is_ascii_whitespace` defines it.
pub open spec fn is_ws_byte(b: u8) -> bool {
    b == 32 || b == 9 || b == 10 || b == 12 || b == 13
}

/// Space or horizontal tab: whitespace that never ends a header line.
pub open spec fn is_line_ws_byte(b: u8) -> bool {
    b == 32 || b == 9
}

/// ASCII lower-casing of a single byte; other bytes are unchanged.
pub open spec fn lower_byte(b: u8) -> u8 {
    if 65 <= b && b <= 90 {
        (b + 32) as u8
    } else {
        b
    }
}

/// ASCII lower-casing of a byte sequence.
pub open spec fn lower_seq(s: Seq<u8>) -> Seq<u8> {
    s.map_values(|b: u8| lower_byte(b))
}

/// Index of the first occurrence of `b` at or after `from`; `s.len()` if none.
pub open spec fn find_from(s: Seq<u8>, from: int, b: u8) -> int
    decreases s.len() - from,
{
    if from >= s.len() {
        s.len() as int
    } else if s[from] == b {
        from
    } else {
        find_from(s, from + 1, b)
    }
}

/// `find_from` stays within `[from, s.len()]`, lands on `b`, and skips no
/// earlier occurrence.
pub proof fn lemma_find_from(s: Seq<u8>, from: int, b: u8)
    requires
        0 <= from <= s.len(),
    ensures
        from <= find_from(s, from, b) <= s.len(),
        find_from(s, from, b) < s.len() ==> s[find_from(s, from, b)] == b,
        forall|j: int| from <= j < find_from(s, from, b) ==> s[j] != b,
    decreases s.len() - from,
{
    if from < s.len() && s[from] != b {
        lemma_find_from(s, from + 1, b);
    }
}

/// If `b` does not occur in `[from, s.len())`, the search returns `s.len()`.
pub proof fn lemma_find_from_absent(s: Seq<u8>, from: int, b: u8)
    requires
        0 <= from <= s.len(),
        forall|j: int| from <= j < s.len() ==> s[j] != b,
    ensures
        find_from(s, from, b) == s.len(),
    decreases s.len() - from,
{
    if from < s.len() {
        lemma_find_from_absent(s, from + 1, b);
    }
}

/// Index of the first byte at or after `i` that is not ASCII whitespace;
/// `s.len()` if all are.
pub open spec fn skip_ws_from(s: Seq<u8>, i: int) -> int
    decreases s.len() - i,
{
    if i >= s.len() {
        s.len() as int
    } else if is_ws_byte(s[i]) {
        skip_ws_from(s, i + 1)
    } else {
        i
    }
}

pub proof fn lemma_skip_ws_from(s: Seq<u8>, i: int)
    requires
        0 <= i <= s.len(),
    ensures
        i <= skip_ws_from(s, i) <= s.len(),
        skip_ws_from(s, i) < s.len() ==> !is_ws_byte(s[skip_ws_from(s, i)]),
        forall|j: int| i <= j < skip_ws_from(s, i) ==> is_ws_byte(s[j]),
    decreases s.len() - i,
{
    if i < s.len() && is_ws_byte(s[i]) {
        lemma_skip_ws_from(s, i + 1);
    }
}

/// Index of the first byte at or after `i` that is neither space nor tab.
pub open spec fn skip_line_ws_from(s: Seq<u8>, i: int) -> int
    decreases s.len() - i,
{
    if i >= s.len() {
        s.len() as int
    } else if is_line_ws_byte(s[i]) {
        skip_line_ws_from(s, i + 1)
    } else {
        i
    }
}

pub proof fn lemma_skip_line_ws_from(s: Seq<u8>, i: int)
    requires
        0 <= i <= s.len(),
    ensures
        i <= skip_line_ws_from(s, i) <= s.len(),
        skip_line_ws_from(s, i) < s.len() ==> !is_line_ws_byte(s[skip_line_ws_from(s, i)]),
        forall|j: int| i <= j < skip_line_ws_from(s, i) ==> is_line_ws_byte(s[j]),
    decreases s.len() - i,
{
    if i < s.len() && is_line_ws_byte(s[i]) {
        lemma_skip_line_ws_from(s, i + 1);
    }
}

/// `skip_line_ws_from` is pinned down by exhibiting the first byte that is
/// neither space nor tab (or the end).
pub proof fn lemma_skip_line_ws_at(s: Seq<u8>, from: int, at: int)
    requires
        0 <= from <= at <= s.len(),
        forall|j: int| from <= j < at ==> is_line_ws_byte(s[j]),
        at == s.len() || !is_line_ws_byte(s[at]),
    ensures
        skip_line_ws_from(s, from) == at,
    decreases at - from,
{
    if from < at {
        lemma_skip_line_ws_at(s, from + 1, at);
    }
}

/// One past the last byte before `i` that is not ASCII whitespace; `0` if all
/// of `s.take(i)` is whitespace.
pub open spec fn rskip_ws(s: Seq<u8>, i: int) -> int
    decreases i,
{
    if i <= 0 {
        0
    } else if is_ws_byte(s[i - 1]) {
        rskip_ws(s, i - 1)
    } else {
        i
    }
}

pub proof fn lemma_rskip_ws(s: Seq<u8>, i: int)
    requires
        0 <= i <= s.len(),
    ensures
        0 <= rskip_ws(s, i) <= i,
        rskip_ws(s, i) > 0 ==> !is_ws_byte(s[rskip_ws(s, i) - 1]),
        forall|j: int| rskip_ws(s, i) <= j < i ==> is_ws_byte(s[j]),
    decreases i,
{
    if i > 0 && is_ws_byte(s[i - 1]) {
        lemma_rskip_ws(s, i - 1);
    }
}

/// `find_from` is pinned down by exhibiting the first occurrence.
pub proof fn lemma_find_from_at(s: Seq<u8>, from: int, b: u8, at: int)
    requires
        0 <= from <= at < s.len(),
        s[at] == b,
        forall|j: int| from <= j < at ==> s[j] != b,
    ensures
        find_from(s, from, b) == at,
    decreases at - from,
{
    if from < at {
        lemma_find_from_at(s, from + 1, b, at);
    }
}

/// `skip_ws_from` is pinned down by exhibiting the first non-whitespace
/// byte (or the end).
pub proof fn lemma_skip_ws_at(s: Seq<u8>, from: int, at: int)
    requires
        0 <= from <= at <= s.len(),
        forall|j: int| from <= j < at ==> is_ws_byte(s[j]),
        at == s.len() || !is_ws_byte(s[at]),
    ensures
        skip_ws_from(s, from) == at,
    decreases at - from,
{
    if from < at {
        lemma_skip_ws_at(s, from + 1, at);
    }
}

/// `rskip_ws` is pinned down by exhibiting the last non-whitespace byte
/// (or the start).
pub proof fn lemma_rskip_ws_at(s: Seq<u8>, i: int, at: int)
    requires
        0 <= at <= i <= s.len(),
        forall|j: int| at <= j < i ==> is_ws_byte(s[j]),
        at == 0 || !is_ws_byte(s[at - 1]),
    ensures
        rskip_ws(s, i) == at,
    decreases i - at,
{
    if at < i {
        lemma_rskip_ws_at(s, i - 1, at);
    }
}

/// `s` with leading and trailing ASCII whitespace removed.
pub open spec fn trimmed(s: Seq<u8>) -> Seq<u8> {
    let lo = skip_ws_from(s, 0);
    let hi = rskip_ws(s, s.len() as int);
    if lo <= hi {
        s.subrange(lo, hi)
    } else {
        Seq::empty()
    }
}

/// Whether `b` is ASCII whitespace.
pub fn ws_byte(b: u8) -> (r: bool)
    ensures
        r == is_ws_byte(b),
{
    b == 32 || b == 9 || b == 10 || b == 12 || b == 13
}

/// ASCII lower-casing of one byte.
pub fn to_lower_byte(b: u8) -> (r: u8)
    ensures
        r == lower_byte(b),
{
    if 65 <= b && b <= 90 {
        b + 32
    } else {
        b
    }
}

/// The sub-slice of `s` with leading and trailing ASCII whitespace removed.
pub fn trim_slice<'a>(s: &'a [u8]) -> (r: &'a [u8])
    ensures
        r@ == trimmed(s@),
{
    let mut lo: usize = 0;
    while lo < s.len() && ws_byte(s[lo])
        invariant
            0 <= lo <= s@.len(),
            skip_ws_from(s@, 0) == skip_ws_from(s@, lo as int),
        decreases s@.len() - lo,
    {
        lo = lo + 1;
    }
    let mut hi: usize = s.len();
    while hi > 0 && ws_byte(s[hi - 1])
        invariant
            0 <= hi <= s@.len(),
            rskip_ws(s@, s@.len() as int) == rskip_ws(s@, hi as int),
        decreases hi,
    {
        hi = hi - 1;
    }
    proof {
        assert(skip_ws_from(s@, lo as int) == lo as int);
        assert(rskip_ws(s@, hi as int) == hi as int);
    }
    if lo <= hi {
        vstd::slice::slice_subrange(s, lo, hi)
    } else {
        vstd::slice::slice_subrange(s, 0, 0)
    }
}

/// Whether two byte slices hold the same bytes.
pub fn bytes_eq(a: &[u8], b: &[u8]) -> (r: bool)
    ensures
        r == (a@ == b@),
{
    if a.len() != b.len() {
        return false;
    }
    let mut i: usize = 0;
    while i < a.len()
        invariant
            0 <= i <= a@.len(),
            a@.len() == b@.len(),
            forall|j: int| 0 <= j < i ==> a@[j] == b@[j],
        decreases a@.len() - i,
    {
        if a[i] != b[i] {
            return false;
        }
        i = i + 1;
    }
    proof {
        assert(a@ =~= b@);
    }
    true
}

/// Whether the bytes of `s` starting at `at`, lower-cased, are exactly
/// `key` (which is expected to be lower-case already).
pub fn lower_matches_at(s: &[u8], at: usize, key: &[u8]) -> (r: bool)
    requires
        at <= s@.len(),
    ensures
        r == (at + key@.len() <= s@.len() && lower_seq(
            s@.subrange(at as int, at as int + key@.len() as int),
        ) == key@),
{
    let slen = s.len();
    let klen = key.len();
    if klen > slen - at {
        return false;
    }
    let ghost win = s@.subrange(at as int, at as int + key@.len() as int);
    let mut k: usize = 0;
    while k < klen
        invariant
            slen == s@.len(),
            klen == key@.len(),
            at + klen <= slen,
            0 <= k <= klen,
            win == s@.subrange(at as int, at as int + key@.len() as int),
            forall|j: int| 0 <= j < k ==> lower_byte(win[j]) == key@[j],
        decreases klen - k,
    {
        if to_lower_byte(s[at + k]) != key[k] {
            proof {
                assert(lower_seq(win)[k as int] != key@[k as int]);
            }
            return false;
        }
        k = k + 1;
    }
    proof {
        assert(lower_seq(win) =~= key@);
    }
    true
}

/// Whether the bytes of `s` starting at `at` are exactly `key`.
pub fn matches_at(s: &[u8], at: usize, key: &[u8]) -> (r: bool)
    requires
        at <= s@.len(),
    ensures
        r == (at + key@.len() <= s@.len() && s@.subrange(
            at as int,
            at as int + key@.len() as int,
        ) == key@),
{
    let slen = s.len();
    let klen = key.len();
    if klen > slen - at {
        return false;
    }
    let ghost win = s@.subrange(at as int, at as int + key@.len() as int);
    let mut k: usize = 0;
    while k < klen
        invariant
            slen == s@.len(),
            klen == key@.len(),
            at + klen <= slen,
            0 <= k <= klen,
            win == s@.subrange(at as int, at as int + key@.len() as int),
            forall|j: int| 0 <= j < k ==> win[j] == key@[j],
        decreases klen - k,
    {
        if s[at + k] != key[k] {
            return false;
        }
        k = k + 1;
    }
    proof {
        assert(win =~= key@);
    }
    true
}

/// Index of the first byte at or after `from` that is not ASCII
/// whitespace, or `s.len()` if all are.
pub fn skip_ws_pos(s: &[u8], from: usize) -> (r: usize)
    requires
        from <= s@.len(),
    ensures
        r as int == skip_ws_from(s@, from as int),
        from <= r <= s@.len(),
{
    let mut i: usize = from;
    while i < s.len() && ws_byte(s[i])
        invariant
            from <= i <= s@.len(),
            skip_ws_from(s@, from as int) == skip_ws_from(s@, i as int),
        decreases s@.len() - i,
    {
        i = i + 1;
    }
    i
}

/// Whether `b` is a space or a horizontal tab.
pub fn line_ws_byte(b: u8) -> (r: bool)
    ensures
        r == is_line_ws_byte(b),
{
    b == 32 || b == 9
}

/// Index of the first byte at or after `from` that is neither space nor
/// tab, or `s.len()` if all are.
pub fn skip_line_ws_pos(s: &[u8], from: usize) -> (r: usize)
    requires
        from <= s@.len(),
    ensures
        r as int == skip_line_ws_from(s@, from as int),
        from <= r <= s@.len(),
{
    let mut i: usize = from;
    while i < s.len() && line_ws_byte(s[i])
        invariant
            from <= i <= s@.len(),
            skip_line_ws_from(s@, from as int) == skip_line_ws_from(s@, i as int),
        decreases s@.len() - i,
    {
        i = i + 1;
    }
    i
}

/// Index of the first occurrence of `b` in `s` at or after `from`, or
/// `s.len()` if there is none.
pub fn find_byte_from(s: &[u8], from: usize, b: u8) -> (r: usize)
    requires
        from <= s@.len(),
    ensures
        r as int == find_from(s@, from as int, b),
        from <= r <= s@.len(),
{
    let mut i: usize = from;
    while i < s.len() && s[i] != b
        invariant
            from <= i <= s@.len(),
            find_from(s@, from as int, b) == find_from(s@, i as int, b),
        decreases s@.len() - i,
    {
        i = i + 1;
    }
    i
}

} // verus!
