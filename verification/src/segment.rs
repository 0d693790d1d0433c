//! Body segmentation: finding every occurrence of the boundary marker
//! (`--` followed by the boundary token) in a raw body, slicing the body
//! between adjacent occurrences, and trimming a single boundary-adjacent
//! line break from each end of a slice.
use vstd::prelude::*;

verus! {

/// The boundary marker bytes: `--` followed by the boundary token.
pub open spec fn marker_of(boundary: Seq<u8>) -> Seq<u8> {
    seq![45u8, 45u8] + boundary
}

/// Whether the marker occurs in `body` starting exactly at `i`.
pub open spec fn marker_at(body: Seq<u8>, m: Seq<u8>, i: int) -> bool {
    0 <= i && i + m.len() <= body.len() && body.subrange(i, i + m.len()) == m
}

/// The ascending list of marker occurrences that start before `n`.
pub open spec fn occ_upto(body: Seq<u8>, m: Seq<u8>, n: int) -> Seq<int>
    decreases n,
{
    if n <= 0 {
        Seq::empty()
    } else if marker_at(body, m, n - 1) {
        occ_upto(body, m, n - 1).push(n - 1)
    } else {
        occ_upto(body, m, n - 1)
    }
}

/// Every start offset at which the marker occurs in `body`, ascending.
pub open spec fn occurrences(body: Seq<u8>, m: Seq<u8>) -> Seq<int> {
    occ_upto(body, m, body.len() - m.len() + 1)
}

/// Entries of `occ_upto` are valid occurrence starts below `n`, in strictly
/// ascending order, and no occurrence below `n` is missed.
pub proof fn lemma_occ_upto(body: Seq<u8>, m: Seq<u8>, n: int)
    ensures
        forall|k: int|
            0 <= k < occ_upto(body, m, n).len() ==> marker_at(body, m, #[trigger] occ_upto(body, m, n)[k])
                && occ_upto(body, m, n)[k] < n,
        forall|i: int| 0 <= i < n && marker_at(body, m, i) ==> occ_upto(body, m, n).contains(i),
        forall|k1: int, k2: int|
            0 <= k1 < k2 < occ_upto(body, m, n).len() ==> #[trigger] occ_upto(body, m, n)[k1]
                < #[trigger] occ_upto(body, m, n)[k2],
    decreases n,
{
    if n > 0 {
        lemma_occ_upto(body, m, n - 1);
        let prev = occ_upto(body, m, n - 1);
        let cur = occ_upto(body, m, n);
        assert forall|k: int|
            0 <= k < cur.len() implies marker_at(body, m, #[trigger] cur[k]) && cur[k] < n by {
            if marker_at(body, m, n - 1) {
                if k < prev.len() {
                    assert(cur[k] == prev[k]);
                } else {
                    assert(cur[k] == n - 1);
                }
            } else {
                assert(cur[k] == prev[k]);
            }
        }
        assert forall|k1: int, k2: int|
            0 <= k1 < k2 < cur.len() implies #[trigger] cur[k1] < #[trigger] cur[k2] by {
            if marker_at(body, m, n - 1) {
                if k2 < prev.len() {
                    assert(cur[k1] == prev[k1] && cur[k2] == prev[k2]);
                } else {
                    assert(cur[k2] == n - 1);
                    assert(cur[k1] == prev[k1]);
                }
            } else {
                assert(cur[k1] == prev[k1] && cur[k2] == prev[k2]);
            }
        }
        assert forall|i: int| 0 <= i < n && marker_at(body, m, i) implies occ_upto(
            body,
            m,
            n,
        ).contains(i) by {
            if i < n - 1 {
                let k = choose|k: int| 0 <= k < prev.len() && prev[k] == i;
                assert(cur[k] == i);
            } else {
                assert(cur[cur.len() - 1] == i);
            }
        }
    }
}

/// `body.subrange(s, e)` where the range is valid, the empty sequence where
/// it is not (overlapping boundary occurrences make `s` exceed `e`).
pub open spec fn raw_range(body: Seq<u8>, s: int, e: int) -> Seq<u8> {
    if 0 <= s <= e <= body.len() {
        body.subrange(s, e)
    } else {
        Seq::empty()
    }
}

/// One leading line break removed: a `CR LF` pair for preference, else a
/// single `LF`. Sequences shorter than two bytes are returned unchanged.
pub open spec fn trim_lb_start(s: Seq<u8>) -> Seq<u8> {
    if s.len() < 2 {
        s
    } else if s[0] == 13 && s[1] == 10 {
        s.skip(2)
    } else if s[0] == 10 {
        s.skip(1)
    } else {
        s
    }
}

/// One trailing line break removed, with the same preference and the same
/// two-byte threshold as `trim_lb_start`.
pub open spec fn trim_lb_end(s: Seq<u8>) -> Seq<u8> {
    if s.len() < 2 {
        s
    } else if s[s.len() - 2] == 13 && s[s.len() - 1] == 10 {
        s.take(s.len() - 2)
    } else if s[s.len() - 1] == 10 {
        s.take(s.len() - 1)
    } else {
        s
    }
}

/// The content of the `k`-th part of `body` under marker `m`: the bytes
/// after the `k`-th occurrence's line terminator up to the next occurrence,
/// with one line break trimmed from each end.
pub open spec fn part_content(body: Seq<u8>, m: Seq<u8>, k: int) -> Seq<u8> {
    let occ = occurrences(body, m);
    trim_lb_end(trim_lb_start(raw_range(body, occ[k] + m.len() + 1, occ[k + 1])))
}

/// The ordered contents of all parts of `body` delimited by `boundary`:
/// one part for each adjacent pair of marker occurrences, so fewer than two
/// occurrences yield no parts.
pub open spec fn segment_spec(body: Seq<u8>, boundary: Seq<u8>) -> Seq<Seq<u8>> {
    let m = marker_of(boundary);
    let occ = occurrences(body, m);
    if occ.len() < 2 {
        Seq::empty()
    } else {
        Seq::new((occ.len() - 1) as nat, |k: int| part_content(body, m, k))
    }
}

/// Removes one leading line break — a `CR LF` pair for preference, else a
/// single `LF` — from a part's raw bytes. Slices shorter than two bytes are
/// returned unchanged.
pub fn trim_single_linebreak_from_start<'a>(body: &'a [u8]) -> (r: &'a [u8])
    ensures
        r@ == trim_lb_start(body@),
{
    if body.len() >= 2 {
        if body[0] == 13 && body[1] == 10 {
            vstd::slice::slice_subrange(body, 2, body.len())
        } else if body[0] == 10 {
            vstd::slice::slice_subrange(body, 1, body.len())
        } else {
            body
        }
    } else {
        body
    }
}

/// Removes one trailing line break — a `CR LF` pair for preference, else a
/// single `LF` — from a part's raw bytes. Slices shorter than two bytes are
/// returned unchanged.
pub fn trim_single_linebreak_from_end<'a>(body: &'a [u8]) -> (r: &'a [u8])
    ensures
        r@ == trim_lb_end(body@),
{
    if body.len() >= 2 {
        if body[body.len() - 2] == 13 && body[body.len() - 1] == 10 {
            vstd::slice::slice_subrange(body, 0, body.len() - 2)
        } else if body[body.len() - 1] == 10 {
            vstd::slice::slice_subrange(body, 0, body.len() - 1)
        } else {
            body
        }
    } else {
        body
    }
}

/// Splits `body` into its parts as delimited by `boundary`: one part for
/// each adjacent pair of boundary-marker occurrences, the byte after the
/// first marker skipped, one line break trimmed from each end.
pub fn segment_body(body: &[u8], boundary: &[u8]) -> (r: Vec<crate::part::Part>)
    ensures
        r.deep_view() == segment_spec(body@, boundary@),
{
    let ghost m = marker_of(boundary@);
    let mut marker: Vec<u8> = Vec::new();
    marker.push(45);
    marker.push(45);
    proof {
        assert(marker@ =~= seq![45u8, 45u8] + boundary@.take(0));
    }
    let blen0 = boundary.len();
    let mut bi: usize = 0;
    while bi < blen0
        invariant
            blen0 == boundary@.len(),
            0 <= bi <= blen0,
            marker@ == seq![45u8, 45u8] + boundary@.take(bi as int),
        decreases blen0 - bi,
    {
        marker.push(boundary[bi]);
        proof {
            assert(marker@ =~= seq![45u8, 45u8] + boundary@.take(bi as int + 1));
        }
        bi = bi + 1;
    }
    proof {
        assert(boundary@.take(boundary@.len() as int) =~= boundary@);
        assert(marker@ == m);
    }
    let occ = find_occurrences(body, marker.as_slice());
    let ghost occs = occurrences(body@, m);
    let mut out: Vec<crate::part::Part> = Vec::new();
    if occ.len() < 2 {
        proof {
            assert(out.deep_view() =~= segment_spec(body@, boundary@));
        }
        return out;
    }
    let blen = body.len();
    let mlen = marker.len();
    let n_parts = occ.len() - 1;
    let mut k: usize = 0;
    while k < n_parts
        invariant
            blen == body@.len(),
            mlen == m.len(),
            m == marker_of(boundary@),
            occs == occurrences(body@, m),
            occ@.map_values(|u: usize| u as int) == occs,
            forall|j: int| 0 <= j < occ@.len() ==> #[trigger] occ@[j] + mlen <= blen,
            n_parts == occ@.len() - 1,
            occ@.len() >= 2,
            0 <= k <= n_parts,
            out@.len() == k,
            out.deep_view() =~= segment_spec(body@, boundary@).take(k as int),
        decreases n_parts - k,
    {
        let s0 = occ[k] + mlen;
        let e = occ[k + 1];
        proof {
            assert(occs[k as int] == occ@[k as int]);
            assert(occs[k as int + 1] == occ@[k as int + 1]);
        }
        let raw = if s0 < e {
            vstd::slice::slice_subrange(body, s0 + 1, e)
        } else {
            vstd::slice::slice_subrange(body, 0, 0)
        };
        proof {
            assert(raw@ == raw_range(body@, occs[k as int] + m.len() + 1, occs[k as int + 1]));
        }
        let t1 = trim_single_linebreak_from_start(raw);
        let t2 = trim_single_linebreak_from_end(t1);
        let ghost prev_vec = out@;
        let ghost prev_dv = out.deep_view();
        let content_vec = vstd::slice::slice_to_vec(t2);
        proof {
            assert(content_vec@ == part_content(body@, m, k as int));
        }
        out.push(crate::part::Part::new(content_vec));
        proof {
            assert(out@.len() == k + 1);
            assert(out@[k as int].content@ == part_content(body@, m, k as int));
            assert forall|j: int| 0 <= j < k implies out.deep_view()[j] == prev_dv[j] by {
                assert(out@[j] == prev_vec[j]);
            }
            assert(out.deep_view()[k as int] == part_content(body@, m, k as int));
            assert(out.deep_view() =~= segment_spec(body@, boundary@).take(k as int + 1));
        }
        k = k + 1;
    }
    proof {
        assert(segment_spec(body@, boundary@).take(n_parts as int) =~= segment_spec(
            body@,
            boundary@,
        ));
    }
    out
}

/// All start offsets at which `m` occurs in `body`, in ascending order.
pub fn find_occurrences(body: &[u8], m: &[u8]) -> (r: Vec<usize>)
    requires
        m@.len() >= 1,
    ensures
        r@.map_values(|u: usize| u as int) == occurrences(body@, m@),
        forall|k: int| 0 <= k < r@.len() ==> #[trigger] r@[k] + m@.len() <= body@.len(),
{
    let mut r: Vec<usize> = Vec::new();
    if m.len() > body.len() {
        proof {
            assert(occurrences(body@, m@) =~= r@.map_values(|u: usize| u as int));
        }
        return r;
    }
    let blen = body.len();
    let mlen = m.len();
    let n_pos: usize = blen - mlen + 1;
    let mut i: usize = 0;
    while i < n_pos
        invariant
            blen == body@.len(),
            mlen == m@.len(),
            mlen >= 1,
            mlen <= blen,
            n_pos == blen - mlen + 1,
            0 <= i <= n_pos,
            r@.map_values(|u: usize| u as int) == occ_upto(body@, m@, i as int),
            forall|k: int| 0 <= k < r@.len() ==> #[trigger] r@[k] + m@.len() <= body@.len(),
        decreases n_pos - i,
    {
        let window = vstd::slice::slice_subrange(body, i, i + mlen);
        let ghost old_r = r@;
        if crate::ascii::bytes_eq(window, m) {
            r.push(i);
            proof {
                assert(marker_at(body@, m@, i as int));
                assert(r@.map_values(|u: usize| u as int) =~= old_r.map_values(
                    |u: usize| u as int,
                ).push(i as int));
            }
        } else {
            proof {
                assert(!marker_at(body@, m@, i as int));
            }
        }
        i = i + 1;
    }
    r
}

} // verus!
