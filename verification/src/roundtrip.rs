//! The round-trip law: a body assembled from K well-formed parts, framed
//! with a boundary under either line-ending convention, splits back into
//! exactly those K parts, in order — in particular the closing marker
//! `--<boundary>--` adds no spurious trailing part.
use vstd::prelude::*;

use crate::segment::marker_at;
use crate::segment::marker_of;
use crate::segment::occ_upto;
use crate::segment::occurrences;
use crate::segment::lemma_occ_upto;
use crate::segment::part_content;
use crate::segment::raw_range;
use crate::segment::segment_spec;
use crate::segment::trim_lb_end;
use crate::segment::trim_lb_start;

verus! {

/// A bare line feed.
pub open spec fn lf() -> Seq<u8> {
    seq![10u8]
}

/// A carriage return and line feed.
pub open spec fn crlf() -> Seq<u8> {
    seq![13u8, 10u8]
}

/// One framed part: the boundary marker, a line break, the part's content,
/// and the line break that the next boundary line starts with.
pub open spec fn chunk(m: Seq<u8>, nl: Seq<u8>, p: Seq<u8>) -> Seq<u8> {
    m + nl + p + nl
}

/// A whole multipart body: each part framed in turn, closed by the
/// `--<boundary>--` line.
pub open spec fn chained(m: Seq<u8>, nl: Seq<u8>, ps: Seq<Seq<u8>>) -> Seq<u8>
    decreases ps.len(),
{
    if ps.len() == 0 {
        m + seq![45u8, 45u8] + nl
    } else {
        chunk(m, nl, ps[0]) + chained(m, nl, ps.skip(1))
    }
}

/// A part that framing and trimming leave untouched: non-empty, not
/// opening with a line break (nor with a lone `CR`), not closing with a
/// `CR`, and nowhere containing the boundary marker.
pub open spec fn well_formed_part(p: Seq<u8>, m: Seq<u8>) -> bool {
    &&& p.len() >= 1
    &&& p[0] != 10
    &&& (p[0] == 13 ==> p.len() >= 2 && p[1] != 10)
    &&& p[p.len() - 1] != 13
    &&& forall|i: int| !marker_at(p, m, i)
}

/// A boundary whose marker framing cannot mimic: non-empty, free of line
/// breaks, and not made of dashes alone.
pub open spec fn framable_boundary(b: Seq<u8>) -> bool {
    &&& b.len() >= 1
    &&& forall|i: int| 0 <= i < b.len() ==> b[i] != 10 && b[i] != 13
    &&& exists|i: int| 0 <= i < b.len() && b[i] != 45
}

/// If the marker, shifted by `q` within itself followed by dashes, still
/// reads as the marker, every marker byte from `k` on up is a dash.
proof fn lemma_shifted_all_dashes(m: Seq<u8>, ext: Seq<u8>, q: int, k: int)
    requires
        1 <= q,
        0 <= k < m.len(),
        q + m.len() <= m.len() + ext.len(),
        forall|i: int| 0 <= i < ext.len() ==> ext[i] == 45,
        forall|i: int| 0 <= i < m.len() ==> m[i] == #[trigger] (m + ext)[i + q],
    ensures
        m[k] == 45,
    decreases m.len() - k,
{
    if k + q < m.len() {
        lemma_shifted_all_dashes(m, ext, q, k + q);
        assert(m[k] == (m + ext)[k + q]);
    } else {
        assert(m[k] == (m + ext)[k + q]);
        assert((m + ext)[k + q] == ext[k + q - m.len()]);
    }
}

/// While only position 0 carries the marker, the occurrence list up to
/// `upto` is exactly `[0]`.
proof fn lemma_occ_upto_prefix_single(s: Seq<u8>, m: Seq<u8>, upto: int)
    requires
        marker_at(s, m, 0),
        1 <= upto,
        forall|q: int| 1 <= q < upto ==> !marker_at(s, m, q),
    ensures
        occ_upto(s, m, upto) == seq![0int],
    decreases upto,
{
    if upto == 1 {
        assert(occ_upto(s, m, 1) == occ_upto(s, m, 0).push(0));
        assert(occ_upto(s, m, 1) =~= seq![0int]);
    } else {
        lemma_occ_upto_prefix_single(s, m, upto - 1);
    }
}

/// The marker stands at `a.len() + j` of `a + rest` exactly when it
/// stands at `j` of `rest`.
proof fn lemma_marker_at_shift(a: Seq<u8>, rest: Seq<u8>, m: Seq<u8>, j: int)
    requires
        0 <= j,
    ensures
        marker_at(a + rest, m, a.len() as int + j) == marker_at(rest, m, j),
{
    let s = a + rest;
    if j + m.len() <= rest.len() {
        assert(s.subrange(a.len() as int + j, a.len() + j + m.len()) =~= rest.subrange(
            j,
            j + m.len(),
        ));
    }
}

/// Occurrence lists distribute over concatenation: past `a`, the
/// occurrences of `a + rest` are those of `rest`, shifted.
proof fn lemma_occ_upto_shift(a: Seq<u8>, rest: Seq<u8>, m: Seq<u8>, j: int)
    requires
        0 <= j,
    ensures
        occ_upto(a + rest, m, a.len() as int + j) == occ_upto(a + rest, m, a.len() as int) + occ_upto(
            rest,
            m,
            j,
        ).map_values(|o: int| o + a.len()),
    decreases j,
{
    if j == 0 {
        assert(occ_upto(rest, m, 0).map_values(|o: int| o + a.len()) =~= Seq::<int>::empty());
        assert(occ_upto(a + rest, m, a.len() as int + j) =~= occ_upto(a + rest, m, a.len() as int)
            + Seq::<int>::empty());
    } else {
        lemma_occ_upto_shift(a, rest, m, j - 1);
        lemma_marker_at_shift(a, rest, m, j - 1);
        if marker_at(rest, m, j - 1) {
            assert(occ_upto(a + rest, m, a.len() as int + j) =~= occ_upto(
                a + rest,
                m,
                a.len() as int,
            ) + occ_upto(rest, m, j).map_values(|o: int| o + a.len()));
        } else {
            assert(occ_upto(rest, m, j) == occ_upto(rest, m, j - 1));
        }
    }
}

/// A chained body is never shorter than the marker.
proof fn lemma_chained_min_len(m: Seq<u8>, nl: Seq<u8>, ps: Seq<Seq<u8>>)
    ensures
        chained(m, nl, ps).len() >= m.len() + 2,
    decreases ps.len(),
{
    if ps.len() > 0 {
        lemma_chained_min_len(m, nl, ps.skip(1));
    }
}

/// Within one framed chunk, no position after 0 carries the marker: every
/// candidate span either covers a line-break byte, which the marker does
/// not hold, or falls inside the part, which is marker-free.
proof fn lemma_chunk_no_inner_occurrence(
    m: Seq<u8>,
    nl: Seq<u8>,
    p: Seq<u8>,
    rest: Seq<u8>,
    q: int,
)
    requires
        m.len() >= 3,
        forall|i: int| 0 <= i < m.len() ==> m[i] != 10 && m[i] != 13,
        m[0] == 45,
        nl == lf() || nl == crlf(),
        well_formed_part(p, m),
        1 <= q < chunk(m, nl, p).len(),
    ensures
        !marker_at(chunk(m, nl, p) + rest, m, q),
{
    let c = chunk(m, nl, p);
    let s = c + rest;
    let mlen = m.len() as int;
    let nlen = nl.len() as int;
    let plen = p.len() as int;
    let pstart = mlen + nlen;
    let pend = pstart + plen;
    assert(c.len() == pend + nlen);
    assert forall|idx: int| 0 <= idx < c.len() implies s[idx] == (if idx < mlen {
        m[idx]
    } else if idx < pstart {
        nl[idx - mlen]
    } else if idx < pend {
        p[idx - pstart]
    } else {
        nl[idx - pend]
    }) by {
        assert(s[idx] == c[idx]);
    }
    assert(nl[0] == 10 || nl[0] == 13);
    if marker_at(s, m, q) {
        assert(forall|i: int| 0 <= i < mlen ==> m[i] == #[trigger] s.subrange(q, q + mlen)[i]);
        assert(forall|i: int| 0 <= i < mlen ==> m[i] == s[q + i]);
        if q <= mlen {
            assert(s[mlen] == nl[0]);
            assert(m[mlen - q] == s[mlen]);
        } else if q < pstart {
            assert(s[q] == nl[q - mlen]);
            assert(nl[q - mlen] == 10 || nl[q - mlen] == 13);
            assert(m[0] == s[q]);
        } else if q < pend {
            if q + mlen <= pend {
                assert(p.subrange(q - pstart, q - pstart + mlen) =~= s.subrange(q, q + mlen));
                assert(marker_at(p, m, q - pstart));
            } else {
                assert(s[pend] == nl[0]);
                assert(m[pend - q] == s[pend]);
            }
        } else {
            assert(s[q] == nl[q - pend]);
            assert(nl[q - pend] == 10 || nl[q - pend] == 13);
            assert(m[0] == s[q]);
        }
    }
}

/// In the closing chunk `--<boundary>--` plus line break, no position
/// after 0 carries the marker.
proof fn lemma_tail_no_inner_occurrence(m: Seq<u8>, nl: Seq<u8>, b: Seq<u8>, q: int)
    requires
        m == marker_of(b),
        framable_boundary(b),
        nl == lf() || nl == crlf(),
        1 <= q < m.len() + 2 + nl.len(),
    ensures
        !marker_at(m + seq![45u8, 45u8] + nl, m, q),
{
    let tail = m + seq![45u8, 45u8] + nl;
    let mlen = m.len() as int;
    assert(mlen == 2 + b.len());
    assert forall|idx: int| 0 <= idx < tail.len() implies tail[idx] == (if idx < mlen {
        m[idx]
    } else if idx < mlen + 2 {
        45u8
    } else {
        nl[idx - mlen - 2]
    }) by {}
    if marker_at(tail, m, q) {
        assert(forall|i: int| 0 <= i < mlen ==> m[i] == #[trigger] tail.subrange(q, q + mlen)[i]);
        assert(forall|i: int| 0 <= i < mlen ==> m[i] == tail[q + i]);
        if q <= 2 {
            let ext = seq![45u8, 45u8];
            assert forall|i: int| 0 <= i < mlen implies m[i] == #[trigger] (m + ext)[i + q] by {
                assert(tail[q + i] == (m + ext)[i + q]);
            }
            let w = choose|i: int| 0 <= i < b.len() && b[i] != 45;
            lemma_shifted_all_dashes(m, ext, q, 2 + w);
            assert(m[2 + w] == b[w]);
        } else {
            assert(tail[mlen + 2] == nl[0]);
            assert(nl[0] == 10 || nl[0] == 13);
            assert(m[mlen + 2 - q] == tail[mlen + 2]);
            assert(m[mlen + 2 - q] != 10 && m[mlen + 2 - q] != 13) by {
                assert(forall|i: int| 0 <= i < b.len() ==> b[i] != 10 && b[i] != 13);
            }
        }
    }
}

/// Occurrences of a chained body: position 0, then the occurrences of the
/// remainder, shifted past the first chunk.
proof fn lemma_occ_chained(b: Seq<u8>, nl: Seq<u8>, ps: Seq<Seq<u8>>)
    requires
        framable_boundary(b),
        nl == lf() || nl == crlf(),
        forall|k: int| 0 <= k < ps.len() ==> well_formed_part(#[trigger] ps[k], marker_of(b)),
    ensures
        ps.len() == 0 ==> occurrences(chained(marker_of(b), nl, ps), marker_of(b)) == seq![0int],
        ps.len() > 0 ==> occurrences(chained(marker_of(b), nl, ps), marker_of(b)) == seq![0int]
            + occurrences(chained(marker_of(b), nl, ps.skip(1)), marker_of(b)).map_values(
            |o: int| o + chunk(marker_of(b), nl, ps[0]).len(),
        ),
    decreases ps.len(),
{
    let m = marker_of(b);
    let mlen = m.len() as int;
    assert(m[0] == 45 && m[1] == 45);
    assert(forall|i: int| 0 <= i < mlen ==> m[i] != 10 && m[i] != 13);
    if ps.len() == 0 {
        let tail = chained(m, nl, ps);
        assert(tail == m + seq![45u8, 45u8] + nl);
        assert(marker_at(tail, m, 0)) by {
            assert(tail.subrange(0, mlen) =~= m);
        }
        assert forall|q: int| 1 <= q < tail.len() - mlen + 1 implies !marker_at(tail, m, q) by {
            lemma_tail_no_inner_occurrence(m, nl, b, q);
        }
        lemma_occ_upto_prefix_single(tail, m, tail.len() - mlen + 1);
    } else {
        let c = chunk(m, nl, ps[0]);
        let rest = chained(m, nl, ps.skip(1));
        let body = chained(m, nl, ps);
        assert(body == c + rest);
        assert(marker_at(body, m, 0)) by {
            assert(body.subrange(0, mlen) =~= m);
        }
        assert forall|q: int| 1 <= q < c.len() implies !marker_at(body, m, q) by {
            lemma_chunk_no_inner_occurrence(m, nl, ps[0], rest, q);
        }
        lemma_chained_min_len(m, nl, ps.skip(1));
        let n_rest = rest.len() - mlen + 1;
        assert(n_rest >= 1);
        lemma_occ_upto_prefix_single(body, m, c.len() as int);
        lemma_occ_upto_shift(c, rest, m, n_rest);
        assert(body.len() - mlen + 1 == c.len() + n_rest);
        assert(occurrences(body, m) == seq![0int] + occurrences(rest, m).map_values(
            |o: int| o + c.len(),
        ));
    }
}

/// The first framed part of a chunked body, trimmed, is the part itself.
proof fn lemma_chunk_part0(m: Seq<u8>, nl: Seq<u8>, p0: Seq<u8>, rest: Seq<u8>)
    requires
        m.len() >= 3,
        nl == lf() || nl == crlf(),
        well_formed_part(p0, m),
    ensures
        trim_lb_end(
            trim_lb_start(
                raw_range(chunk(m, nl, p0) + rest, m.len() as int + 1, chunk(m, nl, p0).len() as int),
            ),
        ) == p0,
{
    let c = chunk(m, nl, p0);
    let body = c + rest;
    let mlen = m.len() as int;
    assert(mlen + 1 <= c.len());
    let raw0 = raw_range(body, mlen + 1, c.len() as int);
    assert forall|idx: int| mlen + 1 <= idx < c.len() implies body[idx] == c[idx] by {}
    assert(raw0 == body.subrange(mlen + 1, c.len() as int));
    if nl == lf() {
        assert(raw0 =~= p0 + seq![10u8]);
        assert(trim_lb_start(raw0) == raw0);
        assert(trim_lb_end(raw0) =~= p0);
    } else {
        assert(raw0 =~= seq![10u8] + p0 + seq![13u8, 10u8]);
        assert(trim_lb_start(raw0) =~= p0 + seq![13u8, 10u8]);
        assert(trim_lb_end(trim_lb_start(raw0)) =~= p0);
    }
}

/// A raw part range taken past a prefix of the body is the same range of
/// the remainder.
proof fn lemma_raw_range_shift(c: Seq<u8>, rest: Seq<u8>, s_r: int, e_r: int)
    requires
        0 <= s_r,
        e_r <= rest.len(),
    ensures
        raw_range(c + rest, c.len() as int + s_r, c.len() as int + e_r) == raw_range(rest, s_r, e_r),
{
    if s_r <= e_r {
        assert((c + rest).subrange(c.len() as int + s_r, c.len() as int + e_r) =~= rest.subrange(s_r, e_r));
    }
}

/// Law: a body assembled from K well-formed parts with a framable
/// boundary — under `LF` or `CR LF` line endings alike — splits back into
/// exactly those K parts, in their original order; the closing
/// `--<boundary>--` line produces no spurious extra part.
#[verifier::rlimit(100)]
pub proof fn lemma_multipart_round_trip(b: Seq<u8>, nl: Seq<u8>, ps: Seq<Seq<u8>>)
    requires
        framable_boundary(b),
        nl == lf() || nl == crlf(),
        forall|k: int| 0 <= k < ps.len() ==> well_formed_part(#[trigger] ps[k], marker_of(b)),
    ensures
        segment_spec(chained(marker_of(b), nl, ps), b) == ps,
        occurrences(chained(marker_of(b), nl, ps), marker_of(b)).len() == ps.len() + 1,
        occurrences(chained(marker_of(b), nl, ps), marker_of(b))[0] == 0,
    decreases ps.len(),
{
    let m = marker_of(b);
    let mlen = m.len() as int;
    let nlen = nl.len() as int;
    lemma_occ_chained(b, nl, ps);
    if ps.len() == 0 {
        assert(segment_spec(chained(m, nl, ps), b) =~= ps);
    } else {
        let p0 = ps[0];
        let c = chunk(m, nl, p0);
        let rest = chained(m, nl, ps.skip(1));
        let body = chained(m, nl, ps);
        assert(body == c + rest);
        assert forall|k: int|
            0 <= k < ps.skip(1).len() implies well_formed_part(
            #[trigger] ps.skip(1)[k],
            m,
        ) by {
            assert(ps.skip(1)[k] == ps[k + 1]);
        }
        lemma_multipart_round_trip(b, nl, ps.skip(1));
        let occ_rest = occurrences(rest, m);
        let occ = occurrences(body, m);
        assert(occ == seq![0int] + occ_rest.map_values(|o: int| o + c.len()));
        assert(occ.len() == ps.len() + 1);
        assert(occ[0] == 0);
        lemma_occ_upto(rest, m, rest.len() - mlen + 1);
        // Part 0 is exactly the first framed part, trimmed back to itself.
        assert(occ[1] == c.len() + occ_rest[0]);
        assert(occ[1] == c.len());
        lemma_chunk_part0(m, nl, p0, rest);
        assert(part_content(body, m, 0) == p0);
        // Later parts are the remainder's parts, shifted past the chunk.
        assert forall|k: int| 1 <= k < ps.len() implies part_content(body, m, k) == ps[k] by {
            assert(occ[k] == c.len() + occ_rest[k - 1]);
            assert(occ[k + 1] == c.len() + occ_rest[k]);
            let s_r = occ_rest[k - 1] + mlen + 1;
            let e_r = occ_rest[k];
            assert(marker_at(rest, m, e_r));
            assert(marker_at(rest, m, occ_rest[k - 1]));
            assert(e_r + mlen <= rest.len());
            lemma_raw_range_shift(c, rest, s_r, e_r);
            assert(part_content(body, m, k) == part_content(rest, m, k - 1));
            assert(segment_spec(rest, b)[k - 1] == part_content(rest, m, k - 1));
            assert(ps.skip(1)[k - 1] == ps[k]);
        }
        assert(segment_spec(body, b) =~= ps);
    }
}

/// Law: the whole pipeline round-trips. A request whose single
/// `Content-Type` value is `multipart/form-data; boundary=<B>` and whose
/// body is assembled from K well-formed parts — under either line-ending
/// convention — parses into exactly those K parts, in order.
pub proof fn lemma_parts_round_trip(b: Seq<u8>, nl: Seq<u8>, ps: Seq<Seq<u8>>)
    requires
        framable_boundary(b),
        crate::ascii::trimmed(b) == b,
        forall|i: int| 0 <= i < b.len() ==> b[i] != 59 && b[i] != 61,
        nl == lf() || nl == crlf(),
        forall|k: int| 0 <= k < ps.len() ==> well_formed_part(#[trigger] ps[k], marker_of(b)),
    ensures
        crate::request::parts_spec(
            seq![crate::laws::multipart_value_of(crate::content_type::form_data_bytes(), b)],
            chained(marker_of(b), nl, ps),
        ) == ps,
{
    let fd = crate::content_type::form_data_bytes();
    assert forall|i: int| 0 <= i < fd.len() implies fd[i] != 59 by {}
    assert(crate::ascii::trimmed(b).len() > 0);
    crate::laws::lemma_content_type_roundtrip(fd, b);
    assert(crate::ascii::trimmed(fd) == fd) by {
        assert(!crate::ascii::is_ws_byte(fd[0]));
        crate::ascii::lemma_skip_ws_at(fd, 0, 0);
        assert(!crate::ascii::is_ws_byte(fd[8]));
        crate::ascii::lemma_rskip_ws_at(fd, fd.len() as int, fd.len() as int);
        assert(fd.subrange(0, 9) =~= fd);
    }
    lemma_multipart_round_trip(b, nl, ps);
}

} // verus!
