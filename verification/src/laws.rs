//! The general laws that the parser obeys, stated and proved once over the
//! specification functions that the executable contracts use.
use vstd::prelude::*;

use crate::ascii::is_ws_byte;
use crate::ascii::lemma_find_from_absent;
use crate::ascii::lemma_find_from_at;
use crate::ascii::lemma_rskip_ws;
use crate::ascii::lemma_rskip_ws_at;
use crate::ascii::lemma_skip_ws_at;
use crate::ascii::lemma_skip_ws_from;
use crate::ascii::lower_byte;
use crate::ascii::lower_seq;
use crate::ascii::rskip_ws;
use crate::ascii::skip_ws_from;
use crate::ascii::trimmed;
use crate::content_type::boundary_from;
use crate::content_type::boundary_key;
use crate::content_type::boundary_of;
use crate::content_type::content_type_spec;
use crate::content_type::directive_boundary;
use crate::content_type::first_multipart_value;
use crate::content_type::is_multipart_value;
use crate::content_type::multipart_prefix;
use crate::content_type::subtype_of;
use crate::request::parts_spec;

verus! {

/// Law: parsing is a pure function of the header values and the body; two
/// parses of equal inputs yield identical part sequences, field for field.
pub proof fn lemma_parts_deterministic(
    values1: Seq<Seq<u8>>,
    body1: Seq<u8>,
    values2: Seq<Seq<u8>>,
    body2: Seq<u8>,
)
    requires
        values1 == values2,
        body1 == body2,
    ensures
        parts_spec(values1, body1) == parts_spec(values2, body2),
{
}

proof fn lemma_no_multipart_value(values: Seq<Seq<u8>>)
    requires
        forall|i: int| 0 <= i < values.len() ==> !is_multipart_value(#[trigger] values[i]),
    ensures
        first_multipart_value(values) is None,
    decreases values.len(),
{
    if values.len() > 0 {
        assert forall|i: int|
            0 <= i < values.skip(1).len() implies !is_multipart_value(
            #[trigger] values.skip(1)[i],
        ) by {
            assert(values.skip(1)[i] == values[i + 1]);
        }
        lemma_no_multipart_value(values.skip(1));
    }
}

/// Law: a request none of whose `Content-Type` values looks multipart —
/// and in particular a request with no `Content-Type` value at all — has
/// no parts, whatever its body holds.
pub proof fn lemma_non_multipart_no_parts(values: Seq<Seq<u8>>, body: Seq<u8>)
    requires
        forall|i: int| 0 <= i < values.len() ==> !is_multipart_value(#[trigger] values[i]),
    ensures
        parts_spec(values, body) == Seq::<Seq<u8>>::empty(),
{
    lemma_no_multipart_value(values);
}

proof fn lemma_boundary_from_nonempty(t: Seq<u8>, from: int)
    requires
        0 <= from <= t.len(),
    ensures
        boundary_from(t, from) matches Some(bd) ==> bd.len() > 0,
    decreases t.len() + 1 - from,
{
    crate::ascii::lemma_find_from(t, from, 59);
    let end = crate::ascii::find_from(t, from, 59);
    let d = trimmed(t.subrange(from, end));
    if directive_boundary(d) is None && end < t.len() {
        lemma_boundary_from_nonempty(t, end + 1);
    }
}

/// Law (parser invariant): a boundary, when the parser reports one, is
/// never empty.
pub proof fn lemma_boundary_nonempty(v: Seq<u8>)
    ensures
        boundary_of(v) matches Some(bd) ==> bd.len() > 0,
{
    lemma_boundary_from_nonempty(trimmed(v), 0);
}

proof fn lemma_sep_from_skip(s: Seq<u8>, t: int)
    requires
        0 <= t <= s.len(),
        forall|i: int| 0 <= i < t ==> !(i + 2 <= s.len() && #[trigger] s[i] == 10 && s[i + 1]
            == 10),
        forall|i: int|
            0 <= i < t ==> !(i + 4 <= s.len() && #[trigger] s[i] == 13 && s[i + 1] == 10 && s[i
                + 2] == 13 && s[i + 3] == 10),
    ensures
        crate::part::sep_from(s, 0) == crate::part::sep_from(s, t),
    decreases t,
{
    if t > 0 {
        lemma_sep_from_skip(s, t - 1);
    }
}

/// Law (line-ending independence): a part whose header block is a single
/// line free of line-break bytes yields the same header bytes, the same
/// body, and so the same `name`, `filename` and `Content-Type` values,
/// whether the header/body separator is written `LF LF` or
/// `CR LF CR LF`.
pub proof fn lemma_line_ending_independence(hline: Seq<u8>, body: Seq<u8>)
    requires
        forall|i: int| 0 <= i < hline.len() ==> hline[i] != 10 && hline[i] != 13,
    ensures
        ({
            let c_lf = hline + seq![10u8, 10u8] + body;
            let c_crlf = hline + seq![13u8, 10u8, 13u8, 10u8] + body;
            &&& crate::part::header_body_split(c_lf) == Some((hline.len() as int, 2int))
            &&& crate::part::header_body_split(c_crlf) == Some((hline.len() as int, 4int))
            &&& crate::part::header_bytes_of(c_lf) == hline
            &&& crate::part::header_bytes_of(c_crlf) == hline
            &&& crate::part::body_bytes_of(c_lf) == Some(body)
            &&& crate::part::body_bytes_of(c_crlf) == Some(body)
            &&& crate::part::name_of(crate::part::header_bytes_of(c_lf)) == crate::part::name_of(
                crate::part::header_bytes_of(c_crlf),
            )
            &&& crate::part::filename_of(crate::part::header_bytes_of(c_lf))
                == crate::part::filename_of(crate::part::header_bytes_of(c_crlf))
            &&& crate::part::content_type_of(crate::part::header_bytes_of(c_lf))
                == crate::part::content_type_of(crate::part::header_bytes_of(c_crlf))
        }),
{
    let c_lf = hline + seq![10u8, 10u8] + body;
    let c_crlf = hline + seq![13u8, 10u8, 13u8, 10u8] + body;
    let hlen = hline.len() as int;
    assert forall|i: int| 0 <= i < hlen implies c_lf[i] != 10 && c_lf[i] != 13 by {
        assert(c_lf[i] == hline[i]);
    }
    lemma_sep_from_skip(c_lf, hlen);
    assert(c_lf[hlen] == 10 && c_lf[hlen + 1] == 10);
    assert(crate::part::sep_from(c_lf, hlen) == Some((hlen, 2int)));
    assert forall|i: int| 0 <= i < hlen implies c_crlf[i] != 10 && c_crlf[i] != 13 by {
        assert(c_crlf[i] == hline[i]);
    }
    lemma_sep_from_skip(c_crlf, hlen);
    assert(c_crlf[hlen] == 13 && c_crlf[hlen + 1] == 10 && c_crlf[hlen + 2] == 13 && c_crlf[hlen
        + 3] == 10);
    assert(crate::part::sep_from(c_crlf, hlen) == Some((hlen, 4int)));
    assert(c_lf.take(hlen) =~= hline);
    assert(c_crlf.take(hlen) =~= hline);
    assert(c_lf.skip(hlen + 2) =~= body);
    assert(c_crlf.skip(hlen + 4) =~= body);
}

/// Law (line-ending independence, two header lines): a part whose header
/// block is two lines free of line-break bytes splits at the same place,
/// yields the same body, and declares the same `Content-Type`, whether
/// the line breaks are written `LF` or `CR LF` throughout.
#[verifier::rlimit(80)]
pub proof fn lemma_two_line_ending_independence(l1: Seq<u8>, l2: Seq<u8>, body: Seq<u8>)
    requires
        l1.len() >= 1,
        l2.len() >= 1,
        forall|i: int| 0 <= i < l1.len() ==> l1[i] != 10 && l1[i] != 13,
        forall|i: int| 0 <= i < l2.len() ==> l2[i] != 10 && l2[i] != 13,
    ensures
        ({
            let h_lf = l1 + seq![10u8] + l2;
            let h_crlf = l1 + seq![13u8, 10u8] + l2;
            let c_lf = h_lf + seq![10u8, 10u8] + body;
            let c_crlf = h_crlf + seq![13u8, 10u8, 13u8, 10u8] + body;
            &&& crate::part::header_body_split(c_lf) == Some((h_lf.len() as int, 2int))
            &&& crate::part::header_body_split(c_crlf) == Some((h_crlf.len() as int, 4int))
            &&& crate::part::header_bytes_of(c_lf) == h_lf
            &&& crate::part::header_bytes_of(c_crlf) == h_crlf
            &&& crate::part::body_bytes_of(c_lf) == Some(body)
            &&& crate::part::body_bytes_of(c_crlf) == Some(body)
            &&& crate::part::content_type_of(h_lf) == crate::part::content_type_of(h_crlf)
        }),
{
    let el1 = l1.len() as int;
    let el2 = l2.len() as int;
    let h_lf = l1 + seq![10u8] + l2;
    let h_crlf = l1 + seq![13u8, 10u8] + l2;
    let c_lf = h_lf + seq![10u8, 10u8] + body;
    let c_crlf = h_crlf + seq![13u8, 10u8, 13u8, 10u8] + body;
    let n_lf = h_lf.len() as int;
    let n_crlf = h_crlf.len() as int;
    assert forall|i: int| 0 <= i < n_lf implies h_lf[i] == (if i < el1 {
        l1[i]
    } else if i == el1 {
        10u8
    } else {
        l2[i - el1 - 1]
    }) by {}
    assert forall|i: int| 0 <= i < n_crlf implies h_crlf[i] == (if i < el1 {
        l1[i]
    } else if i == el1 {
        13u8
    } else if i == el1 + 1 {
        10u8
    } else {
        l2[i - el1 - 2]
    }) by {}
    // The separator: the single internal line break never doubles up.
    assert forall|i: int|
        0 <= i < n_lf implies !(i + 2 <= c_lf.len() && #[trigger] c_lf[i] == 10 && c_lf[i + 1]
        == 10) && !(i + 4 <= c_lf.len() && c_lf[i] == 13 && c_lf[i + 1] == 10 && c_lf[i + 2] == 13
        && c_lf[i + 3] == 10) by {
        assert(c_lf[i] == h_lf[i]);
        if i + 1 < n_lf {
            assert(c_lf[i + 1] == h_lf[i + 1]);
        }
    }
    lemma_sep_from_skip(c_lf, n_lf);
    assert(c_lf[n_lf] == 10 && c_lf[n_lf + 1] == 10);
    assert(crate::part::sep_from(c_lf, n_lf) == Some((n_lf, 2int)));
    assert forall|i: int|
        0 <= i < n_crlf implies !(i + 2 <= c_crlf.len() && #[trigger] c_crlf[i] == 10 && c_crlf[i
        + 1] == 10) && !(i + 4 <= c_crlf.len() && c_crlf[i] == 13 && c_crlf[i + 1] == 10 && c_crlf[i
        + 2] == 13 && c_crlf[i + 3] == 10) by {
        assert(c_crlf[i] == h_crlf[i]);
        if i + 1 < n_crlf {
            assert(c_crlf[i + 1] == h_crlf[i + 1]);
        }
        if i + 2 < n_crlf {
            assert(c_crlf[i + 2] == h_crlf[i + 2]);
        }
        if i == el1 {
            assert(c_crlf[i + 2] == l2[0]);
        }
    }
    lemma_sep_from_skip(c_crlf, n_crlf);
    assert(c_crlf[n_crlf] == 13 && c_crlf[n_crlf + 1] == 10 && c_crlf[n_crlf + 2] == 13
        && c_crlf[n_crlf + 3] == 10);
    assert(crate::part::sep_from(c_crlf, n_crlf) == Some((n_crlf, 4int)));
    assert(c_lf.take(n_lf) =~= h_lf);
    assert(c_crlf.take(n_crlf) =~= h_crlf);
    assert(c_lf.skip(n_lf + 2) =~= body);
    assert(c_crlf.skip(n_crlf + 4) =~= body);
    // The Content-Type line: the two headers carry the same two lines, so
    // the scan matches the same line and captures the same bytes.
    let key = crate::part::content_type_key();
    assert(forall|j: int| 0 <= j < 13 ==> key[j] != 10 && key[j] != 13);
    lemma_two_line_ct(l1, l2);
}

/// The position of a two-line header's `LF`-framed byte in its
/// `CR LF`-framed twin: positions past the break shift by one.
pub open spec fn crlf_pos(i: int, el1: int) -> int {
    if i <= el1 {
        i
    } else {
        i + 1
    }
}

/// The quoted-directive test at one position of a two-line header, under
/// either framing: both fail together, and both succeed on
/// position-corresponding value ranges.
#[verifier::rlimit(100)]
proof fn lemma_two_line_directive_at(l1: Seq<u8>, l2: Seq<u8>, key: Seq<u8>, i: int)
    requires
        l1.len() >= 1,
        l2.len() >= 1,
        forall|t: int| 0 <= t < l1.len() ==> l1[t] != 10 && l1[t] != 13,
        forall|t: int| 0 <= t < l2.len() ==> l2[t] != 10 && l2[t] != 13,
        key.len() >= 1,
        forall|t: int| 0 <= t < key.len() ==> key[t] != 10 && key[t] != 13,
        0 <= i < (l1 + seq![10u8] + l2).len(),
        i != l1.len(),
    ensures
        ({
            let h_lf = l1 + seq![10u8] + l2;
            let h_crlf = l1 + seq![13u8, 10u8] + l2;
            let el1 = l1.len() as int;
            &&& (crate::part::directive_value_at(h_lf, key, i) is Some
                == crate::part::directive_value_at(h_crlf, key, crlf_pos(i, el1)) is Some)
            &&& (crate::part::directive_value_at(h_lf, key, i) matches Some(p)
                ==> crate::part::directive_value_at(h_crlf, key, crlf_pos(i, el1)) == Some(
                (crlf_pos(p.0, el1), crlf_pos(p.1, el1)),
            ))
        }),
{
    let el1 = l1.len() as int;
    let h_lf = l1 + seq![10u8] + l2;
    let h_crlf = l1 + seq![13u8, 10u8] + l2;
    let n_lf = h_lf.len() as int;
    let n_crlf = h_crlf.len() as int;
    let klen = key.len() as int;
    assert forall|t: int| 0 <= t < n_lf implies h_lf[t] == (if t < el1 {
        l1[t]
    } else if t == el1 {
        10u8
    } else {
        l2[t - el1 - 1]
    }) by {}
    assert forall|t: int| 0 <= t < n_crlf implies h_crlf[t] == (if t < el1 {
        l1[t]
    } else if t == el1 {
        13u8
    } else if t == el1 + 1 {
        10u8
    } else {
        l2[t - el1 - 2]
    }) by {}
    let fi = crlf_pos(i, el1);
    assert(h_crlf[fi] == h_lf[i]);
    if h_lf[i] == 59 {
        crate::ascii::lemma_skip_ws_from(h_lf, i + 1);
        let j = skip_ws_from(h_lf, i + 1);
        let fi1 = crlf_pos(i + 1, el1);
        let fj = if j <= el1 {
            j
        } else {
            j + 1
        };
        assert(fi1 == fi + 1);
        assert forall|t: int| fi1 <= t < fj implies is_ws_byte(#[trigger] h_crlf[t]) by {
            if t < el1 {
                assert(h_crlf[t] == h_lf[t] && i + 1 <= t < j);
            } else if t == el1 || t == el1 + 1 {
            } else {
                assert(h_crlf[t] == h_lf[t - 1] && i + 1 <= t - 1 < j);
            }
        }
        if j < n_lf {
            assert(j != el1);
            assert(h_crlf[fj] == h_lf[j]);
            crate::ascii::lemma_skip_ws_at(h_crlf, fi1, fj);
        } else {
            assert(fj == n_crlf);
            crate::ascii::lemma_skip_ws_at(h_crlf, fi1, fj);
        }
        let lf_key = j + klen <= n_lf && lower_seq(h_lf.subrange(j, j + klen)) == key;
        let crlf_key = fj + klen <= n_crlf && lower_seq(h_crlf.subrange(fj, fj + klen)) == key;
        if lf_key {
            assert(!(j <= el1 < j + klen)) by {
                if j <= el1 < j + klen {
                    assert(lower_seq(h_lf.subrange(j, j + klen))[el1 - j] == 10);
                    assert(key[el1 - j] != 10);
                }
            }
            assert(h_crlf.subrange(fj, fj + klen) =~= h_lf.subrange(j, j + klen)) by {
                assert forall|t: int|
                    0 <= t < klen implies #[trigger] h_crlf.subrange(fj, fj + klen)[t]
                    == h_lf.subrange(j, j + klen)[t] by {
                    if j + klen <= el1 {
                        assert(h_crlf[fj + t] == h_lf[j + t]);
                    } else {
                        assert(fj + t == (j + t) + 1);
                        assert(h_crlf[fj + t] == h_lf[j + t]);
                    }
                }
            }
            assert(crlf_key);
            let v0 = j + klen;
            let fv0 = fj + klen;
            assert(fv0 == crlf_pos(v0, el1));
            crate::ascii::lemma_find_from(h_lf, v0, 34);
            let q = crate::ascii::find_from(h_lf, v0, 34);
            let fq = if q <= el1 {
                q
            } else {
                q + 1
            };
            assert forall|t: int| fv0 <= t < fq implies #[trigger] h_crlf[t] != 34 by {
                if t < el1 {
                    assert(h_crlf[t] == h_lf[t] && v0 <= t < q);
                } else if t == el1 || t == el1 + 1 {
                } else {
                    assert(h_crlf[t] == h_lf[t - 1] && v0 <= t - 1 < q);
                }
            }
            if q < n_lf {
                assert(q != el1);
                assert(h_crlf[fq] == h_lf[q] && h_lf[q] == 34);
                lemma_find_from_at(h_crlf, fv0, 34, fq);
            } else {
                assert(fq == n_crlf);
                lemma_find_from_absent(h_crlf, fv0, 34);
            }
            assert((v0 < q < n_lf) == (fv0 < fq < n_crlf));
            if v0 < q < n_lf {
                assert(crate::part::directive_value_at(h_lf, key, i) == Some((v0, q)));
                assert(crate::part::directive_value_at(h_crlf, key, fi) == Some((fv0, fq)));
            } else {
                assert(crate::part::directive_value_at(h_lf, key, i) is None);
                assert(crate::part::directive_value_at(h_crlf, key, fi) is None);
            }
        } else {
            assert(!crlf_key) by {
                if crlf_key {
                    assert(!(fj <= el1 < fj + klen)) by {
                        if fj <= el1 < fj + klen {
                            assert(lower_seq(h_crlf.subrange(fj, fj + klen))[el1 - fj] == 13);
                            assert(key[el1 - fj] != 13);
                        }
                    }
                    assert(!(fj <= el1 + 1 < fj + klen)) by {
                        if fj <= el1 + 1 < fj + klen {
                            assert(lower_seq(h_crlf.subrange(fj, fj + klen))[el1 + 1 - fj]
                                == 10);
                            assert(key[el1 + 1 - fj] != 10);
                        }
                    }
                    assert(h_lf.subrange(j, j + klen) =~= h_crlf.subrange(fj, fj + klen)) by {
                        assert forall|t: int|
                            0 <= t < klen implies #[trigger] h_lf.subrange(j, j + klen)[t]
                            == h_crlf.subrange(fj, fj + klen)[t] by {
                            if fj + klen <= el1 {
                                assert(h_crlf[fj + t] == h_lf[j + t]);
                            } else {
                                assert(fj + t == (j + t) + 1);
                                assert(h_crlf[fj + t] == h_lf[j + t]);
                            }
                        }
                    }
                    assert(j + klen <= n_lf);
                    assert(lf_key);
                }
            }
            assert(crate::part::directive_value_at(h_lf, key, i) is None);
            assert(crate::part::directive_value_at(h_crlf, key, fi) is None);
        }
    } else {
        assert(crate::part::directive_value_at(h_lf, key, i) is None);
        assert(crate::part::directive_value_at(h_crlf, key, fi) is None);
    }
}

/// The whole quoted-directive scan over a two-line header, from
/// corresponding start positions, while no matched value spans the break.
#[verifier::rlimit(60)]
proof fn lemma_two_line_field_from(l1: Seq<u8>, l2: Seq<u8>, key: Seq<u8>, i: int)
    requires
        l1.len() >= 1,
        l2.len() >= 1,
        forall|t: int| 0 <= t < l1.len() ==> l1[t] != 10 && l1[t] != 13,
        forall|t: int| 0 <= t < l2.len() ==> l2[t] != 10 && l2[t] != 13,
        key.len() >= 1,
        forall|t: int| 0 <= t < key.len() ==> key[t] != 10 && key[t] != 13,
        0 <= i <= (l1 + seq![10u8] + l2).len(),
        forall|t: int|
            #[trigger] crate::part::directive_value_at(l1 + seq![10u8] + l2, key, t) matches Some(
                p,
            ) ==> p.1 <= l1.len() || p.0 > l1.len(),
    ensures
        crate::part::field_from(l1 + seq![10u8] + l2, key, i) == crate::part::field_from(
            l1 + seq![13u8, 10u8] + l2,
            key,
            crlf_pos(i, l1.len() as int),
        ),
    decreases (l1 + seq![10u8] + l2).len() - i,
{
    let el1 = l1.len() as int;
    let h_lf = l1 + seq![10u8] + l2;
    let h_crlf = l1 + seq![13u8, 10u8] + l2;
    let n_lf = h_lf.len() as int;
    if i == n_lf {
        assert(crlf_pos(i, el1) == h_crlf.len());
        assert(crate::part::field_from(h_lf, key, i) is None);
        assert(crate::part::field_from(h_crlf, key, crlf_pos(i, el1)) is None);
    } else if i == el1 {
        assert(h_lf[el1] == 10);
        assert(h_crlf[el1] == 13);
        assert(h_crlf[el1 + 1] == 10);
        assert(crate::part::directive_value_at(h_lf, key, el1) is None);
        assert(crate::part::directive_value_at(h_crlf, key, el1) is None);
        assert(crate::part::directive_value_at(h_crlf, key, el1 + 1) is None);
        lemma_two_line_field_from(l1, l2, key, i + 1);
        assert(crlf_pos(i + 1, el1) == el1 + 2);
        assert(crate::part::field_from(h_lf, key, el1) == crate::part::field_from(
            h_lf,
            key,
            el1 + 1,
        ));
        assert(crate::part::field_from(h_crlf, key, el1) == crate::part::field_from(
            h_crlf,
            key,
            el1 + 2,
        ));
    } else {
        lemma_two_line_directive_at(l1, l2, key, i);
        match crate::part::directive_value_at(h_lf, key, i) {
            Some(p) => {
                assert(crate::part::directive_value_at(h_crlf, key, crlf_pos(i, el1)) == Some(
                    (crlf_pos(p.0, el1), crlf_pos(p.1, el1)),
                ));
                assert(p.1 <= el1 || p.0 > el1);
                crate::ascii::lemma_skip_ws_from(h_lf, i + 1);
                assert(0 <= p.0 && p.0 < p.1 && p.1 <= n_lf);
                assert(h_crlf.subrange(crlf_pos(p.0, el1), crlf_pos(p.1, el1)) =~= h_lf.subrange(
                    p.0,
                    p.1,
                )) by {
                    assert forall|t: int|
                        0 <= t < p.1 - p.0 implies #[trigger] h_crlf.subrange(
                        crlf_pos(p.0, el1),
                        crlf_pos(p.1, el1),
                    )[t] == h_lf.subrange(p.0, p.1)[t] by {
                        if p.1 <= el1 {
                            assert(h_crlf[p.0 + t] == h_lf[p.0 + t]);
                        } else {
                            assert(h_crlf[p.0 + 1 + t] == h_lf[p.0 + t]);
                        }
                    }
                }
            },
            None => {
                lemma_two_line_field_from(l1, l2, key, i + 1);
                assert(crlf_pos(i + 1, el1) == crlf_pos(i, el1) + 1);
                assert(crate::part::field_from(h_lf, key, i) == crate::part::field_from(
                    h_lf,
                    key,
                    i + 1,
                ));
                assert(crate::part::directive_value_at(h_crlf, key, crlf_pos(i, el1)) is None);
                assert(crate::part::field_from(h_crlf, key, crlf_pos(i, el1))
                    == crate::part::field_from(h_crlf, key, crlf_pos(i, el1) + 1));
            },
        }
    }
}

/// Law (line-ending independence, two header lines, quoted directives):
/// as long as no matched quoted value spans the line break itself, the
/// `name` and `filename` directives of a two-line header yield the same
/// values whether its line break is written `LF` or `CR LF`.
pub proof fn lemma_two_line_field_independence(l1: Seq<u8>, l2: Seq<u8>)
    requires
        l1.len() >= 1,
        l2.len() >= 1,
        forall|t: int| 0 <= t < l1.len() ==> l1[t] != 10 && l1[t] != 13,
        forall|t: int| 0 <= t < l2.len() ==> l2[t] != 10 && l2[t] != 13,
        forall|t: int|
            #[trigger] crate::part::directive_value_at(
                l1 + seq![10u8] + l2,
                crate::part::name_key(),
                t,
            ) matches Some(p) ==> p.1 <= l1.len() || p.0 > l1.len(),
        forall|t: int|
            #[trigger] crate::part::directive_value_at(
                l1 + seq![10u8] + l2,
                crate::part::filename_key(),
                t,
            ) matches Some(p) ==> p.1 <= l1.len() || p.0 > l1.len(),
    ensures
        crate::part::name_of(l1 + seq![10u8] + l2) == crate::part::name_of(
            l1 + seq![13u8, 10u8] + l2,
        ),
        crate::part::filename_of(l1 + seq![10u8] + l2) == crate::part::filename_of(
            l1 + seq![13u8, 10u8] + l2,
        ),
{
    assert(forall|t: int|
        0 <= t < crate::part::name_key().len() ==> crate::part::name_key()[t] != 10
            && crate::part::name_key()[t] != 13);
    assert(forall|t: int|
        0 <= t < crate::part::filename_key().len() ==> crate::part::filename_key()[t] != 10
            && crate::part::filename_key()[t] != 13);
    lemma_two_line_field_from(l1, l2, crate::part::name_key(), 0);
    lemma_two_line_field_from(l1, l2, crate::part::filename_key(), 0);
}

/// The `Content-Type` scan over a two-line header, under either framing:
/// both scans decide on the same line bytes and return the same value.
#[verifier::rlimit(100)]
proof fn lemma_two_line_ct(l1: Seq<u8>, l2: Seq<u8>)
    requires
        l1.len() >= 1,
        l2.len() >= 1,
        forall|i: int| 0 <= i < l1.len() ==> l1[i] != 10 && l1[i] != 13,
        forall|i: int| 0 <= i < l2.len() ==> l2[i] != 10 && l2[i] != 13,
    ensures
        crate::part::content_type_of(l1 + seq![10u8] + l2) == crate::part::content_type_of(
            l1 + seq![13u8, 10u8] + l2,
        ),
{
    let el1 = l1.len() as int;
    let el2 = l2.len() as int;
    let h_lf = l1 + seq![10u8] + l2;
    let h_crlf = l1 + seq![13u8, 10u8] + l2;
    let n_lf = h_lf.len() as int;
    let n_crlf = h_crlf.len() as int;
    let key = crate::part::content_type_key();
    assert(forall|j: int| 0 <= j < 13 ==> key[j] != 10 && key[j] != 13);
    assert forall|i: int| 0 <= i < n_lf implies h_lf[i] == (if i < el1 {
        l1[i]
    } else if i == el1 {
        10u8
    } else {
        l2[i - el1 - 1]
    }) by {}
    assert forall|i: int| 0 <= i < n_crlf implies h_crlf[i] == (if i < el1 {
        l1[i]
    } else if i == el1 {
        13u8
    } else if i == el1 + 1 {
        10u8
    } else {
        l2[i - el1 - 2]
    }) by {}
    // Whether line one opens with the key, the same way in both framings.
    let match1 = el1 >= 13 && lower_seq(l1.subrange(0, 13)) == key;
    if el1 >= 13 {
        assert(h_lf.subrange(0, 13) =~= l1.subrange(0, 13));
        assert(h_crlf.subrange(0, 13) =~= l1.subrange(0, 13));
    } else {
        if 13 <= n_lf {
            assert(lower_seq(h_lf.subrange(0, 13))[el1] == 10);
            assert(key[el1] != 10);
            assert(lower_seq(h_lf.subrange(0, 13)) != key);
        }
        if 13 <= n_crlf {
            assert(lower_seq(h_crlf.subrange(0, 13))[el1] == 13);
            assert(key[el1] != 13);
            assert(lower_seq(h_crlf.subrange(0, 13)) != key);
        }
    }
    if match1 {
        // Both values are the tail of line one after the key and spaces.
        let w = crate::ascii::skip_line_ws_from(l1, 13);
        crate::ascii::lemma_skip_line_ws_from(l1, 13);
        assert forall|j: int| 13 <= j < w implies crate::ascii::is_line_ws_byte(h_lf[j])
            && crate::ascii::is_line_ws_byte(h_crlf[j]) by {
            assert(h_lf[j] == l1[j] && h_crlf[j] == l1[j]);
        }
        if w < el1 {
            assert(!crate::ascii::is_line_ws_byte(l1[w]));
            crate::ascii::lemma_skip_line_ws_at(h_lf, 13, w);
            crate::ascii::lemma_skip_line_ws_at(h_crlf, 13, w);
        } else {
            assert(!crate::ascii::is_line_ws_byte(h_lf[el1]));
            assert(!crate::ascii::is_line_ws_byte(h_crlf[el1]));
            crate::ascii::lemma_skip_line_ws_at(h_lf, 13, el1);
            crate::ascii::lemma_skip_line_ws_at(h_crlf, 13, el1);
        }
        let v0 = if w < el1 {
            w
        } else {
            el1
        };
        assert forall|j: int| v0 <= j < el1 implies h_lf[j] != 10 && h_crlf[j] != 10 by {
            assert(h_lf[j] == l1[j] && h_crlf[j] == l1[j]);
        }
        lemma_find_from_at(h_lf, v0, 10, el1);
        lemma_find_from_at(h_crlf, v0, 10, el1 + 1);
        if v0 < el1 {
            assert(h_lf[el1 - 1] == l1[el1 - 1] && l1[el1 - 1] != 13);
            assert(h_crlf[el1] == 13);
            assert(crate::part::line_ct_value(h_lf, 0) == Some(h_lf.subrange(v0, el1)));
            assert(crate::part::line_ct_value(h_crlf, 0) == Some(h_crlf.subrange(v0, el1)));
            assert(h_lf.subrange(v0, el1) =~= h_crlf.subrange(v0, el1));
        } else {
            assert(crate::part::line_ct_value(h_lf, 0) is None);
            assert(crate::part::line_ct_value(h_crlf, 0) is None);
            lemma_two_line_ct_second(l1, l2);
        }
    } else {
        assert(crate::part::line_ct_value(h_lf, 0) is None);
        assert(crate::part::line_ct_value(h_crlf, 0) is None);
        lemma_two_line_ct_second(l1, l2);
    }
}

/// The `Content-Type` scan past a first line that did not match: both
/// framings inspect exactly the second line and agree.
#[verifier::rlimit(100)]
proof fn lemma_two_line_ct_second(l1: Seq<u8>, l2: Seq<u8>)
    requires
        l1.len() >= 1,
        l2.len() >= 1,
        forall|i: int| 0 <= i < l1.len() ==> l1[i] != 10 && l1[i] != 13,
        forall|i: int| 0 <= i < l2.len() ==> l2[i] != 10 && l2[i] != 13,
        crate::part::line_ct_value(l1 + seq![10u8] + l2, 0) is None,
        crate::part::line_ct_value(l1 + seq![13u8, 10u8] + l2, 0) is None,
    ensures
        crate::part::content_type_of(l1 + seq![10u8] + l2) == crate::part::content_type_of(
            l1 + seq![13u8, 10u8] + l2,
        ),
{
    let el1 = l1.len() as int;
    let el2 = l2.len() as int;
    let h_lf = l1 + seq![10u8] + l2;
    let h_crlf = l1 + seq![13u8, 10u8] + l2;
    let n_lf = h_lf.len() as int;
    let n_crlf = h_crlf.len() as int;
    let key = crate::part::content_type_key();
    assert(forall|j: int| 0 <= j < 13 ==> key[j] != 10 && key[j] != 13);
    assert forall|i: int| 0 <= i < n_lf implies h_lf[i] == (if i < el1 {
        l1[i]
    } else if i == el1 {
        10u8
    } else {
        l2[i - el1 - 1]
    }) by {}
    assert forall|i: int| 0 <= i < n_crlf implies h_crlf[i] == (if i < el1 {
        l1[i]
    } else if i == el1 {
        13u8
    } else if i == el1 + 1 {
        10u8
    } else {
        l2[i - el1 - 2]
    }) by {}
    // Both scans step to the start of the second line.
    assert forall|j: int| 0 <= j < el1 implies h_lf[j] != 10 && h_crlf[j] != 10 by {
        assert(h_lf[j] == l1[j] && h_crlf[j] == l1[j]);
    }
    lemma_find_from_at(h_lf, 0, 10, el1);
    lemma_find_from_at(h_crlf, 0, 10, el1 + 1);
    let s_lf = el1 + 1;
    let s_crlf = el1 + 2;
    assert(crate::part::ct_from(h_lf, 0) == crate::part::ct_from(h_lf, s_lf));
    assert(crate::part::ct_from(h_crlf, 0) == crate::part::ct_from(h_crlf, s_crlf));
    // The second line matches the key the same way in both framings.
    let match2 = el2 >= 13 && lower_seq(l2.subrange(0, 13)) == key;
    if el2 >= 13 {
        assert(h_lf.subrange(s_lf, s_lf + 13) =~= l2.subrange(0, 13));
        assert(h_crlf.subrange(s_crlf, s_crlf + 13) =~= l2.subrange(0, 13));
    }
    if match2 {
        let w = crate::ascii::skip_line_ws_from(l2, 13);
        crate::ascii::lemma_skip_line_ws_from(l2, 13);
        assert forall|j: int| 13 <= j < w implies crate::ascii::is_line_ws_byte(
            #[trigger] h_lf[s_lf + j],
        ) && crate::ascii::is_line_ws_byte(h_crlf[s_crlf + j]) by {
            assert(h_lf[s_lf + j] == l2[j] && h_crlf[s_crlf + j] == l2[j]);
        }
        if w < el2 {
            assert(!crate::ascii::is_line_ws_byte(l2[w]));
            crate::ascii::lemma_skip_line_ws_at(h_lf, s_lf + 13, s_lf + w);
            crate::ascii::lemma_skip_line_ws_at(h_crlf, s_crlf + 13, s_crlf + w);
        } else {
            crate::ascii::lemma_skip_line_ws_at(h_lf, s_lf + 13, n_lf);
            crate::ascii::lemma_skip_line_ws_at(h_crlf, s_crlf + 13, n_crlf);
        }
        let w2 = if w < el2 {
            w
        } else {
            el2
        };
        assert forall|j: int| s_lf + w2 <= j < n_lf implies h_lf[j] != 10 by {
            assert(h_lf[j] == l2[j - s_lf]);
        }
        lemma_find_from_absent(h_lf, s_lf + w2, 10);
        assert forall|j: int| s_crlf + w2 <= j < n_crlf implies h_crlf[j] != 10 by {
            assert(h_crlf[j] == l2[j - s_crlf]);
        }
        lemma_find_from_absent(h_crlf, s_crlf + w2, 10);
        if w2 < el2 {
            assert(h_lf[n_lf - 1] == l2[el2 - 1] && l2[el2 - 1] != 13);
            assert(h_crlf[n_crlf - 1] == l2[el2 - 1]);
            assert(crate::part::line_ct_value(h_lf, s_lf) == Some(
                h_lf.subrange(s_lf + w2, n_lf),
            ));
            assert(crate::part::line_ct_value(h_crlf, s_crlf) == Some(
                h_crlf.subrange(s_crlf + w2, n_crlf),
            ));
            assert(h_lf.subrange(s_lf + w2, n_lf) =~= l2.subrange(w2, el2));
            assert(h_crlf.subrange(s_crlf + w2, n_crlf) =~= l2.subrange(w2, el2));
        } else {
            assert(crate::part::line_ct_value(h_lf, s_lf) is None);
            assert(crate::part::line_ct_value(h_crlf, s_crlf) is None);
            lemma_two_line_ct_none(l1, l2);
        }
    } else {
        assert(crate::part::line_ct_value(h_lf, s_lf) is None) by {
            if s_lf + 13 <= n_lf {
                assert(lower_seq(h_lf.subrange(s_lf, s_lf + 13)) =~= lower_seq(
                    l2.subrange(0, 13),
                ));
            }
        }
        assert(crate::part::line_ct_value(h_crlf, s_crlf) is None) by {
            if s_crlf + 13 <= n_crlf {
                assert(lower_seq(h_crlf.subrange(s_crlf, s_crlf + 13)) =~= lower_seq(
                    l2.subrange(0, 13),
                ));
            }
        }
        lemma_two_line_ct_none(l1, l2);
    }
}

/// When the second line yields nothing either, both scans end empty.
proof fn lemma_two_line_ct_none(l1: Seq<u8>, l2: Seq<u8>)
    requires
        l1.len() >= 1,
        l2.len() >= 1,
        forall|i: int| 0 <= i < l1.len() ==> l1[i] != 10 && l1[i] != 13,
        forall|i: int| 0 <= i < l2.len() ==> l2[i] != 10 && l2[i] != 13,
        crate::part::line_ct_value(l1 + seq![10u8] + l2, l1.len() as int + 1) is None,
        crate::part::line_ct_value(l1 + seq![13u8, 10u8] + l2, l1.len() as int + 2) is None,
    ensures
        crate::part::ct_from(l1 + seq![10u8] + l2, l1.len() as int + 1) is None,
        crate::part::ct_from(l1 + seq![13u8, 10u8] + l2, l1.len() as int + 2) is None,
{
    let el1 = l1.len() as int;
    let h_lf = l1 + seq![10u8] + l2;
    let h_crlf = l1 + seq![13u8, 10u8] + l2;
    let n_lf = h_lf.len() as int;
    let n_crlf = h_crlf.len() as int;
    assert forall|j: int| el1 + 1 <= j < n_lf implies h_lf[j] != 10 by {
        assert(h_lf[j] == l2[j - el1 - 1]);
    }
    lemma_find_from_absent(h_lf, el1 + 1, 10);
    assert forall|j: int| el1 + 2 <= j < n_crlf implies h_crlf[j] != 10 by {
        assert(h_crlf[j] == l2[j - el1 - 2]);
    }
    lemma_find_from_absent(h_crlf, el1 + 2, 10);
}

/// A well-formed `Content-Type` value `multipart/<X>; boundary=<B>`:
/// the literal prefix, then `x`, then `; boundary=`, then `b`.
pub open spec fn multipart_value_of(x: Seq<u8>, b: Seq<u8>) -> Seq<u8> {
    multipart_prefix() + x + seq![59u8, 32u8] + boundary_key() + b
}

/// Law: for every `Content-Type` value of the shape
/// `multipart/<X>; boundary=<B>` — with `X` free of `;`, `B` free of `;`
/// and `=` and not all whitespace — the parser returns subtype `X` and
/// boundary `B`, both with surrounding whitespace trimmed.
#[verifier::rlimit(100)]
pub proof fn lemma_content_type_roundtrip(x: Seq<u8>, b: Seq<u8>)
    requires
        forall|i: int| 0 <= i < x.len() ==> x[i] != 59,
        forall|i: int| 0 <= i < b.len() ==> b[i] != 59 && b[i] != 61,
        trimmed(b).len() > 0,
    ensures
        is_multipart_value(multipart_value_of(x, b)),
        subtype_of(multipart_value_of(x, b)) == trimmed(x),
        boundary_of(multipart_value_of(x, b)) == Some(trimmed(b)),
        content_type_spec(seq![multipart_value_of(x, b)]) == Some((trimmed(x), Some(trimmed(b)))),
{
    let v = multipart_value_of(x, b);
    let semi = 10 + x.len() as int;
    let pre_len = semi + 11;  // up to where `b` starts
    assert(v.len() == pre_len + b.len());
    lemma_skip_ws_from(b, 0);
    lemma_rskip_ws(b, b.len() as int);
    let lo_b = skip_ws_from(b, 0);
    let hi_b = rskip_ws(b, b.len() as int);
    assert(lo_b < hi_b) by {
        if lo_b >= hi_b {
            assert(trimmed(b).len() == 0);
        }
    }
    assert(trimmed(b) == b.subrange(lo_b, hi_b)) by {
        if lo_b > hi_b {
            assert(forall|j: int| 0 <= j < b.len() ==> is_ws_byte(b[j]));
        }
    }
    // The outer trim of the whole value: nothing leading, only b's tail.
    assert(v[0] == 109 && !is_ws_byte(v[0]));
    lemma_skip_ws_at(v, 0, 0);
    assert forall|j: int| pre_len + hi_b <= j < v.len() implies is_ws_byte(v[j]) by {
        assert(v[j] == b[j - pre_len]);
    }
    assert(v[pre_len + hi_b - 1] == b[hi_b - 1]);
    assert(!is_ws_byte(b[hi_b - 1]));
    lemma_rskip_ws_at(v, v.len() as int, pre_len + hi_b);
    let t = trimmed(v);
    assert(t == v.subrange(0, pre_len + hi_b));
    assert(t.len() == pre_len + hi_b);
    assert(forall|j: int| 0 <= j < t.len() ==> t[j] == v[j]);
    // The trimmed value starts with the (already lower-case) prefix.
    assert(t.take(10) =~= multipart_prefix());
    assert forall|j: int| 0 <= j < 10 implies lower_seq(t.take(10))[j] == multipart_prefix()[j] by {
        assert(lower_seq(t.take(10))[j] == lower_byte(multipart_prefix()[j]));
    }
    assert(lower_seq(t.take(10)) =~= multipart_prefix());
    assert(is_multipart_value(v));
    // The first `;` of the trimmed value closes the subtype directive.
    assert(t[semi] == 59);
    assert forall|j: int| 0 <= j < semi implies t[j] != 59 by {
        if j < 10 {
            assert(t[j] == multipart_prefix()[j]);
        } else {
            assert(t[j] == x[j - 10]);
        }
    }
    lemma_find_from_at(t, 10, 59, semi);
    assert(t.subrange(10, semi) =~= x);
    assert(subtype_of(v) == trimmed(x));
    // The boundary scan: the subtype directive carries no boundary ...
    lemma_find_from_at(t, 0, 59, semi);
    let u = t.subrange(0, semi);
    assert(u[0] == 109 && !is_ws_byte(u[0]));
    lemma_skip_ws_at(u, 0, 0);
    lemma_rskip_ws(u, u.len() as int);
    let hi_u = rskip_ws(u, u.len() as int);
    assert(hi_u >= 1) by {
        if hi_u == 0 {
            assert(is_ws_byte(u[0]));
        }
    }
    let d1 = trimmed(u);
    assert(d1 == u.subrange(0, hi_u));
    assert(d1[0] == 109);
    assert(directive_boundary(d1) is None) by {
        if d1.len() >= 9 && d1.take(9) == boundary_key() {
            assert(d1.take(9)[0] == boundary_key()[0]);
            assert(false);
        }
    }
    // ... and the next directive is exactly `boundary=<B>`.
    let from2 = semi + 1;
    assert forall|j: int| from2 <= j < t.len() implies t[j] != 59 by {
        if j == from2 {
            assert(t[j] == 32);
        } else if j < pre_len {
            assert(t[j] == boundary_key()[j - semi - 2]);
        } else {
            assert(t[j] == b[j - pre_len]);
        }
    }
    lemma_find_from_absent(t, from2, 59);
    let d2raw = t.subrange(from2, t.len() as int);
    assert(d2raw.len() == 10 + hi_b);
    assert(d2raw[0] == 32 && is_ws_byte(d2raw[0]));
    assert(d2raw[1] == boundary_key()[0]);
    assert(!is_ws_byte(d2raw[1]));
    lemma_skip_ws_at(d2raw, 0, 1);
    assert(d2raw[d2raw.len() - 1] == b[hi_b - 1]);
    lemma_rskip_ws_at(d2raw, d2raw.len() as int, d2raw.len() as int);
    let d2 = trimmed(d2raw);
    assert(d2 == d2raw.subrange(1, d2raw.len() as int));
    assert(d2.len() == 9 + hi_b);
    assert forall|j: int| 0 <= j < d2.len() implies d2[j] == (boundary_key() + b.subrange(
        0,
        hi_b,
    ))[j] by {
        assert(d2[j] == t[from2 + 1 + j]);
        if j < 9 {
            assert(t[from2 + 1 + j] == boundary_key()[j]);
        } else {
            assert(t[from2 + 1 + j] == b[j - 9]);
        }
    }
    assert(d2 =~= boundary_key() + b.subrange(0, hi_b));
    assert(d2.take(9) =~= boundary_key());
    assert forall|j: int| 9 <= j < d2.len() implies d2[j] != 61 by {
        assert(d2[j] == b[j - 9]);
    }
    lemma_find_from_absent(d2, 9, 61);
    let vraw = d2.subrange(9, d2.len() as int);
    assert(vraw =~= b.subrange(0, hi_b));
    assert forall|j: int| 0 <= j < lo_b implies is_ws_byte(vraw[j]) by {
        assert(vraw[j] == b[j]);
    }
    assert(vraw[lo_b] == b[lo_b]);
    assert(!is_ws_byte(b[lo_b]));
    lemma_skip_ws_at(vraw, 0, lo_b);
    assert(vraw[vraw.len() - 1] == b[hi_b - 1]);
    lemma_rskip_ws_at(vraw, vraw.len() as int, vraw.len() as int);
    let val = trimmed(vraw);
    assert(val == vraw.subrange(lo_b, hi_b));
    assert(val =~= b.subrange(lo_b, hi_b));
    assert(val.len() > 0);
    assert(directive_boundary(d2) == Some(trimmed(b)));
    assert(boundary_from(t, from2) == Some(trimmed(b)));
    assert(boundary_from(t, 0) == Some(trimmed(b)));
    assert(boundary_of(v) == Some(trimmed(b)));
    assert(first_multipart_value(seq![v]) == Some(v)) by {
        assert(seq![v][0] == v);
    }
}

} // verus!
