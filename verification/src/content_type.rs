//! Parsing of a `Content-Type` header value into a multipart subtype and an
//! optional boundary token.
use vstd::prelude::*;

use crate::ascii::bytes_eq;
use crate::ascii::find_byte_from;
use crate::ascii::find_from;
use crate::ascii::lemma_find_from;
use crate::ascii::lower_seq;
use crate::ascii::trim_slice;
use crate::ascii::trimmed;

verus! {

/// The bytes of the literal `multipart/`.
pub open spec fn multipart_prefix() -> Seq<u8> {
    seq![109u8, 117u8, 108u8, 116u8, 105u8, 112u8, 97u8, 114u8, 116u8, 47u8]
}

/// The bytes of the literal `boundary=`.
pub open spec fn boundary_key() -> Seq<u8> {
    seq![98u8, 111u8, 117u8, 110u8, 100u8, 97u8, 114u8, 121u8, 61u8]
}

/// The bytes of the literal `form-data`.
pub open spec fn form_data_bytes() -> Seq<u8> {
    seq![102u8, 111u8, 114u8, 109u8, 45u8, 100u8, 97u8, 116u8, 97u8]
}

/// Whether a header value, after trimming, starts with `multipart/`,
/// compared without regard to ASCII case.
pub open spec fn is_multipart_value(v: Seq<u8>) -> bool {
    let t = trimmed(v);
    t.len() >= 10 && lower_seq(t.take(10)) == multipart_prefix()
}

/// The subtype of a multipart header value: what stands between the
/// `multipart/` prefix and the first `;` of the trimmed value, trimmed.
pub open spec fn subtype_of(v: Seq<u8>) -> Seq<u8> {
    let t = trimmed(v);
    trimmed(t.subrange(10, find_from(t, 10, 59)))
}

/// The boundary token carried by one `;`-separated directive, if the
/// trimmed directive starts with the literal `boundary=` (case-sensitive)
/// and the value — what follows, up to the next `=` — is non-empty after
/// trimming.
pub open spec fn directive_boundary(d: Seq<u8>) -> Option<Seq<u8>> {
    if d.len() >= 9 && d.take(9) == boundary_key() {
        let val = trimmed(d.subrange(9, find_from(d, 9, 61)));
        if val.len() > 0 {
            Some(val)
        } else {
            None
        }
    } else {
        None
    }
}

/// The boundary token of the trimmed header value `t`, scanning the
/// `;`-separated directives from position `from` on; the first directive
/// carrying one wins.
pub open spec fn boundary_from(t: Seq<u8>, from: int) -> Option<Seq<u8>>
    decreases t.len() + 1 - from,
    when 0 <= from <= t.len()
    via boundary_from_decreases
{
    let end = find_from(t, from, 59);
    let d = trimmed(t.subrange(from, end));
    if directive_boundary(d) is Some {
        directive_boundary(d)
    } else if end >= t.len() {
        None
    } else {
        boundary_from(t, end + 1)
    }
}

#[via_fn]
proof fn boundary_from_decreases(t: Seq<u8>, from: int) {
    if 0 <= from <= t.len() {
        lemma_find_from(t, from, 59);
    }
}

/// The boundary token of a header value, if any directive carries one.
pub open spec fn boundary_of(v: Seq<u8>) -> Option<Seq<u8>> {
    boundary_from(trimmed(v), 0)
}

/// The first header value that `is_multipart_value` accepts.
pub open spec fn first_multipart_value(values: Seq<Seq<u8>>) -> Option<Seq<u8>>
    decreases values.len(),
{
    if values.len() == 0 {
        None
    } else if is_multipart_value(values[0]) {
        Some(values[0])
    } else {
        first_multipart_value(values.skip(1))
    }
}

/// The subtype and boundary drawn from the first multipart-looking header
/// value, if there is one.
pub open spec fn content_type_spec(values: Seq<Seq<u8>>) -> Option<(Seq<u8>, Option<Seq<u8>>)> {
    match first_multipart_value(values) {
        None => None,
        Some(v) => Some((subtype_of(v), boundary_of(v))),
    }
}

/// The subtype and boundary token drawn from one `Content-Type` header
/// value that matched the `multipart/` prefix. The boundary, when present,
/// is non-empty.
#[derive(Debug, PartialEq, Eq)]
pub struct MultipartContentType {
    pub multipart_type: Vec<u8>,
    pub boundary: Option<Vec<u8>>,
}

/// The bytes of the literal `multipart/`, as a vector.
fn multipart_prefix_vec() -> (r: Vec<u8>)
    ensures
        r@ == multipart_prefix(),
{
    let mut r: Vec<u8> = Vec::new();
    r.push(109);
    r.push(117);
    r.push(108);
    r.push(116);
    r.push(105);
    r.push(112);
    r.push(97);
    r.push(114);
    r.push(116);
    r.push(47);
    proof {
        assert(r@ =~= multipart_prefix());
    }
    r
}

/// The bytes of the literal `boundary=`, as a vector.
fn boundary_key_vec() -> (r: Vec<u8>)
    ensures
        r@ == boundary_key(),
{
    let mut r: Vec<u8> = Vec::new();
    r.push(98);
    r.push(111);
    r.push(117);
    r.push(110);
    r.push(100);
    r.push(97);
    r.push(114);
    r.push(121);
    r.push(61);
    proof {
        assert(r@ =~= boundary_key());
    }
    r
}

/// The bytes of the literal `form-data`, as a vector.
fn form_data_vec() -> (r: Vec<u8>)
    ensures
        r@ == form_data_bytes(),
{
    let mut r: Vec<u8> = Vec::new();
    r.push(102);
    r.push(111);
    r.push(114);
    r.push(109);
    r.push(45);
    r.push(100);
    r.push(97);
    r.push(116);
    r.push(97);
    proof {
        assert(r@ =~= form_data_bytes());
    }
    r
}

/// Whether `v`, after trimming, starts with `multipart/` (ASCII
/// case-insensitive).
fn value_is_multipart(v: &[u8]) -> (r: bool)
    ensures
        r == is_multipart_value(v@),
{
    let t = trim_slice(v);
    let prefix = multipart_prefix_vec();
    let r = crate::ascii::lower_matches_at(t, 0, prefix.as_slice());
    proof {
        if t@.len() >= 10 {
            assert(t@.subrange(0, 10) =~= t@.take(10));
        }
    }
    r
}

/// The boundary value of the directive `d` (already trimmed), if `d` starts
/// with `boundary=` and the value is non-empty after trimming.
fn directive_boundary_value(d: &[u8]) -> (r: Option<Vec<u8>>)
    ensures
        r.deep_view() == directive_boundary(d@),
{
    let key = boundary_key_vec();
    if !crate::ascii::matches_at(d, 0, key.as_slice()) {
        proof {
            if d@.len() >= 9 {
                assert(d@.subrange(0, 9) =~= d@.take(9));
            }
        }
        return None;
    }
    proof {
        assert(d@.subrange(0, 9) =~= d@.take(9));
        lemma_find_from(d@, 9, 61);
    }
    let eq_end = find_byte_from(d, 9, 61);
    let val = trim_slice(vstd::slice::slice_subrange(d, 9, eq_end));
    if val.len() > 0 {
        Some(vstd::slice::slice_to_vec(val))
    } else {
        None
    }
}

/// The boundary token of the trimmed value `t`, scanning its directives.
fn find_boundary(t: &[u8]) -> (r: Option<Vec<u8>>)
    ensures
        r.deep_view() == boundary_from(t@, 0),
{
    let mut from: usize = 0;
    loop
        invariant
            0 <= from <= t@.len(),
            boundary_from(t@, 0) == boundary_from(t@, from as int),
        decreases t@.len() - from,
    {
        proof {
            lemma_find_from(t@, from as int, 59);
        }
        let end = find_byte_from(t, from, 59);
        let d = trim_slice(vstd::slice::slice_subrange(t, from, end));
        let found = directive_boundary_value(d);
        if found.is_some() {
            return found;
        }
        if end >= t.len() {
            return None;
        }
        from = end + 1;
    }
}

/// Parses the given `Content-Type` header values: the first value that,
/// after trimming, starts with `multipart/` (ASCII case-insensitive) yields
/// its subtype and, if some directive carries one, its boundary token.
pub fn parse_content_type(values: &Vec<Vec<u8>>) -> (r: Option<MultipartContentType>)
    ensures
        match r {
            None => content_type_spec(values.deep_view()) is None,
            Some(m) => content_type_spec(values.deep_view()) == Some(
                (m.multipart_type@, m.boundary.deep_view()),
            ),
        },
{
    let ghost vals = values.deep_view();
    proof {
        assert(vals.skip(0) =~= vals);
    }
    let mut i: usize = 0;
    while i < values.len()
        invariant
            0 <= i <= values@.len(),
            vals == values.deep_view(),
            vals.len() == values@.len(),
            forall|j: int| 0 <= j < vals.len() ==> vals[j] == #[trigger] values@[j]@,
            first_multipart_value(vals) == first_multipart_value(vals.skip(i as int)),
        decreases values@.len() - i,
    {
        let v: &Vec<u8> = &values[i];
        proof {
            assert(vals.skip(i as int)[0] == v@);
        }
        if value_is_multipart(v.as_slice()) {
            proof {
                assert(first_multipart_value(vals) == Some(v@));
            }
            let t = trim_slice(v.as_slice());
            proof {
                lemma_find_from(t@, 10, 59);
            }
            let semi = find_byte_from(t, 10, 59);
            let subtype = trim_slice(vstd::slice::slice_subrange(t, 10, semi));
            let boundary = find_boundary(t);
            return Some(
                MultipartContentType {
                    multipart_type: vstd::slice::slice_to_vec(subtype),
                    boundary,
                },
            );
        }
        proof {
            assert(vals.skip(i as int).skip(1) =~= vals.skip(i as int + 1));
        }
        i = i + 1;
    }
    proof {
        assert(vals.skip(i as int).len() == 0);
    }
    None
}

/// Whether `s` is exactly the bytes of `form-data`.
pub fn is_form_data(s: &[u8]) -> (r: bool)
    ensures
        r == (s@ == form_data_bytes()),
{
    let key = form_data_vec();
    bytes_eq(s, key.as_slice())
}

} // verus!
