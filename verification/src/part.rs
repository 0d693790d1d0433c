//! One multipart part: its raw content, the split of that content into a
//! header block and a body block, and the `name`, `filename` and
//! `Content-Type` fields read from the header block.
use vstd::prelude::*;
use vstd::utf8::decode_utf8;
use vstd::utf8::valid_utf8;

use crate::ascii::find_from;
use crate::ascii::lemma_find_from;
use crate::ascii::lemma_skip_line_ws_from;
use crate::ascii::lemma_skip_ws_from;
use crate::ascii::lower_seq;
use crate::ascii::skip_line_ws_from;
use crate::ascii::skip_ws_from;

verus! {

/// Header bytes were not valid UTF-8 where the parser had to read them as
/// text. Decoding is per part and lazy: a fault in one part never affects
/// its siblings, and it is reported as this error, never as absence.
#[derive(Debug, PartialEq, Eq, Clone, Copy)]
pub struct EncodingError;

/// The first offset at or after `i` where a header/body separator starts —
/// either `LF LF` (length 2) or `CR LF CR LF` (length 4) — with the
/// separator's length.
pub open spec fn sep_from(s: Seq<u8>, i: int) -> Option<(int, int)>
    decreases s.len() - i,
{
    if i < 0 || i + 2 > s.len() {
        None
    } else if s[i] == 10 && s[i + 1] == 10 {
        Some((i, 2))
    } else if i + 4 <= s.len() && s[i] == 13 && s[i + 1] == 10 && s[i + 2] == 13 && s[i + 3]
        == 10 {
        Some((i, 4))
    } else {
        sep_from(s, i + 1)
    }
}

/// The first header/body separator of a part's content, if any.
pub open spec fn header_body_split(s: Seq<u8>) -> Option<(int, int)> {
    sep_from(s, 0)
}

pub proof fn lemma_sep_from_bounds(s: Seq<u8>, i: int)
    requires
        0 <= i,
    ensures
        sep_from(s, i) matches Some((o, l)) ==> i <= o && o + l <= s.len() && (l == 2 || l == 4),
    decreases s.len() - i,
{
    if !(i < 0 || i + 2 > s.len()) {
        lemma_sep_from_bounds(s, i + 1);
    }
}

/// The header bytes of a part's content: what stands before the separator.
pub open spec fn header_bytes_of(s: Seq<u8>) -> Seq<u8> {
    match header_body_split(s) {
        Some((o, _)) => s.take(o),
        None => Seq::empty(),
    }
}

/// The body bytes of a part's content: what stands after the separator.
pub open spec fn body_bytes_of(s: Seq<u8>) -> Option<Seq<u8>> {
    match header_body_split(s) {
        Some((o, l)) => Some(s.skip(o + l)),
        None => None,
    }
}

/// The bytes of the literal `name="`.
pub open spec fn name_key() -> Seq<u8> {
    seq![110u8, 97u8, 109u8, 101u8, 61u8, 34u8]
}

/// The bytes of the literal `filename="`.
pub open spec fn filename_key() -> Seq<u8> {
    seq![102u8, 105u8, 108u8, 101u8, 110u8, 97u8, 109u8, 101u8, 61u8, 34u8]
}

/// The bytes of the literal `content-type:`.
pub open spec fn content_type_key() -> Seq<u8> {
    seq![99u8, 111u8, 110u8, 116u8, 101u8, 110u8, 116u8, 45u8, 116u8, 121u8, 112u8, 101u8, 58u8]
}

/// The value range of a quoted directive starting at `i` in the header `h`:
/// `h[i]` must be `;`, optional whitespace and the key (ASCII
/// case-insensitive, ending in the opening quote) must follow, and the
/// value — at least one byte, up to the next `"` — must be closed.
pub open spec fn directive_value_at(h: Seq<u8>, key: Seq<u8>, i: int) -> Option<(int, int)> {
    if !(0 <= i < h.len() && h[i] == 59) {
        None
    } else {
        let j = skip_ws_from(h, i + 1);
        if j + key.len() <= h.len() && lower_seq(h.subrange(j, j + key.len())) == key {
            let v0 = j + key.len();
            let q = find_from(h, v0, 34);
            if v0 < q < h.len() {
                Some((v0, q))
            } else {
                None
            }
        } else {
            None
        }
    }
}

/// The value of the first directive of the header `h` that matches `key`,
/// scanning start positions from `i` upward.
pub open spec fn field_from(h: Seq<u8>, key: Seq<u8>, i: int) -> Option<Seq<u8>>
    decreases h.len() - i,
{
    if i >= h.len() {
        None
    } else {
        match directive_value_at(h, key, i) {
            Some(r) => Some(h.subrange(r.0, r.1)),
            None => field_from(h, key, i + 1),
        }
    }
}

/// The `name` carried by the header bytes `h`, if any.
pub open spec fn name_of(h: Seq<u8>) -> Option<Seq<u8>> {
    field_from(h, name_key(), 0)
}

/// The `filename` carried by the header bytes `h`, if any.
pub open spec fn filename_of(h: Seq<u8>) -> Option<Seq<u8>> {
    field_from(h, filename_key(), 0)
}

/// The value of the first header line of `h` that starts with
/// `content-type:` (ASCII case-insensitive): the rest of that line, with
/// leading spaces and tabs and one trailing `CR` removed; it must be
/// non-empty.
pub open spec fn line_ct_value(h: Seq<u8>, l: int) -> Option<Seq<u8>> {
    if l + 13 <= h.len() && lower_seq(h.subrange(l, l + 13)) == content_type_key() {
        let v0 = skip_line_ws_from(h, l + 13);
        let e = find_from(h, v0, 10);
        let e2 = if e > v0 && h[e - 1] == 13 {
            e - 1
        } else {
            e
        };
        if v0 < e2 {
            Some(h.subrange(v0, e2))
        } else {
            None
        }
    } else {
        None
    }
}

/// The `Content-Type` value of the header bytes `h`, scanning line starts
/// from `l` upward.
pub open spec fn ct_from(h: Seq<u8>, l: int) -> Option<Seq<u8>>
    decreases h.len() + 1 - l,
    when 0 <= l <= h.len()
    via ct_from_decreases
{
    if l >= h.len() {
        None
    } else if line_ct_value(h, l) is Some {
        line_ct_value(h, l)
    } else {
        let nl = find_from(h, l, 10);
        if nl >= h.len() {
            None
        } else {
            ct_from(h, nl + 1)
        }
    }
}

#[via_fn]
proof fn ct_from_decreases(h: Seq<u8>, l: int) {
    if 0 <= l <= h.len() {
        lemma_find_from(h, l, 10);
    }
}

/// The declared `Content-Type` carried by the header bytes `h`, if any.
pub open spec fn content_type_of(h: Seq<u8>) -> Option<Seq<u8>> {
    ct_from(h, 0)
}

/// The bytes of the literal `name="`, as a vector.
fn name_key_vec() -> (r: Vec<u8>)
    ensures
        r@ == name_key(),
{
    let mut r: Vec<u8> = Vec::new();
    r.push(110);
    r.push(97);
    r.push(109);
    r.push(101);
    r.push(61);
    r.push(34);
    proof {
        assert(r@ =~= name_key());
    }
    r
}

/// The bytes of the literal `filename="`, as a vector.
fn filename_key_vec() -> (r: Vec<u8>)
    ensures
        r@ == filename_key(),
{
    let mut r: Vec<u8> = Vec::new();
    r.push(102);
    r.push(105);
    r.push(108);
    r.push(101);
    r.push(110);
    r.push(97);
    r.push(109);
    r.push(101);
    r.push(61);
    r.push(34);
    proof {
        assert(r@ =~= filename_key());
    }
    r
}

/// The bytes of the literal `content-type:`, as a vector.
fn content_type_key_vec() -> (r: Vec<u8>)
    ensures
        r@ == content_type_key(),
{
    let mut r: Vec<u8> = Vec::new();
    r.push(99);
    r.push(111);
    r.push(110);
    r.push(116);
    r.push(101);
    r.push(110);
    r.push(116);
    r.push(45);
    r.push(116);
    r.push(121);
    r.push(112);
    r.push(101);
    r.push(58);
    proof {
        assert(r@ =~= content_type_key());
    }
    r
}

/// The value range of the first directive of `h` matching `key`, if any.
fn find_field(h: &[u8], key: &[u8]) -> (r: Option<(usize, usize)>)
    ensures
        match r {
            Some(p) => field_from(h@, key@, 0) == Some(
                h@.subrange(p.0 as int, p.1 as int),
            ) && p.0 < p.1 && p.1 <= h@.len(),
            None => field_from(h@, key@, 0) is None,
        },
{
    let hlen = h.len();
    let klen = key.len();
    let mut i: usize = 0;
    while i < hlen
        invariant
            hlen == h@.len(),
            klen == key@.len(),
            0 <= i <= hlen,
            field_from(h@, key@, 0) == field_from(h@, key@, i as int),
        decreases hlen - i,
    {
        if h[i] == 59 {
            proof {
                lemma_skip_ws_from(h@, i as int + 1);
            }
            let j = crate::ascii::skip_ws_pos(h, i + 1);
            if crate::ascii::lower_matches_at(h, j, key) {
                let v0 = j + klen;
                proof {
                    lemma_find_from(h@, v0 as int, 34);
                }
                let q = crate::ascii::find_byte_from(h, v0, 34);
                if v0 < q && q < hlen {
                    proof {
                        assert(directive_value_at(h@, key@, i as int) == Some(
                            (v0 as int, q as int),
                        ));
                    }
                    return Some((v0, q));
                }
            }
            proof {
                assert(directive_value_at(h@, key@, i as int) is None);
            }
        } else {
            proof {
                assert(directive_value_at(h@, key@, i as int) is None);
            }
        }
        i = i + 1;
    }
    None
}

/// The value range of the first `content-type:` header line of `h`, if any.
fn find_ct(h: &[u8]) -> (r: Option<(usize, usize)>)
    ensures
        match r {
            Some(p) => content_type_of(h@) == Some(h@.subrange(p.0 as int, p.1 as int)) && p.0
                < p.1 && p.1 <= h@.len(),
            None => content_type_of(h@) is None,
        },
{
    let hlen = h.len();
    let key = content_type_key_vec();
    let mut l: usize = 0;
    while l < hlen
        invariant
            hlen == h@.len(),
            key@ == content_type_key(),
            0 <= l <= hlen,
            ct_from(h@, 0) == ct_from(h@, l as int),
        decreases hlen - l,
    {
        if crate::ascii::lower_matches_at(h, l, key.as_slice()) {
            proof {
                lemma_skip_line_ws_from(h@, l as int + 13);
            }
            let v0 = crate::ascii::skip_line_ws_pos(h, l + 13);
            proof {
                lemma_find_from(h@, v0 as int, 10);
            }
            let e = crate::ascii::find_byte_from(h, v0, 10);
            let e2 = if e > v0 && h[e - 1] == 13 {
                e - 1
            } else {
                e
            };
            if v0 < e2 {
                proof {
                    assert(line_ct_value(h@, l as int) == Some(
                        h@.subrange(v0 as int, e2 as int),
                    ));
                }
                return Some((v0, e2));
            }
            proof {
                assert(line_ct_value(h@, l as int) is None);
            }
        } else {
            proof {
                assert(line_ct_value(h@, l as int) is None);
            }
        }
        proof {
            lemma_find_from(h@, l as int, 10);
        }
        let nl = crate::ascii::find_byte_from(h, l, 10);
        if nl >= hlen {
            return None;
        }
        l = nl + 1;
    }
    None
}

/// Relies on `core::str::from_utf8`: it returns `Ok` exactly on UTF-8-valid
/// bytes, and the resulting text is a view of those same bytes.
#[verifier::external_body]
fn bytes_to_string(v: &[u8]) -> (r: Option<String>)
    ensures
        r is Some <==> valid_utf8(v@),
        r matches Some(s) ==> vstd::utf8::encode_utf8(s@) == v@ && s@ == decode_utf8(v@),
{
    match core::str::from_utf8(v) {
        Ok(s) => Some(s.to_string()),
        Err(_) => None,
    }
}

/// One part of a multipart body: the raw bytes between two boundary
/// markers, with one boundary-adjacent line break trimmed from each end.
#[derive(Debug, PartialEq, Eq)]
pub struct Part {
    pub content: Vec<u8>,
}

impl View for Part {
    type V = Seq<u8>;

    open spec fn view(&self) -> Seq<u8> {
        self.content@
    }
}

impl DeepView for Part {
    type V = Seq<u8>;

    open spec fn deep_view(&self) -> Seq<u8> {
        self.content@
    }
}

impl Part {
    /// A part holding the given raw content.
    pub fn new(content: Vec<u8>) -> (r: Part)
        ensures
            r.content@ == content@,
    {
        Part { content }
    }

    /// The offset and length of the first header/body separator of this
    /// part's content: either `LF LF` (length 2) or `CR LF CR LF` (length
    /// 4), whichever occurs first.
    pub fn header_body_boundary(&self) -> (r: Option<(usize, usize)>)
        ensures
            match r {
                Some((o, l)) => header_body_split(self.content@) == Some((o as int, l as int)),
                None => header_body_split(self.content@) is None,
            },
    {
        let s = &self.content;
        if s.len() < 2 {
            return None;
        }
        let slen = s.len();
        let mut i: usize = 0;
        while i <= slen - 2
            invariant
                s@ == self.content@,
                slen == s@.len(),
                slen >= 2,
                0 <= i,
                i <= s@.len(),
                sep_from(s@, 0) == sep_from(s@, i as int),
            decreases s@.len() - i,
        {
            if s[i] == 10 && s[i + 1] == 10 {
                proof {
                    assert(sep_from(s@, i as int) == Some((i as int, 2int)));
                }
                return Some((i, 2));
            }
            if slen >= 4 && i <= slen - 4 && s[i] == 13 && s[i + 1] == 10 && s[i + 2] == 13
                && s[i + 3] == 10 {
                proof {
                    assert(sep_from(s@, i as int) == Some((i as int, 4int)));
                }
                return Some((i, 4));
            }
            i = i + 1;
        }
        None
    }

    /// The header block of this part, read as text: `Ok(None)` if the
    /// content has no header/body separator, `Err` if the bytes before the
    /// separator are not valid UTF-8.
    pub fn header(&self) -> (r: Result<Option<String>, EncodingError>)
        ensures
            match r {
                Ok(None) => header_body_split(self.content@) is None,
                Ok(Some(h)) => header_body_split(self.content@) matches Some((o, _)) && valid_utf8(
                    self.content@.take(o),
                ) && vstd::utf8::encode_utf8(h@) == self.content@.take(o) && h@ == decode_utf8(
                    self.content@.take(o),
                ),
                Err(_) => header_body_split(self.content@) matches Some((o, _)) && !valid_utf8(
                    self.content@.take(o),
                ),
            },
    {
        match self.header_body_boundary() {
            None => Ok(None),
            Some((o, _)) => {
                proof {
                    lemma_sep_from_bounds(self.content@, 0);
                }
                let hdr = vstd::slice::slice_subrange(self.content.as_slice(), 0, o);
                proof {
                    assert(hdr@ =~= self.content@.take(o as int));
                }
                match bytes_to_string(hdr) {
                    Some(s) => Ok(Some(s)),
                    None => Err(EncodingError),
                }
            },
        }
    }

    /// The body block of this part: the bytes after the header/body
    /// separator, or `None` if the content has no separator.
    pub fn body(&self) -> (r: Option<Vec<u8>>)
        ensures
            r.deep_view() == body_bytes_of(self.content@),
    {
        match self.header_body_boundary() {
            None => None,
            Some((o, l)) => {
                proof {
                    lemma_sep_from_bounds(self.content@, 0);
                }
                let n = self.content.len();
                let b = vstd::slice::slice_subrange(self.content.as_slice(), o + l, n);
                proof {
                    assert(b@ =~= self.content@.skip(o as int + l as int));
                }
                Some(vstd::slice::slice_to_vec(b))
            },
        }
    }

    /// The value of the first quoted directive of this part's header block
    /// that matches `key`, read as text. `Ok(None)` if the content has no
    /// header/body separator or no such directive; `Err` if bytes that had
    /// to be read as text are not valid UTF-8.
    fn quoted_field(&self, key: &[u8]) -> (r: Result<Option<String>, EncodingError>)
        ensures
            match r {
                Ok(None) => header_body_split(self.content@) is None || (valid_utf8(
                    header_bytes_of(self.content@),
                ) && field_from(header_bytes_of(self.content@), key@, 0) is None),
                Ok(Some(s)) => ({
                    &&& header_body_split(self.content@) is Some
                    &&& valid_utf8(header_bytes_of(self.content@))
                    &&& field_from(header_bytes_of(self.content@), key@, 0) matches Some(vb)
                    &&& valid_utf8(vb)
                    &&& vstd::utf8::encode_utf8(s@) == vb
                    &&& s@ == decode_utf8(vb)
                }),
                Err(_) => header_body_split(self.content@) is Some && (!valid_utf8(
                    header_bytes_of(self.content@),
                ) || (field_from(header_bytes_of(self.content@), key@, 0) matches Some(vb)
                    && !valid_utf8(vb))),
            },
    {
        match self.header_body_boundary() {
            None => Ok(None),
            Some((o, _)) => {
                proof {
                    lemma_sep_from_bounds(self.content@, 0);
                }
                let hdr = vstd::slice::slice_subrange(self.content.as_slice(), 0, o);
                proof {
                    assert(hdr@ =~= self.content@.take(o as int));
                }
                match bytes_to_string(hdr) {
                    None => Err(EncodingError),
                    Some(_) => match find_field(hdr, key) {
                        None => Ok(None),
                        Some((a, b)) => {
                            let vb = vstd::slice::slice_subrange(hdr, a, b);
                            match bytes_to_string(vb) {
                                Some(s) => Ok(Some(s)),
                                None => Err(EncodingError),
                            }
                        },
                    },
                }
            },
        }
    }

    /// The `name` declared by this part's header block — the value of the
    /// first directive `; name="<value>"` (key matched without regard to
    /// ASCII case, value running to the next quote). `Ok(None)` if the
    /// content has no header/body separator or no such directive; `Err` if
    /// bytes that had to be read as text are not valid UTF-8.
    pub fn name(&self) -> (r: Result<Option<String>, EncodingError>)
        ensures
            match r {
                Ok(None) => header_body_split(self.content@) is None || (valid_utf8(
                    header_bytes_of(self.content@),
                ) && name_of(header_bytes_of(self.content@)) is None),
                Ok(Some(s)) => ({
                    &&& header_body_split(self.content@) is Some
                    &&& valid_utf8(header_bytes_of(self.content@))
                    &&& name_of(header_bytes_of(self.content@)) matches Some(vb)
                    &&& valid_utf8(vb)
                    &&& vstd::utf8::encode_utf8(s@) == vb
                    &&& s@ == decode_utf8(vb)
                }),
                Err(_) => header_body_split(self.content@) is Some && (!valid_utf8(
                    header_bytes_of(self.content@),
                ) || (name_of(header_bytes_of(self.content@)) matches Some(vb) && !valid_utf8(
                    vb,
                ))),
            },
    {
        let key = name_key_vec();
        self.quoted_field(key.as_slice())
    }

    /// The `filename` declared by this part's header block — as `name`,
    /// with the key `filename`.
    pub fn filename(&self) -> (r: Result<Option<String>, EncodingError>)
        ensures
            match r {
                Ok(None) => header_body_split(self.content@) is None || (valid_utf8(
                    header_bytes_of(self.content@),
                ) && filename_of(header_bytes_of(self.content@)) is None),
                Ok(Some(s)) => ({
                    &&& header_body_split(self.content@) is Some
                    &&& valid_utf8(header_bytes_of(self.content@))
                    &&& filename_of(header_bytes_of(self.content@)) matches Some(vb)
                    &&& valid_utf8(vb)
                    &&& vstd::utf8::encode_utf8(s@) == vb
                    &&& s@ == decode_utf8(vb)
                }),
                Err(_) => header_body_split(self.content@) is Some && (!valid_utf8(
                    header_bytes_of(self.content@),
                ) || (filename_of(header_bytes_of(self.content@)) matches Some(vb) && !valid_utf8(
                    vb,
                ))),
            },
    {
        let key = filename_key_vec();
        self.quoted_field(key.as_slice())
    }

    /// The `Content-Type` declared by this part's header block — the value
    /// of the first header line starting with `content-type:` (matched
    /// without regard to ASCII case), with leading spaces and tabs and one
    /// trailing `CR` removed. `Ok(None)` if the content has no header/body
    /// separator or no such line; `Err` if bytes that had to be read as
    /// text are not valid UTF-8.
    pub fn content_type(&self) -> (r: Result<Option<String>, EncodingError>)
        ensures
            match r {
                Ok(None) => header_body_split(self.content@) is None || (valid_utf8(
                    header_bytes_of(self.content@),
                ) && content_type_of(header_bytes_of(self.content@)) is None),
                Ok(Some(s)) => ({
                    &&& header_body_split(self.content@) is Some
                    &&& valid_utf8(header_bytes_of(self.content@))
                    &&& content_type_of(header_bytes_of(self.content@)) matches Some(vb)
                    &&& valid_utf8(vb)
                    &&& vstd::utf8::encode_utf8(s@) == vb
                    &&& s@ == decode_utf8(vb)
                }),
                Err(_) => header_body_split(self.content@) is Some && (!valid_utf8(
                    header_bytes_of(self.content@),
                ) || (content_type_of(header_bytes_of(self.content@)) matches Some(vb)
                    && !valid_utf8(vb))),
            },
    {
        match self.header_body_boundary() {
            None => Ok(None),
            Some((o, _)) => {
                proof {
                    lemma_sep_from_bounds(self.content@, 0);
                }
                let hdr = vstd::slice::slice_subrange(self.content.as_slice(), 0, o);
                proof {
                    assert(hdr@ =~= self.content@.take(o as int));
                }
                match bytes_to_string(hdr) {
                    None => Err(EncodingError),
                    Some(_) => match find_ct(hdr) {
                        None => Ok(None),
                        Some((a, b)) => {
                            let vb = vstd::slice::slice_subrange(hdr, a, b);
                            match bytes_to_string(vb) {
                                Some(s) => Ok(Some(s)),
                                None => Err(EncodingError),
                            }
                        },
                    },
                }
            },
        }
    }
}

} // verus!
