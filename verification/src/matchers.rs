//! The two multipart matchers: an exact part count, and "at least one part
//! satisfies the given field constraints".
use vstd::prelude::*;
use vstd::utf8::encode_utf8;
use vstd::utf8::encode_utf8_decode_utf8;
use vstd::utf8::valid_utf8;

use crate::ascii::bytes_eq;
use crate::part::body_bytes_of;
use crate::part::content_type_of;
use crate::part::field_from;
use crate::part::filename_key;
use crate::part::header_body_split;
use crate::part::header_bytes_of;
use crate::part::name_key;
use crate::part::Part;
use crate::request::req_parts;
use crate::request::RequestData;
use crate::request::RequestUtils;

verus! {

/// The byte value that reading the quoted directive `key` out of the part
/// content `c` yields, provided every step succeeds: the content splits
/// into header and body, the header bytes and the value bytes are valid
/// UTF-8, and the directive is present.
pub open spec fn field_value_ok(c: Seq<u8>, key: Seq<u8>) -> Option<Seq<u8>> {
    if header_body_split(c) is Some && valid_utf8(header_bytes_of(c)) {
        match field_from(header_bytes_of(c), key, 0) {
            Some(v) => if valid_utf8(v) {
                Some(v)
            } else {
                None
            },
            None => None,
        }
    } else {
        None
    }
}

/// The byte value that reading the `Content-Type` header line out of the
/// part content `c` yields, provided every step succeeds.
pub open spec fn ct_value_ok(c: Seq<u8>) -> Option<Seq<u8>> {
    if header_body_split(c) is Some && valid_utf8(header_bytes_of(c)) {
        match content_type_of(header_bytes_of(c)) {
            Some(v) => if valid_utf8(v) {
                Some(v)
            } else {
                None
            },
            None => None,
        }
    } else {
        None
    }
}

/// Matches requests whose multipart body has exactly the given number of
/// parts.
pub struct NumberOfPartsMatcher(pub usize);

impl NumberOfPartsMatcher {
    /// Whether the request's multipart body has exactly the expected
    /// number of parts.
    pub fn matches(&self, request: &RequestData) -> (r: bool)
        ensures
            r == (req_parts(*request).len() == self.0),
    {
        let ps = request.parts();
        ps.len() == self.0
    }
}

/// Matches requests whose multipart body holds at least one part that
/// satisfies every constraint set on this matcher; a constraint left
/// `None` is satisfied by every part.
#[derive(Debug, PartialEq, Eq)]
pub struct ContainsPart {
    pub name: Option<String>,
    pub filename: Option<String>,
    pub content_type: Option<String>,
    pub body: Option<Vec<u8>>,
}

impl Default for ContainsPart {
    /// A matcher with no constraint set.
    fn default() -> (r: Self)
        ensures
            r.name is None,
            r.filename is None,
            r.content_type is None,
            r.body is None,
    {
        ContainsPart { name: None, filename: None, content_type: None, body: None }
    }
}

impl ContainsPart {
    /// Whether the part content `c` satisfies every constraint of this
    /// matcher. A field constraint asks that reading that field out of the
    /// part succeeds and yields exactly the required text; a part whose
    /// header cannot be read never satisfies a field constraint.
    pub open spec fn part_satisfies(&self, c: Seq<u8>) -> bool {
        &&& match self.name {
            Option::None => true,
            Option::Some(n) => field_value_ok(c, name_key()) == Some(encode_utf8(n@)),
        }
        &&& match self.filename {
            Option::None => true,
            Option::Some(f) => field_value_ok(c, filename_key()) == Some(encode_utf8(f@)),
        }
        &&& match self.content_type {
            Option::None => true,
            Option::Some(t) => ct_value_ok(c) == Some(encode_utf8(t@)),
        }
        &&& match self.body {
            Option::None => true,
            Option::Some(b) => body_bytes_of(c) == Some(b@),
        }
    }

    /// A matcher with no constraint set.
    pub fn new() -> (r: Self)
        ensures
            r.name is None,
            r.filename is None,
            r.content_type is None,
            r.body is None,
    {
        Self::default()
    }

    /// This matcher with the `name` constraint set.
    pub fn with_name(self, name: &str) -> (r: Self)
        ensures
            r.name matches Some(n) && n@ == name@,
            r.filename == self.filename,
            r.content_type == self.content_type,
            r.body == self.body,
    {
        ContainsPart { name: Some(name.to_owned()), ..self }
    }

    /// This matcher with the `filename` constraint set.
    pub fn with_filename(self, filename: &str) -> (r: Self)
        ensures
            r.filename matches Some(f) && f@ == filename@,
            r.name == self.name,
            r.content_type == self.content_type,
            r.body == self.body,
    {
        ContainsPart { filename: Some(filename.to_owned()), ..self }
    }

    /// This matcher with the `Content-Type` constraint set.
    pub fn with_content_type(self, content_type: &str) -> (r: Self)
        ensures
            r.content_type matches Some(t) && t@ == content_type@,
            r.name == self.name,
            r.filename == self.filename,
            r.body == self.body,
    {
        ContainsPart { content_type: Some(content_type.to_owned()), ..self }
    }

    /// This matcher with the `body` constraint set.
    pub fn with_body(self, body: &[u8]) -> (r: Self)
        ensures
            r.body matches Some(b) && b@ == body@,
            r.name == self.name,
            r.filename == self.filename,
            r.content_type == self.content_type,
    {
        ContainsPart { body: Some(vstd::slice::slice_to_vec(body)), ..self }
    }

    /// Whether the part `p` satisfies every constraint of this matcher.
    fn part_matches(&self, p: &Part) -> (r: bool)
        ensures
            r == self.part_satisfies(p.content@),
    {
        let ghost c = p.content@;
        let name_ok: bool = match &self.name {
            None => true,
            Some(required) => match p.name() {
                Ok(Some(s)) => {
                    proof {
                        encode_utf8_decode_utf8(s@);
                        encode_utf8_decode_utf8(required@);
                    }
                    s == *required
                },
                _ => false,
            },
        };
        let filename_ok: bool = match &self.filename {
            None => true,
            Some(required) => match p.filename() {
                Ok(Some(s)) => {
                    proof {
                        encode_utf8_decode_utf8(s@);
                        encode_utf8_decode_utf8(required@);
                    }
                    s == *required
                },
                _ => false,
            },
        };
        let content_type_ok: bool = match &self.content_type {
            None => true,
            Some(required) => match p.content_type() {
                Ok(Some(s)) => {
                    proof {
                        encode_utf8_decode_utf8(s@);
                        encode_utf8_decode_utf8(required@);
                    }
                    s == *required
                },
                _ => false,
            },
        };
        let body_ok: bool = match &self.body {
            None => true,
            Some(required) => match p.body() {
                Some(pb) => {
                    proof {
                        assert(pb.deep_view() =~= pb@);
                    }
                    bytes_eq(pb.as_slice(), required.as_slice())
                },
                None => false,
            },
        };
        proof {
            assert(name_ok == match self.name {
                Option::None => true,
                Option::Some(n) => field_value_ok(c, name_key()) == Some(encode_utf8(n@)),
            });
            assert(filename_ok == match self.filename {
                Option::None => true,
                Option::Some(f) => field_value_ok(c, filename_key()) == Some(encode_utf8(f@)),
            });
            assert(content_type_ok == match self.content_type {
                Option::None => true,
                Option::Some(t) => ct_value_ok(c) == Some(encode_utf8(t@)),
            });
            assert(body_ok == match self.body {
                Option::None => true,
                Option::Some(b) => body_bytes_of(c) == Some(b@),
            });
        }
        name_ok && filename_ok && content_type_ok && body_ok
    }

    /// Whether at least one part of the request's multipart body satisfies
    /// every constraint of this matcher.
    pub fn matches(&self, request: &RequestData) -> (r: bool)
        ensures
            r == exists|k: int|
                0 <= k < req_parts(*request).len() && self.part_satisfies(
                    #[trigger] req_parts(*request)[k],
                ),
    {
        let ps = request.parts();
        let ghost psv = req_parts(*request);
        let n = ps.len();
        let mut k: usize = 0;
        while k < n
            invariant
                psv == req_parts(*request),
                ps.deep_view() == psv,
                n == ps@.len(),
                ps@.len() == psv.len(),
                0 <= k <= n,
                forall|j: int| 0 <= j < k ==> !self.part_satisfies(#[trigger] psv[j]),
            decreases n - k,
        {
            proof {
                assert(ps@[k as int].content@ == psv[k as int]);
            }
            if self.part_matches(&ps[k]) {
                return true;
            }
            k = k + 1;
        }
        false
    }
}

} // verus!
