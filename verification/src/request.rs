//! The request-side view of the parser: a plain carrier for the
//! `Content-Type` header values and the raw body of one request, and the
//! orchestration that turns them into the ordered sequence of parts.
use vstd::prelude::*;

use crate::content_type::content_type_spec;
use crate::content_type::form_data_bytes;
use crate::content_type::is_form_data;
use crate::content_type::parse_content_type;
use crate::content_type::MultipartContentType;
use crate::part::Part;
use crate::segment::segment_body;
use crate::segment::segment_spec;

verus! {

/// What the parser reads from a request: every value of its `Content-Type`
/// header, in order, and the fully buffered body bytes.
#[derive(Debug, PartialEq, Eq)]
pub struct RequestData {
    pub content_type_values: Vec<Vec<u8>>,
    pub body: Vec<u8>,
}

/// The ordered contents of the parts that `values` and `body` describe:
/// empty unless the first multipart-looking `Content-Type` value has
/// subtype `form-data` and carries a boundary; otherwise the body split on
/// that boundary.
pub open spec fn parts_spec(values: Seq<Seq<u8>>, body: Seq<u8>) -> Seq<Seq<u8>> {
    match content_type_spec(values) {
        None => Seq::empty(),
        Some((subtype, ob)) => {
            if subtype == form_data_bytes() {
                match ob {
                    None => Seq::empty(),
                    Some(b) => segment_spec(body, b),
                }
            } else {
                Seq::empty()
            }
        },
    }
}

/// The ordered part contents of one request.
pub open spec fn req_parts(rd: RequestData) -> Seq<Seq<u8>> {
    parts_spec(rd.content_type_values.deep_view(), rd.body@)
}

/// What a request must answer for multipart matching: the parsed
/// `Content-Type`, and the parsed parts.
pub trait RequestUtils {
    /// The subtype and boundary of the first multipart `Content-Type`
    /// value, if any.
    fn multipart_contenttype(&self) -> Option<MultipartContentType>;

    /// The ordered parts of the body, empty unless the request declares
    /// `multipart/form-data` with a boundary.
    fn parts(&self) -> Vec<Part>;
}

impl RequestUtils for RequestData {
    fn multipart_contenttype(&self) -> (r: Option<MultipartContentType>)
        ensures
            match r {
                None => content_type_spec(self.content_type_values.deep_view()) is None,
                Some(m) => content_type_spec(self.content_type_values.deep_view()) == Some(
                    (m.multipart_type@, m.boundary.deep_view()),
                ),
            },
    {
        parse_content_type(&self.content_type_values)
    }

    fn parts(&self) -> (r: Vec<Part>)
        ensures
            r.deep_view() == req_parts(*self),
    {
        let r: Vec<Part> = Vec::new();
        match self.multipart_contenttype() {
            None => {
                proof {
                    assert(r.deep_view() =~= req_parts(*self));
                }
                r
            },
            Some(m) => {
                if !is_form_data(m.multipart_type.as_slice()) {
                    proof {
                        assert(r.deep_view() =~= req_parts(*self));
                    }
                    return r;
                }
                match m.boundary {
                    None => {
                        proof {
                            assert(r.deep_view() =~= req_parts(*self));
                        }
                        r
                    },
                    Some(b) => {
                        proof {
                            assert(b.deep_view() =~= b@);
                            assert(req_parts(*self) == segment_spec(self.body@, b@));
                        }
                        segment_body(self.body.as_slice(), b.as_slice())
                    },
                }
            },
        }
    }
}

} // verus!
