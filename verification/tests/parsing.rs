use wiremock_multipart::EncodingError;
use wiremock_multipart::MultipartContentType;
use wiremock_multipart::Part;
use wiremock_multipart::RequestData;
use wiremock_multipart::RequestUtils;
use wiremock_multipart::segment::trim_single_linebreak_from_end;
use wiremock_multipart::segment::trim_single_linebreak_from_start;

fn request(values: &[&str]) -> RequestData {
    requestb(values, "")
}

fn requestb(values: &[&str], body: &str) -> RequestData {
    RequestData {
        content_type_values: values.iter().map(|v| v.as_bytes().to_vec()).collect(),
        body: body.as_bytes().to_vec(),
    }
}

fn part(content: &str) -> Part {
    Part { content: content.as_bytes().to_vec() }
}

#[test]
fn multipart_contenttype_should_return_none_if_no_multipart_request() {
    assert_eq!(request(&[]).multipart_contenttype(), None);
    // a request carrying only headers other than content-type offers no values
    assert_eq!(request(&[]).multipart_contenttype(), None);
    assert_eq!(request(&["image/jpeg"]).multipart_contenttype(), None);
}

#[test]
fn multipart_contenttype_should_return_some_if_multipart_request() {
    assert_eq!(
        request(&["multipart/foo"]).multipart_contenttype(),
        Some(MultipartContentType {
            multipart_type: "foo".as_bytes().to_vec(),
            boundary: None,
        })
    );
    assert_eq!(
        request(&["multipart/bar; boundary=xyz"]).multipart_contenttype(),
        Some(MultipartContentType {
            multipart_type: "bar".as_bytes().to_vec(),
            boundary: Some("xyz".as_bytes().to_vec()),
        })
    );
}

#[test]
fn header_utils_multipart_contenttype_should_return_none_if_no_multipart_request() {
    assert_eq!(request(&[]).multipart_contenttype(), None);
    assert_eq!(request(&["application/json"]).multipart_contenttype(), None);
    assert_eq!(request(&["image/jpeg"]).multipart_contenttype(), None);
}

#[test]
fn header_utils_multipart_contenttype_should_return_some_if_multipart_request() {
    assert_eq!(
        request(&["multipart/foo"]).multipart_contenttype(),
        Some(MultipartContentType {
            multipart_type: "foo".as_bytes().to_vec(),
            boundary: None,
        })
    );
    assert_eq!(
        request(&["multipart/bar; boundary=xyz"]).multipart_contenttype(),
        Some(MultipartContentType {
            multipart_type: "bar".as_bytes().to_vec(),
            boundary: Some("xyz".as_bytes().to_vec()),
        })
    );
}

#[test]
fn contenttype_should_trim_subtype_and_boundary() {
    assert_eq!(
        request(&["  multipart/mixed ; boundary= abc  "]).multipart_contenttype(),
        Some(MultipartContentType {
            multipart_type: "mixed".as_bytes().to_vec(),
            boundary: Some("abc".as_bytes().to_vec()),
        })
    );
}

#[test]
fn contenttype_boundary_should_stop_at_second_equals_sign() {
    assert_eq!(
        request(&["multipart/form-data; boundary=xyz=q"]).multipart_contenttype(),
        Some(MultipartContentType {
            multipart_type: "form-data".as_bytes().to_vec(),
            boundary: Some("xyz".as_bytes().to_vec()),
        })
    );
}

#[test]
fn contenttype_should_skip_empty_boundary_directive() {
    assert_eq!(
        request(&["multipart/form-data; boundary= ; boundary=zzz"]).multipart_contenttype(),
        Some(MultipartContentType {
            multipart_type: "form-data".as_bytes().to_vec(),
            boundary: Some("zzz".as_bytes().to_vec()),
        })
    );
}

#[test]
fn contenttype_prefix_is_case_insensitive_but_subtype_is_kept() {
    let r = request(&["MULTIPART/Form-Data; boundary=xyz"]);
    assert_eq!(
        r.multipart_contenttype(),
        Some(MultipartContentType {
            multipart_type: "Form-Data".as_bytes().to_vec(),
            boundary: Some("xyz".as_bytes().to_vec()),
        })
    );
    // the subtype comparison in parts() is exact, so this yields no parts
    assert_eq!(
        requestb(
            &["MULTIPART/Form-Data; boundary=xyz"],
            "--xyz\nContent-Disposition: form-data; name=\"a\"\n\ncontent\n--xyz--\n",
        )
        .parts(),
        vec![]
    );
}

#[test]
fn first_multipart_value_wins() {
    // the first multipart-looking value is used, even when a later one
    // would carry a boundary
    let r = RequestData {
        content_type_values: vec![
            "text/plain".as_bytes().to_vec(),
            "multipart/foo".as_bytes().to_vec(),
            "multipart/form-data; boundary=xyz".as_bytes().to_vec(),
        ],
        body: "--xyz\na: 1\n\nx\n--xyz--\n".as_bytes().to_vec(),
    };
    assert_eq!(
        r.multipart_contenttype(),
        Some(MultipartContentType {
            multipart_type: "foo".as_bytes().to_vec(),
            boundary: None,
        })
    );
    assert_eq!(r.parts(), vec![]);
}

#[test]
fn request_utils_parts_should_find_single_text_part() {
    assert_eq!(
        requestb(
            &["multipart/form-data; boundary=xyz"],
            "--xyz\nContent-Disposition: form-data; name=\"part1\"\n\ncontent\n--xyz--\n",
        )
        .parts(),
        vec![part("Content-Disposition: form-data; name=\"part1\"\n\ncontent")],
    );
}

#[test]
fn parts_should_find_single_text_part_with_crnr() {
    assert_eq!(
        requestb(
            &["multipart/form-data; boundary=xyz"],
            "--xyz\r\nContent-Disposition: form-data; name=\"part1\"\r\n\r\ncontent\r\n--xyz--",
        )
        .parts(),
        vec![part("Content-Disposition: form-data; name=\"part1\"\r\n\r\ncontent")],
    );
}

#[test]
fn request_utils_parts_should_find_two_text_parts() {
    let mut body = String::new();
    body += "--xyz\n";
    body += "Content-Disposition: form-data; name=\"part1\"\n";
    body += "\n";
    body += "content\n";
    body += "--xyz\n";
    body += "Content-Disposition: form-data; name=\"file\"; filename=\"Cargo.toml\"\n";
    body += "Content-Type: plain/text\n";
    body += "\n";
    body += "[workspace]\nmembers = [\n    \"fhttp\",\n    \"fhttp-core\",\n]\n";
    body += "\n";
    body += "--xyz--\n";

    let mut part2 = String::new();
    part2 += "Content-Disposition: form-data; name=\"file\"; filename=\"Cargo.toml\"\n";
    part2 += "Content-Type: plain/text\n";
    part2 += "\n";
    part2 += "[workspace]\nmembers = [\n    \"fhttp\",\n    \"fhttp-core\",\n]\n";

    assert_eq!(
        requestb(&["multipart/form-data; boundary=xyz"], &body).parts(),
        vec![
            part("Content-Disposition: form-data; name=\"part1\"\n\ncontent"),
            part(&part2),
        ],
    );
}

#[test]
fn parts_should_find_two_text_parts_with_crnl() {
    let part2 = {
        let mut tmp = String::new();
        tmp += "Content-Disposition: form-data; name=\"file\"; filename=\"Cargo.toml\"";
        tmp += "\r\nContent-Type: plain/text";
        tmp += "\r\n\r\n";
        tmp += "[workspace]\nmembers = [\n    \"fhttp\",\n    \"fhttp-core\",\n]\n";

        tmp
    };
    let mut body = String::new();
    body += "--xyz";
    body += "\r\nContent-Disposition: form-data; name=\"part1\"";
    body += "\r\n\r\ncontent";
    body += "\r\n--xyz\r\n";
    body += &part2;
    body += "\r\n--xyz--\r\n";

    assert_eq!(
        requestb(&["multipart/form-data; boundary=xyz"], &body).parts(),
        vec![
            part("Content-Disposition: form-data; name=\"part1\"\r\n\r\ncontent"),
            part(&part2),
        ],
    );
}

#[test]
fn second_part_alone_carries_filename_and_content_type() {
    let mut body = String::new();
    body += "--xyz\n";
    body += "Content-Disposition: form-data; name=\"part1\"\n";
    body += "\n";
    body += "content\n";
    body += "--xyz\n";
    body += "Content-Disposition: form-data; name=\"file\"; filename=\"Cargo.toml\"\n";
    body += "Content-Type: plain/text\n";
    body += "\n";
    body += "payload\n";
    body += "--xyz--\n";
    let parts = requestb(&["multipart/form-data; boundary=xyz"], &body).parts();
    assert_eq!(parts.len(), 2);
    assert_eq!(parts[0].name(), Ok(Some("part1".to_string())));
    assert_eq!(parts[0].filename(), Ok(None));
    assert_eq!(parts[0].content_type(), Ok(None));
    assert_eq!(parts[1].name(), Ok(Some("file".to_string())));
    assert_eq!(parts[1].filename(), Ok(Some("Cargo.toml".to_string())));
    assert_eq!(parts[1].content_type(), Ok(Some("plain/text".to_string())));
}

#[test]
fn should_extract_header_and_body() {
    let p = part("Content-Disposition: form-data; name=\"text\"\nContent-Type: plain/text\n\ncontent");

    assert_eq!(
        p.header(),
        Ok(Some(
            "Content-Disposition: form-data; name=\"text\"\nContent-Type: plain/text".to_string()
        )),
    );

    assert_eq!(p.body(), Some("content".as_bytes().to_vec()));
}

#[test]
fn should_extract_header_and_body_with_cr_and_newline() {
    let p = part(
        "Content-Disposition: form-data; name=\"text\"\r\nContent-Type: plain/text\r\n\r\ncontent",
    );

    assert_eq!(
        p.header(),
        Ok(Some(
            "Content-Disposition: form-data; name=\"text\"\r\nContent-Type: plain/text".to_string()
        )),
    );

    assert_eq!(p.body(), Some("content".as_bytes().to_vec()));
}

#[test]
fn should_extract_part_name() {
    assert_eq!(
        part("Content-Disposition: form-data; name=\"text\"; filename=\"filename\"\nContent-Type: plain/text\n\ncontent")
            .name(),
        Ok(Some("text".to_string())),
    );
}

#[test]
fn should_extract_file_name() {
    assert_eq!(
        part("Content-Disposition: form-data; filename=\"my-file.txt\"; name=\"text\"\n\nContent-Type: plain/text\n\ncontent")
            .filename(),
        Ok(Some("my-file.txt".to_string())),
    );
}

#[test]
fn should_extract_content_type() {
    assert_eq!(
        part("Content-Disposition: form-data; name=\"text\"\n; filename=\"my-file.txt\"\nContent-Type: plain/text\n\ncontent")
            .content_type(),
        Ok(Some("plain/text".to_string())),
    );
}

#[test]
fn should_extract_part_body() {
    assert_eq!(
        part("Content-Disposition: form-data; name=\"text\"\nContent-Type: plain/text\n\ncontent")
            .body(),
        Some("content".as_bytes().to_vec()),
    );
}

#[test]
fn part_without_separator_has_no_header_and_no_body() {
    let p = part("just one line, no blank line");
    assert_eq!(p.header(), Ok(None));
    assert_eq!(p.body(), None);
    assert_eq!(p.name(), Ok(None));
}

#[test]
fn invalid_utf8_header_is_an_encoding_error_not_absence() {
    let mut content = Vec::new();
    content.extend_from_slice("Content-Disposition: form-data; name=\"a\"".as_bytes());
    content.push(0xFF);
    content.extend_from_slice("\n\nbody".as_bytes());
    let p = Part { content };
    assert_eq!(p.header(), Err(EncodingError));
    assert_eq!(p.name(), Err(EncodingError));
    // the body is bytes and is still reachable
    assert_eq!(p.body(), Some("body".as_bytes().to_vec()));
}

#[test]
fn unquoted_name_directive_is_not_extracted() {
    // the quoted directive pattern requires `name="<value>"`
    let body = "--xyz\nContent-Disposition: form-data; name=part1\n\ncontent\n--xyz--\n";
    let parts = requestb(&["multipart/form-data; boundary=xyz"], body).parts();
    assert_eq!(parts.len(), 1);
    assert_eq!(parts[0].body(), Some("content".as_bytes().to_vec()));
    assert_eq!(parts[0].name(), Ok(None));
}

#[test]
fn quoted_name_directive_is_extracted() {
    let body = "--xyz\nContent-Disposition: form-data; name=\"part1\"\n\ncontent\n--xyz--\n";
    let parts = requestb(&["multipart/form-data; boundary=xyz"], body).parts();
    assert_eq!(parts.len(), 1);
    assert_eq!(parts[0].name(), Ok(Some("part1".to_string())));
    assert_eq!(parts[0].body(), Some("content".as_bytes().to_vec()));
}

#[test]
fn closing_boundary_adds_no_spurious_part() {
    let body = "--xyz\nContent-Disposition: form-data; name=\"a\"\n\ncontent\n--xyz--\n";
    assert_eq!(requestb(&["multipart/form-data; boundary=xyz"], body).parts().len(), 1);
    let body_no_newline = "--xyz\nContent-Disposition: form-data; name=\"a\"\n\ncontent\n--xyz--";
    assert_eq!(
        requestb(&["multipart/form-data; boundary=xyz"], body_no_newline).parts().len(),
        1
    );
}

#[test]
fn line_endings_do_not_change_extracted_fields() {
    let lf = requestb(
        &["multipart/form-data; boundary=xyz"],
        "--xyz\nContent-Disposition: form-data; name=\"a\"; filename=\"f.txt\"\nContent-Type: text/plain\n\npayload\n--xyz--\n",
    )
    .parts();
    let crlf = requestb(
        &["multipart/form-data; boundary=xyz"],
        "--xyz\r\nContent-Disposition: form-data; name=\"a\"; filename=\"f.txt\"\r\nContent-Type: text/plain\r\n\r\npayload\r\n--xyz--\r\n",
    )
    .parts();
    assert_eq!(lf.len(), 1);
    assert_eq!(crlf.len(), 1);
    assert_eq!(lf[0].name(), crlf[0].name());
    assert_eq!(lf[0].filename(), crlf[0].filename());
    assert_eq!(lf[0].content_type(), crlf[0].content_type());
    assert_eq!(lf[0].body(), crlf[0].body());
    assert_eq!(lf[0].name(), Ok(Some("a".to_string())));
    assert_eq!(lf[0].filename(), Ok(Some("f.txt".to_string())));
    assert_eq!(lf[0].content_type(), Ok(Some("text/plain".to_string())));
    assert_eq!(lf[0].body(), Some("payload".as_bytes().to_vec()));
}

#[test]
fn round_trip_keeps_parts_in_order() {
    let contents = ["first: a\n\n1", "second: b\n\n22", "third: c\n\n333"];
    let mut body = String::new();
    for c in contents.iter() {
        body += "--xyz\n";
        body += c;
        body += "\n";
    }
    body += "--xyz--\n";
    let parts = requestb(&["multipart/form-data; boundary=xyz"], &body).parts();
    assert_eq!(parts.len(), 3);
    for (k, c) in contents.iter().enumerate() {
        assert_eq!(parts[k], Part { content: c.as_bytes().to_vec() });
    }
}

#[test]
fn parsing_twice_yields_identical_results() {
    let r = requestb(
        &["multipart/form-data; boundary=xyz"],
        "--xyz\nContent-Disposition: form-data; name=\"a\"\n\ncontent\n--xyz--\n",
    );
    let first = r.parts();
    let second = r.parts();
    assert_eq!(first, second);
    assert_eq!(
        first.iter().map(|p| p.name()).collect::<Vec<_>>(),
        second.iter().map(|p| p.name()).collect::<Vec<_>>()
    );
}

#[test]
fn non_multipart_content_type_yields_no_parts() {
    let body = "--xyz\nContent-Disposition: form-data; name=\"a\"\n\ncontent\n--xyz--\n";
    assert_eq!(requestb(&["text/plain"], body).parts(), vec![]);
    assert_eq!(requestb(&[], body).parts(), vec![]);
    // multipart, but without a boundary: no parts either
    assert_eq!(requestb(&["multipart/form-data"], body).parts(), vec![]);
}

#[test]
fn tiny_parts_are_not_trimmed() {
    // a one-byte slice between boundary lines stays as it is
    let parts = requestb(&["multipart/form-data; boundary=xyz"], "--xyz\n\n--xyz--\n").parts();
    assert_eq!(parts, vec![Part { content: "\n".as_bytes().to_vec() }]);
}

#[test]
fn trim_single_linebreak_prefers_crlf() {
    assert_eq!(trim_single_linebreak_from_start("\r\nx".as_bytes()), "x".as_bytes());
    assert_eq!(trim_single_linebreak_from_start("\nx".as_bytes()), "x".as_bytes());
    assert_eq!(trim_single_linebreak_from_start("\n\nx".as_bytes()), "\nx".as_bytes());
    assert_eq!(trim_single_linebreak_from_start("\n".as_bytes()), "\n".as_bytes());
    assert_eq!(trim_single_linebreak_from_end("x\r\n".as_bytes()), "x".as_bytes());
    assert_eq!(trim_single_linebreak_from_end("x\n\n".as_bytes()), "x\n".as_bytes());
    assert_eq!(trim_single_linebreak_from_end("\n".as_bytes()), "\n".as_bytes());
    assert_eq!(trim_single_linebreak_from_end("x".as_bytes()), "x".as_bytes());
}
