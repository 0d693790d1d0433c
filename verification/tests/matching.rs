use wiremock_multipart::ContainsPart;
use wiremock_multipart::NumberOfPartsMatcher;
use wiremock_multipart::RequestData;

fn multipart_request(body: &str) -> RequestData {
    RequestData {
        content_type_values: vec!["multipart/form-data; boundary=xyz".as_bytes().to_vec()],
        body: body.as_bytes().to_vec(),
    }
}

#[test]
fn default_should_be_all_none() {
    assert_eq!(
        ContainsPart::default(),
        ContainsPart { name: None, filename: None, content_type: None, body: None }
    );
}

#[test]
fn new_should_be_default() {
    assert_eq!(ContainsPart::default(), ContainsPart::new());
}

#[test]
fn should_add_name() {
    assert_eq!(
        ContainsPart::new().with_name("name"),
        ContainsPart { name: Some("name".to_string()), ..Default::default() }
    );
}

#[test]
fn should_add_filename() {
    assert_eq!(
        ContainsPart::new().with_filename("filename"),
        ContainsPart { filename: Some("filename".to_string()), ..Default::default() }
    );
}

#[test]
fn should_add_content_type() {
    assert_eq!(
        ContainsPart::new().with_content_type("application/json"),
        ContainsPart { content_type: Some("application/json".to_string()), ..Default::default() }
    );
}

#[test]
fn should_add_body() {
    assert_eq!(
        ContainsPart::new().with_body("the body".as_bytes()),
        ContainsPart { body: Some("the body".as_bytes().to_vec()), ..Default::default() }
    );
}

#[test]
fn should_match_on_name() {
    assert_eq!(
        ContainsPart::new().with_name("part-a").matches(&multipart_request(
            "--xyz\nContent-Disposition: form-data; name=\"not-the-part\"\n\ncontent\n--xyz--\n"
        )),
        false
    );

    assert_eq!(
        ContainsPart::new().with_name("part-a").matches(&multipart_request(
            "--xyz\nContent-Disposition: form-data; name=\"part-a\"\n\ncontent\n--xyz--\n"
        )),
        true
    );
}

#[test]
fn should_match_on_content_type() {
    assert_eq!(
        ContainsPart::new().with_content_type("application/json").matches(&multipart_request(
            "--xyz\nContent-Disposition: form-data; name=\"not-the-part\" filename=\"not-the-file\"\nContent-Type: application/xml\n\ncontent\n--xyz--\n"
        )),
        false
    );

    assert_eq!(
        ContainsPart::new().with_content_type("application/json").matches(&multipart_request(
            "--xyz\nContent-Disposition: form-data; name=\"part-a\" filename=\"file-a\"\nContent-Type: application/json\n\ncontent\n--xyz--\n"
        )),
        true
    );
}

#[test]
fn should_match_on_filename_directive() {
    assert_eq!(
        ContainsPart::new().with_filename("file-a").matches(&multipart_request(
            "--xyz\nContent-Disposition: form-data; name=\"part-a\"; filename=\"not-the-file\"\n\ncontent\n--xyz--\n"
        )),
        false
    );

    assert_eq!(
        ContainsPart::new().with_filename("file-a").matches(&multipart_request(
            "--xyz\nContent-Disposition: form-data; name=\"part-a\"; filename=\"file-a\"\n\ncontent\n--xyz--\n"
        )),
        true
    );
}

#[test]
fn should_compare_number_of_parts_with_expectation() {
    let request = multipart_request(
        "--xyz\nContent-Disposition: form-data; name=part1\n\ncontent\n--xyz--\n",
    );

    assert_eq!(NumberOfPartsMatcher(0).matches(&request), false);
    assert_eq!(NumberOfPartsMatcher(1).matches(&request), true);
    assert_eq!(NumberOfPartsMatcher(2).matches(&request), false);
}

#[test]
fn number_of_parts_is_true_only_for_the_exact_count() {
    let one = "--xyz\na: 1\n\nx\n--xyz--\n";
    let two = "--xyz\na: 1\n\nx\n--xyz\nb: 2\n\ny\n--xyz--\n";
    let three = "--xyz\na: 1\n\nx\n--xyz\nb: 2\n\ny\n--xyz\nc: 3\n\nz\n--xyz--\n";
    let none = "";
    assert_eq!(NumberOfPartsMatcher(2).matches(&multipart_request(none)), false);
    assert_eq!(NumberOfPartsMatcher(2).matches(&multipart_request(one)), false);
    assert_eq!(NumberOfPartsMatcher(2).matches(&multipart_request(two)), true);
    assert_eq!(NumberOfPartsMatcher(2).matches(&multipart_request(three)), false);
}

#[test]
fn contains_part_matches_on_body_alone() {
    let body = "--xyz\nContent-Disposition: form-data; name=\"a\"\n\nright content\n--xyz\nContent-Disposition: form-data; name=\"b\"\n\nother\n--xyz--\n";
    assert_eq!(
        ContainsPart::new().with_body("no such content".as_bytes()).matches(&multipart_request(body)),
        false
    );
    assert_eq!(
        ContainsPart::new().with_body("right content".as_bytes()).matches(&multipart_request(body)),
        true
    );
}

#[test]
fn all_constraints_must_hold_on_one_part() {
    let body = "--xyz\nContent-Disposition: form-data; name=\"a\"\n\nfirst\n--xyz\nContent-Disposition: form-data; name=\"b\"\n\nsecond\n--xyz--\n";
    // name and body each match some part, but not the same one
    assert_eq!(
        ContainsPart::new().with_name("a").with_body("second".as_bytes()).matches(
            &multipart_request(body)
        ),
        false
    );
    assert_eq!(
        ContainsPart::new().with_name("b").with_body("second".as_bytes()).matches(
            &multipart_request(body)
        ),
        true
    );
}

#[test]
fn no_constraints_matches_any_part() {
    assert_eq!(
        ContainsPart::new().matches(&multipart_request("--xyz\na: 1\n\nx\n--xyz--\n")),
        true
    );
    assert_eq!(ContainsPart::new().matches(&multipart_request("")), false);
}

#[test]
fn part_with_unreadable_header_satisfies_no_field_constraint() {
    let mut body = Vec::new();
    body.extend_from_slice("--xyz\nContent-Disposition: form-data; name=\"a\"".as_bytes());
    body.push(0xFF);
    body.extend_from_slice("\n\ncontent\n--xyz--\n".as_bytes());
    let request = RequestData {
        content_type_values: vec!["multipart/form-data; boundary=xyz".as_bytes().to_vec()],
        body,
    };
    assert_eq!(ContainsPart::new().with_name("a").matches(&request), false);
    // the body constraint reads bytes only and still matches
    assert_eq!(ContainsPart::new().with_body("content".as_bytes()).matches(&request), true);
}
