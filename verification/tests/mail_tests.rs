use mailparse::{Body, MailHeaderMap, MailParseError, is_boundary, parse_mail};

#[test]
fn test_parse_mail() {
    let mail = parse_mail(b"Key: value\r\n\r\nSome body stuffs").unwrap();
    assert_eq!(mail.headers.len(), 1);
    assert_eq!(mail.headers[0].get_key().unwrap(), "Key");
    assert_eq!(mail.headers[0].get_value().unwrap(), "value");
    assert_eq!(mail.ctype.mimetype, "text/plain");
    assert_eq!(mail.ctype.charset, "us-ascii");
    assert_eq!(mail.ctype.params.get("boundary"), None);
    assert_eq!(mail.body, b"Some body stuffs");
    assert_eq!(mail.get_body_raw().unwrap(), b"Some body stuffs");
    assert_eq!(mail.get_body().unwrap(), "Some body stuffs");
    assert_eq!(mail.subparts.len(), 0);

    let mail = parse_mail(
        "Content-Type: MULTIpart/alternative; bounDAry=myboundary\r\n\r\n--myboundary\r\nContent-Type: text/plain\r\n\r\nThis is the plaintext version.\r\n--myboundary\r\nContent-Type: text/html;chARset=utf-8\r\n\r\nThis is the <b>HTML</b> version with fake --MYBOUNDARY.\r\n--myboundary--".as_bytes(),
    )
    .unwrap();
    assert_eq!(mail.headers.len(), 1);
    assert_eq!(mail.headers[0].get_key().unwrap(), "Content-Type");
    assert_eq!(mail.ctype.mimetype, "multipart/alternative");
    assert_eq!(mail.ctype.charset, "us-ascii");
    assert_eq!(mail.ctype.params.get("boundary").unwrap(), "myboundary");
    assert_eq!(mail.subparts.len(), 2);
    assert_eq!(mail.subparts[0].headers.len(), 1);
    assert_eq!(mail.subparts[0].ctype.mimetype, "text/plain");
    assert_eq!(mail.subparts[0].ctype.charset, "us-ascii");
    assert_eq!(mail.subparts[0].ctype.params.get("boundary"), None);
    assert_eq!(mail.subparts[1].ctype.mimetype, "text/html");
    assert_eq!(mail.subparts[1].ctype.charset, "utf-8");
    assert_eq!(mail.subparts[1].ctype.params.get("boundary"), None);

    let mail =
        parse_mail(b"Content-Transfer-Encoding: base64\r\n\r\naGVsbG 8gd\r\n29ybGQ=").unwrap();
    assert_eq!(mail.get_body_raw().unwrap(), b"hello world");
    assert_eq!(mail.get_body().unwrap(), "hello world");

    let mail =
        parse_mail(b"Content-Type: text/plain; charset=x-unknown\r\n\r\nhello world").unwrap();
    assert_eq!(mail.get_body_raw().unwrap(), b"hello world");
    assert_eq!(mail.get_body().unwrap(), "hello world");

    let mail = parse_mail(b"ConTENT-tyPE: text/html\r\n\r\nhello world").unwrap();
    assert_eq!(mail.ctype.mimetype, "text/html");
    assert_eq!(mail.get_body_raw().unwrap(), b"hello world");
    assert_eq!(mail.get_body().unwrap(), "hello world");

    let mail = parse_mail(
        b"Content-Type: text/plain; charset=UTF-7\r\nContent-Transfer-Encoding: quoted-printable\r\n\r\n+JgM-",
    ).unwrap();
    assert_eq!(mail.get_body_raw().unwrap(), b"+JgM-");
    assert_eq!(mail.get_body().unwrap(), "\u{2603}");

    let mail = parse_mail(b"Content-Type: text/plain; charset=UTF-7\r\n\r\n+JgM-").unwrap();
    assert_eq!(mail.get_body_raw().unwrap(), b"+JgM-");
    assert_eq!(mail.get_body().unwrap(), "\u{2603}");
}

#[test]
fn test_missing_terminating_boundary() {
    let mail = parse_mail(
        "Content-Type: multipart/alternative; boundary=myboundary\r\n\r\n--myboundary\r\nContent-Type: text/plain\r\n\r\npart0\r\n--myboundary\r\nContent-Type: text/html\r\n\r\npart1\r\n".as_bytes(),
    )
    .unwrap();
    assert_eq!(mail.subparts[0].get_body().unwrap(), "part0\r\n");
    assert_eq!(mail.subparts[1].get_body().unwrap(), "part1\r\n");
}

#[test]
fn test_missing_body() {
    let parsed =
        parse_mail("Content-Type: multipart/related; boundary=\"----=_\"\n".as_bytes()).unwrap();
    assert_eq!(parsed.headers[0].get_key().unwrap(), "Content-Type");
    assert_eq!(parsed.get_body_raw().unwrap(), b"");
    assert_eq!(parsed.get_body().unwrap(), "");
}

#[test]
fn test_no_headers_in_subpart() {
    let mail = parse_mail(
        "Content-Type: multipart/report; report-type=delivery-status;\n\tboundary=\"1404630116.22555.postech.q0.x.x.x\"\n\n--1404630116.22555.postech.q0.x.x.x\n\n--1404630116.22555.postech.q0.x.x.x--\n".as_bytes(),
    )
    .unwrap();
    assert_eq!(mail.ctype.mimetype, "multipart/report");
    assert_eq!(mail.subparts[0].headers.len(), 0);
    assert_eq!(mail.subparts[0].ctype.mimetype, "text/plain");
    assert_eq!(mail.subparts[0].get_body_raw().unwrap(), b"");
    assert_eq!(mail.subparts[0].get_body().unwrap(), "");
}

#[test]
fn test_empty() {
    let mail = parse_mail("".as_bytes()).unwrap();
    assert_eq!(mail.get_body_raw().unwrap(), b"");
    assert_eq!(mail.get_body().unwrap(), "");
}

#[test]
fn test_is_boundary_multibyte() {
    // six replacement characters, but eighteen bytes of data: an offset
    // past the character count must never panic
    let test = "\u{FFFD}\u{FFFD}\u{FFFD}\u{FFFD}\u{FFFD}\u{FFFD}";
    assert!(is_boundary(test, Some(8)));
}

#[test]
fn test_default_content_encoding() {
    let mail = parse_mail(b"Content-Type: text/plain; charset=UTF-7\r\n\r\n+JgM-").unwrap();
    let body = mail.get_body_encoded().unwrap();
    match body {
        Body::SevenBit(body) => {
            assert_eq!(body.get_raw(), b"+JgM-");
            assert_eq!(body.get_as_string().unwrap(), "\u{2603}");
        },
        _ => assert!(false),
    };
}

#[test]
fn test_7bit_content_encoding() {
    let mail = parse_mail(b"Content-Type: text/plain; charset=UTF-7\r\nContent-Transfer-Encoding: 7bit\r\n\r\n+JgM-").unwrap();
    let body = mail.get_body_encoded().unwrap();
    match body {
        Body::SevenBit(body) => {
            assert_eq!(body.get_raw(), b"+JgM-");
            assert_eq!(body.get_as_string().unwrap(), "\u{2603}");
        },
        _ => assert!(false),
    };
}

#[test]
fn test_8bit_content_encoding() {
    let mail = parse_mail(b"Content-Type: text/plain; charset=UTF-7\r\nContent-Transfer-Encoding: 8bit\r\n\r\n+JgM-").unwrap();
    let body = mail.get_body_encoded().unwrap();
    match body {
        Body::EightBit(body) => {
            assert_eq!(body.get_raw(), b"+JgM-");
            assert_eq!(body.get_as_string().unwrap(), "\u{2603}");
        },
        _ => assert!(false),
    };
}

#[test]
fn test_quoted_printable_content_encoding() {
    let mail = parse_mail(
        b"Content-Type: text/plain; charset=UTF-7\r\nContent-Transfer-Encoding: quoted-printable\r\n\r\n+JgM-",
    ).unwrap();
    match mail.get_body_encoded().unwrap() {
        Body::QuotedPrintable(body) => {
            assert_eq!(body.get_raw(), b"+JgM-");
            assert_eq!(body.get_decoded().unwrap(), b"+JgM-");
            assert_eq!(body.get_decoded_as_string().unwrap(), "\u{2603}");
        },
        _ => assert!(false),
    };
}

#[test]
fn test_base64_content_encoding() {
    let mail =
        parse_mail(b"Content-Transfer-Encoding: base64\r\n\r\naGVsbG 8gd\r\n29ybGQ=").unwrap();
    match mail.get_body_encoded().unwrap() {
        Body::Base64(body) => {
            assert_eq!(body.get_raw(), b"aGVsbG 8gd\r\n29ybGQ=");
            assert_eq!(body.get_decoded().unwrap(), b"hello world");
            assert_eq!(body.get_decoded_as_string().unwrap(), "hello world");
        },
        _ => assert!(false),
    };
}

#[test]
fn test_binary_content_encoding() {
    let mail = parse_mail(b"Content-Transfer-Encoding: binary\r\n\r\n######").unwrap();
    let body = mail.get_body_encoded().unwrap();
    match body {
        Body::Binary(body) => {
            assert_eq!(body.get_raw(), b"######");
        },
        _ => assert!(false),
    };
}

#[test]
fn test_fuzzer_testcase() {
    let input = "U3ViamVjdDplcy1UeXBlOiBtdW50ZW50LVV5cGU6IW11bAAAAAAAAAAAamVjdDplcy1UeXBlOiBtdW50ZW50LVV5cGU6IG11bAAAAAAAAAAAAAAAAABTTUFZdWJqZf86OiP/dCBTdWJqZWN0Ol8KRGF0ZTog/////////////////////wAAAAAAAAAAAHQgYnJmAHQgYnJmZXItRW5jeXBlOnY9NmU3OjA2OgAAAAAAAAAAAAAAADEAAAAAAP/8mAAAAAAAAAAA+f///wAAAAAAAP8AAAAAAAAAAAAAAAAAAAAAAAAAPT0/PzEAAAEAAA==";

    if let Ok(parsed) = parse_mail(&base64::decode(input).unwrap()) {
        if let Ok(Some(date)) = parsed.headers.get_first_value("Date") {
            let _ = date;
        }
    }
}

#[test]
fn test_fuzzer_testcase_2() {
    let input = "U3ViamVjdDogVGhpcyBpcyBhIHRlc3QgZW1haWwKQ29udGVudC1UeXBlOiBtdWx0aXBhcnQvYWx0ZXJuYXRpdmU7IGJvdW5kYXJ5PczMzMzMzMzMzMzMzMzMzMzMzMzMzMzMzMzMzMzMzMzMzMzMzMzMzMzMzMzMzMzMzMzMzMzMzMzMzMzMzMzMzMzMzMzMzMzMzMzMzMzMzMzMzMzMzMzMzMzMzMzMzMzMzMzMzMzMzMzMzMzMzMzMzMzMZm9vYmFyCkRhdGU6IFN1biwgMDIgT2MKCi1TdWJqZWMtZm9vYmFydDo=";
    if let Ok(parsed) = parse_mail(&base64::decode(input).unwrap()) {
        if let Ok(Some(date)) = parsed.headers.get_first_value("Date") {
            let _ = date;
        }
    }
}

#[test]
fn two_part_alternative_decodes_each_part_in_order() {
    let mail = parse_mail(
        "Subject: This is a test email\nContent-Type: multipart/alternative; boundary=foobar\n\n--foobar\nContent-Type: text/plain; charset=utf-8\nContent-Transfer-Encoding: quoted-printable\n\nThis is the plaintext version, in utf-8. Proof by Euro: =E2=82=AC\n--foobar\nContent-Type: text/html\nContent-Transfer-Encoding: base64\n\nPGh0bWw+PGJvZHk+VGhpcyBpcyB0aGUgPGI+SFRNTDwvYj4gdmVyc2lvbiwgaW4g \ndXMtYXNjaWkuIFByb29mIGJ5IEV1cm86ICZldXJvOzwvYm9keT48L2h0bWw+Cg== \n--foobar--\nAfter the final boundary stuff gets ignored.\n".as_bytes(),
    )
    .unwrap();
    assert_eq!(
        mail.headers.get_first_value("Subject").unwrap(),
        Some("This is a test email".to_string())
    );
    assert_eq!(mail.subparts.len(), 2);
    assert_eq!(
        mail.subparts[0].get_body().unwrap(),
        "This is the plaintext version, in utf-8. Proof by Euro: \u{20AC}\n"
    );
    assert_eq!(mail.subparts[1].ctype.mimetype, "text/html");
    assert!(mail.subparts[1].get_body().unwrap().starts_with("<html>"));
}

#[test]
fn binary_body_fails_as_string_but_not_as_bytes() {
    let mail = parse_mail(b"Content-Transfer-Encoding: binary\r\n\r\n######").unwrap();
    assert!(matches!(mail.get_body().unwrap_err(), MailParseError::Generic(_)));
    assert_eq!(mail.get_body_raw().unwrap(), b"######");
}

#[test]
fn malformed_base64_body_is_an_error() {
    let mail = parse_mail(b"Content-Transfer-Encoding: base64\r\n\r\n!!!!").unwrap();
    assert!(matches!(mail.get_body_raw().unwrap_err(), MailParseError::Base64DecodeError));
    assert!(matches!(mail.get_body().unwrap_err(), MailParseError::Base64DecodeError));
}

#[test]
fn multipart_segment_count_matches_boundaries() {
    let mail = parse_mail(
        "Content-Type: multipart/mixed; boundary=xyz\n\npreamble here\n--xyz\n\none\n--xyz\n\ntwo\n--xyz\n\nthree\n--xyz--\n".as_bytes(),
    )
    .unwrap();
    assert_eq!(mail.subparts.len(), 3);
    assert_eq!(mail.body, b"preamble here\n");
    assert_eq!(mail.subparts[0].get_body().unwrap(), "one\n");
    assert_eq!(mail.subparts[1].get_body().unwrap(), "two\n");
    assert_eq!(mail.subparts[2].get_body().unwrap(), "three\n");
}

#[test]
fn content_disposition_of_a_node() {
    let mail = parse_mail(
        b"Content-Disposition: attachment; filename=\"yummy dummy\"\r\n\r\nbody",
    )
    .unwrap();
    let dis = mail.get_content_disposition().unwrap();
    assert_eq!(dis.disposition, mailparse::DispositionType::Attachment);
    assert_eq!(dis.params.get("filename"), Some(&"yummy dummy".to_string()));

    let mail = parse_mail(b"Key: value\r\n\r\nbody").unwrap();
    let dis = mail.get_content_disposition().unwrap();
    assert_eq!(dis.disposition, mailparse::DispositionType::Inline);
    assert_eq!(dis.params.get("filename"), None);
}
