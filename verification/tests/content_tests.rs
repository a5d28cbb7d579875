use mailparse::{DispositionType, parse_content_disposition, parse_content_type,
    parse_param_content, parse_header};

#[test]
fn test_parse_content_type() {
    let ctype = parse_content_type("text/html; charset=utf-8");
    assert_eq!(ctype.mimetype, "text/html");
    assert_eq!(ctype.charset, "utf-8");
    assert_eq!(ctype.params.get("boundary"), None);

    let ctype = parse_content_type(" foo/bar; x=y; charset=\"fake\" ; x2=y2");
    assert_eq!(ctype.mimetype, "foo/bar");
    assert_eq!(ctype.charset, "fake");
    assert_eq!(ctype.params.get("boundary"), None);

    let ctype = parse_content_type(" multipart/bar; boundary=foo ");
    assert_eq!(ctype.mimetype, "multipart/bar");
    assert_eq!(ctype.charset, "us-ascii");
    assert_eq!(ctype.params.get("boundary").unwrap(), "foo");
}

#[test]
fn test_parse_content_disposition() {
    let dis = parse_content_disposition("inline");
    assert_eq!(dis.disposition, DispositionType::Inline);
    assert_eq!(dis.params.get("name"), None);
    assert_eq!(dis.params.get("filename"), None);

    let dis = parse_content_disposition(
        " attachment; x=y; charset=\"fake\" ; x2=y2; name=\"King Joffrey.death\"",
    );
    assert_eq!(dis.disposition, DispositionType::Attachment);
    assert_eq!(dis.params.get("name"), Some(&"King Joffrey.death".to_string()));
    assert_eq!(dis.params.get("filename"), None);

    let dis = parse_content_disposition(" form-data");
    assert_eq!(dis.disposition, DispositionType::FormData);
    assert_eq!(dis.params.get("name"), None);
    assert_eq!(dis.params.get("filename"), None);
}

#[test]
fn content_type_from_decoded_header_value() {
    let (parsed, _) =
        parse_header(b"Content-Type: text/html; charset=foo; boundary=\"quotes_are_removed\"")
            .unwrap();
    let ctype = parse_content_type(&parsed.get_value().unwrap());
    assert_eq!(ctype.mimetype, "text/html");
    assert_eq!(ctype.charset, "foo");
    assert_eq!(ctype.params.get("boundary"), Some(&"quotes_are_removed".to_string()));
    assert_eq!(ctype.params.get("charset"), Some(&"foo".to_string()));
}

#[test]
fn content_type_case_permutations_normalize() {
    let a = parse_content_type("TEXT/Html; CHARSET=utf-8; Boundary=Quux");
    let b = parse_content_type("text/html; charset=utf-8; boundary=Quux");
    assert_eq!(a.mimetype, b.mimetype);
    assert_eq!(a.charset, b.charset);
    assert_eq!(a.params.get("boundary"), b.params.get("boundary"));

    let dis = parse_content_disposition("ATTACHMENT");
    assert_eq!(dis.disposition, DispositionType::Attachment);
    let ext = parse_content_disposition("X-Custom");
    assert_eq!(ext.disposition, DispositionType::Extension("x-custom".to_string()));
}

#[test]
fn duplicate_parameter_keys_keep_the_last() {
    let ctype = parse_content_type("text/plain; a=1; a=2");
    assert_eq!(ctype.params.get("a"), Some(&"2".to_string()));
}

#[test]
fn bogus_content_type_defaults_charset() {
    let ctype = parse_content_type("bogus");
    assert_eq!(ctype.mimetype, "bogus");
    assert_eq!(ctype.charset, "us-ascii");
    assert_eq!(ctype.params.get("boundary"), None);
    assert_eq!(ctype.params.get("charset"), None);
}

#[test]
fn test_dont_panic_for_value_with_new_lines() {
    let parsed = parse_param_content(r#"Content-Type: application/octet-stream; name=""#);
    assert_eq!(parsed.params.get("name").unwrap(), "\"");
}
