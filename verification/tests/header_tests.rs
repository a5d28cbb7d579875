use mailparse::{MailHeaderMap, MailParseError, parse_header, parse_headers};

#[test]
fn parse_basic_header() {
    let (parsed, _) = parse_header(b"Key: Value").unwrap();
    assert_eq!(parsed.key, b"Key");
    assert_eq!(parsed.get_key().unwrap(), "Key");
    assert_eq!(parsed.value, b"Value");
    assert_eq!(parsed.get_value().unwrap(), "Value");

    let (parsed, _) = parse_header(b"Key :  Value ").unwrap();
    assert_eq!(parsed.key, b"Key ");
    assert_eq!(parsed.value, b"Value ");
    assert_eq!(parsed.get_value().unwrap(), "Value ");

    let (parsed, _) = parse_header(b"Key:").unwrap();
    assert_eq!(parsed.key, b"Key");
    assert_eq!(parsed.value, b"");

    let (parsed, _) = parse_header(b":\n").unwrap();
    assert_eq!(parsed.key, b"");
    assert_eq!(parsed.value, b"");

    let (parsed, _) = parse_header(b"Key:Multi-line\n value").unwrap();
    assert_eq!(parsed.key, b"Key");
    assert_eq!(parsed.value, b"Multi-line\n value");
    assert_eq!(parsed.get_value().unwrap(), "Multi-line value");

    let (parsed, _) = parse_header(b"Key:  Multi\n  line\n value\n").unwrap();
    assert_eq!(parsed.key, b"Key");
    assert_eq!(parsed.value, b"Multi\n  line\n value");
    assert_eq!(parsed.get_value().unwrap(), "Multi line value");

    let (parsed, _) = parse_header(b"Key: One\nKey2: Two").unwrap();
    assert_eq!(parsed.key, b"Key");
    assert_eq!(parsed.value, b"One");

    let (parsed, _) = parse_header(b"Key: One\n\tOverhang").unwrap();
    assert_eq!(parsed.key, b"Key");
    assert_eq!(parsed.value, b"One\n\tOverhang");
    assert_eq!(parsed.get_value().unwrap(), "One Overhang");

    let (parsed, _) = parse_header(b"SPAM: VIAGRA \xAE").unwrap();
    assert_eq!(parsed.key, b"SPAM");
    assert_eq!(parsed.value, b"VIAGRA \xAE");
    assert_eq!(parsed.get_value().unwrap(), "VIAGRA \u{ae}");

    parse_header(b" Leading: Space").unwrap_err();
    parse_header(b"Just a string").unwrap_err();
    parse_header(b"Key\nBroken: Value").unwrap_err();
}

#[test]
fn parse_encoded_headers() {
    let (parsed, _) = parse_header(b"Subject: =?iso-8859-1?Q?=A1Hola,_se=F1or!?=").unwrap();
    assert_eq!(parsed.get_key().unwrap(), "Subject");
    assert_eq!(parsed.get_value().unwrap(), "\u{a1}Hola, se\u{f1}or!");

    let (parsed, _) = parse_header(
        b"Subject: =?iso-8859-1?Q?=A1Hola,?=\n \
                                    =?iso-8859-1?Q?_se=F1or!?=",
    )
    .unwrap();
    assert_eq!(parsed.get_key().unwrap(), "Subject");
    assert_eq!(parsed.get_value().unwrap(), "\u{a1}Hola, se\u{f1}or!");

    let (parsed, _) = parse_header(b"Euro: =?utf-8?Q?=E2=82=AC?=").unwrap();
    assert_eq!(parsed.get_key().unwrap(), "Euro");
    assert_eq!(parsed.get_value().unwrap(), "\u{20ac}");

    let (parsed, _) = parse_header(b"HelloWorld: =?utf-8?B?aGVsbG8gd29ybGQ=?=").unwrap();
    assert_eq!(parsed.get_value().unwrap(), "hello world");

    let (parsed, _) = parse_header(b"Empty: =?utf-8?Q??=").unwrap();
    assert_eq!(parsed.get_value().unwrap(), "");

    let (parsed, _) = parse_header(b"Incomplete: =?").unwrap();
    assert_eq!(parsed.get_value().unwrap(), "=?");

    let (parsed, _) = parse_header(b"BadEncoding: =?garbage?Q??=").unwrap();
    assert_eq!(parsed.get_value().unwrap(), "=?garbage?Q??=");

    let (parsed, _) = parse_header(b"Invalid: =?utf-8?Q?=E2=AC?=").unwrap();
    assert_eq!(parsed.get_value().unwrap(), "\u{fffd}");

    let (parsed, _) = parse_header(b"LineBreak: =?utf-8?Q?=E2=82\n =AC?=").unwrap();
    assert_eq!(parsed.get_value().unwrap(), "=?utf-8?Q?=E2=82 =AC?=");

    let (parsed, _) = parse_header(b"NotSeparateWord: hello=?utf-8?Q?world?=").unwrap();
    assert_eq!(parsed.get_value().unwrap(), "hello=?utf-8?Q?world?=");

    let (parsed, _) = parse_header(b"NotSeparateWord2: =?utf-8?Q?hello?=world").unwrap();
    assert_eq!(parsed.get_value().unwrap(), "=?utf-8?Q?hello?=world");

    let (parsed, _) = parse_header(b"Key: \"=?utf-8?Q?value?=\"").unwrap();
    assert_eq!(parsed.get_value().unwrap(), "\"value\"");

    let (parsed, _) = parse_header(b"Subject: =?utf-8?q?=5BOntario_Builder=5D_Understanding_home_shopping_=E2=80=93_a_q?=\n \
                                    =?utf-8?q?uick_survey?=")
        .unwrap();
    assert_eq!(parsed.get_key().unwrap(), "Subject");
    assert_eq!(
        parsed.get_value().unwrap(),
        "[Ontario Builder] Understanding home shopping \u{2013} a quick survey"
    );

    let (parsed, _) = parse_header(b"Subject: =?ISO-2022-JP?B?GyRCRnwbKEI=?=\n\t=?ISO-2022-JP?B?GyRCS1wbKEI=?=\n\t=?ISO-2022-JP?B?GyRCOGwbKEI=?=")
        .unwrap();
    assert_eq!(parsed.get_key().unwrap(), "Subject");
    assert_eq!(parsed.get_value().unwrap(), "\u{65E5}\u{672C}\u{8A9E}");

    let (parsed, _) = parse_header(b"Subject: =?ISO-2022-JP?Q?=1B\x24\x42\x46\x7C=1B\x28\x42?=\n\t=?ISO-2022-JP?Q?=1B\x24\x42\x4B\x5C=1B\x28\x42?=\n\t=?ISO-2022-JP?Q?=1B\x24\x42\x38\x6C=1B\x28\x42?=")
        .unwrap();
    assert_eq!(parsed.get_key().unwrap(), "Subject");
    assert_eq!(parsed.get_value().unwrap(), "\u{65E5}\u{672C}\u{8A9E}");

    let (parsed, _) = parse_header(b"Subject: =?UTF-7?Q?+JgM-?=").unwrap();
    assert_eq!(parsed.get_key().unwrap(), "Subject");
    assert_eq!(parsed.get_value().unwrap(), "\u{2603}");

    let (parsed, _) =
        parse_header(b"Content-Type: image/jpeg; name=\"=?UTF-8?B?MDY2MTM5ODEuanBn?=\"").unwrap();
    assert_eq!(parsed.get_key().unwrap(), "Content-Type");
    assert_eq!(parsed.get_value().unwrap(), "image/jpeg; name=\"06613981.jpg\"");

    let (parsed, _) = parse_header(
        b"From: =?UTF-8?Q?\"Motorola_Owners=E2=80=99_Forums\"_?=<forums@motorola.com>",
    )
    .unwrap();
    assert_eq!(parsed.get_key().unwrap(), "From");
    assert_eq!(
        parsed.get_value().unwrap(),
        "\"Motorola Owners\u{2019} Forums\" <forums@motorola.com>"
    );
}

#[test]
fn parse_multiple_headers() {
    let (parsed, _) = parse_headers(b"Key: Value\nTwo: Second").unwrap();
    assert_eq!(parsed.len(), 2);
    assert_eq!(parsed[0].key, b"Key");
    assert_eq!(parsed[0].value, b"Value");
    assert_eq!(parsed[1].key, b"Two");
    assert_eq!(parsed[1].value, b"Second");

    let (parsed, _) = parse_headers(b"Key: Value\n Overhang\nTwo: Second\nThree: Third").unwrap();
    assert_eq!(parsed.len(), 3);
    assert_eq!(parsed[0].key, b"Key");
    assert_eq!(parsed[0].value, b"Value\n Overhang");
    assert_eq!(parsed[1].key, b"Two");
    assert_eq!(parsed[1].value, b"Second");
    assert_eq!(parsed[2].key, b"Three");
    assert_eq!(parsed[2].value, b"Third");

    let (parsed, _) = parse_headers(b"Key: Value\nTwo: Second\n\nBody").unwrap();
    assert_eq!(parsed.len(), 2);
    assert_eq!(parsed[0].key, b"Key");
    assert_eq!(parsed[0].value, b"Value");
    assert_eq!(parsed[1].key, b"Two");
    assert_eq!(parsed[1].value, b"Second");

    let (parsed, _) = parse_headers(
        "Return-Path: <kats@foobar.staktrace.com>\nX-Original-To: kats@baz.staktrace.com\nDelivered-To: kats@baz.staktrace.com\nReceived: from foobar.staktrace.com (localhost [127.0.0.1])\n    by foobar.staktrace.com (Postfix) with ESMTP id 139F711C1C34\n    for <kats@baz.staktrace.com>; Fri, 27 May 2016 02:34:26 -0400 (EDT)\nDate: Fri, 27 May 2016 02:34:25 -0400\nTo: kats@baz.staktrace.com\nFrom: kats@foobar.staktrace.com\nSubject: test Fri, 27 May 2016 02:34:25 -0400\nX-Mailer: swaks v20130209.0 jetmore.org/john/code/swaks/\nMessage-Id: <20160527063426.139F711C1C34@foobar.staktrace.com>\n\nThis is a test mailing\n".as_bytes(),
    )
    .unwrap();
    assert_eq!(parsed.len(), 10);
    assert_eq!(parsed[0].key, b"Return-Path");
    assert_eq!(parsed[9].key, b"Message-Id");

    let (parsed, _) =
        parse_headers(b"Key: Value\nAnotherKey: AnotherValue\nKey: Value2\nKey: Value3\n").unwrap();
    assert_eq!(parsed.len(), 4);
    assert_eq!(parsed.get_first_value("Key").unwrap(), Some("Value".to_string()));
    assert_eq!(parsed.get_all_values("Key").unwrap(), vec!["Value", "Value2", "Value3"]);
    assert_eq!(parsed.get_first_value("AnotherKey").unwrap(), Some("AnotherValue".to_string()));
    assert_eq!(parsed.get_all_values("AnotherKey").unwrap(), vec!["AnotherValue"]);
    assert_eq!(parsed.get_first_value("NoKey").unwrap(), None);
    assert_eq!(parsed.get_all_values("NoKey").unwrap(), Vec::<String>::new());

    let (parsed, _) = parse_headers(b"Key: value\r\nWith: CRLF\r\n\r\nBody").unwrap();
    assert_eq!(parsed.len(), 2);
    assert_eq!(parsed.get_first_value("Key").unwrap(), Some("value".to_string()));
    assert_eq!(parsed.get_first_value("With").unwrap(), Some("CRLF".to_string()));

    assert!(matches!(parse_headers(b"Bad\nKey").unwrap_err(), MailParseError::Generic(_)));
    assert!(matches!(parse_headers(b"K:V\nBad\nKey").unwrap_err(), MailParseError::Generic(_)));
}

#[test]
fn get_key_decodes_utf8_and_rejects_invalid_text() {
    let (parsed, _) = parse_header("K\u{e9}y: v".as_bytes()).unwrap();
    assert_eq!(parsed.get_key().unwrap(), "K\u{e9}y");

    let (parsed, _) = parse_header(b"K\xff: v").unwrap();
    assert!(matches!(parsed.get_key().unwrap_err(), MailParseError::EncodingError));
}

#[test]
fn unfold_restores_folded_value_up_to_fold_whitespace() {
    // folding "alpha beta" at the space and unfolding it again restores
    // the text, the run of fold whitespace collapsing to one space
    let (folded, _) = parse_header(b"K: alpha\n   beta").unwrap();
    assert_eq!(folded.get_value().unwrap(), "alpha beta");
    let (plain, _) = parse_header(b"K: alpha beta").unwrap();
    assert_eq!(folded.get_value().unwrap(), plain.get_value().unwrap());
}

#[test]
fn error_messages_name_the_failure() {
    let e = parse_header(b"Just a string").unwrap_err();
    assert!(matches!(e, MailParseError::Generic(_)));
    assert!(!e.message().is_empty());
}

#[test]
fn header_name_lookup_ignores_case() {
    let (parsed, _) = parse_headers(b"Content-Type: text/html\n").unwrap();
    assert_eq!(
        parsed.get_first_value("CONTENT-TYPE").unwrap(),
        parsed.get_first_value("content-type").unwrap()
    );
    assert_eq!(parsed.get_first_value("cOnTeNt-TyPe").unwrap(), Some("text/html".to_string()));
}
