use email_rs::{create_header, Email, EmailHeader, ParseError};

#[test]
fn round_trip_of_built_message() {
    let mut mail = Email::new();
    mail.from("a@example.com".to_string())
        .to("b@example.com".to_string())
        .subject("Hi there".to_string())
        .content_type("text".to_string(), "plain".to_string(), "charset=UTF-8".to_string())
        .content("Body line one\r\n\r\nline three".to_string());
    let parsed = Email::from_str(mail.to_string()).unwrap();
    assert_eq!(parsed.headers.len(), 4);
    assert_eq!(parsed.headers[0], ("From".to_string(), EmailHeader::From("a@example.com".to_string())));
    assert_eq!(parsed.headers[1], ("To".to_string(), EmailHeader::To("b@example.com".to_string())));
    assert_eq!(parsed.headers[2], ("Subject".to_string(), EmailHeader::Subject("Hi there".to_string())));
    assert_eq!(
        parsed.headers[3],
        (
            "Content-Type".to_string(),
            EmailHeader::ContentType {
                maintype: "text".to_string(),
                subtype: "plain".to_string(),
                value: "charset=UTF-8".to_string(),
            }
        )
    );
    assert_eq!(parsed.body, "Body line one\r\n\r\nline three");
}

#[test]
fn folding_plain_lines_one_per_line() {
    let (l1, r1) = Email::get_one_header("A: 1\nB: 2\nC: 3\n");
    assert_eq!(l1, Some("A: 1".to_string()));
    let (l2, r2) = Email::get_one_header(r1.unwrap());
    assert_eq!(l2, Some("B: 2".to_string()));
    let (l3, r3) = Email::get_one_header(r2.unwrap());
    assert_eq!(l3, Some("C: 3".to_string()));
    assert_eq!(r3, None);
}

#[test]
fn multiline_folding_keeps_continuation_whitespace() {
    let (line, rest) = Email::get_one_header(
        "Subject: This is a complex header which goes to\n 2nd line...\n start...",
    );
    assert_eq!(
        line,
        Some("Subject: This is a complex header which goes to 2nd line... start...".to_string())
    );
    assert_eq!(rest, None);
}

#[test]
fn folding_with_tab_and_crlf() {
    let (line, rest) = Email::get_one_header("Subject: a\r\n\tb\r\nTo: c\r\n");
    assert_eq!(line, Some("Subject: a\tb".to_string()));
    assert_eq!(rest, Some("To: c\r\n"));
    let (line, rest) = Email::get_one_header("To: c\r\n");
    assert_eq!(line, Some("To: c".to_string()));
    assert_eq!(rest, None);
}

#[test]
fn folding_empty_input() {
    assert_eq!(Email::get_one_header(""), (None, None));
}

#[test]
fn folding_trailing_newline_is_not_read_past() {
    assert_eq!(Email::get_one_header("A: b\n"), (Some("A: b".to_string()), None));
}

#[test]
fn message_without_headers() {
    let email = Email::from_str("\n\nHello\n\nWorld".to_string()).unwrap();
    assert_eq!(email.headers.len(), 0);
    assert_eq!(email.body, "Hello\n\nWorld");
    let email = Email::from_str("\n\nx".to_string()).unwrap();
    assert_eq!(email.body, "x");
    let email = Email::from_str("\r\n\r\nBody".to_string()).unwrap();
    assert_eq!(email.headers.len(), 0);
    assert_eq!(email.body, "Body");
}

#[test]
fn single_leading_terminator_is_no_separator() {
    assert_eq!(Email::from_str("\nabc".to_string()).unwrap_err(), ParseError::MalformedMessage);
    assert_eq!(Email::from_str("\r\nabc".to_string()).unwrap_err(), ParseError::MalformedMessage);
}

#[test]
fn crlf_message_parses() {
    let email = Email::from_str("To: a\r\nSubject: b\r\n c\r\n\r\nbody\r\n".to_string()).unwrap();
    assert_eq!(email.headers.len(), 2);
    assert_eq!(email.get_header("subject"), Some(&EmailHeader::Subject("b c".to_string())));
    assert_eq!(email.body, "body\r\n");
}

#[test]
fn content_type_decomposition() {
    let h = create_header("Content-Type", "multipart/alternative; boundary=xxx").unwrap();
    assert_eq!(
        h,
        EmailHeader::ContentType {
            maintype: "multipart".to_string(),
            subtype: "alternative".to_string(),
            value: "boundary=xxx".to_string(),
        }
    );
}

#[test]
fn content_type_without_parameters_and_with_extra_slash() {
    let h = create_header("content-type", "text/plain").unwrap();
    assert_eq!(
        h,
        EmailHeader::ContentType {
            maintype: "text".to_string(),
            subtype: "plain".to_string(),
            value: "".to_string(),
        }
    );
    let h = create_header("CONTENT-TYPE", "a/b/c;x").unwrap();
    assert_eq!(
        h,
        EmailHeader::ContentType {
            maintype: "a".to_string(),
            subtype: "b/c".to_string(),
            value: "x".to_string(),
        }
    );
}

#[test]
fn content_type_without_slash_is_an_error() {
    assert_eq!(create_header("Content-Type", "text; charset=x"), Err(ParseError::MalformedContentType));
    assert_eq!(
        Email::from_str("To: a\nContent-Type: text\n\nbody".to_string()).unwrap_err(),
        ParseError::MalformedContentType
    );
}

#[test]
fn classification_of_each_key() {
    assert_eq!(create_header("TO", "x"), Ok(EmailHeader::To("x".to_string())));
    assert_eq!(create_header("from", "x"), Ok(EmailHeader::From("x".to_string())));
    assert_eq!(create_header("Date", "x"), Ok(EmailHeader::Date("x".to_string())));
    assert_eq!(create_header("sUbJeCt", "x"), Ok(EmailHeader::Subject("x".to_string())));
    assert_eq!(create_header("message-id", "x"), Ok(EmailHeader::MessageID("x".to_string())));
    assert_eq!(
        create_header("Content-Transfer-Encoding", "base64"),
        Ok(EmailHeader::ContentTransferEncoding("base64".to_string()))
    );
    assert_eq!(create_header("X-Other", " y "), Ok(EmailHeader::Generic(" y ".to_string())));
}

#[test]
fn lookups_ignore_case() {
    let mut mail = Email::new();
    mail.to("first@example.com".to_string());
    for key in ["To", "to", "TO"] {
        assert_eq!(mail.get_header(key), Some(&EmailHeader::To("first@example.com".to_string())));
    }
    mail.add_header("tO".to_string(), EmailHeader::To("second@example.com".to_string()));
    assert_eq!(mail.headers.len(), 1);
    for key in ["To", "to", "TO"] {
        assert_eq!(mail.get_header(key), Some(&EmailHeader::To("second@example.com".to_string())));
    }
    assert_eq!(mail.get_header("From"), None);
}

#[test]
fn duplicate_keys_last_write_wins() {
    let email = Email::from_str("To: a\nFrom: f\nto: b\n\nbody".to_string()).unwrap();
    assert_eq!(email.headers.len(), 2);
    assert_eq!(email.headers[0], ("to".to_string(), EmailHeader::To("b".to_string())));
    assert_eq!(email.get_header("TO"), Some(&EmailHeader::To("b".to_string())));
}

#[test]
fn missing_separator_is_malformed_message() {
    assert_eq!(
        Email::from_str("From: a\nTo: b\nbody".to_string()).unwrap_err(),
        ParseError::MalformedMessage
    );
    assert_eq!(Email::from_str("".to_string()).unwrap_err(), ParseError::MalformedMessage);
}

#[test]
fn header_line_without_colon() {
    assert_eq!(
        Email::from_str("From: a\nbogus line\n\nbody".to_string()).unwrap_err(),
        ParseError::MalformedHeaderLine { line: 1 }
    );
}

#[test]
fn value_keeps_later_colons() {
    let email = Email::from_str("Date: Mon, 10:00:00\nX-Key:value\n\n".to_string()).unwrap();
    assert_eq!(email.get_header("date"), Some(&EmailHeader::Date("Mon, 10:00:00".to_string())));
    assert_eq!(email.get_header("x-key"), Some(&EmailHeader::Generic("value".to_string())));
    assert_eq!(email.body, "");
}

#[test]
fn serialisation_of_each_kind() {
    let mut mail = Email::new();
    mail.add_header("X-Case".to_string(), EmailHeader::Generic("v".to_string()))
        .add_header(
            "content-transfer-encoding".to_string(),
            EmailHeader::ContentTransferEncoding("7bit".to_string()),
        )
        .add_header("message-id".to_string(), EmailHeader::MessageID("<id@x>".to_string()))
        .add_header("date".to_string(), EmailHeader::Date("today".to_string()));
    assert_eq!(
        mail.to_string(),
        "X-Case: v\r\nContent-Transfer-Encoding: 7bit\r\nMessage-ID: <id@x>\r\nDate: today\r\n\r\n"
    );
}

#[test]
fn parse_from_bytes() {
    let email = Email::from_bytes("Subject: caf\u{e9}\n\nbody".as_bytes().to_vec()).unwrap();
    assert_eq!(email.get_header("subject"), Some(&EmailHeader::Subject("caf\u{e9}".to_string())));
    assert_eq!(email.body, "body");
    assert_eq!(
        Email::from_bytes(vec![b'T', b'o', b':', b' ', 0xff, b'\n', b'\n']).unwrap_err(),
        ParseError::InvalidUtf8
    );
}

#[test]
fn non_ascii_folding_by_character() {
    let (line, rest) = Email::get_one_header("Subject: \u{fc}ber\n \u{e9}t\u{e9}\nTo: \u{f8}\n");
    assert_eq!(line, Some("Subject: \u{fc}ber \u{e9}t\u{e9}".to_string()));
    assert_eq!(rest, Some("To: \u{f8}\n"));
}

#[test]
fn message_without_headers_serialises_without_a_separator_pair() {
    let mut mail = Email::new();
    mail.content("x".to_string());
    let text = mail.to_string();
    assert_eq!(text, "\r\nx");
    assert_eq!(Email::from_str(text).unwrap_err(), ParseError::MalformedMessage);
}
