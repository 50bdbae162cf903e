use email_rs::{create_header, Email, EmailHeader, ParseError};

#[test]
fn test_create_simple_email() {
    let mut newmail = Email::new();

    newmail
        .from("maxking@example.com".to_string())
        .to("testing@example.com".to_string())
        .subject("Welcome to the new library.".to_string())
        .content_type("text".to_string(), "plain".to_string(), "".to_string())
        .content("Hello World".to_string())
        .add_header(
            "x-mailfrom".to_string(),
            EmailHeader::Generic("maxking@example.com".to_string()),
        );

    let text = newmail.to_string();
    assert_eq!(
        text,
        "From: maxking@example.com\r\n\
         To: testing@example.com\r\n\
         Subject: Welcome to the new library.\r\n\
         Content-Type: text/plain; \r\n\
         x-mailfrom: maxking@example.com\r\n\
         \r\n\
         Hello World"
    );
}

#[test]
fn test_email_with_long_lines() {
    let mut mail = Email::new();
    mail.from("someone@example.com".to_string())
        .to("aperson@example.com".to_string())
        .add_header(
            "X-RandomHeader".to_string(),
            EmailHeader::Generic(String::from_utf8(vec![b'X'; 1000]).unwrap()),
        )
        .content(String::from_utf8(vec![b'H'; 1000]).unwrap());
    let text = mail.to_string();
    let long_line = format!("X-RandomHeader: {}\r\n", "X".repeat(1000));
    assert!(text.contains(&long_line));
    assert!(text.ends_with(&format!("\r\n\r\n{}", "H".repeat(1000))));
}

#[test]
fn test_get_one_simple_header() {
    let headers = "From: Someone
To: Person
Date: Today";
    assert_eq!(
        Email::get_one_header(headers),
        (
            Some("From: Someone".to_string()),
            Some("To: Person\nDate: Today")
        )
    )
}

#[test]
fn test_get_one_multiline_header() {
    let headers = "From: acomplexheader
Subject: This is a complex header which goes to
 2nd line identified by whitespace at the
 start of each next line of header.";
    let (header, rest) = Email::get_one_header(headers);
    assert_eq!(header, Some("From: acomplexheader".to_string()));
    assert_eq!(rest.is_some(), true);
    let (header, rest) = Email::get_one_header(rest.unwrap());
    assert_eq!(
        header,
        Some(
            "Subject: This is a complex \
             header which goes to 2nd line identified by whitespace at \
             the start of each next line of header."
                .to_string()
        )
    );
    assert_eq!(rest, None);
}
