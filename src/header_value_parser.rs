//! Typed header values and the classification of a header by its key.
use vstd::prelude::*;
use crate::text::{
    chars_of, find_char, find_from, lower, same_lower, skip_wsp, string_from, string_of, strip_wsp,
};

verus! {

/// All the kinds of header that have a typed representation.
#[derive(Debug, PartialEq, Eq)]
pub enum EmailHeader {
    /// Content-Transfer-Encoding header value.
    ContentTransferEncoding(String),
    /// Content-Type header value: the media type split at its first `/`, and
    /// the parameters that follow the first `;` (leading whitespace removed).
    ContentType { maintype: String, subtype: String, value: String },
    /// Date header.
    Date(String),
    /// To header.
    To(String),
    /// From header.
    From(String),
    /// Subject header.
    Subject(String),
    /// Message-ID header.
    MessageID(String),
    /// Any other header; its value is kept verbatim.
    Generic(String),
}

/// The mathematical value of an `EmailHeader`.
pub enum HeaderView {
    ContentTransferEncoding(Seq<char>),
    ContentType { maintype: Seq<char>, subtype: Seq<char>, value: Seq<char> },
    Date(Seq<char>),
    To(Seq<char>),
    From(Seq<char>),
    Subject(Seq<char>),
    MessageID(Seq<char>),
    Generic(Seq<char>),
}

impl View for EmailHeader {
    type V = HeaderView;

    open spec fn view(&self) -> HeaderView {
        match self {
            EmailHeader::ContentTransferEncoding(v) => HeaderView::ContentTransferEncoding(v@),
            EmailHeader::ContentType { maintype, subtype, value } => HeaderView::ContentType {
                maintype: maintype@,
                subtype: subtype@,
                value: value@,
            },
            EmailHeader::Date(v) => HeaderView::Date(v@),
            EmailHeader::To(v) => HeaderView::To(v@),
            EmailHeader::From(v) => HeaderView::From(v@),
            EmailHeader::Subject(v) => HeaderView::Subject(v@),
            EmailHeader::MessageID(v) => HeaderView::MessageID(v@),
            EmailHeader::Generic(v) => HeaderView::Generic(v@),
        }
    }
}

/// Why a message or a header could not be parsed.
#[derive(Debug, Clone, Copy, PartialEq, Eq, Structural)]
pub enum ParseError {
    /// The message has no empty line between its header block and its body.
    MalformedMessage,
    /// The logical header line with this index (counted from 0) has no `:`.
    MalformedHeaderLine { line: usize },
    /// A Content-Type value has no `/` before its first `;`.
    MalformedContentType,
    /// The message bytes are not valid UTF-8.
    InvalidUtf8,
}

pub open spec fn name_to() -> Seq<char> {
    "To"@
}

pub open spec fn name_from() -> Seq<char> {
    "From"@
}

pub open spec fn name_date() -> Seq<char> {
    "Date"@
}

pub open spec fn name_subject() -> Seq<char> {
    "Subject"@
}

pub open spec fn name_content_type() -> Seq<char> {
    "Content-Type"@
}

pub open spec fn name_cte() -> Seq<char> {
    "Content-Transfer-Encoding"@
}

pub open spec fn name_message_id() -> Seq<char> {
    "Message-ID"@
}

/// Header keys are compared without regard to ASCII case.
pub open spec fn same_key(a: Seq<char>, b: Seq<char>) -> bool {
    lower(a) == lower(b)
}

/// The Content-Type value `value` decomposed: the part before the first `;`
/// is split at its first `/`; what follows the `;` is kept as parameters.
pub open spec fn content_type_of(value: Seq<char>) -> Result<HeaderView, ParseError> {
    let semi = find_from(value, ';', 0);
    let primary = if semi < 0 {
        value
    } else {
        value.subrange(0, semi)
    };
    let params = if semi < 0 {
        Seq::<char>::empty()
    } else {
        strip_wsp(value.subrange(semi + 1, value.len() as int))
    };
    let slash = find_from(primary, '/', 0);
    if slash < 0 {
        Err(ParseError::MalformedContentType)
    } else {
        Ok(
            HeaderView::ContentType {
                maintype: primary.subrange(0, slash),
                subtype: primary.subrange(slash + 1, primary.len() as int),
                value: params,
            },
        )
    }
}

/// The typed header for `key` and `value`.
pub open spec fn classify(key: Seq<char>, value: Seq<char>) -> Result<HeaderView, ParseError> {
    if same_key(key, name_to()) {
        Ok(HeaderView::To(value))
    } else if same_key(key, name_from()) {
        Ok(HeaderView::From(value))
    } else if same_key(key, name_date()) {
        Ok(HeaderView::Date(value))
    } else if same_key(key, name_subject()) {
        Ok(HeaderView::Subject(value))
    } else if same_key(key, name_content_type()) {
        content_type_of(value)
    } else if same_key(key, name_cte()) {
        Ok(HeaderView::ContentTransferEncoding(value))
    } else if same_key(key, name_message_id()) {
        Ok(HeaderView::MessageID(value))
    } else {
        Ok(HeaderView::Generic(value))
    }
}

pub open spec fn result_view(r: Result<EmailHeader, ParseError>) -> Result<HeaderView, ParseError> {
    match r {
        Ok(h) => Ok(h@),
        Err(e) => Err(e),
    }
}

/// Returns the typed header for `key` (compared without regard to ASCII
/// case) with the value `value`, whose leading whitespace has already been
/// removed.
pub fn create_header(key: &str, value: &str) -> (r: Result<EmailHeader, ParseError>)
    ensures
        result_view(r) == classify(key@, value@),
{
    let k = chars_of(key);
    let v = chars_of(value);
    header_of(&k, &v)
}

/// `create_header` on characters.
pub(crate) fn header_of(key: &Vec<char>, value: &Vec<char>) -> (r: Result<EmailHeader, ParseError>)
    ensures
        result_view(r) == classify(key@, value@),
{
    if same_lower(key, &chars_of("To")) {
        Ok(parse_to(value))
    } else if same_lower(key, &chars_of("From")) {
        Ok(parse_from(value))
    } else if same_lower(key, &chars_of("Date")) {
        Ok(parse_date(value))
    } else if same_lower(key, &chars_of("Subject")) {
        Ok(parse_subject(value))
    } else if same_lower(key, &chars_of("Content-Type")) {
        parse_content_type(value)
    } else if same_lower(key, &chars_of("Content-Transfer-Encoding")) {
        Ok(parse_cte(value))
    } else if same_lower(key, &chars_of("Message-ID")) {
        Ok(parse_message_id(value))
    } else {
        Ok(parse_generic_header(value))
    }
}

fn parse_to(value: &Vec<char>) -> (r: EmailHeader)
    ensures
        r@ == HeaderView::To(value@),
{
    EmailHeader::To(string_from(value))
}

fn parse_from(value: &Vec<char>) -> (r: EmailHeader)
    ensures
        r@ == HeaderView::From(value@),
{
    EmailHeader::From(string_from(value))
}

fn parse_date(value: &Vec<char>) -> (r: EmailHeader)
    ensures
        r@ == HeaderView::Date(value@),
{
    EmailHeader::Date(string_from(value))
}

fn parse_subject(value: &Vec<char>) -> (r: EmailHeader)
    ensures
        r@ == HeaderView::Subject(value@),
{
    EmailHeader::Subject(string_from(value))
}

fn parse_content_type(value: &Vec<char>) -> (r: Result<EmailHeader, ParseError>)
    ensures
        result_view(r) == content_type_of(value@),
{
    let n = value.len();
    assert(value@.subrange(0, n as int) =~= value@);
    let (end, params) = match find_char(value, ';', 0, n) {
        Some(semi) => {
            let start = skip_wsp(value, semi + 1);
            (semi, string_of(value, start, n))
        },
        None => (n, String::new()),
    };
    assert(find_from(value@, ';', 0) < 0 ==> value@.subrange(0, end as int) =~= value@);
    let ghost primary = value@.subrange(0, end as int);
    match find_char(value, '/', 0, end) {
        Some(slash) => {
            assert(primary.subrange(0, slash as int) =~= value@.subrange(0, slash as int));
            assert(primary.subrange(slash + 1, end as int) =~= value@.subrange(
                slash + 1,
                end as int,
            ));
            Ok(
            EmailHeader::ContentType {
                maintype: string_of(value, 0, slash),
                subtype: string_of(value, slash + 1, end),
                value: params,
            },
        )
        },
        None => Err(ParseError::MalformedContentType),
    }
}

fn parse_cte(value: &Vec<char>) -> (r: EmailHeader)
    ensures
        r@ == HeaderView::ContentTransferEncoding(value@),
{
    EmailHeader::ContentTransferEncoding(string_from(value))
}

fn parse_message_id(value: &Vec<char>) -> (r: EmailHeader)
    ensures
        r@ == HeaderView::MessageID(value@),
{
    EmailHeader::MessageID(string_from(value))
}

fn parse_generic_header(value: &Vec<char>) -> (r: EmailHeader)
    ensures
        r@ == HeaderView::Generic(value@),
{
    EmailHeader::Generic(string_from(value))
}

} // verus!
