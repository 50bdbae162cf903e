//! Parsing and serialisation of RFC 5322 style email messages: a message
//! text is split into a header block and a body, the header block is
//! unfolded into logical header lines, each header is typed by its key, and
//! a message can be written back in wire syntax.
pub mod email;
pub mod header_value_parser;
pub mod laws;
pub mod text;

pub use self::email::Email;
pub use self::header_value_parser::{create_header, EmailHeader, ParseError};
