//! Parsing of DKIM-signed emails: the canonicalized header and body, the
//! headers grouped by name, the body with quoted-printable soft line breaks
//! removed, and the fields read out at the byte ranges that a regex search
//! reports.
pub mod email;
pub mod headers;
pub mod search;
pub mod soft_breaks;
pub mod text;
mod trusted;

pub use email::{EmailError, ParsedEmail};
pub use headers::EmailHeaders;
pub use search::find_index_in_body;
pub use soft_breaks::remove_quoted_printable_soft_breaks;
