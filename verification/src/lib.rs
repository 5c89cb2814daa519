//! Parsing, arithmetic and printing for civil timestamps that carry a fixed
//! UTC offset, e.g. `2024-03-10T14:30:00-05:00`. There is no timezone
//! database here (no DST rules, no IANA names), just the offset math:
//! turning a local wall-clock reading plus an offset into an absolute
//! instant, and back again under a different offset.

pub mod batch;
pub mod calendar;
pub mod commands;
pub mod datetime;
pub mod duration;
pub mod error;
pub mod laws;
pub mod message;
pub mod offset;
pub mod text;

pub use error::{ParseError, ParseErrorKind, ParseResult};
pub use offset::Offset;
pub use datetime::DateTime;
pub use duration::{format_duration, parse_duration};
