//! Lazy encoding of `multipart/form-data` request bodies.
//!
//! A [`Multipart`] collects named fields, text values and byte streams, and
//! [`Multipart::prepare`] turns them into a [`PreparedFields`]: one pull-based
//! byte source that renders the body piece by piece, reading each payload only
//! when the consumer asks for more bytes.
//!
//! The body is laid out as the text fields, then the stream fields, then the
//! closing marker. What each piece looks like is stated in [`wire`], what a
//! form makes of its fields in [`multipart::prepared`], what one step of
//! reading does in the contract of [`PreparedFields::pull`], what a read does
//! in that of [`PreparedFields::read`], and what follows for a body read in
//! any number of reads in [`laws`].
//!
//! A payload is anything that implements [`Source`]. The encoder takes the
//! bytes that a payload delivers as they come: its contracts hold whatever a
//! payload answers, and say what each answer leads to.

pub mod body;
pub mod boundary;
pub mod content_type;
pub mod cursor;
pub mod field;
pub mod laws;
pub mod multipart;
pub mod source;
pub mod wire;

pub use body::{BodyView, PreparedFields};
pub use cursor::{cursor_at_end, Cursor, CursorView};
pub use field::{PreparedField, PreparedFieldView};
pub use multipart::{FieldView, Multipart};
pub use source::Source;
