//! Line-oriented text-annotation toolkit.
//!
//! A [`span::Span`] is a half-open interval of character offsets into a
//! record's text; a [`record::Record`] owns a text buffer together with an
//! ordered sequence of pairwise non-overlapping spans.  The matcher module
//! runs a regular expression over a record's text and stores every match
//! whose span does not overlap an already stored one; the masking engine
//! rewrites the text with each spanned region replaced by a label; the codec
//! serializes records to single JSON lines and reads them back.

pub mod codec;
pub mod convert;
pub mod mark;
pub mod matcher;
pub mod record;
pub mod span;
