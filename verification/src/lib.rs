//! Re-flows the quoted text of plain-text mail into tidy paragraphs of a
//! fixed width.
//!
//! A line of a reply carries quote markers (`>`) that say how deep it is
//! quoted. Consecutive lines of one depth form a paragraph; a blank line or
//! a change of depth ends it. Reformatting wraps every paragraph again,
//! writes the markers of its depth in front of each line, and keeps every
//! blank line. Of a whole message only the body is touched, and a selection
//! of a document can be formatted on its own.
//!
//! Text is modelled as `Seq<char>` and a document as a sequence of lines.
//! Each module states its part in spec functions, and every executable
//! function is proved to return what they say. `laws` and `idempotence`
//! prove what holds of reformatting as a whole.

pub mod engine;
pub mod idempotence;
pub mod laws;
pub mod quote;
pub mod range;
pub mod segment;
pub mod text;
pub mod wrap;
