//! Conversion of a small inline markup syntax into tagged text or into
//! plain text with formatting entities.
//!
//! The syntax knows bold (`*`), italics (`_`), strikethrough (`~`),
//! spoilers (`||`), inline code (`` ` ``), fenced code blocks with an
//! optional language, nested block quotes (`>`), and the backslash as
//! escape. Markup that is not well formed is plain text.
//!
//! * `parser` scans a text for spans of markup; `seek` holds what it looks
//!   ahead and behind for, `span` what it returns.
//! * `nesting` and `rules` prove what holds of every list of spans that the
//!   scanner returns.
//! * `render` replaces the delimiters of the spans by the tags of a table
//!   (`tags`), `escape` takes the escaping backslashes out afterwards.
//! * `telegram` strips the delimiters and describes the spans by entities
//!   with UTF-16 offsets (`utf16`).
//! * `plain`, `identity` and `splice` prove what the two conversions do to
//!   texts without markup, under tables that give the delimiters back, and
//!   for a single span.

pub mod chars;
pub mod cover;
pub mod escape;
pub mod identity;
pub mod nesting;
pub mod parser;
pub mod plain;
pub mod render;
pub mod rules;
pub mod seek;
pub mod span;
pub mod splice;
pub mod tags;
pub mod telegram;
pub mod text;
pub mod utf16;
pub mod written;
