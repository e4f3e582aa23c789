//! Column alignment of trailing comments.
//!
//! A text is a sequence of lines. A line that holds the comment marker
//! of the text's language and stands next to another such line is
//! eligible; an unbroken run of eligible lines is a section. Inside a
//! section every marker is moved, by spaces inserted in front of it, to
//! the column of the section's rightmost marker. Nothing else changes.
//!
//! The marker of a line is the rightmost occurrence of the token in it,
//! whatever surrounds it. Columns count characters.
//!
//! - [`style`] maps file extensions to marker tokens.
//! - [`marker`] finds the marker of a line and pads in front of it.
//! - [`sections`] cuts a list of line numbers into sections.
//! - [`runs`] says what the aligned text is.
//! - [`align`] computes it, and [`laws`] states what holds of it.
//! - [`text`] reads a text as lines and realigns a whole file's text.
//! - [`error`] names the ways in which realigning a file can fail.
pub mod align;
pub mod chars;
pub mod error;
pub mod laws;
pub mod marker;
pub mod runs;
pub mod sections;
pub mod style;
pub mod text;
