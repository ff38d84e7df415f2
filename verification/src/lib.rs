//! FlashPDF core: the verified boundary of the PDF layout engine.
//!
//! This crate holds the logic that decides what bytes mean: the binary command
//! protocol, TrueType and image header parsing, the WinAnsi text encoding and
//! the line-break classes. Layout arithmetic, which is floating point, and PDF
//! object writing live beside it in the application crate.

pub mod command;
pub mod document;
pub mod model;
pub mod text;

pub use command::{ColumnWidth, Command, ImageSize, OwnedCommand, TextRun};
pub use model::{
    BoxStyle, Edges, FontId, Fraction, Page, Percent, Pt, RenderError, Rgb, RunDecoration, TextAlign,
    TextStyle,
};
pub mod font;
pub mod image;
pub mod protocol;
