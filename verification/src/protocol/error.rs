//! Why a protocol stream, a font or an image was refused.

use vstd::prelude::*;

use crate::model::RenderError;
use crate::text::{number, number_text};

verus! {

/// A refusal of the protocol decoder, with the message its callers show.
#[derive(Debug)]
pub enum ProtocolError {
    FontsAfterDocument,
    TooManyFonts,
    InvalidFont(String),
    DataAfterEnd,
    RecordTooLarge,
    BlockTooLarge,
    InvalidMagic,
    UnknownVersion,
    InvalidNesting,
    InvalidTextAlignment,
    UnknownFont,
    InvalidBackground,
    EmptyDocument,
    UnknownOpcode,
    MissingHeader,
    NestingTooDeep,
    RowCellCountMismatch,
    TruncatedProtocol,
    InvalidLength,
    TruncatedRecord,
    InvalidStringLength,
    InvalidUtf8,
    UnsupportedWinAnsi,
    InvalidColumnCount,
    InvalidColumnKind,
    InvalidRecordLength,
    /// A field holds a value its kind does not allow; the field is named.
    InvalidValue(&'static str),
    Render(RenderError),
    InvalidImage(String),
    ImagesTooLarge,
    TooManyImages,
    UnknownImage,
    InvalidLink,
}

/// How `{:?}` writes a character: quoted, with escapes.
pub uninterp spec fn debug_char(character: char) -> Seq<char>;

/// `format!("{character:?}")`: the standard library's `Debug` form of a
/// character, a quoted escape; nothing more is stated of its text.
#[verifier::external_body]
fn char_debug(character: char) -> (text: String)
    ensures
        text@ == debug_char(character),
{
    format!("{character:?}")
}

/// The `Debug` form of a rendering error: the variant's name and its field.
pub open spec fn render_message(error: RenderError) -> Seq<char> {
    match error {
        RenderError::InvalidPoint => "InvalidPoint"@,
        RenderError::InvalidPage => "InvalidPage"@,
        RenderError::InvalidFontSize => "InvalidFontSize"@,
        RenderError::UnsupportedCharacter(character) => "UnsupportedCharacter("@ + debug_char(character)
            + ")"@,
        RenderError::TextTooWide => "TextTooWide"@,
        RenderError::PageOverflow => "PageOverflow"@,
        RenderError::InvalidLayout => "InvalidLayout"@,
        RenderError::MissingGlyph(character) => "MissingGlyph("@ + debug_char(character) + ")"@,
        RenderError::DocumentTooLarge => "DocumentTooLarge"@,
        RenderError::TableRowOverflow(row) => "TableRowOverflow("@ + number(row as nat) + ")"@,
    }
}

/// The message of each refusal.
pub open spec fn protocol_message(error: ProtocolError) -> Seq<char> {
    match error {
        ProtocolError::FontsAfterDocument => "fonts must be registered before document"@,
        ProtocolError::TooManyFonts => "too many fonts"@,
        ProtocolError::InvalidFont(message) => message@,
        ProtocolError::DataAfterEnd => "data after end"@,
        ProtocolError::RecordTooLarge => "record too large"@,
        ProtocolError::BlockTooLarge => "block exceeds 16 MiB"@,
        ProtocolError::InvalidMagic => "invalid magic"@,
        ProtocolError::UnknownVersion => "unknown version"@,
        ProtocolError::InvalidNesting => "invalid nesting"@,
        ProtocolError::InvalidTextAlignment => "invalid text alignment"@,
        ProtocolError::UnknownFont => "unknown font"@,
        ProtocolError::InvalidBackground => "invalid background"@,
        ProtocolError::EmptyDocument => "empty document"@,
        ProtocolError::UnknownOpcode => "unknown opcode"@,
        ProtocolError::MissingHeader => "missing header"@,
        ProtocolError::NestingTooDeep => "nesting exceeds 64"@,
        ProtocolError::RowCellCountMismatch => "row cell count mismatch"@,
        ProtocolError::TruncatedProtocol => "truncated protocol"@,
        ProtocolError::InvalidLength => "invalid length"@,
        ProtocolError::TruncatedRecord => "truncated record"@,
        ProtocolError::InvalidStringLength => "invalid string length"@,
        ProtocolError::InvalidUtf8 => "invalid UTF-8"@,
        ProtocolError::UnsupportedWinAnsi => "unsupported WinAnsi character"@,
        ProtocolError::InvalidColumnCount => "invalid column count"@,
        ProtocolError::InvalidColumnKind => "invalid column kind"@,
        ProtocolError::InvalidRecordLength => "invalid record length"@,
        ProtocolError::InvalidValue(name) => "invalid "@ + name@,
        ProtocolError::Render(error) => render_message(error),
        ProtocolError::InvalidImage(message) => message@,
        ProtocolError::ImagesTooLarge => "images exceed 64 MiB per render"@,
        ProtocolError::TooManyImages => "too many images"@,
        ProtocolError::UnknownImage => "unknown image"@,
        ProtocolError::InvalidLink => "invalid link: URIs must be printable ASCII"@,
    }
}

/// The `Debug` form of a rendering error.
pub fn render_text(error: RenderError) -> (text: String)
    ensures
        text@ == render_message(error),
{
    match error {
        RenderError::InvalidPoint => "InvalidPoint".to_owned(),
        RenderError::InvalidPage => "InvalidPage".to_owned(),
        RenderError::InvalidFontSize => "InvalidFontSize".to_owned(),
        RenderError::UnsupportedCharacter(character) => {
            let mut text = "UnsupportedCharacter(".to_owned();
            text.append(char_debug(character).as_str());
            text.append(")");
            text
        },
        RenderError::TextTooWide => "TextTooWide".to_owned(),
        RenderError::PageOverflow => "PageOverflow".to_owned(),
        RenderError::InvalidLayout => "InvalidLayout".to_owned(),
        RenderError::MissingGlyph(character) => {
            let mut text = "MissingGlyph(".to_owned();
            text.append(char_debug(character).as_str());
            text.append(")");
            text
        },
        RenderError::DocumentTooLarge => "DocumentTooLarge".to_owned(),
        RenderError::TableRowOverflow(row) => {
            let mut text = "TableRowOverflow(".to_owned();
            text.append(number_text(row as u64).as_str());
            text.append(")");
            text
        },
    }
}

impl ProtocolError {
    /// The message a caller sees.
    pub fn message(&self) -> (text: String)
        ensures
            text@ == protocol_message(*self),
    {
        match self {
            ProtocolError::FontsAfterDocument => "fonts must be registered before document".to_owned(),
            ProtocolError::TooManyFonts => "too many fonts".to_owned(),
            ProtocolError::InvalidFont(message) => message.clone(),
            ProtocolError::DataAfterEnd => "data after end".to_owned(),
            ProtocolError::RecordTooLarge => "record too large".to_owned(),
            ProtocolError::BlockTooLarge => "block exceeds 16 MiB".to_owned(),
            ProtocolError::InvalidMagic => "invalid magic".to_owned(),
            ProtocolError::UnknownVersion => "unknown version".to_owned(),
            ProtocolError::InvalidNesting => "invalid nesting".to_owned(),
            ProtocolError::InvalidTextAlignment => "invalid text alignment".to_owned(),
            ProtocolError::UnknownFont => "unknown font".to_owned(),
            ProtocolError::InvalidBackground => "invalid background".to_owned(),
            ProtocolError::EmptyDocument => "empty document".to_owned(),
            ProtocolError::UnknownOpcode => "unknown opcode".to_owned(),
            ProtocolError::MissingHeader => "missing header".to_owned(),
            ProtocolError::NestingTooDeep => "nesting exceeds 64".to_owned(),
            ProtocolError::RowCellCountMismatch => "row cell count mismatch".to_owned(),
            ProtocolError::TruncatedProtocol => "truncated protocol".to_owned(),
            ProtocolError::InvalidLength => "invalid length".to_owned(),
            ProtocolError::TruncatedRecord => "truncated record".to_owned(),
            ProtocolError::InvalidStringLength => "invalid string length".to_owned(),
            ProtocolError::InvalidUtf8 => "invalid UTF-8".to_owned(),
            ProtocolError::UnsupportedWinAnsi => "unsupported WinAnsi character".to_owned(),
            ProtocolError::InvalidColumnCount => "invalid column count".to_owned(),
            ProtocolError::InvalidColumnKind => "invalid column kind".to_owned(),
            ProtocolError::InvalidRecordLength => "invalid record length".to_owned(),
            ProtocolError::InvalidValue(name) => {
                let mut text = "invalid ".to_owned();
                text.append(name);
                text
            },
            ProtocolError::Render(error) => render_text(*error),
            ProtocolError::InvalidImage(message) => message.clone(),
            ProtocolError::ImagesTooLarge => "images exceed 64 MiB per render".to_owned(),
            ProtocolError::TooManyImages => "too many images".to_owned(),
            ProtocolError::UnknownImage => "unknown image".to_owned(),
            ProtocolError::InvalidLink => "invalid link: URIs must be printable ASCII".to_owned(),
        }
    }

    /// A rendering error, as the decoder passes it on.
    pub fn from_render(error: RenderError) -> (converted: ProtocolError)
        ensures
            converted == ProtocolError::Render(error),
    {
        ProtocolError::Render(error)
    }
}

} // verus!
