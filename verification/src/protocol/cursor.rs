//! Reading the fields of a record payload, front to back.
//!
//! Each `field_*` function says what reading one field from offset `at` of a
//! payload yields: the value and the offset after it, or the refusal.

use vstd::prelude::*;
use vstd::utf8::{decode_utf8, encode_utf8, valid_utf8};

use super::ProtocolError;
use crate::command::{ColumnWidth, ImageSize};
use crate::image::copy_bytes;
use crate::model::{
    nonnegative_bits, positive_bits, Fraction, Percent, Pt, Rgb, TextAlign,
};
use crate::text::{all_allowed, ascii_chars, ascii_string, valid};

verus! {

/// The little-endian `u16` at `at`.
pub open spec fn le16(bytes: Seq<u8>, at: int) -> int {
    bytes[at] as int + bytes[at + 1] as int * 0x100
}

/// The little-endian `u32` at `at`.
pub open spec fn le32(bytes: Seq<u8>, at: int) -> int {
    bytes[at] as int + bytes[at + 1] as int * 0x100 + bytes[at + 2] as int * 0x1_0000
        + bytes[at + 3] as int * 0x100_0000
}

/// Where `length` bytes from `at` end.
pub open spec fn field_take(bytes: Seq<u8>, at: int, length: int) -> Result<int, ProtocolError> {
    if at + length > usize::MAX {
        Err(ProtocolError::InvalidLength)
    } else if at + length > bytes.len() {
        Err(ProtocolError::TruncatedRecord)
    } else {
        Ok(at + length)
    }
}

pub open spec fn field_u8(bytes: Seq<u8>, at: int) -> Result<(u8, int), ProtocolError> {
    match field_take(bytes, at, 1) {
        Ok(end) => Ok((bytes[at], end)),
        Err(error) => Err(error),
    }
}

pub open spec fn field_u16(bytes: Seq<u8>, at: int) -> Result<(u16, int), ProtocolError> {
    match field_take(bytes, at, 2) {
        Ok(end) => Ok((le16(bytes, at) as u16, end)),
        Err(error) => Err(error),
    }
}

pub open spec fn field_u32(bytes: Seq<u8>, at: int) -> Result<(u32, int), ProtocolError> {
    match field_take(bytes, at, 4) {
        Ok(end) => Ok((le32(bytes, at) as u32, end)),
        Err(error) => Err(error),
    }
}

/// A single that must be finite and above zero; a refusal names the field.
pub open spec fn field_positive(bytes: Seq<u8>, at: int, name: &'static str) -> Result<(u32, int), ProtocolError> {
    match field_u32(bytes, at) {
        Ok((bits, end)) => if positive_bits(bits) {
            Ok((bits, end))
        } else {
            Err(ProtocolError::InvalidValue(name))
        },
        Err(error) => Err(error),
    }
}

/// A positive single as a length, such as a font size.
pub open spec fn field_size(bytes: Seq<u8>, at: int, name: &'static str) -> Result<(Pt, int), ProtocolError> {
    match field_positive(bytes, at, name) {
        Ok((bits, end)) => Ok((Pt::from_bits(bits), end)),
        Err(error) => Err(error),
    }
}

/// A length: a single that must be finite and not below zero.
pub open spec fn field_length(bytes: Seq<u8>, at: int, name: &'static str) -> Result<(Pt, int), ProtocolError> {
    match field_u32(bytes, at) {
        Ok((bits, end)) => if nonnegative_bits(bits) {
            Ok((Pt::from_bits(bits), end))
        } else {
            Err(ProtocolError::InvalidValue(name))
        },
        Err(error) => Err(error),
    }
}

/// Text: a `u32` byte length, then UTF-8 whose characters a record may hold
/// (`footer` admits the page tokens). Yields the characters, the byte length
/// and the end.
pub open spec fn field_text(bytes: Seq<u8>, at: int, footer: bool) -> Result<(Seq<char>, int, int), ProtocolError> {
    match field_u32(bytes, at) {
        Ok((length, start)) => match field_take(bytes, start, length as int) {
            Ok(end) => {
                let raw = bytes.subrange(start, end);
                if !valid_utf8(raw) {
                    Err(ProtocolError::InvalidUtf8)
                } else if !all_allowed(decode_utf8(raw), footer) {
                    Err(ProtocolError::UnsupportedWinAnsi)
                } else {
                    Ok((decode_utf8(raw), length as int, end))
                }
            },
            Err(error) => Err(error),
        },
        Err(error) => Err(error),
    }
}

/// Printable ASCII, the bytes a URI may hold.
pub open spec fn printable(bytes: Seq<u8>) -> bool {
    forall|index: int| 0 <= index < bytes.len() ==> 0x20 <= #[trigger] bytes[index] <= 0x7e
}

/// A link target: a `u32` byte length, then printable ASCII.
pub open spec fn field_uri(bytes: Seq<u8>, at: int) -> Result<(Seq<char>, int), ProtocolError> {
    match field_u32(bytes, at) {
        Ok((length, start)) => match field_take(bytes, start, length as int) {
            Ok(end) => if printable(bytes.subrange(start, end)) {
                Ok((ascii_chars(bytes.subrange(start, end)), end))
            } else {
                Err(ProtocolError::InvalidLink)
            },
            Err(error) => Err(error),
        },
        Err(error) => Err(error),
    }
}

/// Alternative text: a `u32` byte length, then UTF-8; only its end is kept.
pub open spec fn field_alt(bytes: Seq<u8>, at: int) -> Result<int, ProtocolError> {
    match field_u32(bytes, at) {
        Ok((length, start)) => match field_take(bytes, start, length as int) {
            Ok(end) => if valid_utf8(bytes.subrange(start, end)) {
                Ok(end)
            } else {
                Err(ProtocolError::InvalidUtf8)
            },
            Err(error) => Err(error),
        },
        Err(error) => Err(error),
    }
}

/// Alignment: 0 left, 1 centre, 2 right.
pub open spec fn field_align(bytes: Seq<u8>, at: int) -> Result<(TextAlign, int), ProtocolError> {
    match field_u8(bytes, at) {
        Ok((code, end)) => if code == 0 {
            Ok((TextAlign::Left, end))
        } else if code == 1 {
            Ok((TextAlign::Center, end))
        } else if code == 2 {
            Ok((TextAlign::Right, end))
        } else {
            Err(ProtocolError::InvalidTextAlignment)
        },
        Err(error) => Err(error),
    }
}

/// A colour: red, green and blue bytes.
pub open spec fn field_rgb(bytes: Seq<u8>, at: int) -> Result<(Rgb, int), ProtocolError> {
    match field_take(bytes, at, 3) {
        Ok(end) => Ok((Rgb { r: bytes[at], g: bytes[at + 1], b: bytes[at + 2] }, end)),
        Err(error) => Err(error),
    }
}

/// A column width: a kind byte (0 fixed, 1 fraction, 2 percent), then a
/// positive single.
pub open spec fn field_column(bytes: Seq<u8>, at: int) -> Result<(ColumnWidth, int), ProtocolError> {
    match field_u8(bytes, at) {
        Ok((kind, start)) => match field_positive(bytes, start, "column width") {
            Ok((bits, end)) => if kind == 0 {
                Ok((ColumnWidth::Fixed(Pt::from_bits(bits)), end))
            } else if kind == 1 {
                Ok((ColumnWidth::Fraction(Fraction::from_bits(bits)), end))
            } else if kind == 2 {
                Ok((ColumnWidth::Percent(Percent::from_bits(bits)), end))
            } else {
                Err(ProtocolError::InvalidColumnKind)
            },
            Err(error) => Err(error),
        },
        Err(error) => Err(error),
    }
}

/// `count` column widths in a row.
pub open spec fn field_column_list(bytes: Seq<u8>, at: int, count: nat) -> Result<(Seq<ColumnWidth>, int), ProtocolError>
    decreases count,
{
    if count == 0 {
        Ok((seq![], at))
    } else {
        match field_column_list(bytes, at, (count - 1) as nat) {
            Ok((columns, middle)) => match field_column(bytes, middle) {
                Ok((column, end)) => Ok((columns.push(column), end)),
                Err(error) => Err(error),
            },
            Err(error) => Err(error),
        }
    }
}

/// A row's columns: a `u16` count from 1 to 256, then the widths.
pub open spec fn field_columns(bytes: Seq<u8>, at: int) -> Result<(Seq<ColumnWidth>, int), ProtocolError> {
    match field_u16(bytes, at) {
        Ok((count, start)) => if count == 0 || count > 256 {
            Err(ProtocolError::InvalidColumnCount)
        } else {
            field_column_list(bytes, start, count as nat)
        },
        Err(error) => Err(error),
    }
}

/// An image width: 0 its own size, 1 a positive length, 2 a positive percentage.
pub open spec fn field_image_size(bytes: Seq<u8>, at: int) -> Result<(ImageSize, int), ProtocolError> {
    match field_u8(bytes, at) {
        Ok((kind, start)) => if kind == 0 {
            Ok((ImageSize::Auto, start))
        } else if kind == 1 {
            match field_positive(bytes, start, "image width") {
                Ok((bits, end)) => Ok((ImageSize::Fixed(Pt::from_bits(bits)), end)),
                Err(error) => Err(error),
            }
        } else if kind == 2 {
            match field_positive(bytes, start, "image width") {
                Ok((bits, end)) => Ok((ImageSize::Percent(Percent::from_bits(bits)), end)),
                Err(error) => Err(error),
            }
        } else {
            Err(ProtocolError::InvalidValue("image width kind"))
        },
        Err(error) => Err(error),
    }
}

/// `std::str::from_utf8`: the text the bytes encode when they are UTF-8,
/// which the standard library documents as their validity.
#[verifier::external_body]
fn utf8(bytes: &[u8]) -> (text: Option<&str>)
    ensures
        match text {
            Some(text) => valid_utf8(bytes@) && text@ == decode_utf8(bytes@),
            None => !valid_utf8(bytes@),
        },
{
    std::str::from_utf8(bytes).ok()
}

/// A read position in a record payload.
pub struct Cursor<'a> {
    bytes: &'a [u8],
    offset: usize,
}

impl<'a> Cursor<'a> {
    pub closed spec fn data(&self) -> Seq<u8> {
        self.bytes@
    }

    pub closed spec fn at(&self) -> int {
        self.offset as int
    }

    pub fn new(bytes: &'a [u8]) -> (cursor: Cursor<'a>)
        ensures
            cursor.data() == bytes@,
            cursor.at() == 0,
    {
        Cursor { bytes, offset: 0 }
    }

    /// The next `length` bytes.
    pub fn take(&mut self, length: usize) -> (taken: Result<&'a [u8], ProtocolError>)
        requires
            old(self).at() <= old(self).data().len(),
        ensures
            final(self).data() == old(self).data(),
            final(self).at() <= final(self).data().len(),
            match field_take(old(self).data(), old(self).at(), length as int) {
                Ok(end) => taken matches Ok(slice) && slice@ == old(self).data().subrange(
                    old(self).at(),
                    end,
                ) && final(self).at() == end,
                Err(error) => taken matches Err(found) && found == error && final(self).at() == old(self).at(),
            },
    {
        let end = match self.offset.checked_add(length) {
            Some(end) => end,
            None => return Err(ProtocolError::InvalidLength),
        };
        if end > self.bytes.len() {
            return Err(ProtocolError::TruncatedRecord);
        }
        let value = &self.bytes[self.offset..end];
        self.offset = end;
        Ok(value)
    }

    pub fn u8(&mut self) -> (value: Result<u8, ProtocolError>)
        requires
            old(self).at() <= old(self).data().len(),
        ensures
            final(self).data() == old(self).data(),
            final(self).at() <= final(self).data().len(),
            match field_u8(old(self).data(), old(self).at()) {
                Ok((expected, end)) => value matches Ok(found) && found == expected && final(self).at() == end,
                Err(error) => value matches Err(found) && found == error && final(self).at() == old(self).at(),
            },
    {
        let bytes = self.take(1)?;
        Ok(bytes[0])
    }

    pub fn u16(&mut self) -> (value: Result<u16, ProtocolError>)
        requires
            old(self).at() <= old(self).data().len(),
        ensures
            final(self).data() == old(self).data(),
            final(self).at() <= final(self).data().len(),
            match field_u16(old(self).data(), old(self).at()) {
                Ok((expected, end)) => value matches Ok(found) && found == expected && final(self).at() == end,
                Err(error) => value matches Err(found) && found == error && final(self).at() == old(self).at(),
            },
    {
        let bytes = self.take(2)?;
        Ok(bytes[0] as u16 + bytes[1] as u16 * 256)
    }

    pub fn u32(&mut self) -> (value: Result<u32, ProtocolError>)
        requires
            old(self).at() <= old(self).data().len(),
        ensures
            final(self).data() == old(self).data(),
            final(self).at() <= final(self).data().len(),
            match field_u32(old(self).data(), old(self).at()) {
                Ok((expected, end)) => value matches Ok(found) && found == expected && final(self).at() == end,
                Err(error) => value matches Err(found) && found == error && final(self).at() == old(self).at(),
            },
    {
        let bytes = self.take(4)?;
        Ok(bytes[0] as u32 + bytes[1] as u32 * 0x100 + bytes[2] as u32 * 0x1_0000 + bytes[3] as u32
            * 0x100_0000)
    }

    /// A finite single above zero, as its bits.
    pub fn positive(&mut self, name: &'static str) -> (value: Result<u32, ProtocolError>)
        requires
            old(self).at() <= old(self).data().len(),
        ensures
            final(self).data() == old(self).data(),
            final(self).at() <= final(self).data().len(),
            match field_positive(old(self).data(), old(self).at(), name) {
                Ok((expected, end)) => value matches Ok(found) && found == expected && final(self).at() == end,
                Err(error) => value matches Err(found) && found == error,
            },
    {
        let bits = self.u32()?;
        if 0 < bits && bits < 0x7f80_0000 {
            Ok(bits)
        } else {
            Err(ProtocolError::InvalidValue(name))
        }
    }

    /// A positive single as a length.
    pub fn size(&mut self, name: &'static str) -> (value: Result<Pt, ProtocolError>)
        requires
            old(self).at() <= old(self).data().len(),
        ensures
            final(self).data() == old(self).data(),
            final(self).at() <= final(self).data().len(),
            match field_size(old(self).data(), old(self).at(), name) {
                Ok((expected, end)) => value matches Ok(found) && found == expected && found.wf() && final(self).at() == end,
                Err(error) => value matches Err(found) && found == error,
            },
    {
        let bits = self.positive(name)?;
        match Pt::new(bits) {
            Ok(point) => Ok(point),
            Err(error) => Err(ProtocolError::from_render(error)),
        }
    }

    /// A finite single not below zero, as a length.
    pub fn length(&mut self, name: &'static str) -> (value: Result<Pt, ProtocolError>)
        requires
            old(self).at() <= old(self).data().len(),
        ensures
            final(self).data() == old(self).data(),
            final(self).at() <= final(self).data().len(),
            match field_length(old(self).data(), old(self).at(), name) {
                Ok((expected, end)) => value matches Ok(found) && found == expected && found.wf() && final(self).at() == end,
                Err(error) => value matches Err(found) && found == error,
            },
    {
        let bits = self.u32()?;
        match Pt::new(bits) {
            Ok(point) => Ok(point),
            Err(_) => Err(ProtocolError::InvalidValue(name)),
        }
    }

    /// Text of a record; `footer` admits the page tokens.
    pub fn text(&mut self, footer: bool) -> (value: Result<&'a str, ProtocolError>)
        requires
            old(self).at() <= old(self).data().len(),
        ensures
            final(self).data() == old(self).data(),
            final(self).at() <= final(self).data().len(),
            match field_text(old(self).data(), old(self).at(), footer) {
                Ok((expected, length, end)) => value matches Ok(found) && found@ == expected
                    && final(self).at() == end && end == old(self).at() + 4 + length && encode_utf8(found@).len()
                    == length,
                Err(error) => value matches Err(found) && found == error,
            },
    {
        let length = self.u32()?;
        let raw = self.take(length as usize)?;
        let text = match utf8(raw) {
            Some(text) => text,
            None => return Err(ProtocolError::InvalidUtf8),
        };
        proof {
            vstd::utf8::decode_utf8_encode_utf8(raw@);
        }
        if !valid(text, footer) {
            return Err(ProtocolError::UnsupportedWinAnsi);
        }
        Ok(text)
    }

    /// A link target.
    pub fn uri(&mut self) -> (value: Result<String, ProtocolError>)
        requires
            old(self).at() <= old(self).data().len(),
        ensures
            final(self).data() == old(self).data(),
            final(self).at() <= final(self).data().len(),
            match field_uri(old(self).data(), old(self).at()) {
                Ok((expected, end)) => value matches Ok(found) && found@ == expected && final(self).at() == end,
                Err(error) => value matches Err(found) && found == error,
            },
    {
        let length = self.u32()?;
        let ghost start = self.at();
        let raw = self.take(length as usize)?;
        let mut index: usize = 0;
        while index < raw.len()
            invariant
                self.data() == old(self).data(),
                self.at() <= self.data().len(),
                field_u32(old(self).data(), old(self).at()) == Ok::<(u32, int), ProtocolError>((length, start)),
                field_take(old(self).data(), start, length as int) == Ok::<int, ProtocolError>(self.at()),
                raw@ == old(self).data().subrange(start, self.at()),
                index <= raw@.len(),
                forall|before: int| 0 <= before < index ==> 0x20 <= #[trigger] raw@[before] <= 0x7e,
            decreases raw@.len() - index,
        {
            if raw[index] < 0x20 || raw[index] > 0x7e {
                assert(!printable(raw@)) by {
                    assert(!(0x20 <= raw@[index as int] <= 0x7e));
                }
                return Err(ProtocolError::InvalidLink);
            }
            index += 1;
        }
        Ok(ascii_string(copy_bytes(raw)))
    }

    /// Alternative text, checked and skipped.
    pub fn alt(&mut self) -> (value: Result<(), ProtocolError>)
        requires
            old(self).at() <= old(self).data().len(),
        ensures
            final(self).data() == old(self).data(),
            final(self).at() <= final(self).data().len(),
            match field_alt(old(self).data(), old(self).at()) {
                Ok(end) => value is Ok && final(self).at() == end,
                Err(error) => value matches Err(found) && found == error,
            },
    {
        let length = self.u32()?;
        let raw = self.take(length as usize)?;
        match utf8(raw) {
            Some(_) => Ok(()),
            None => Err(ProtocolError::InvalidUtf8),
        }
    }

    pub fn align(&mut self) -> (value: Result<TextAlign, ProtocolError>)
        requires
            old(self).at() <= old(self).data().len(),
        ensures
            final(self).data() == old(self).data(),
            final(self).at() <= final(self).data().len(),
            match field_align(old(self).data(), old(self).at()) {
                Ok((expected, end)) => value matches Ok(found) && found == expected && final(self).at() == end,
                Err(error) => value matches Err(found) && found == error,
            },
    {
        match self.u8()? {
            0 => Ok(TextAlign::Left),
            1 => Ok(TextAlign::Center),
            2 => Ok(TextAlign::Right),
            _ => Err(ProtocolError::InvalidTextAlignment),
        }
    }

    pub fn rgb(&mut self) -> (value: Result<Rgb, ProtocolError>)
        requires
            old(self).at() <= old(self).data().len(),
        ensures
            final(self).data() == old(self).data(),
            final(self).at() <= final(self).data().len(),
            match field_rgb(old(self).data(), old(self).at()) {
                Ok((expected, end)) => value matches Ok(found) && found == expected && final(self).at() == end,
                Err(error) => value matches Err(found) && found == error,
            },
    {
        let bytes = self.take(3)?;
        Ok(Rgb { r: bytes[0], g: bytes[1], b: bytes[2] })
    }

    pub fn column(&mut self) -> (value: Result<ColumnWidth, ProtocolError>)
        requires
            old(self).at() <= old(self).data().len(),
        ensures
            final(self).data() == old(self).data(),
            final(self).at() <= final(self).data().len(),
            match field_column(old(self).data(), old(self).at()) {
                Ok((expected, end)) => value matches Ok(found) && found == expected && final(self).at() == end,
                Err(error) => value matches Err(found) && found == error,
            },
    {
        let kind = self.u8()?;
        let bits = self.positive("column width")?;
        match kind {
            0 => match Pt::new(bits) {
                Ok(point) => Ok(ColumnWidth::Fixed(point)),
                Err(error) => Err(ProtocolError::from_render(error)),
            },
            1 => match Fraction::new(bits) {
                Ok(fraction) => Ok(ColumnWidth::Fraction(fraction)),
                Err(error) => Err(ProtocolError::from_render(error)),
            },
            2 => match Percent::new(bits) {
                Ok(percent) => Ok(ColumnWidth::Percent(percent)),
                Err(error) => Err(ProtocolError::from_render(error)),
            },
            _ => Err(ProtocolError::InvalidColumnKind),
        }
    }

    pub fn columns(&mut self) -> (value: Result<Vec<ColumnWidth>, ProtocolError>)
        requires
            old(self).at() <= old(self).data().len(),
        ensures
            final(self).data() == old(self).data(),
            final(self).at() <= final(self).data().len(),
            match field_columns(old(self).data(), old(self).at()) {
                Ok((expected, end)) => value matches Ok(found) && found@ == expected && final(self).at() == end,
                Err(error) => value matches Err(found) && found == error,
            },
    {
        let count = self.u16()?;
        if count == 0 || count > 256 {
            return Err(ProtocolError::InvalidColumnCount);
        }
        let ghost data = self.data();
        let ghost start = self.at();
        let mut columns: Vec<ColumnWidth> = Vec::new();
        let mut read: u16 = 0;
        while read < count
            invariant
                self.data() == data,
                old(self).data() == data,
                field_u16(data, old(self).at()) == Ok::<(u16, int), ProtocolError>((count, start)),
                0 < count <= 256,
                self.at() <= data.len(),
                read <= count,
                field_column_list(data, start, read as nat) == Ok::<(Seq<ColumnWidth>, int), ProtocolError>(
                    (columns@, self.at()),
                ),
            decreases count - read,
        {
            let column = match self.column() {
                Ok(column) => column,
                Err(error) => {
                    proof {
                        assert(field_column_list(data, start, (read + 1) as nat) == Err::<(Seq<ColumnWidth>, int), ProtocolError>(error));
                        lemma_column_list_stops(data, start, (read + 1) as nat, count as nat);
                    }
                    return Err(error);
                },
            };
            columns.push(column);
            read += 1;
        }
        Ok(columns)
    }

    pub fn image_size(&mut self) -> (value: Result<ImageSize, ProtocolError>)
        requires
            old(self).at() <= old(self).data().len(),
        ensures
            final(self).data() == old(self).data(),
            final(self).at() <= final(self).data().len(),
            match field_image_size(old(self).data(), old(self).at()) {
                Ok((expected, end)) => value matches Ok(found) && found == expected && final(self).at() == end,
                Err(error) => value matches Err(found) && found == error,
            },
    {
        match self.u8()? {
            0 => Ok(ImageSize::Auto),
            1 => {
                let bits = self.positive("image width")?;
                match Pt::new(bits) {
                    Ok(point) => Ok(ImageSize::Fixed(point)),
                    Err(error) => Err(ProtocolError::from_render(error)),
                }
            },
            2 => {
                let bits = self.positive("image width")?;
                match Percent::new(bits) {
                    Ok(percent) => Ok(ImageSize::Percent(percent)),
                    Err(error) => Err(ProtocolError::from_render(error)),
                }
            },
            _ => Err(ProtocolError::InvalidValue("image width kind")),
        }
    }

    /// Whether the whole payload was read.
    pub fn done(&self) -> (value: Result<(), ProtocolError>)
        ensures
            match value {
                Ok(()) => self.at() == self.data().len(),
                Err(error) => self.at() != self.data().len() && error == ProtocolError::InvalidRecordLength,
            },
    {
        if self.offset == self.bytes.len() {
            Ok(())
        } else {
            Err(ProtocolError::InvalidRecordLength)
        }
    }
}

/// Once a column fails to read, reading more columns fails the same way.
proof fn lemma_column_list_stops(bytes: Seq<u8>, at: int, failed: nat, count: nat)
    requires
        failed <= count,
        field_column_list(bytes, at, failed) is Err,
    ensures
        field_column_list(bytes, at, count) == field_column_list(bytes, at, failed),
    decreases count - failed,
{
    if failed < count {
        lemma_column_list_stops(bytes, at, failed, (count - 1) as nat);
    }
}

} // verus!
