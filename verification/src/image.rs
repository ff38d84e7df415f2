//! PNG and JPEG headers are parsed once at registration. Pixel data passes
//! through to the PDF undecoded, except where an alpha channel must be split
//! off into an `/SMask`, which needs the scanlines inflated and unfiltered.

use vstd::prelude::*;

use crate::font::bytes::{fits, read_u16, read_u32, u16_at, u32_at};
use crate::text::{ascii_chars, ascii_string, number, number_text};

verus! {

/// Total bytes of registered images per render.
pub const MAX_IMAGE_BYTES: usize = 67108864;

/// Largest pixel buffer a PNG with transparency may inflate to.
pub const MAX_DECODED_BYTES: usize = 67108864;

pub const MAX_DIMENSION: u32 = 65535;

/// The compressed stream `miniz_oxide::deflate::compress_to_vec_zlib` makes of
/// `data` at level 6.
pub uninterp spec fn zlib_deflate(data: Seq<u8>) -> Seq<u8>;

/// What `miniz_oxide::inflate::decompress_to_vec_zlib` makes of `data`: the
/// decompressed bytes, or `None` when it reports an error.
pub uninterp spec fn zlib_inflate(data: Seq<u8>) -> Option<Seq<u8>>;

/// `miniz_oxide::deflate::compress_to_vec_zlib` at level 6: a fixed level keeps
/// the output byte-for-byte deterministic across runs.
#[verifier::external_body]
pub(crate) fn deflate(bytes: &[u8]) -> (compressed: Vec<u8>)
    ensures
        compressed@ == zlib_deflate(bytes@),
{
    miniz_oxide::deflate::compress_to_vec_zlib(bytes, 6)
}

/// `miniz_oxide::inflate::decompress_to_vec_zlib`, its error reduced to `None`.
#[verifier::external_body]
pub(crate) fn inflate(bytes: &[u8]) -> (decompressed: Option<Vec<u8>>)
    ensures
        match zlib_inflate(bytes@) {
            Some(data) => decompressed matches Some(found) && found@ == data,
            None => decompressed is None,
        },
{
    miniz_oxide::inflate::decompress_to_vec_zlib(bytes).ok()
}

/// Why an image was refused; each names what the caller should change.
#[derive(Clone, Copy, Debug, PartialEq, Eq, Structural)]
pub enum ImageError {
    UnsupportedFormat,
    Truncated,
    Dimensions(u32, u32),
    InvalidJpegMarker,
    TruncatedJpeg,
    NoFrameHeader,
    TruncatedFrameHeader,
    JpegPrecision(u8),
    DnlHeight,
    JpegComponents(u8),
    UnsupportedJpegProcess,
    TruncatedPng,
    InvalidPngHeader,
    Interlaced,
    NoHeaderChunk,
    PngDepth(u8),
    NoDataChunk,
    NoPalette,
    InvalidPalette,
    UnknownColorType,
    InvalidTransparency,
    TooLarge,
    InvalidZlib,
    SizeMismatch,
    UnknownFilter,
}

pub open spec fn image_message(error: ImageError) -> Seq<char> {
    match error {
        ImageError::UnsupportedFormat => "unsupported image format; pass PNG or JPEG bytes"@,
        ImageError::Truncated => "truncated image"@,
        ImageError::Dimensions(width, height) => "image is "@ + number(width as nat) + "x"@ + number(height as nat)
            + " pixels; each side must be 1 to 65535"@,
        ImageError::InvalidJpegMarker => "invalid JPEG marker"@,
        ImageError::TruncatedJpeg => "truncated JPEG"@,
        ImageError::NoFrameHeader => "JPEG has no frame header before its scan"@,
        ImageError::TruncatedFrameHeader => "truncated JPEG frame header"@,
        ImageError::JpegPrecision(bits) => number(bits as nat)
            + "-bit JPEG is not supported; save it with 8-bit precision"@,
        ImageError::DnlHeight => "JPEG height set by a DNL marker is not supported"@,
        ImageError::JpegComponents(count) => "JPEG with "@ + number(count as nat) + " components is not supported"@,
        ImageError::UnsupportedJpegProcess =>
            "lossless, hierarchical, and arithmetic-coded JPEG are not supported; save as baseline or progressive"@,
        ImageError::TruncatedPng => "truncated PNG"@,
        ImageError::InvalidPngHeader => "invalid PNG header"@,
        ImageError::Interlaced => "interlaced (Adam7) PNG is not supported; save it non-interlaced"@,
        ImageError::NoHeaderChunk => "PNG has no IHDR chunk"@,
        ImageError::PngDepth(depth) => number(depth as nat)
            + "-bit PNG is not supported; save it with 8 bits per channel"@,
        ImageError::NoDataChunk => "PNG has no IDAT chunk"@,
        ImageError::NoPalette => "palette PNG has no PLTE chunk"@,
        ImageError::InvalidPalette => "invalid PNG palette"@,
        ImageError::UnknownColorType => "unknown PNG colour type"@,
        ImageError::InvalidTransparency => "invalid PNG tRNS chunk"@,
        ImageError::TooLarge => "PNG with transparency decodes to more than 64 MiB; flatten it or use JPEG"@,
        ImageError::InvalidZlib => "PNG image data is not a valid zlib stream"@,
        ImageError::SizeMismatch => "PNG image data does not match its dimensions"@,
        ImageError::UnknownFilter => "PNG has an unknown scanline filter"@,
    }
}

impl ImageError {
    /// The message a caller sees.
    pub fn message(&self) -> (text: String)
        ensures
            text@ == image_message(*self),
    {
        match *self {
            ImageError::UnsupportedFormat => "unsupported image format; pass PNG or JPEG bytes".to_owned(),
            ImageError::Truncated => "truncated image".to_owned(),
            ImageError::Dimensions(width, height) => {
                let mut text = "image is ".to_owned();
                text.append(number_text(width as u64).as_str());
                text.append("x");
                text.append(number_text(height as u64).as_str());
                text.append(" pixels; each side must be 1 to 65535");
                text
            },
            ImageError::InvalidJpegMarker => "invalid JPEG marker".to_owned(),
            ImageError::TruncatedJpeg => "truncated JPEG".to_owned(),
            ImageError::NoFrameHeader => "JPEG has no frame header before its scan".to_owned(),
            ImageError::TruncatedFrameHeader => "truncated JPEG frame header".to_owned(),
            ImageError::JpegPrecision(bits) => {
                let mut text = number_text(bits as u64);
                text.append("-bit JPEG is not supported; save it with 8-bit precision");
                text
            },
            ImageError::DnlHeight => "JPEG height set by a DNL marker is not supported".to_owned(),
            ImageError::JpegComponents(count) => {
                let mut text = "JPEG with ".to_owned();
                text.append(number_text(count as u64).as_str());
                text.append(" components is not supported");
                text
            },
            ImageError::UnsupportedJpegProcess =>
                "lossless, hierarchical, and arithmetic-coded JPEG are not supported; save as baseline or progressive".to_owned(),
            ImageError::TruncatedPng => "truncated PNG".to_owned(),
            ImageError::InvalidPngHeader => "invalid PNG header".to_owned(),
            ImageError::Interlaced => "interlaced (Adam7) PNG is not supported; save it non-interlaced".to_owned(),
            ImageError::NoHeaderChunk => "PNG has no IHDR chunk".to_owned(),
            ImageError::PngDepth(depth) => {
                let mut text = number_text(depth as u64);
                text.append("-bit PNG is not supported; save it with 8 bits per channel");
                text
            },
            ImageError::NoDataChunk => "PNG has no IDAT chunk".to_owned(),
            ImageError::NoPalette => "palette PNG has no PLTE chunk".to_owned(),
            ImageError::InvalidPalette => "invalid PNG palette".to_owned(),
            ImageError::UnknownColorType => "unknown PNG colour type".to_owned(),
            ImageError::InvalidTransparency => "invalid PNG tRNS chunk".to_owned(),
            ImageError::TooLarge => "PNG with transparency decodes to more than 64 MiB; flatten it or use JPEG".to_owned(),
            ImageError::InvalidZlib => "PNG image data is not a valid zlib stream".to_owned(),
            ImageError::SizeMismatch => "PNG image data does not match its dimensions".to_owned(),
            ImageError::UnknownFilter => "PNG has an unknown scanline filter".to_owned(),
        }
    }
}

pub enum ColorSpace {
    Gray,
    Rgb,
    Cmyk,
    /// RGB palette bytes for `/Indexed /DeviceRGB`.
    Indexed(Vec<u8>),
}

pub enum ColorSpaceView {
    Gray,
    Rgb,
    Cmyk,
    Indexed(Seq<u8>),
}

impl View for ColorSpace {
    type V = ColorSpaceView;

    open spec fn view(&self) -> ColorSpaceView {
        match self {
            ColorSpace::Gray => ColorSpaceView::Gray,
            ColorSpace::Rgb => ColorSpaceView::Rgb,
            ColorSpace::Cmyk => ColorSpaceView::Cmyk,
            ColorSpace::Indexed(palette) => ColorSpaceView::Indexed(palette@),
        }
    }
}

pub open spec fn channel_count(space: ColorSpaceView) -> nat {
    match space {
        ColorSpaceView::Gray | ColorSpaceView::Indexed(_) => 1,
        ColorSpaceView::Rgb => 3,
        ColorSpaceView::Cmyk => 4,
    }
}

impl ColorSpace {
    /// Samples per pixel: one palette index counts as one.
    pub fn channels(&self) -> (count: usize)
        ensures
            count == channel_count(self@),
    {
        match self {
            ColorSpace::Gray | ColorSpace::Indexed(_) => 1,
            ColorSpace::Rgb => 3,
            ColorSpace::Cmyk => 4,
        }
    }
}

#[derive(Clone, Copy, Debug, PartialEq, Eq, Structural)]
pub enum Encoding {
    /// The whole JPEG file; Adobe APP14 CMYK is stored inverted.
    Dct { inverted: bool },
    /// Concatenated IDAT zlib data with PNG filter bytes per row: `/Predictor 15`.
    FlatePredicted,
    /// Re-deflated raw samples.
    Flate,
}

pub struct Image {
    pub width: u32,
    pub height: u32,
    pub color_space: ColorSpace,
    pub encoding: Encoding,
    pub data: Vec<u8>,
    /// Deflated 8-bit alpha plane, emitted as an `/SMask` image.
    pub alpha: Option<Vec<u8>>,
    /// `/Mask` colour-key ranges from a `tRNS` chunk on a greyscale or RGB PNG.
    pub color_key: Option<Vec<i32>>,
}

pub struct ImageView {
    pub width: u32,
    pub height: u32,
    pub color_space: ColorSpaceView,
    pub encoding: Encoding,
    pub data: Seq<u8>,
    pub alpha: Option<Seq<u8>>,
    pub color_key: Option<Seq<i32>>,
}

impl View for Image {
    type V = ImageView;

    open spec fn view(&self) -> ImageView {
        ImageView {
            width: self.width,
            height: self.height,
            color_space: self.color_space@,
            encoding: self.encoding,
            data: self.data@,
            alpha: match self.alpha {
                Some(alpha) => Some(alpha@),
                None => None,
            },
            color_key: match self.color_key {
                Some(key) => Some(key@),
                None => None,
            },
        }
    }
}

/// Each side 1 to 65535 pixels.
pub open spec fn dimensions_ok(width: u32, height: u32) -> bool {
    width != 0 && height != 0 && width <= MAX_DIMENSION && height <= MAX_DIMENSION
}

pub fn dimensions(width: u32, height: u32) -> (checked: Result<(u32, u32), ImageError>)
    ensures
        checked == if dimensions_ok(width, height) {
            Ok::<(u32, u32), ImageError>((width, height))
        } else {
            Err(ImageError::Dimensions(width, height))
        },
{
    if width == 0 || height == 0 || width > MAX_DIMENSION || height > MAX_DIMENSION {
        return Err(ImageError::Dimensions(width, height));
    }
    Ok((width, height))
}

/// What a JPEG frame header tells: width, height, colour space and Adobe inversion.
pub struct JpegFrame {
    pub width: u32,
    pub height: u32,
    pub components: u8,
    pub inverted: bool,
}

/// SOF0 to SOF2 (baseline, extended and progressive Huffman) frame header
/// contents, given whether an Adobe APP14 segment came first.
pub open spec fn jpeg_frame(segment: Seq<u8>, adobe: bool) -> Result<JpegFrame, ImageError> {
    if segment.len() < 6 {
        Err(ImageError::TruncatedFrameHeader)
    } else if segment[0] != 8 {
        Err(ImageError::JpegPrecision(segment[0]))
    } else {
        let height = read_u16(segment, 1) as u32;
        let width = read_u16(segment, 3) as u32;
        if height == 0 {
            Err(ImageError::DnlHeight)
        } else if !(segment[5] == 1 || segment[5] == 3 || segment[5] == 4) {
            Err(ImageError::JpegComponents(segment[5]))
        } else if !dimensions_ok(width, height) {
            Err(ImageError::Dimensions(width, height))
        } else {
            Ok(JpegFrame { width, height, components: segment[5], inverted: adobe && segment[5] == 4 })
        }
    }
}

/// Marker codes of the JPEG processes the PDF `/DCTDecode` filter does not take:
/// lossless, hierarchical and arithmetic-coded frames.
pub open spec fn unsupported_process(code: u8) -> bool {
    code == 0xc3 || (0xc5 <= code <= 0xc7) || (0xc9 <= code <= 0xcb) || (0xcd <= code <= 0xcf)
}

/// Walks the marker segments from `offset` to the frame header; fill bytes and
/// standalone markers carry no length.
pub open spec fn jpeg_scan(bytes: Seq<u8>, offset: int, adobe: bool) -> Result<JpegFrame, ImageError>
    decreases bytes.len() - offset,
{
    if offset < 0 || offset >= bytes.len() || bytes[offset] != 0xff {
        Err(ImageError::InvalidJpegMarker)
    } else if offset + 1 >= bytes.len() {
        Err(ImageError::TruncatedJpeg)
    } else {
        let code = bytes[offset + 1];
        let after = offset + 2;
        if code == 0xff {
            jpeg_scan(bytes, offset + 1, adobe)
        } else if code == 0x01 || (0xd0 <= code <= 0xd8) {
            jpeg_scan(bytes, after, adobe)
        } else if code == 0xd9 || code == 0xda {
            Err(ImageError::NoFrameHeader)
        } else if !fits(bytes, after, 2) {
            Err(ImageError::Truncated)
        } else {
            let length = read_u16(bytes, after);
            let end = after + if length < 2 { 2 } else { length };
            if end > bytes.len() {
                Err(ImageError::TruncatedJpeg)
            } else {
                let segment = bytes.subrange(after + 2, end);
                if 0xc0 <= code <= 0xc2 {
                    jpeg_frame(segment, adobe)
                } else if unsupported_process(code) {
                    Err(ImageError::UnsupportedJpegProcess)
                } else {
                    let is_adobe = code == 0xee && segment.len() >= 5 && segment.take(5) == seq![0x41u8, 0x64u8, 0x6fu8, 0x62u8, 0x65u8];
                    jpeg_scan(bytes, after + length, adobe || is_adobe)
                }
            }
        }
    }
}

/// Somewhere in `bytes` an APP14 marker (FF EE) is followed, past its
/// two length bytes, by the identifier "Adobe".
pub open spec fn has_adobe_marker(bytes: Seq<u8>) -> bool {
    exists|at: int|
        0 <= at && at + 9 <= bytes.len() && #[trigger] bytes[at] == 0xff && bytes[at + 1] == 0xee && bytes[at + 4]
            == 0x41 && bytes[at + 5] == 0x64 && bytes[at + 6] == 0x6f && bytes[at + 7] == 0x62 && bytes[at + 8] == 0x65
}

/// A frame the marker walk reaches is marked inverted only when it has four
/// components (CMYK) and an Adobe APP14 segment came before it; a CMYK frame
/// after an Adobe segment always is.
pub proof fn lemma_jpeg_scan_inversion(bytes: Seq<u8>, offset: int, adobe: bool)
    ensures
        jpeg_scan(bytes, offset, adobe) matches Ok(frame) ==> {
            &&& frame.components == 1 || frame.components == 3 || frame.components == 4
            &&& frame.inverted ==> frame.components == 4
            &&& frame.inverted ==> adobe || has_adobe_marker(bytes)
            &&& adobe && frame.components == 4 ==> frame.inverted
        },
    decreases bytes.len() - offset,
{
    if !(offset < 0 || offset >= bytes.len() || bytes[offset] != 0xff) && offset + 1 < bytes.len() {
        let code = bytes[offset + 1];
        let after = offset + 2;
        if code == 0xff {
            lemma_jpeg_scan_inversion(bytes, offset + 1, adobe);
        } else if code == 0x01 || (0xd0 <= code <= 0xd8) {
            lemma_jpeg_scan_inversion(bytes, after, adobe);
        } else if !(code == 0xd9 || code == 0xda) && fits(bytes, after, 2) {
            let length = read_u16(bytes, after);
            let end = after + if length < 2 { 2 } else { length };
            if end <= bytes.len() && !(0xc0 <= code <= 0xc2) && !unsupported_process(code) {
                let segment = bytes.subrange(after + 2, end);
                let is_adobe = code == 0xee && segment.len() >= 5 && segment.take(5) == seq![0x41u8, 0x64u8, 0x6fu8, 0x62u8, 0x65u8];
                if is_adobe {
                    assert(segment.take(5)[0] == bytes[offset + 4] && segment.take(5)[1] == bytes[offset + 5]
                        && segment.take(5)[2] == bytes[offset + 6] && segment.take(5)[3] == bytes[offset + 7]
                        && segment.take(5)[4] == bytes[offset + 8]);
                    assert(bytes[offset] == 0xff);
                    assert(has_adobe_marker(bytes));
                }
                lemma_jpeg_scan_inversion(bytes, after + length, adobe || is_adobe);
            }
        }
    }
}

/// Only a CMYK JPEG carrying an Adobe APP14 segment is ever painted
/// inverted: a greyscale or RGB JPEG is taken as stored, whatever APP14
/// segment it carries.
pub proof fn lemma_jpeg_inversion(bytes: Seq<u8>)
    ensures
        jpeg_image(bytes) matches Ok(view) ==> (view.encoding == (Encoding::Dct { inverted: true })
            ==> view.color_space == ColorSpaceView::Cmyk && has_adobe_marker(bytes)),
{
    lemma_jpeg_scan_inversion(bytes, 2, false);
}

/// The JPEG an image holds: the file passes through whole, with the frame's size and colour space.
pub open spec fn jpeg_image(bytes: Seq<u8>) -> Result<ImageView, ImageError> {
    match jpeg_scan(bytes, 2, false) {
        Err(error) => Err(error),
        Ok(frame) => Ok(
            ImageView {
                width: frame.width,
                height: frame.height,
                color_space: if frame.components == 1 {
                    ColorSpaceView::Gray
                } else if frame.components == 3 {
                    ColorSpaceView::Rgb
                } else {
                    ColorSpaceView::Cmyk
                },
                encoding: Encoding::Dct { inverted: frame.inverted },
                data: bytes,
                alpha: None,
                color_key: None,
            },
        ),
    }
}

/// Walks the marker segments up to the frame header; `/DCTDecode` reads the rest.
fn jpeg(bytes: Vec<u8>) -> (parsed: Result<Image, ImageError>)
    ensures
        match jpeg_image(bytes@) {
            Ok(view) => parsed matches Ok(image) && image@ == view,
            Err(error) => parsed == Err::<Image, ImageError>(error),
        },
{
    let mut offset: usize = 2;
    let mut adobe = false;
    loop
        invariant
            2 <= offset,
            jpeg_scan(bytes@, 2, false) == jpeg_scan(bytes@, offset as int, adobe),
        decreases bytes@.len() - offset,
    {
        if offset >= bytes.len() || bytes[offset] != 0xff {
            return Err(ImageError::InvalidJpegMarker);
        }
        if offset + 1 >= bytes.len() {
            return Err(ImageError::TruncatedJpeg);
        }
        let code = bytes[offset + 1];
        if code == 0xff {
            offset += 1;
            continue;
        }
        let after = offset + 2;
        if code == 0x01 || (0xd0 <= code && code <= 0xd8) {
            offset = after;
            continue;
        }
        if code == 0xd9 || code == 0xda {
            return Err(ImageError::NoFrameHeader);
        }
        let length = match u16_at(bytes.as_slice(), after) {
            Some(length) => length as usize,
            None => return Err(ImageError::Truncated),
        };
        let span = if length < 2 { 2 } else { length };
        if span > bytes.len() - after {
            return Err(ImageError::TruncatedJpeg);
        }
        let end = after + span;
        let segment = &bytes.as_slice()[after + 2..end];
        if 0xc0 <= code && code <= 0xc2 {
            if segment.len() < 6 {
                return Err(ImageError::TruncatedFrameHeader);
            }
            if segment[0] != 8 {
                return Err(ImageError::JpegPrecision(segment[0]));
            }
            let height = segment[1] as u32 * 256 + segment[2] as u32;
            let width = segment[3] as u32 * 256 + segment[4] as u32;
            if height == 0 {
                return Err(ImageError::DnlHeight);
            }
            let components = segment[5];
            let color_space = if components == 1 {
                ColorSpace::Gray
            } else if components == 3 {
                ColorSpace::Rgb
            } else if components == 4 {
                ColorSpace::Cmyk
            } else {
                return Err(ImageError::JpegComponents(components));
            };
            let (width, height) = match dimensions(width, height) {
                Ok(size) => size,
                Err(error) => return Err(error),
            };
            let inverted = adobe && components == 4;
            return Ok(Image {
                width,
                height,
                color_space,
                encoding: Encoding::Dct { inverted },
                data: bytes,
                alpha: None,
                color_key: None,
            });
        }
        if code == 0xc3 || (0xc5 <= code && code <= 0xc7) || (0xc9 <= code && code <= 0xcb) || (0xcd <= code
            && code <= 0xcf) {
            return Err(ImageError::UnsupportedJpegProcess);
        }
        if code == 0xee && segment.len() >= 5 && segment[0] == 0x41 && segment[1] == 0x64 && segment[2] == 0x6f
            && segment[3] == 0x62 && segment[4] == 0x65 {
            assert(segment@.take(5) =~= seq![0x41u8, 0x64u8, 0x6fu8, 0x62u8, 0x65u8]);
            adobe = true;
        } else {
            proof {
                if code == 0xee && segment@.len() >= 5 && segment@.take(5) == seq![0x41u8, 0x64u8, 0x6fu8, 0x62u8, 0x65u8] {
                    assert(segment@.take(5)[0] == 0x41u8);
                    assert(segment@.take(5)[1] == 0x64u8);
                    assert(segment@.take(5)[2] == 0x6fu8);
                    assert(segment@.take(5)[3] == 0x62u8);
                    assert(segment@.take(5)[4] == 0x65u8);
                }
            }
        }
        offset = after + length;
    }
}

/// The chunks a PNG scan gathers: the header fields, the last palette and
/// transparency chunks, and the concatenated image data.
pub struct PngChunks {
    pub header: Option<(u32, u32, u8, u8)>,
    pub palette: Option<Seq<u8>>,
    pub transparency: Option<Seq<u8>>,
    pub idat: Seq<u8>,
}

pub open spec fn ihdr_tag() -> Seq<u8> { seq![0x49u8, 0x48u8, 0x44u8, 0x52u8] }
pub open spec fn plte_tag() -> Seq<u8> { seq![0x50u8, 0x4cu8, 0x54u8, 0x45u8] }
pub open spec fn trns_tag() -> Seq<u8> { seq![0x74u8, 0x52u8, 0x4eu8, 0x53u8] }
pub open spec fn idat_tag() -> Seq<u8> { seq![0x49u8, 0x44u8, 0x41u8, 0x54u8] }
pub open spec fn iend_tag() -> Seq<u8> { seq![0x49u8, 0x45u8, 0x4eu8, 0x44u8] }

/// One chunk's contribution to what the scan has gathered.
pub open spec fn png_chunk(kind: Seq<u8>, data: Seq<u8>, found: PngChunks) -> Result<PngChunks, ImageError> {
    if kind == ihdr_tag() {
        if data.len() != 13 {
            Err(ImageError::InvalidPngHeader)
        } else if data[12] != 0 {
            Err(ImageError::Interlaced)
        } else {
            Ok(PngChunks {
                header: Some((read_u32(data, 0) as u32, read_u32(data, 4) as u32, data[8], data[9])),
                ..found
            })
        }
    } else if kind == plte_tag() {
        Ok(PngChunks { palette: Some(data), ..found })
    } else if kind == trns_tag() {
        Ok(PngChunks { transparency: Some(data), ..found })
    } else if kind == idat_tag() {
        Ok(PngChunks { idat: found.idat + data, ..found })
    } else {
        Ok(found)
    }
}

/// Walks the chunks from `offset` until IEND or the end of the bytes; CRCs are not checked.
pub open spec fn png_chunks(bytes: Seq<u8>, offset: int, found: PngChunks) -> Result<PngChunks, ImageError>
    decreases bytes.len() - offset,
{
    if offset < 0 || offset >= bytes.len() {
        Ok(found)
    } else if !fits(bytes, offset, 4) {
        Err(ImageError::Truncated)
    } else if offset + 8 > bytes.len() || offset + 8 + read_u32(bytes, offset) > bytes.len() {
        Err(ImageError::TruncatedPng)
    } else {
        let length = read_u32(bytes, offset);
        let kind = bytes.subrange(offset + 4, offset + 8);
        let data = bytes.subrange(offset + 8, offset + 8 + length);
        let next = offset + 12 + length;
        if kind == iend_tag() {
            Ok(found)
        } else {
            match png_chunk(kind, data, found) {
                Err(error) => Err(error),
                Ok(gathered) => if next >= bytes.len() {
                    Ok(gathered)
                } else {
                    png_chunks(bytes, next, gathered)
                },
            }
        }
    }
}

/// `[sample, sample]` per channel from a `tRNS` chunk's 16-bit samples.
pub open spec fn key_ranges(values: Seq<u8>, count: nat) -> Seq<i32>
    decreases count,
{
    if count == 0 {
        Seq::empty()
    } else {
        let sample = read_u16(values, 2 * (count - 1)) as i32;
        key_ranges(values, (count - 1) as nat).push(sample).push(sample)
    }
}

/// A `tRNS` chunk on a greyscale or RGB PNG holds one 16-bit sample per channel;
/// PDF colour-key masking takes `[min max]` per channel instead.
pub open spec fn spec_color_key(transparency: Option<Seq<u8>>, channels: nat) -> Result<Option<Seq<i32>>, ImageError> {
    match transparency {
        None => Ok(None),
        Some(values) => if values.len() != channels * 2 {
            Err(ImageError::InvalidTransparency)
        } else {
            Ok(Some(key_ranges(values, channels)))
        },
    }
}

fn color_key(transparency: Option<Vec<u8>>, channels: usize) -> (key: Result<Option<Vec<i32>>, ImageError>)
    requires
        channels <= 4,
    ensures
        match spec_color_key(
            match transparency {
                Some(values) => Some(values@),
                None => None,
            },
            channels as nat,
        ) {
            Ok(Some(ranges)) => key matches Ok(Some(found)) && found@ == ranges,
            Ok(None) => key matches Ok(None),
            Err(error) => key == Err::<Option<Vec<i32>>, ImageError>(error),
        },
{
    let values = match transparency {
        Some(values) => values,
        None => return Ok(None),
    };
    if values.len() != channels * 2 {
        return Err(ImageError::InvalidTransparency);
    }
    let mut ranges: Vec<i32> = Vec::new();
    let mut index: usize = 0;
    while index < channels
        invariant
            values@.len() == channels * 2,
            channels <= 4,
            index <= channels,
            ranges@ == key_ranges(values@, index as nat),
        decreases channels - index,
    {
        let sample = (values[2 * index] as u16 * 256 + values[2 * index + 1] as u16) as i32;
        ranges.push(sample);
        ranges.push(sample);
        index += 1;
    }
    Ok(Some(ranges))
}

/// The Paeth predictor: of left, up and upper-left, the one nearest to left + up - upper-left.
pub open spec fn spec_paeth(left: int, up: int, up_left: int) -> int {
    let estimate = left + up - up_left;
    let pa = if estimate >= left { estimate - left } else { left - estimate };
    let pb = if estimate >= up { estimate - up } else { up - estimate };
    let pc = if estimate >= up_left { estimate - up_left } else { up_left - estimate };
    if pa <= pb && pa <= pc {
        left
    } else if pb <= pc {
        up
    } else {
        up_left
    }
}

pub fn paeth(left: u8, up: u8, up_left: u8) -> (predicted: u8)
    ensures
        predicted == spec_paeth(left as int, up as int, up_left as int),
{
    let estimate = left as i16 + up as i16 - up_left as i16;
    let pa = if estimate >= left as i16 { estimate - left as i16 } else { left as i16 - estimate };
    let pb = if estimate >= up as i16 { estimate - up as i16 } else { up as i16 - estimate };
    let pc = if estimate >= up_left as i16 { estimate - up_left as i16 } else { up_left as i16 - estimate };
    if pa <= pb && pa <= pc {
        left
    } else if pb <= pc {
        up
    } else {
        up_left
    }
}

/// The reconstructed byte at position `at` of the unfiltered image: each row of
/// `stride` bytes follows its filter-type byte in `raw`, and filters 1 to 4
/// predict from the byte `bpp` to the left, the one above and the one above-left.
pub open spec fn unfiltered(raw: Seq<u8>, stride: int, bpp: int, at: int) -> int
    decreases at,
{
    if at < 0 || stride <= 0 {
        0
    } else {
        proof {
            lemma_split_position(at, stride);
        }
        let row = at / stride;
        let index = at % stride;
        let filter = raw[row * (stride + 1)];
        let source = raw[row * (stride + 1) + 1 + index];
        let left = if index >= bpp && bpp > 0 { unfiltered(raw, stride, bpp, at - bpp) } else { 0 };
        let up = if row > 0 { unfiltered(raw, stride, bpp, at - stride) } else { 0 };
        let up_left = if row > 0 && index >= bpp && bpp > 0 { unfiltered(raw, stride, bpp, at - stride - bpp) } else { 0 };
        let predicted = if filter == 1 {
            left
        } else if filter == 2 {
            up
        } else if filter == 3 {
            (left + up) / 2
        } else if filter == 4 {
            spec_paeth(left, up, up_left)
        } else {
            0
        };
        (source + predicted) % 256
    }
}

/// Every row names one of the five PNG filter types.
pub open spec fn filters_known(raw: Seq<u8>, stride: int, rows: int) -> bool {
    forall|row: int| 0 <= row < rows ==> #[trigger] raw[row * (stride + 1)] <= 4
}

pub open spec fn unfiltered_image(raw: Seq<u8>, stride: int, rows: int, bpp: int) -> Seq<u8> {
    Seq::new((rows * stride) as nat, |at: int| unfiltered(raw, stride, bpp, at) as u8)
}

pub proof fn lemma_split_position(at: int, stride: int)
    requires
        0 <= at,
        0 < stride,
    ensures
        at / stride >= 0,
        0 <= at % stride < stride,
        at % stride <= at,
        at / stride > 0 ==> at >= stride,
        at / stride > 0 ==> at >= stride + at % stride,
{
    vstd::arithmetic::div_mod::lemma_fundamental_div_mod(at, stride);
    assert(at / stride > 0 ==> stride * (at / stride) >= stride) by (nonlinear_arith)
        requires
            stride > 0,
    ;
}

proof fn lemma_position(at: int, row: int, index: int, stride: int)
    requires
        0 <= index < stride,
        0 <= row,
        at == row * stride + index,
    ensures
        at / stride == row,
        at % stride == index,
{
    vstd::arithmetic::div_mod::lemma_fundamental_div_mod_converse(at, stride, row, index);
}

/// A reconstructed byte is a byte: 0 to 255.
proof fn lemma_unfiltered_byte(raw: Seq<u8>, stride: int, bpp: int, at: int)
    ensures
        0 <= unfiltered(raw, stride, bpp, at) < 256,
{
}

/// PNG scanline reconstruction: each byte is its filtered byte plus the row
/// filter's prediction, modulo 256. The prediction reads the already
/// reconstructed byte `bpp` to the left (`a`) and the one directly above
/// (`b`), each 0 off the image: None predicts 0, Sub `a`, Up `b`, and Average
/// floor((a + b) / 2) with the sum taken whole, never wrapped, and Paeth
/// whichever of `a`, `b` and the byte above-left `c` is nearest a + b − c,
/// preferring `a`, then `b`.
pub proof fn lemma_unfilter_predictions(raw: Seq<u8>, stride: int, rows: int, bpp: int, row: int, index: int)
    requires
        1 <= stride,
        1 <= bpp,
        raw.len() == rows * (stride + 1),
        0 <= row < rows,
        0 <= index < stride,
    ensures
        ({
            let image = unfiltered_image(raw, stride, rows, bpp);
            let at = row * stride + index;
            let filter = raw[row * (stride + 1)];
            let filtered = raw[row * (stride + 1) + 1 + index] as int;
            let a: int = if index >= bpp { image[at - bpp] as int } else { 0 };
            let b: int = if row > 0 { image[at - stride] as int } else { 0 };
            let c: int = if row > 0 && index >= bpp { image[at - stride - bpp] as int } else { 0 };
            let near_a = if b >= c { b - c } else { c - b };
            let near_b = if a >= c { a - c } else { c - a };
            let near_c = if a + b >= 2 * c { a + b - 2 * c } else { 2 * c - a - b };
            let paeth = if near_a <= near_b && near_a <= near_c { a } else if near_b <= near_c { b } else { c };
            &&& image.len() == rows * stride
            &&& filter == 0 ==> image[at] as int == filtered
            &&& filter == 1 ==> image[at] as int == (filtered + a) % 256
            &&& filter == 2 ==> image[at] as int == (filtered + b) % 256
            &&& filter == 3 ==> image[at] as int == (filtered + (a + b) / 2) % 256
            &&& filter == 4 ==> image[at] as int == (filtered + paeth) % 256
        }),
{
    let at = row * stride + index;
    assert(at < rows * stride && at >= 0) by (nonlinear_arith)
        requires
            0 <= row < rows,
            0 <= index < stride,
            at == row * stride + index,
    ;
    assert(rows * stride >= 0) by (nonlinear_arith)
        requires
            0 <= row < rows,
            1 <= stride,
    ;
    lemma_position(at, row, index, stride);
    lemma_unfiltered_byte(raw, stride, bpp, at);
    lemma_unfiltered_byte(raw, stride, bpp, at - bpp);
    lemma_unfiltered_byte(raw, stride, bpp, at - stride);
    lemma_unfiltered_byte(raw, stride, bpp, at - stride - bpp);
    if row > 0 {
        assert(at - stride == (row - 1) * stride + index) by (nonlinear_arith)
            requires
                at == row * stride + index,
        ;
        assert((row - 1) * stride >= 0) by (nonlinear_arith)
            requires
                row >= 1,
                stride >= 1,
        ;
    }
}

/// Reverses the five PNG scanline filters; each row starts with its filter type.
fn unfilter(raw: &[u8], stride: usize, rows: usize, bpp: usize) -> (pixels: Result<Vec<u8>, ImageError>)
    requires
        1 <= stride,
        1 <= bpp <= 4,
        raw@.len() == rows * (stride + 1),
        rows * (stride + 1) <= MAX_DECODED_BYTES,
    ensures
        if filters_known(raw@, stride as int, rows as int) {
            pixels matches Ok(out) && out@ == unfiltered_image(raw@, stride as int, rows as int, bpp as int)
        } else {
            pixels == Err::<Vec<u8>, ImageError>(ImageError::UnknownFilter)
        },
{
    assert(rows * stride <= rows * (stride + 1)) by (nonlinear_arith);
    let total = rows * stride;
    let mut out: Vec<u8> = Vec::new();
    let mut row: usize = 0;
    let mut base: usize = 0;
    let mut source: usize = 0;
    while row < rows
        invariant
            1 <= stride,
            1 <= bpp <= 4,
            raw@.len() == rows * (stride + 1),
            raw@.len() <= MAX_DECODED_BYTES,
            total == rows * stride,
            total <= rows * (stride + 1),
            row <= rows,
            base == row * stride,
            source == row * (stride + 1),
            out@.len() == base,
            forall|at: int| 0 <= at < base ==> #[trigger] out@[at] == unfiltered(raw@, stride as int, bpp as int, at),
            forall|r: int| 0 <= r < row ==> #[trigger] raw@[r * (stride + 1)] <= 4,
        decreases rows - row,
    {
        assert(source + stride + 1 <= raw@.len() && base + stride <= total) by (nonlinear_arith)
            requires
                row < rows,
                source == row * (stride + 1),
                base == row * stride,
                raw@.len() == rows * (stride + 1),
                total == rows * stride,
        ;
        let filter = raw[source];
        if filter > 4 {
            proof {
                assert(!filters_known(raw@, stride as int, rows as int)) by {
                    assert(raw@[row * (stride + 1)] > 4);
                }
            }
            return Err(ImageError::UnknownFilter);
        }
        let mut index: usize = 0;
        while index < stride
            invariant
                1 <= stride,
                1 <= bpp <= 4,
                row < rows,
                base == row * stride,
                base + stride <= total,
                total <= MAX_DECODED_BYTES,
                raw@.len() <= MAX_DECODED_BYTES,
                source == row * (stride + 1),
                source + stride + 1 <= raw@.len(),
                filter == raw@[row * (stride + 1)],
                filter <= 4,
                index <= stride,
                out@.len() == base + index,
                forall|at: int| 0 <= at < base + index ==> #[trigger] out@[at] == unfiltered(raw@, stride as int, bpp as int, at),
            decreases stride - index,
        {
            let at = base + index;
            proof {
                lemma_position(at as int, row as int, index as int, stride as int);
                if row > 0 {
                    assert((row - 1) * stride == base - stride) by (nonlinear_arith)
                        requires base == row * stride;
                    lemma_position(at - stride, row - 1, index as int, stride as int);
                }
            }
            let left: u8 = if index >= bpp { out[at - bpp] } else { 0 };
            let up: u8 = if row > 0 { out[at - stride] } else { 0 };
            let up_left: u8 = if row > 0 && index >= bpp { out[at - stride - bpp] } else { 0 };
            let predicted: u8 = if filter == 0 {
                0
            } else if filter == 1 {
                left
            } else if filter == 2 {
                up
            } else if filter == 3 {
                ((left as u16 + up as u16) / 2) as u8
            } else {
                paeth(left, up, up_left)
            };
            let value = ((raw[source + 1 + index] as u16 + predicted as u16) % 256) as u8;
            out.push(value);
            index += 1;
        }
        assert((row + 1) * stride == base + stride && (row + 1) * (stride + 1) == source + stride + 1) by (nonlinear_arith)
            requires
                base == row * stride,
                source == row * (stride + 1),
        ;
        row += 1;
        base += stride;
        source += stride + 1;
    }
    assert(out@ =~= unfiltered_image(raw@, stride as int, rows as int, bpp as int));
    Ok(out)
}

/// Where a pixel's alpha comes from: a palette PNG's `tRNS` table indexed by
/// the pixel (opaque past its end), or one of the pixel's own samples.
pub enum AlphaSource<'a> {
    Palette(&'a [u8]),
    Channel(usize),
}

pub enum AlphaSourceView {
    Palette(Seq<u8>),
    Channel(int),
}

impl<'a> View for AlphaSource<'a> {
    type V = AlphaSourceView;

    open spec fn view(&self) -> AlphaSourceView {
        match self {
            AlphaSource::Palette(table) => AlphaSourceView::Palette(table@),
            AlphaSource::Channel(index) => AlphaSourceView::Channel(*index as int),
        }
    }
}

pub open spec fn alpha_of(pixel: Seq<u8>, source: AlphaSourceView) -> u8 {
    match source {
        AlphaSourceView::Palette(table) => if (pixel[0] as int) < table.len() { table[pixel[0] as int] } else { 255 },
        AlphaSourceView::Channel(index) => pixel[index],
    }
}

/// The first `color_len` samples of each `channels`-byte pixel from `at` on.
pub open spec fn color_plane(pixels: Seq<u8>, channels: int, color_len: int, at: int) -> Seq<u8>
    decreases pixels.len() - at,
{
    if at < 0 || channels <= 0 || at + channels > pixels.len() {
        Seq::empty()
    } else {
        pixels.subrange(at, at + color_len) + color_plane(pixels, channels, color_len, at + channels)
    }
}

/// The alpha of each `channels`-byte pixel from `at` on.
pub open spec fn alpha_plane(pixels: Seq<u8>, channels: int, source: AlphaSourceView, at: int) -> Seq<u8>
    decreases pixels.len() - at,
{
    if at < 0 || channels <= 0 || at + channels > pixels.len() {
        Seq::empty()
    } else {
        seq![alpha_of(pixels.subrange(at, at + channels), source)] + alpha_plane(pixels, channels, source, at + channels)
    }
}

/// Inflates and unfilters the scanlines, then splits every pixel into its
/// first `color_len` samples and its alpha; both planes are re-deflated.
pub open spec fn spec_split_alpha(
    idat: Seq<u8>,
    width: u32,
    height: u32,
    channels: int,
    color_len: int,
    source: AlphaSourceView,
) -> Result<(Seq<u8>, Seq<u8>), ImageError> {
    let stride = width * channels;
    if height * (stride + 1) > MAX_DECODED_BYTES {
        Err(ImageError::TooLarge)
    } else {
        match zlib_inflate(idat) {
            None => Err(ImageError::InvalidZlib),
            Some(raw) => if raw.len() != height * (stride + 1) {
                Err(ImageError::SizeMismatch)
            } else if !filters_known(raw, stride, height as int) {
                Err(ImageError::UnknownFilter)
            } else {
                let pixels = unfiltered_image(raw, stride, height as int, channels);
                Ok((zlib_deflate(color_plane(pixels, channels, color_len, 0)), zlib_deflate(alpha_plane(pixels, channels, source, 0))))
            },
        }
    }
}

fn split_alpha(
    idat: &[u8],
    width: u32,
    height: u32,
    channels: usize,
    color_len: usize,
    source: AlphaSource,
) -> (planes: Result<(Vec<u8>, Vec<u8>), ImageError>)
    requires
        1 <= width <= MAX_DIMENSION,
        1 <= height <= MAX_DIMENSION,
        1 <= channels <= 4,
        color_len <= channels,
        source matches AlphaSource::Channel(index) ==> index < channels,
    ensures
        match spec_split_alpha(idat@, width, height, channels as int, color_len as int, source@) {
            Ok((color, mask)) => planes matches Ok((c, m)) && c@ == color && m@ == mask,
            Err(error) => planes == Err::<(Vec<u8>, Vec<u8>), ImageError>(error),
        },
{
    assert(1 <= width as u64 * channels as u64 <= 262140) by (nonlinear_arith)
        requires
            1 <= width <= 65535,
            1 <= channels <= 4,
    ;
    let stride: u64 = width as u64 * channels as u64;
    assert(height as u64 * (stride + 1) <= 65535 * 262141) by (nonlinear_arith)
        requires
            height <= 65535,
            stride <= 262140,
    ;
    let expected: u64 = height as u64 * (stride + 1);
    if expected > MAX_DECODED_BYTES as u64 {
        return Err(ImageError::TooLarge);
    }
    let raw = match inflate(idat) {
        Some(raw) => raw,
        None => return Err(ImageError::InvalidZlib),
    };
    if raw.len() as u64 != expected {
        return Err(ImageError::SizeMismatch);
    }
    let pixels = match unfilter(raw.as_slice(), stride as usize, height as usize, channels) {
        Ok(pixels) => pixels,
        Err(error) => return Err(error),
    };
    let ghost all = pixels@;
    assert(pixels@.len() == height * stride);
    assert(height * stride <= height * (stride + 1)) by (nonlinear_arith);
    let mut color: Vec<u8> = Vec::new();
    let mut mask: Vec<u8> = Vec::new();
    let mut at: usize = 0;
    while at + channels <= pixels.len()
        invariant
            all == pixels@,
            1 <= channels <= 4,
            color_len <= channels,
            source matches AlphaSource::Channel(index) ==> index < channels,
            pixels@.len() <= MAX_DECODED_BYTES,
            at <= pixels@.len(),
            color@ + color_plane(all, channels as int, color_len as int, at as int) == color_plane(all, channels as int, color_len as int, 0),
            mask@ + alpha_plane(all, channels as int, source@, at as int) == alpha_plane(all, channels as int, source@, 0),
        decreases pixels@.len() - at,
    {
        let ghost color_before = color@;
        let ghost mask_before = mask@;
        let mut sample: usize = 0;
        while sample < color_len
            invariant
                at + channels <= pixels@.len(),
                pixels@.len() <= MAX_DECODED_BYTES,
                color_len <= channels,
                sample <= color_len,
                color@ == color_before + pixels@.subrange(at as int, at + sample),
            decreases color_len - sample,
        {
            color.push(pixels[at + sample]);
            assert(pixels@.subrange(at as int, at + sample + 1) =~= pixels@.subrange(at as int, at + sample).push(pixels@[at + sample]));
            sample += 1;
        }
        let alpha = match source {
            AlphaSource::Palette(table) => {
                let index = pixels[at] as usize;
                if index < table.len() { table[index] } else { 255 }
            },
            AlphaSource::Channel(index) => pixels[at + index],
        };
        assert(alpha == alpha_of(pixels@.subrange(at as int, at + channels), source@));
        mask.push(alpha);
        assert(color@ + color_plane(all, channels as int, color_len as int, (at + channels) as int) =~= color_before
            + color_plane(all, channels as int, color_len as int, at as int));
        assert(mask@ + alpha_plane(all, channels as int, source@, (at + channels) as int) =~= mask_before + alpha_plane(
            all, channels as int, source@, at as int));
        at += channels;
    }
    assert(color@ =~= color_plane(all, channels as int, color_len as int, 0));
    assert(mask@ =~= alpha_plane(all, channels as int, source@, 0));
    Ok((deflate(color.as_slice()), deflate(mask.as_slice())))
}

pub open spec fn no_chunks() -> PngChunks {
    PngChunks { header: None, palette: None, transparency: None, idat: Seq::empty() }
}

/// A colour type 0 or 2 image: IDAT passes through with `/Predictor 15`,
/// and a `tRNS` sample becomes a colour-key mask.
pub open spec fn passthrough(width: u32, height: u32, space: ColorSpaceView, idat: Seq<u8>, key: Option<Seq<i32>>) -> ImageView {
    ImageView {
        width,
        height,
        color_space: space,
        encoding: Encoding::FlatePredicted,
        data: idat,
        alpha: None,
        color_key: key,
    }
}

/// The image gathered PNG chunks describe: 8-bit samples only; greyscale, RGB
/// and untransparent palette images pass their IDAT through, alpha channels
/// and palette transparency split into an `/SMask`.
pub open spec fn png_from_chunks(chunks: PngChunks) -> Result<ImageView, ImageError> {
    match chunks.header {
        None => Err(ImageError::NoHeaderChunk),
        Some((width, height, depth, color_type)) => if depth != 8 {
            Err(ImageError::PngDepth(depth))
        } else if chunks.idat.len() == 0 {
            Err(ImageError::NoDataChunk)
        } else if !dimensions_ok(width, height) {
            Err(ImageError::Dimensions(width, height))
        } else if color_type == 0 || color_type == 2 {
            let space = if color_type == 0 { ColorSpaceView::Gray } else { ColorSpaceView::Rgb };
            match spec_color_key(chunks.transparency, if color_type == 0 { 1 } else { 3 }) {
                Err(error) => Err(error),
                Ok(key) => Ok(passthrough(width, height, space, chunks.idat, key)),
            }
        } else if color_type == 3 {
            match chunks.palette {
                None => Err(ImageError::NoPalette),
                Some(palette) => if palette.len() == 0 || palette.len() % 3 != 0 || palette.len() > 768 {
                    Err(ImageError::InvalidPalette)
                } else {
                    match chunks.transparency {
                        None => Ok(passthrough(width, height, ColorSpaceView::Indexed(palette), chunks.idat, None)),
                        Some(table) => match spec_split_alpha(chunks.idat, width, height, 1, 1, AlphaSourceView::Palette(table)) {
                            Err(error) => Err(error),
                            Ok((data, alpha)) => Ok(
                                ImageView {
                                    width,
                                    height,
                                    color_space: ColorSpaceView::Indexed(palette),
                                    encoding: Encoding::Flate,
                                    data,
                                    alpha: Some(alpha),
                                    color_key: None,
                                },
                            ),
                        },
                    }
                },
            }
        } else if color_type == 4 || color_type == 6 {
            let channels: int = if color_type == 4 { 2 } else { 4 };
            match spec_split_alpha(chunks.idat, width, height, channels, channels - 1, AlphaSourceView::Channel(channels - 1)) {
                Err(error) => Err(error),
                Ok((data, alpha)) => Ok(
                    ImageView {
                        width,
                        height,
                        color_space: if color_type == 4 { ColorSpaceView::Gray } else { ColorSpaceView::Rgb },
                        encoding: Encoding::Flate,
                        data,
                        alpha: Some(alpha),
                        color_key: None,
                    },
                ),
            }
        } else {
            Err(ImageError::UnknownColorType)
        },
    }
}

pub open spec fn png_image(bytes: Seq<u8>) -> Result<ImageView, ImageError> {
    match png_chunks(bytes, 8, no_chunks()) {
        Err(error) => Err(error),
        Ok(chunks) => png_from_chunks(chunks),
    }
}

pub open spec fn optional_bytes(bytes: Option<Vec<u8>>) -> Option<Seq<u8>> {
    match bytes {
        Some(found) => Some(found@),
        None => None,
    }
}

/// Appends `data` to `out`.
pub fn append_bytes(out: &mut Vec<u8>, data: &[u8])
    ensures
        final(out)@ == old(out)@ + data@,
{
    let mut index: usize = 0;
    while index < data.len()
        invariant
            index <= data@.len(),
            out@ == old(out)@ + data@.take(index as int),
        decreases data@.len() - index,
    {
        out.push(data[index]);
        assert(data@.take(index + 1) =~= data@.take(index as int).push(data@[index as int]));
        index += 1;
    }
    assert(data@.take(data@.len() as int) =~= data@);
}

/// An owned copy of `data`.
pub fn copy_bytes(data: &[u8]) -> (copy: Vec<u8>)
    ensures
        copy@ == data@,
{
    let mut copy: Vec<u8> = Vec::new();
    append_bytes(&mut copy, data);
    assert(copy@ =~= data@);
    copy
}

fn same_tag(kind: &[u8], tag: [u8; 4]) -> (same: bool)
    requires
        kind@.len() == 4,
    ensures
        same == (kind@ == tag@),
{
    let same = kind[0] == tag[0] && kind[1] == tag[1] && kind[2] == tag[2] && kind[3] == tag[3];
    proof {
        if same {
            assert(kind@ =~= tag@);
        } else if kind@ == tag@ {
            assert(kind@[0] == tag@[0] && kind@[1] == tag@[1] && kind@[2] == tag@[2] && kind@[3] == tag@[3]);
        }
    }
    same
}

fn png(bytes: Vec<u8>) -> (parsed: Result<Image, ImageError>)
    requires
        bytes@.len() >= 8,
    ensures
        match png_image(bytes@) {
            Ok(view) => parsed matches Ok(image) && image@ == view,
            Err(error) => parsed == Err::<Image, ImageError>(error),
        },
{
    let data = bytes.as_slice();
    let mut offset: usize = 8;
    let mut header: Option<(u32, u32, u8, u8)> = None;
    let mut palette: Option<Vec<u8>> = None;
    let mut transparency: Option<Vec<u8>> = None;
    let mut idat: Vec<u8> = Vec::new();
    assert(idat@ =~= Seq::<u8>::empty());
    let mut ended = false;
    while !ended && offset < data.len()
        invariant
            data@ == bytes@,
            8 <= offset,
            ({
                let current = PngChunks {
                    header,
                    palette: optional_bytes(palette),
                    transparency: optional_bytes(transparency),
                    idat: idat@,
                };
                if ended {
                    png_chunks(data@, 8, no_chunks()) == Ok::<PngChunks, ImageError>(current)
                } else {
                    png_chunks(data@, 8, no_chunks()) == png_chunks(data@, offset as int, current)
                }
            }),
        decreases if ended { 0int } else { data@.len() - offset + 1 },
    {
        let ghost before = PngChunks {
            header,
            palette: optional_bytes(palette),
            transparency: optional_bytes(transparency),
            idat: idat@,
        };
        let length = match u32_at(data, offset) {
            Some(length) => length as usize,
            None => return Err(ImageError::Truncated),
        };
        if data.len() - offset < 8 || length > data.len() - offset - 8 {
            return Err(ImageError::TruncatedPng);
        }
        let kind = &data[offset + 4..offset + 8];
        let chunk = &data[offset + 8..offset + 8 + length];
        let end = offset + 8 + length;
        if same_tag(kind, [0x49, 0x45, 0x4e, 0x44]) {
            assert([0x49u8, 0x45, 0x4e, 0x44]@ == iend_tag());
            ended = true;
        } else {
            if same_tag(kind, [0x49, 0x48, 0x44, 0x52]) {
                if chunk.len() != 13 {
                    return Err(ImageError::InvalidPngHeader);
                }
                if chunk[12] != 0 {
                    return Err(ImageError::Interlaced);
                }
                let width = chunk[0] as u32 * 0x1000000 + chunk[1] as u32 * 0x10000 + chunk[2] as u32 * 0x100
                    + chunk[3] as u32;
                let height = chunk[4] as u32 * 0x1000000 + chunk[5] as u32 * 0x10000 + chunk[6] as u32 * 0x100
                    + chunk[7] as u32;
                header = Some((width, height, chunk[8], chunk[9]));
            } else if same_tag(kind, [0x50, 0x4c, 0x54, 0x45]) {
                palette = Some(copy_bytes(chunk));
            } else if same_tag(kind, [0x74, 0x52, 0x4e, 0x53]) {
                transparency = Some(copy_bytes(chunk));
            } else if same_tag(kind, [0x49, 0x44, 0x41, 0x54]) {
                append_bytes(&mut idat, chunk);
            }
            assert(png_chunk(kind@, chunk@, before) == Ok::<PngChunks, ImageError>(PngChunks {
                header,
                palette: optional_bytes(palette),
                transparency: optional_bytes(transparency),
                idat: idat@,
            })) by {
                assert([0x49u8, 0x48, 0x44, 0x52]@ == ihdr_tag());
                assert([0x50u8, 0x4c, 0x54, 0x45]@ == plte_tag());
                assert([0x74u8, 0x52, 0x4e, 0x53]@ == trns_tag());
                assert([0x49u8, 0x44, 0x41, 0x54]@ == idat_tag());
                assert([0x49u8, 0x45, 0x4e, 0x44]@ == iend_tag());
            }
            if data.len() - end <= 4 {
                ended = true;
            } else {
                offset = end + 4;
            }
        }
    }
    let (width, height, depth, color_type) = match header {
        Some(found) => found,
        None => return Err(ImageError::NoHeaderChunk),
    };
    if depth != 8 {
        return Err(ImageError::PngDepth(depth));
    }
    if idat.len() == 0 {
        return Err(ImageError::NoDataChunk);
    }
    let (width, height) = match dimensions(width, height) {
        Ok(size) => size,
        Err(error) => return Err(error),
    };
    if color_type == 0 || color_type == 2 {
        let channels: usize = if color_type == 0 { 1 } else { 3 };
        let key = match color_key(transparency, channels) {
            Ok(key) => key,
            Err(error) => return Err(error),
        };
        return Ok(Image {
            width,
            height,
            color_space: if color_type == 0 { ColorSpace::Gray } else { ColorSpace::Rgb },
            encoding: Encoding::FlatePredicted,
            data: idat,
            alpha: None,
            color_key: key,
        });
    }
    if color_type == 3 {
        let palette = match palette {
            Some(palette) => palette,
            None => return Err(ImageError::NoPalette),
        };
        if palette.len() == 0 || palette.len() % 3 != 0 || palette.len() > 768 {
            return Err(ImageError::InvalidPalette);
        }
        return match transparency {
            None => Ok(Image {
                width,
                height,
                color_space: ColorSpace::Indexed(palette),
                encoding: Encoding::FlatePredicted,
                data: idat,
                alpha: None,
                color_key: None,
            }),
            Some(table) => match split_alpha(idat.as_slice(), width, height, 1, 1, AlphaSource::Palette(table.as_slice())) {
                Err(error) => Err(error),
                Ok((data, alpha)) => Ok(Image {
                    width,
                    height,
                    color_space: ColorSpace::Indexed(palette),
                    encoding: Encoding::Flate,
                    data,
                    alpha: Some(alpha),
                    color_key: None,
                }),
            },
        };
    }
    if color_type == 4 || color_type == 6 {
        let channels: usize = if color_type == 4 { 2 } else { 4 };
        return match split_alpha(idat.as_slice(), width, height, channels, channels - 1, AlphaSource::Channel(channels - 1)) {
            Err(error) => Err(error),
            Ok((data, alpha)) => Ok(Image {
                width,
                height,
                color_space: if color_type == 4 { ColorSpace::Gray } else { ColorSpace::Rgb },
                encoding: Encoding::Flate,
                data,
                alpha: Some(alpha),
                color_key: None,
            }),
        };
    }
    Err(ImageError::UnknownColorType)
}

pub open spec fn png_signature(bytes: Seq<u8>) -> bool {
    bytes.len() >= 8 && bytes.take(8) == seq![0x89u8, 0x50u8, 0x4eu8, 0x47u8, 0x0du8, 0x0au8, 0x1au8, 0x0au8]
}

pub open spec fn jpeg_signature(bytes: Seq<u8>) -> bool {
    bytes.len() >= 2 && bytes[0] == 0xff && bytes[1] == 0xd8
}

/// What `Image::parse` makes of `bytes`: PNG by its signature, JPEG by its start-of-image marker.
pub open spec fn spec_parse_image(bytes: Seq<u8>) -> Result<ImageView, ImageError> {
    if png_signature(bytes) {
        png_image(bytes)
    } else if jpeg_signature(bytes) {
        jpeg_image(bytes)
    } else {
        Err(ImageError::UnsupportedFormat)
    }
}

impl Image {
    /// Reads a PNG or JPEG's header chunks; the error names the unsupported feature.
    pub fn parse(bytes: Vec<u8>) -> (parsed: Result<Image, String>)
        ensures
            match spec_parse_image(bytes@) {
                Ok(view) => parsed matches Ok(image) && image@ == view,
                Err(error) => parsed matches Err(text) && text@ == image_message(error),
            },
    {
        match Image::parse_image(bytes) {
            Ok(image) => Ok(image),
            Err(error) => Err(error.message()),
        }
    }

    /// `parse` with the error as a value.
    pub fn parse_image(bytes: Vec<u8>) -> (parsed: Result<Image, ImageError>)
        ensures
            match spec_parse_image(bytes@) {
                Ok(view) => parsed matches Ok(image) && image@ == view,
                Err(error) => parsed == Err::<Image, ImageError>(error),
            },
    {
        let signature = bytes.len() >= 8 && bytes[0] == 0x89 && bytes[1] == 0x50 && bytes[2] == 0x4e && bytes[3] == 0x47
            && bytes[4] == 0x0d && bytes[5] == 0x0a && bytes[6] == 0x1a && bytes[7] == 0x0a;
        proof {
            if signature {
                assert(bytes@.take(8) =~= seq![0x89u8, 0x50u8, 0x4eu8, 0x47u8, 0x0du8, 0x0au8, 0x1au8, 0x0au8]);
            } else if png_signature(bytes@) {
                assert(bytes@.take(8)[0] == bytes@[0]);
                assert(bytes@.take(8)[1] == bytes@[1]);
                assert(bytes@.take(8)[2] == bytes@[2]);
                assert(bytes@.take(8)[3] == bytes@[3]);
                assert(bytes@.take(8)[4] == bytes@[4]);
                assert(bytes@.take(8)[5] == bytes@[5]);
                assert(bytes@.take(8)[6] == bytes@[6]);
                assert(bytes@.take(8)[7] == bytes@[7]);
            }
        }
        if signature {
            png(bytes)
        } else if bytes.len() >= 2 && bytes[0] == 0xff && bytes[1] == 0xd8 {
            jpeg(bytes)
        } else {
            Err(ImageError::UnsupportedFormat)
        }
    }
}

} // verus!
