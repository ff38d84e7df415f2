//! The TrueType table directory and the metrics the renderer needs.

use vstd::prelude::*;

use super::bytes::{fits, i16_at, read_i16, read_u16, read_u32, u16_at, u32_at};
use super::cmap::{disjoint_sorted, flattens, parse as parse_cmap, spec_collected, wf_ranges, Range};
use crate::text::{ascii_bytes, ascii_chars, ascii_string};

verus! {

/// Why a font was refused.
#[derive(Clone, Copy, Debug, PartialEq, Eq, Structural)]
pub enum FontError {
    /// A table, offset or value does not hold together.
    Invalid,
    /// No Unicode `cmap` subtable of format 4 or 12 maps any character.
    UnsupportedCmap,
}

pub open spec fn font_message(error: FontError) -> Seq<char> {
    match error {
        FontError::Invalid => "invalid TrueType font"@,
        FontError::UnsupportedCmap => "unsupported TrueType cmap"@,
    }
}

impl FontError {
    /// The message a caller sees.
    pub fn message(&self) -> (text: String)
        ensures
            text@ == font_message(*self),
    {
        match self {
            FontError::Invalid => "invalid TrueType font".to_owned(),
            FontError::UnsupportedCmap => "unsupported TrueType cmap".to_owned(),
        }
    }
}

fn invalid() -> (text: String)
    ensures
        text@ == font_message(FontError::Invalid),
{
    "invalid TrueType font".to_owned()
}

pub fn be_u16(bytes: &[u8], offset: usize) -> (value: Result<u16, String>)
    ensures
        match value {
            Ok(v) => fits(bytes@, offset as int, 2) && v as int == read_u16(bytes@, offset as int),
            Err(text) => !fits(bytes@, offset as int, 2) && text@ == font_message(FontError::Invalid),
        },
{
    match u16_at(bytes, offset) {
        Some(v) => Ok(v),
        None => Err(invalid()),
    }
}

pub fn be_i16(bytes: &[u8], offset: usize) -> (value: Result<i16, String>)
    ensures
        match value {
            Ok(v) => fits(bytes@, offset as int, 2) && v as int == read_i16(bytes@, offset as int),
            Err(text) => !fits(bytes@, offset as int, 2) && text@ == font_message(FontError::Invalid),
        },
{
    match i16_at(bytes, offset) {
        Some(v) => Ok(v),
        None => Err(invalid()),
    }
}

pub fn be_u32(bytes: &[u8], offset: usize) -> (value: Result<u32, String>)
    ensures
        match value {
            Ok(v) => fits(bytes@, offset as int, 4) && v as int == read_u32(bytes@, offset as int),
            Err(text) => !fits(bytes@, offset as int, 4) && text@ == font_message(FontError::Invalid),
        },
{
    match u32_at(bytes, offset) {
        Some(v) => Ok(v),
        None => Err(invalid()),
    }
}

/// Where the directory puts the table tagged `tag`, scanning records from
/// `index` on: the first record with that tag decides, and its offset and
/// length must lie inside the file.
pub open spec fn find_table(bytes: Seq<u8>, tag: Seq<u8>, index: nat, count: nat) -> Option<(int, int)>
    decreases count - index,
{
    if index >= count {
        None
    } else {
        let record: int = 12 + index as int * 16;
        if fits(bytes, record, 4) && bytes.subrange(record, record + 4) == tag {
            if fits(bytes, record + 8, 8) {
                let start = read_u32(bytes, record + 8);
                let length = read_u32(bytes, record + 12);
                if start + length <= bytes.len() {
                    Some((start, length))
                } else {
                    None
                }
            } else {
                None
            }
        } else {
            find_table(bytes, tag, index + 1, count)
        }
    }
}

/// The table tagged `tag`, as `ttf_table` finds it.
pub open spec fn table(bytes: Seq<u8>, tag: Seq<u8>) -> Option<Seq<u8>> {
    if fits(bytes, 4, 2) {
        match find_table(bytes, tag, 0, read_u16(bytes, 4) as nat) {
            Some((start, length)) => Some(bytes.subrange(start, start + length)),
            None => None,
        }
    } else {
        None
    }
}

/// The table tagged `wanted`, found through the first directory record that carries the tag.
pub fn ttf_table<'a>(bytes: &'a [u8], wanted: &[u8; 4]) -> (found: Result<&'a [u8], String>)
    ensures
        match table(bytes@, wanted@) {
            Some(data) => found matches Ok(slice) && slice@ == data,
            None => found matches Err(text) && text@ == font_message(FontError::Invalid),
        },
{
    let count = match u16_at(bytes, 4) {
        Some(count) => count as usize,
        None => return Err(invalid()),
    };
    let mut index: usize = 0;
    while index < count
        invariant
            fits(bytes@, 4, 2),
            count == read_u16(bytes@, 4),
            index <= count,
            find_table(bytes@, wanted@, 0, count as nat) == find_table(bytes@, wanted@, index as nat, count as nat),
        decreases count - index,
    {
        let record = 12 + index * 16;
        let matches = record <= bytes.len() && bytes.len() - record >= 4 && bytes[record] == wanted[0]
            && bytes[record + 1] == wanted[1] && bytes[record + 2] == wanted[2] && bytes[record + 3] == wanted[3];
        proof {
            if fits(bytes@, record as int, 4) {
                assert(matches == (bytes@.subrange(record as int, record + 4) =~= wanted@));
            }
        }
        if matches {
            let start = match u32_at(bytes, record + 8) {
                Some(v) => v as usize,
                None => {
                    assert(!fits(bytes@, record + 8, 8));
                    return Err(invalid());
                },
            };
            let length = match u32_at(bytes, record + 12) {
                Some(v) => v as usize,
                None => return Err(invalid()),
            };
            if start > bytes.len() || length > bytes.len() - start {
                return Err(invalid());
            }
            return Ok(&bytes[start..start + length]);
        }
        index += 1;
    }
    Err(invalid())
}

/// A byte a PostScript font name may hold: ASCII letters and digits, `-`, `_`, `.` and `+`.
pub open spec fn name_byte(code: int) -> bool {
    (0x30 <= code <= 0x39) || (0x41 <= code <= 0x5a) || (0x61 <= code <= 0x7a) || code == 0x2d || code
        == 0x5f || code == 0x2e || code == 0x2b
}

/// The name bytes of a one-byte (Mac Roman) string, in order.
pub open spec fn kept_bytes(data: Seq<u8>) -> Seq<u8>
    decreases data.len(),
{
    if data.len() == 0 {
        data
    } else if name_byte(data.last() as int) {
        kept_bytes(data.drop_last()).push(data.last())
    } else {
        kept_bytes(data.drop_last())
    }
}

/// The name bytes among the first `count` UTF-16BE code units of `data`: only
/// an ASCII unit decodes to an ASCII character, so the others all drop.
pub open spec fn kept_units(data: Seq<u8>, count: nat) -> Seq<u8>
    decreases count,
{
    if count == 0 {
        Seq::empty()
    } else {
        let unit = read_u16(data, 2 * (count - 1));
        if name_byte(unit) {
            kept_units(data, (count - 1) as nat).push(unit as u8)
        } else {
            kept_units(data, (count - 1) as nat)
        }
    }
}

/// At most 63 characters, the PostScript name limit.
pub open spec fn clipped(text: Seq<u8>) -> Seq<u8> {
    if text.len() > 63 {
        text.take(63)
    } else {
        text
    }
}

/// The preference of a name id: PostScript name, then full name, then family.
pub open spec fn name_rank(name_id: int) -> Option<int> {
    if name_id == 6 {
        Some(0)
    } else if name_id == 4 {
        Some(1)
    } else if name_id == 1 {
        Some(2)
    } else {
        None
    }
}

/// One `name` record: `None` aborts the scan (a read past the table), else
/// the best `(rank, text)` so far.
pub open spec fn name_step(name: Seq<u8>, strings: int, index: int, best: Option<(int, Seq<u8>)>) -> Option<
    Option<(int, Seq<u8>)>,
> {
    let record = 6 + index * 12;
    if !fits(name, record + 6, 2) {
        None
    } else {
        match name_rank(read_u16(name, record + 6)) {
            None => Some(best),
            Some(rank) => if best matches Some((previous, _)) && previous <= rank {
                Some(best)
            } else if !fits(name, record + 8, 4) {
                None
            } else {
                let start = strings + read_u16(name, record + 10);
                let length = read_u16(name, record + 8);
                if start + length > name.len() {
                    None
                } else {
                    let data = name.subrange(start, start + length);
                    let platform = read_u16(name, record);
                    let encoding = read_u16(name, record + 2);
                    if platform == 1 && encoding == 0 {
                        let text = clipped(kept_bytes(data));
                        if text.len() > 0 { Some(Some((rank, text))) } else { Some(best) }
                    } else if platform == 0 || (platform == 3 && (encoding == 1 || encoding == 10)) {
                        let text = clipped(kept_units(data, (data.len() / 2) as nat));
                        if text.len() > 0 { Some(Some((rank, text))) } else { Some(best) }
                    } else {
                        Some(best)
                    }
                }
            },
        }
    }
}

pub open spec fn name_scan(name: Seq<u8>, strings: int, count: nat) -> Option<Option<(int, Seq<u8>)>>
    decreases count,
{
    if count == 0 {
        Some(None)
    } else {
        match name_scan(name, strings, (count - 1) as nat) {
            None => None,
            Some(best) => name_step(name, strings, count - 1, best),
        }
    }
}

/// nameID 6 (PostScript), else 4 (full) or 1 (family), reduced to the
/// characters a PostScript name allows; among records of one rank the first
/// nonempty one wins.
pub open spec fn spec_postscript_name(name: Seq<u8>) -> Option<Seq<u8>> {
    if !fits(name, 2, 4) {
        None
    } else {
        match name_scan(name, read_u16(name, 4), read_u16(name, 2) as nat) {
            Some(Some((_, text))) => Some(text),
            _ => None,
        }
    }
}

proof fn lemma_kept_ascii(data: Seq<u8>)
    ensures
        ascii_bytes(kept_bytes(data)),
    decreases data.len(),
{
    if data.len() > 0 {
        lemma_kept_ascii(data.drop_last());
    }
}

proof fn lemma_units_ascii(data: Seq<u8>, count: nat)
    ensures
        ascii_bytes(kept_units(data, count)),
    decreases count,
{
    if count > 0 {
        lemma_units_ascii(data, (count - 1) as nat);
    }
}

proof fn lemma_clipped_ascii(text: Seq<u8>)
    requires
        ascii_bytes(text),
    ensures
        ascii_bytes(clipped(text)),
        clipped(text).len() <= 63,
{
}

proof fn lemma_name_scan_ascii(name: Seq<u8>, strings: int, count: nat)
    requires
        0 <= strings,
    ensures
        name_scan(name, strings, count) matches Some(Some((_, text))) ==> ascii_bytes(text) && text.len() <= 63,
    decreases count,
{
    if count > 0 {
        lemma_name_scan_ascii(name, strings, (count - 1) as nat);
        let record = 6 + (count - 1) * 12;
        if fits(name, record + 8, 4) {
            let start = strings + read_u16(name, record + 10);
            let length = read_u16(name, record + 8);
            if start + length <= name.len() && 0 <= start {
                let data = name.subrange(start, start + length);
                lemma_kept_ascii(data);
                lemma_units_ascii(data, (data.len() / 2) as nat);
                lemma_clipped_ascii(kept_bytes(data));
                lemma_clipped_ascii(kept_units(data, (data.len() / 2) as nat));
            }
        }
    }
}

fn name_bytes(data: &[u8], utf16: bool) -> (text: Vec<u8>)
    ensures
        text@ == clipped(if utf16 { kept_units(data@, (data@.len() / 2) as nat) } else { kept_bytes(data@) }),
{
    let mut text: Vec<u8> = Vec::new();
    if utf16 {
        let units = data.len() / 2;
        let mut index: usize = 0;
        let mut at: usize = 0;
        while index < units
            invariant
                units == data@.len() / 2,
                index <= units,
                at == 2 * index,
                text@ == kept_units(data@, index as nat),
            decreases units - index,
        {
            let unit = data[at] as u16 * 256 + data[at + 1] as u16;
            if (0x30 <= unit && unit <= 0x39) || (0x41 <= unit && unit <= 0x5a) || (0x61 <= unit && unit <= 0x7a)
                || unit == 0x2d || unit == 0x5f || unit == 0x2e || unit == 0x2b {
                text.push(unit as u8);
            }
            index += 1;
            at += 2;
        }
    } else {
        let mut index: usize = 0;
        while index < data.len()
            invariant
                index <= data@.len(),
                text@ == kept_bytes(data@.take(index as int)),
            decreases data@.len() - index,
        {
            let byte = data[index];
            assert(data@.take(index + 1).drop_last() =~= data@.take(index as int));
            if (0x30 <= byte && byte <= 0x39) || (0x41 <= byte && byte <= 0x5a) || (0x61 <= byte && byte <= 0x7a)
                || byte == 0x2d || byte == 0x5f || byte == 0x2e || byte == 0x2b {
                text.push(byte);
            }
            index += 1;
        }
        assert(data@.take(data@.len() as int) =~= data@);
    }
    if text.len() > 63 {
        text.truncate(63);
        assert(text@ =~= clipped(if utf16 { kept_units(data@, (data@.len() / 2) as nat) } else { kept_bytes(data@) }));
    }
    text
}

proof fn lemma_name_scan_stuck(name: Seq<u8>, strings: int, stuck: nat, count: nat)
    requires
        name_scan(name, strings, stuck) is None,
        stuck <= count,
    ensures
        name_scan(name, strings, count) is None,
    decreases count - stuck,
{
    if stuck < count {
        lemma_name_scan_stuck(name, strings, stuck, (count - 1) as nat);
    }
}

/// nameID 6 (PostScript), else 4 (full) or 1 (family), reduced to the characters a PostScript name allows.
pub fn postscript_name(name: &[u8]) -> (found: Option<String>)
    ensures
        match spec_postscript_name(name@) {
            Some(text) => found matches Some(s) && s@ == ascii_chars(text),
            None => found is None,
        },
{
    let count = match u16_at(name, 2) {
        Some(count) => count as usize,
        None => return None,
    };
    let strings = match u16_at(name, 4) {
        Some(strings) => strings as usize,
        None => return None,
    };
    let mut best: Option<(u8, Vec<u8>)> = None;
    let mut index: usize = 0;
    while index < count
        invariant
            fits(name@, 2, 4),
            count == read_u16(name@, 2),
            strings == read_u16(name@, 4),
            index <= count,
            name_scan(name@, strings as int, index as nat) == Some(
                match best {
                    Some((rank, text)) => Some((rank as int, text@)),
                    None => None::<(int, Seq<u8>)>,
                },
            ),
        decreases count - index,
    {
        let record = 6 + index * 12;
        let name_id = match u16_at(name, record + 6) {
            Some(id) => id,
            None => {
                proof { lemma_name_scan_stuck(name@, strings as int, (index + 1) as nat, count as nat); }
                return None;
            },
        };
        let rank: u8 = if name_id == 6 {
            0
        } else if name_id == 4 {
            1
        } else if name_id == 1 {
            2
        } else {
            index += 1;
            continue;
        };
        let better = match &best {
            Some((previous, _)) => rank < *previous,
            None => true,
        };
        if !better {
            index += 1;
            continue;
        }
        let (length, offset) = match (u16_at(name, record + 8), u16_at(name, record + 10)) {
            (Some(length), Some(offset)) => (length as usize, offset as usize),
            _ => {
                proof { lemma_name_scan_stuck(name@, strings as int, (index + 1) as nat, count as nat); }
                return None;
            },
        };
        let start = strings + offset;
        if start > name.len() || length > name.len() - start {
            proof { lemma_name_scan_stuck(name@, strings as int, (index + 1) as nat, count as nat); }
            return None;
        }
        let data = &name[start..start + length];
        let platform = name[record] as u16 * 256 + name[record + 1] as u16;
        let encoding = name[record + 2] as u16 * 256 + name[record + 3] as u16;
        let text = if platform == 1 && encoding == 0 {
            name_bytes(data, false)
        } else if platform == 0 || (platform == 3 && (encoding == 1 || encoding == 10)) {
            name_bytes(data, true)
        } else {
            index += 1;
            continue;
        };
        if text.len() > 0 {
            best = Some((rank, text));
        }
        index += 1;
    }
    proof { lemma_name_scan_ascii(name@, strings as int, count as nat); }
    match best {
        Some((_, text)) => Some(ascii_string(text)),
        None => None,
    }
}

pub open spec fn head_tag() -> Seq<u8> { seq![0x68u8, 0x65u8, 0x61u8, 0x64u8] }
pub open spec fn hhea_tag() -> Seq<u8> { seq![0x68u8, 0x68u8, 0x65u8, 0x61u8] }
pub open spec fn hmtx_tag() -> Seq<u8> { seq![0x68u8, 0x6du8, 0x74u8, 0x78u8] }
pub open spec fn maxp_tag() -> Seq<u8> { seq![0x6du8, 0x61u8, 0x78u8, 0x70u8] }
pub open spec fn cmap_tag() -> Seq<u8> { seq![0x63u8, 0x6du8, 0x61u8, 0x70u8] }
pub open spec fn os2_tag() -> Seq<u8> { seq![0x4fu8, 0x53u8, 0x2fu8, 0x32u8] }
pub open spec fn name_tag() -> Seq<u8> { seq![0x6eu8, 0x61u8, 0x6du8, 0x65u8] }

/// The TrueType signature, the tables every font needs, a nonzero em and a
/// metrics count the `hmtx` table and the glyph count can hold.
pub open spec fn structure_ok(bytes: Seq<u8>) -> bool {
    &&& bytes.len() >= 4 && bytes[0] == 0 && bytes[1] == 1 && bytes[2] == 0 && bytes[3] == 0
    &&& table(bytes, head_tag()) is Some && table(bytes, hhea_tag()) is Some && table(bytes, hmtx_tag()) is Some
    &&& table(bytes, maxp_tag()) is Some && table(bytes, cmap_tag()) is Some
    &&& fits(table(bytes, head_tag()).unwrap(), 18, 2) && read_u16(table(bytes, head_tag()).unwrap(), 18) != 0
    &&& fits(table(bytes, hhea_tag()).unwrap(), 34, 2) && fits(table(bytes, maxp_tag()).unwrap(), 4, 2)
    &&& metric_count(bytes) != 0 && metric_count(bytes) <= glyphs_in(bytes)
    &&& table(bytes, hmtx_tag()).unwrap().len() >= metric_count(bytes) * 4
}

pub open spec fn metric_count(bytes: Seq<u8>) -> int {
    read_u16(table(bytes, hhea_tag()).unwrap(), 34)
}

pub open spec fn glyphs_in(bytes: Seq<u8>) -> int {
    read_u16(table(bytes, maxp_tag()).unwrap(), 4)
}

/// hhea's ascender, descender and line gap.
pub open spec fn hhea_metrics(bytes: Seq<u8>) -> (int, int, int) {
    let hhea = table(bytes, hhea_tag()).unwrap();
    (read_i16(hhea, 4), read_i16(hhea, 6), read_i16(hhea, 8))
}

/// A positive descender or no ascender would stack lines on one baseline;
/// then USE_TYPO_METRICS (fsSelection bit 7) picks the OS/2 typo metrics.
pub open spec fn uses_typo_metrics(bytes: Seq<u8>) -> bool {
    let (ascent, descent, _) = hhea_metrics(bytes);
    &&& table(bytes, os2_tag()) is Some
    &&& ascent <= 0 || descent > 0
    &&& fits(table(bytes, os2_tag()).unwrap(), 62, 2)
    &&& (read_u16(table(bytes, os2_tag()).unwrap(), 62) / 0x80) % 2 == 1
}

/// The vertical metrics the font is laid out with.
pub open spec fn vertical_metrics(bytes: Seq<u8>) -> (int, int, int) {
    if uses_typo_metrics(bytes) {
        let os2 = table(bytes, os2_tag()).unwrap();
        (read_i16(os2, 68), read_i16(os2, 70), read_i16(os2, 72))
    } else {
        hhea_metrics(bytes)
    }
}

/// The bounding box, hhea metrics and (when chosen) typo metrics are readable,
/// and the chosen metrics have an ascender above and a descender at or below the baseline.
pub open spec fn metrics_ok(bytes: Seq<u8>) -> bool {
    &&& fits(table(bytes, head_tag()).unwrap(), 36, 8)
    &&& fits(table(bytes, hhea_tag()).unwrap(), 4, 6)
    &&& uses_typo_metrics(bytes) ==> fits(table(bytes, os2_tag()).unwrap(), 68, 6)
    &&& vertical_metrics(bytes).0 > 0 && vertical_metrics(bytes).1 <= 0
}

/// Why `parse_font` refuses `bytes`, in the order the checks run; `None` when it accepts them.
pub open spec fn font_error(bytes: Seq<u8>) -> Option<FontError> {
    if !structure_ok(bytes) {
        Some(FontError::Invalid)
    } else {
        match spec_collected(table(bytes, cmap_tag()).unwrap(), glyphs_in(bytes) as u16) {
            Err(error) => Some(error),
            Ok(_) => if metrics_ok(bytes) { None } else { Some(FontError::Invalid) },
        }
    }
}

/// The advance width of glyph `gid` in font units: glyphs past the metrics
/// count share the last advance.
pub open spec fn advance_of(bytes: Seq<u8>, gid: int) -> int {
    let last = metric_count(bytes) - 1;
    read_u16(table(bytes, hmtx_tag()).unwrap(), (if gid < last { gid } else { last }) * 4)
}

/// OS/2 version 2 and later carry sCapHeight; only a positive one counts.
pub open spec fn cap_height_of(bytes: Seq<u8>) -> Option<int> {
    match table(bytes, os2_tag()) {
        Some(os2) => if fits(os2, 0, 2) && read_u16(os2, 0) >= 2 && fits(os2, 88, 2) && read_i16(os2, 88) > 0 {
            Some(read_i16(os2, 88))
        } else {
            None
        },
        None => None,
    }
}

/// The OS/2 weight class, 400 without one.
pub open spec fn weight_of(bytes: Seq<u8>) -> int {
    match table(bytes, os2_tag()) {
        Some(os2) => if fits(os2, 4, 2) { read_u16(os2, 4) } else { 400 },
        None => 400,
    }
}

/// The PostScript name from the `name` table, "FlashPDF" without one.
pub open spec fn name_of(bytes: Seq<u8>) -> Seq<char> {
    match table(bytes, name_tag()) {
        Some(name) => match spec_postscript_name(name) {
            Some(text) => ascii_chars(text),
            None => "FlashPDF"@,
        },
        None => "FlashPDF"@,
    }
}

/// A registered TrueType font as its tables give it, in font units.
pub struct TrueTypeFont {
    /// The whole font file, embedded or subset when the PDF is written.
    pub bytes: Vec<u8>,
    pub units_per_em: u16,
    pub glyph_count: u16,
    pub cmap: Vec<Range>,
    /// Advance per glyph id, in font units.
    pub advances: Vec<u16>,
    pub x_min: i16,
    pub y_min: i16,
    pub x_max: i16,
    pub y_max: i16,
    pub ascent: i16,
    pub descent: i16,
    /// The chosen line gap, zero when the font gives a negative one.
    pub line_gap: i16,
    /// The OS/2 cap height when it is positive, else the ascent.
    pub cap_height: i16,
    pub weight: u16,
    pub name: String,
}

/// Everything `parse_font` reads from `bytes` into `font`.
pub open spec fn describes(font: TrueTypeFont, bytes: Seq<u8>) -> bool {
    let head = table(bytes, head_tag()).unwrap();
    &&& font.bytes@ == bytes
    &&& font.units_per_em == read_u16(head, 18)
    &&& font.glyph_count == glyphs_in(bytes)
    &&& spec_collected(table(bytes, cmap_tag()).unwrap(), font.glyph_count) matches Ok(raw) && flattens(font.cmap@, raw)
    &&& font.advances@.len() == font.glyph_count
    &&& forall|gid: int| 0 <= gid < font.glyph_count ==> #[trigger] font.advances@[gid] == advance_of(bytes, gid)
    &&& font.x_min == read_i16(head, 36) && font.y_min == read_i16(head, 38)
    &&& font.x_max == read_i16(head, 40) && font.y_max == read_i16(head, 42)
    &&& font.ascent as int == vertical_metrics(bytes).0 && font.descent as int == vertical_metrics(bytes).1
    &&& font.line_gap as int == (if vertical_metrics(bytes).2 < 0 { 0 } else { vertical_metrics(bytes).2 })
    &&& font.cap_height as int == match cap_height_of(bytes) { Some(v) => v, None => vertical_metrics(bytes).0 }
    &&& font.weight == weight_of(bytes)
    &&& font.name@ == name_of(bytes)
}

fn table_or_invalid<'a>(bytes: &'a [u8], tag: &[u8; 4]) -> (found: Result<&'a [u8], FontError>)
    ensures
        match table(bytes@, tag@) {
            Some(data) => found matches Ok(slice) && slice@ == data,
            None => found == Err::<&[u8], FontError>(FontError::Invalid),
        },
{
    match ttf_table(bytes, tag) {
        Ok(found) => Ok(found),
        Err(_) => Err(FontError::Invalid),
    }
}

/// Reads a font's tables: signature, em size, glyph count, character map,
/// advances, bounding box, vertical metrics, cap height, weight and name.
pub fn parse_font(bytes: Vec<u8>) -> (parsed: Result<TrueTypeFont, String>)
    ensures
        match font_error(bytes@) {
            Some(error) => parsed matches Err(text) && text@ == font_message(error),
            None => parsed matches Ok(font) && describes(font, bytes@) && disjoint_sorted(font.cmap@)
                && wf_ranges(font.cmap@, font.glyph_count),
        },
{
    let data = bytes.as_slice();
    if data.len() < 4 || data[0] != 0 || data[1] != 1 || data[2] != 0 || data[3] != 0 {
        return Err(FontError::Invalid.message());
    }
    let head = match table_or_invalid(data, &[0x68, 0x65, 0x61, 0x64]) {
        Ok(found) => found,
        Err(error) => return Err(error.message()),
    };
    let hhea = match table_or_invalid(data, &[0x68, 0x68, 0x65, 0x61]) {
        Ok(found) => found,
        Err(error) => return Err(error.message()),
    };
    let hmtx = match table_or_invalid(data, &[0x68, 0x6d, 0x74, 0x78]) {
        Ok(found) => found,
        Err(error) => return Err(error.message()),
    };
    let maxp = match table_or_invalid(data, &[0x6d, 0x61, 0x78, 0x70]) {
        Ok(found) => found,
        Err(error) => return Err(error.message()),
    };
    let cmap_table = match table_or_invalid(data, &[0x63, 0x6d, 0x61, 0x70]) {
        Ok(found) => found,
        Err(error) => return Err(error.message()),
    };
    assert([0x68u8, 0x65, 0x61, 0x64]@ == head_tag());
    assert([0x68u8, 0x68, 0x65, 0x61]@ == hhea_tag());
    assert([0x68u8, 0x6d, 0x74, 0x78]@ == hmtx_tag());
    assert([0x6du8, 0x61, 0x78, 0x70]@ == maxp_tag());
    assert([0x63u8, 0x6d, 0x61, 0x70]@ == cmap_tag());
    let units_per_em = match u16_at(head, 18) {
        Some(units) => units,
        None => return Err(FontError::Invalid.message()),
    };
    if units_per_em == 0 {
        return Err(FontError::Invalid.message());
    }
    let metrics = match u16_at(hhea, 34) {
        Some(metrics) => metrics as usize,
        None => return Err(FontError::Invalid.message()),
    };
    let glyph_count = match u16_at(maxp, 4) {
        Some(glyphs) => glyphs,
        None => return Err(FontError::Invalid.message()),
    };
    if metrics == 0 || metrics > glyph_count as usize || hmtx.len() < metrics * 4 {
        return Err(FontError::Invalid.message());
    }
    assert(structure_ok(bytes@));
    let cmap = match parse_cmap(cmap_table, glyph_count) {
        Ok(ranges) => ranges,
        Err(text) => return Err(text),
    };
    let mut advances: Vec<u16> = Vec::new();
    let mut gid: usize = 0;
    while gid < glyph_count as usize
        invariant
            structure_ok(bytes@),
            hmtx@ == table(bytes@, hmtx_tag()).unwrap(),
            metrics == metric_count(bytes@),
            glyph_count == glyphs_in(bytes@),
            gid <= glyph_count,
            advances@.len() == gid,
            forall|g: int| 0 <= g < gid ==> #[trigger] advances@[g] == advance_of(bytes@, g),
        decreases glyph_count - gid,
    {
        let slot = if gid < metrics - 1 { gid } else { metrics - 1 };
        let advance = hmtx[slot * 4] as u16 * 256 + hmtx[slot * 4 + 1] as u16;
        advances.push(advance);
        gid += 1;
    }
    let (x_min, y_min, x_max, y_max) = match (i16_at(head, 36), i16_at(head, 38), i16_at(head, 40), i16_at(head, 42)) {
        (Some(a), Some(b), Some(c), Some(d)) => (a, b, c, d),
        _ => return Err(FontError::Invalid.message()),
    };
    let (hhea_ascent, hhea_descent, hhea_gap) = match (i16_at(hhea, 4), i16_at(hhea, 6), i16_at(hhea, 8)) {
        (Some(a), Some(d), Some(g)) => (a, d, g),
        _ => return Err(FontError::Invalid.message()),
    };
    let os2 = ttf_table(data, &[0x4f, 0x53, 0x2f, 0x32]);
    assert([0x4fu8, 0x53, 0x2f, 0x32]@ == os2_tag());
    let mut ascent = hhea_ascent;
    let mut descent = hhea_descent;
    let mut line_gap = hhea_gap;
    if let Ok(os2) = os2 {
        if hhea_ascent <= 0 || hhea_descent > 0 {
            if let Some(selection) = u16_at(os2, 62) {
                if (selection / 0x80) % 2 == 1 {
                    match (i16_at(os2, 68), i16_at(os2, 70), i16_at(os2, 72)) {
                        (Some(a), Some(d), Some(g)) => {
                            ascent = a;
                            descent = d;
                            line_gap = g;
                        },
                        _ => return Err(FontError::Invalid.message()),
                    }
                }
            }
        }
    }
    if ascent <= 0 || descent > 0 {
        return Err(FontError::Invalid.message());
    }
    let mut cap_height: i16 = ascent;
    let mut weight: u16 = 400;
    if let Ok(os2) = os2 {
        if let Some(version) = u16_at(os2, 0) {
            if version >= 2 {
                if let Some(value) = i16_at(os2, 88) {
                    if value > 0 {
                        cap_height = value;
                    }
                }
            }
        }
        if let Some(class) = u16_at(os2, 4) {
            weight = class;
        }
    }
    let name_table = ttf_table(data, &[0x6e, 0x61, 0x6d, 0x65]);
    assert([0x6eu8, 0x61, 0x6d, 0x65]@ == name_tag());
    let name = match name_table {
        Ok(table) => match postscript_name(table) {
            Some(name) => name,
            None => "FlashPDF".to_owned(),
        },
        Err(_) => "FlashPDF".to_owned(),
    };
    Ok(TrueTypeFont {
        bytes,
        units_per_em,
        glyph_count,
        cmap,
        advances,
        x_min,
        y_min,
        x_max,
        y_max,
        ascent,
        descent,
        line_gap: if line_gap < 0 { 0 } else { line_gap },
        cap_height,
        weight,
        name,
    })
}

} // verus!
