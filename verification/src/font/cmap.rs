//! TrueType `cmap` formats 4 and 12, flattened to sorted non-overlapping
//! ranges so a lookup is one binary search and the reverse map is one pass.

use vstd::prelude::*;

use super::bytes::{fits, read_u16, read_u32, u16_at, u32_at};
use super::subset::increasing;
use super::truetype::{font_message, FontError};
use crate::text::{char_from_code, is_scalar};

verus! {

/// Bounds the flattened table; Unicode has fewer than 2^18 assigned characters.
pub const MAX_RANGES: usize = 262144;

/// `start..=end` maps to consecutive glyphs from `gid`.
#[derive(Clone, Copy, Debug, PartialEq, Eq, Structural)]
pub struct Range {
    pub start: u32,
    pub end: u32,
    pub gid: u16,
}

/// A range of code points mapped to existing, nonzero glyphs.
pub open spec fn wf_range(range: Range, glyphs: u16) -> bool {
    &&& range.start <= range.end <= 0x10ffff
    &&& 1 <= range.gid
    &&& range.gid + (range.end - range.start) < glyphs
}

pub open spec fn wf_ranges(ranges: Seq<Range>, glyphs: u16) -> bool {
    forall|index: int| 0 <= index < ranges.len() ==> wf_range(#[trigger] ranges[index], glyphs)
}

/// `start` and `gid` continue `last` by one code point and one glyph.
pub open spec fn spec_follows(last: Range, start: u32, gid: u16) -> bool {
    start == last.end + 1 && last.gid + (last.end - last.start) + 1 == gid
}

/// Appends `start..=end -> gid`, extending the last range when it continues it.
pub open spec fn spec_push(ranges: Seq<Range>, start: u32, end: u32, gid: u16) -> Seq<Range> {
    if ranges.len() > 0 && spec_follows(ranges.last(), start, gid) {
        ranges.update(ranges.len() - 1, Range { start: ranges.last().start, end, gid: ranges.last().gid })
    } else {
        ranges.push(Range { start, end, gid })
    }
}

/// The glyph of `code` in the format 4 segment that starts at `start`, whose
/// `idRangeOffset` word sits at `slot`: `None` when the glyph array read falls
/// outside the subtable.
pub open spec fn f4_glyph(sub: Seq<u8>, slot: int, start: int, code: int, delta: int, range_offset: int) -> Option<int> {
    if range_offset == 0 {
        Some((code + delta) % 0x10000)
    } else {
        let at = slot + range_offset + (code - start) * 2;
        if fits(sub, at, 2) {
            let raw = read_u16(sub, at);
            if raw == 0 {
                Some(0)
            } else {
                Some((raw + delta) % 0x10000)
            }
        } else {
            None
        }
    }
}

/// A format 4 segment with a glyph-array offset maps code `code` through the
/// big-endian 16-bit entry 2·(code − start) bytes past `slot + range_offset`:
/// entry 0 means no glyph, any other gets idDelta added modulo 65536. So the
/// next code reads the entry two bytes further on. Without an offset the
/// glyph is the code plus idDelta, modulo 65536.
pub proof fn lemma_f4_glyph_array(sub: Seq<u8>, slot: int, start: int, code: int, delta: int, range_offset: int)
    ensures
        range_offset == 0 ==> f4_glyph(sub, slot, start, code, delta, range_offset) == Some((code + delta) % 65536),
        ({
            let at = slot + range_offset + 2 * (code - start);
            range_offset != 0 && 0 <= at && at + 2 <= sub.len() ==> f4_glyph(sub, slot, start, code, delta, range_offset) == Some(
                if sub[at] == 0 && sub[at + 1] == 0 {
                    0
                } else {
                    (sub[at] * 256 + sub[at + 1] + delta) % 65536
                },
            )
        }),
        ({
            let at = slot + range_offset + 2 * (code - start);
            range_offset != 0 && !(0 <= at && at + 2 <= sub.len()) ==> f4_glyph(sub, slot, start, code, delta, range_offset) is None
        }),
        range_offset != 0 ==> f4_glyph(sub, slot, start, code + 1, delta, range_offset) == f4_glyph(
            sub,
            slot + 2,
            start,
            code,
            delta,
            range_offset,
        ),
{
}

/// The ranges after the first `count` codes of a format 4 segment.
pub open spec fn f4_codes(
    sub: Seq<u8>,
    glyphs: u16,
    slot: int,
    start: int,
    delta: int,
    range_offset: int,
    count: nat,
    ranges: Seq<Range>,
) -> Option<Seq<Range>>
    decreases count,
{
    if count == 0 {
        Some(ranges)
    } else {
        match f4_codes(sub, glyphs, slot, start, delta, range_offset, (count - 1) as nat, ranges) {
            None => None,
            Some(before) => {
                let code = start + count - 1;
                match f4_glyph(sub, slot, start, code, delta, range_offset) {
                    None => None,
                    Some(gid) => if gid >= glyphs {
                        None
                    } else if gid != 0 {
                        Some(spec_push(before, code as u32, code as u32, gid as u16))
                    } else {
                        Some(before)
                    },
                }
            },
        }
    }
}

/// Format 4 segment `index` of `segments`, appended to `ranges`.
pub open spec fn f4_segment(sub: Seq<u8>, glyphs: u16, segments: int, index: int, ranges: Seq<Range>) -> Option<Seq<Range>> {
    let ends: int = 14;
    let starts = ends + segments * 2 + 2;
    let deltas = starts + segments * 2;
    let offsets = deltas + segments * 2;
    if fits(sub, ends + index * 2, 2) && fits(sub, starts + index * 2, 2) && fits(sub, deltas + index * 2, 2)
        && fits(sub, offsets + index * 2, 2) {
        let end = read_u16(sub, ends + index * 2);
        let start = read_u16(sub, starts + index * 2);
        let count = if start <= end { end - start + 1 } else { 0 };
        f4_codes(sub, glyphs, offsets + index * 2, start, read_u16(sub, deltas + index * 2),
            read_u16(sub, offsets + index * 2), count as nat, ranges)
    } else {
        None
    }
}

/// The ranges after the first `count` segments.
pub open spec fn f4_segments(sub: Seq<u8>, glyphs: u16, segments: int, count: nat, ranges: Seq<Range>) -> Option<Seq<Range>>
    decreases count,
{
    if count == 0 {
        Some(ranges)
    } else {
        match f4_segments(sub, glyphs, segments, (count - 1) as nat, ranges) {
            None => None,
            Some(before) => f4_segment(sub, glyphs, segments, count - 1, before),
        }
    }
}

/// A format 4 subtable (segment mapping to delta values) appended to `ranges`;
/// glyph 0 is skipped and a glyph past the font's count refuses the font.
pub open spec fn spec_format4(subtable: Seq<u8>, glyphs: u16, ranges: Seq<Range>) -> Option<Seq<Range>> {
    if !fits(subtable, 2, 2) || read_u16(subtable, 2) > subtable.len() {
        None
    } else {
        let sub = subtable.take(read_u16(subtable, 2));
        if !fits(sub, 6, 2) {
            None
        } else {
            let segments = read_u16(sub, 6) / 2;
            f4_segments(sub, glyphs, segments, segments as nat, ranges)
        }
    }
}

/// Format 12 group `group`, appended to `ranges`.
pub open spec fn f12_group(sub: Seq<u8>, glyphs: u16, group: int, ranges: Seq<Range>) -> Option<Seq<Range>> {
    let at = 16 + group * 12;
    if !fits(sub, at, 12) {
        None
    } else {
        let start = read_u32(sub, at);
        let end = read_u32(sub, at + 4);
        let gid = read_u32(sub, at + 8);
        if start > end || end > 0x10ffff {
            None
        } else if gid == 0 && start == end {
            Some(ranges)
        } else {
            let first = if gid == 0 { start + 1 } else { start };
            let glyph = if gid == 0 { 1 } else { gid };
            if glyph + (end - first) >= glyphs {
                None
            } else {
                Some(spec_push(ranges, first as u32, end as u32, glyph as u16))
            }
        }
    }
}

/// The ranges after the first `count` groups.
pub open spec fn f12_groups(sub: Seq<u8>, glyphs: u16, count: nat, ranges: Seq<Range>) -> Option<Seq<Range>>
    decreases count,
{
    if count == 0 {
        Some(ranges)
    } else {
        match f12_groups(sub, glyphs, (count - 1) as nat, ranges) {
            None => None,
            Some(before) => f12_group(sub, glyphs, count - 1, before),
        }
    }
}

/// A format 12 subtable (segmented coverage) appended to `ranges`; a group
/// starting at glyph 0 drops its first code point.
pub open spec fn spec_format12(subtable: Seq<u8>, glyphs: u16, ranges: Seq<Range>) -> Option<Seq<Range>> {
    if !fits(subtable, 4, 4) || read_u32(subtable, 4) > subtable.len() {
        None
    } else {
        let sub = subtable.take(read_u32(subtable, 4));
        if !fits(sub, 12, 4) {
            None
        } else {
            f12_groups(sub, glyphs, read_u32(sub, 12) as nat, ranges)
        }
    }
}

/// Platform 0 (Unicode), or 3 (Windows) with encoding 1 (BMP) or 10 (full repertoire).
pub open spec fn unicode_record(platform: int, encoding: int) -> bool {
    platform == 0 || (platform == 3 && (encoding == 1 || encoding == 10))
}

/// Encoding record `index`: a Unicode subtable of format 4 or 12 appends its
/// ranges, any other record or format adds nothing.
pub open spec fn record_step(cmap: Seq<u8>, glyphs: u16, index: int, ranges: Seq<Range>) -> Option<Seq<Range>> {
    let record = 4 + index * 8;
    if !fits(cmap, record, 4) {
        None
    } else if !unicode_record(read_u16(cmap, record), read_u16(cmap, record + 2)) {
        Some(ranges)
    } else if !fits(cmap, record + 4, 4) || read_u32(cmap, record + 4) > cmap.len() {
        None
    } else {
        let subtable = cmap.skip(read_u32(cmap, record + 4));
        if !fits(subtable, 0, 2) {
            None
        } else {
            let appended = if read_u16(subtable, 0) == 4 {
                spec_format4(subtable, glyphs, ranges)
            } else if read_u16(subtable, 0) == 12 {
                spec_format12(subtable, glyphs, ranges)
            } else {
                Some(ranges)
            };
            match appended {
                Some(all) => if all.len() > MAX_RANGES { None } else { Some(all) },
                None => None,
            }
        }
    }
}

/// The ranges after the first `count` encoding records, in table order.
pub open spec fn collect(cmap: Seq<u8>, glyphs: u16, count: nat) -> Option<Seq<Range>>
    decreases count,
{
    if count == 0 {
        Some(Seq::empty())
    } else {
        match collect(cmap, glyphs, (count - 1) as nat) {
            None => None,
            Some(before) => record_step(cmap, glyphs, count - 1, before),
        }
    }
}

/// Whether `range` holds `code`.
pub open spec fn in_range(range: Range, code: u32) -> bool {
    range.start <= code <= range.end
}

/// The glyph `range` gives a code point it holds.
pub open spec fn glyph_in(range: Range, code: u32) -> u16 {
    (range.gid + (code - range.start)) as u16
}

/// The glyph of `code` from the first range that holds it, in table order:
/// where two encoding records map the same character, the earlier one wins.
pub open spec fn first_glyph(ranges: Seq<Range>, code: u32) -> Option<u16>
    decreases ranges.len(),
{
    if ranges.len() == 0 {
        None
    } else if in_range(ranges[0], code) {
        Some(glyph_in(ranges[0], code))
    } else {
        first_glyph(ranges.drop_first(), code)
    }
}

/// No range continues the one before it: a run of consecutive code points on
/// consecutive glyphs is a single range.
pub open spec fn joined(ranges: Seq<Range>) -> bool {
    forall|i: int|
        0 <= i < ranges.len() - 1 ==> !spec_follows(#[trigger] ranges[i], ranges[i + 1].start, ranges[i + 1].gid)
}

/// `flat` is the table `raw` flattened: sorted, disjoint, joined ranges that
/// hold exactly the code points `raw` maps, each with the glyph of the first
/// range of `raw` that holds it.
pub open spec fn flattens(flat: Seq<Range>, raw: Seq<Range>) -> bool {
    &&& disjoint_sorted(flat)
    &&& joined(flat)
    &&& forall|code: u32| #[trigger] covers(flat, code) == (first_glyph(raw, code) is Some)
    &&& forall|index: int, code: u32|
        0 <= index < flat.len() && #[trigger] in_range(flat[index], code) ==> first_glyph(raw, code) == Some(
            glyph_in(flat[index], code),
        )
}

/// Every Unicode subtable's ranges in record order, or why the table is refused.
pub open spec fn spec_collected(cmap: Seq<u8>, glyphs: u16) -> Result<Seq<Range>, FontError> {
    if !fits(cmap, 2, 2) {
        Err(FontError::Invalid)
    } else {
        match collect(cmap, glyphs, read_u16(cmap, 2) as nat) {
            None => Err(FontError::Invalid),
            Some(ranges) => if ranges.len() == 0 {
                Err(FontError::UnsupportedCmap)
            } else {
                Ok(ranges)
            },
        }
    }
}

/// Ranges in increasing code order that share no code point.
pub open spec fn disjoint_sorted(ranges: Seq<Range>) -> bool {
    &&& forall|i: int, j: int| 0 <= i < j < ranges.len() ==> #[trigger] ranges[i].end < #[trigger] ranges[j].start
    &&& forall|index: int| 0 <= index < ranges.len() ==> #[trigger] ranges[index].start <= ranges[index].end
}

/// Ranges whose starts never decrease.
pub open spec fn starts_sorted(ranges: Seq<Range>) -> bool {
    forall|i: int, j: int| 0 <= i <= j < ranges.len() ==> #[trigger] ranges[i].start <= #[trigger] ranges[j].start
}

/// Each range's glyph span fits in 16 bits.
pub open spec fn spans_fit(ranges: Seq<Range>) -> bool {
    forall|index: int|
        0 <= index < ranges.len() ==> {
            let range = #[trigger] ranges[index];
            range.start <= range.end && range.gid + (range.end - range.start) <= 0xffff
        }
}

fn follows(last: Range, start: u32, gid: u16) -> (continues: bool)
    requires
        last.start <= last.end <= 0x10ffff,
        last.gid + (last.end - last.start) < 0x10000,
    ensures
        continues == spec_follows(last, start, gid),
{
    start == last.end + 1 && last.gid as u32 + (last.end - last.start) + 1 == gid as u32
}

fn push(ranges: &mut Vec<Range>, start: u32, end: u32, gid: u16, Ghost(glyphs): Ghost<u16>)
    requires
        wf_ranges(old(ranges)@, glyphs),
        wf_range(Range { start, end, gid }, glyphs),
    ensures
        final(ranges)@ == spec_push(old(ranges)@, start, end, gid),
        wf_ranges(final(ranges)@, glyphs),
{
    let count = ranges.len();
    if count > 0 {
        let last = ranges[count - 1];
        assert(wf_range(ranges@[count - 1], glyphs));
        if follows(last, start, gid) {
            ranges.set(count - 1, Range { start: last.start, end, gid: last.gid });
            assert forall|index: int| 0 <= index < ranges@.len() implies wf_range(#[trigger] ranges@[index], glyphs) by {
                if index != count - 1 {
                    assert(ranges@[index] == old(ranges)@[index]);
                }
            }
            return;
        }
    }
    ranges.push(Range { start, end, gid });
    assert forall|index: int| 0 <= index < ranges@.len() implies wf_range(#[trigger] ranges@[index], glyphs) by {
        if index < count {
            assert(ranges@[index] == old(ranges)@[index]);
        }
    }
}

fn format4(subtable: &[u8], glyphs: u16, ranges: &mut Vec<Range>) -> (done: Result<(), FontError>)
    requires
        wf_ranges(old(ranges)@, glyphs),
    ensures
        match spec_format4(subtable@, glyphs, old(ranges)@) {
            Some(after) => done is Ok && final(ranges)@ == after,
            None => done == Err::<(), FontError>(FontError::Invalid),
        },
        wf_ranges(final(ranges)@, glyphs),
{
    let length = match u16_at(subtable, 2) {
        Some(length) => length as usize,
        None => return Err(FontError::Invalid),
    };
    if length > subtable.len() {
        return Err(FontError::Invalid);
    }
    let sub = &subtable[0..length];
    assert(sub@ == subtable@.take(length as int));
    let segments = match u16_at(sub, 6) {
        Some(word) => (word / 2) as usize,
        None => return Err(FontError::Invalid),
    };
    let ends: usize = 14;
    let starts = ends + segments * 2 + 2;
    let deltas = starts + segments * 2;
    let offsets = deltas + segments * 2;
    let ghost initial = ranges@;
    let mut index: usize = 0;
    while index < segments
        invariant
            sub@ == subtable@.take(length as int),
            fits(subtable@, 2, 2),
            length == read_u16(subtable@, 2),
            length <= subtable@.len(),
            fits(sub@, 6, 2),
            segments == read_u16(sub@, 6) / 2,
            ends == 14,
            starts == ends + segments * 2 + 2,
            deltas == starts + segments * 2,
            offsets == deltas + segments * 2,
            index <= segments,
            initial == old(ranges)@,
            f4_segments(sub@, glyphs, segments as int, index as nat, initial) == Some(ranges@),
            wf_ranges(ranges@, glyphs),
        decreases segments - index,
    {
        let end = u16_at(sub, ends + index * 2);
        let start = u16_at(sub, starts + index * 2);
        let delta = u16_at(sub, deltas + index * 2);
        let range_offset = u16_at(sub, offsets + index * 2);
        let (end, start, delta, range_offset) = match (end, start, delta, range_offset) {
            (Some(end), Some(start), Some(delta), Some(range_offset)) => (end, start, delta, range_offset),
            _ => {
                proof {
                    assert(f4_segments(sub@, glyphs, segments as int, (index + 1) as nat, initial) is None);
                    lemma_f4_segments_stuck(sub@, glyphs, segments as int, (index + 1) as nat, segments as nat, initial);
                }
                return Err(FontError::Invalid);
            },
        };
        let slot = offsets + index * 2;
        let ghost before = ranges@;
        if start <= end {
            let codes = f4_codes_into(sub, glyphs, slot, start, end, delta, range_offset, ranges);
            if codes.is_err() {
                assert(f4_segment(sub@, glyphs, segments as int, index as int, before) is None);
                proof {
                    lemma_f4_segments_stuck(sub@, glyphs, segments as int, (index + 1) as nat, segments as nat, initial);
                }
                return Err(FontError::Invalid);
            }
        }
        index += 1;
    }
    Ok(())
}

/// The codes `start..=end` of one format 4 segment, appended to `ranges`.
fn f4_codes_into(
    sub: &[u8],
    glyphs: u16,
    slot: usize,
    start: u16,
    end: u16,
    delta: u16,
    range_offset: u16,
    ranges: &mut Vec<Range>,
) -> (done: Result<(), FontError>)
    requires
        wf_ranges(old(ranges)@, glyphs),
        start <= end,
        slot < 0x40000,
    ensures
        match f4_codes(sub@, glyphs, slot as int, start as int, delta as int, range_offset as int,
            (end - start + 1) as nat, old(ranges)@) {
            Some(after) => done is Ok && final(ranges)@ == after,
            None => done is Err,
        },
        wf_ranges(final(ranges)@, glyphs),
{
    let count: u32 = end as u32 - start as u32 + 1;
    let ghost before = ranges@;
    let mut k: u32 = 0;
    while k < count
        invariant
            start <= end,
            count == end - start + 1,
            k <= count,
            slot < 0x40000,
            before == old(ranges)@,
            f4_codes(sub@, glyphs, slot as int, start as int, delta as int, range_offset as int, k as nat, before)
                == Some(ranges@),
            wf_ranges(ranges@, glyphs),
        decreases count - k,
    {
        let code: u32 = start as u32 + k;
        let gid: u32 = if range_offset == 0 {
            (code + delta as u32) % 0x10000
        } else {
            let at = slot + range_offset as usize + (k as usize) * 2;
            match u16_at(sub, at) {
                Some(0) => 0,
                Some(raw) => (raw as u32 + delta as u32) % 0x10000,
                None => {
                    proof {
                        lemma_f4_codes_stuck(sub@, glyphs, slot as int, start as int, delta as int,
                            range_offset as int, (k + 1) as nat, count as nat, before);
                    }
                    return Err(FontError::Invalid);
                },
            }
        };
        if gid >= glyphs as u32 {
            proof {
                lemma_f4_codes_stuck(sub@, glyphs, slot as int, start as int, delta as int, range_offset as int,
                    (k + 1) as nat, count as nat, before);
            }
            return Err(FontError::Invalid);
        }
        if gid != 0 {
            push(ranges, code, code, gid as u16, Ghost(glyphs));
        }
        k += 1;
    }
    Ok(())
}

proof fn lemma_f4_codes_stuck(
    sub: Seq<u8>,
    glyphs: u16,
    slot: int,
    start: int,
    delta: int,
    range_offset: int,
    stuck: nat,
    count: nat,
    ranges: Seq<Range>,
)
    requires
        f4_codes(sub, glyphs, slot, start, delta, range_offset, stuck, ranges) is None,
        stuck <= count,
    ensures
        f4_codes(sub, glyphs, slot, start, delta, range_offset, count, ranges) is None,
    decreases count - stuck,
{
    if stuck < count {
        lemma_f4_codes_stuck(sub, glyphs, slot, start, delta, range_offset, stuck, (count - 1) as nat, ranges);
    }
}

proof fn lemma_f4_segments_stuck(sub: Seq<u8>, glyphs: u16, segments: int, stuck: nat, count: nat, ranges: Seq<Range>)
    requires
        f4_segments(sub, glyphs, segments, stuck, ranges) is None,
        stuck <= count,
    ensures
        f4_segments(sub, glyphs, segments, count, ranges) is None,
    decreases count - stuck,
{
    if stuck < count {
        lemma_f4_segments_stuck(sub, glyphs, segments, stuck, (count - 1) as nat, ranges);
    }
}

proof fn lemma_f12_groups_stuck(sub: Seq<u8>, glyphs: u16, stuck: nat, count: nat, ranges: Seq<Range>)
    requires
        f12_groups(sub, glyphs, stuck, ranges) is None,
        stuck <= count,
    ensures
        f12_groups(sub, glyphs, count, ranges) is None,
    decreases count - stuck,
{
    if stuck < count {
        lemma_f12_groups_stuck(sub, glyphs, stuck, (count - 1) as nat, ranges);
    }
}

proof fn lemma_collect_stuck(cmap: Seq<u8>, glyphs: u16, stuck: nat, count: nat)
    requires
        collect(cmap, glyphs, stuck) is None,
        stuck <= count,
    ensures
        collect(cmap, glyphs, count) is None,
    decreases count - stuck,
{
    if stuck < count {
        lemma_collect_stuck(cmap, glyphs, stuck, (count - 1) as nat);
    }
}

fn format12(subtable: &[u8], glyphs: u16, ranges: &mut Vec<Range>) -> (done: Result<(), FontError>)
    requires
        wf_ranges(old(ranges)@, glyphs),
    ensures
        match spec_format12(subtable@, glyphs, old(ranges)@) {
            Some(after) => done is Ok && final(ranges)@ == after,
            None => done == Err::<(), FontError>(FontError::Invalid),
        },
        wf_ranges(final(ranges)@, glyphs),
{
    let length = match u32_at(subtable, 4) {
        Some(length) => length as usize,
        None => return Err(FontError::Invalid),
    };
    if length > subtable.len() {
        return Err(FontError::Invalid);
    }
    let sub = &subtable[0..length];
    assert(sub@ == subtable@.take(length as int));
    let groups = match u32_at(sub, 12) {
        Some(groups) => groups,
        None => return Err(FontError::Invalid),
    };
    let ghost initial = ranges@;
    let mut group: u32 = 0;
    while group < groups
        invariant
            sub@ == subtable@.take(length as int),
            fits(subtable@, 4, 4),
            length == read_u32(subtable@, 4),
            length <= subtable@.len(),
            fits(sub@, 12, 4),
            groups == read_u32(sub@, 12),
            group <= groups,
            initial == old(ranges)@,
            f12_groups(sub@, glyphs, group as nat, initial) == Some(ranges@),
            wf_ranges(ranges@, glyphs),
        decreases groups - group,
    {
        let ghost before = ranges@;
        if group as u64 * 12 + 28 > sub.len() as u64 {
            assert(f12_group(sub@, glyphs, group as int, before) is None);
            proof { lemma_f12_groups_stuck(sub@, glyphs, (group + 1) as nat, groups as nat, initial); }
            return Err(FontError::Invalid);
        }
        let at = 16 + group as usize * 12;
        let start = u32_at(sub, at);
        let end = u32_at(sub, at + 4);
        let gid = u32_at(sub, at + 8);
        let (start, end, gid) = match (start, end, gid) {
            (Some(start), Some(end), Some(gid)) => (start, end, gid),
            _ => {
                proof { lemma_f12_groups_stuck(sub@, glyphs, (group + 1) as nat, groups as nat, initial); }
                return Err(FontError::Invalid);
            },
        };
        if start > end || end > 0x10ffff {
            proof { lemma_f12_groups_stuck(sub@, glyphs, (group + 1) as nat, groups as nat, initial); }
            return Err(FontError::Invalid);
        }
        if gid == 0 && start == end {
            group += 1;
            continue;
        }
        let first = if gid == 0 { start + 1 } else { start };
        let glyph = if gid == 0 { 1 } else { gid };
        if glyph as u64 + (end - first) as u64 >= glyphs as u64 {
            proof { lemma_f12_groups_stuck(sub@, glyphs, (group + 1) as nat, groups as nat, initial); }
            return Err(FontError::Invalid);
        }
        push(ranges, first, end, glyph as u16, Ghost(glyphs));
        group += 1;
    }
    Ok(())
}

/// Every Unicode subtable's ranges in encoding-record order, before sorting.
fn collect_ranges(cmap: &[u8], glyphs: u16) -> (collected: Result<Vec<Range>, FontError>)
    requires
        fits(cmap@, 2, 2),
    ensures
        match collect(cmap@, glyphs, read_u16(cmap@, 2) as nat) {
            Some(ranges) => collected matches Ok(found) && found@ == ranges && wf_ranges(ranges, glyphs),
            None => collected == Err::<Vec<Range>, FontError>(FontError::Invalid),
        },
{
    let count = match u16_at(cmap, 2) {
        Some(count) => count as usize,
        None => return Err(FontError::Invalid),
    };
    let mut ranges: Vec<Range> = Vec::new();
    let mut index: usize = 0;
    while index < count
        invariant
            count == read_u16(cmap@, 2),
            index <= count,
            collect(cmap@, glyphs, index as nat) == Some(ranges@),
            wf_ranges(ranges@, glyphs),
        decreases count - index,
    {
        let record = 4 + index * 8;
        let platform = u16_at(cmap, record);
        let encoding = u16_at(cmap, record + 2);
        let (platform, encoding) = match (platform, encoding) {
            (Some(platform), Some(encoding)) => (platform, encoding),
            _ => {
                proof { lemma_collect_stuck(cmap@, glyphs, (index + 1) as nat, count as nat); }
                return Err(FontError::Invalid);
            },
        };
        if !(platform == 0 || (platform == 3 && (encoding == 1 || encoding == 10))) {
            index += 1;
            continue;
        }
        let offset = match u32_at(cmap, record + 4) {
            Some(offset) => offset as usize,
            None => {
                proof { lemma_collect_stuck(cmap@, glyphs, (index + 1) as nat, count as nat); }
                return Err(FontError::Invalid);
            },
        };
        if offset > cmap.len() {
            proof { lemma_collect_stuck(cmap@, glyphs, (index + 1) as nat, count as nat); }
            return Err(FontError::Invalid);
        }
        let subtable = &cmap[offset..cmap.len()];
        assert(subtable@ == cmap@.skip(offset as int));
        let format = match u16_at(subtable, 0) {
            Some(format) => format,
            None => {
                proof { lemma_collect_stuck(cmap@, glyphs, (index + 1) as nat, count as nat); }
                return Err(FontError::Invalid);
            },
        };
        let appended = if format == 4 {
            format4(subtable, glyphs, &mut ranges)
        } else if format == 12 {
            format12(subtable, glyphs, &mut ranges)
        } else {
            Ok(())
        };
        if appended.is_err() || ranges.len() > MAX_RANGES {
            proof { lemma_collect_stuck(cmap@, glyphs, (index + 1) as nat, count as nat); }
            return Err(FontError::Invalid);
        }
        index += 1;
    }
    Ok(ranges)
}

/// The first position whose range starts after `code`, in ranges sorted by start.
fn upper_bound(ranges: &[Range], code: u32) -> (position: usize)
    ensures
        position <= ranges@.len(),
        position > 0 ==> ranges@[position - 1].start <= code,
        starts_sorted(ranges@) ==> forall|index: int| 0 <= index < position ==> #[trigger] ranges@[index].start <= code,
        starts_sorted(ranges@) ==> forall|index: int|
            position <= index < ranges@.len() ==> #[trigger] ranges@[index].start > code,
{
    let mut low: usize = 0;
    let mut high: usize = ranges.len();
    while low < high
        invariant
            low <= high <= ranges@.len(),
            low > 0 ==> ranges@[low - 1].start <= code,
            starts_sorted(ranges@) ==> forall|index: int| 0 <= index < low ==> #[trigger] ranges@[index].start <= code,
            starts_sorted(ranges@) ==> forall|index: int|
                high <= index < ranges@.len() ==> #[trigger] ranges@[index].start > code,
        decreases high - low,
    {
        let middle = low + (high - low) / 2;
        if ranges[middle].start <= code {
            proof {
                if starts_sorted(ranges@) {
                    assert forall|index: int| 0 <= index < middle + 1 implies #[trigger] ranges@[index].start <= code by {
                        assert(ranges@[index].start <= ranges@[middle as int].start);
                    }
                }
            }
            low = middle + 1;
        } else {
            proof {
                if starts_sorted(ranges@) {
                    assert forall|index: int| middle <= index < ranges@.len() implies #[trigger] ranges@[index].start > code by {
                        assert(ranges@[middle as int].start <= ranges@[index].start);
                    }
                }
            }
            high = middle;
        }
    }
    low
}

/// Two ranges that share no code point.
pub open spec fn apart(a: Range, b: Range) -> bool {
    a.end < b.start || b.end < a.start
}

/// Ranges of which no two share a code point.
pub open spec fn separate(ranges: Seq<Range>) -> bool {
    forall|i: int, j: int|
        0 <= i < ranges.len() && 0 <= j < ranges.len() && i != j ==> apart(#[trigger] ranges[i], #[trigger] ranges[j])
}

/// `inner` is a part of `outer` mapping its code points as `outer` does.
pub open spec fn within(outer: Range, inner: Range) -> bool {
    &&& outer.start <= inner.start <= inner.end <= outer.end
    &&& inner.gid == outer.gid + (inner.start - outer.start)
}

proof fn lemma_first_glyph_push(ranges: Seq<Range>, range: Range, code: u32)
    ensures
        first_glyph(ranges.push(range), code) == match first_glyph(ranges, code) {
            Some(glyph) => Some(glyph),
            None => if in_range(range, code) {
                Some(glyph_in(range, code))
            } else {
                None
            },
        },
    decreases ranges.len(),
{
    if ranges.len() == 0 {
        assert(ranges.push(range)[0] == range);
        assert(ranges.push(range).drop_first() =~= Seq::<Range>::empty());
        assert(first_glyph(Seq::<Range>::empty(), code) is None);
    } else {
        assert(ranges.push(range)[0] == ranges[0]);
        assert(ranges.push(range).drop_first() =~= ranges.drop_first().push(range));
        lemma_first_glyph_push(ranges.drop_first(), range, code);
    }
}

proof fn lemma_covers_concat(a: Seq<Range>, b: Seq<Range>, code: u32)
    ensures
        covers(a + b, code) == (covers(a, code) || covers(b, code)),
{
    let both = a + b;
    if covers(both, code) {
        let index = choose|index: int| 0 <= index < both.len() && #[trigger] both[index].start <= code <= both[index].end;
        if index < a.len() {
            assert(a[index] == both[index]);
        } else {
            assert(b[index - a.len()] == both[index]);
        }
    }
    if covers(a, code) {
        let index = choose|index: int| 0 <= index < a.len() && #[trigger] a[index].start <= code <= a[index].end;
        assert(both[index] == a[index]);
    }
    if covers(b, code) {
        let index = choose|index: int| 0 <= index < b.len() && #[trigger] b[index].start <= code <= b[index].end;
        assert(both[index + a.len()] == b[index]);
    }
}

proof fn lemma_covers_one(range: Range, code: u32)
    ensures
        covers(seq![range], code) == in_range(range, code),
{
    if in_range(range, code) {
        assert(seq![range][0].start <= code <= seq![range][0].end);
    }
}

proof fn lemma_covers_push(ranges: Seq<Range>, range: Range, code: u32)
    ensures
        covers(ranges.push(range), code) == (covers(ranges, code) || in_range(range, code)),
{
    assert(ranges.push(range) =~= ranges + seq![range]);
    lemma_covers_concat(ranges, seq![range], code);
    lemma_covers_one(range, code);
}

/// `piece` with the code points of `by` taken out: at most two parts.
fn cut(piece: Range, by: Range, Ghost(glyphs): Ghost<u16>) -> (left: Vec<Range>)
    requires
        wf_range(piece, glyphs),
        by.start <= by.end,
    ensures
        forall|index: int|
            0 <= index < left@.len() ==> within(piece, #[trigger] left@[index]) && wf_range(left@[index], glyphs)
                && apart(left@[index], by),
        separate(left@),
        forall|code: u32| #[trigger] covers(left@, code) == (in_range(piece, code) && !in_range(by, code)),
{
    let mut left: Vec<Range> = Vec::new();
    if piece.end < by.start || by.end < piece.start {
        left.push(piece);
        assert forall|code: u32| #[trigger] covers(left@, code) == (in_range(piece, code) && !in_range(by, code)) by {
            lemma_covers_push(Seq::<Range>::empty(), piece, code);
            assert(left@ =~= Seq::<Range>::empty().push(piece));
        }
    } else {
        if piece.start < by.start {
            left.push(Range { start: piece.start, end: by.start - 1, gid: piece.gid });
        }
        let ghost first = left@;
        if by.end < piece.end {
            let gid = (piece.gid as u32 + (by.end + 1 - piece.start)) as u16;
            left.push(Range { start: by.end + 1, end: piece.end, gid });
        }
        assert forall|i: int, j: int|
            0 <= i < left@.len() && 0 <= j < left@.len() && i != j implies apart(#[trigger] left@[i], #[trigger] left@[j]) by {
            assert(left@[0].end < by.start || left@[0].start > by.end);
        }
        assert forall|code: u32| #[trigger] covers(left@, code) == (in_range(piece, code) && !in_range(by, code)) by {
            lemma_covers_push(Seq::<Range>::empty(), Range { start: piece.start, end: (by.start - 1) as u32, gid: piece.gid }, code);
            assert(Seq::<Range>::empty().push(Range { start: piece.start, end: (by.start - 1) as u32, gid: piece.gid }) =~= seq![Range { start: piece.start, end: (by.start - 1) as u32, gid: piece.gid }]);
            if left@.len() > first.len() {
                lemma_covers_push(first, left@.last(), code);
                assert(left@ =~= first.push(left@.last()));
            }
            if first.len() == 0 {
                assert(!covers(first, code));
            }
        }
    }
    left
}

/// The parts of `range` that no range of `kept` holds.
fn uncovered(range: Range, kept: &Vec<Range>, Ghost(glyphs): Ghost<u16>) -> (pieces: Vec<Range>)
    requires
        wf_range(range, glyphs),
        wf_ranges(kept@, glyphs),
    ensures
        forall|index: int|
            0 <= index < pieces@.len() ==> within(range, #[trigger] pieces@[index]) && wf_range(pieces@[index], glyphs),
        separate(pieces@),
        forall|index: int, other: int|
            0 <= index < pieces@.len() && 0 <= other < kept@.len() ==> apart(#[trigger] pieces@[index], #[trigger] kept@[other]),
        forall|code: u32| #[trigger] covers(pieces@, code) == (in_range(range, code) && !covers(kept@, code)),
{
    let mut pieces: Vec<Range> = Vec::new();
    pieces.push(range);
    assert forall|code: u32| #[trigger] covers(pieces@, code) == (in_range(range, code) && !covers(kept@.take(0), code)) by {
        lemma_covers_push(Seq::<Range>::empty(), range, code);
        assert(pieces@ =~= Seq::<Range>::empty().push(range));
        assert(kept@.take(0) =~= Seq::<Range>::empty());
    }
    let mut done: usize = 0;
    while done < kept.len()
        invariant
            done <= kept@.len(),
            wf_range(range, glyphs),
            wf_ranges(kept@, glyphs),
            forall|index: int|
                0 <= index < pieces@.len() ==> within(range, #[trigger] pieces@[index]) && wf_range(pieces@[index], glyphs),
            separate(pieces@),
            forall|index: int, other: int|
                0 <= index < pieces@.len() && 0 <= other < done ==> apart(#[trigger] pieces@[index], #[trigger] kept@[other]),
            forall|code: u32| #[trigger] covers(pieces@, code) == (in_range(range, code) && !covers(kept@.take(done as int), code)),
        decreases kept@.len() - done,
    {
        let by = kept[done];
        assert(wf_range(kept@[done as int], glyphs));
        let mut next: Vec<Range> = Vec::new();
        let mut used: usize = 0;
        while used < pieces.len()
            invariant
                done < kept@.len(),
                by == kept@[done as int],
                by.start <= by.end,
                used <= pieces@.len(),
                forall|index: int|
                    0 <= index < pieces@.len() ==> within(range, #[trigger] pieces@[index]) && wf_range(pieces@[index], glyphs),
                separate(pieces@),
                forall|index: int, other: int|
                    0 <= index < pieces@.len() && 0 <= other < done ==> apart(#[trigger] pieces@[index], #[trigger] kept@[other]),
                forall|index: int|
                    0 <= index < next@.len() ==> within(range, #[trigger] next@[index]) && wf_range(next@[index], glyphs)
                        && apart(next@[index], by),
                forall|index: int, other: int|
                    0 <= index < next@.len() && 0 <= other < done ==> apart(#[trigger] next@[index], #[trigger] kept@[other]),
                forall|index: int, later: int|
                    0 <= index < next@.len() && used <= later < pieces@.len() ==> apart(#[trigger] next@[index], #[trigger] pieces@[later]),
                separate(next@),
                forall|code: u32| #[trigger] covers(next@, code) == (covers(pieces@.take(used as int), code) && !in_range(by, code)),
            decreases pieces@.len() - used,
        {
            let piece = pieces[used];
            let mut parts = cut(piece, by, Ghost(glyphs));
            let ghost before = next@;
            let ghost added = parts@;
            next.append(&mut parts);
            proof {
                assert forall|index: int| 0 <= index < next@.len() implies within(range, #[trigger] next@[index])
                    && wf_range(next@[index], glyphs) && apart(next@[index], by) by {
                    if index >= before.len() {
                        assert(next@[index] == added[index - before.len()]);
                        assert(within(piece, added[index - before.len()]));
                    } else {
                        assert(next@[index] == before[index]);
                    }
                }
                assert forall|index: int, other: int|
                    0 <= index < next@.len() && 0 <= other < done implies apart(#[trigger] next@[index], #[trigger] kept@[other]) by {
                    if index >= before.len() {
                        assert(next@[index] == added[index - before.len()]);
                        assert(within(piece, added[index - before.len()]));
                        assert(apart(pieces@[used as int], kept@[other]));
                    } else {
                        assert(next@[index] == before[index]);
                    }
                }
                assert forall|index: int, later: int|
                    0 <= index < next@.len() && used + 1 <= later < pieces@.len() implies apart(#[trigger] next@[index], #[trigger] pieces@[later]) by {
                    if index >= before.len() {
                        assert(next@[index] == added[index - before.len()]);
                        assert(within(piece, added[index - before.len()]));
                        assert(apart(pieces@[used as int], pieces@[later]));
                    } else {
                        assert(next@[index] == before[index]);
                    }
                }
                assert forall|i: int, j: int|
                    0 <= i < next@.len() && 0 <= j < next@.len() && i != j implies apart(#[trigger] next@[i], #[trigger] next@[j]) by {
                    if i >= before.len() && j >= before.len() {
                        assert(next@[i] == added[i - before.len()]);
                        assert(next@[j] == added[j - before.len()]);
                    } else if i >= before.len() {
                        assert(next@[i] == added[i - before.len()]);
                        assert(within(piece, added[i - before.len()]));
                        assert(next@[j] == before[j]);
                        assert(apart(before[j], pieces@[used as int]));
                    } else if j >= before.len() {
                        assert(next@[j] == added[j - before.len()]);
                        assert(within(piece, added[j - before.len()]));
                        assert(next@[i] == before[i]);
                        assert(apart(before[i], pieces@[used as int]));
                    } else {
                        assert(next@[i] == before[i] && next@[j] == before[j]);
                    }
                }
                assert forall|code: u32| #[trigger] covers(next@, code) == (covers(pieces@.take(used + 1), code) && !in_range(by, code)) by {
                    lemma_covers_concat(before, added, code);
                    assert(pieces@.take(used + 1) =~= pieces@.take(used as int).push(piece));
                    lemma_covers_push(pieces@.take(used as int), piece, code);
                }
            }
            used += 1;
        }
        proof {
            assert(pieces@.take(pieces@.len() as int) =~= pieces@);
            assert forall|code: u32| #[trigger] covers(next@, code) == (in_range(range, code) && !covers(kept@.take(done + 1), code)) by {
                assert(kept@.take(done + 1) =~= kept@.take(done as int).push(by));
                lemma_covers_push(kept@.take(done as int), by, code);
            }
            assert forall|index: int, other: int|
                0 <= index < next@.len() && 0 <= other < done + 1 implies apart(#[trigger] next@[index], #[trigger] kept@[other]) by {
                if other == done {
                    assert(apart(next@[index], by));
                }
            }
        }
        pieces = next;
        done += 1;
    }
    proof {
        assert(kept@.take(kept@.len() as int) =~= kept@);
    }
    pieces
}


/// Starts stay sorted when `range` goes in after every range that starts at
/// or before it.
proof fn lemma_insert_sorted(sorted: Seq<Range>, range: Range, position: int)
    requires
        starts_sorted(sorted),
        0 <= position <= sorted.len(),
        forall|index: int| 0 <= index < position ==> #[trigger] sorted[index].start <= range.start,
        forall|index: int| position <= index < sorted.len() ==> #[trigger] sorted[index].start > range.start,
    ensures
        starts_sorted(sorted.insert(position, range)),
{
    let inserted = sorted.insert(position, range);
    assert forall|i: int, j: int| 0 <= i <= j < inserted.len() implies #[trigger] inserted[i].start
        <= #[trigger] inserted[j].start by {
        if i < position && j > position {
            assert(inserted[j] == sorted[j - 1]);
        } else if i == position && j > position {
            assert(inserted[j] == sorted[j - 1]);
        } else if i > position {
            assert(inserted[i] == sorted[i - 1] && inserted[j] == sorted[j - 1]);
        }
    }
}

proof fn lemma_covers_insert(ranges: Seq<Range>, position: int, range: Range, code: u32)
    requires
        0 <= position <= ranges.len(),
    ensures
        covers(ranges.insert(position, range), code) == (covers(ranges, code) || in_range(range, code)),
{
    let inserted = ranges.insert(position, range);
    if covers(inserted, code) {
        let index = choose|index: int| 0 <= index < inserted.len() && #[trigger] inserted[index].start <= code <= inserted[index].end;
        if index > position {
            assert(ranges[index - 1] == inserted[index]);
        }
    }
    if covers(ranges, code) {
        let index = choose|index: int| 0 <= index < ranges.len() && #[trigger] ranges[index].start <= code <= ranges[index].end;
        if index < position {
            assert(inserted[index] == ranges[index]);
        } else {
            assert(inserted[index + 1] == ranges[index]);
        }
    }
    if in_range(range, code) {
        assert(inserted[position] == range);
    }
}

/// The table's ranges, in record order, flattened so that each code point
/// keeps the glyph of the first range that holds it.
fn flatten(raw: &Vec<Range>, Ghost(glyphs): Ghost<u16>) -> (flat: Vec<Range>)
    requires
        wf_ranges(raw@, glyphs),
    ensures
        flattens(flat@, raw@),
        wf_ranges(flat@, glyphs),
{
    let mut kept: Vec<Range> = Vec::new();
    let mut done: usize = 0;
    while done < raw.len()
        invariant
            done <= raw@.len(),
            wf_ranges(raw@, glyphs),
            wf_ranges(kept@, glyphs),
            starts_sorted(kept@),
            separate(kept@),
            forall|code: u32| #[trigger] covers(kept@, code) == (first_glyph(raw@.take(done as int), code) is Some),
            forall|index: int, code: u32|
                0 <= index < kept@.len() && #[trigger] in_range(kept@[index], code) ==> first_glyph(
                    raw@.take(done as int),
                    code,
                ) == Some(glyph_in(kept@[index], code)),
        decreases raw@.len() - done,
    {
        let range = raw[done];
        assert(wf_range(raw@[done as int], glyphs));
        let ghost prefix = raw@.take(done as int);
        let ghost longer = raw@.take(done + 1);
        assert(longer =~= prefix.push(range));
        let ghost existing = kept@;
        let pieces = uncovered(range, &kept, Ghost(glyphs));
        assert forall|index: int, code: u32|
            0 <= index < kept@.len() && #[trigger] in_range(kept@[index], code) implies first_glyph(longer, code) == Some(
            glyph_in(kept@[index], code)) by {
            lemma_first_glyph_push(prefix, range, code);
        }
        let mut placed: usize = 0;
        while placed < pieces.len()
            invariant
                placed <= pieces@.len(),
                wf_ranges(kept@, glyphs),
                starts_sorted(kept@),
                separate(kept@),
                forall|index: int|
                    0 <= index < pieces@.len() ==> within(range, #[trigger] pieces@[index]) && wf_range(pieces@[index], glyphs),
                separate(pieces@),
                forall|index: int, other: int|
                    placed <= index < pieces@.len() && 0 <= other < kept@.len() ==> apart(#[trigger] pieces@[index], #[trigger] kept@[other]),
                forall|code: u32| #[trigger] covers(pieces@, code) == (in_range(range, code) && !covers(existing, code)),
                forall|code: u32| #[trigger] covers(existing, code) == (first_glyph(prefix, code) is Some),
                forall|code: u32| #[trigger] covers(kept@, code) == (covers(existing, code) || covers(pieces@.take(placed as int), code)),
                forall|index: int, code: u32|
                    0 <= index < kept@.len() && #[trigger] in_range(kept@[index], code) ==> first_glyph(longer, code) == Some(
                        glyph_in(kept@[index], code),
                    ),
                longer == prefix.push(range),
            decreases pieces@.len() - placed,
        {
            let piece = pieces[placed];
            let position = upper_bound(kept.as_slice(), piece.start);
            let ghost before = kept@;
            proof {
                lemma_insert_sorted(before, piece, position as int);
            }
            kept.insert(position, piece);
            proof {
                assert(kept@ == before.insert(position as int, piece));
                assert forall|index: int| 0 <= index < kept@.len() implies wf_range(#[trigger] kept@[index], glyphs) by {
                    if index > position {
                        assert(kept@[index] == before[index - 1]);
                    }
                }
                assert forall|i: int, j: int|
                    0 <= i < kept@.len() && 0 <= j < kept@.len() && i != j implies apart(#[trigger] kept@[i], #[trigger] kept@[j]) by {
                    let bi = if i < position { i } else { i - 1 };
                    let bj = if j < position { j } else { j - 1 };
                    if i == position {
                        assert(kept@[j] == before[bj]);
                        assert(apart(pieces@[placed as int], before[bj]));
                    } else if j == position {
                        assert(kept@[i] == before[bi]);
                        assert(apart(pieces@[placed as int], before[bi]));
                    } else {
                        assert(kept@[i] == before[bi] && kept@[j] == before[bj]);
                    }
                }
                assert forall|index: int, other: int|
                    placed + 1 <= index < pieces@.len() && 0 <= other < kept@.len() implies apart(#[trigger] pieces@[index], #[trigger] kept@[other]) by {
                    if other == position {
                        assert(apart(pieces@[index], pieces@[placed as int]));
                    } else if other < position {
                        assert(kept@[other] == before[other]);
                    } else {
                        assert(kept@[other] == before[other - 1]);
                    }
                }
                assert forall|code: u32| #[trigger] covers(kept@, code) == (covers(existing, code) || covers(pieces@.take(placed + 1), code)) by {
                    lemma_covers_insert(before, position as int, piece, code);
                    assert(pieces@.take(placed + 1) =~= pieces@.take(placed as int).push(piece));
                    lemma_covers_push(pieces@.take(placed as int), piece, code);
                }
                assert forall|index: int, code: u32|
                    0 <= index < kept@.len() && #[trigger] in_range(kept@[index], code) implies first_glyph(longer, code) == Some(
                    glyph_in(kept@[index], code)) by {
                    if index == position {
                        assert(pieces@[placed as int].start <= code <= pieces@[placed as int].end);
                        assert(covers(pieces@, code));
                        lemma_first_glyph_push(prefix, range, code);
                    } else if index < position {
                        assert(kept@[index] == before[index]);
                    } else {
                        assert(kept@[index] == before[index - 1]);
                    }
                }
            }
            placed += 1;
        }
        proof {
            assert(pieces@.take(pieces@.len() as int) =~= pieces@);
            assert forall|code: u32| #[trigger] covers(kept@, code) == (first_glyph(longer, code) is Some) by {
                lemma_first_glyph_push(prefix, range, code);
            }
        }
        done += 1;
    }
    proof {
        assert(raw@.take(raw@.len() as int) =~= raw@);
        assert forall|i: int, j: int| 0 <= i < j < kept@.len() implies #[trigger] kept@[i].end < #[trigger] kept@[j].start by {
            assert(apart(kept@[i], kept@[j]));
            assert(wf_range(kept@[i], glyphs) && wf_range(kept@[j], glyphs));
        }
        assert forall|index: int| 0 <= index < kept@.len() implies #[trigger] kept@[index].start <= kept@[index].end by {
            assert(wf_range(kept@[index], glyphs));
        }
    }
    join(&kept, Ghost(raw@), Ghost(glyphs))
}

/// Sorted, disjoint ranges with every run of consecutive code points on
/// consecutive glyphs made one range.
fn join(sorted: &Vec<Range>, Ghost(raw): Ghost<Seq<Range>>, Ghost(glyphs): Ghost<u16>) -> (flat: Vec<Range>)
    requires
        wf_ranges(sorted@, glyphs),
        disjoint_sorted(sorted@),
        forall|code: u32| #[trigger] covers(sorted@, code) == (first_glyph(raw, code) is Some),
        forall|index: int, code: u32|
            0 <= index < sorted@.len() && #[trigger] in_range(sorted@[index], code) ==> first_glyph(raw, code) == Some(
                glyph_in(sorted@[index], code),
            ),
    ensures
        flattens(flat@, raw),
        wf_ranges(flat@, glyphs),
{
    let mut flat: Vec<Range> = Vec::new();
    let mut done: usize = 0;
    assert forall|code: u32| #[trigger] covers(flat@, code) == covers(sorted@.take(0), code) by {
        assert(sorted@.take(0) =~= flat@);
    }
    while done < sorted.len()
        invariant
            done <= sorted@.len(),
            wf_ranges(sorted@, glyphs),
            disjoint_sorted(sorted@),
            forall|index: int, code: u32|
                0 <= index < sorted@.len() && #[trigger] in_range(sorted@[index], code) ==> first_glyph(raw, code) == Some(
                    glyph_in(sorted@[index], code),
                ),
            wf_ranges(flat@, glyphs),
            disjoint_sorted(flat@),
            joined(flat@),
            done == 0 <==> flat@.len() == 0,
            done > 0 ==> flat@.last().end == sorted@[done - 1].end,
            forall|code: u32| #[trigger] covers(flat@, code) == covers(sorted@.take(done as int), code),
            forall|index: int, code: u32|
                0 <= index < flat@.len() && #[trigger] in_range(flat@[index], code) ==> first_glyph(raw, code) == Some(
                    glyph_in(flat@[index], code),
                ),
        decreases sorted@.len() - done,
    {
        let next = sorted[done];
        assert(wf_range(sorted@[done as int], glyphs));
        let ghost before = flat@;
        let count = flat.len();
        if count > 0 && follows(flat[count - 1], next.start, next.gid) {
            let last = flat[count - 1];
            assert(wf_range(before[count - 1], glyphs));
            assert(last.end == sorted@[done - 1].end);
            flat.set(count - 1, Range { start: last.start, end: next.end, gid: last.gid });
            proof {
                assert forall|index: int| 0 <= index < flat@.len() implies wf_range(#[trigger] flat@[index], glyphs) by {
                    if index < count - 1 {
                        assert(flat@[index] == before[index]);
                    }
                }
                assert forall|i: int, j: int| 0 <= i < j < flat@.len() implies #[trigger] flat@[i].end < #[trigger] flat@[j].start by {
                    assert(flat@[i] == before[i]);
                    if j < count - 1 {
                        assert(flat@[j] == before[j]);
                    } else {
                        assert(before[i].end < before[count - 1].start);
                    }
                }
                assert forall|i: int| 0 <= i < flat@.len() - 1 implies !spec_follows(#[trigger] flat@[i], flat@[i + 1].start, flat@[i + 1].gid) by {
                    assert(flat@[i] == before[i]);
                    if i + 1 < count - 1 {
                        assert(flat@[i + 1] == before[i + 1]);
                    }
                }
                assert forall|code: u32| #[trigger] covers(flat@, code) == covers(sorted@.take(done + 1), code) by {
                    assert(sorted@.take(done + 1) =~= sorted@.take(done as int).push(next));
                    lemma_covers_push(sorted@.take(done as int), next, code);
                    assert(before =~= before.drop_last().push(last));
                    lemma_covers_push(before.drop_last(), last, code);
                    assert(flat@ =~= before.drop_last().push(flat@[count - 1]));
                    lemma_covers_push(before.drop_last(), flat@[count - 1], code);
                }
                assert forall|index: int, code: u32|
                    0 <= index < flat@.len() && #[trigger] in_range(flat@[index], code) implies first_glyph(raw, code) == Some(
                    glyph_in(flat@[index], code)) by {
                    if index < count - 1 {
                        assert(flat@[index] == before[index]);
                    } else if code <= last.end {
                        assert(in_range(before[count - 1], code));
                    } else {
                        assert(in_range(sorted@[done as int], code));
                    }
                }
            }
        } else {
            flat.push(next);
            proof {
                assert forall|index: int| 0 <= index < flat@.len() implies wf_range(#[trigger] flat@[index], glyphs) by {
                    if index < count {
                        assert(flat@[index] == before[index]);
                    }
                }
                assert forall|i: int, j: int| 0 <= i < j < flat@.len() implies #[trigger] flat@[i].end < #[trigger] flat@[j].start by {
                    assert(flat@[i] == before[i]);
                    if j < count {
                        assert(flat@[j] == before[j]);
                    } else {
                        assert(before[count - 1].end == sorted@[done - 1].end);
                        assert(sorted@[done - 1].end < sorted@[done as int].start);
                        if i < count - 1 {
                            assert(before[i].end < before[count - 1].start);
                        }
                    }
                }
                assert forall|i: int| 0 <= i < flat@.len() - 1 implies !spec_follows(#[trigger] flat@[i], flat@[i + 1].start, flat@[i + 1].gid) by {
                    assert(flat@[i] == before[i]);
                    if i + 1 < count {
                        assert(flat@[i + 1] == before[i + 1]);
                    }
                }
                assert forall|code: u32| #[trigger] covers(flat@, code) == covers(sorted@.take(done + 1), code) by {
                    assert(sorted@.take(done + 1) =~= sorted@.take(done as int).push(next));
                    lemma_covers_push(sorted@.take(done as int), next, code);
                    lemma_covers_push(before, next, code);
                }
                assert forall|index: int, code: u32|
                    0 <= index < flat@.len() && #[trigger] in_range(flat@[index], code) implies first_glyph(raw, code) == Some(
                    glyph_in(flat@[index], code)) by {
                    if index < count {
                        assert(flat@[index] == before[index]);
                    } else {
                        assert(in_range(sorted@[done as int], code));
                    }
                }
            }
        }
        done += 1;
    }
    proof {
        assert(sorted@.take(sorted@.len() as int) =~= sorted@);
    }
    flat
}

/// Every Unicode subtable (platform 0, or 3 with encoding 1 or 10), flattened;
/// where two encoding records map the same character, the earlier one wins.
pub fn parse(cmap: &[u8], glyphs: u16) -> (parsed: Result<Vec<Range>, String>)
    ensures
        match spec_collected(cmap@, glyphs) {
            Ok(raw) => parsed matches Ok(found) && flattens(found@, raw),
            Err(error) => parsed matches Err(text) && text@ == font_message(error),
        },
        parsed matches Ok(found) ==> disjoint_sorted(found@) && wf_ranges(found@, glyphs) && found@.len() > 0,
{
    if u16_at(cmap, 2).is_none() {
        return Err(FontError::Invalid.message());
    }
    let collected = match collect_ranges(cmap, glyphs) {
        Ok(collected) => collected,
        Err(error) => return Err(error.message()),
    };
    if collected.len() == 0 {
        return Err(FontError::UnsupportedCmap.message());
    }
    let flat = flatten(&collected, Ghost(glyphs));
    proof {
        let code = collected@[0].start;
        assert(wf_range(collected@[0], glyphs));
        assert(first_glyph(collected@, code) is Some);
        assert(covers(flat@, code));
    }
    Ok(flat)
}

/// Flattened ranges are sorted by start.
pub broadcast proof fn lemma_disjoint_sorted_order(ranges: Seq<Range>)
    requires
        #[trigger] disjoint_sorted(ranges),
    ensures
        starts_sorted(ranges),
{
    assert forall|i: int, j: int| 0 <= i <= j < ranges.len() implies #[trigger] ranges[i].start
        <= #[trigger] ranges[j].start by {
        if i < j {
            assert(ranges[i].end < ranges[j].start);
            assert(ranges[i].start <= ranges[i].end);
        }
    }
}

/// Some range of `ranges` holds `code`.
pub open spec fn covers(ranges: Seq<Range>, code: u32) -> bool {
    exists|index: int| 0 <= index < ranges.len() && #[trigger] ranges[index].start <= code <= ranges[index].end
}

/// The glyph of `character`: the last range starting at or before it decides.
pub fn lookup(ranges: &[Range], character: char) -> (glyph: Option<u16>)
    ensures
        glyph matches Some(gid) ==> exists|index: int|
            0 <= index < ranges@.len() && #[trigger] ranges@[index].start <= character as u32 <= ranges@[index].end
                && gid == ((ranges@[index].gid + (character as u32 - ranges@[index].start)) as u16),
        disjoint_sorted(ranges@) && glyph is None ==> !covers(ranges@, character as u32),
{
    broadcast use lemma_disjoint_sorted_order;

    let code = character as u32;
    let index = upper_bound(ranges, code);
    if index == 0 {
        return None;
    }
    let range = ranges[index - 1];
    proof {
        if disjoint_sorted(ranges@) && code > range.end {
            assert forall|i: int| 0 <= i < ranges@.len() implies !(#[trigger] ranges@[i].start <= code
                <= ranges@[i].end) by {
                if i < index - 1 {
                    assert(ranges@[i].end < ranges@[index - 1].start);
                }
            }
        }
    }
    if code <= range.end {
        Some((range.gid as u32 + (code - range.start)) as u16)
    } else {
        None
    }
}

/// The code point `ranges` first map to `gid` in table order, if any is a scalar value.
pub open spec fn first_code(ranges: Seq<Range>, gid: u16) -> Option<u32>
    decreases ranges.len(),
{
    if ranges.len() == 0 {
        None
    } else {
        let range = ranges[0];
        let code = range.start + (gid - range.gid);
        if range.gid <= gid <= range.gid + (range.end - range.start) && is_scalar(code as u32) {
            Some(code as u32)
        } else {
            first_code(ranges.drop_first(), gid)
        }
    }
}

/// `(glyph, code point)` for each glyph of `used` that some range maps to.
pub open spec fn reverse_entries(ranges: Seq<Range>, used: Seq<u16>) -> Seq<(u16, u32)>
    decreases used.len(),
{
    if used.len() == 0 {
        Seq::empty()
    } else {
        let rest = reverse_entries(ranges, used.drop_last());
        match first_code(ranges, used.last()) {
            Some(code) => rest.push((used.last(), code)),
            None => rest,
        }
    }
}

fn first_character(ranges: &[Range], gid: u16) -> (character: Option<char>)
    requires
        spans_fit(ranges@),
    ensures
        match first_code(ranges@, gid) {
            Some(code) => character matches Some(c) && c as u32 == code,
            None => character is None,
        },
{
    let mut index: usize = 0;
    assert(ranges@.skip(0) =~= ranges@);
    while index < ranges.len()
        invariant
            spans_fit(ranges@),
            index <= ranges@.len(),
            first_code(ranges@, gid) == first_code(ranges@.skip(index as int), gid),
        decreases ranges@.len() - index,
    {
        let range = ranges[index];
        assert(ranges@.skip(index as int)[0] == range);
        assert(ranges@.skip(index as int).drop_first() =~= ranges@.skip(index + 1));
        if range.gid <= gid && gid as u32 <= range.gid as u32 + (range.end - range.start) {
            let code = range.start + (gid - range.gid) as u32;
            if let Some(character) = char_from_code(code) {
                return Some(character);
            }
        }
        index += 1;
    }
    assert(ranges@.skip(index as int).len() == 0);
    None
}

/// Glyph and code point of each `(glyph, character)` entry.
pub open spec fn entry_codes(entries: Seq<(u16, char)>) -> Seq<(u16, u32)> {
    entries.map_values(|entry: (u16, char)| (entry.0, entry.1 as u32))
}

/// The range `first_code` takes the code from: it covers the code, and its
/// glyph for the code is `gid`.
proof fn lemma_first_code_range(ranges: Seq<Range>, gid: u16) -> (index: int)
    requires
        first_code(ranges, gid) is Some,
    ensures
        0 <= index < ranges.len(),
        ranges[index].start <= first_code(ranges, gid)->Some_0 <= ranges[index].end,
        ranges[index].gid + (first_code(ranges, gid)->Some_0 - ranges[index].start) == gid,
    decreases ranges.len(),
{
    let range = ranges[0];
    if range.gid <= gid <= range.gid + (range.end - range.start) && is_scalar((range.start + (gid - range.gid)) as u32) {
        0
    } else {
        let index = lemma_first_code_range(ranges.drop_first(), gid);
        index + 1
    }
}

/// The character `reverse` gives a glyph maps back to that glyph: a range of
/// the table covers it, and every range that covers it gives that glyph, so
/// `lookup` answers that glyph for it in sorted, disjoint ranges.
pub proof fn lemma_reverse_maps_back(ranges: Seq<Range>, gid: u16)
    requires
        disjoint_sorted(ranges),
        first_code(ranges, gid) is Some,
    ensures
        covers(ranges, first_code(ranges, gid)->Some_0),
        forall|index: int|
            0 <= index < ranges.len() && #[trigger] ranges[index].start <= first_code(ranges, gid)->Some_0
                <= ranges[index].end ==> ((ranges[index].gid + (first_code(ranges, gid)->Some_0
                - ranges[index].start)) as u16) == gid,
{
    let code = first_code(ranges, gid)->Some_0;
    let found = lemma_first_code_range(ranges, gid);
    assert forall|index: int|
        0 <= index < ranges.len() && #[trigger] ranges[index].start <= code <= ranges[index].end implies ((
        ranges[index].gid + (code - ranges[index].start)) as u16) == gid by {
        if index < found {
            assert(ranges[index].end < ranges[found].start);
        } else if found < index {
            assert(ranges[found].end < ranges[index].start);
        }
    }
}

/// The character `reverse` gives a glyph is the lowest one the table maps to
/// it, and a glyph the table maps some character to always gets one.
pub proof fn lemma_reverse_lowest(ranges: Seq<Range>, gid: u16, index: int, code: u32)
    requires
        disjoint_sorted(ranges),
        spans_fit(ranges),
        0 <= index < ranges.len(),
        in_range(ranges[index], code),
        glyph_in(ranges[index], code) == gid,
        is_scalar(code),
    ensures
        first_code(ranges, gid) matches Some(lowest) && lowest <= code,
    decreases ranges.len(),
{
    let range = ranges[0];
    assert(range.gid + (range.end - range.start) <= 0xffff);
    assert(ranges[index].gid + (ranges[index].end - ranges[index].start) <= 0xffff);
    if index == 0 {
        assert(range.start + (gid - range.gid) == code);
    } else {
        assert(ranges[0].end < ranges[index].start);
        let first = range.start + (gid - range.gid);
        if !(range.gid <= gid <= range.gid + (range.end - range.start) && is_scalar(first as u32)) {
            let rest = ranges.drop_first();
            assert(rest[index - 1] == ranges[index]);
            assert forall|i: int, j: int| 0 <= i < j < rest.len() implies #[trigger] rest[i].end < #[trigger] rest[j].start by {
                assert(rest[i] == ranges[i + 1] && rest[j] == ranges[j + 1]);
            }
            assert forall|i: int| 0 <= i < rest.len() implies #[trigger] rest[i].start <= rest[i].end by {
                assert(rest[i] == ranges[i + 1]);
            }
            assert forall|i: int| 0 <= i < rest.len() implies {
                let r = #[trigger] rest[i];
                r.start <= r.end && r.gid + (r.end - r.start) <= 0xffff
            } by {
                assert(rest[i] == ranges[i + 1]);
            }
            lemma_reverse_lowest(rest, gid, index - 1, code);
        }
    }
}

/// Lowest code point per used glyph, for `/ToUnicode`: each entry pairs a glyph
/// of `used`, in order, with the first code point the table maps to it.
pub fn reverse(ranges: &[Range], used: &[u16]) -> (entries: Vec<(u16, char)>)
    requires
        spans_fit(ranges@),
        increasing(used@),
    ensures
        entry_codes(entries@) == reverse_entries(ranges@, used@),
{
    let mut entries: Vec<(u16, char)> = Vec::new();
    let mut index: usize = 0;
    assert(entry_codes(entries@) =~= reverse_entries(ranges@, used@.take(0)));
    while index < used.len()
        invariant
            spans_fit(ranges@),
            index <= used@.len(),
            entry_codes(entries@) == reverse_entries(ranges@, used@.take(index as int)),
        decreases used@.len() - index,
    {
        let gid = used[index];
        let ghost before = entries@;
        assert(used@.take(index + 1).drop_last() =~= used@.take(index as int));
        if let Some(character) = first_character(ranges, gid) {
            entries.push((gid, character));
            assert(entry_codes(entries@) =~= entry_codes(before).push((gid, character as u32)));
        }
        index += 1;
    }
    assert(used@.take(used@.len() as int) =~= used@);
    entries
}

/// Flattened, well-formed ranges fit the glyph-span bound `reverse` needs.
pub proof fn lemma_flat_ranges_fit(ranges: Seq<Range>, glyphs: u16)
    requires
        wf_ranges(ranges, glyphs),
    ensures
        spans_fit(ranges),
{
    assert forall|index: int| 0 <= index < ranges.len() implies {
        let range = #[trigger] ranges[index];
        range.start <= range.end && range.gid + (range.end - range.start) <= 0xffff
    } by {
        assert(wf_range(ranges[index], glyphs));
    }
}

} // verus!
