//! Sparse TrueType subset: glyph ids stay as they are, so the widths, the
//! show strings and the Unicode map need no remapping; unused glyphs become
//! zero-length `loca` entries and `numGlyphs` shrinks to the last used one.

use vstd::prelude::*;

use super::bytes::{fits, i16_at, read_i16, read_u16, read_u32, u16_at, u32_at};
use super::truetype::{head_tag, hhea_tag, hmtx_tag, maxp_tag, table, ttf_table};

verus! {

pub open spec fn loca_tag() -> Seq<u8> { seq![0x6cu8, 0x6fu8, 0x63u8, 0x61u8] }
pub open spec fn glyf_tag() -> Seq<u8> { seq![0x67u8, 0x6cu8, 0x79u8, 0x66u8] }
pub open spec fn post_tag() -> Seq<u8> { seq![0x70u8, 0x6fu8, 0x73u8, 0x74u8] }
pub open spec fn cvt_tag() -> Seq<u8> { seq![0x63u8, 0x76u8, 0x74u8, 0x20u8] }
pub open spec fn fpgm_tag() -> Seq<u8> { seq![0x66u8, 0x70u8, 0x67u8, 0x6du8] }
pub open spec fn prep_tag() -> Seq<u8> { seq![0x70u8, 0x72u8, 0x65u8, 0x70u8] }

/// Glyph ids in strictly increasing order, as an ordered set holds them.
pub open spec fn increasing(ids: Seq<u16>) -> bool {
    forall|i: int, j: int| 0 <= i < j < ids.len() ==> ids[i] < ids[j]
}

/// The tables a subset is cut from, with the glyph count, the metrics count
/// and whether `loca` holds 32-bit offsets.
pub struct Source {
    pub head: Seq<u8>,
    pub hhea: Seq<u8>,
    pub hmtx: Seq<u8>,
    pub maxp: Seq<u8>,
    pub loca: Seq<u8>,
    pub glyf: Seq<u8>,
    pub glyphs: int,
    pub metrics: int,
    pub long: bool,
}

/// The tables of `font` a subset needs, when all are there and readable.
pub open spec fn source(font: Seq<u8>) -> Option<Source> {
    match (
        table(font, head_tag()),
        table(font, hhea_tag()),
        table(font, hmtx_tag()),
        table(font, maxp_tag()),
        table(font, loca_tag()),
        table(font, glyf_tag()),
    ) {
        (Some(head), Some(hhea), Some(hmtx), Some(maxp), Some(loca), Some(glyf)) => if fits(maxp, 4, 2)
            && fits(hhea, 34, 2) && fits(head, 50, 2) {
            Some(
                Source {
                    head,
                    hhea,
                    hmtx,
                    maxp,
                    loca,
                    glyf,
                    glyphs: read_u16(maxp, 4),
                    metrics: read_u16(hhea, 34),
                    long: read_i16(head, 50) != 0,
                },
            )
        } else {
            None
        },
        _ => None,
    }
}

/// Where `loca` says glyph `index` starts in `glyf`.
pub open spec fn loca_offset(source: Source, index: int) -> Option<int> {
    if source.long {
        if fits(source.loca, index * 4, 4) {
            Some(read_u32(source.loca, index * 4))
        } else {
            None
        }
    } else {
        if fits(source.loca, index * 2, 2) {
            Some(read_u16(source.loca, index * 2) * 2)
        } else {
            None
        }
    }
}

/// The outline of glyph `gid`: the `glyf` bytes between its offset and the next.
pub open spec fn outline(source: Source, gid: int) -> Option<Seq<u8>> {
    match (loca_offset(source, gid), loca_offset(source, gid + 1)) {
        (Some(start), Some(end)) => if start <= end <= source.glyf.len() {
            Some(source.glyf.subrange(start, end))
        } else {
            None
        },
        _ => None,
    }
}

/// The bytes a component record's arguments and transform take, by its flags.
pub open spec fn component_size(flags: u16) -> int {
    4 + (if flags & 1 != 0 { 4int } else { 2int }) + (if flags & 0xc8 == 0x08 {
        2int
    } else if flags & 0xc8 == 0x40 {
        4int
    } else if flags & 0xc8 == 0x80 {
        8int
    } else {
        0int
    })
}

/// The glyph ids of the component records from `at` on, after `found`.
pub open spec fn components_from(outline: Seq<u8>, at: int, found: Seq<u16>) -> Option<Seq<u16>>
    decreases (if at <= outline.len() { outline.len() - at } else { 0 }),
{
    if !fits(outline, at, 4) {
        None
    } else {
        let flags = read_u16(outline, at) as u16;
        let found = found.push(read_u16(outline, at + 2) as u16);
        if flags & 0x20 == 0 {
            Some(found)
        } else {
            components_from(outline, at + component_size(flags), found)
        }
    }
}

/// Glyph ids a composite glyph references; none for a simple glyph.
pub open spec fn spec_components(outline: Seq<u8>) -> Option<Seq<u16>> {
    if outline.len() < 10 || read_i16(outline, 0) >= 0 {
        Some(seq![])
    } else {
        components_from(outline, 10, seq![])
    }
}

/// The glyphs glyph `gid` references, or `None` when it is out of range or
/// its outline does not read.
pub open spec fn references(source: Source, gid: u16) -> Option<Seq<u16>> {
    if gid >= source.glyphs {
        None
    } else {
        match outline(source, gid as int) {
            Some(bytes) => spec_components(bytes),
            None => None,
        }
    }
}

/// Glyph `from` reads and references glyph `to`.
pub open spec fn refers(source: Source, from: u16, to: u16) -> bool {
    match references(source, from) {
        Some(parts) => parts.contains(to),
        None => false,
    }
}

/// A glyph kept from the start: `.notdef` and every used glyph.
pub open spec fn seed(used: Seq<u16>, gid: u16) -> bool {
    gid == 0 || used.contains(gid)
}

/// A chain of composite references from a kept glyph.
pub open spec fn reference_path(source: Source, used: Seq<u16>, path: Seq<u16>) -> bool {
    &&& path.len() >= 1
    &&& seed(used, path[0])
    &&& forall|index: int| 0 <= index < path.len() - 1 ==> #[trigger] refers(source, path[index], path[index + 1])
}

/// Glyphs the subset keeps: the used ones, `.notdef`, and every glyph they reference, transitively.
pub open spec fn reachable(source: Source, used: Seq<u16>, gid: u16) -> bool {
    exists|path: Seq<u16>| #[trigger] reference_path(source, used, path) && path.last() == gid
}

/// Some kept glyph is out of range or has an outline that does not read.
pub open spec fn closure_fails(source: Source, used: Seq<u16>) -> bool {
    exists|gid: u16| #[trigger] reachable(source, used, gid) && references(source, gid) is None
}

/// The last kept glyph.
pub open spec fn last_kept(source: Source, used: Seq<u16>) -> u16 {
    choose|gid: u16| reachable(source, used, gid) && forall|other: u16| #[trigger] reachable(source, used, other) ==> other <= gid
}

/// A strictly increasing list of glyph ids holds each id at most once and at most 65536 of them.
proof fn lemma_increasing_bound(ids: Seq<u16>)
    requires
        increasing(ids),
    ensures
        ids.len() <= 65536,
        forall|index: int| 0 <= index < ids.len() ==> ids[index] >= index,
{
    assert forall|index: int| 0 <= index < ids.len() implies ids[index] >= index by {
        lemma_increasing_floor(ids, index);
    }
    if ids.len() > 65536 {
        assert(ids[65536] >= 65536);
    }
}

proof fn lemma_increasing_floor(ids: Seq<u16>, index: int)
    requires
        increasing(ids),
        0 <= index < ids.len(),
    ensures
        ids[index] >= index,
    decreases index,
{
    if index > 0 {
        lemma_increasing_floor(ids, index - 1);
    }
}

/// Insert `value` where it belongs; `true` when it was not there yet.
fn insert_sorted(keep: &mut Vec<u16>, value: u16) -> (inserted: bool)
    requires
        increasing(old(keep)@),
    ensures
        increasing(final(keep)@),
        inserted == !old(keep)@.contains(value),
        forall|gid: u16| #[trigger] final(keep)@.contains(gid) <==> (old(keep)@.contains(gid) || gid == value),
        final(keep)@.len() == old(keep)@.len() + if inserted { 1int } else { 0int },
{
    let mut index: usize = 0;
    while index < keep.len() && keep[index] < value
        invariant
            index <= keep@.len(),
            increasing(keep@),
            forall|before: int| 0 <= before < index ==> keep@[before] < value,
        decreases keep@.len() - index,
    {
        index += 1;
    }
    if index < keep.len() && keep[index] == value {
        return false;
    }
    proof {
        assert forall|at: int| 0 <= at < keep@.len() implies keep@[at] != value by {
            if at >= index {
                assert(keep@[at] >= keep@[index as int]);
            }
        }
    }
    let ghost before = keep@;
    keep.insert(index, value);
    proof {
        assert forall|gid: u16| #[trigger] keep@.contains(gid) <==> (before.contains(gid) || gid == value) by {
            if keep@.contains(gid) {
                let at = choose|at: int| 0 <= at < keep@.len() && keep@[at] == gid;
                if at < index {
                    assert(before[at] == gid);
                } else if at > index {
                    assert(before[at - 1] == gid);
                }
            }
            if before.contains(gid) {
                let at = choose|at: int| 0 <= at < before.len() && before[at] == gid;
                if at < index {
                    assert(keep@[at] == gid);
                } else {
                    assert(keep@[at + 1] == gid);
                }
            }
            if gid == value {
                assert(keep@[index as int] == gid);
            }
        }
    }
    true
}

/// A kept glyph's references are kept.
proof fn lemma_reach_step(source: Source, used: Seq<u16>, from: u16, to: u16)
    requires
        reachable(source, used, from),
        refers(source, from, to),
    ensures
        reachable(source, used, to),
{
    let path = choose|path: Seq<u16>| #[trigger] reference_path(source, used, path) && path.last() == from;
    let longer = path.push(to);
    assert forall|index: int| 0 <= index < longer.len() - 1 implies #[trigger] refers(
        source,
        longer[index],
        longer[index + 1],
    ) by {
        if index < path.len() - 1 {
            assert(longer[index] == path[index] && longer[index + 1] == path[index + 1]);
        } else {
            assert(longer[index] == from && longer[index + 1] == to);
        }
    }
    assert(reference_path(source, used, longer));
    assert(longer.last() == to);
}

/// A seed is kept.
proof fn lemma_reach_seed(source: Source, used: Seq<u16>, gid: u16)
    requires
        seed(used, gid),
    ensures
        reachable(source, used, gid),
{
    let path = seq![gid];
    assert(reference_path(source, used, path));
    assert(path.last() == gid);
}

/// A list that holds the seeds and every reference of what it holds holds every kept glyph.
proof fn lemma_closed_holds(source: Source, used: Seq<u16>, keep: Seq<u16>, path: Seq<u16>)
    requires
        forall|gid: u16| seed(used, gid) ==> keep.contains(gid),
        forall|gid: u16, to: u16| keep.contains(gid) && #[trigger] refers(source, gid, to) ==> keep.contains(to),
        reference_path(source, used, path),
    ensures
        keep.contains(path.last()),
    decreases path.len(),
{
    if path.len() > 1 {
        let shorter = path.drop_last();
        assert forall|index: int| 0 <= index < shorter.len() - 1 implies #[trigger] refers(
            source,
            shorter[index],
            shorter[index + 1],
        ) by {
            assert(refers(source, path[index], path[index + 1]));
        }
        lemma_closed_holds(source, used, keep, shorter);
        let last = path.len() - 2;
        assert(refers(source, path[last], path[last + 1]));
        assert(shorter.last() == path[last]);
    }
}

/// The tables a subset is cut from, borrowed from the font.
pub struct Tables<'a> {
    head: &'a [u8],
    hhea: &'a [u8],
    hmtx: &'a [u8],
    maxp: &'a [u8],
    loca: &'a [u8],
    glyf: &'a [u8],
    glyphs: u16,
    metrics: usize,
    long: bool,
}

impl<'a> View for Tables<'a> {
    type V = Source;

    closed spec fn view(&self) -> Source {
        Source {
            head: self.head@,
            hhea: self.hhea@,
            hmtx: self.hmtx@,
            maxp: self.maxp@,
            loca: self.loca@,
            glyf: self.glyf@,
            glyphs: self.glyphs as int,
            metrics: self.metrics as int,
            long: self.long,
        }
    }
}

/// A table `ttf_table` finds, or `None`.
fn find<'a>(font: &'a [u8], tag: &[u8; 4]) -> (found: Option<&'a [u8]>)
    ensures
        match table(font@, tag@) {
            Some(data) => found matches Some(slice) && slice@ == data,
            None => found is None,
        },
{
    match ttf_table(font, tag) {
        Ok(data) => Some(data),
        Err(_) => None,
    }
}

/// The tables of `font` a subset needs.
fn tables<'a>(font: &'a [u8]) -> (found: Option<Tables<'a>>)
    ensures
        match source(font@) {
            Some(expected) => found matches Some(tables) && tables@ == expected,
            None => found is None,
        },
{
    let head = find(font, &[0x68, 0x65, 0x61, 0x64])?;
    let hhea = find(font, &[0x68, 0x68, 0x65, 0x61])?;
    let hmtx = find(font, &[0x68, 0x6d, 0x74, 0x78])?;
    let maxp = find(font, &[0x6d, 0x61, 0x78, 0x70])?;
    let loca = find(font, &[0x6c, 0x6f, 0x63, 0x61])?;
    let glyf = find(font, &[0x67, 0x6c, 0x79, 0x66])?;
    proof {
        assert([0x68u8, 0x65u8, 0x61u8, 0x64u8]@ =~= head_tag());
        assert([0x68u8, 0x68u8, 0x65u8, 0x61u8]@ =~= hhea_tag());
        assert([0x68u8, 0x6du8, 0x74u8, 0x78u8]@ =~= hmtx_tag());
        assert([0x6du8, 0x61u8, 0x78u8, 0x70u8]@ =~= maxp_tag());
        assert([0x6cu8, 0x6fu8, 0x63u8, 0x61u8]@ =~= loca_tag());
        assert([0x67u8, 0x6cu8, 0x79u8, 0x66u8]@ =~= glyf_tag());
    }
    let glyphs = u16_at(maxp, 4)?;
    let metrics = u16_at(hhea, 34)? as usize;
    let long = i16_at(head, 50)? != 0;
    Some(Tables { head, hhea, hmtx, maxp, loca, glyf, glyphs, metrics, long })
}

impl<'a> Tables<'a> {
    /// Where `loca` says glyph `index` starts.
    fn offset(&self, index: usize) -> (offset: Option<usize>)
        requires
            index <= 65536,
        ensures
            match loca_offset(self@, index as int) {
                Some(expected) => offset matches Some(found) && found == expected,
                None => offset is None,
            },
    {
        if self.long {
            match u32_at(self.loca, index * 4) {
                Some(value) => Some(value as usize),
                None => None,
            }
        } else {
            match u16_at(self.loca, index * 2) {
                Some(value) => Some(value as usize * 2),
                None => None,
            }
        }
    }

    /// The outline of glyph `gid`.
    fn outline(&self, gid: usize) -> (bytes: Option<&'a [u8]>)
        requires
            gid < 65536,
        ensures
            match outline(self@, gid as int) {
                Some(expected) => bytes matches Some(found) && found@ == expected,
                None => bytes is None,
            },
    {
        let start = self.offset(gid)?;
        let end = self.offset(gid + 1)?;
        if start <= end && end <= self.glyf.len() {
            Some(&self.glyf[start..end])
        } else {
            None
        }
    }
}

/// Glyph ids a composite glyph references; empty for simple glyphs.
pub fn components(outline: &[u8]) -> (found: Option<Vec<u16>>)
    ensures
        match spec_components(outline@) {
            Some(expected) => found matches Some(ids) && ids@ == expected,
            None => found is None,
        },
{
    let mut found: Vec<u16> = Vec::new();
    if outline.len() < 10 {
        return Some(found);
    }
    let first = match i16_at(outline, 0) {
        Some(value) => value,
        None => return None,
    };
    if first >= 0 {
        return Some(found);
    }
    let mut at: usize = 10;
    assert(found@ =~= Seq::<u16>::empty());
    loop
        invariant
            at <= outline@.len() + 16,
            outline@.len() <= usize::MAX,
            spec_components(outline@) == components_from(outline@, at as int, found@),
        decreases outline@.len() + 16 - at,
    {
        let flags = match u16_at(outline, at) {
            Some(value) => value,
            None => return None,
        };
        let second = match at.checked_add(2) {
            Some(value) => value,
            None => return None,
        };
        let gid = match u16_at(outline, second) {
            Some(value) => value,
            None => return None,
        };
        found.push(gid);
        let extra: usize = match flags & 0xc8 {
            0x08 => 2,
            0x40 => 4,
            0x80 => 8,
            _ => 0,
        };
        let size: usize = 4 + if flags & 1 != 0 { 4 } else { 2 } + extra;
        assert(size == component_size(flags));
        if flags & 0x20 == 0 {
            return Some(found);
        }
        at = match at.checked_add(size) {
            Some(value) => value,
            None => {
                assert(components_from(outline@, at + size, found@) is None);
                return None;
            },
        };
    }
}

/// `.notdef` and the used glyphs, in order.
fn seeds(used: &[u16]) -> (keep: Vec<u16>)
    requires
        increasing(used@),
    ensures
        increasing(keep@),
        forall|gid: u16| #[trigger] keep@.contains(gid) <==> seed(used@, gid),
{
    let mut keep: Vec<u16> = Vec::new();
    if used.len() == 0 || used[0] != 0 {
        keep.push(0);
    }
    let ghost start = keep@;
    let mut index: usize = 0;
    while index < used.len()
        invariant
            index <= used@.len(),
            increasing(used@),
            start.len() <= 1,
            start.len() == 1 ==> start[0] == 0 && (used@.len() == 0 || used@[0] != 0),
            start.len() == 0 ==> used@.len() > 0 && used@[0] == 0,
            keep@ == start + used@.take(index as int),
        decreases used@.len() - index,
    {
        keep.push(used[index]);
        index += 1;
        assert(keep@ =~= start + used@.take(index as int));
    }
    assert(used@.take(used@.len() as int) =~= used@);
    assert forall|i: int, j: int| 0 <= i < j < keep@.len() implies keep@[i] < keep@[j] by {
        if start.len() == 1 && i == 0 {
            assert(used@[j - 1] != 0 || j - 1 == 0);
            if j - 1 > 0 {
                assert(used@[0] < used@[j - 1]);
            }
        }
    }
    assert forall|gid: u16| #[trigger] keep@.contains(gid) <==> seed(used@, gid) by {
        if keep@.contains(gid) {
            let at = choose|at: int| 0 <= at < keep@.len() && keep@[at] == gid;
            if at >= start.len() {
                assert(used@[at - start.len()] == gid);
            }
        }
        if used@.contains(gid) {
            let at = choose|at: int| 0 <= at < used@.len() && used@[at] == gid;
            assert(keep@[at + start.len()] == gid);
        }
        if gid == 0 {
            if start.len() == 1 {
                assert(keep@[0] == 0);
            } else {
                assert(keep@[0] == used@[0]);
            }
        }
    }
    keep
}

/// Every glyph the subset keeps, in order: the used glyphs, `.notdef` and
/// what their composites reference; `None` when one of them does not read.
fn closure(tables: &Tables, used: &[u16]) -> (keep: Option<Vec<u16>>)
    requires
        increasing(used@),
    ensures
        match keep {
            Some(keep) => !closure_fails(tables@, used@) && increasing(keep@) && forall|gid: u16| #[trigger]
                keep@.contains(gid) <==> reachable(tables@, used@, gid),
            None => closure_fails(tables@, used@),
        },
{
    let ghost source = tables@;
    let ghost ids = used@;
    let mut keep = seeds(used);
    let mut pending: Vec<u16> = Vec::new();
    let mut index: usize = 0;
    while index < keep.len()
        invariant
            index <= keep@.len(),
            pending@ == keep@.take(index as int),
        decreases keep@.len() - index,
    {
        pending.push(keep[index]);
        index += 1;
        assert(pending@ =~= keep@.take(index as int));
    }
    assert(pending@ =~= keep@);
    proof {
        assert forall|gid: u16| #[trigger] keep@.contains(gid) implies reachable(source, ids, gid) by {
            lemma_reach_seed(source, ids, gid);
        }
        lemma_increasing_bound(keep@);
        assert(pending@.no_duplicates()) by {
            assert forall|i: int, j: int| 0 <= i < pending@.len() && 0 <= j < pending@.len() && i != j implies pending@[i] != pending@[j] by {
                if i < j {
                    assert(keep@[i] < keep@[j]);
                } else {
                    assert(keep@[j] < keep@[i]);
                }
            }
        }
    }
    while pending.len() > 0
        invariant
            source == tables@,
            ids == used@,
            increasing(keep@),
            keep@.len() <= 65536,
            pending@.len() <= keep@.len(),
            pending@.no_duplicates(),
            forall|gid: u16| #[trigger] keep@.contains(gid) ==> reachable(source, ids, gid),
            forall|gid: u16| seed(ids, gid) ==> #[trigger] keep@.contains(gid),
            forall|at: int| 0 <= at < pending@.len() ==> keep@.contains(#[trigger] pending@[at]),
            forall|gid: u16| #[trigger] keep@.contains(gid) && !pending@.contains(gid) ==> references(source, gid) is Some,
            forall|gid: u16, to: u16| #[trigger] keep@.contains(gid) && !pending@.contains(gid) && refers(source, gid, to) ==> #[trigger] keep@.contains(to),
        decreases 2 * (65536 - keep@.len()) + pending@.len(),
    {
        let ghost before = pending@;
        let ghost measure = 2 * (65536 - keep@.len()) + pending@.len();
        let gid = pending.pop().unwrap();
        proof {
            assert(before[before.len() - 1] == gid);
            assert(keep@.contains(before[before.len() - 1]));
            assert(pending@ =~= before.drop_last());
            assert(!pending@.contains(gid)) by {
                if pending@.contains(gid) {
                    let at = choose|at: int| 0 <= at < pending@.len() && pending@[at] == gid;
                    assert(before[at] == before[before.len() - 1]);
                }
            }
            assert forall|g: u16| #[trigger] keep@.contains(g) && !pending@.contains(g) && g != gid implies !before.contains(g) by {
                if before.contains(g) {
                    let at = choose|at: int| 0 <= at < before.len() && before[at] == g;
                    assert(pending@[at] == g);
                }
            }
        }
        if gid >= tables.glyphs {
            return None;
        }
        let outline = match tables.outline(gid as usize) {
            Some(outline) => outline,
            None => return None,
        };
        let parts = match components(outline) {
            Some(parts) => parts,
            None => return None,
        };
        assert(references(source, gid) == Some(parts@));
        let mut next: usize = 0;
        while next < parts.len()
            invariant
                next <= parts@.len(),
                references(source, gid) == Some(parts@),
                keep@.contains(gid),
                !pending@.contains(gid),
                increasing(keep@),
                keep@.len() <= 65536,
                pending@.len() <= keep@.len(),
                2 * (65536 - keep@.len()) + pending@.len() < measure,
                pending@.no_duplicates(),
                forall|at: int| 0 <= at < next ==> keep@.contains(#[trigger] parts@[at]),
                forall|g: u16| #[trigger] keep@.contains(g) ==> reachable(source, ids, g),
                forall|g: u16| seed(ids, g) ==> #[trigger] keep@.contains(g),
                forall|at: int| 0 <= at < pending@.len() ==> keep@.contains(#[trigger] pending@[at]),
                forall|g: u16| #[trigger] keep@.contains(g) && !pending@.contains(g) && g != gid ==> references(source, g) is Some,
                forall|g: u16, to: u16| #[trigger] keep@.contains(g) && !pending@.contains(g) && g != gid && refers(source, g, to) ==> #[trigger] keep@.contains(to),
            decreases parts@.len() - next,
        {
            let part = parts[next];
            let ghost before_keep = keep@;
            let ghost before_pending = pending@;
            proof {
                assert(refers(source, gid, part));
                lemma_reach_step(source, ids, gid, part);
            }
            if insert_sorted(&mut keep, part) {
                proof {
                    lemma_increasing_bound(keep@);
                }
                pending.push(part);
                proof {
                    assert(pending@[pending@.len() - 1] == part);
                    assert(pending@.contains(part));
                    assert forall|i: int, j: int| 0 <= i < pending@.len() && 0 <= j < pending@.len() && i != j implies pending@[i] != pending@[j] by {
                        if i < before_pending.len() && j < before_pending.len() {
                            assert(before_pending[i] != before_pending[j]);
                        } else if i == before_pending.len() {
                            assert(before_keep.contains(before_pending[j]));
                        } else {
                            assert(before_keep.contains(before_pending[i]));
                        }
                    }
                    assert forall|g: u16| #[trigger] keep@.contains(g) && !pending@.contains(g) && g != gid implies references(source, g) is Some by {
                        assert(keep@.contains(g) <==> (before_keep.contains(g) || g == part));
                        assert(before_keep.contains(g));
                        if before_pending.contains(g) {
                            let at = choose|at: int| 0 <= at < before_pending.len() && before_pending[at] == g;
                            assert(pending@[at] == g);
                        }
                    }
                    assert forall|g: u16, to: u16| #[trigger] keep@.contains(g) && !pending@.contains(g) && g != gid && refers(source, g, to) implies #[trigger] keep@.contains(to) by {
                        assert(keep@.contains(g) <==> (before_keep.contains(g) || g == part));
                        assert(keep@.contains(to) <==> (before_keep.contains(to) || to == part));
                        assert(before_keep.contains(g));
                        if before_pending.contains(g) {
                            let at = choose|at: int| 0 <= at < before_pending.len() && before_pending[at] == g;
                            assert(pending@[at] == g);
                        }
                        assert(before_keep.contains(to));
                    }
                    assert(!pending@.contains(gid)) by {
                        if pending@.contains(gid) {
                            let at = choose|at: int| 0 <= at < pending@.len() && pending@[at] == gid;
                            if at < before_pending.len() {
                                assert(before_pending[at] == gid);
                            }
                        }
                    }
                }
            }
            next += 1;
        }
        proof {
            assert forall|g: u16, to: u16| #[trigger] keep@.contains(g) && !pending@.contains(g) && refers(source, g, to) implies #[trigger] keep@.contains(to) by {
                if g == gid {
                    let at = choose|at: int| 0 <= at < parts@.len() && parts@[at] == to;
                    assert(keep@.contains(parts@[at]));
                }
            }
        }
    }
    proof {
        assert forall|gid: u16| #[trigger] reachable(source, ids, gid) implies keep@.contains(gid) by {
            let path = choose|path: Seq<u16>| #[trigger] reference_path(source, ids, path) && path.last() == gid;
            lemma_closed_holds(source, ids, keep@, path);
        }
    }
    Some(keep)
}

/// Glyph `gid` is kept.
pub open spec fn kept(source: Source, used: Seq<u16>, gid: int) -> bool {
    0 <= gid < 65536 && reachable(source, used, gid as u16)
}

/// Zero bytes up to the next multiple of four.
pub open spec fn pad4(data: Seq<u8>) -> Seq<u8> {
    data + Seq::new(((4 - data.len() % 4) % 4) as nat, |index: int| 0u8)
}

/// The big-endian bytes of a 16-bit value.
pub open spec fn be16(value: int) -> Seq<u8> {
    seq![(value / 0x100 % 0x100) as u8, (value % 0x100) as u8]
}

/// The big-endian bytes of a 32-bit value.
pub open spec fn be32(value: int) -> Seq<u8> {
    seq![
        (value / 0x100_0000 % 0x100) as u8,
        (value / 0x1_0000 % 0x100) as u8,
        (value / 0x100 % 0x100) as u8,
        (value % 0x100) as u8,
    ]
}

/// The new `glyf` for glyphs below `count`: each kept outline, padded to four bytes.
pub open spec fn glyf_upto(source: Source, used: Seq<u16>, count: nat) -> Seq<u8>
    decreases count,
{
    if count == 0 {
        seq![]
    } else {
        let before = glyf_upto(source, used, (count - 1) as nat);
        if kept(source, used, count - 1) {
            match outline(source, count - 1) {
                Some(bytes) => before + pad4(bytes),
                None => before,
            }
        } else {
            before
        }
    }
}

/// The new `loca` entries for glyphs below `count`: where each starts in the new `glyf`.
pub open spec fn loca_upto(source: Source, used: Seq<u16>, count: nat) -> Seq<u8>
    decreases count,
{
    if count == 0 {
        seq![]
    } else {
        loca_upto(source, used, (count - 1) as nat) + be32(
            glyf_upto(source, used, (count - 1) as nat).len() as int % 0x1_0000_0000,
        )
    }
}

/// The new `hmtx` record of glyph `gid`: zeros when dropped, else its advance
/// (glyphs past the metrics count share the last) and side bearing (zeros
/// when `hmtx` lacks it).
pub open spec fn hmtx_entry(source: Source, used: Seq<u16>, gid: int) -> Option<Seq<u8>> {
    if !kept(source, used, gid) {
        Some(seq![0u8, 0u8, 0u8, 0u8])
    } else if source.metrics == 0 {
        None
    } else {
        let metric = (if gid < source.metrics - 1 { gid } else { source.metrics - 1 }) * 4;
        if !fits(source.hmtx, metric, 2) {
            None
        } else {
            let bearing = if gid < source.metrics {
                metric + 2
            } else {
                source.metrics * 4 + (gid - source.metrics) * 2
            };
            Some(
                source.hmtx.subrange(metric, metric + 2) + if fits(source.hmtx, bearing, 2) {
                    source.hmtx.subrange(bearing, bearing + 2)
                } else {
                    seq![0u8, 0u8]
                },
            )
        }
    }
}

/// The new `hmtx` for glyphs below `count`.
pub open spec fn hmtx_upto(source: Source, used: Seq<u16>, count: nat) -> Option<Seq<u8>>
    decreases count,
{
    if count == 0 {
        Some(seq![])
    } else {
        match (hmtx_upto(source, used, (count - 1) as nat), hmtx_entry(source, used, count - 1)) {
            (Some(before), Some(entry)) => Some(before + entry),
            _ => None,
        }
    }
}

/// `head` cut to 54 bytes, its checksum adjustment cleared and 32-bit `loca` offsets set.
pub open spec fn new_head(head: Seq<u8>) -> Option<Seq<u8>> {
    if head.len() < 54 {
        None
    } else {
        Some(head.subrange(0, 8) + seq![0u8, 0u8, 0u8, 0u8] + head.subrange(12, 50) + seq![0u8, 1u8] + head.subrange(52, 54))
    }
}

/// `hhea` cut to 36 bytes with `count` metrics.
pub open spec fn new_hhea(hhea: Seq<u8>, count: int) -> Option<Seq<u8>> {
    if hhea.len() < 36 {
        None
    } else {
        Some(hhea.subrange(0, 34) + be16(count))
    }
}

/// `maxp` with `count` glyphs.
pub open spec fn new_maxp(maxp: Seq<u8>, count: int) -> Seq<u8> {
    maxp.subrange(0, 4) + be16(count) + maxp.subrange(6, maxp.len() as int)
}

/// A version 3 `post` table: no glyph names, the font's header fields kept.
pub open spec fn new_post(font: Seq<u8>) -> Seq<u8> {
    seq![0u8, 3u8, 0u8, 0u8] + match table(font, post_tag()) {
        Some(post) => if post.len() >= 32 {
            post.subrange(4, 32)
        } else {
            Seq::new(28, |index: int| 0u8)
        },
        None => Seq::new(28, |index: int| 0u8),
    }
}

/// A table of the subset: its tag and its bytes.
pub open spec fn optional_table(font: Seq<u8>, tag: Seq<u8>) -> Seq<(Seq<u8>, Seq<u8>)> {
    match table(font, tag) {
        Some(data) => seq![(tag, data)],
        None => seq![],
    }
}

/// The big-endian word at `at`, the bytes past the end read as zero.
pub open spec fn word(data: Seq<u8>, at: int) -> int {
    (if at < data.len() { data[at] as int } else { 0 }) * 0x100_0000 + (if at + 1 < data.len() {
        data[at + 1] as int
    } else {
        0
    }) * 0x1_0000 + (if at + 2 < data.len() { data[at + 2] as int } else { 0 }) * 0x100 + (if at + 3
        < data.len() {
        data[at + 3] as int
    } else {
        0
    })
}

/// The wrapping sum of the first `words` words.
pub open spec fn checksum_upto(data: Seq<u8>, words: nat) -> int
    decreases words,
{
    if words == 0 {
        0
    } else {
        (checksum_upto(data, (words - 1) as nat) + word(data, 4 * (words - 1))) % 0x1_0000_0000
    }
}

/// The TrueType table checksum: the wrapping sum of the big-endian words, zero-padded.
pub open spec fn table_checksum(data: Seq<u8>) -> int {
    checksum_upto(data, ((data.len() + 3) / 4) as nat)
}

/// The table records from `offset` on.
pub open spec fn directory(tables: Seq<(Seq<u8>, Seq<u8>)>, offset: int) -> Seq<u8>
    decreases tables.len(),
{
    if tables.len() == 0 {
        seq![]
    } else {
        let (tag, data) = tables[0];
        tag + be32(table_checksum(data)) + be32(offset % 0x1_0000_0000) + be32(data.len() as int % 0x1_0000_0000)
            + directory(tables.drop_first(), offset + pad4(data).len())
    }
}

/// The tables' bytes, each padded to four.
pub open spec fn bodies(tables: Seq<(Seq<u8>, Seq<u8>)>) -> Seq<u8>
    decreases tables.len(),
{
    if tables.len() == 0 {
        seq![]
    } else {
        pad4(tables[0].1) + bodies(tables.drop_first())
    }
}

/// The largest power of two exponent not above `value`.
pub open spec fn floor_log2(value: nat) -> nat
    decreases value,
{
    if value < 2 {
        0
    } else {
        1 + floor_log2(value / 2)
    }
}

/// A font file of `tables` in tag order: the offset table, the records, the data.
pub open spec fn assemble(tables: Seq<(Seq<u8>, Seq<u8>)>) -> Seq<u8> {
    let count = tables.len() as int;
    let selector = floor_log2(tables.len()) as int;
    let range = 16 * pow2_int(selector);
    seq![0u8, 1u8, 0u8, 0u8] + be16(count) + be16(range) + be16(selector) + be16(count * 16 - range) + directory(
        tables,
        12 + 16 * count,
    ) + bodies(tables)
}

pub open spec fn pow2_int(exponent: int) -> int
    decreases exponent,
{
    if exponent <= 0 {
        1
    } else {
        2 * pow2_int(exponent - 1)
    }
}

/// The subset of `font` keeping `used` glyphs, or `None` when a table it
/// needs does not read; the caller then embeds the whole file.
pub open spec fn spec_subset(font: Seq<u8>, used: Seq<u16>) -> Option<Seq<u8>> {
    match source(font) {
        None => None,
        Some(source) => if closure_fails(source, used) {
            None
        } else {
            subset_output(font, source, used, last_kept(source, used) as int + 1)
        },
    }
}

/// The subset file for glyphs below `count`, when its `hmtx`, `head` and `hhea` read.
pub open spec fn subset_output(font: Seq<u8>, source: Source, used: Seq<u16>, count: int) -> Option<Seq<u8>> {
    match (hmtx_upto(source, used, count as nat), new_head(source.head), new_hhea(source.hhea, count)) {
        (Some(hmtx), Some(head), Some(hhea)) => {
            let glyf = glyf_upto(source, used, count as nat);
            let loca = loca_upto(source, used, count as nat) + be32(glyf.len() as int % 0x1_0000_0000);
            Some(
                assemble(
                    optional_table(font, cvt_tag()) + optional_table(font, fpgm_tag()) + seq![
                        (glyf_tag(), glyf),
                        (head_tag(), head),
                        (hhea_tag(), hhea),
                        (hmtx_tag(), hmtx),
                        (loca_tag(), loca),
                        (maxp_tag(), new_maxp(source.maxp, count)),
                        (post_tag(), new_post(font)),
                    ] + optional_table(font, prep_tag()),
                ),
            )
        },
        _ => None,
    }
}

fn push_be16(out: &mut Vec<u8>, value: u16)
    ensures
        final(out)@ == old(out)@ + be16(value as int),
{
    out.push((value / 0x100) as u8);
    out.push((value % 0x100) as u8);
    assert(final(out)@ =~= old(out)@ + be16(value as int));
}

fn push_be32(out: &mut Vec<u8>, value: u32)
    ensures
        final(out)@ == old(out)@ + be32(value as int),
{
    out.push((value / 0x100_0000 % 0x100) as u8);
    out.push((value / 0x1_0000 % 0x100) as u8);
    out.push((value / 0x100 % 0x100) as u8);
    out.push((value % 0x100) as u8);
    assert(final(out)@ =~= old(out)@ + be32(value as int));
}

/// The low 32 bits of a length, as the table directory stores it.
fn low32(value: usize) -> (low: u32)
    ensures
        low as int == value as int % 0x1_0000_0000,
{
    (value as u64 % 0x1_0000_0000) as u32
}

/// Zero bytes until the length is a multiple of four.
fn pad(out: &mut Vec<u8>, start: Ghost<Seq<u8>>, data: Ghost<Seq<u8>>)
    requires
        old(out)@ == start@ + data@,
        start@.len() % 4 == 0,
    ensures
        final(out)@ == start@ + pad4(data@),
        final(out)@.len() % 4 == 0,
{
    proof {
        assert((start@.len() + data@.len()) % 4 == data@.len() % 4) by (nonlinear_arith)
            requires
                start@.len() % 4 == 0,
        ;
    }
    while out.len() % 4 != 0
        invariant
            out@.len() >= start@.len() + data@.len(),
            out@.len() <= start@.len() + data@.len() + 3,
            (out@.len() - start@.len() - data@.len()) <= (4 - data@.len() % 4) % 4,
            (out@.len() - start@.len() - data@.len() + data@.len()) % 4 == 0 ==> out@.len() % 4 == 0,
            out@ == start@ + data@ + Seq::new((out@.len() - start@.len() - data@.len()) as nat, |index: int| 0u8),
            start@.len() % 4 == 0,
        decreases start@.len() + data@.len() + 3 - out@.len(),
    {
        let ghost before = out@;
        out.push(0);
        assert(out@ =~= start@ + data@ + Seq::new((out@.len() - start@.len() - data@.len()) as nat, |index: int| 0u8));
    }
    assert(out@ =~= start@ + pad4(data@));
}

/// The byte `step` bytes past `at`, or zero past the end.
fn byte_or_zero(data: &[u8], at: usize, step: usize) -> (byte: u32)
    requires
        at < data@.len(),
    ensures
        byte == if at + step < data@.len() { data@[at + step] as int } else { 0 },
{
    if step < data.len() - at {
        data[at + step] as u32
    } else {
        0
    }
}

/// The TrueType table checksum.
pub fn checksum(data: &[u8]) -> (sum: u32)
    ensures
        sum == table_checksum(data@),
{
    let count = data.len() / 4 + if data.len() % 4 != 0 { 1 } else { 0 };
    assert(count == (data@.len() + 3) / 4);
    let mut sum: u32 = 0;
    let mut words: usize = 0;
    while words < count
        invariant
            count == (data@.len() + 3) / 4,
            data@.len() <= usize::MAX,
            words <= count,
            sum == checksum_upto(data@, words as nat),
        decreases count - words,
    {
        let at = words * 4;
        let value = byte_or_zero(data, at, 0) * 0x100_0000 + byte_or_zero(data, at, 1) * 0x1_0000
            + byte_or_zero(data, at, 2) * 0x100 + byte_or_zero(data, at, 3);
        assert(value == word(data@, at as int));
        sum = sum.wrapping_add(value);
        words += 1;
    }
    sum
}

/// Where a sorted list would hold `gid`: at `k`, when every earlier entry is smaller.
proof fn lemma_present_at(keep: Seq<u16>, k: int, gid: u16)
    requires
        increasing(keep),
        0 <= k <= keep.len(),
        forall|i: int| 0 <= i < k ==> keep[i] < gid,
        k < keep.len() ==> keep[k] >= gid,
    ensures
        keep.contains(gid) == (k < keep.len() && keep[k] == gid),
{
    if keep.contains(gid) {
        let at = choose|at: int| 0 <= at < keep.len() && keep[at] == gid;
        if at < k {
            assert(keep[at] < gid);
        } else if at > k {
            assert(keep[k] < keep[at]);
        }
    }
    if k < keep.len() && keep[k] == gid {
        assert(keep.contains(keep[k]));
    }
}

/// Append a kept glyph: its padded outline to `glyf` and its record to `hmtx`.
fn append_kept(tables: &Tables, gid: usize, glyf: &mut Vec<u8>, hmtx: &mut Vec<u8>, Ghost(used): Ghost<Seq<u16>>) -> (appended: bool)
    requires
        !closure_fails(tables@, used),
        kept(tables@, used, gid as int),
        old(glyf)@.len() % 4 == 0,
    ensures
        outline(tables@, gid as int) is Some,
        final(glyf)@ == old(glyf)@ + pad4(outline(tables@, gid as int)->0),
        final(glyf)@.len() % 4 == 0,
        appended == hmtx_entry(tables@, used, gid as int) is Some,
        appended ==> final(hmtx)@ == old(hmtx)@ + hmtx_entry(tables@, used, gid as int)->0,
{
    let ghost source = tables@;
    let outline = match tables.outline(gid) {
        Some(outline) => outline,
        None => {
            proof {
                assert(reachable(source, used, gid as u16));
                assert(references(source, gid as u16) is None);
            }
            return false;
        },
    };
    let ghost before = glyf@;
    crate::image::append_bytes(glyf, outline);
    pad(glyf, Ghost(before), Ghost(outline@));
    if tables.metrics == 0 {
        return false;
    }
    let last = tables.metrics - 1;
    let metric = (if gid < last { gid } else { last }) * 4;
    if metric > tables.hmtx.len() || tables.hmtx.len() - metric < 2 {
        return false;
    }
    let ghost prior = hmtx@;
    hmtx.push(tables.hmtx[metric]);
    hmtx.push(tables.hmtx[metric + 1]);
    let bearing = if gid < tables.metrics {
        metric + 2
    } else {
        tables.metrics * 4 + (gid - tables.metrics) * 2
    };
    if bearing <= tables.hmtx.len() && tables.hmtx.len() - bearing >= 2 {
        hmtx.push(tables.hmtx[bearing]);
        hmtx.push(tables.hmtx[bearing + 1]);
    } else {
        hmtx.push(0);
        hmtx.push(0);
    }
    proof {
        assert(hmtx@.subrange(prior.len() as int, hmtx@.len() as int) =~= hmtx_entry(source, used, gid as int)->0);
        assert(hmtx@ =~= prior + hmtx@.subrange(prior.len() as int, hmtx@.len() as int));
    }
    true
}

/// The new `glyf`, `loca` (but its final entry) and `hmtx` for glyphs below `count`.
fn build(tables: &Tables, keep: &Vec<u16>, count: usize, Ghost(used): Ghost<Seq<u16>>) -> (built: Option<(Vec<u8>, Vec<u8>, Vec<u8>)>)
    requires
        !closure_fails(tables@, used),
        increasing(keep@),
        forall|gid: u16| #[trigger] keep@.contains(gid) <==> reachable(tables@, used, gid),
        count <= 65536,
    ensures
        match hmtx_upto(tables@, used, count as nat) {
            Some(expected) => built matches Some((glyf, loca, hmtx)) && glyf@ == glyf_upto(tables@, used, count as nat)
                && loca@ == loca_upto(tables@, used, count as nat) && hmtx@ == expected,
            None => built is None,
        },
{
    let ghost source = tables@;
    let mut glyf: Vec<u8> = Vec::new();
    let mut loca: Vec<u8> = Vec::new();
    let mut hmtx: Vec<u8> = Vec::new();
    let mut k: usize = 0;
    let mut gid: usize = 0;
    proof {
        assert(glyf@ =~= glyf_upto(source, used, 0));
        assert(loca@ =~= loca_upto(source, used, 0));
        assert(hmtx_upto(source, used, 0) == Some(hmtx@));
    }
    while gid < count
        invariant
            source == tables@,
            !closure_fails(source, used),
            increasing(keep@),
            forall|g: u16| #[trigger] keep@.contains(g) <==> reachable(source, used, g),
            count <= 65536,
            gid <= count,
            k <= keep@.len(),
            forall|i: int| 0 <= i < k ==> keep@[i] < gid,
            k < keep@.len() ==> keep@[k as int] >= gid,
            glyf@ == glyf_upto(source, used, gid as nat),
            glyf@.len() % 4 == 0,
            loca@ == loca_upto(source, used, gid as nat),
            hmtx_upto(source, used, gid as nat) == Some(hmtx@),
        decreases count - gid,
    {
        push_be32(&mut loca, low32(glyf.len()));
        let present = k < keep.len() && keep[k] as usize == gid;
        proof {
            lemma_present_at(keep@, k as int, gid as u16);
            assert(present == kept(source, used, gid as int));
        }
        if present {
            k += 1;
            if !append_kept(tables, gid, &mut glyf, &mut hmtx, Ghost(used)) {
                proof {
                    lemma_hmtx_stops(source, used, (gid + 1) as nat, count as nat);
                }
                return None;
            }
        } else {
            let ghost prior = hmtx@;
            hmtx.push(0);
            hmtx.push(0);
            hmtx.push(0);
            hmtx.push(0);
            assert(hmtx@ =~= prior + seq![0u8, 0u8, 0u8, 0u8]);
        }
        gid += 1;
        proof {
            if k < keep@.len() && k > 0 {
                assert(keep@[k - 1] < keep@[k as int]);
            }
        }
    }
    Some((glyf, loca, hmtx))
}

/// Once one glyph's record fails, the records of more glyphs fail too.
proof fn lemma_hmtx_stops(source: Source, used: Seq<u16>, failed: nat, count: nat)
    requires
        failed <= count,
        hmtx_upto(source, used, failed) is None,
    ensures
        hmtx_upto(source, used, count) is None,
    decreases count - failed,
{
    if failed < count {
        lemma_hmtx_stops(source, used, failed, (count - 1) as nat);
    }
}

fn copy_range(out: &mut Vec<u8>, data: &[u8], start: usize, end: usize)
    requires
        start <= end <= data@.len(),
    ensures
        final(out)@ == old(out)@ + data@.subrange(start as int, end as int),
{
    let mut index = start;
    while index < end
        invariant
            start <= index <= end <= data@.len(),
            out@ == old(out)@ + data@.subrange(start as int, index as int),
        decreases end - index,
    {
        out.push(data[index]);
        index += 1;
        assert(out@ =~= old(out)@ + data@.subrange(start as int, index as int));
    }
}

fn head_table(head: &[u8]) -> (table: Option<Vec<u8>>)
    ensures
        match new_head(head@) {
            Some(expected) => table matches Some(found) && found@ == expected,
            None => table is None,
        },
{
    if head.len() < 54 {
        return None;
    }
    let mut out: Vec<u8> = Vec::new();
    copy_range(&mut out, head, 0, 8);
    out.push(0);
    out.push(0);
    out.push(0);
    out.push(0);
    copy_range(&mut out, head, 12, 50);
    out.push(0);
    out.push(1);
    copy_range(&mut out, head, 52, 54);
    assert(out@ =~= new_head(head@)->0);
    Some(out)
}

fn hhea_table(hhea: &[u8], count: u16) -> (table: Option<Vec<u8>>)
    ensures
        match new_hhea(hhea@, count as int) {
            Some(expected) => table matches Some(found) && found@ == expected,
            None => table is None,
        },
{
    if hhea.len() < 36 {
        return None;
    }
    let mut out: Vec<u8> = Vec::new();
    copy_range(&mut out, hhea, 0, 34);
    push_be16(&mut out, count);
    Some(out)
}

fn maxp_table(maxp: &[u8], count: u16) -> (table: Vec<u8>)
    requires
        maxp@.len() >= 6,
    ensures
        table@ == new_maxp(maxp@, count as int),
{
    let mut out: Vec<u8> = Vec::new();
    copy_range(&mut out, maxp, 0, 4);
    push_be16(&mut out, count);
    copy_range(&mut out, maxp, 6, maxp.len());
    out
}

fn post_table(font: &[u8]) -> (table: Vec<u8>)
    ensures
        table@ == new_post(font@),
{
    let mut out: Vec<u8> = Vec::new();
    out.push(0);
    out.push(3);
    out.push(0);
    out.push(0);
    let found = find(font, &[0x70, 0x6f, 0x73, 0x74]);
    proof {
        assert([0x70u8, 0x6fu8, 0x73u8, 0x74u8]@ =~= post_tag());
    }
    match found {
        Some(post) => if post.len() >= 32 {
            copy_range(&mut out, post, 4, 32);
        } else {
            let mut index: usize = 0;
            while index < 28
                invariant
                    index <= 28,
                    out@ == seq![0u8, 3u8, 0u8, 0u8] + Seq::new(index as nat, |i: int| 0u8),
                decreases 28 - index,
            {
                out.push(0);
                index += 1;
                assert(out@ =~= seq![0u8, 3u8, 0u8, 0u8] + Seq::new(index as nat, |i: int| 0u8));
            }
        },
        None => {
            let mut index: usize = 0;
            while index < 28
                invariant
                    index <= 28,
                    out@ == seq![0u8, 3u8, 0u8, 0u8] + Seq::new(index as nat, |i: int| 0u8),
                decreases 28 - index,
            {
                out.push(0);
                index += 1;
                assert(out@ =~= seq![0u8, 3u8, 0u8, 0u8] + Seq::new(index as nat, |i: int| 0u8));
            }
        },
    }
    assert(out@ =~= new_post(font@));
    out
}

/// A table of the subset and its tag.
pub struct TableData {
    pub tag: [u8; 4],
    pub data: Vec<u8>,
}

pub open spec fn tables_view(tables: Seq<TableData>) -> Seq<(Seq<u8>, Seq<u8>)> {
    tables.map_values(|table: TableData| (table.tag@, table.data@))
}

fn push_bytes4(out: &mut Vec<u8>, bytes: &[u8; 4])
    ensures
        final(out)@ == old(out)@ + bytes@,
{
    out.push(bytes[0]);
    out.push(bytes[1]);
    out.push(bytes[2]);
    out.push(bytes[3]);
    assert(final(out)@ =~= old(out)@ + bytes@);
}

/// One table record: tag, checksum, offset and length; answers the next table's offset.
fn write_record(out: &mut Vec<u8>, table: &TableData, offset: u32, Ghost(position): Ghost<int>) -> (next: u32)
    requires
        offset as int == position % 0x1_0000_0000,
        position >= 0,
    ensures
        final(out)@ == old(out)@ + table.tag@ + be32(table_checksum(table.data@)) + be32(position % 0x1_0000_0000)
            + be32(table.data@.len() as int % 0x1_0000_0000),
        next as int == (position + pad4_len(table.data@.len() as int)) % 0x1_0000_0000,
{
    let length = low32(table.data.len());
    let padding: u32 = (4 - length % 4) % 4;
    let padded = length.wrapping_add(padding);
    let next = offset.wrapping_add(padded);
    proof {
        lemma_next_offset(position, table.data@.len() as int, offset as int, length as int, padding as int, padded as int, next as int);
    }
    let ghost before = out@;
    push_bytes4(out, &table.tag);
    push_be32(out, checksum(table.data.as_slice()));
    push_be32(out, offset);
    push_be32(out, length);
    next
}

proof fn lemma_next_offset(position: int, size: int, offset: int, length: int, padding: int, padded: int, next: int)
    requires
        size >= 0,
        position >= 0,
        offset == position % 0x1_0000_0000,
        length == size % 0x1_0000_0000,
        padding == (4 - length % 4) % 4,
        padded == (length + padding) % 0x1_0000_0000,
        next == (offset + padded) % 0x1_0000_0000,
    ensures
        next == (position + pad4_len(size)) % 0x1_0000_0000,
{
    assert(length % 4 == size % 4) by {
        vstd::arithmetic::div_mod::lemma_mod_mod(size, 4, 0x4000_0000);
    }
    vstd::arithmetic::div_mod::lemma_add_mod_noop(size, padding, 0x1_0000_0000);
    vstd::arithmetic::div_mod::lemma_mod_twice(padding, 0x1_0000_0000);
    vstd::arithmetic::div_mod::lemma_add_mod_noop(position, pad4_len(size), 0x1_0000_0000);
    vstd::arithmetic::div_mod::lemma_mod_twice(pad4_len(size), 0x1_0000_0000);
}

pub open spec fn pad4_len(size: int) -> int {
    size + (4 - size % 4) % 4
}

/// A font file of `tables`, already in tag order.
fn assemble_font(tables: &Vec<TableData>) -> (font: Vec<u8>)
    requires
        7 <= tables@.len() <= 10,
    ensures
        font@ == assemble(tables_view(tables@)),
{
    let ghost views = tables_view(tables@);
    let count = tables.len();
    let selector: u16 = if count >= 8 { 3 } else { 2 };
    let range: u16 = if count >= 8 { 128 } else { 64 };
    proof {
        reveal_with_fuel(floor_log2, 5);
        reveal_with_fuel(pow2_int, 4);
        assert(selector == floor_log2(count as nat));
        assert(range == 16 * pow2_int(selector as int));
    }
    let mut out: Vec<u8> = Vec::new();
    out.push(0);
    out.push(1);
    out.push(0);
    out.push(0);
    push_be16(&mut out, count as u16);
    push_be16(&mut out, range);
    push_be16(&mut out, selector);
    push_be16(&mut out, count as u16 * 16 - range);
    let ghost header = out@;
    let ghost start = 12 + 16 * count as int;
    let mut offset: u32 = (12 + 16 * count) as u32;
    let ghost mut position: int = start;
    let mut index: usize = 0;
    assert(views.skip(0) =~= views);
    while index < count
        invariant
            count == tables@.len(),
            views == tables_view(tables@),
            index <= count,
            offset as int == position % 0x1_0000_0000,
            position >= 0,
            out@.len() == 12 + 16 * index,
            header.len() == 12,
            header + directory(views, start) == out@ + directory(views.skip(index as int), position),
        decreases count - index,
    {
        let table = &tables[index];
        let ghost rest = views.skip(index as int);
        assert(rest[0] == (table.tag@, table.data@));
        assert(rest.drop_first() =~= views.skip(index + 1));
        offset = write_record(&mut out, table, offset, Ghost(position));
        proof {
            assert(pad4(table.data@).len() == pad4_len(table.data@.len() as int));
            position = position + pad4(table.data@).len();
        }
        index += 1;
    }
    let ghost middle = out@;
    assert(views.skip(count as int) =~= Seq::<(Seq<u8>, Seq<u8>)>::empty());
    let mut index: usize = 0;
    assert(views.skip(0) =~= views);
    while index < count
        invariant
            count == tables@.len(),
            views == tables_view(tables@),
            index <= count,
            out@.len() % 4 == 0,
            middle + bodies(views) == out@ + bodies(views.skip(index as int)),
        decreases count - index,
    {
        let table = &tables[index];
        let ghost rest = views.skip(index as int);
        assert(rest[0] == (table.tag@, table.data@));
        assert(rest.drop_first() =~= views.skip(index + 1));
        let ghost before = out@;
        crate::image::append_bytes(&mut out, table.data.as_slice());
        pad(&mut out, Ghost(before), Ghost(table.data@));
        index += 1;
    }
    assert(out@ =~= assemble(views));
    out
}

/// Add the table tagged `tag` when the font has one.
fn push_optional(list: &mut Vec<TableData>, font: &[u8], tag: [u8; 4])
    ensures
        tables_view(final(list)@) == tables_view(old(list)@) + optional_table(font@, tag@),
{
    match find(font, &tag) {
        Some(data) => {
            list.push(TableData { tag, data: crate::image::copy_bytes(data) });
            assert(tables_view(list@) =~= tables_view(old(list)@) + optional_table(font@, tag@));
        },
        None => {
            assert(tables_view(list@) =~= tables_view(old(list)@) + optional_table(font@, tag@));
        },
    }
}

fn push_table(list: &mut Vec<TableData>, tag: [u8; 4], data: Vec<u8>)
    ensures
        tables_view(final(list)@) == tables_view(old(list)@).push((tag@, data@)),
{
    let ghost viewed = (tag@, data@);
    list.push(TableData { tag, data });
    assert(tables_view(list@) =~= tables_view(old(list)@).push(viewed));
}

/// The last kept glyph is the last of the sorted kept list, and in range.
proof fn lemma_last_kept(source: Source, used: Seq<u16>, keep: Seq<u16>)
    requires
        !closure_fails(source, used),
        increasing(keep),
        forall|gid: u16| #[trigger] keep.contains(gid) <==> reachable(source, used, gid),
    ensures
        keep.len() > 0,
        last_kept(source, used) == keep[keep.len() - 1],
        keep[keep.len() - 1] < source.glyphs,
{
    lemma_reach_seed(source, used, 0);
    assert(keep.contains(0u16));
    let last = keep[keep.len() - 1];
    assert(keep.contains(last));
    assert forall|other: u16| #[trigger] reachable(source, used, other) implies other <= last by {
        assert(keep.contains(other));
        let at = choose|at: int| 0 <= at < keep.len() && keep[at] == other;
        if at < keep.len() - 1 {
            assert(keep[at] < keep[keep.len() - 1]);
        }
    }
    let chosen = last_kept(source, used);
    assert(reachable(source, used, chosen) && chosen <= last && last <= chosen);
    assert(references(source, last) is Some);
}

/// The subset's tables in tag order.
fn subset_tables(
    font: &[u8],
    glyf: Vec<u8>,
    head: Vec<u8>,
    hhea: Vec<u8>,
    hmtx: Vec<u8>,
    loca: Vec<u8>,
    maxp: Vec<u8>,
    post: Vec<u8>,
) -> (list: Vec<TableData>)
    ensures
        7 <= list@.len() <= 10,
        tables_view(list@) == optional_table(font@, cvt_tag()) + optional_table(font@, fpgm_tag()) + seq![
            (glyf_tag(), glyf@),
            (head_tag(), head@),
            (hhea_tag(), hhea@),
            (hmtx_tag(), hmtx@),
            (loca_tag(), loca@),
            (maxp_tag(), maxp@),
            (post_tag(), post@),
        ] + optional_table(font@, prep_tag()),
{
    let ghost parts = seq![
        (glyf_tag(), glyf@),
        (head_tag(), head@),
        (hhea_tag(), hhea@),
        (hmtx_tag(), hmtx@),
        (loca_tag(), loca@),
        (maxp_tag(), maxp@),
        (post_tag(), post@),
    ];
    proof {
        assert([0x63u8, 0x76u8, 0x74u8, 0x20u8]@ =~= cvt_tag());
        assert([0x66u8, 0x70u8, 0x67u8, 0x6du8]@ =~= fpgm_tag());
        assert([0x67u8, 0x6cu8, 0x79u8, 0x66u8]@ =~= glyf_tag());
        assert([0x68u8, 0x65u8, 0x61u8, 0x64u8]@ =~= head_tag());
        assert([0x68u8, 0x68u8, 0x65u8, 0x61u8]@ =~= hhea_tag());
        assert([0x68u8, 0x6du8, 0x74u8, 0x78u8]@ =~= hmtx_tag());
        assert([0x6cu8, 0x6fu8, 0x63u8, 0x61u8]@ =~= loca_tag());
        assert([0x6du8, 0x61u8, 0x78u8, 0x70u8]@ =~= maxp_tag());
        assert([0x70u8, 0x6fu8, 0x73u8, 0x74u8]@ =~= post_tag());
        assert([0x70u8, 0x72u8, 0x65u8, 0x70u8]@ =~= prep_tag());
    }
    let mut list: Vec<TableData> = Vec::new();
    push_optional(&mut list, font, [0x63, 0x76, 0x74, 0x20]);
    push_optional(&mut list, font, [0x66, 0x70, 0x67, 0x6d]);
    let ghost front = tables_view(list@);
    push_table(&mut list, [0x67, 0x6c, 0x79, 0x66], glyf);
    push_table(&mut list, [0x68, 0x65, 0x61, 0x64], head);
    push_table(&mut list, [0x68, 0x68, 0x65, 0x61], hhea);
    push_table(&mut list, [0x68, 0x6d, 0x74, 0x78], hmtx);
    push_table(&mut list, [0x6c, 0x6f, 0x63, 0x61], loca);
    push_table(&mut list, [0x6d, 0x61, 0x78, 0x70], maxp);
    push_table(&mut list, [0x70, 0x6f, 0x73, 0x74], post);
    assert(tables_view(list@) =~= front + parts);
    push_optional(&mut list, font, [0x70, 0x72, 0x65, 0x70]);
    assert(tables_view(list@).len() == list@.len());
    list
}

/// The subset file once the kept glyphs are known.
fn write_subset(font: &[u8], tables: &Tables, keep: &Vec<u16>, count: usize, Ghost(used): Ghost<Seq<u16>>) -> (subset: Option<Vec<u8>>)
    requires
        !closure_fails(tables@, used),
        increasing(keep@),
        forall|gid: u16| #[trigger] keep@.contains(gid) <==> reachable(tables@, used, gid),
        1 <= count <= 65535,
        tables@.maxp.len() >= 6,
    ensures
        match subset_output(font@, tables@, used, count as int) {
            Some(expected) => subset matches Some(bytes) && bytes@ == expected,
            None => subset is None,
        },
{
    let (glyf, mut loca, hmtx) = match build(tables, keep, count, Ghost(used)) {
        Some(built) => built,
        None => return None,
    };
    push_be32(&mut loca, low32(glyf.len()));
    let head = match head_table(tables.head) {
        Some(head) => head,
        None => return None,
    };
    let hhea = match hhea_table(tables.hhea, count as u16) {
        Some(hhea) => hhea,
        None => return None,
    };
    let maxp = maxp_table(tables.maxp, count as u16);
    let post = post_table(font);
    let list = subset_tables(font, glyf, head, hhea, hmtx, loca, maxp, post);
    Some(assemble_font(&list))
}

/// The subset of `font` keeping the `used` glyphs (in increasing order, as an
/// ordered set holds them), `.notdef` and the glyphs their composites
/// reference; `None` on any malformed table, and the caller then embeds the whole file.
pub fn subset(font: &[u8], used: &[u16]) -> (subset: Option<Vec<u8>>)
    requires
        increasing(used@),
    ensures
        match spec_subset(font@, used@) {
            Some(expected) => subset matches Some(bytes) && bytes@ == expected,
            None => subset is None,
        },
{
    let tables = match tables(font) {
        Some(tables) => tables,
        None => return None,
    };
    let keep = match closure(&tables, used) {
        Some(keep) => keep,
        None => return None,
    };
    proof {
        lemma_last_kept(tables@, used@, keep@);
    }
    let count = keep[keep.len() - 1] as usize + 1;
    write_subset(font, &tables, &keep, count, Ghost(used@))
}

/// The glyph ids' big-endian bytes, in order.
pub open spec fn gid_bytes(used: Seq<u16>) -> Seq<u8>
    decreases used.len(),
{
    if used.len() == 0 {
        seq![]
    } else {
        gid_bytes(used.drop_last()) + be16(used.last() as int)
    }
}

/// One FNV-1a step.
pub open spec fn fnv_step(hash: u32, byte: u8) -> u32 {
    (((hash ^ (byte as u32)) as nat * 0x0100_0193nat) % 0x1_0000_0000) as u32
}

/// The 32-bit FNV-1a hash of `bytes`.
pub open spec fn fnv(bytes: Seq<u8>) -> u32
    decreases bytes.len(),
{
    if bytes.len() == 0 {
        0x811c_9dc5
    } else {
        fnv_step(fnv(bytes.drop_last()), bytes.last())
    }
}

/// `count` capital letters: the hash's base-26 digits, least significant first.
pub open spec fn tag_letters(hash: u32, count: nat) -> Seq<char>
    decreases count,
{
    if count == 0 {
        seq![]
    } else {
        seq![(0x41 + hash % 26) as char] + tag_letters(hash / 26, (count - 1) as nat)
    }
}

/// The subset tag of a glyph set.
pub open spec fn spec_tag(used: Seq<u16>) -> Seq<char> {
    tag_letters(fnv(gid_bytes(used)), 6)
}

proof fn lemma_tag_letters(hash: u32, count: nat)
    ensures
        tag_letters(hash, count).len() == count,
        forall|index: int| 0 <= index < count ==> 'A' <= #[trigger] tag_letters(hash, count)[index] <= 'Z',
    decreases count,
{
    if count > 0 {
        lemma_tag_letters(hash / 26, (count - 1) as nat);
        let first = (0x41 + hash % 26) as char;
        assert(tag_letters(hash, count) == seq![first] + tag_letters(hash / 26, (count - 1) as nat));
        assert forall|index: int| 0 <= index < count implies 'A' <= #[trigger] tag_letters(hash, count)[index] <= 'Z' by {
            if index > 0 {
                assert(tag_letters(hash, count)[index] == tag_letters(hash / 26, (count - 1) as nat)[index - 1]);
            }
        }
    }
}

/// A subset tag is six capital letters, whatever glyphs are used: the form a
/// PDF subset font name prefix takes.
pub proof fn lemma_tag_is_six_capitals(used: Seq<u16>)
    ensures
        spec_tag(used).len() == 6,
        forall|index: int| 0 <= index < 6 ==> 'A' <= #[trigger] spec_tag(used)[index] <= 'Z',
{
    lemma_tag_letters(fnv(gid_bytes(used)), 6);
}

/// Six-letter subset prefix from an FNV-1a hash of the used glyph set, taken
/// in increasing order.
pub fn tag(used: &[u16]) -> (prefix: String)
    requires
        increasing(used@),
    ensures
        prefix@ == spec_tag(used@),
{
    let mut hash: u32 = 0x811c_9dc5;
    let mut index: usize = 0;
    while index < used.len()
        invariant
            index <= used@.len(),
            hash == fnv(gid_bytes(used@.take(index as int))),
        decreases used@.len() - index,
    {
        let gid = used[index];
        let ghost before = gid_bytes(used@.take(index as int));
        let high = (gid / 0x100) as u8;
        let low = (gid % 0x100) as u8;
        let ghost start = hash;
        hash = (hash ^ high as u32).wrapping_mul(0x0100_0193);
        let ghost middle = hash;
        hash = (hash ^ low as u32).wrapping_mul(0x0100_0193);
        proof {
            assert(middle == fnv_step(start, high));
            assert(hash == fnv_step(middle, low));
            assert(used@.take(index + 1).drop_last() =~= used@.take(index as int));
            assert(used@.take(index + 1).last() == gid);
            let bytes = gid_bytes(used@.take(index + 1));
            assert(be16(gid as int) =~= seq![high, low]);
            assert(bytes =~= before + seq![high, low]);
            assert(bytes.drop_last() =~= before.push(high));
            assert(bytes.drop_last().drop_last() =~= before);
            assert(fnv(bytes.drop_last()) == fnv_step(fnv(before), high));
            assert(fnv(bytes) == fnv_step(fnv(bytes.drop_last()), low));
        }
        index += 1;
    }
    assert(used@.take(used@.len() as int) =~= used@);
    let mut letters: Vec<u8> = Vec::new();
    let mut step: usize = 0;
    while step < 6
        invariant
            step <= 6,
            crate::text::ascii_bytes(letters@),
            crate::text::ascii_chars(letters@) + tag_letters(hash, (6 - step) as nat) == spec_tag(used@),
        decreases 6 - step,
    {
        let ghost before = letters@;
        letters.push(0x41 + (hash % 26) as u8);
        proof {
            assert(crate::text::ascii_chars(letters@) =~= crate::text::ascii_chars(before) + seq![(0x41 + hash % 26) as char]);
        }
        hash = hash / 26;
        step += 1;
    }
    assert(tag_letters(hash, 0) =~= Seq::<char>::empty());
    crate::text::ascii_string(letters)
}

} // verus!
