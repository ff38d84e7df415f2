use flashpdf_core::font::cmap::{lookup, parse, reverse};

/// One format 4 segment mapping `A` through `delta`, then the 0xffff terminator.
fn cmap(delta: u16) -> Vec<u8> {
    let mut bytes = vec![0, 0, 0, 1, 0, 3, 0, 1, 0, 0, 0, 12];
    bytes.extend([0, 4, 0, 32, 0, 0, 0, 4, 0, 0, 0, 0, 0, 0]);
    bytes.extend([0, 65, 255, 255, 0, 0, 0, 65, 255, 255]);
    bytes.extend(delta.to_be_bytes());
    bytes.extend([0, 1, 0, 0, 0, 0]);
    bytes
}

#[test]
fn given_a_zero_or_out_of_range_cmap_glyph_when_parsing_then_rejects_it() {
    assert_eq!(
        parse(&cmap(0xffbf), 100).unwrap_err(),
        "unsupported TrueType cmap"
    );
    assert_eq!(parse(&cmap(35), 100), Err("invalid TrueType font".into()));
    let ranges = parse(&cmap(3), 100).unwrap();
    assert_eq!(lookup(&ranges, 'A'), Some(68));
    assert_eq!(lookup(&ranges, 'B'), None);
}

/// A format 12 subtable (platform 3, encoding 10) with the given groups.
fn cmap12(groups: &[(u32, u32, u32)]) -> Vec<u8> {
    let mut bytes = vec![0, 0, 0, 1, 0, 3, 0, 10, 0, 0, 0, 12];
    let length = 16 + 12 * groups.len() as u32;
    bytes.extend([0, 12, 0, 0]);
    bytes.extend(length.to_be_bytes());
    bytes.extend([0, 0, 0, 0]);
    bytes.extend((groups.len() as u32).to_be_bytes());
    for (start, end, gid) in groups {
        bytes.extend(start.to_be_bytes());
        bytes.extend(end.to_be_bytes());
        bytes.extend(gid.to_be_bytes());
    }
    bytes
}

#[test]
fn format_twelve_groups_map_consecutive_glyphs_and_merge_when_contiguous() {
    let ranges = parse(&cmap12(&[(0x4e00, 0x4e02, 5), (0x4e03, 0x4e04, 8)]), 20).unwrap();
    assert_eq!(ranges.len(), 1);
    assert_eq!(lookup(&ranges, '\u{4e00}'), Some(5));
    assert_eq!(lookup(&ranges, '\u{4e04}'), Some(9));
    assert_eq!(lookup(&ranges, '\u{4e05}'), None);
    assert_eq!(lookup(&ranges, '\u{4dff}'), None);
}

#[test]
fn format_twelve_groups_past_the_glyph_count_or_unicode_are_rejected() {
    assert_eq!(
        parse(&cmap12(&[(0x41, 0x45, 18)]), 20),
        Err("invalid TrueType font".into())
    );
    assert_eq!(
        parse(&cmap12(&[(0x10fffe, 0x110000, 1)]), 20),
        Err("invalid TrueType font".into())
    );
    assert_eq!(
        parse(&cmap12(&[(0x44, 0x43, 1)]), 20),
        Err("invalid TrueType font".into())
    );
}

#[test]
fn a_group_starting_at_glyph_zero_skips_its_first_code() {
    let ranges = parse(&cmap12(&[(0x41, 0x43, 0)]), 20).unwrap();
    assert_eq!(lookup(&ranges, 'A'), None);
    assert_eq!(lookup(&ranges, 'B'), Some(1));
    assert_eq!(lookup(&ranges, 'C'), Some(2));
}

#[test]
fn an_overlapping_range_is_cut_around_the_earlier_one() {
    let ranges = parse(&cmap12(&[(0x41, 0x42, 3), (0x42, 0x44, 10)]), 20).unwrap();
    assert_eq!(lookup(&ranges, 'A'), Some(3));
    assert_eq!(lookup(&ranges, 'B'), Some(4));
    assert_eq!(lookup(&ranges, 'C'), Some(11));
    assert_eq!(lookup(&ranges, 'D'), Some(12));
}

/// A format 12 subtable body with the given groups.
fn format12(groups: &[(u32, u32, u32)]) -> Vec<u8> {
    let mut bytes = vec![0, 12, 0, 0];
    bytes.extend((16 + 12 * groups.len() as u32).to_be_bytes());
    bytes.extend([0, 0, 0, 0]);
    bytes.extend((groups.len() as u32).to_be_bytes());
    for (start, end, gid) in groups {
        bytes.extend(start.to_be_bytes());
        bytes.extend(end.to_be_bytes());
        bytes.extend(gid.to_be_bytes());
    }
    bytes
}

#[test]
fn where_two_encoding_records_map_a_character_the_earlier_record_wins() {
    let first = format12(&[(0x42, 0x42, 5)]);
    let second = format12(&[(0x41, 0x43, 10)]);
    let mut bytes = vec![0, 0, 0, 2];
    bytes.extend([0, 3, 0, 1]);
    bytes.extend(20_u32.to_be_bytes());
    bytes.extend([0, 3, 0, 10]);
    bytes.extend((20 + first.len() as u32).to_be_bytes());
    bytes.extend(&first);
    bytes.extend(&second);
    let ranges = parse(&bytes, 20).unwrap();
    assert_eq!(lookup(&ranges, 'B'), Some(5));
    assert_eq!(lookup(&ranges, 'A'), Some(10));
    assert_eq!(lookup(&ranges, 'C'), Some(12));
    assert_eq!(lookup(&ranges, 'D'), None);
}

#[test]
fn the_reverse_map_gives_each_used_glyph_its_lowest_character() {
    let ranges = parse(&cmap12(&[(0x41, 0x43, 3), (0x61, 0x63, 3)]), 20).unwrap();
    let entries = reverse(&ranges, &[3, 5, 9]);
    assert_eq!(entries, vec![(3, 'A'), (5, 'C')]);
    for (gid, character) in entries {
        assert_eq!(lookup(&ranges, character), Some(gid));
    }
}

#[test]
fn a_cmap_without_unicode_subtables_is_unsupported() {
    let mut bytes = cmap(3);
    bytes[7] = 0;
    assert_eq!(parse(&bytes, 100).unwrap_err(), "unsupported TrueType cmap");
}
