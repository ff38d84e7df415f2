use flashpdf_core::font::subset::{checksum, components, subset, tag};
use flashpdf_core::font::truetype::{parse_font, postscript_name, ttf_table};

fn table_file(tables: &[(&[u8; 4], Vec<u8>)]) -> Vec<u8> {
    let mut out = vec![0, 1, 0, 0];
    out.extend((tables.len() as u16).to_be_bytes());
    out.extend([0, 0, 0, 0, 0, 0]);
    let mut offset = 12 + 16 * tables.len();
    let mut data = Vec::new();
    for (tag, bytes) in tables {
        out.extend(*tag);
        out.extend([0, 0, 0, 0]);
        out.extend((offset as u32).to_be_bytes());
        out.extend((bytes.len() as u32).to_be_bytes());
        data.extend(bytes);
        while data.len() % 4 != 0 {
            data.push(0);
        }
        offset = 12 + 16 * tables.len() + data.len();
    }
    out.extend(data);
    out
}

fn head() -> Vec<u8> {
    let mut head = vec![0; 54];
    head[0..4].copy_from_slice(&[0, 1, 0, 0]);
    head[8..12].copy_from_slice(&[0xde, 0xad, 0xbe, 0xef]);
    head[18..20].copy_from_slice(&1000_u16.to_be_bytes());
    head[36..38].copy_from_slice(&(-10_i16).to_be_bytes());
    head[38..40].copy_from_slice(&(-200_i16).to_be_bytes());
    head[40..42].copy_from_slice(&900_i16.to_be_bytes());
    head[42..44].copy_from_slice(&800_i16.to_be_bytes());
    head
}

fn hhea() -> Vec<u8> {
    let mut hhea = vec![0; 36];
    hhea[4..6].copy_from_slice(&800_i16.to_be_bytes());
    hhea[6..8].copy_from_slice(&(-200_i16).to_be_bytes());
    hhea[34..36].copy_from_slice(&2_u16.to_be_bytes());
    hhea
}

/// A format 4 cmap mapping `A` to glyph 1 and `B` to glyph 2.
fn cmap() -> Vec<u8> {
    let mut bytes = vec![0, 0, 0, 1, 0, 3, 0, 1, 0, 0, 0, 12];
    bytes.extend([0, 4, 0, 32, 0, 0, 0, 4, 0, 0, 0, 0, 0, 0]);
    bytes.extend([0, 66, 255, 255, 0, 0, 0, 65, 255, 255]);
    bytes.extend((-64_i16).to_be_bytes());
    bytes.extend([0, 1, 0, 0, 0, 0]);
    bytes
}

/// Glyph 0 and 1 simple, glyph 2 a composite of glyph 3.
fn glyf() -> Vec<u8> {
    let mut glyf = vec![0, 1];
    glyf.extend([1; 10]);
    glyf.extend([0, 1]);
    glyf.extend([2; 10]);
    glyf.extend([0xff, 0xff]);
    glyf.extend([0; 8]);
    glyf.extend([0, 0, 0, 3, 7, 7]);
    glyf.extend([9; 8]);
    glyf
}

fn font(extra: &[(&[u8; 4], Vec<u8>)]) -> Vec<u8> {
    let mut tables: Vec<(&[u8; 4], Vec<u8>)> = vec![
        (b"head", head()),
        (b"hhea", hhea()),
        (b"hmtx", vec![2, 0, 0, 5, 3, 0, 0, 6, 0, 7, 0, 8]),
        (b"maxp", vec![0, 0, 0x50, 0, 0, 4]),
        (b"cmap", cmap()),
        (b"loca", [0_u16, 6, 12, 20, 24].iter().flat_map(|v| v.to_be_bytes()).collect()),
        (b"glyf", glyf()),
    ];
    tables.extend(extra.iter().cloned());
    table_file(&tables)
}

#[test]
fn a_font_reads_its_metrics_widths_and_character_map() {
    let parsed = parse_font(font(&[])).unwrap();
    assert_eq!(parsed.units_per_em, 1000);
    assert_eq!(parsed.glyph_count, 4);
    assert_eq!(parsed.advances, vec![0x200, 0x300, 0x300, 0x300]);
    assert_eq!((parsed.x_min, parsed.y_min, parsed.x_max, parsed.y_max), (-10, -200, 900, 800));
    assert_eq!((parsed.ascent, parsed.descent, parsed.line_gap), (800, -200, 0));
    assert_eq!(parsed.cap_height, 800);
    assert_eq!(parsed.weight, 400);
    assert_eq!(parsed.name, "FlashPDF");
    assert_eq!(flashpdf_core::font::cmap::lookup(&parsed.cmap, 'B'), Some(2));
}

fn os2(version: u16, cap_height: i16) -> Vec<u8> {
    let mut os2 = vec![0; 96];
    os2[0..2].copy_from_slice(&version.to_be_bytes());
    os2[4..6].copy_from_slice(&700_u16.to_be_bytes());
    os2[88..90].copy_from_slice(&cap_height.to_be_bytes());
    os2
}

#[test]
fn a_positive_os2_cap_height_is_used_and_any_other_falls_back_to_the_ascent() {
    let parsed = parse_font(font(&[(b"OS/2", os2(2, 650))])).unwrap();
    assert_eq!((parsed.cap_height, parsed.weight), (650, 700));
    let parsed = parse_font(font(&[(b"OS/2", os2(2, 0))])).unwrap();
    assert_eq!(parsed.cap_height, 800);
    let parsed = parse_font(font(&[(b"OS/2", os2(1, 650))])).unwrap();
    assert_eq!(parsed.cap_height, 800);
}

#[test]
fn a_negative_line_gap_reads_as_zero() {
    let mut hhea = hhea();
    hhea[8..10].copy_from_slice(&(-50_i16).to_be_bytes());
    let mut bytes = font(&[]);
    let at = bytes.windows(4).position(|w| w == b"hhea").unwrap();
    let offset = u32::from_be_bytes(bytes[at + 8..at + 12].try_into().unwrap()) as usize;
    bytes[offset..offset + 36].copy_from_slice(&hhea);
    assert_eq!(parse_font(bytes.clone()).unwrap().line_gap, 0);
    hhea[8..10].copy_from_slice(&90_i16.to_be_bytes());
    bytes[offset..offset + 36].copy_from_slice(&hhea);
    assert_eq!(parse_font(bytes).unwrap().line_gap, 90);
}

#[test]
fn a_font_with_no_ascent_is_refused() {
    let mut hhea = hhea();
    hhea[4..6].copy_from_slice(&0_i16.to_be_bytes());
    let mut bytes = font(&[]);
    let at = bytes.windows(4).position(|w| w == b"hhea").unwrap();
    let offset = u32::from_be_bytes(bytes[at + 8..at + 12].try_into().unwrap()) as usize;
    bytes[offset..offset + 36].copy_from_slice(&hhea);
    assert_eq!(parse_font(bytes).err().unwrap(), "invalid TrueType font");
    assert_eq!(parse_font(b"OTTO".to_vec()).err().unwrap(), "invalid TrueType font");
}

fn name_table(records: &[(u16, u16, u16, &[u8])]) -> Vec<u8> {
    let mut table = vec![0, 0];
    table.extend((records.len() as u16).to_be_bytes());
    table.extend(((6 + 12 * records.len()) as u16).to_be_bytes());
    let mut strings: Vec<u8> = Vec::new();
    for (platform, encoding, id, text) in records {
        table.extend(platform.to_be_bytes());
        table.extend(encoding.to_be_bytes());
        table.extend([0, 0]);
        table.extend(id.to_be_bytes());
        table.extend((text.len() as u16).to_be_bytes());
        table.extend((strings.len() as u16).to_be_bytes());
        strings.extend(*text);
    }
    table.extend(strings);
    table
}

#[test]
fn the_postscript_name_comes_from_name_id_six() {
    let name = name_table(&[(1, 0, 6, b"Demo-Regular")]);
    assert_eq!(postscript_name(&name), Some("Demo-Regular".to_owned()));
    let utf16: Vec<u8> = "Wide-Bold".encode_utf16().flat_map(|unit| unit.to_be_bytes()).collect();
    let name = name_table(&[(3, 1, 6, &utf16)]);
    assert_eq!(postscript_name(&name), Some("Wide-Bold".to_owned()));
    let parsed = parse_font(font(&[(b"name", name_table(&[(1, 0, 6, b"Demo-Regular")]))])).unwrap();
    assert_eq!(parsed.name, "Demo-Regular");
}

#[test]
fn tables_are_found_by_tag() {
    let bytes = font(&[]);
    assert_eq!(ttf_table(&bytes, b"maxp").unwrap(), &[0, 0, 0x50, 0, 0, 4]);
    assert_eq!(ttf_table(&bytes, b"post").unwrap_err(), "invalid TrueType font");
}

#[test]
fn composites_list_their_components_and_simple_glyphs_none() {
    assert_eq!(components(&[0, 1, 0, 0, 0, 0, 0, 0, 0, 0, 0, 0]), Some(vec![]));
    let mut composite = vec![0xff, 0xff, 0, 0, 0, 0, 0, 0, 0, 0];
    composite.extend([0, 0x21, 0, 3, 0, 0, 0, 0]);
    composite.extend([0, 0x08, 0, 5, 0, 0, 0, 0]);
    assert_eq!(components(&composite), Some(vec![3, 5]));
    composite.truncate(12);
    assert_eq!(components(&composite), None);
}

#[test]
fn checksums_add_big_endian_words_padded_with_zeros() {
    assert_eq!(checksum(&[1, 2, 3, 4, 5]), 0x0602_0304);
    assert_eq!(checksum(&[0xff; 8]), 0xffff_fffe);
    assert_eq!(checksum(&[]), 0);
}

#[test]
fn subset_tags_hash_the_used_glyphs() {
    assert_eq!(tag(&[1, 2]), "WBZGCP");
    assert_eq!(tag(&[]), "DPZDIA");
    assert_eq!(tag(&[0, 3, 65535]), "YRKBJL");
}

fn table_of<'a>(bytes: &'a [u8], tag: &[u8; 4]) -> &'a [u8] {
    ttf_table(bytes, tag).unwrap()
}

#[test]
fn a_subset_keeps_used_outlines_and_numbers_glyphs_up_to_the_last() {
    let bytes = font(&[]);
    let kept = subset(&bytes, &[1]).unwrap();
    assert_eq!(u16::from_be_bytes([kept[4], kept[5]]), 7);
    let mut expected_glyf = vec![0, 1];
    expected_glyf.extend([1; 10]);
    expected_glyf.extend([0, 1]);
    expected_glyf.extend([2; 10]);
    assert_eq!(table_of(&kept, b"glyf"), expected_glyf.as_slice());
    assert_eq!(table_of(&kept, b"loca"), &[0, 0, 0, 0, 0, 0, 0, 12, 0, 0, 0, 24]);
    assert_eq!(table_of(&kept, b"hmtx"), &[2, 0, 0, 5, 3, 0, 0, 6]);
    assert_eq!(table_of(&kept, b"maxp"), &[0, 0, 0x50, 0, 0, 2]);
    assert_eq!(&table_of(&kept, b"hhea")[34..36], &[0, 2]);
    let head = table_of(&kept, b"head");
    assert_eq!(&head[8..12], &[0, 0, 0, 0]);
    assert_eq!(&head[50..52], &[0, 1]);
    let post = table_of(&kept, b"post");
    assert_eq!(post.len(), 32);
    assert_eq!(&post[0..4], &[0, 3, 0, 0]);
    let at = kept.windows(4).position(|w| w == b"glyf").unwrap();
    assert_eq!(
        u32::from_be_bytes(kept[at + 4..at + 8].try_into().unwrap()),
        checksum(&expected_glyf)
    );
}

#[test]
fn a_subset_follows_composite_references_and_drops_unused_outlines() {
    let bytes = font(&[]);
    let kept = subset(&bytes, &[2]).unwrap();
    let glyf = table_of(&kept, b"glyf");
    assert_eq!(glyf.len(), 12 + 16 + 8);
    assert_eq!(
        table_of(&kept, b"loca"),
        &[0, 0, 0, 0, 0, 0, 0, 12, 0, 0, 0, 12, 0, 0, 0, 28, 0, 0, 0, 36]
    );
    assert_eq!(
        table_of(&kept, b"hmtx"),
        &[2, 0, 0, 5, 0, 0, 0, 0, 3, 0, 0, 7, 3, 0, 0, 8]
    );
    assert_eq!(table_of(&kept, b"maxp"), &[0, 0, 0x50, 0, 0, 4]);
}

#[test]
fn a_subset_copies_the_hinting_tables_and_refuses_glyphs_past_the_count() {
    let bytes = font(&[(b"prep", vec![1, 2, 3]), (b"cvt ", vec![4, 5])]);
    let kept = subset(&bytes, &[1]).unwrap();
    assert_eq!(u16::from_be_bytes([kept[4], kept[5]]), 9);
    assert_eq!(&kept[12..16], b"cvt ");
    assert_eq!(table_of(&kept, b"prep"), &[1, 2, 3]);
    assert_eq!(subset(&bytes, &[7]), None);
    assert_eq!(subset(b"not a font", &[1]), None);
}
