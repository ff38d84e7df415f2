use flashpdf_core::document::CommandParser;
use flashpdf_core::protocol::record::Action;
use flashpdf_core::protocol::{Decoder, ProtocolError};
use flashpdf_core::{OwnedCommand, RenderError};

const VERSION: u16 = 5;

fn header(version: u16, width: f32, height: f32, margin: f32) -> Vec<u8> {
    let mut bytes = b"FPDF".to_vec();
    bytes.extend(version.to_le_bytes());
    bytes.extend(width.to_le_bytes());
    bytes.extend(height.to_le_bytes());
    bytes.extend(margin.to_le_bytes());
    bytes
}

fn record(opcode: u8, payload: &[u8]) -> Vec<u8> {
    let mut bytes = vec![opcode];
    bytes.extend((payload.len() as u32).to_le_bytes());
    bytes.extend(payload);
    bytes
}

fn text(value: &[u8]) -> Vec<u8> {
    let mut bytes = (value.len() as u32).to_le_bytes().to_vec();
    bytes.extend(value);
    bytes
}

fn columns(values: &[(u8, f32)]) -> Vec<u8> {
    let mut bytes = (values.len() as u16).to_le_bytes().to_vec();
    for (kind, value) in values {
        bytes.push(*kind);
        bytes.extend(value.to_le_bytes());
    }
    bytes
}

type LinkedRun<'a> = (u8, f32, [u8; 3], u8, Option<u16>, &'a [u8]);

fn linked_paragraph(align: u8, links: &[&[u8]], runs: &[LinkedRun<'_>]) -> Vec<u8> {
    let mut payload = vec![align];
    payload.extend((links.len() as u16).to_le_bytes());
    for link in links {
        payload.extend(text(link));
    }
    payload.extend((runs.len() as u16).to_le_bytes());
    for (font, size, color, flags, link, value) in runs {
        payload.push(*font);
        payload.extend(size.to_le_bytes());
        payload.extend(color);
        payload.push(*flags | if link.is_some() { 8 } else { 0 });
        if let Some(link) = link {
            payload.extend(link.to_le_bytes());
        }
        payload.extend(text(value));
    }
    record(9, &payload)
}

fn paragraph(align: u8, runs: &[(u8, f32, [u8; 3], u8, &[u8])]) -> Vec<u8> {
    let runs: Vec<LinkedRun<'_>> = runs
        .iter()
        .map(|(font, size, color, flags, value)| (*font, *size, *color, *flags, None, *value))
        .collect();
    linked_paragraph(align, &[], &runs)
}

fn plain(value: &[u8]) -> Vec<u8> {
    paragraph(0, &[(0, 10.0, [0, 0, 0], 0, value)])
}

fn table_start(header_rows: u16) -> Vec<u8> {
    let mut bytes = header_rows.to_le_bytes().to_vec();
    bytes.push(1);
    bytes.extend(1.0_f32.to_le_bytes());
    bytes
}

fn box_start() -> Vec<u8> {
    let mut payload = Vec::new();
    for _ in 0..12 {
        payload.extend(0.0_f32.to_le_bytes());
    }
    payload.extend([1, 0xee, 0xee, 0xee]);
    payload.extend([0, 0, 0].repeat(4));
    record(17, &payload)
}

fn image_record(slot: u16, width: Option<f32>, height: Option<f32>, link: Option<&[u8]>) -> Vec<u8> {
    let mut payload = slot.to_le_bytes().to_vec();
    for value in [width, height] {
        match value {
            Some(value) => {
                payload.push(1);
                payload.extend(value.to_le_bytes());
            }
            None => payload.push(0),
        }
    }
    match link {
        Some(link) => {
            payload.push(1);
            payload.extend(text(link));
        }
        None => payload.push(0),
    }
    payload.extend(text(b"Company logo"));
    record(12, &payload)
}

fn representative() -> Vec<u8> {
    let mut bytes = header(VERSION, 120.0, 60.0, 10.0);
    bytes.extend(plain(b"Before"));
    bytes.extend(box_start());
    bytes.extend(plain(b"Boxed"));
    bytes.extend(record(18, &[]));
    bytes.extend(record(5, &columns(&[(0, 50.0), (1, 1.0)])));
    bytes.extend(plain(b"row"));
    bytes.extend(plain(b"1"));
    bytes.extend(record(6, &[]));
    bytes.extend(record(10, &table_start(1)));
    for cell in [b"head", b"body"] {
        bytes.extend(record(5, &columns(&[(1, 1.0)])));
        bytes.extend(plain(cell));
        bytes.extend(record(6, &[]));
    }
    bytes.extend(record(11, &[]));
    bytes.extend(record(2, &5.0_f32.to_le_bytes()));
    bytes.extend(record(3, &0.0_f32.to_le_bytes()));
    bytes.extend(plain(b"Stacked"));
    bytes.extend(record(4, &[]));
    bytes.extend(linked_paragraph(
        1,
        &[b"https://example.com"],
        &[(1, 10.0, [0xcc, 0, 0], 2, Some(0), b"Styled")],
    ));
    bytes.extend(image_record(0, Some(20.0), None, Some(b"mailto:a@b.c")));
    bytes.extend(record(7, &[]));
    bytes.extend(plain(b"After"));
    bytes.extend(record(255, &[]));
    bytes
}

/// The 1x1 grey PNG the representative stream's image record paints.
fn grey_pixel() -> Vec<u8> {
    fn chunk(kind: &[u8; 4], data: &[u8]) -> Vec<u8> {
        let mut bytes = (data.len() as u32).to_be_bytes().to_vec();
        bytes.extend(kind);
        bytes.extend(data);
        bytes.extend([0, 0, 0, 0]);
        bytes
    }
    let mut header = 1_u32.to_be_bytes().to_vec();
    header.extend(1_u32.to_be_bytes());
    header.extend([8, 0, 0, 0, 0]);
    let mut bytes = vec![0x89, b'P', b'N', b'G', 0x0d, 0x0a, 0x1a, 0x0a];
    bytes.extend(chunk(b"IHDR", &header));
    bytes.extend(chunk(b"IDAT", &miniz_oxide::deflate::compress_to_vec_zlib(&[0, 128], 6)));
    bytes.extend(chunk(b"IEND", &[]));
    bytes
}

fn decoder() -> Decoder {
    let mut decoder = Decoder::default();
    decoder.add_image(grey_pixel()).unwrap();
    decoder
}

/// Push bytes and take every action they asked for; answers what `push` answered.
fn feed(decoder: &mut Decoder, bytes: &[u8], actions: &mut Vec<Action>) -> Result<(), ProtocolError> {
    let pushed = decoder.push(bytes);
    while let Some(action) = decoder.next_action() {
        actions.push(action);
    }
    pushed
}

fn decode(bytes: &[u8]) -> Result<Vec<Action>, String> {
    let mut decoder = decoder();
    let mut actions = Vec::new();
    feed(&mut decoder, bytes, &mut actions).map_err(|error| error.message())?;
    decoder.finish().map_err(|error| error.message())?;
    Ok(actions)
}

fn push_error(bytes: &[u8]) -> String {
    let mut decoder = Decoder::default();
    decoder.push(bytes).unwrap_err().message()
}

#[test]
fn decoding_is_the_same_at_every_split_point() {
    let bytes = representative();
    let expected = decode(&bytes).unwrap();
    let described = format!("{expected:?}");
    assert!(matches!(expected[0], Action::Start(_)));
    let blocks = expected.iter().filter(|action| matches!(action, Action::Block(_))).count();
    assert_eq!(blocks, 9);
    assert_eq!(
        expected.iter().filter(|action| matches!(action, Action::PageBreak)).count(),
        1
    );
    for split in 0..=bytes.len() {
        let mut decoder = decoder();
        let mut actions = Vec::new();
        feed(&mut decoder, &bytes[..split], &mut actions).unwrap();
        feed(&mut decoder, &bytes[split..], &mut actions).unwrap();
        decoder.finish().unwrap();
        assert_eq!(format!("{actions:?}"), described, "split {split}");
    }
}

#[test]
fn every_block_of_the_representative_stream_parses_into_one_element() {
    for action in decode(&representative()).unwrap() {
        if let Action::Block(commands) = action {
            assert!(CommandParser::new(&commands).parse_single_block().is_ok());
        }
    }
}

#[test]
fn a_footer_may_hold_the_page_tokens_and_comes_before_content() {
    let mut bytes = header(VERSION, 595.0, 842.0, 36.0);
    let mut footer = 10.0_f32.to_le_bytes().to_vec();
    footer.extend([0, 0, 0, 0, 0]);
    footer.extend(text("Page \u{1e} of \u{1f}".as_bytes()));
    bytes.extend(record(8, &footer));
    bytes.extend(plain(b"First"));
    bytes.extend(record(7, &[]));
    bytes.extend(plain(b"Second"));
    bytes.extend(record(255, &[]));
    let actions = decode(&bytes).unwrap();
    assert!(matches!(actions[0], Action::Start(_)));
    match &actions[1] {
        Action::Footer(template, style) => {
            assert_eq!(template, "Page \u{1e} of \u{1f}");
            assert_eq!(style.size.bits(), 10.0_f32.to_bits());
        }
        other => panic!("expected the footer, got {other:?}"),
    }
    let mut late = header(VERSION, 595.0, 842.0, 36.0);
    late.extend(plain(b"First"));
    late.extend(record(8, &footer));
    assert_eq!(push_error(&late), "invalid nesting");
}

#[test]
fn a_paragraph_concatenates_its_runs_and_keeps_their_flags() {
    let mut bytes = header(VERSION, 595.0, 842.0, 36.0);
    bytes.extend(linked_paragraph(
        0,
        &[b"https://example.com/a"],
        &[
            (0, 10.0, [0, 0, 0], 0, None, b"Hello "),
            (1, 12.0, [0xcc, 0, 0], 1 | 2 | 4, Some(0), b"World"),
        ],
    ));
    bytes.extend(record(255, &[]));
    let actions = decode(&bytes).unwrap();
    match &actions[1] {
        Action::Block(commands) => match &commands[0] {
            OwnedCommand::Paragraph(_, text, runs, links) => {
                assert_eq!(text, "Hello World");
                assert_eq!(runs.len(), 2);
                assert_eq!(runs[0].len, 6);
                assert_eq!(runs[1].len, 5);
                assert!(runs[1].hard_break);
                assert!(runs[1].decoration.underline && runs[1].decoration.line_through);
                assert_eq!(runs[1].decoration.link, Some(0));
                assert_eq!(runs[1].font.slot(), 1);
                assert_eq!(links, &vec!["https://example.com/a".to_owned()]);
            }
            other => panic!("expected a paragraph, got {other:?}"),
        },
        other => panic!("expected a block, got {other:?}"),
    }
}

#[test]
fn given_bad_headers_records_and_text_when_decoding_then_rejects() {
    let mut truncated = representative();
    truncated.pop();
    assert_eq!(decode(&truncated).unwrap_err(), "truncated protocol");

    let mut bad_magic = representative();
    bad_magic[0] = b'X';
    assert_eq!(push_error(&bad_magic), "invalid magic");

    let mut bad_version = representative();
    bad_version[4..6].copy_from_slice(&1_u16.to_le_bytes());
    assert_eq!(push_error(&bad_version), "unknown version");

    let mut unknown = header(VERSION, 120.0, 60.0, 10.0);
    unknown.extend(record(42, &[]));
    assert_eq!(push_error(&unknown), "unknown opcode");

    for legacy in [1, 16, 19] {
        let mut removed = header(VERSION, 120.0, 60.0, 10.0);
        removed.extend(record(legacy, &[]));
        assert_eq!(push_error(&removed), "unknown opcode");
    }

    let mut oversized_record = header(VERSION, 120.0, 60.0, 10.0);
    oversized_record.push(1);
    oversized_record.extend(65_537_u32.to_le_bytes());
    assert_eq!(push_error(&oversized_record), "record too large");

    let mut invalid_utf8 = header(VERSION, 120.0, 60.0, 10.0);
    invalid_utf8.extend(plain(&[0xff]));
    assert_eq!(push_error(&invalid_utf8), "invalid UTF-8");

    for control in ["\u{0b}", "\u{1e}", "\u{1f}"] {
        let mut sentinel = header(VERSION, 120.0, 60.0, 10.0);
        sentinel.extend(plain(control.as_bytes()));
        assert_eq!(push_error(&sentinel), "unsupported WinAnsi character");
    }

    let mut unsupported = header(VERSION, 120.0, 60.0, 10.0);
    unsupported.extend(plain("\u{1f642}".as_bytes()));
    assert_eq!(push_error(&unsupported), "unsupported WinAnsi character");

    let mut bad_length = header(VERSION, 120.0, 60.0, 10.0);
    let mut payload = vec![0, 0, 0, 1, 0, 0];
    payload.extend(10.0_f32.to_le_bytes());
    payload.extend([0, 0, 0, 0]);
    payload.extend(4_u32.to_le_bytes());
    payload.push(b'x');
    bad_length.extend(record(9, &payload));
    assert_eq!(push_error(&bad_length), "truncated record");

    let mut bad_flags = header(VERSION, 120.0, 60.0, 10.0);
    bad_flags.extend(paragraph(0, &[(0, 10.0, [0, 0, 0], 16, b"x")]));
    assert_eq!(push_error(&bad_flags), "invalid run flags");

    let mut bad_align = header(VERSION, 120.0, 60.0, 10.0);
    bad_align.extend(paragraph(3, &[(0, 10.0, [0, 0, 0], 0, b"x")]));
    assert_eq!(push_error(&bad_align), "invalid text alignment");

    let mut unknown_font = header(VERSION, 120.0, 60.0, 10.0);
    unknown_font.extend(paragraph(0, &[(2, 10.0, [0, 0, 0], 0, b"x")]));
    assert_eq!(push_error(&unknown_font), "unknown font");

    let mut trailing = header(VERSION, 120.0, 60.0, 10.0);
    trailing.extend(record(7, &[0]));
    assert_eq!(push_error(&trailing), "invalid record length");

    let mut bad_link = header(VERSION, 120.0, 60.0, 10.0);
    bad_link.extend(linked_paragraph(0, &[b"http://a\nb"], &[(0, 10.0, [0, 0, 0], 0, Some(0), b"x")]));
    assert_eq!(push_error(&bad_link), "invalid link: URIs must be printable ASCII");

    let mut bad_index = header(VERSION, 120.0, 60.0, 10.0);
    bad_index.extend(linked_paragraph(0, &[b"http://a"], &[(0, 10.0, [0, 0, 0], 0, Some(1), b"x")]));
    assert_eq!(push_error(&bad_index), "invalid link index");
}

#[test]
fn given_invalid_numbers_layout_and_rows_the_decoder_rejects_them() {
    assert_eq!(push_error(&header(VERSION, f32::NAN, 60.0, 10.0)), "invalid page width");
    assert_eq!(push_error(&header(VERSION, 120.0, -1.0, 10.0)), "invalid page height");
    assert_eq!(push_error(&header(VERSION, 120.0, 60.0, f32::INFINITY)), "invalid margin");
    assert_eq!(push_error(&header(VERSION, 120.0, 60.0, 30.0)), "InvalidPage");

    let mut zero_size = header(VERSION, 120.0, 60.0, 10.0);
    zero_size.extend(paragraph(0, &[(0, 0.0, [0, 0, 0], 0, b"x")]));
    assert_eq!(push_error(&zero_size), "invalid font size");

    let mut infinite_column = header(VERSION, 120.0, 60.0, 10.0);
    infinite_column.extend(record(5, &columns(&[(0, f32::INFINITY)])));
    assert_eq!(push_error(&infinite_column), "invalid column width");

    let mut bad_kind = header(VERSION, 120.0, 60.0, 10.0);
    bad_kind.extend(record(5, &columns(&[(3, 1.0)])));
    assert_eq!(push_error(&bad_kind), "invalid column kind");

    let mut zero_columns = header(VERSION, 120.0, 60.0, 10.0);
    zero_columns.extend(record(5, &0_u16.to_le_bytes()));
    assert_eq!(push_error(&zero_columns), "invalid column count");

    let mut too_many_columns = header(VERSION, 120.0, 60.0, 10.0);
    too_many_columns.extend(record(5, &257_u16.to_le_bytes()));
    assert_eq!(push_error(&too_many_columns), "invalid column count");

    let mut bad_close = header(VERSION, 120.0, 60.0, 10.0);
    bad_close.extend(record(4, &[]));
    assert_eq!(push_error(&bad_close), "invalid nesting");

    let mut deep = header(VERSION, 120.0, 60.0, 10.0);
    for _ in 0..65 {
        deep.extend(record(3, &0.0_f32.to_le_bytes()));
    }
    assert_eq!(push_error(&deep), "nesting exceeds 64");

    let mut bad_table_close = header(VERSION, 120.0, 60.0, 10.0);
    bad_table_close.extend(record(11, &[]));
    assert_eq!(push_error(&bad_table_close), "invalid nesting");

    let mut bad_layout_row = header(VERSION, 120.0, 60.0, 10.0);
    bad_layout_row.extend(record(5, &columns(&[(0, 50.0), (1, 1.0)])));
    bad_layout_row.extend(plain(b"one"));
    bad_layout_row.extend(record(6, &[]));
    assert_eq!(push_error(&bad_layout_row), "row cell count mismatch");

    let mut over_full = header(VERSION, 120.0, 60.0, 10.0);
    over_full.extend(record(5, &columns(&[(1, 1.0)])));
    over_full.extend(plain(b"one"));
    over_full.extend(plain(b"two"));
    assert_eq!(push_error(&over_full), "row cell count mismatch");

    let mut bad_background = header(VERSION, 120.0, 60.0, 10.0);
    let mut payload = Vec::new();
    for _ in 0..12 {
        payload.extend(0.0_f32.to_le_bytes());
    }
    payload.push(2);
    bad_background.extend(record(17, &payload));
    assert_eq!(push_error(&bad_background), "invalid background");

    let mut unknown_image = header(VERSION, 120.0, 60.0, 10.0);
    unknown_image.extend(image_record(0, None, None, None));
    assert_eq!(push_error(&unknown_image), "unknown image");

    let mut empty = header(VERSION, 120.0, 60.0, 10.0);
    empty.extend(record(255, &[]));
    assert_eq!(push_error(&empty), "empty document");

    let mut unbounded = header(VERSION, 120.0, 60.0, 10.0);
    unbounded.extend(record(3, &0.0_f32.to_le_bytes()));
    let mut decoder = Decoder::default();
    let mut actions = Vec::new();
    feed(&mut decoder, &unbounded, &mut actions).unwrap();
    let chunk = plain(&[b'x'; 60_000]);
    let error = (0..300)
        .find_map(|_| feed(&mut decoder, &chunk, &mut actions).err())
        .expect("open stack must stop buffering");
    assert_eq!(error.message(), "block exceeds 16 MiB");
}

#[test]
fn a_whole_stream_pushed_at_once_finishes_before_its_actions_are_taken() {
    let mut bytes = header(VERSION, 120.0, 60.0, 10.0);
    bytes.extend(plain(b"x"));
    bytes.extend(record(255, &[]));
    let mut decoder = Decoder::default();
    assert!(decoder.push(&bytes).is_ok());
    assert!(decoder.finish().is_ok());
    assert!(matches!(decoder.next_action(), Some(Action::Start(_))));
    assert!(matches!(decoder.next_action(), Some(Action::Block(_))));
    assert!(decoder.next_action().is_none());
    assert!(decoder.next_action().is_none());
}

#[test]
fn actions_before_a_refused_record_are_still_handed_out() {
    let mut bytes = header(VERSION, 120.0, 60.0, 10.0);
    bytes.extend(plain(b"x"));
    bytes.extend(record(4, &[]));
    let mut decoder = Decoder::default();
    assert_eq!(decoder.push(&bytes).unwrap_err().message(), "invalid nesting");
    assert!(matches!(decoder.next_action(), Some(Action::Start(_))));
    assert!(matches!(decoder.next_action(), Some(Action::Block(_))));
    assert!(decoder.next_action().is_none());
}

#[test]
fn a_table_of_header_rows_alone_does_not_parse_as_a_block() {
    let mut bytes = header(VERSION, 120.0, 60.0, 10.0);
    bytes.extend(record(10, &table_start(1)));
    bytes.extend(record(11, &[]));
    let mut decoder = Decoder::default();
    let mut actions = Vec::new();
    feed(&mut decoder, &bytes, &mut actions).unwrap();
    let block = actions
        .iter()
        .find_map(|action| match action {
            Action::Block(commands) => Some(commands),
            _ => None,
        })
        .unwrap();
    assert!(CommandParser::new(block).parse_single_block().is_err());
}

#[test]
fn nothing_may_follow_the_end_and_fonts_come_before_the_document() {
    let mut bytes = header(VERSION, 120.0, 60.0, 10.0);
    bytes.extend(plain(b"x"));
    bytes.extend(record(255, &[]));
    let mut decoder = Decoder::default();
    let mut actions = Vec::new();
    feed(&mut decoder, &bytes, &mut actions).unwrap();
    assert!(decoder.finish().is_ok());
    assert_eq!(decoder.push(b"more").unwrap_err().message(), "data after end");
    assert!(decoder.push(b"").is_ok());
    assert_eq!(
        decoder.add_image(grey_pixel()).err().unwrap().message(),
        "data after end"
    );
    assert_eq!(
        decoder.add_font(vec![0, 1, 0, 0]).err().unwrap().message(),
        "fonts must be registered before document"
    );
}

#[test]
fn images_number_from_zero_and_refuse_what_does_not_parse() {
    let mut decoder = Decoder::default();
    assert_eq!(decoder.add_image(grey_pixel()).unwrap().0, 0);
    assert_eq!(decoder.add_image(grey_pixel()).unwrap().0, 1);
    assert!(decoder
        .add_image(b"GIF89a".to_vec())
        .err()
        .unwrap()
        .message()
        .starts_with("unsupported image format"));
    assert_eq!(decoder.add_image(grey_pixel()).unwrap().0, 2);
}

#[test]
fn a_font_that_does_not_parse_is_refused_with_its_reason() {
    let mut decoder = Decoder::default();
    assert_eq!(
        decoder.add_font(b"not a font".to_vec()).err().unwrap().message(),
        "invalid TrueType font"
    );
}

#[test]
fn rendering_errors_read_as_their_names() {
    assert_eq!(ProtocolError::Render(RenderError::PageOverflow).message(), "PageOverflow");
    assert_eq!(
        ProtocolError::Render(RenderError::TableRowOverflow(3)).message(),
        "TableRowOverflow(3)"
    );
    assert_eq!(
        ProtocolError::Render(RenderError::UnsupportedCharacter('\u{1f642}')).message(),
        "UnsupportedCharacter('\u{1f642}')"
    );
}

/// xorshift64: enough randomness for mutation tests without a dependency.
struct XorShift(u64);

impl XorShift {
    fn next(&mut self) -> u64 {
        self.0 ^= self.0 << 13;
        self.0 ^= self.0 >> 7;
        self.0 ^= self.0 << 17;
        self.0
    }

    /// One to three random flips, truncations or insertions.
    fn mutate(&mut self, bytes: &mut Vec<u8>) {
        for _ in 0..1 + self.next() % 3 {
            let position = (self.next() as usize) % (bytes.len() + 1);
            match self.next() % 3 {
                0 if !bytes.is_empty() => {
                    let index = position.min(bytes.len() - 1);
                    bytes[index] ^= 1 << (self.next() % 8);
                }
                1 => bytes.truncate(position),
                _ => bytes.insert(position, self.next() as u8),
            }
        }
    }
}

#[test]
fn given_mutated_protocol_streams_when_decoding_then_never_panics() {
    let intact = representative();
    let mut rng = XorShift(0x2545_f491_4f6c_dd1d);
    for _ in 0..3000 {
        let mut bytes = intact.clone();
        rng.mutate(&mut bytes);
        let mut decoder = decoder();
        let mut actions = Vec::new();
        if feed(&mut decoder, &bytes, &mut actions).is_ok() {
            let _ = decoder.finish();
        }
        for action in &actions {
            if let Action::Block(commands) = action {
                let _ = CommandParser::new(commands).parse_single_block();
            }
        }
    }
}

#[test]
fn a_helvetica_run_holds_what_winansi_encodes() {
    let mut bytes = header(VERSION, 120.0, 60.0, 10.0);
    bytes.extend(plain("Café – 5 €\tend".as_bytes()));
    bytes.extend(record(255, &[]));
    let actions = decode(&bytes).unwrap();
    assert_eq!(actions.iter().filter(|action| matches!(action, Action::Block(_))).count(), 1);
}
