use flashpdf_core::command::split_pages;
use flashpdf_core::document::{CommandParser, Element};
use flashpdf_core::{Command, FontId, OwnedCommand, Pt, Rgb, TextAlign, TextStyle};

fn pt(value: f32) -> Pt {
    Pt::new(value.to_bits()).unwrap()
}

#[test]
fn text_command_lowers_to_a_paragraph_of_one_undecorated_run() {
    let style = TextStyle {
        size: pt(12.0),
        align: TextAlign::Center,
        color: Rgb { r: 1, g: 2, b: 3 },
        font: FontId::helvetica_bold(),
    };
    let lowered = Command::Text { text: "héllo", style }.lower();
    match lowered {
        Some(OwnedCommand::Paragraph(align, text, runs, links)) => {
            assert_eq!(align, TextAlign::Center);
            assert_eq!(text, "héllo");
            assert!(links.is_empty());
            assert_eq!(runs.len(), 1);
            assert_eq!(runs[0].len, 6);
            assert_eq!(runs[0].font, FontId::helvetica_bold());
            assert_eq!(runs[0].size, pt(12.0));
            assert_eq!(runs[0].color, Rgb { r: 1, g: 2, b: 3 });
            assert!(!runs[0].hard_break);
            assert!(!runs[0].decoration.underline && !runs[0].decoration.line_through);
            assert_eq!(runs[0].decoration.link, None);
        }
        other => panic!("unexpected {other:?}"),
    }
    assert!(Command::PageBreak.lower().is_none());
}

#[test]
fn page_breaks_split_commands_into_pages_and_drop_out() {
    let style = TextStyle::plain(pt(10.0));
    let commands = [
        Command::Text { text: "one", style },
        Command::PageBreak,
        Command::StackStart { gap: pt(2.0) },
        Command::Spacer(pt(5.0)),
        Command::StackEnd,
        Command::PageBreak,
    ];
    let pages = split_pages(&commands);
    assert_eq!(pages.len(), 3);
    assert_eq!(pages[0].len(), 1);
    assert!(matches!(pages[1][..], [OwnedCommand::StackStart(_), OwnedCommand::Spacer(_), OwnedCommand::StackEnd]));
    assert!(pages[2].is_empty());
    let stack = CommandParser::new(&pages[1]).parse_document().unwrap();
    assert!(matches!(&stack[..], [Element::Stack(inner)] if inner.children.len() == 1));
    assert!(split_pages(&[]).len() == 1);
}

#[test]
fn owned_commands_keep_their_strings_and_slices() {
    let columns = [flashpdf_core::ColumnWidth::Fixed(pt(20.0))];
    let links = vec!["https://example.com".to_owned()];
    let runs = [flashpdf_core::TextRun {
        len: 2,
        font: FontId::helvetica(),
        size: pt(9.0),
        color: Rgb::black(),
        hard_break: true,
        decoration: flashpdf_core::RunDecoration::none(),
    }];
    match (Command::RowStart { columns: &columns }).lower() {
        Some(OwnedCommand::RowStart(owned)) => assert_eq!(owned, columns.to_vec()),
        other => panic!("unexpected {other:?}"),
    }
    match (Command::Paragraph { align: TextAlign::Right, text: "ab", runs: &runs, links: &links }).lower() {
        Some(OwnedCommand::Paragraph(TextAlign::Right, text, owned_runs, owned_links)) => {
            assert_eq!(text, "ab");
            assert_eq!(owned_runs, runs.to_vec());
            assert_eq!(owned_links, links);
        }
        other => panic!("unexpected {other:?}"),
    }
    match (Command::Image { slot: 3, width: flashpdf_core::ImageSize::Auto, height: None, link: Some("mailto:a@b.c") }).lower() {
        Some(OwnedCommand::Image(3, flashpdf_core::ImageSize::Auto, None, Some(link))) => assert_eq!(link, "mailto:a@b.c"),
        other => panic!("unexpected {other:?}"),
    }
}

#[test]
fn text_images_and_unpainted_boxes_split_across_pages_and_the_rest_stays_whole() {
    let style = TextStyle::plain(pt(10.0));
    let zero = pt(0.0);
    let plain_box = flashpdf_core::BoxStyle {
        margin: flashpdf_core::Edges::all(pt(4.0)),
        padding: flashpdf_core::Edges::all(zero),
        border: flashpdf_core::Edges::all(Pt::new((-0.0f32).to_bits()).unwrap()),
        background: None,
        border_color: flashpdf_core::Edges::all(Rgb::black()),
    };
    let padded_box = flashpdf_core::BoxStyle { padding: flashpdf_core::Edges::all(pt(1.0)), ..plain_box };
    let cases: [(Vec<Command>, bool); 6] = [
        (vec![Command::Text { text: "a", style }], true),
        (vec![Command::Spacer(pt(3.0))], false),
        (
            vec![
                Command::BoxStart { style: plain_box },
                Command::Spacer(pt(1.0)),
                Command::Text { text: "a", style },
                Command::BoxEnd,
            ],
            true,
        ),
        (
            vec![Command::BoxStart { style: padded_box }, Command::Text { text: "a", style }, Command::BoxEnd],
            false,
        ),
        (
            vec![
                Command::BoxStart { style: plain_box },
                Command::StackStart { gap: zero },
                Command::StackEnd,
                Command::BoxEnd,
            ],
            false,
        ),
        (vec![Command::StackStart { gap: zero }, Command::Text { text: "a", style }, Command::StackEnd], false),
    ];
    for (commands, expected) in cases {
        let pages = split_pages(&commands);
        let elements = CommandParser::new(&pages[0]).parse_document().unwrap();
        assert_eq!(elements.len(), 1);
        assert_eq!(flashpdf_core::document::splittable(&elements[0]), expected, "{commands:?}");
    }
}
