//! Layout commands as the protocol decodes them.

use vstd::prelude::*;

use crate::model::{BoxStyle, FontId, Fraction, Percent, Pt, Rgb, RunDecoration, TextAlign, TextStyle};
use vstd::string::StringSliceAdditionalSpecFns;

verus! {

/// The maximum nesting of Stack, Box, Row and Table containers.
pub const MAX_LAYOUT_DEPTH: usize = 64;

/// The maximum number of cells in a row.
pub const MAX_COLUMNS: usize = 256;

/// How wide a row cell or a table is.
#[derive(Clone, Copy, Debug, PartialEq, Eq, Structural)]
pub enum ColumnWidth {
    Fixed(Pt),
    Fraction(Fraction),
    Percent(Percent),
}

/// How wide an image is drawn: its own size, a length, or a share of the container.
#[derive(Clone, Copy, Debug, PartialEq, Eq, Structural)]
pub enum ImageSize {
    Auto,
    Fixed(Pt),
    Percent(Percent),
}

/// One styled run of a paragraph: the next `len` bytes of the paragraph text.
#[derive(Clone, Copy, Debug, PartialEq, Eq, Structural)]
pub struct TextRun {
    pub len: usize,
    pub font: FontId,
    pub size: Pt,
    pub color: Rgb,
    pub hard_break: bool,
    pub decoration: RunDecoration,
}

/// A layout command that owns its text, as it waits in a block.
#[derive(Debug)]
pub enum OwnedCommand {
    Paragraph(TextAlign, String, Vec<TextRun>, Vec<String>),
    BoxStart(BoxStyle),
    BoxEnd,
    Spacer(Pt),
    StackStart(Pt),
    StackEnd,
    RowStart(Vec<ColumnWidth>),
    RowEnd,
    TableStart(u16, ColumnWidth),
    TableEnd,
    Image(u16, ImageSize, Option<Pt>, Option<String>),
}

/// A command with its strings and lists as sequences.
pub enum CommandView {
    Paragraph(TextAlign, Seq<char>, Seq<TextRun>, Seq<Seq<char>>),
    BoxStart(BoxStyle),
    BoxEnd,
    Spacer(Pt),
    StackStart(Pt),
    StackEnd,
    RowStart(Seq<ColumnWidth>),
    RowEnd,
    TableStart(u16, ColumnWidth),
    TableEnd,
    Image(u16, ImageSize, Option<Pt>, Option<Seq<char>>),
}

/// A layout command as a caller of the renderer writes it, borrowing its text.
#[derive(Clone, Copy, Debug, PartialEq)]
#[allow(inconsistent_fields)]
pub enum Command<'a> {
    /// One run in one style; it becomes a paragraph of that one run.
    Text { text: &'a str, style: TextStyle },
    /// `runs` slice `text` consecutively and must cover it exactly on char boundaries.
    Paragraph {
        align: TextAlign,
        text: &'a str,
        runs: &'a [TextRun],
        /// URIs the runs' `decoration.link` index into.
        links: &'a [String],
    },
    BoxStart { style: BoxStyle },
    BoxEnd,
    Spacer(Pt),
    StackStart { gap: Pt },
    StackEnd,
    RowStart { columns: &'a [ColumnWidth] },
    RowEnd,
    /// The first `header_rows` children repeat at the top of every page the table continues on.
    TableStart { header_rows: u16, width: ColumnWidth },
    TableEnd,
    PageBreak,
    /// A registered image as an atomic block box; `height` follows the aspect ratio when absent.
    Image { slot: u16, width: ImageSize, height: Option<Pt>, link: Option<&'a str> },
}

/// The one run a `Text` command stands for: all of its bytes, undecorated.
pub open spec fn text_run(text: &str, style: TextStyle) -> TextRun {
    TextRun {
        len: text.spec_bytes().len() as usize,
        font: style.font,
        size: style.size,
        color: style.color,
        hard_break: false,
        decoration: RunDecoration { underline: false, line_through: false, link: None },
    }
}

/// The block command a command becomes; a page break is none.
pub open spec fn lowered(command: Command) -> Option<CommandView> {
    match command {
        Command::Text { text, style } => Some(
            CommandView::Paragraph(style.align, text@, seq![text_run(text, style)], Seq::empty()),
        ),
        Command::Paragraph { align, text, runs, links } => Some(
            CommandView::Paragraph(align, text@, runs@, strings_view(links@)),
        ),
        Command::BoxStart { style } => Some(CommandView::BoxStart(style)),
        Command::BoxEnd => Some(CommandView::BoxEnd),
        Command::Spacer(height) => Some(CommandView::Spacer(height)),
        Command::StackStart { gap } => Some(CommandView::StackStart(gap)),
        Command::StackEnd => Some(CommandView::StackEnd),
        Command::RowStart { columns } => Some(CommandView::RowStart(columns@)),
        Command::RowEnd => Some(CommandView::RowEnd),
        Command::TableStart { header_rows, width } => Some(CommandView::TableStart(header_rows, width)),
        Command::TableEnd => Some(CommandView::TableEnd),
        Command::PageBreak => None,
        Command::Image { slot, width, height, link } => Some(CommandView::Image(
            slot,
            width,
            height,
            match link {
                Some(text) => Some(text@),
                None => None,
            },
        )),
    }
}

/// The commands of each page: a page break closes one page and opens the next.
pub open spec fn pages_of(commands: Seq<Command>) -> Seq<Seq<CommandView>>
    decreases commands.len(),
{
    if commands.len() == 0 {
        seq![Seq::empty()]
    } else {
        let before = pages_of(commands.drop_last());
        match lowered(commands.last()) {
            Some(view) => before.update(before.len() - 1, before.last().push(view)),
            None => before.push(Seq::empty()),
        }
    }
}

/// The views of the pages' commands.
pub open spec fn pages_view(pages: Seq<Vec<OwnedCommand>>) -> Seq<Seq<CommandView>> {
    pages.map_values(|page: Vec<OwnedCommand>| commands_view(page@))
}

fn copy_strings(strings: &[String]) -> (copies: Vec<String>)
    ensures
        strings_view(copies@) == strings_view(strings@),
{
    let mut copies: Vec<String> = Vec::new();
    let mut index: usize = 0;
    while index < strings.len()
        invariant
            index <= strings.len(),
            strings_view(copies@) == strings_view(strings@.subrange(0, index as int)),
        decreases strings.len() - index,
    {
        let copy = strings[index].clone();
        let ghost before = copies@;
        copies.push(copy);
        proof {
            assert(strings_view(copies@) =~= strings_view(before).push(copy@));
            assert(strings_view(strings@.subrange(0, index + 1)) =~= strings_view(
                strings@.subrange(0, index as int),
            ).push(strings@[index as int]@));
        }
        index = index + 1;
    }
    assert(strings@.subrange(0, strings@.len() as int) =~= strings@);
    copies
}

impl<'a> Command<'a> {
    /// The owned command this one becomes in a block: `Text` is a paragraph of
    /// one run; a page break is none.
    pub fn lower(&self) -> (owned: Option<OwnedCommand>)
        ensures
            match owned {
                Some(command) => lowered(*self) == Some(command@),
                None => lowered(*self) is None,
            },
    {
        match *self {
            Command::Text { text, style } => {
                let run = TextRun {
                    len: text.len(),
                    font: style.font,
                    size: style.size,
                    color: style.color,
                    hard_break: false,
                    decoration: RunDecoration::none(),
                };
                let mut runs: Vec<TextRun> = Vec::new();
                runs.push(run);
                let links: Vec<String> = Vec::new();
                let owned = OwnedCommand::Paragraph(style.align, text.to_owned(), runs, links);
                assert(runs@ =~= seq![text_run(text, style)]);
                assert(strings_view(links@) =~= Seq::<Seq<char>>::empty());
                Some(owned)
            },
            Command::Paragraph { align, text, runs, links } => Some(
                OwnedCommand::Paragraph(align, text.to_owned(), vstd::slice::slice_to_vec(runs), copy_strings(links)),
            ),
            Command::BoxStart { style } => Some(OwnedCommand::BoxStart(style)),
            Command::BoxEnd => Some(OwnedCommand::BoxEnd),
            Command::Spacer(height) => Some(OwnedCommand::Spacer(height)),
            Command::StackStart { gap } => Some(OwnedCommand::StackStart(gap)),
            Command::StackEnd => Some(OwnedCommand::StackEnd),
            Command::RowStart { columns } => Some(OwnedCommand::RowStart(vstd::slice::slice_to_vec(columns))),
            Command::RowEnd => Some(OwnedCommand::RowEnd),
            Command::TableStart { header_rows, width } => Some(OwnedCommand::TableStart(header_rows, width)),
            Command::TableEnd => Some(OwnedCommand::TableEnd),
            Command::PageBreak => None,
            Command::Image { slot, width, height, link } => {
                let owned_link = match link {
                    Some(text) => Some(text.to_owned()),
                    None => None,
                };
                Some(OwnedCommand::Image(slot, width, height, owned_link))
            },
        }
    }
}

/// The commands of each page, owned: page breaks split them and drop out.
pub fn split_pages(commands: &[Command]) -> (pages: Vec<Vec<OwnedCommand>>)
    ensures
        pages_view(pages@) == pages_of(commands@),
{
    let mut done: Vec<Vec<OwnedCommand>> = Vec::new();
    let mut current: Vec<OwnedCommand> = Vec::new();
    let mut index: usize = 0;
    assert(commands@.subrange(0, 0) =~= Seq::<Command>::empty());
    assert(pages_view(done@) =~= Seq::<Seq<CommandView>>::empty());
    assert(commands_view(current@) =~= Seq::<CommandView>::empty());
    assert(pages_view(done@).push(commands_view(current@)) =~= pages_of(Seq::<Command>::empty()));
    while index < commands.len()
        invariant
            index <= commands.len(),
            pages_view(done@).push(commands_view(current@)) == pages_of(commands@.subrange(0, index as int)),
        decreases commands.len() - index,
    {
        let ghost prefix = commands@.subrange(0, index as int);
        let ghost next = commands@.subrange(0, index + 1);
        assert(next.drop_last() =~= prefix);
        assert(next.last() == commands@[index as int]);
        let ghost before_done = done@;
        let ghost before_current = current@;
        match commands[index].lower() {
            Some(owned) => {
                current.push(owned);
                assert(commands_view(current@) =~= commands_view(before_current).push(owned@));
                assert(pages_view(done@).push(commands_view(current@)) =~= pages_view(before_done).push(
                    commands_view(before_current),
                ).update(pages_view(before_done).len() as int, commands_view(before_current).push(owned@)));
            },
            None => {
                let mut finished: Vec<OwnedCommand> = Vec::new();
                core::mem::swap(&mut finished, &mut current);
                done.push(finished);
                assert(pages_view(done@) =~= pages_view(before_done).push(commands_view(before_current)));
                assert(commands_view(current@) =~= Seq::<CommandView>::empty());
            },
        }
        index = index + 1;
    }
    assert(commands@.subrange(0, commands@.len() as int) =~= commands@);
    let ghost before_done = done@;
    done.push(current);
    assert(pages_view(done@) =~= pages_view(before_done).push(commands_view(current@)));
    done
}

/// The characters of each string.
pub open spec fn strings_view(strings: Seq<String>) -> Seq<Seq<char>> {
    strings.map_values(|text: String| text@)
}

impl View for OwnedCommand {
    type V = CommandView;

    open spec fn view(&self) -> CommandView {
        match self {
            OwnedCommand::Paragraph(align, text, runs, links) => CommandView::Paragraph(
                *align,
                text@,
                runs@,
                strings_view(links@),
            ),
            OwnedCommand::BoxStart(style) => CommandView::BoxStart(*style),
            OwnedCommand::BoxEnd => CommandView::BoxEnd,
            OwnedCommand::Spacer(space) => CommandView::Spacer(*space),
            OwnedCommand::StackStart(gap) => CommandView::StackStart(*gap),
            OwnedCommand::StackEnd => CommandView::StackEnd,
            OwnedCommand::RowStart(columns) => CommandView::RowStart(columns@),
            OwnedCommand::RowEnd => CommandView::RowEnd,
            OwnedCommand::TableStart(rows, width) => CommandView::TableStart(*rows, *width),
            OwnedCommand::TableEnd => CommandView::TableEnd,
            OwnedCommand::Image(slot, width, height, link) => CommandView::Image(
                *slot,
                *width,
                *height,
                optional_text(*link),
            ),
        }
    }
}

/// The characters of an optional string.
pub open spec fn optional_text(text: Option<String>) -> Option<Seq<char>> {
    match text {
        Some(text) => Some(text@),
        None => None,
    }
}

/// The views of a list of commands.
pub open spec fn commands_view(commands: Seq<OwnedCommand>) -> Seq<CommandView> {
    commands.map_values(|command: OwnedCommand| command@)
}

} // verus!
