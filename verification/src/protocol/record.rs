//! What each record does to the decoder: the fields it reads, the refusal
//! each malformed field earns, and the state and renderer action that follow.

use vstd::layout::size_of;
use vstd::prelude::*;
use vstd::utf8::encode_utf8;

use super::cursor::{
    field_align, field_alt, field_column, field_column_list, field_columns, field_image_size, field_length, field_positive,
    field_rgb, field_size, field_take, field_text, field_u16, field_u8, field_uri, le16,
};
use super::opcode::{opcode_of, Opcode};
use super::ProtocolError;
use crate::text::all_standard_encodable;
use crate::command::{ColumnWidth, CommandView, OwnedCommand, TextRun, MAX_LAYOUT_DEPTH};
use crate::model::{
    page_fits, BoxStyle, Edges, FontId, Page, Pt, Rgb, RenderError, RunDecoration, TextAlign, TextStyle,
};

verus! {

/// The largest record payload.
pub const MAX_RECORD: usize = 65536;

/// An open Stack, Box, Row or Table buffers its commands until it closes; this bounds that buffer.
pub const MAX_BLOCK_BYTES: usize = 16 * 1024 * 1024;

/// The header: magic, version, page width, page height and margin.
pub const HEADER_LEN: usize = 18;

/// The protocol version this decoder reads.
pub const VERSION: u16 = 5;

/// The containers a block is inside of, innermost last.
#[derive(Clone, Copy, Debug, PartialEq, Eq, Structural)]
pub enum Frame {
    Stack,
    Box,
    Row { columns: usize, cells: usize },
    Table,
}

/// What the renderer is asked to do, in stream order.
#[derive(Debug)]
pub enum Action {
    /// Create the renderer for this page, with the fonts and images registered so far.
    Start(Page),
    PageBreak,
    Footer(String, TextStyle),
    /// Lay out and paint one top-level block.
    Block(Vec<OwnedCommand>),
}

pub enum ActionView {
    Start(Page),
    PageBreak,
    Footer(Seq<char>, TextStyle),
    Block(Seq<CommandView>),
}

impl View for Action {
    type V = ActionView;

    open spec fn view(&self) -> ActionView {
        match self {
            Action::Start(page) => ActionView::Start(*page),
            Action::PageBreak => ActionView::PageBreak,
            Action::Footer(text, style) => ActionView::Footer(text@, *style),
            Action::Block(commands) => ActionView::Block(crate::command::commands_view(commands@)),
        }
    }
}

/// Everything the decoder knows besides the bytes it has not read yet.
pub struct DecodeState {
    pub page: Option<Page>,
    /// Whether `Start` was asked for.
    pub started: bool,
    /// An action that waits behind `Start`.
    pub deferred: Option<ActionView>,
    /// The commands of the block being buffered.
    pub block: Seq<CommandView>,
    pub block_bytes: nat,
    pub frames: Seq<Frame>,
    pub ended: bool,
    /// Registered TrueType fonts.
    pub fonts: nat,
    /// Registered images.
    pub images: nat,
    pub image_bytes: nat,
}

/// A decoding step's new state and its answer: an action for the renderer,
/// `None` when more bytes are needed, or the refusal.
pub type Outcome = (DecodeState, Result<Option<ActionView>, ProtocolError>);

/// The state invariant: bounded nesting and counters, rows never over-full,
/// and the end reached only inside a started document.
pub open spec fn state_wf(state: DecodeState) -> bool {
    &&& state.frames.len() <= MAX_LAYOUT_DEPTH
    &&& forall|index: int| 0 <= index < state.frames.len() ==> match #[trigger] state.frames[index] {
        Frame::Row { columns, cells } => columns <= 256 && cells <= columns + 1,
        _ => true,
    }
    &&& state.block_bytes <= MAX_BLOCK_BYTES + 1
    &&& state.fonts <= 254
    &&& state.images <= 65535
    &&& state.image_bytes <= crate::image::MAX_IMAGE_BYTES
    &&& state.started ==> state.page is Some
    &&& state.deferred is Some ==> state.started
    &&& state.ended ==> state.started && state.deferred is None && state.frames.len() == 0
}

/// Answer with `action`, after asking for the renderer first if it was never started.
pub open spec fn with_renderer(state: DecodeState, action: ActionView) -> Outcome {
    if state.started {
        (state, Ok(Some(action)))
    } else {
        match state.page {
            Some(page) => (
                DecodeState { started: true, deferred: Some(action), ..state },
                Ok(Some(ActionView::Start(page))),
            ),
            None => (state, Err(ProtocolError::MissingHeader)),
        }
    }
}

/// The bytes a block spends on a paragraph's links.
pub open spec fn links_bytes(links: Seq<Seq<char>>) -> nat
    decreases links.len(),
{
    if links.len() == 0 {
        0
    } else {
        links_bytes(links.drop_last()) + encode_utf8(links.last()).len() + size_of::<String>()
    }
}

/// What a command costs against the block bound: its heap payload and the command itself.
pub open spec fn command_cost(command: CommandView) -> nat {
    let payload: nat = match command {
        CommandView::Paragraph(_, text, runs, links) => encode_utf8(text).len() + runs.len() * size_of::<
            TextRun,
        >() + links_bytes(links),
        CommandView::RowStart(columns) => columns.len() * size_of::<ColumnWidth>(),
        CommandView::Image(_, _, _, Some(link)) => encode_utf8(link).len(),
        _ => 0,
    };
    payload + size_of::<OwnedCommand>()
}

/// Buffer a command; past the bound the block refuses every further command
/// until it is flushed.
pub open spec fn push_command(state: DecodeState, command: CommandView) -> (DecodeState, Result<(), ProtocolError>) {
    let total = state.block_bytes + command_cost(command);
    if total > MAX_BLOCK_BYTES {
        (DecodeState { block_bytes: (MAX_BLOCK_BYTES + 1) as nat, ..state }, Err(ProtocolError::BlockTooLarge))
    } else {
        (DecodeState { block_bytes: total, block: state.block.push(command), ..state }, Ok(()))
    }
}

/// A command is buffered exactly when the block's accounted bytes plus its
/// cost stay within the bound, and is then appended with its cost counted;
/// otherwise it is refused as too large, and so is every command after it
/// until the block is flushed.
pub proof fn lemma_block_budget(state: DecodeState, command: CommandView, next: CommandView)
    ensures
        ({
            let (after, pushed) = push_command(state, command);
            &&& (pushed is Err) == (state.block_bytes + command_cost(command) > MAX_BLOCK_BYTES)
            &&& pushed is Err ==> pushed == Err::<(), ProtocolError>(ProtocolError::BlockTooLarge)
                && push_command(after, next).1 is Err
            &&& pushed is Ok ==> after.block == state.block.push(command) && after.block_bytes == state.block_bytes
                + command_cost(command)
        }),
{
}

/// A finished child counts as one more cell of an enclosing row.
pub open spec fn complete_child(state: DecodeState) -> (DecodeState, Result<(), ProtocolError>) {
    if state.frames.len() > 0 {
        match state.frames.last() {
            Frame::Row { columns, cells } => if cells + 1 > columns {
                // An over-full row stays over-full by one: every further child is refused alike.
                let over = DecodeState {
                    frames: state.frames.update(
                        state.frames.len() - 1,
                        Frame::Row { columns, cells: (columns + 1) as usize },
                    ),
                    ..state
                };
                (over, Err(ProtocolError::RowCellCountMismatch))
            } else {
                let counted = DecodeState {
                    frames: state.frames.update(
                        state.frames.len() - 1,
                        Frame::Row { columns, cells: (cells + 1) as usize },
                    ),
                    ..state
                };
                (counted, Ok(()))
            },
            _ => (state, Ok(())),
        }
    } else {
        (state, Ok(()))
    }
}

/// Hand the buffered block to the renderer and start an empty one.
pub open spec fn flush_block(state: DecodeState) -> Outcome {
    with_renderer(
        DecodeState { block: seq![], block_bytes: 0, ..state },
        ActionView::Block(state.block),
    )
}

/// A command that is a child of its container, or a whole block at the top.
pub open spec fn layout_command(state: DecodeState, command: CommandView) -> Outcome {
    let (pushed, buffered) = push_command(state, command);
    match buffered {
        Err(error) => (pushed, Err(error)),
        Ok(()) => {
            let (counted, fits) = complete_child(pushed);
            match fits {
                Err(error) => (counted, Err(error)),
                Ok(()) => if counted.frames.len() == 0 {
                    flush_block(counted)
                } else {
                    (counted, Ok(None))
                },
            }
        },
    }
}

/// Open a container.
pub open spec fn open_frame(state: DecodeState, frame: Frame, command: CommandView) -> Outcome {
    if state.frames.len() >= MAX_LAYOUT_DEPTH {
        (state, Err(ProtocolError::NestingTooDeep))
    } else {
        let (pushed, buffered) = push_command(state, command);
        match buffered {
            Err(error) => (pushed, Err(error)),
            Ok(()) => (DecodeState { frames: pushed.frames.push(frame), ..pushed }, Ok(None)),
        }
    }
}

/// Whether an end command closes this container; a row must hold all its cells.
pub open spec fn closes(command: CommandView, frame: Frame) -> bool {
    match (command, frame) {
        (CommandView::StackEnd, Frame::Stack) => true,
        (CommandView::BoxEnd, Frame::Box) => true,
        (CommandView::TableEnd, Frame::Table) => true,
        (CommandView::RowEnd, Frame::Row { columns, cells }) => columns == cells,
        _ => false,
    }
}

/// Close the innermost container.
pub open spec fn close_frame(state: DecodeState, command: CommandView) -> Outcome {
    if state.frames.len() == 0 {
        (state, Err(ProtocolError::InvalidNesting))
    } else {
        let frame = state.frames.last();
        let popped = DecodeState { frames: state.frames.drop_last(), ..state };
        if closes(command, frame) {
            layout_command(popped, command)
        } else {
            match (command, frame) {
                (CommandView::RowEnd, Frame::Row { .. }) => (popped, Err(ProtocolError::RowCellCountMismatch)),
                _ => (popped, Err(ProtocolError::InvalidNesting)),
            }
        }
    }
}

/// Slots 0 and 1 are Helvetica; the rest are the registered fonts.
pub open spec fn known_font(state: DecodeState, slot: u8) -> bool {
    slot < state.fonts + 2
}

/// The refusal when the payload holds bytes past its last field.
pub open spec fn finished(payload: Seq<u8>, end: int, then: Outcome, state: DecodeState) -> Outcome {
    if end == payload.len() {
        then
    } else {
        (state, Err(ProtocolError::InvalidRecordLength))
    }
}

/// A record with no fields, such as the end of a container.
pub open spec fn record_close(state: DecodeState, payload: Seq<u8>, command: CommandView) -> Outcome {
    finished(payload, 0, close_frame(state, command), state)
}

pub open spec fn record_spacer(state: DecodeState, payload: Seq<u8>) -> Outcome {
    match field_length(payload, 0, "spacer") {
        Ok((space, end)) => finished(payload, end, layout_command(state, CommandView::Spacer(space)), state),
        Err(error) => (state, Err(error)),
    }
}

pub open spec fn record_stack_start(state: DecodeState, payload: Seq<u8>) -> Outcome {
    match field_length(payload, 0, "stack gap") {
        Ok((gap, end)) => finished(
            payload,
            end,
            open_frame(state, Frame::Stack, CommandView::StackStart(gap)),
            state,
        ),
        Err(error) => (state, Err(error)),
    }
}

pub open spec fn record_row_start(state: DecodeState, payload: Seq<u8>) -> Outcome {
    match field_columns(payload, 0) {
        Ok((columns, end)) => finished(
            payload,
            end,
            open_frame(
                state,
                Frame::Row { columns: columns.len() as usize, cells: 0 },
                CommandView::RowStart(columns),
            ),
            state,
        ),
        Err(error) => (state, Err(error)),
    }
}

pub open spec fn record_table_start(state: DecodeState, payload: Seq<u8>) -> Outcome {
    match field_u16(payload, 0) {
        Ok((header_rows, start)) => match field_column(payload, start) {
            Ok((width, end)) => finished(
                payload,
                end,
                open_frame(state, Frame::Table, CommandView::TableStart(header_rows, width)),
                state,
            ),
            Err(error) => (state, Err(error)),
        },
        Err(error) => (state, Err(error)),
    }
}

pub open spec fn record_page_break(state: DecodeState, payload: Seq<u8>) -> Outcome {
    if payload.len() != 0 {
        (state, Err(ProtocolError::InvalidRecordLength))
    } else if state.frames.len() != 0 {
        (state, Err(ProtocolError::InvalidNesting))
    } else {
        with_renderer(state, ActionView::PageBreak)
    }
}

pub open spec fn record_end(state: DecodeState, payload: Seq<u8>) -> Outcome {
    if payload.len() != 0 {
        (state, Err(ProtocolError::InvalidRecordLength))
    } else if state.frames.len() != 0 {
        (state, Err(ProtocolError::InvalidNesting))
    } else if !state.started {
        (state, Err(ProtocolError::EmptyDocument))
    } else {
        (DecodeState { ended: true, ..state }, Ok(None))
    }
}

/// The footer: size, alignment, colour, font slot and a template that may
/// hold the page tokens; only before any content, and only once.
pub open spec fn record_footer(state: DecodeState, payload: Seq<u8>) -> Outcome {
    match field_size(payload, 0, "font size") {
        Err(error) => (state, Err(error)),
        Ok((size, a1)) => match field_align(payload, a1) {
            Err(error) => (state, Err(error)),
            Ok((align, a2)) => match field_rgb(payload, a2) {
                Err(error) => (state, Err(error)),
                Ok((color, a3)) => match field_u8(payload, a3) {
                    Err(error) => (state, Err(error)),
                    Ok((slot, a4)) => if !known_font(state, slot) {
                        (state, Err(ProtocolError::UnknownFont))
                    } else {
                        match field_text(payload, a4, true) {
                            Err(error) => (state, Err(error)),
                            Ok((text, _, end)) => if end != payload.len() {
                                (state, Err(ProtocolError::InvalidRecordLength))
                            } else if state.started || state.frames.len() != 0 {
                                (state, Err(ProtocolError::InvalidNesting))
                            } else {
                                with_renderer(
                                    state,
                                    ActionView::Footer(
                                        text,
                                        TextStyle { size, align, color, font: FontId::from_slot(slot) },
                                    ),
                                )
                            },
                        }
                    },
                },
            },
        },
    }
}

/// `count` link targets.
pub open spec fn field_links(payload: Seq<u8>, at: int, count: nat) -> Result<(Seq<Seq<char>>, int), ProtocolError>
    decreases count,
{
    if count == 0 {
        Ok((seq![], at))
    } else {
        match field_links(payload, at, (count - 1) as nat) {
            Ok((links, middle)) => match field_uri(payload, middle) {
                Ok((link, end)) => Ok((links.push(link), end)),
                Err(error) => Err(error),
            },
            Err(error) => Err(error),
        }
    }
}

/// The run flags: bit 0 a hard break, 1 underline, 2 line-through, 3 a link index follows.
pub open spec fn run_flags_ok(flags: u8) -> bool {
    flags <= 0x0f
}

/// A run's link index, when flag bit 3 says one follows.
pub open spec fn field_run_link(payload: Seq<u8>, at: int, flags: u8, links: nat) -> Result<(Option<u16>, int), ProtocolError> {
    if flags & 8 != 0 {
        match field_u16(payload, at) {
            Ok((index, end)) => if index < links {
                Ok((Some(index), end))
            } else {
                Err(ProtocolError::InvalidValue("link index"))
            },
            Err(error) => Err(error),
        }
    } else {
        Ok((None, at))
    }
}

/// One run: font slot, size, colour, flags, an optional link index and its
/// text; a run in Helvetica (slots 0 and 1) holds only what WinAnsi encodes.
pub open spec fn field_run(state: DecodeState, links: nat, payload: Seq<u8>, at: int) -> Result<(Seq<char>, TextRun, int), ProtocolError> {
    match field_u8(payload, at) {
        Err(error) => Err(error),
        Ok((slot, a1)) => if !known_font(state, slot) {
            Err(ProtocolError::UnknownFont)
        } else {
            match field_size(payload, a1, "font size") {
                Err(error) => Err(error),
                Ok((size, a2)) => match field_rgb(payload, a2) {
                    Err(error) => Err(error),
                    Ok((color, a3)) => match field_u8(payload, a3) {
                        Err(error) => Err(error),
                        Ok((flags, a4)) => if !run_flags_ok(flags) {
                            Err(ProtocolError::InvalidValue("run flags"))
                        } else {
                            match field_run_link(payload, a4, flags, links) {
                                Err(error) => Err(error),
                                Ok((link, a5)) => match field_text(payload, a5, false) {
                                    Err(error) => Err(error),
                                    Ok((text, _, _)) if slot < 2 && !all_standard_encodable(text) => Err(
                                        ProtocolError::UnsupportedWinAnsi,
                                    ),
                                    Ok((text, length, end)) => Ok(
                                        (
                                            text,
                                            TextRun {
                                                len: length as usize,
                                                font: FontId::from_slot(slot),
                                                size,
                                                color,
                                                hard_break: flags & 1 != 0,
                                                decoration: RunDecoration {
                                                    underline: flags & 2 != 0,
                                                    line_through: flags & 4 != 0,
                                                    link,
                                                },
                                            },
                                            end,
                                        ),
                                    ),
                                },
                            }
                        },
                    },
                },
            }
        },
    }
}

/// On the wire a run starts with its font slot, a 4-byte size, three colour
/// bytes and a flag byte: a decoded run has the colour of those three bytes,
/// a hard break exactly when flag bit 0 is set, underline exactly when bit 1
/// (value 2) is, and line-through exactly when bit 2 (value 4) is.
pub proof fn lemma_run_flags(state: DecodeState, links: nat, payload: Seq<u8>, at: int)
    ensures
        field_run(state, links, payload, at) matches Ok((_, run, _)) ==> {
            let flags = payload[at + 8] as int;
            &&& run.color == (Rgb { r: payload[at + 5], g: payload[at + 6], b: payload[at + 7] })
            &&& run.hard_break == (flags % 2 == 1)
            &&& run.decoration.underline == ((flags / 2) % 2 == 1)
            &&& run.decoration.line_through == ((flags / 4) % 2 == 1)
        },
{
    assert(forall|b: u8|
        #![auto]
        ((b & 1u8) != 0u8) == (b % 2u8 == 1u8) && ((b & 2u8) != 0u8) == ((b / 2u8) % 2u8 == 1u8) && ((b & 4u8)
            != 0u8) == ((b / 4u8) % 2u8 == 1u8)) by (bit_vector);
}

/// `count` runs: the paragraph text so far, the runs and the end.
pub open spec fn field_runs(state: DecodeState, links: nat, payload: Seq<u8>, at: int, count: nat) -> Result<(Seq<char>, Seq<TextRun>, int), ProtocolError>
    decreases count,
{
    if count == 0 {
        Ok((seq![], seq![], at))
    } else {
        match field_runs(state, links, payload, at, (count - 1) as nat) {
            Ok((text, runs, middle)) => match field_run(state, links, payload, middle) {
                Ok((more, run, end)) => Ok((text + more, runs.push(run), end)),
                Err(error) => Err(error),
            },
            Err(error) => Err(error),
        }
    }
}

/// A paragraph: alignment, the link table, then the runs.
pub open spec fn record_paragraph(state: DecodeState, payload: Seq<u8>) -> Outcome {
    match field_align(payload, 0) {
        Err(error) => (state, Err(error)),
        Ok((align, a1)) => match field_u16(payload, a1) {
            Err(error) => (state, Err(error)),
            Ok((link_count, a2)) => match field_links(payload, a2, link_count as nat) {
                Err(error) => (state, Err(error)),
                Ok((links, a3)) => match field_u16(payload, a3) {
                    Err(error) => (state, Err(error)),
                    Ok((run_count, a4)) => match field_runs(state, links.len(), payload, a4, run_count as nat) {
                        Err(error) => (state, Err(error)),
                        Ok((text, runs, end)) => finished(
                            payload,
                            end,
                            layout_command(state, CommandView::Paragraph(align, text, runs, links)),
                            state,
                        ),
                    },
                },
            },
        },
    }
}

/// The image height: 0 from the aspect ratio, 1 a positive length.
pub open spec fn field_image_height(payload: Seq<u8>, at: int) -> Result<(Option<Pt>, int), ProtocolError> {
    match field_u8(payload, at) {
        Ok((kind, start)) => if kind == 0 {
            Ok((None, start))
        } else if kind == 1 {
            match field_size(payload, start, "image height") {
                Ok((height, end)) => Ok((Some(height), end)),
                Err(error) => Err(error),
            }
        } else {
            Err(ProtocolError::InvalidValue("image height kind"))
        },
        Err(error) => Err(error),
    }
}

/// The image link: 0 none, 1 a link target.
pub open spec fn field_image_link(payload: Seq<u8>, at: int) -> Result<(Option<Seq<char>>, int), ProtocolError> {
    match field_u8(payload, at) {
        Ok((flag, start)) => if flag == 0 {
            Ok((None, start))
        } else if flag == 1 {
            match field_uri(payload, start) {
                Ok((link, end)) => Ok((Some(link), end)),
                Err(error) => Err(error),
            }
        } else {
            Err(ProtocolError::InvalidValue("image link flag"))
        },
        Err(error) => Err(error),
    }
}

/// An image: a registered slot, width, height, link and alternative text.
pub open spec fn record_image(state: DecodeState, payload: Seq<u8>) -> Outcome {
    match field_u16(payload, 0) {
        Err(error) => (state, Err(error)),
        Ok((slot, a1)) => if slot >= state.images {
            (state, Err(ProtocolError::UnknownImage))
        } else {
            match field_image_size(payload, a1) {
                Err(error) => (state, Err(error)),
                Ok((width, a2)) => match field_image_height(payload, a2) {
                    Err(error) => (state, Err(error)),
                    Ok((height, a3)) => match field_image_link(payload, a3) {
                        Err(error) => (state, Err(error)),
                        Ok((link, a4)) => match field_alt(payload, a4) {
                            Err(error) => (state, Err(error)),
                            Ok(end) => finished(
                                payload,
                                end,
                                layout_command(state, CommandView::Image(slot, width, height, link)),
                                state,
                            ),
                        },
                    },
                },
            }
        },
    }
}

/// Four lengths, top, right, bottom and left, each named for its refusal.
pub open spec fn field_edges(
    payload: Seq<u8>,
    at: int,
    top: &'static str,
    right: &'static str,
    bottom: &'static str,
    left: &'static str,
) -> Result<(Edges<Pt>, int), ProtocolError> {
    match field_length(payload, at, top) {
        Err(error) => Err(error),
        Ok((t, a1)) => match field_length(payload, a1, right) {
            Err(error) => Err(error),
            Ok((r, a2)) => match field_length(payload, a2, bottom) {
                Err(error) => Err(error),
                Ok((b, a3)) => match field_length(payload, a3, left) {
                    Err(error) => Err(error),
                    Ok((l, end)) => Ok((Edges { top: t, right: r, bottom: b, left: l }, end)),
                },
            },
        },
    }
}

/// Four colours, top, right, bottom and left.
pub open spec fn field_colors(payload: Seq<u8>, at: int) -> Result<(Edges<Rgb>, int), ProtocolError> {
    match field_rgb(payload, at) {
        Err(error) => Err(error),
        Ok((t, a1)) => match field_rgb(payload, a1) {
            Err(error) => Err(error),
            Ok((r, a2)) => match field_rgb(payload, a2) {
                Err(error) => Err(error),
                Ok((b, a3)) => match field_rgb(payload, a3) {
                    Err(error) => Err(error),
                    Ok((l, end)) => Ok((Edges { top: t, right: r, bottom: b, left: l }, end)),
                },
            },
        },
    }
}

/// The background: 0 none, 1 a colour.
pub open spec fn field_background(payload: Seq<u8>, at: int) -> Result<(Option<Rgb>, int), ProtocolError> {
    match field_u8(payload, at) {
        Ok((flag, start)) => if flag == 0 {
            Ok((None, start))
        } else if flag == 1 {
            match field_rgb(payload, start) {
                Ok((color, end)) => Ok((Some(color), end)),
                Err(error) => Err(error),
            }
        } else {
            Err(ProtocolError::InvalidBackground)
        },
        Err(error) => Err(error),
    }
}

/// A box: margin, padding, border widths, background and border colours.
pub open spec fn field_box_style(payload: Seq<u8>) -> Result<(BoxStyle, int), ProtocolError> {
    match field_edges(payload, 0, "margin top", "margin right", "margin bottom", "margin left") {
        Err(error) => Err(error),
        Ok((margin, a1)) => match field_edges(
            payload,
            a1,
            "padding top",
            "padding right",
            "padding bottom",
            "padding left",
        ) {
            Err(error) => Err(error),
            Ok((padding, a2)) => match field_edges(
                payload,
                a2,
                "border top width",
                "border right width",
                "border bottom width",
                "border left width",
            ) {
                Err(error) => Err(error),
                Ok((border, a3)) => match field_background(payload, a3) {
                    Err(error) => Err(error),
                    Ok((background, a4)) => match field_colors(payload, a4) {
                        Err(error) => Err(error),
                        Ok((border_color, end)) => Ok(
                            (BoxStyle { margin, padding, border, background, border_color }, end),
                        ),
                    },
                },
            },
        },
    }
}

pub open spec fn record_box_start(state: DecodeState, payload: Seq<u8>) -> Outcome {
    match field_box_style(payload) {
        Ok((style, end)) => finished(
            payload,
            end,
            open_frame(state, Frame::Box, CommandView::BoxStart(style)),
            state,
        ),
        Err(error) => (state, Err(error)),
    }
}

/// One whole record: its opcode byte and payload.
pub open spec fn record(state: DecodeState, opcode: u8, payload: Seq<u8>) -> Outcome {
    if state.ended {
        (state, Err(ProtocolError::DataAfterEnd))
    } else {
        match opcode_of(opcode) {
            None => (state, Err(ProtocolError::UnknownOpcode)),
            Some(Opcode::Spacer) => record_spacer(state, payload),
            Some(Opcode::StackStart) => record_stack_start(state, payload),
            Some(Opcode::StackEnd) => record_close(state, payload, CommandView::StackEnd),
            Some(Opcode::RowStart) => record_row_start(state, payload),
            Some(Opcode::RowEnd) => record_close(state, payload, CommandView::RowEnd),
            Some(Opcode::TableStart) => record_table_start(state, payload),
            Some(Opcode::TableEnd) => record_close(state, payload, CommandView::TableEnd),
            Some(Opcode::PageBreak) => record_page_break(state, payload),
            Some(Opcode::Footer) => record_footer(state, payload),
            Some(Opcode::Paragraph) => record_paragraph(state, payload),
            Some(Opcode::Image) => record_image(state, payload),
            Some(Opcode::BoxStart) => record_box_start(state, payload),
            Some(Opcode::BoxEnd) => record_close(state, payload, CommandView::BoxEnd),
            Some(Opcode::End) => record_end(state, payload),
        }
    }
}

/// The page a header describes: `FPDF`, version 5, a positive width and
/// height, and a margin that leaves room on both axes.
pub open spec fn header(bytes: Seq<u8>) -> Result<Page, ProtocolError> {
    if !(bytes[0] == 0x46 && bytes[1] == 0x50 && bytes[2] == 0x44 && bytes[3] == 0x46) {
        Err(ProtocolError::InvalidMagic)
    } else if le16(bytes, 4) != VERSION {
        Err(ProtocolError::UnknownVersion)
    } else {
        match field_positive(bytes, 6, "page width") {
            Err(error) => Err(error),
            Ok((width, _)) => match field_positive(bytes, 10, "page height") {
                Err(error) => Err(error),
                Ok((height, _)) => match field_length(bytes, 14, "margin") {
                    Err(error) => Err(error),
                    Ok((margin, _)) => if page_fits(Pt::from_bits(width), Pt::from_bits(height), margin) {
                        Ok(Page { width: Pt::from_bits(width), height: Pt::from_bits(height), margin })
                    } else {
                        Err(ProtocolError::Render(RenderError::InvalidPage))
                    },
                },
            },
        }
    }
}

/// Records from the front of `pending`: each whole record is read in turn
/// until one answers with an action or a refusal, or too few bytes remain.
/// Yields the state, the bytes left and the answer.
pub open spec fn records(state: DecodeState, pending: Seq<u8>) -> (DecodeState, Seq<u8>, Result<Option<ActionView>, ProtocolError>)
    decreases pending.len(),
{
    if pending.len() < 5 {
        (state, pending, Ok(None))
    } else {
        let length = super::cursor::le32(pending, 1);
        if length > MAX_RECORD {
            (state, pending, Err(ProtocolError::RecordTooLarge))
        } else if pending.len() < 5 + length {
            (state, pending, Ok(None))
        } else {
            let rest = pending.subrange(5 + length, pending.len() as int);
            let (next, answer) = record(state, pending[0], pending.subrange(5, 5 + length));
            match answer {
                Ok(None) => records(next, rest),
                _ => (next, rest, answer),
            }
        }
    }
}

/// One decoding step: a waiting action first; else the header, once
/// whole; else records.
pub open spec fn step(state: DecodeState, pending: Seq<u8>) -> (DecodeState, Seq<u8>, Result<Option<ActionView>, ProtocolError>) {
    match state.deferred {
        Some(action) => (DecodeState { deferred: None, ..state }, pending, Ok(Some(action))),
        None => match state.page {
            Some(_) => records(state, pending),
            None => if pending.len() < HEADER_LEN {
                (state, pending, Ok(None))
            } else {
                match header(pending.subrange(0, HEADER_LEN as int)) {
                    Err(error) => (state, pending, Err(error)),
                    Ok(page) => records(
                        DecodeState { page: Some(page), ..state },
                        pending.subrange(HEADER_LEN as int, pending.len() as int),
                    ),
                }
            },
        },
    }
}

/// Buffering a command keeps the invariant.
pub proof fn lemma_push_command_wf(state: DecodeState, command: CommandView)
    requires
        state_wf(state),
    ensures
        state_wf(push_command(state, command).0),
        push_command(state, command).0.frames == state.frames,
{
}

/// Counting a row cell keeps the invariant.
pub proof fn lemma_complete_child_wf(state: DecodeState)
    requires
        state_wf(state),
    ensures
        state_wf(complete_child(state).0),
        complete_child(state).0.frames.len() == state.frames.len(),
        complete_child(state).0.started == state.started,
        complete_child(state).0.deferred == state.deferred,
{
    let (counted, fits) = complete_child(state);
    if state.frames.len() > 0 {
        if let Frame::Row { columns, cells } = state.frames.last() {
            assert forall|index: int| 0 <= index < counted.frames.len() implies match #[trigger] counted.frames[index] {
                Frame::Row { columns, cells } => columns <= 256 && cells <= columns + 1,
                _ => true,
            } by {
                if index != state.frames.len() - 1 {
                    assert(counted.frames[index] == state.frames[index]);
                }
            }
        }
    }
}

/// Asking for the renderer keeps the invariant, once a header was read.
pub proof fn lemma_with_renderer_wf(state: DecodeState, action: ActionView)
    requires
        state_wf(state),
        state.page is Some,
        state.deferred is None,
        !state.ended,
    ensures
        state_wf(with_renderer(state, action).0),
        with_renderer(state, action).0.frames == state.frames,
        !with_renderer(state, action).0.ended,
{
}

/// Laying out a command keeps the invariant.
pub proof fn lemma_layout_command_wf(state: DecodeState, command: CommandView)
    requires
        state_wf(state),
        state.page is Some,
        state.deferred is None,
        !state.ended,
    ensures
        state_wf(layout_command(state, command).0),
        !layout_command(state, command).0.ended,
        layout_command(state, command).1 == Ok::<Option<ActionView>, ProtocolError>(None) ==> layout_command(
            state,
            command,
        ).0.deferred is None,
{
    let (pushed, buffered) = push_command(state, command);
    lemma_push_command_wf(state, command);
    if buffered is Ok {
        let (counted, fits) = complete_child(pushed);
        lemma_complete_child_wf(pushed);
        if fits is Ok && counted.frames.len() == 0 {
            lemma_with_renderer_wf(
                DecodeState { block: seq![], block_bytes: 0, ..counted },
                ActionView::Block(counted.block),
            );
        }
    }
}

/// Opening a container keeps the invariant.
pub proof fn lemma_open_frame_wf(state: DecodeState, frame: Frame, command: CommandView)
    requires
        state_wf(state),
        !state.ended,
        frame matches Frame::Row { columns, cells } ==> columns <= 256 && cells == 0,
    ensures
        state_wf(open_frame(state, frame, command).0),
        !open_frame(state, frame, command).0.ended,
        open_frame(state, frame, command).0.deferred == state.deferred,
{
    lemma_push_command_wf(state, command);
    let (pushed, buffered) = push_command(state, command);
    if state.frames.len() < MAX_LAYOUT_DEPTH && buffered is Ok {
        let opened = DecodeState { frames: pushed.frames.push(frame), ..pushed };
        assert forall|index: int| 0 <= index < opened.frames.len() implies match #[trigger] opened.frames[index] {
            Frame::Row { columns, cells } => columns <= 256 && cells <= columns + 1,
            _ => true,
        } by {
            if index < pushed.frames.len() {
                assert(opened.frames[index] == pushed.frames[index]);
            }
        }
    }
}

/// Closing a container keeps the invariant.
pub proof fn lemma_close_frame_wf(state: DecodeState, command: CommandView)
    requires
        state_wf(state),
        state.page is Some,
        state.deferred is None,
        !state.ended,
    ensures
        state_wf(close_frame(state, command).0),
        !close_frame(state, command).0.ended,
        close_frame(state, command).1 == Ok::<Option<ActionView>, ProtocolError>(None) ==> close_frame(
            state,
            command,
        ).0.deferred is None,
{
    if state.frames.len() > 0 {
        let popped = DecodeState { frames: state.frames.drop_last(), ..state };
        assert forall|index: int| 0 <= index < popped.frames.len() implies match #[trigger] popped.frames[index] {
            Frame::Row { columns, cells } => columns <= 256 && cells <= columns + 1,
            _ => true,
        } by {
            assert(popped.frames[index] == state.frames[index]);
        }
        lemma_layout_command_wf(popped, command);
    }
}

/// Every record keeps the decoder's invariant; a record that asks for nothing
/// leaves no action waiting.
pub proof fn lemma_record_wf(state: DecodeState, opcode: u8, payload: Seq<u8>)
    requires
        state_wf(state),
        state.page is Some,
        state.deferred is None,
    ensures
        state_wf(record(state, opcode, payload).0),
        record(state, opcode, payload).0.page == state.page,
        record(state, opcode, payload).0.fonts == state.fonts,
        record(state, opcode, payload).0.images == state.images,
        record(state, opcode, payload).1 == Ok::<Option<ActionView>, ProtocolError>(None) ==> record(
            state,
            opcode,
            payload,
        ).0.deferred is None,
{
    if !state.ended {
        match opcode_of(opcode) {
            Some(Opcode::Spacer) => {
                if let Ok((space, _)) = field_length(payload, 0, "spacer") {
                    lemma_layout_command_wf(state, CommandView::Spacer(space));
                }
            },
            Some(Opcode::StackStart) => {
                if let Ok((gap, _)) = field_length(payload, 0, "stack gap") {
                    lemma_open_frame_wf(state, Frame::Stack, CommandView::StackStart(gap));
                }
            },
            Some(Opcode::StackEnd) => lemma_close_frame_wf(state, CommandView::StackEnd),
            Some(Opcode::RowStart) => {
                if let Ok((columns, _)) = field_columns(payload, 0) {
                    lemma_column_list_bound(payload, 0, columns);
                    lemma_open_frame_wf(
                        state,
                        Frame::Row { columns: columns.len() as usize, cells: 0 },
                        CommandView::RowStart(columns),
                    );
                }
            },
            Some(Opcode::RowEnd) => lemma_close_frame_wf(state, CommandView::RowEnd),
            Some(Opcode::TableStart) => {
                if let Ok((header_rows, start)) = field_u16(payload, 0) {
                    if let Ok((width, _)) = field_column(payload, start) {
                        lemma_open_frame_wf(state, Frame::Table, CommandView::TableStart(header_rows, width));
                    }
                }
            },
            Some(Opcode::TableEnd) => lemma_close_frame_wf(state, CommandView::TableEnd),
            Some(Opcode::PageBreak) => lemma_with_renderer_wf(state, ActionView::PageBreak),
            Some(Opcode::Footer) => {
                let outcome = record_footer(state, payload);
                if outcome.1 is Ok {
                    let (size, a1) = field_size(payload, 0, "font size")->Ok_0;
                    let (align, a2) = field_align(payload, a1)->Ok_0;
                    let (color, a3) = field_rgb(payload, a2)->Ok_0;
                    let (slot, a4) = field_u8(payload, a3)->Ok_0;
                    let (text, _, end) = field_text(payload, a4, true)->Ok_0;
                    lemma_with_renderer_wf(
                        state,
                        ActionView::Footer(
                            text,
                            TextStyle { size, align, color, font: FontId::from_slot(slot) },
                        ),
                    );
                }
            },
            Some(Opcode::Paragraph) => {
                let outcome = record_paragraph(state, payload);
                if let Ok((align, a1)) = field_align(payload, 0) {
                    if let Ok((link_count, a2)) = field_u16(payload, a1) {
                        if let Ok((links, a3)) = field_links(payload, a2, link_count as nat) {
                            if let Ok((run_count, a4)) = field_u16(payload, a3) {
                                if let Ok((text, runs, end)) = field_runs(
                                    state,
                                    links.len(),
                                    payload,
                                    a4,
                                    run_count as nat,
                                ) {
                                    lemma_layout_command_wf(
                                        state,
                                        CommandView::Paragraph(align, text, runs, links),
                                    );
                                }
                            }
                        }
                    }
                }
            },
            Some(Opcode::Image) => {
                if let Ok((slot, a1)) = field_u16(payload, 0) {
                    if let Ok((width, a2)) = field_image_size(payload, a1) {
                        if let Ok((height, a3)) = field_image_height(payload, a2) {
                            if let Ok((link, a4)) = field_image_link(payload, a3) {
                                lemma_layout_command_wf(state, CommandView::Image(slot, width, height, link));
                            }
                        }
                    }
                }
            },
            Some(Opcode::BoxStart) => {
                if let Ok((style, _)) = field_box_style(payload) {
                    lemma_open_frame_wf(state, Frame::Box, CommandView::BoxStart(style));
                }
            },
            Some(Opcode::BoxEnd) => lemma_close_frame_wf(state, CommandView::BoxEnd),
            _ => {},
        }
    }
}

/// A row holds at most 256 columns.
pub proof fn lemma_column_list_bound(payload: Seq<u8>, at: int, columns: Seq<ColumnWidth>)
    requires
        field_columns(payload, at) matches Ok((found, _)) && found == columns,
    ensures
        1 <= columns.len() <= 256,
{
    let (count, start) = field_u16(payload, at)->Ok_0;
    lemma_column_list_len(payload, start, count as nat);
}

proof fn lemma_column_list_len(payload: Seq<u8>, at: int, count: nat)
    ensures
        field_column_list(payload, at, count) matches Ok((columns, _)) ==> columns.len() == count,
    decreases count,
{
    if count > 0 {
        lemma_column_list_len(payload, at, (count - 1) as nat);
    }
}

/// The records read from the front of some bytes read the same from the
/// front of those bytes and more: once they answer, more bytes change neither
/// the answer nor the state, and stay unread after what was left.
pub proof fn lemma_records_extend(state: DecodeState, pending: Seq<u8>, more: Seq<u8>)
    requires
        records(state, pending).2 != Ok::<Option<ActionView>, ProtocolError>(None),
    ensures
        records(state, pending + more) == (
            records(state, pending).0,
            records(state, pending).1 + more,
            records(state, pending).2,
        ),
    decreases pending.len(),
{
    let whole = pending + more;
    assert(whole.subrange(0, pending.len() as int) =~= pending);
    let length = super::cursor::le32(pending, 1);
    assert(super::cursor::le32(whole, 1) == length);
    if length <= MAX_RECORD && pending.len() >= 5 + length {
        let rest = pending.subrange(5 + length, pending.len() as int);
        assert(whole.subrange(5, 5 + length) =~= pending.subrange(5, 5 + length));
        assert(whole.subrange(5 + length, whole.len() as int) =~= rest + more);
        assert(whole[0] == pending[0]);
        let (next, answer) = record(state, pending[0], pending.subrange(5, 5 + length));
        if answer == Ok::<Option<ActionView>, ProtocolError>(None) {
            lemma_records_extend(next, rest, more);
        }
    }
}

/// When the records at the front of some bytes ask for nothing more, reading
/// those bytes and more is reading the rest and more from where they stopped.
pub proof fn lemma_records_resume(state: DecodeState, pending: Seq<u8>, more: Seq<u8>)
    requires
        records(state, pending).2 == Ok::<Option<ActionView>, ProtocolError>(None),
    ensures
        records(state, pending + more) == records(records(state, pending).0, records(state, pending).1 + more),
    decreases pending.len(),
{
    let whole = pending + more;
    assert(whole.subrange(0, pending.len() as int) =~= pending);
    if pending.len() >= 5 {
        let length = super::cursor::le32(pending, 1);
        assert(super::cursor::le32(whole, 1) == length);
        if length <= MAX_RECORD && pending.len() >= 5 + length {
            let rest = pending.subrange(5 + length, pending.len() as int);
            assert(whole.subrange(5, 5 + length) =~= pending.subrange(5, 5 + length));
            assert(whole.subrange(5 + length, whole.len() as int) =~= rest + more);
            assert(whole[0] == pending[0]);
            let (next, answer) = record(state, pending[0], pending.subrange(5, 5 + length));
            lemma_records_resume(next, rest, more);
        }
    }
}

/// Decoding does not depend on how the stream was split into pushes: once
/// the bytes pushed so far decide the next answer, bytes pushed after them
/// change neither that answer nor the decoder's state, and wait unread.
pub proof fn lemma_step_extend(state: DecodeState, pending: Seq<u8>, more: Seq<u8>)
    requires
        step(state, pending).2 != Ok::<Option<ActionView>, ProtocolError>(None),
    ensures
        step(state, pending + more) == (step(state, pending).0, step(state, pending).1 + more, step(state, pending).2),
{
    let whole = pending + more;
    if state.deferred is None {
        if state.page is Some {
            lemma_records_extend(state, pending, more);
        } else if pending.len() >= HEADER_LEN {
            assert(whole.subrange(0, HEADER_LEN as int) =~= pending.subrange(0, HEADER_LEN as int));
            if let Ok(page) = header(pending.subrange(0, HEADER_LEN as int)) {
                let rest = pending.subrange(HEADER_LEN as int, pending.len() as int);
                assert(whole.subrange(HEADER_LEN as int, whole.len() as int) =~= rest + more);
                lemma_records_extend(DecodeState { page: Some(page), ..state }, rest, more);
            }
        }
    }
}

/// When the bytes pushed so far hold no further answer, bytes pushed after
/// them are read on from exactly where decoding stopped.
pub proof fn lemma_step_resume(state: DecodeState, pending: Seq<u8>, more: Seq<u8>)
    requires
        state_wf(state),
        step(state, pending).2 == Ok::<Option<ActionView>, ProtocolError>(None),
    ensures
        step(state, pending + more) == step(step(state, pending).0, step(state, pending).1 + more),
{
    let whole = pending + more;
    if state.deferred is None {
        if state.page is Some {
            lemma_records_resume(state, pending, more);
            lemma_records_keep_page(state, pending);
        } else if pending.len() >= HEADER_LEN {
            assert(whole.subrange(0, HEADER_LEN as int) =~= pending.subrange(0, HEADER_LEN as int));
            if let Ok(page) = header(pending.subrange(0, HEADER_LEN as int)) {
                let rest = pending.subrange(HEADER_LEN as int, pending.len() as int);
                assert(whole.subrange(HEADER_LEN as int, whole.len() as int) =~= rest + more);
                let read = DecodeState { page: Some(page), ..state };
                lemma_records_resume(read, rest, more);
                lemma_records_keep_page(read, rest);
            }
        }
    }
}

/// Records keep the decoder's invariant.
proof fn lemma_records_wf(state: DecodeState, pending: Seq<u8>)
    requires
        state_wf(state),
        state.page is Some,
        state.deferred is None,
    ensures
        state_wf(records(state, pending).0),
    decreases pending.len(),
{
    if pending.len() >= 5 {
        let length = super::cursor::le32(pending, 1);
        if length <= MAX_RECORD && pending.len() >= 5 + length {
            let rest = pending.subrange(5 + length, pending.len() as int);
            let (next, answer) = record(state, pending[0], pending.subrange(5, 5 + length));
            lemma_record_wf(state, pending[0], pending.subrange(5, 5 + length));
            if answer == Ok::<Option<ActionView>, ProtocolError>(None) {
                lemma_records_wf(next, rest);
            }
        }
    }
}

/// Every decoding step leaves the decoder's invariant in place.
pub proof fn lemma_step_wf(state: DecodeState, pending: Seq<u8>)
    requires
        state_wf(state),
    ensures
        state_wf(step(state, pending).0),
{
    if state.deferred is None {
        if state.page is Some {
            lemma_records_wf(state, pending);
        } else if pending.len() >= HEADER_LEN {
            if let Ok(page) = header(pending.subrange(0, HEADER_LEN as int)) {
                lemma_records_wf(
                    DecodeState { page: Some(page), ..state },
                    pending.subrange(HEADER_LEN as int, pending.len() as int),
                );
            }
        }
    }
}

/// Records never grow the unread bytes, and an action costs at least one record.
pub proof fn lemma_records_progress(state: DecodeState, pending: Seq<u8>)
    ensures
        records(state, pending).1.len() <= pending.len(),
        records(state, pending).2 matches Ok(Some(_)) ==> records(state, pending).1.len() < pending.len(),
    decreases pending.len(),
{
    if pending.len() >= 5 {
        let length = super::cursor::le32(pending, 1);
        if length <= MAX_RECORD && pending.len() >= 5 + length {
            let rest = pending.subrange(5 + length, pending.len() as int);
            let (next, answer) = record(state, pending[0], pending.subrange(5, 5 + length));
            if answer == Ok::<Option<ActionView>, ProtocolError>(None) {
                lemma_records_progress(next, rest);
            }
        }
    }
}

/// An action either reads bytes or is the one that waited behind `Start`.
pub proof fn lemma_step_progress(state: DecodeState, pending: Seq<u8>)
    ensures
        step(state, pending).1.len() <= pending.len(),
        step(state, pending).2 matches Ok(Some(_)) ==> step(state, pending).1.len() < pending.len() || (
        state.deferred is Some && step(state, pending).0.deferred is None),
{
    if state.deferred is None {
        if state.page is Some {
            lemma_records_progress(state, pending);
        } else if pending.len() >= HEADER_LEN {
            if let Ok(page) = header(pending.subrange(0, HEADER_LEN as int)) {
                lemma_records_progress(
                    DecodeState { page: Some(page), ..state },
                    pending.subrange(HEADER_LEN as int, pending.len() as int),
                );
            }
        }
    }
}

/// What `push` performs, stepping until a step asks for nothing or fails: the
/// state and unread bytes it ends with, the actions in order, and the error
/// it stopped at.
pub open spec fn drain(state: DecodeState, pending: Seq<u8>) -> (DecodeState, Seq<u8>, Seq<ActionView>, Option<ProtocolError>)
    decreases pending.len(), (if state.deferred is Some { 1int } else { 0int }),
{
    let (next, rest, answer) = step(state, pending);
    match answer {
        Ok(Some(action)) => {
            proof {
                lemma_step_progress(state, pending);
            }
            let (last, left, actions, error) = drain(next, rest);
            (last, left, seq![action] + actions, error)
        },
        Ok(None) => (next, rest, seq![], None),
        Err(error) => (next, rest, seq![], Some(error)),
    }
}

/// Draining is one step followed by draining what that step left.
pub proof fn lemma_drain_unfold(state: DecodeState, pending: Seq<u8>)
    ensures
        ({
            let (next, rest, answer) = step(state, pending);
            match answer {
                Ok(Some(action)) => drain(state, pending) == (
                    drain(next, rest).0,
                    drain(next, rest).1,
                    seq![action] + drain(next, rest).2,
                    drain(next, rest).3,
                ),
                Ok(None) => drain(state, pending) == (next, rest, Seq::<ActionView>::empty(), None::<ProtocolError>),
                Err(error) => drain(state, pending) == (next, rest, Seq::<ActionView>::empty(), Some(error)),
            }
        }),
{
}

/// Decoding does not depend on how the stream is split into pushes: pushing
/// `first` and then `second` queues the same actions, reaches the same state,
/// leaves the same bytes unread and stops at the same error as pushing both
/// at once. Once the push of `first` is refused, `second` waits unread behind
/// what it left.
pub proof fn lemma_drain_split(state: DecodeState, first: Seq<u8>, second: Seq<u8>)
    requires
        state_wf(state),
    ensures
        ({
            let (middle, left, actions, error) = drain(state, first);
            match error {
                Some(_) => drain(state, first + second) == (middle, left + second, actions, error),
                None => {
                    let (last, rest, more, stop) = drain(middle, left + second);
                    drain(state, first + second) == (last, rest, actions + more, stop)
                },
            }
        }),
    decreases first.len(), (if state.deferred is Some { 1int } else { 0int }),
{
    lemma_step_wf(state, first);
    lemma_step_progress(state, first);
    let (next, rest, answer) = step(state, first);
    match answer {
        Ok(Some(action)) => {
            lemma_step_extend(state, first, second);
            lemma_drain_split(next, rest, second);
            let (middle, left, actions, error) = drain(next, rest);
            match error {
                Some(_) => {},
                None => {
                    let (last, unread, more, stop) = drain(middle, left + second);
                    assert(seq![action] + (actions + more) =~= (seq![action] + actions) + more);
                },
            }
        },
        Ok(None) => {
            lemma_step_resume(state, first, second);
            let (last, unread, more, stop) = drain(next, rest + second);
            assert(Seq::<ActionView>::empty() + more =~= more);
        },
        Err(_) => {
            lemma_step_extend(state, first, second);
        },
    }
}

/// The end record is accepted exactly when the stream has not ended, the
/// record has no payload, no container is open and a page was started; once
/// accepted, the stream has ended.
pub proof fn lemma_end_record(state: DecodeState, payload: Seq<u8>)
    ensures
        (record(state, 0xff, payload).1 == Ok::<Option<ActionView>, ProtocolError>(None)) == (!state.ended
            && payload.len() == 0 && state.frames.len() == 0 && state.started),
        record(state, 0xff, payload).1 is Ok ==> record(state, 0xff, payload).0.ended,
{
}

/// After the end record, every record is refused with `DataAfterEnd` and
/// changes nothing.
pub proof fn lemma_nothing_after_end(state: DecodeState, opcode: u8, payload: Seq<u8>)
    requires
        state.ended,
    ensures
        record(state, opcode, payload) == (state, Err::<Option<ActionView>, ProtocolError>(ProtocolError::DataAfterEnd)),
{
}

proof fn lemma_records_after_end(state: DecodeState, pending: Seq<u8>)
    requires
        state.ended,
    ensures
        records(state, pending).0 == state,
        !(records(state, pending).2 matches Ok(Some(_))),
{
}

/// Once the stream has ended, a decoding step asks for nothing more: it waits
/// or refuses, and the decoder's state stays as it is.
pub proof fn lemma_step_after_end(state: DecodeState, pending: Seq<u8>)
    requires
        state_wf(state),
        state.ended,
    ensures
        step(state, pending).0 == state,
        !(step(state, pending).2 matches Ok(Some(_))),
{
    lemma_records_after_end(state, pending);
}

/// Records never forget the page, and when they ask for nothing no action waits.
proof fn lemma_records_keep_page(state: DecodeState, pending: Seq<u8>)
    requires
        state_wf(state),
        state.page is Some,
        state.deferred is None,
    ensures
        records(state, pending).0.page == state.page,
        records(state, pending).2 == Ok::<Option<ActionView>, ProtocolError>(None) ==> records(
            state,
            pending,
        ).0.deferred is None,
    decreases pending.len(),
{
    if pending.len() >= 5 {
        let length = super::cursor::le32(pending, 1);
        if length <= MAX_RECORD && pending.len() >= 5 + length {
            let rest = pending.subrange(5 + length, pending.len() as int);
            let (next, answer) = record(state, pending[0], pending.subrange(5, 5 + length));
            lemma_record_wf(state, pending[0], pending.subrange(5, 5 + length));
            if answer == Ok::<Option<ActionView>, ProtocolError>(None) {
                lemma_records_keep_page(next, rest);
            }
        }
    }
}

} // verus!
