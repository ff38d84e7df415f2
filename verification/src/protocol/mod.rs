//! Binary command protocol: incremental decoding and boundary validation.
//!
//! The decoder owns the bytes and every decision about them: `push` decodes
//! each whole record as it arrives and refuses a bad one at once, and the
//! actions the records ask of the renderer wait in order for `next_action`.

pub mod cursor;
pub mod error;
pub mod opcode;
mod read;
pub mod record;

pub use error::ProtocolError;

use vstd::prelude::*;
use vstd::utf8::encode_utf8;

use crate::command::{commands_view, CommandView, OwnedCommand, TextRun, MAX_LAYOUT_DEPTH};
use crate::font::truetype::{describes, font_error, font_message, parse_font, TrueTypeFont};
use crate::image::{image_message, spec_parse_image, Image, MAX_IMAGE_BYTES};
use crate::model::{Page, Pt};
use cursor::Cursor;
use record::{
    drain, header, lemma_drain_unfold, lemma_step_progress, lemma_step_wf, records, step, HEADER_LEN, MAX_RECORD, VERSION, lemma_record_wf, close_frame, command_cost, complete_child, flush_block, layout_command, links_bytes, open_frame,
    push_command, state_wf, with_renderer, Action, ActionView, DecodeState, Frame, MAX_BLOCK_BYTES,
};

verus! {

/// Bytes an adapter accepts per `push`. Sized so no adapter buffers a document.
pub const INPUT_CAPACITY: usize = 4096;

/// The answer of a decoding call, with its action as a view.
pub open spec fn answer_view(answer: Result<Option<Action>, ProtocolError>) -> Result<Option<ActionView>, ProtocolError> {
    match answer {
        Ok(Some(action)) => Ok(Some(action@)),
        Ok(None) => Ok(None),
        Err(error) => Err(error),
    }
}

/// Actions as views, in order.
pub open spec fn actions_view(actions: Seq<Action>) -> Seq<ActionView> {
    actions.map_values(|action: Action| action@)
}

pub open spec fn optional_action(action: Option<Action>) -> Option<ActionView> {
    match action {
        Some(action) => Some(action@),
        None => None,
    }
}

/// The state before any byte, font or image.
pub open spec fn initial_state() -> DecodeState {
    DecodeState {
        page: None,
        started: false,
        deferred: None,
        block: seq![],
        block_bytes: 0,
        frames: seq![],
        ended: false,
        fonts: 0,
        images: 0,
        image_bytes: 0,
    }
}

/// An incremental decoder of one document stream.
pub struct Decoder {
    pending: Vec<u8>,
    page: Option<Page>,
    started: bool,
    deferred: Option<Action>,
    block: Vec<OwnedCommand>,
    block_bytes: usize,
    frames: Vec<Frame>,
    ended: bool,
    fonts: usize,
    images: usize,
    image_bytes: usize,
    queue: Vec<Action>,
}

impl Decoder {
    pub closed spec fn state(&self) -> DecodeState {
        DecodeState {
            page: self.page,
            started: self.started,
            deferred: optional_action(self.deferred),
            block: commands_view(self.block@),
            block_bytes: self.block_bytes as nat,
            frames: self.frames@,
            ended: self.ended,
            fonts: self.fonts as nat,
            images: self.images as nat,
            image_bytes: self.image_bytes as nat,
        }
    }

    /// Bytes pushed and not yet read.
    pub closed spec fn pending(&self) -> Seq<u8> {
        self.pending@
    }

    /// Actions decoded and not yet handed out, first to be performed first.
    pub closed spec fn queued(&self) -> Seq<ActionView> {
        actions_view(self.queue@)
    }

    pub open spec fn wf(&self) -> bool {
        state_wf(self.state())
    }

    pub fn new() -> (decoder: Decoder)
        ensures
            decoder.wf(),
            decoder.state() == initial_state(),
            decoder.pending() == Seq::<u8>::empty(),
            decoder.queued() == Seq::<ActionView>::empty(),
    {
        let decoder = Decoder {
            pending: Vec::new(),
            page: None,
            started: false,
            deferred: None,
            block: Vec::new(),
            block_bytes: 0,
            frames: Vec::new(),
            ended: false,
            fonts: 0,
            images: 0,
            image_bytes: 0,
            queue: Vec::new(),
        };
        assert(decoder.state().block =~= Seq::<CommandView>::empty());
        assert(decoder.queued() =~= Seq::<ActionView>::empty());
        decoder
    }

    /// Font files bypass the bounded document window because a whole TTF must
    /// remain available until the PDF's font stream is written. Answers the
    /// font's slot and the parsed font, which the caller hands to the renderer.
    pub fn add_font(&mut self, bytes: Vec<u8>) -> (added: Result<(u8, TrueTypeFont), ProtocolError>)
        requires
            old(self).wf(),
        ensures
            final(self).wf(),
            final(self).pending() == old(self).pending(),
            final(self).queued() == old(self).queued(),
            ({
                let before = old(self).state();
                if before.page is Some {
                    added matches Err(ProtocolError::FontsAfterDocument) && final(self).state() == before
                } else if before.fonts >= 254 {
                    added matches Err(ProtocolError::TooManyFonts) && final(self).state() == before
                } else {
                    match font_error(bytes@) {
                        Some(error) => added matches Err(ProtocolError::InvalidFont(text)) && text@
                            == font_message(error) && final(self).state() == before,
                        None => added matches Ok((slot, font)) && slot == before.fonts + 2 && describes(
                            font,
                            bytes@,
                        ) && final(self).state() == (DecodeState { fonts: before.fonts + 1, ..before }),
                    }
                }
            }),
    {
        if self.page.is_some() {
            return Err(ProtocolError::FontsAfterDocument);
        }
        if self.fonts >= 254 {
            return Err(ProtocolError::TooManyFonts);
        }
        match parse_font(bytes) {
            Ok(font) => {
                self.fonts = self.fonts + 1;
                Ok(((self.fonts + 1) as u8, font))
            },
            Err(text) => Err(ProtocolError::InvalidFont(text)),
        }
    }

    /// Images register at any point before the record that paints them, and
    /// are held whole until the PDF's XObject streams are written. Answers the
    /// image's slot and the parsed image, which the caller hands to the renderer.
    pub fn add_image(&mut self, bytes: Vec<u8>) -> (added: Result<(u16, Image), ProtocolError>)
        requires
            old(self).wf(),
        ensures
            final(self).wf(),
            final(self).pending() == old(self).pending(),
            final(self).queued() == old(self).queued(),
            ({
                let before = old(self).state();
                let total = before.image_bytes + bytes@.len();
                if before.ended {
                    added matches Err(ProtocolError::DataAfterEnd) && final(self).state() == before
                } else if total > MAX_IMAGE_BYTES {
                    added matches Err(ProtocolError::ImagesTooLarge) && final(self).state() == before
                } else if before.images >= 65535 {
                    added matches Err(ProtocolError::TooManyImages) && final(self).state() == (DecodeState {
                        image_bytes: total,
                        ..before
                    })
                } else {
                    match spec_parse_image(bytes@) {
                        Err(error) => added matches Err(ProtocolError::InvalidImage(text)) && text@
                            == image_message(error) && final(self).state() == (DecodeState {
                            image_bytes: total,
                            ..before
                        }),
                        Ok(view) => added matches Ok((slot, image)) && slot == before.images && image@
                            == view && final(self).state() == (DecodeState {
                            image_bytes: total,
                            images: before.images + 1,
                            ..before
                        }),
                    }
                }
            }),
    {
        if self.ended {
            return Err(ProtocolError::DataAfterEnd);
        }
        if bytes.len() > MAX_IMAGE_BYTES - self.image_bytes {
            return Err(ProtocolError::ImagesTooLarge);
        }
        self.image_bytes = self.image_bytes + bytes.len();
        if self.images >= 65535 {
            return Err(ProtocolError::TooManyImages);
        }
        match Image::parse(bytes) {
            Ok(image) => {
                let slot = self.images as u16;
                self.images = self.images + 1;
                Ok((slot, image))
            },
            Err(text) => Err(ProtocolError::InvalidImage(text)),
        }
    }

    /// Take more bytes of the stream and decode every whole record they
    /// complete. The actions those records ask for wait in order for
    /// `next_action`; the first refusal stops decoding and is the answer.
    /// Nothing may follow the end record.
    #[verifier::spinoff_prover]
    #[verifier::rlimit(40)]
    pub fn push(&mut self, bytes: &[u8]) -> (pushed: Result<(), ProtocolError>)
        requires
            old(self).wf(),
        ensures
            final(self).wf(),
            if old(self).state().ended && bytes@.len() > 0 {
                &&& pushed matches Err(ProtocolError::DataAfterEnd)
                &&& final(self).state() == old(self).state()
                &&& final(self).pending() == old(self).pending()
                &&& final(self).queued() == old(self).queued()
            } else {
                let (state, left, actions, error) = drain(old(self).state(), old(self).pending() + bytes@);
                &&& final(self).state() == state
                &&& final(self).pending() == left
                &&& final(self).queued() == old(self).queued() + actions
                &&& match error {
                    Some(error) => pushed == Err::<(), ProtocolError>(error),
                    None => pushed is Ok,
                }
            },
    {
        if self.ended && bytes.len() > 0 {
            return Err(ProtocolError::DataAfterEnd);
        }
        crate::image::append_bytes(&mut self.pending, bytes);
        let ghost target = drain(self.state(), self.pending());
        let ghost earlier = old(self).queued();
        let mut queue: Vec<Action> = Vec::new();
        core::mem::swap(&mut queue, &mut self.queue);
        loop
            invariant
                self.wf(),
                target == drain(old(self).state(), old(self).pending() + bytes@),
                earlier == old(self).queued(),
                !(old(self).state().ended && bytes@.len() > 0),
                drain(self.state(), self.pending()).0 == target.0,
                drain(self.state(), self.pending()).1 == target.1,
                drain(self.state(), self.pending()).3 == target.3,
                actions_view(queue@) + drain(self.state(), self.pending()).2 == earlier + target.2,
            decreases self.pending().len(), (if self.state().deferred is Some { 1int } else { 0int }),
        {
            let ghost before = self.state();
            let ghost unread = self.pending();
            let ghost waiting = actions_view(queue@);
            proof {
                lemma_step_wf(before, unread);
                lemma_step_progress(before, unread);
                lemma_drain_unfold(before, unread);
            }
            match self.advance() {
                Ok(Some(action)) => {
                    let ghost rest = drain(self.state(), self.pending()).2;
                    queue.push(action);
                    proof {
                        assert(actions_view(queue@) =~= waiting.push(action@));
                        assert(actions_view(queue@) + rest =~= waiting + (seq![action@] + rest));
                    }
                },
                Ok(None) => {
                    proof {
                        assert(waiting + Seq::<ActionView>::empty() =~= waiting);
                    }
                    self.queue = queue;
                    return Ok(());
                },
                Err(error) => {
                    proof {
                        assert(waiting + Seq::<ActionView>::empty() =~= waiting);
                    }
                    self.queue = queue;
                    return Err(error);
                },
            }
        }
    }

    /// The first decoded action not yet handed out, in the order the records
    /// asked for them; `None` when every one has been handed out.
    pub fn next_action(&mut self) -> (action: Option<Action>)
        ensures
            final(self).state() == old(self).state(),
            final(self).pending() == old(self).pending(),
            if old(self).queued().len() == 0 {
                action is None && final(self).queued() == old(self).queued()
            } else {
                &&& action matches Some(first)
                &&& first@ == old(self).queued()[0]
                &&& final(self).queued() == old(self).queued().drop_first()
            },
    {
        if self.queue.len() == 0 {
            return None;
        }
        let first = self.queue.remove(0);
        proof {
            assert(self.queued() =~= old(self).queued().drop_first());
        }
        Some(first)
    }

    /// One decoding step: an action that waited behind `Start`, else what the
    /// next whole records ask for. `None` when the bytes so far hold no
    /// further whole record.
    fn advance(&mut self) -> (answer: Result<Option<Action>, ProtocolError>)
        requires
            old(self).wf(),
        ensures
            final(self).wf(),
            step(old(self).state(), old(self).pending()) == (
                final(self).state(),
                final(self).pending(),
                answer_view(answer),
            ),
    {
        if self.deferred.is_some() {
            let mut action: Option<Action> = None;
            core::mem::swap(&mut action, &mut self.deferred);
            return Ok(action);
        }
        let mut pending: Vec<u8> = Vec::new();
        core::mem::swap(&mut pending, &mut self.pending);
        let ghost unread = pending@;
        let mut consumed: usize = 0;
        if self.page.is_none() {
            if pending.len() < HEADER_LEN {
                self.pending = pending;
                return Ok(None);
            }
            match read_header(&pending[0..HEADER_LEN]) {
                Ok(page) => {
                    self.page = Some(page);
                    consumed = HEADER_LEN;
                },
                Err(error) => {
                    self.pending = pending;
                    return Err(error);
                },
            }
        }
        let ghost target = records(self.state(), unread.subrange(consumed as int, unread.len() as int));
        proof {
            assert(unread.subrange(0, unread.len() as int) =~= unread);
            assert(target == step(old(self).state(), old(self).pending()));
        }
        let answer: Result<Option<Action>, ProtocolError>;
        loop
            invariant_except_break
                self.state().page is Some,
                self.state().deferred is None,
                records(self.state(), unread.subrange(consumed as int, unread.len() as int)) == target,
            invariant
                self.wf(),
                pending@ == unread,
                consumed <= unread.len(),
            ensures
                consumed <= unread.len(),
                target == (self.state(), unread.subrange(consumed as int, unread.len() as int), answer_view(answer)),
                self.wf(),
            decreases unread.len() - consumed,
        {
            let ghost rest = unread.subrange(consumed as int, unread.len() as int);
            let remaining = pending.len() - consumed;
            if remaining < 5 {
                answer = Ok(None);
                break;
            }
            let length = pending[consumed + 1] as usize + pending[consumed + 2] as usize * 0x100
                + pending[consumed + 3] as usize * 0x1_0000 + pending[consumed + 4] as usize * 0x100_0000;
            assert(length == cursor::le32(rest, 1));
            if length > MAX_RECORD {
                answer = Err(ProtocolError::RecordTooLarge);
                break;
            }
            if remaining < 5 + length {
                answer = Ok(None);
                break;
            }
            let start = consumed;
            consumed = consumed + 5 + length;
            proof {
                assert(unread.subrange(start + 5, consumed as int) =~= rest.subrange(5, 5 + length));
                assert(unread.subrange(consumed as int, unread.len() as int) =~= rest.subrange(
                    5 + length,
                    rest.len() as int,
                ));
                lemma_record_wf(self.state(), pending@[start as int], rest.subrange(5, 5 + length));
            }
            let result = self.read_record(pending[start], &pending[start + 5..consumed]);
            match result {
                Ok(None) => {},
                _ => {
                    answer = result;
                    break;
                },
            }
        }
        self.pending = crate::image::copy_bytes(&pending[consumed..pending.len()]);
        answer
    }

    /// Whether the stream is complete: a header, the end record, and nothing after it.
    pub fn finish(&self) -> (finished: Result<(), ProtocolError>)
        requires
            self.wf(),
        ensures
            match finished {
                Ok(()) => self.state().page is Some && self.state().ended && self.pending().len() == 0,
                Err(error) => !(self.state().page is Some && self.state().ended && self.pending().len()
                    == 0) && error == ProtocolError::TruncatedProtocol,
            },
    {
        if self.page.is_none() || !self.ended || self.pending.len() > 0 {
            return Err(ProtocolError::TruncatedProtocol);
        }
        Ok(())
    }

    /// Answer with `action`, asking for the renderer first if it was never started.
    fn with_renderer(&mut self, action: Action) -> (answer: Result<Option<Action>, ProtocolError>)
        ensures
            final(self).pending() == old(self).pending(),
            final(self).state() == with_renderer(old(self).state(), action@).0,
            answer_view(answer) == with_renderer(old(self).state(), action@).1,
    {
        if self.started {
            return Ok(Some(action));
        }
        match self.page {
            Some(page) => {
                self.started = true;
                self.deferred = Some(action);
                Ok(Some(Action::Start(page)))
            },
            None => Err(ProtocolError::MissingHeader),
        }
    }

    /// What a command costs against the block bound, or `None` past `usize`.
    fn cost(command: &OwnedCommand) -> (cost: Option<usize>)
        ensures
            match cost {
                Some(cost) => cost == command_cost(command@),
                None => command_cost(command@) > usize::MAX,
            },
    {
        let payload: usize = match command {
            OwnedCommand::Paragraph(_, text, runs, links) => {
                let text_bytes = text.as_str().as_bytes().len();
                let runs_bytes = match runs.len().checked_mul(core::mem::size_of::<TextRun>()) {
                    Some(value) => value,
                    None => return None,
                };
                let mut total = match text_bytes.checked_add(runs_bytes) {
                    Some(value) => value,
                    None => return None,
                };
                let ghost base = total as nat;
                let ghost views = crate::command::strings_view(links@);
                assert(base + links_bytes(views) + vstd::layout::size_of::<OwnedCommand>() == command_cost(
                    command@,
                ));
                assert(views.take(0) =~= Seq::<Seq<char>>::empty());
                let mut index: usize = 0;
                while index < links.len()
                    invariant
                        index <= links@.len(),
                        views == crate::command::strings_view(links@),
                        base + links_bytes(views) + vstd::layout::size_of::<OwnedCommand>() == command_cost(
                            command@,
                        ),
                        total == base + links_bytes(views.take(index as int)),
                    decreases links@.len() - index,
                {
                    proof {
                        assert(views.take(index + 1).drop_last() =~= views.take(index as int));
                        assert(views.take(index + 1).last() == links@[index as int]@);
                        lemma_links_bytes_grow(views, index + 1);
                    }
                    let bytes = match links[index].as_str().as_bytes().len().checked_add(core::mem::size_of::<String>()) {
                        Some(value) => value,
                        None => return None,
                    };
                    total = match total.checked_add(bytes) {
                        Some(value) => value,
                        None => return None,
                    };
                    index += 1;
                }
                proof {
                    assert(views.take(links@.len() as int) =~= views);
                }
                total
            },
            OwnedCommand::RowStart(columns) => match columns.len().checked_mul(
                core::mem::size_of::<crate::command::ColumnWidth>(),
            ) {
                Some(value) => value,
                None => return None,
            },
            OwnedCommand::Image(_, _, _, Some(link)) => link.as_str().as_bytes().len(),
            _ => 0,
        };
        payload.checked_add(core::mem::size_of::<OwnedCommand>())
    }

    /// Buffer a command; past the bound the block refuses every further
    /// command until it is flushed.
    fn push_command(&mut self, command: OwnedCommand) -> (pushed: Result<(), ProtocolError>)
        requires
            old(self).wf(),
        ensures
            final(self).pending() == old(self).pending(),
            final(self).state() == push_command(old(self).state(), command@).0,
            pushed == push_command(old(self).state(), command@).1,
    {
        let total = match Self::cost(&command) {
            Some(cost) => self.block_bytes.checked_add(cost),
            None => None,
        };
        match total {
            Some(total) => if total > MAX_BLOCK_BYTES {
                self.block_bytes = MAX_BLOCK_BYTES + 1;
                Err(ProtocolError::BlockTooLarge)
            } else {
                self.block_bytes = total;
                self.block.push(command);
                proof {
                    assert(commands_view(self.block@) =~= commands_view(old(self).block@).push(command@));
                }
                Ok(())
            },
            None => {
                self.block_bytes = MAX_BLOCK_BYTES + 1;
                Err(ProtocolError::BlockTooLarge)
            },
        }
    }

    /// A finished child counts as one more cell of an enclosing row.
    fn complete_child(&mut self) -> (counted: Result<(), ProtocolError>)
        requires
            old(self).wf(),
        ensures
            final(self).pending() == old(self).pending(),
            final(self).state() == complete_child(old(self).state()).0,
            counted == complete_child(old(self).state()).1,
    {
        let depth = self.frames.len();
        if depth > 0 {
            match self.frames[depth - 1] {
                Frame::Row { columns, cells } => {
                    proof {
                        assert(self.frames@[depth - 1] == self.frames@.last());
                    }
                    if cells + 1 > columns {
                        self.frames.set(depth - 1, Frame::Row { columns, cells: columns + 1 });
                        return Err(ProtocolError::RowCellCountMismatch);
                    }
                    self.frames.set(depth - 1, Frame::Row { columns, cells: cells + 1 });
                },
                _ => {},
            }
        }
        Ok(())
    }

    /// Hand the buffered block to the renderer and start an empty one.
    fn flush_block(&mut self) -> (answer: Result<Option<Action>, ProtocolError>)
        ensures
            final(self).pending() == old(self).pending(),
            final(self).state() == flush_block(old(self).state()).0,
            answer_view(answer) == flush_block(old(self).state()).1,
    {
        let mut block: Vec<OwnedCommand> = Vec::new();
        core::mem::swap(&mut block, &mut self.block);
        self.block_bytes = 0;
        proof {
            assert(commands_view(self.block@) =~= Seq::<CommandView>::empty());
        }
        self.with_renderer(Action::Block(block))
    }

    /// A command that is a child of its container, or a whole block at the top.
    fn layout_command(&mut self, command: OwnedCommand) -> (answer: Result<Option<Action>, ProtocolError>)
        requires
            old(self).wf(),
        ensures
            final(self).pending() == old(self).pending(),
            final(self).state() == layout_command(old(self).state(), command@).0,
            answer_view(answer) == layout_command(old(self).state(), command@).1,
    {
        self.push_command(command)?;
        self.complete_child()?;
        if self.frames.len() == 0 {
            self.flush_block()
        } else {
            Ok(None)
        }
    }

    /// Open a container.
    fn open(&mut self, frame: Frame, command: OwnedCommand) -> (answer: Result<Option<Action>, ProtocolError>)
        requires
            old(self).wf(),
        ensures
            final(self).pending() == old(self).pending(),
            final(self).state() == open_frame(old(self).state(), frame, command@).0,
            answer_view(answer) == open_frame(old(self).state(), frame, command@).1,
    {
        if self.frames.len() >= MAX_LAYOUT_DEPTH {
            return Err(ProtocolError::NestingTooDeep);
        }
        self.push_command(command)?;
        self.frames.push(frame);
        Ok(None)
    }

    /// Close the innermost container.
    fn close(&mut self, command: OwnedCommand) -> (answer: Result<Option<Action>, ProtocolError>)
        requires
            old(self).wf(),
        ensures
            final(self).pending() == old(self).pending(),
            final(self).state() == close_frame(old(self).state(), command@).0,
            answer_view(answer) == close_frame(old(self).state(), command@).1,
    {
        let frame = match self.frames.pop() {
            Some(frame) => frame,
            None => return Err(ProtocolError::InvalidNesting),
        };
        let closes = match (&command, frame) {
            (OwnedCommand::StackEnd, Frame::Stack) => true,
            (OwnedCommand::BoxEnd, Frame::Box) => true,
            (OwnedCommand::TableEnd, Frame::Table) => true,
            (OwnedCommand::RowEnd, Frame::Row { columns, cells }) => {
                if columns != cells {
                    return Err(ProtocolError::RowCellCountMismatch);
                }
                true
            },
            _ => false,
        };
        if !closes {
            return Err(ProtocolError::InvalidNesting);
        }
        self.layout_command(command)
    }
}

/// The page a whole header describes.
fn read_header(bytes: &[u8]) -> (page: Result<Page, ProtocolError>)
    requires
        bytes@.len() == HEADER_LEN,
    ensures
        match header(bytes@) {
            Ok(expected) => page matches Ok(found) && found == expected,
            Err(error) => page matches Err(found) && found == error,
        },
{
    if !(bytes[0] == 0x46 && bytes[1] == 0x50 && bytes[2] == 0x44 && bytes[3] == 0x46) {
        return Err(ProtocolError::InvalidMagic);
    }
    if bytes[4] as u16 + bytes[5] as u16 * 256 != VERSION {
        return Err(ProtocolError::UnknownVersion);
    }
    let mut cursor = Cursor::new(bytes);
    cursor.take(6)?;
    let width = cursor.positive("page width")?;
    let height = cursor.positive("page height")?;
    let margin = cursor.length("margin")?;
    let width = match Pt::new(width) {
        Ok(point) => point,
        Err(error) => return Err(ProtocolError::from_render(error)),
    };
    let height = match Pt::new(height) {
        Ok(point) => point,
        Err(error) => return Err(ProtocolError::from_render(error)),
    };
    match Page::new(width, height, margin) {
        Ok(page) => Ok(page),
        Err(error) => Err(ProtocolError::from_render(error)),
    }
}

impl Default for Decoder {
    fn default() -> (decoder: Decoder)
        ensures
            decoder.wf(),
            decoder.state() == initial_state(),
            decoder.pending() == Seq::<u8>::empty(),
            decoder.queued() == Seq::<ActionView>::empty(),
    {
        Decoder::new()
    }
}

/// Each further link adds to the links' bytes.
proof fn lemma_links_bytes_grow(links: Seq<Seq<char>>, count: int)
    requires
        0 <= count <= links.len(),
    ensures
        links_bytes(links.take(count)) <= links_bytes(links),
    decreases links.len() - count,
{
    if count < links.len() {
        lemma_links_bytes_grow(links, count + 1);
        assert(links.take(count + 1).drop_last() =~= links.take(count));
    } else {
        assert(links.take(count) =~= links);
    }
}

} // verus!
