//! Reading one record: each field in turn, then the state change it asks for.

use vstd::prelude::*;

use super::cursor::{field_align, field_column_list, field_u16, Cursor};
use super::record::{
    field_background, field_box_style, field_colors, field_edges, field_image_height, field_image_link,
    field_links, field_run, field_run_link, field_runs, known_font, record, record_box_start, record_close,
    record_end, record_footer, record_image, record_page_break, record_paragraph, record_row_start,
    record_spacer, record_stack_start, record_table_start, run_flags_ok, state_wf, Action, ActionView,
    DecodeState, Frame,
};
use super::{answer_view, Decoder, ProtocolError};
use crate::text::standard_text;
use crate::command::{ImageSize, OwnedCommand, TextRun};
use crate::model::{BoxStyle, Edges, FontId, Pt, Rgb, RunDecoration, TextAlign, TextStyle};
use super::opcode::Opcode;

verus! {

/// Four lengths, top, right, bottom and left.
fn edges<'a>(
    cursor: &mut Cursor<'a>,
    top: &'static str,
    right: &'static str,
    bottom: &'static str,
    left: &'static str,
) -> (value: Result<Edges<Pt>, ProtocolError>)
    requires
        old(cursor).at() <= old(cursor).data().len(),
    ensures
        final(cursor).data() == old(cursor).data(),
        final(cursor).at() <= final(cursor).data().len(),
        match field_edges(old(cursor).data(), old(cursor).at(), top, right, bottom, left) {
            Ok((expected, end)) => value matches Ok(found) && found == expected && final(cursor).at() == end,
            Err(error) => value matches Err(found) && found == error,
        },
{
    let t = cursor.length(top)?;
    let r = cursor.length(right)?;
    let b = cursor.length(bottom)?;
    let l = cursor.length(left)?;
    Ok(Edges { top: t, right: r, bottom: b, left: l })
}

/// Four colours, top, right, bottom and left.
fn colors<'a>(cursor: &mut Cursor<'a>) -> (value: Result<Edges<Rgb>, ProtocolError>)
    requires
        old(cursor).at() <= old(cursor).data().len(),
    ensures
        final(cursor).data() == old(cursor).data(),
        final(cursor).at() <= final(cursor).data().len(),
        match field_colors(old(cursor).data(), old(cursor).at()) {
            Ok((expected, end)) => value matches Ok(found) && found == expected && final(cursor).at() == end,
            Err(error) => value matches Err(found) && found == error,
        },
{
    let t = cursor.rgb()?;
    let r = cursor.rgb()?;
    let b = cursor.rgb()?;
    let l = cursor.rgb()?;
    Ok(Edges { top: t, right: r, bottom: b, left: l })
}

fn box_style<'a>(cursor: &mut Cursor<'a>) -> (value: Result<BoxStyle, ProtocolError>)
    requires
        old(cursor).at() == 0,
    ensures
        final(cursor).data() == old(cursor).data(),
        final(cursor).at() <= final(cursor).data().len(),
        match field_box_style(old(cursor).data()) {
            Ok((expected, end)) => value matches Ok(found) && found == expected && final(cursor).at() == end,
            Err(error) => value matches Err(found) && found == error,
        },
{
    let margin = edges(cursor, "margin top", "margin right", "margin bottom", "margin left")?;
    let padding = edges(cursor, "padding top", "padding right", "padding bottom", "padding left")?;
    let border = edges(
        cursor,
        "border top width",
        "border right width",
        "border bottom width",
        "border left width",
    )?;
    let background = match cursor.u8()? {
        0 => None,
        1 => Some(cursor.rgb()?),
        _ => return Err(ProtocolError::InvalidBackground),
    };
    let border_color = colors(cursor)?;
    Ok(BoxStyle { margin, padding, border, background, border_color })
}

fn image_height<'a>(cursor: &mut Cursor<'a>) -> (value: Result<Option<Pt>, ProtocolError>)
    requires
        old(cursor).at() <= old(cursor).data().len(),
    ensures
        final(cursor).data() == old(cursor).data(),
        final(cursor).at() <= final(cursor).data().len(),
        match field_image_height(old(cursor).data(), old(cursor).at()) {
            Ok((expected, end)) => value matches Ok(found) && found == expected && final(cursor).at() == end,
            Err(error) => value matches Err(found) && found == error,
        },
{
    match cursor.u8()? {
        0 => Ok(None),
        1 => Ok(Some(cursor.size("image height")?)),
        _ => Err(ProtocolError::InvalidValue("image height kind")),
    }
}

fn image_link<'a>(cursor: &mut Cursor<'a>) -> (value: Result<Option<String>, ProtocolError>)
    requires
        old(cursor).at() <= old(cursor).data().len(),
    ensures
        final(cursor).data() == old(cursor).data(),
        final(cursor).at() <= final(cursor).data().len(),
        match field_image_link(old(cursor).data(), old(cursor).at()) {
            Ok((expected, end)) => value matches Ok(found) && crate::command::optional_text(found) == expected
                && final(cursor).at() == end,
            Err(error) => value matches Err(found) && found == error,
        },
{
    match cursor.u8()? {
        0 => Ok(None),
        1 => Ok(Some(cursor.uri()?)),
        _ => Err(ProtocolError::InvalidValue("image link flag")),
    }
}

/// Once one link fails to read, reading more fails the same way.
proof fn lemma_links_stop(payload: Seq<u8>, at: int, failed: nat, count: nat)
    requires
        failed <= count,
        field_links(payload, at, failed) is Err,
    ensures
        field_links(payload, at, count) == field_links(payload, at, failed),
    decreases count - failed,
{
    if failed < count {
        lemma_links_stop(payload, at, failed, (count - 1) as nat);
    }
}

/// Once one run fails to read, reading more fails the same way.
proof fn lemma_runs_stop(state: DecodeState, links: nat, payload: Seq<u8>, at: int, failed: nat, count: nat)
    requires
        failed <= count,
        field_runs(state, links, payload, at, failed) is Err,
    ensures
        field_runs(state, links, payload, at, count) == field_runs(state, links, payload, at, failed),
    decreases count - failed,
{
    if failed < count {
        lemma_runs_stop(state, links, payload, at, failed, (count - 1) as nat);
    }
}

/// The link table of a paragraph.
fn links<'a>(cursor: &mut Cursor<'a>, count: u16) -> (value: Result<Vec<String>, ProtocolError>)
    requires
        old(cursor).at() <= old(cursor).data().len(),
    ensures
        final(cursor).data() == old(cursor).data(),
        final(cursor).at() <= final(cursor).data().len(),
        match field_links(old(cursor).data(), old(cursor).at(), count as nat) {
            Ok((expected, end)) => value matches Ok(found) && crate::command::strings_view(found@) == expected
                && final(cursor).at() == end,
            Err(error) => value matches Err(found) && found == error,
        },
{
    let ghost data = cursor.data();
    let ghost start = cursor.at();
    let mut links: Vec<String> = Vec::new();
    let mut read: u16 = 0;
    proof {
        assert(crate::command::strings_view(links@) =~= Seq::<Seq<char>>::empty());
    }
    while read < count
        invariant
            cursor.data() == data,
            old(cursor).data() == data,
            old(cursor).at() == start,
            cursor.at() <= data.len(),
            read <= count,
            field_links(data, start, read as nat) == Ok::<(Seq<Seq<char>>, int), ProtocolError>(
                (crate::command::strings_view(links@), cursor.at()),
            ),
        decreases count - read,
    {
        let link = match cursor.uri() {
            Ok(link) => link,
            Err(error) => {
                proof {
                    lemma_links_stop(data, start, (read + 1) as nat, count as nat);
                }
                return Err(error);
            },
        };
        let ghost before = links@;
        links.push(link);
        proof {
            assert(crate::command::strings_view(links@) =~= crate::command::strings_view(before).push(link@));
        }
        read += 1;
    }
    Ok(links)
}

impl Decoder {
    /// One run of a paragraph: its text, appended to `text`, and the run.
    fn read_run<'a>(&self, cursor: &mut Cursor<'a>, links: usize, text: &mut String) -> (value: Result<TextRun, ProtocolError>)
        requires
            self.wf(),
            old(cursor).at() <= old(cursor).data().len(),
        ensures
            final(cursor).data() == old(cursor).data(),
            final(cursor).at() <= final(cursor).data().len(),
            match field_run(self.state(), links as nat, old(cursor).data(), old(cursor).at()) {
                Ok((more, run, end)) => value matches Ok(found) && found == run && final(text)@ == old(text)@
                    + more && final(cursor).at() == end,
                Err(error) => value matches Err(found) && found == error,
            },
    {
        let slot = cursor.u8()?;
        if slot as usize >= self.fonts + 2 {
            return Err(ProtocolError::UnknownFont);
        }
        let size = cursor.size("font size")?;
        let color = cursor.rgb()?;
        let flags = cursor.u8()?;
        if flags > 0x0f {
            return Err(ProtocolError::InvalidValue("run flags"));
        }
        let link = if flags & 8 != 0 {
            let index = cursor.u16()?;
            if index as usize >= links {
                return Err(ProtocolError::InvalidValue("link index"));
            }
            Some(index)
        } else {
            None
        };
        let run = cursor.text(false)?;
        if slot < 2 && !standard_text(run) {
            return Err(ProtocolError::UnsupportedWinAnsi);
        }
        let length = run.as_bytes().len();
        text.append(run);
        Ok(
            TextRun {
                len: length,
                font: FontId::new(slot),
                size,
                color,
                hard_break: flags & 1 != 0,
                decoration: RunDecoration {
                    underline: flags & 2 != 0,
                    line_through: flags & 4 != 0,
                    link,
                },
            },
        )
    }

    /// A paragraph record.
    fn read_paragraph(&mut self, payload: &[u8]) -> (answer: Result<Option<Action>, ProtocolError>)
        requires
            old(self).wf(),
            old(self).state().page is Some,
            old(self).state().deferred is None,
            !old(self).state().ended,
        ensures
            final(self).pending() == old(self).pending(),
            final(self).state() == record_paragraph(old(self).state(), payload@).0,
            answer_view(answer) == record_paragraph(old(self).state(), payload@).1,
    {
        let mut cursor = Cursor::new(payload);
        let align = cursor.align()?;
        let ghost a1 = cursor.at();
        let link_count = cursor.u16()?;
        let ghost a2 = cursor.at();
        let links = links(&mut cursor, link_count)?;
        let ghost a3 = cursor.at();
        let run_count = cursor.u16()?;
        let ghost data = payload@;
        let ghost start = cursor.at();
        let ghost state = self.state();
        let mut text = String::new();
        let mut runs: Vec<TextRun> = Vec::new();
        let mut read: u16 = 0;
        proof {
            assert(text@ =~= Seq::<char>::empty());
        }
        while read < run_count
            invariant
                self.wf(),
                self.state() == state,
                state == old(self).state(),
                self.pending() == old(self).pending(),
                data == payload@,
                field_align(data, 0) == Ok::<(TextAlign, int), ProtocolError>((align, a1)),
                field_u16(data, a1) == Ok::<(u16, int), ProtocolError>((link_count, a2)),
                field_links(data, a2, link_count as nat) == Ok::<(Seq<Seq<char>>, int), ProtocolError>(
                    (crate::command::strings_view(links@), a3),
                ),
                field_u16(data, a3) == Ok::<(u16, int), ProtocolError>((run_count, start)),
                cursor.data() == data,
                cursor.at() <= data.len(),
                read <= run_count,
                field_runs(state, links@.len(), data, start, read as nat) == Ok::<(Seq<char>, Seq<TextRun>, int), ProtocolError>(
                    (text@, runs@, cursor.at()),
                ),
            decreases run_count - read,
        {
            let run = match self.read_run(&mut cursor, links.len(), &mut text) {
                Ok(run) => run,
                Err(error) => {
                    proof {
                        lemma_runs_stop(state, links@.len(), data, start, (read + 1) as nat, run_count as nat);
                    }
                    return Err(error);
                },
            };
            runs.push(run);
            read += 1;
        }
        cursor.done()?;
        proof {
            super::record::lemma_layout_command_wf(
                self.state(),
                crate::command::CommandView::Paragraph(align, text@, runs@, crate::command::strings_view(links@)),
            );
        }
        self.layout_command(OwnedCommand::Paragraph(align, text, runs, links))
    }

    /// A spacer record.
    fn read_spacer(&mut self, payload: &[u8]) -> (answer: Result<Option<Action>, ProtocolError>)
        requires
            old(self).wf(),
            old(self).state().page is Some,
            old(self).state().deferred is None,
            !old(self).state().ended,
        ensures
            final(self).pending() == old(self).pending(),
            final(self).state() == record_spacer(old(self).state(), payload@).0,
            answer_view(answer) == record_spacer(old(self).state(), payload@).1,
    {
        let mut cursor = Cursor::new(payload);
        let space = cursor.length("spacer")?;
        cursor.done()?;
        self.layout_command(OwnedCommand::Spacer(space))
    }

    /// A stack's start.
    fn read_stack_start(&mut self, payload: &[u8]) -> (answer: Result<Option<Action>, ProtocolError>)
        requires
            old(self).wf(),
            old(self).state().page is Some,
            old(self).state().deferred is None,
            !old(self).state().ended,
        ensures
            final(self).pending() == old(self).pending(),
            final(self).state() == record_stack_start(old(self).state(), payload@).0,
            answer_view(answer) == record_stack_start(old(self).state(), payload@).1,
    {
        let mut cursor = Cursor::new(payload);
        let gap = cursor.length("stack gap")?;
        cursor.done()?;
        self.open(Frame::Stack, OwnedCommand::StackStart(gap))
    }

    /// A row's start.
    fn read_row_start(&mut self, payload: &[u8]) -> (answer: Result<Option<Action>, ProtocolError>)
        requires
            old(self).wf(),
            old(self).state().page is Some,
            old(self).state().deferred is None,
            !old(self).state().ended,
        ensures
            final(self).pending() == old(self).pending(),
            final(self).state() == record_row_start(old(self).state(), payload@).0,
            answer_view(answer) == record_row_start(old(self).state(), payload@).1,
    {
        let mut cursor = Cursor::new(payload);
        let columns = cursor.columns()?;
        cursor.done()?;
        proof {
            super::record::lemma_column_list_bound(payload@, 0, columns@);
        }
        self.open(Frame::Row { columns: columns.len(), cells: 0 }, OwnedCommand::RowStart(columns))
    }

    /// A table's start.
    fn read_table_start(&mut self, payload: &[u8]) -> (answer: Result<Option<Action>, ProtocolError>)
        requires
            old(self).wf(),
            old(self).state().page is Some,
            old(self).state().deferred is None,
            !old(self).state().ended,
        ensures
            final(self).pending() == old(self).pending(),
            final(self).state() == record_table_start(old(self).state(), payload@).0,
            answer_view(answer) == record_table_start(old(self).state(), payload@).1,
    {
        let mut cursor = Cursor::new(payload);
        let header_rows = cursor.u16()?;
        let width = cursor.column()?;
        cursor.done()?;
        self.open(Frame::Table, OwnedCommand::TableStart(header_rows, width))
    }

    /// A page break, only between blocks.
    fn read_page_break(&mut self, payload: &[u8]) -> (answer: Result<Option<Action>, ProtocolError>)
        requires
            old(self).wf(),
            old(self).state().page is Some,
            old(self).state().deferred is None,
            !old(self).state().ended,
        ensures
            final(self).pending() == old(self).pending(),
            final(self).state() == record_page_break(old(self).state(), payload@).0,
            answer_view(answer) == record_page_break(old(self).state(), payload@).1,
    {
        if payload.len() != 0 {
            return Err(ProtocolError::InvalidRecordLength);
        }
        if self.frames.len() != 0 {
            return Err(ProtocolError::InvalidNesting);
        }
        self.with_renderer(Action::PageBreak)
    }

    /// The end of the document, only between blocks and after some content.
    fn read_end(&mut self, payload: &[u8]) -> (answer: Result<Option<Action>, ProtocolError>)
        requires
            old(self).wf(),
            old(self).state().page is Some,
            old(self).state().deferred is None,
            !old(self).state().ended,
        ensures
            final(self).pending() == old(self).pending(),
            final(self).state() == record_end(old(self).state(), payload@).0,
            answer_view(answer) == record_end(old(self).state(), payload@).1,
    {
        if payload.len() != 0 {
            return Err(ProtocolError::InvalidRecordLength);
        }
        if self.frames.len() != 0 {
            return Err(ProtocolError::InvalidNesting);
        }
        if !self.started {
            return Err(ProtocolError::EmptyDocument);
        }
        self.ended = true;
        Ok(None)
    }

    /// The end of a container.
    fn read_close(&mut self, payload: &[u8], command: OwnedCommand) -> (answer: Result<Option<Action>, ProtocolError>)
        requires
            old(self).wf(),
            old(self).state().page is Some,
            old(self).state().deferred is None,
            !old(self).state().ended,
        ensures
            final(self).pending() == old(self).pending(),
            final(self).state() == record_close(old(self).state(), payload@, command@).0,
            answer_view(answer) == record_close(old(self).state(), payload@, command@).1,
    {
        if payload.len() != 0 {
            return Err(ProtocolError::InvalidRecordLength);
        }
        self.close(command)
    }

    /// The footer template and its style.
    fn read_footer(&mut self, payload: &[u8]) -> (answer: Result<Option<Action>, ProtocolError>)
        requires
            old(self).wf(),
            old(self).state().page is Some,
            old(self).state().deferred is None,
            !old(self).state().ended,
        ensures
            final(self).pending() == old(self).pending(),
            final(self).state() == record_footer(old(self).state(), payload@).0,
            answer_view(answer) == record_footer(old(self).state(), payload@).1,
    {
        let mut cursor = Cursor::new(payload);
        let size = cursor.size("font size")?;
        let align = cursor.align()?;
        let color = cursor.rgb()?;
        let slot = cursor.u8()?;
        if slot as usize >= self.fonts + 2 {
            return Err(ProtocolError::UnknownFont);
        }
        let text = cursor.text(true)?.to_owned();
        cursor.done()?;
        if self.started || self.frames.len() != 0 {
            return Err(ProtocolError::InvalidNesting);
        }
        let style = TextStyle { size, align, color, font: FontId::new(slot) };
        self.with_renderer(Action::Footer(text, style))
    }

    /// An image block.
    fn read_image(&mut self, payload: &[u8]) -> (answer: Result<Option<Action>, ProtocolError>)
        requires
            old(self).wf(),
            old(self).state().page is Some,
            old(self).state().deferred is None,
            !old(self).state().ended,
        ensures
            final(self).pending() == old(self).pending(),
            final(self).state() == record_image(old(self).state(), payload@).0,
            answer_view(answer) == record_image(old(self).state(), payload@).1,
    {
        let mut cursor = Cursor::new(payload);
        let slot = cursor.u16()?;
        if slot as usize >= self.images {
            return Err(ProtocolError::UnknownImage);
        }
        let width = cursor.image_size()?;
        let height = image_height(&mut cursor)?;
        let link = image_link(&mut cursor)?;
        cursor.alt()?;
        cursor.done()?;
        proof {
            super::record::lemma_layout_command_wf(
                self.state(),
                crate::command::CommandView::Image(slot, width, height, crate::command::optional_text(link)),
            );
        }
        self.layout_command(OwnedCommand::Image(slot, width, height, link))
    }

    /// A box's start.
    fn read_box_start(&mut self, payload: &[u8]) -> (answer: Result<Option<Action>, ProtocolError>)
        requires
            old(self).wf(),
            old(self).state().page is Some,
            old(self).state().deferred is None,
            !old(self).state().ended,
        ensures
            final(self).pending() == old(self).pending(),
            final(self).state() == record_box_start(old(self).state(), payload@).0,
            answer_view(answer) == record_box_start(old(self).state(), payload@).1,
    {
        let mut cursor = Cursor::new(payload);
        let style = box_style(&mut cursor)?;
        cursor.done()?;
        self.open(Frame::Box, OwnedCommand::BoxStart(style))
    }

    /// One whole record.
    pub(super) fn read_record(&mut self, opcode: u8, payload: &[u8]) -> (answer: Result<Option<Action>, ProtocolError>)
        requires
            old(self).wf(),
            old(self).state().page is Some,
            old(self).state().deferred is None,
        ensures
            final(self).pending() == old(self).pending(),
            final(self).state() == record(old(self).state(), opcode, payload@).0,
            answer_view(answer) == record(old(self).state(), opcode, payload@).1,
    {
        if self.ended {
            return Err(ProtocolError::DataAfterEnd);
        }
        match Opcode::try_from(opcode)? {
            Opcode::Spacer => self.read_spacer(payload),
            Opcode::StackStart => self.read_stack_start(payload),
            Opcode::StackEnd => self.read_close(payload, OwnedCommand::StackEnd),
            Opcode::RowStart => self.read_row_start(payload),
            Opcode::RowEnd => self.read_close(payload, OwnedCommand::RowEnd),
            Opcode::TableStart => self.read_table_start(payload),
            Opcode::TableEnd => self.read_close(payload, OwnedCommand::TableEnd),
            Opcode::PageBreak => self.read_page_break(payload),
            Opcode::Footer => self.read_footer(payload),
            Opcode::Paragraph => self.read_paragraph(payload),
            Opcode::Image => self.read_image(payload),
            Opcode::BoxStart => self.read_box_start(payload),
            Opcode::BoxEnd => self.read_close(payload, OwnedCommand::BoxEnd),
            Opcode::End => self.read_end(payload),
        }
    }
}

} // verus!
