//! A block of commands as a tree of elements: containers hold their children,
//! rows their cells, tables their rows.

use vstd::prelude::*;

use crate::command::{
    commands_view, strings_view, ColumnWidth, CommandView, ImageSize, OwnedCommand, TextRun,
    MAX_COLUMNS, MAX_LAYOUT_DEPTH,
};
use crate::model::{BoxStyle, Pt, TextAlign};

verus! {

pub struct Paragraph<'a> {
    pub align: TextAlign,
    pub text: &'a str,
    pub runs: &'a [TextRun],
    /// URIs the runs' `decoration.link` index into.
    pub links: &'a [String],
}

pub struct Spacer {
    pub height: Pt,
}

pub struct BoxNode<'a> {
    pub style: BoxStyle,
    pub children: Vec<Element<'a>>,
}

pub struct Stack<'a> {
    pub gap: Pt,
    pub children: Vec<Element<'a>>,
}

pub struct Cell<'a> {
    pub width: ColumnWidth,
    pub content: Element<'a>,
}

pub struct Row<'a> {
    pub cells: Vec<Cell<'a>>,
}

pub struct Table<'a> {
    /// The first `header_rows` rows repeat at the top of every page the table continues on.
    pub header_rows: usize,
    pub width: ColumnWidth,
    pub rows: Vec<Element<'a>>,
}

pub struct ImageNode<'a> {
    pub slot: u16,
    pub width: ImageSize,
    pub height: Option<Pt>,
    pub link: Option<&'a str>,
}

pub enum Element<'a> {
    Paragraph(Paragraph<'a>),
    Box(BoxNode<'a>),
    Spacer(Spacer),
    Stack(Stack<'a>),
    Row(Row<'a>),
    Table(Table<'a>),
    Image(ImageNode<'a>),
}

/// An element with its text and lists as sequences; a row as its cell widths and contents.
pub enum ElementView {
    Paragraph(TextAlign, Seq<char>, Seq<TextRun>, Seq<Seq<char>>),
    Box(BoxStyle, Seq<ElementView>),
    Spacer(Pt),
    Stack(Pt, Seq<ElementView>),
    Row(Seq<ColumnWidth>, Seq<ElementView>),
    Table(nat, ColumnWidth, Seq<ElementView>),
    Image(u16, ImageSize, Option<Pt>, Option<Seq<char>>),
}

pub open spec fn element_view<'a>(element: Element<'a>) -> ElementView
    decreases element,
{
    match element {
        Element::Paragraph(paragraph) => ElementView::Paragraph(
            paragraph.align,
            paragraph.text@,
            paragraph.runs@,
            strings_view(paragraph.links@),
        ),
        Element::Box(node) => ElementView::Box(node.style, children_view(node.children)),
        Element::Spacer(spacer) => ElementView::Spacer(spacer.height),
        Element::Stack(stack) => ElementView::Stack(stack.gap, children_view(stack.children)),
        Element::Row(row) => ElementView::Row(
            Seq::new(row.cells.len() as nat, |index: int| row.cells[index].width),
            Seq::new(
                row.cells.len() as nat,
                |index: int|
                    if 0 <= index < row.cells.len() {
                        proof {
                            vstd::std_specs::vec::axiom_vec_index_decreases(row.cells, index);
                        }
                        element_view(row.cells[index].content)
                    } else {
                        ElementView::Spacer(Pt::from_bits(0))
                    },
            ),
        ),
        Element::Table(table) => ElementView::Table(table.header_rows as nat, table.width, children_view(table.rows)),
        Element::Image(image) => ElementView::Image(
            image.slot,
            image.width,
            image.height,
            match image.link {
                Some(link) => Some(link@),
                None => None,
            },
        ),
    }
}

pub open spec fn children_view<'a>(children: Vec<Element<'a>>) -> Seq<ElementView>
    decreases children,
{
    Seq::new(
        children.len() as nat,
        |index: int|
            if 0 <= index < children.len() {
                proof {
                    vstd::std_specs::vec::axiom_vec_index_decreases(children, index);
                }
                element_view(children[index])
            } else {
                ElementView::Spacer(Pt::from_bits(0))
            },
    )
}

/// Why a block's commands do not form one element.
#[derive(Clone, Copy, Debug, PartialEq, Eq, Structural)]
pub enum CommandParseError {
    UnexpectedCommand,
    UnexpectedEnd,
    InvalidRow,
    InvalidTable,
    MaxDepthExceeded,
}

/// The container a command closes, if it is an end command.
pub open spec fn closer(command: CommandView) -> Option<u8> {
    match command {
        CommandView::BoxEnd => Some(0),
        CommandView::StackEnd => Some(1),
        CommandView::TableEnd => Some(2),
        CommandView::RowEnd => Some(3),
        _ => None,
    }
}

/// Whether the rows of a table, or the rows grouped under a box or stack,
/// all have the cell count of the first: the count learned so far threads through.
pub open spec fn uniform(element: ElementView, columns: Option<nat>) -> (bool, Option<nat>)
    decreases element,
{
    match element {
        ElementView::Row(widths, _) => match columns {
            Some(count) => (count == widths.len(), Some(count)),
            None => (true, Some(widths.len())),
        },
        ElementView::Box(_, children) => uniform_all(children, columns),
        ElementView::Stack(_, children) => uniform_all(children, columns),
        _ => (false, columns),
    }
}

pub open spec fn uniform_all(children: Seq<ElementView>, columns: Option<nat>) -> (bool, Option<nat>)
    decreases children,
{
    if children.len() == 0 {
        (true, columns)
    } else {
        let (fits, learned) = uniform(children[0], columns);
        if !fits {
            (false, learned)
        } else {
            uniform_all(children.drop_first(), learned)
        }
    }
}

/// The element at `at`, at nesting `depth`, and where it ends. Every call
/// spends one unit of `fuel`; a parse with fuel `2 * n + 2` never runs out
/// (`lemma_parse_fuel_suffices`).
pub open spec fn parse_element(commands: Seq<CommandView>, at: int, depth: nat, fuel: nat) -> Result<(ElementView, int), CommandParseError>
    decreases fuel, 1nat,
{
    if fuel == 0 || at < 0 || at >= commands.len() {
        Err(CommandParseError::UnexpectedEnd)
    } else {
        match commands[at] {
            CommandView::Paragraph(align, text, runs, links) => Ok((ElementView::Paragraph(align, text, runs, links), at + 1)),
            CommandView::Image(slot, width, height, link) => Ok((ElementView::Image(slot, width, height, link), at + 1)),
            CommandView::Spacer(height) => Ok((ElementView::Spacer(height), at + 1)),
            CommandView::BoxStart(style) => if depth >= MAX_LAYOUT_DEPTH {
                Err(CommandParseError::MaxDepthExceeded)
            } else {
                match parse_children(commands, at + 1, 0, depth + 1, (fuel - 1) as nat) {
                    Ok((children, end)) => Ok((ElementView::Box(style, children), end)),
                    Err(error) => Err(error),
                }
            },
            CommandView::StackStart(gap) => if depth >= MAX_LAYOUT_DEPTH {
                Err(CommandParseError::MaxDepthExceeded)
            } else {
                match parse_children(commands, at + 1, 1, depth + 1, (fuel - 1) as nat) {
                    Ok((children, end)) => Ok((ElementView::Stack(gap, children), end)),
                    Err(error) => Err(error),
                }
            },
            CommandView::RowStart(widths) => if depth >= MAX_LAYOUT_DEPTH {
                Err(CommandParseError::MaxDepthExceeded)
            } else if widths.len() == 0 || widths.len() > MAX_COLUMNS {
                Err(CommandParseError::InvalidRow)
            } else {
                match parse_cells(commands, at + 1, widths.len(), depth + 1, (fuel - 1) as nat) {
                    Ok((cells, end)) => if end >= commands.len() {
                        Err(CommandParseError::UnexpectedEnd)
                    } else if closer(commands[end]) != Some(3u8) {
                        Err(CommandParseError::InvalidRow)
                    } else {
                        Ok((ElementView::Row(widths, cells), end + 1))
                    },
                    Err(error) => Err(error),
                }
            },
            CommandView::TableStart(header_rows, width) => if depth >= MAX_LAYOUT_DEPTH {
                Err(CommandParseError::MaxDepthExceeded)
            } else {
                match parse_children(commands, at + 1, 2, depth + 1, (fuel - 1) as nat) {
                    Ok((rows, end)) => if header_rows > rows.len() || !uniform_all(rows, None).0 {
                        Err(CommandParseError::InvalidTable)
                    } else {
                        Ok((ElementView::Table(header_rows as nat, width, rows), end))
                    },
                    Err(error) => Err(error),
                }
            },
            _ => Err(CommandParseError::UnexpectedCommand),
        }
    }
}

/// Children up to the end command `end`, which is consumed.
pub open spec fn parse_children(commands: Seq<CommandView>, at: int, end: u8, depth: nat, fuel: nat) -> Result<(Seq<ElementView>, int), CommandParseError>
    decreases fuel, 0nat,
{
    if fuel == 0 {
        Err(CommandParseError::UnexpectedEnd)
    } else if 0 <= at < commands.len() && closer(commands[at]) == Some(end) {
        Ok((seq![], at + 1))
    } else if at < 0 || at >= commands.len() {
        Err(CommandParseError::UnexpectedEnd)
    } else {
        match parse_element(commands, at, depth, (fuel - 1) as nat) {
            Ok((child, next)) => match parse_children(commands, next, end, depth, (fuel - 1) as nat) {
                Ok((rest, after)) => Ok((seq![child] + rest, after)),
                Err(error) => Err(error),
            },
            Err(error) => Err(error),
        }
    }
}

/// `count` cells, one element each.
pub open spec fn parse_cells(commands: Seq<CommandView>, at: int, count: nat, depth: nat, fuel: nat) -> Result<(Seq<ElementView>, int), CommandParseError>
    decreases fuel, 0nat,
{
    if count == 0 {
        Ok((seq![], at))
    } else if fuel == 0 {
        Err(CommandParseError::UnexpectedEnd)
    } else {
        match parse_element(commands, at, depth, (fuel - 1) as nat) {
            Ok((cell, next)) => match parse_cells(commands, next, (count - 1) as nat, depth, (fuel - 1) as nat) {
                Ok((rest, after)) => Ok((seq![cell] + rest, after)),
                Err(error) => Err(error),
            },
            Err(error) => Err(error),
        }
    }
}

/// Elements one after another from `at` to the end.
pub open spec fn parse_sequence(commands: Seq<CommandView>, at: int, fuel: nat) -> Result<Seq<ElementView>, CommandParseError>
    decreases fuel,
{
    if at < 0 || at >= commands.len() {
        Ok(seq![])
    } else if fuel == 0 {
        Err(CommandParseError::UnexpectedEnd)
    } else {
        match parse_element(commands, at, 0, (fuel - 1) as nat) {
            Ok((element, next)) => match parse_sequence(commands, next, (fuel - 1) as nat) {
                Ok(rest) => Ok(seq![element] + rest),
                Err(error) => Err(error),
            },
            Err(error) => Err(error),
        }
    }
}

/// The fuel a parse of `commands` starts with.
pub open spec fn parse_fuel(commands: Seq<CommandView>) -> nat {
    2 * commands.len() + 2
}

/// A parsed element ends after where it starts, within the commands.
proof fn lemma_element_progress(commands: Seq<CommandView>, at: int, depth: nat, fuel: nat)
    ensures
        parse_element(commands, at, depth, fuel) matches Ok((_, next)) ==> at < next <= commands.len(),
    decreases fuel, 1nat,
{
    if fuel > 0 && 0 <= at < commands.len() {
        match commands[at] {
            CommandView::BoxStart(_) => lemma_children_progress(commands, at + 1, 0, depth + 1, (fuel - 1) as nat),
            CommandView::StackStart(_) => lemma_children_progress(commands, at + 1, 1, depth + 1, (fuel - 1) as nat),
            CommandView::TableStart(..) => lemma_children_progress(commands, at + 1, 2, depth + 1, (fuel - 1) as nat),
            CommandView::RowStart(widths) => lemma_cells_progress(commands, at + 1, widths.len(), depth + 1, (fuel - 1) as nat),
            _ => {},
        }
    }
}

proof fn lemma_children_progress(commands: Seq<CommandView>, at: int, end: u8, depth: nat, fuel: nat)
    ensures
        parse_children(commands, at, end, depth, fuel) matches Ok((_, after)) ==> at < after <= commands.len(),
    decreases fuel, 0nat,
{
    if fuel > 0 && 0 <= at < commands.len() && closer(commands[at]) != Some(end) {
        lemma_element_progress(commands, at, depth, (fuel - 1) as nat);
        if let Ok((_, next)) = parse_element(commands, at, depth, (fuel - 1) as nat) {
            lemma_children_progress(commands, next, end, depth, (fuel - 1) as nat);
        }
    }
}

proof fn lemma_cells_progress(commands: Seq<CommandView>, at: int, count: nat, depth: nat, fuel: nat)
    requires
        0 <= at <= commands.len(),
    ensures
        parse_cells(commands, at, count, depth, fuel) matches Ok((_, after)) ==> at <= after <= commands.len(),
    decreases fuel, 0nat,
{
    if count > 0 && fuel > 0 {
        lemma_element_progress(commands, at, depth, (fuel - 1) as nat);
        if let Ok((_, next)) = parse_element(commands, at, depth, (fuel - 1) as nat) {
            lemma_cells_progress(commands, next, (count - 1) as nat, depth, (fuel - 1) as nat);
        }
    }
}

/// With fuel of twice the commands left and one more, an element parses the same.
proof fn lemma_element_stable(commands: Seq<CommandView>, at: int, depth: nat, fuel: nat, other: nat)
    requires
        fuel >= 2 * (commands.len() - at) + 1,
        other >= 2 * (commands.len() - at) + 1,
    ensures
        parse_element(commands, at, depth, fuel) == parse_element(commands, at, depth, other),
    decreases fuel, 1nat,
{
    if 0 <= at < commands.len() {
        let (less, fewer) = ((fuel - 1) as nat, (other - 1) as nat);
        match commands[at] {
            CommandView::BoxStart(_) => lemma_children_stable(commands, at + 1, 0, depth + 1, less, fewer),
            CommandView::StackStart(_) => lemma_children_stable(commands, at + 1, 1, depth + 1, less, fewer),
            CommandView::TableStart(..) => lemma_children_stable(commands, at + 1, 2, depth + 1, less, fewer),
            CommandView::RowStart(widths) => lemma_cells_stable(commands, at + 1, widths.len(), depth + 1, less, fewer),
            _ => {},
        }
    }
}

proof fn lemma_children_stable(commands: Seq<CommandView>, at: int, end: u8, depth: nat, fuel: nat, other: nat)
    requires
        fuel >= 2 * (commands.len() - at) + 2,
        other >= 2 * (commands.len() - at) + 2,
    ensures
        parse_children(commands, at, end, depth, fuel) == parse_children(commands, at, end, depth, other),
    decreases fuel, 0nat,
{
    if fuel > 0 && other > 0 && 0 <= at < commands.len() && closer(commands[at]) != Some(end) {
        let (less, fewer) = ((fuel - 1) as nat, (other - 1) as nat);
        lemma_element_stable(commands, at, depth, less, fewer);
        lemma_element_progress(commands, at, depth, less);
        if let Ok((_, next)) = parse_element(commands, at, depth, less) {
            lemma_children_stable(commands, next, end, depth, less, fewer);
        }
    }
}

proof fn lemma_cells_stable(commands: Seq<CommandView>, at: int, count: nat, depth: nat, fuel: nat, other: nat)
    requires
        fuel >= 2 * (commands.len() - at) + 2,
        other >= 2 * (commands.len() - at) + 2,
    ensures
        parse_cells(commands, at, count, depth, fuel) == parse_cells(commands, at, count, depth, other),
    decreases fuel, 0nat,
{
    if count > 0 && fuel > 0 && other > 0 {
        let (less, fewer) = ((fuel - 1) as nat, (other - 1) as nat);
        lemma_element_stable(commands, at, depth, less, fewer);
        lemma_element_progress(commands, at, depth, less);
        if let Ok((_, next)) = parse_element(commands, at, depth, less) {
            lemma_cells_stable(commands, next, (count - 1) as nat, depth, less, fewer);
        }
    } else if count > 0 && fuel > 0 {
        assert(parse_element(commands, at, depth, (fuel - 1) as nat) is Err);
    } else if count > 0 && other > 0 {
        assert(parse_element(commands, at, depth, (other - 1) as nat) is Err);
    }
}

proof fn lemma_sequence_stable(commands: Seq<CommandView>, at: int, fuel: nat, other: nat)
    requires
        fuel >= 2 * (commands.len() - at) + 2,
        other >= 2 * (commands.len() - at) + 2,
    ensures
        parse_sequence(commands, at, fuel) == parse_sequence(commands, at, other),
    decreases fuel,
{
    if 0 <= at < commands.len() {
        let (less, fewer) = ((fuel - 1) as nat, (other - 1) as nat);
        lemma_element_stable(commands, at, 0, less, fewer);
        lemma_element_progress(commands, at, 0, less);
        if let Ok((_, next)) = parse_element(commands, at, 0, less) {
            lemma_sequence_stable(commands, next, less, fewer);
        }
    }
}

/// The fuel a parse starts with never runs out: any more fuel gives the same
/// element and the same sequence, so the parse is that of a parser without a
/// bound.
pub proof fn lemma_parse_fuel_suffices(commands: Seq<CommandView>, more: nat)
    ensures
        parse_element(commands, 0, 0, parse_fuel(commands) + more) == parse_element(commands, 0, 0, parse_fuel(commands)),
        parse_sequence(commands, 0, parse_fuel(commands) + more) == parse_sequence(commands, 0, parse_fuel(commands)),
{
    lemma_element_stable(commands, 0, 0, parse_fuel(commands) + more, parse_fuel(commands));
    lemma_sequence_stable(commands, 0, parse_fuel(commands) + more, parse_fuel(commands));
}

/// The single block `commands` hold: one element and nothing after it.
pub open spec fn spec_single_block(commands: Seq<CommandView>) -> Result<ElementView, CommandParseError> {
    match parse_element(commands, 0, 0, parse_fuel(commands)) {
        Ok((element, end)) => if end == commands.len() {
            Ok(element)
        } else {
            Err(CommandParseError::UnexpectedCommand)
        },
        Err(error) => Err(error),
    }
}

/// Reads a block's commands front to back into elements.
pub struct CommandParser<'a> {
    source: &'a [OwnedCommand],
    index: usize,
}

impl<'a> CommandParser<'a> {
    pub closed spec fn commands(&self) -> Seq<CommandView> {
        commands_view(self.source@)
    }

    pub closed spec fn position(&self) -> int {
        self.index as int
    }

    pub fn new(source: &'a [OwnedCommand]) -> (parser: CommandParser<'a>)
        ensures
            parser.commands() == commands_view(source@),
            parser.position() == 0,
    {
        CommandParser { source, index: 0 }
    }

    /// Containers nest at most `MAX_LAYOUT_DEPTH` deep.
    pub fn check_depth(&self, depth: usize) -> (checked: Result<(), CommandParseError>)
        ensures
            match checked {
                Ok(()) => depth < MAX_LAYOUT_DEPTH,
                Err(error) => depth >= MAX_LAYOUT_DEPTH && error == CommandParseError::MaxDepthExceeded,
            },
    {
        if depth < MAX_LAYOUT_DEPTH {
            Ok(())
        } else {
            Err(CommandParseError::MaxDepthExceeded)
        }
    }

    /// Whether the next command closes the container kind `end`.
    fn closes(&self, end: u8) -> (closes: bool)
        requires
            end < 4,
        ensures
            closes == (0 <= self.position() < self.commands().len() && closer(self.commands()[self.position()])
                == Some(end)),
    {
        if self.index >= self.source.len() {
            return false;
        }
        assert(self.commands()[self.index as int] == self.source@[self.index as int]@);
        let kind: u8 = match &self.source[self.index] {
            OwnedCommand::BoxEnd => 0,
            OwnedCommand::StackEnd => 1,
            OwnedCommand::TableEnd => 2,
            OwnedCommand::RowEnd => 3,
            _ => 4,
        };
        kind == end
    }
}

/// `found` before what a parse of the rest answers.
pub open spec fn prefixed(found: Seq<ElementView>, rest: Result<(Seq<ElementView>, int), CommandParseError>) -> Result<(Seq<ElementView>, int), CommandParseError> {
    match rest {
        Ok((more, after)) => Ok((found + more, after)),
        Err(error) => Err(error),
    }
}

/// The views of a sequence of elements.
pub open spec fn children_view_of<'a>(children: Seq<Element<'a>>) -> Seq<ElementView> {
    Seq::new(children.len(), |index: int| element_view(children[index]))
}

proof fn lemma_children_view<'a>(children: Vec<Element<'a>>)
    ensures
        children_view(children) == children_view_of(children@),
{
    assert(children_view(children) =~= children_view_of(children@));
}

/// Whether the rows of a table all have the cell count of the first, which
/// `columns` learns.
fn uniform_rows(element: &Element, columns: &mut Option<usize>) -> (fits: bool)
    ensures
        (fits, optional_nat(*final(columns))) == uniform(element_view(*element), optional_nat(*old(columns))),
    decreases element,
{
    match element {
        Element::Row(row) => match *columns {
            Some(count) => count == row.cells.len(),
            None => {
                *columns = Some(row.cells.len());
                true
            },
        },
        Element::Box(node) => uniform_children(&node.children, columns),
        Element::Stack(stack) => uniform_children(&stack.children, columns),
        _ => false,
    }
}

fn uniform_children(children: &Vec<Element>, columns: &mut Option<usize>) -> (fits: bool)
    ensures
        (fits, optional_nat(*final(columns))) == uniform_all(children_view(*children), optional_nat(*old(columns))),
    decreases children,
{
    let ghost views = children_view(*children);
    let mut index: usize = 0;
    assert(views.skip(0) =~= views);
    while index < children.len()
        invariant
            views == children_view(*children),
            index <= children@.len(),
            uniform_all(views, optional_nat(*old(columns))) == uniform_all(views.skip(index as int), optional_nat(*columns)),
        decreases children@.len() - index,
    {
        proof {
            vstd::std_specs::vec::axiom_vec_index_decreases(*children, index as int);
            assert(views.skip(index as int)[0] == views[index as int]);
            assert(views.skip(index as int).drop_first() =~= views.skip(index + 1));
            assert(views[index as int] == element_view(children@[index as int]));
        }
        if !uniform_rows(&children[index], columns) {
            return false;
        }
        index += 1;
    }
    true
}

/// Whether a length is zero, of either sign.
pub open spec fn zero_length(length: Pt) -> bool {
    length.spec_bits() == 0 || length.spec_bits() == 0x8000_0000
}

/// A box that paints nothing of its own: no background, padding or border.
pub open spec fn unpainted(style: BoxStyle) -> bool {
    &&& style.background is None
    &&& zero_length(style.padding.top) && zero_length(style.padding.right)
    &&& zero_length(style.padding.bottom) && zero_length(style.padding.left)
    &&& zero_length(style.border.top) && zero_length(style.border.right)
    &&& zero_length(style.border.bottom) && zero_length(style.border.left)
}

/// Whether an element may continue on the next page: text, images, and boxes
/// that paint nothing and hold only spacers and such elements. Spacers,
/// stacks, rows and tables stay whole.
pub open spec fn splits(element: ElementView) -> bool
    decreases element,
{
    match element {
        ElementView::Paragraph(..) | ElementView::Image(..) => true,
        ElementView::Box(style, children) => unpainted(style) && splits_all(children),
        _ => false,
    }
}

/// Whether every child is a spacer or may continue on the next page.
pub open spec fn splits_all(children: Seq<ElementView>) -> bool
    decreases children,
{
    if children.len() == 0 {
        true
    } else {
        (children[0] is Spacer || splits(children[0])) && splits_all(children.drop_first())
    }
}

fn is_zero(length: Pt) -> (zero: bool)
    ensures
        zero == zero_length(length),
{
    let bits = length.bits();
    bits == 0 || bits == 0x8000_0000
}

fn paints_nothing(style: &BoxStyle) -> (nothing: bool)
    ensures
        nothing == unpainted(*style),
{
    style.background.is_none() && is_zero(style.padding.top) && is_zero(style.padding.right) && is_zero(
        style.padding.bottom,
    ) && is_zero(style.padding.left) && is_zero(style.border.top) && is_zero(style.border.right) && is_zero(
        style.border.bottom,
    ) && is_zero(style.border.left)
}

/// Text, images, and unpainted boxes of them split across pages.
pub fn splittable(element: &Element) -> (may_split: bool)
    ensures
        may_split == splits(element_view(*element)),
    decreases element,
{
    match element {
        Element::Paragraph(_) | Element::Image(_) => true,
        Element::Box(node) => paints_nothing(&node.style) && splittable_children(&node.children),
        _ => false,
    }
}

fn splittable_children(children: &Vec<Element>) -> (may_split: bool)
    ensures
        may_split == splits_all(children_view(*children)),
    decreases children,
{
    let ghost views = children_view(*children);
    let mut index: usize = 0;
    assert(views.skip(0) =~= views);
    while index < children.len()
        invariant
            views == children_view(*children),
            index <= children@.len(),
            splits_all(views) == splits_all(views.skip(index as int)),
        decreases children@.len() - index,
    {
        proof {
            vstd::std_specs::vec::axiom_vec_index_decreases(*children, index as int);
            assert(views.skip(index as int)[0] == views[index as int]);
            assert(views.skip(index as int).drop_first() =~= views.skip(index + 1));
            assert(views[index as int] == element_view(children@[index as int]));
        }
        let child = &children[index];
        let spacer = match child {
            Element::Spacer(_) => true,
            _ => false,
        };
        if !spacer && !splittable(child) {
            return false;
        }
        index += 1;
    }
    assert(views.skip(index as int) =~= Seq::<ElementView>::empty());
    true
}

pub open spec fn optional_nat(count: Option<usize>) -> Option<nat> {
    match count {
        Some(count) => Some(count as nat),
        None => None,
    }
}

impl<'a> CommandParser<'a> {
    /// The element at the current command, at nesting `depth`.
    fn parse_element(&mut self, depth: usize, fuel: u128) -> (parsed: Result<Element<'a>, CommandParseError>)
        requires
            old(self).position() <= old(self).commands().len(),
            depth <= MAX_LAYOUT_DEPTH,
        ensures
            final(self).commands() == old(self).commands(),
            final(self).position() <= final(self).commands().len(),
            match parse_element(old(self).commands(), old(self).position(), depth as nat, fuel as nat) {
                Ok((view, end)) => parsed matches Ok(element) && element_view(element) == view && final(self).position() == end,
                Err(error) => parsed matches Err(found) && found == error,
            },
        decreases fuel, 1nat,
    {
        if fuel == 0 || self.index >= self.source.len() {
            return Err(CommandParseError::UnexpectedEnd);
        }
        let source: &'a [OwnedCommand] = self.source;
        let command = &source[self.index];
        assert(self.commands()[self.index as int] == command@);
        self.index += 1;
        match command {
            OwnedCommand::Paragraph(align, text, runs, links) => {
                Ok(Element::Paragraph(
                    Paragraph { align: *align, text: text.as_str(), runs: runs.as_slice(), links: links.as_slice() },
                ))
            },
            OwnedCommand::Image(slot, width, height, link) => Ok(
                Element::Image(
                    ImageNode {
                        slot: *slot,
                        width: *width,
                        height: *height,
                        link: match link {
                            Some(link) => Some(link.as_str()),
                            None => None,
                        },
                    },
                ),
            ),
            OwnedCommand::Spacer(height) => Ok(Element::Spacer(Spacer { height: *height })),
            OwnedCommand::BoxStart(style) => {
                self.check_depth(depth)?;
                let children = self.parse_children(0, depth + 1, fuel - 1)?;
                Ok(Element::Box(BoxNode { style: *style, children }))
            },
            OwnedCommand::StackStart(gap) => {
                self.check_depth(depth)?;
                let children = self.parse_children(1, depth + 1, fuel - 1)?;
                Ok(Element::Stack(Stack { gap: *gap, children }))
            },
            OwnedCommand::RowStart(widths) => {
                self.check_depth(depth)?;
                if widths.len() == 0 || widths.len() > MAX_COLUMNS {
                    return Err(CommandParseError::InvalidRow);
                }
                let ghost after_start = self.position();
                let cells = self.parse_cells(widths.as_slice(), depth + 1, fuel - 1)?;
                if self.index >= self.source.len() {
                    return Err(CommandParseError::UnexpectedEnd);
                }
                let closed = self.closes(3);
                self.index += 1;
                if !closed {
                    return Err(CommandParseError::InvalidRow);
                }
                let ghost found = cells@;
                let element = Element::Row(Row { cells });
                proof {
                    let (views, _) = parse_cells(self.commands(), after_start, widths@.len(), (depth + 1) as nat, (fuel - 1) as nat)->Ok_0;
                    assert(element_view(element)->Row_0 =~= widths@);
                    assert(element_view(element)->Row_1 =~= views);
                }
                Ok(element)
            },
            OwnedCommand::TableStart(header_rows, width) => {
                self.check_depth(depth)?;
                let rows = self.parse_children(2, depth + 1, fuel - 1)?;
                let header_rows = *header_rows as usize;
                if header_rows > rows.len() {
                    return Err(CommandParseError::InvalidTable);
                }
                let mut columns: Option<usize> = None;
                if !uniform_children(&rows, &mut columns) {
                    return Err(CommandParseError::InvalidTable);
                }
                Ok(Element::Table(Table { header_rows, width: *width, rows }))
            },
            _ => Err(CommandParseError::UnexpectedCommand),
        }
    }

    /// Children up to the end command `end`, which is consumed.
    fn parse_children(&mut self, end: u8, depth: usize, fuel: u128) -> (parsed: Result<Vec<Element<'a>>, CommandParseError>)
        requires
            old(self).position() <= old(self).commands().len(),
            depth <= MAX_LAYOUT_DEPTH,
            end < 4,
        ensures
            final(self).commands() == old(self).commands(),
            final(self).position() <= final(self).commands().len(),
            match parse_children(old(self).commands(), old(self).position(), end, depth as nat, fuel as nat) {
                Ok((views, after)) => parsed matches Ok(children) && children_view(children) == views && final(self).position() == after,
                Err(error) => parsed matches Err(found) && found == error,
            },
        decreases fuel, 0nat,
    {
        let ghost commands = self.commands();
        let ghost start = self.position();
        assert(commands.len() == self.source@.len());
        let mut children: Vec<Element<'a>> = Vec::new();
        let mut remaining = fuel;
        proof {
            lemma_children_view(children);
            assert(children_view_of(children@) =~= Seq::<ElementView>::empty());
            assert(prefixed(seq![], parse_children(commands, start, end, depth as nat, fuel as nat)) =~= parse_children(commands, start, end, depth as nat, fuel as nat)) by {
                match parse_children(commands, start, end, depth as nat, fuel as nat) {
                    Ok((more, after)) => assert(Seq::<ElementView>::empty() + more =~= more),
                    Err(_) => {},
                }
            }
        }
        loop
            invariant
                self.commands() == commands,
                commands == old(self).commands(),
                start == old(self).position(),
                commands.len() == self.source@.len(),
                self.position() <= commands.len(),
                remaining <= fuel,
                depth <= MAX_LAYOUT_DEPTH,
                end < 4,
                parse_children(commands, start, end, depth as nat, fuel as nat) == prefixed(
                    children_view_of(children@),
                    parse_children(commands, self.position(), end, depth as nat, remaining as nat),
                ),
            decreases remaining,
        {
            if remaining == 0 {
                return Err(CommandParseError::UnexpectedEnd);
            }
            if self.index >= self.source.len() {
                return Err(CommandParseError::UnexpectedEnd);
            }
            if self.closes(end) {
                self.index += 1;
                proof {
                    lemma_children_view(children);
                    assert(children_view_of(children@) + Seq::<ElementView>::empty() =~= children_view_of(children@));
                }
                return Ok(children);
            }
            let ghost before = children@;
            let ghost at = self.position();
            let child = self.parse_element(depth, remaining - 1)?;
            children.push(child);
            proof {
                assert(children_view_of(children@) =~= children_view_of(before).push(element_view(child)));
                match parse_children(commands, self.position(), end, depth as nat, (remaining - 1) as nat) {
                    Ok((more, after)) => {
                        assert(children_view_of(before) + (seq![element_view(child)] + more) =~= children_view_of(children@) + more);
                    },
                    Err(_) => {},
                }
            }
            remaining = remaining - 1;
        }
    }

    /// One element per column.
    fn parse_cells(&mut self, widths: &'a [ColumnWidth], depth: usize, fuel: u128) -> (parsed: Result<Vec<Cell<'a>>, CommandParseError>)
        requires
            old(self).position() <= old(self).commands().len(),
            depth <= MAX_LAYOUT_DEPTH,
        ensures
            final(self).commands() == old(self).commands(),
            final(self).position() <= final(self).commands().len(),
            match parse_cells(old(self).commands(), old(self).position(), widths@.len(), depth as nat, fuel as nat) {
                Ok((views, after)) => parsed matches Ok(cells) && cells@.len() == widths@.len() && views.len() == cells@.len()
                    && (forall|index: int| 0 <= index < cells@.len() ==> #[trigger] cells@[index].width == widths@[index])
                    && (forall|index: int| 0 <= index < cells@.len() ==> element_view(#[trigger] cells@[index].content) == views[index])
                    && final(self).position() == after,
                Err(error) => parsed matches Err(found) && found == error,
            },
        decreases fuel, 0nat,
    {
        let ghost commands = self.commands();
        let ghost start = self.position();
        let mut cells: Vec<Cell<'a>> = Vec::new();
        let mut remaining = fuel;
        let mut index: usize = 0;
        proof {
            assert(prefixed(seq![], parse_cells(commands, start, widths@.len(), depth as nat, fuel as nat)) =~= parse_cells(commands, start, widths@.len(), depth as nat, fuel as nat)) by {
                match parse_cells(commands, start, widths@.len(), depth as nat, fuel as nat) {
                    Ok((more, after)) => assert(Seq::<ElementView>::empty() + more =~= more),
                    Err(_) => {},
                }
            }
        }
        while index < widths.len()
            invariant
                self.commands() == commands,
                commands == old(self).commands(),
                start == old(self).position(),
                self.position() <= commands.len(),
                remaining <= fuel,
                depth <= MAX_LAYOUT_DEPTH,
                index <= widths@.len(),
                cells@.len() == index,
                forall|at: int| 0 <= at < index ==> #[trigger] cells@[at].width == widths@[at],
                parse_cells(commands, start, widths@.len(), depth as nat, fuel as nat) == prefixed(
                    Seq::new(index as nat, |at: int| element_view(cells@[at].content)),
                    parse_cells(commands, self.position(), (widths@.len() - index) as nat, depth as nat, remaining as nat),
                ),
            decreases widths@.len() - index,
        {
            if remaining == 0 {
                return Err(CommandParseError::UnexpectedEnd);
            }
            let ghost before = Seq::new(index as nat, |at: int| element_view(cells@[at].content));
            let content = self.parse_element(depth, remaining - 1)?;
            cells.push(Cell { width: widths[index], content });
            proof {
                let now = Seq::new((index + 1) as nat, |at: int| element_view(cells@[at].content));
                assert(now =~= before.push(element_view(content)));
                match parse_cells(commands, self.position(), (widths@.len() - index - 1) as nat, depth as nat, (remaining - 1) as nat) {
                    Ok((more, after)) => {
                        assert(before + (seq![element_view(content)] + more) =~= now + more);
                    },
                    Err(_) => {},
                }
            }
            index += 1;
            remaining = remaining - 1;
        }
        proof {
            match parse_cells(commands, start, widths@.len(), depth as nat, fuel as nat) {
                Ok((views, after)) => {
                    let found = Seq::new(index as nat, |at: int| element_view(cells@[at].content));
                    assert(views =~= found + Seq::<ElementView>::empty());
                },
                Err(_) => {},
            }
        }
        Ok(cells)
    }

    /// The one element `commands` hold; anything after it is refused.
    pub fn parse_single_block(self) -> (parsed: Result<Element<'a>, CommandParseError>)
        requires
            self.position() == 0,
        ensures
            match spec_single_block(self.commands()) {
                Ok(view) => parsed matches Ok(element) && element_view(element) == view,
                Err(error) => parsed matches Err(found) && found == error,
            },
    {
        let mut parser = self;
        let fuel = parser.source.len() as u128 * 2 + 2;
        let element = parser.parse_element(0, fuel)?;
        if parser.index == parser.source.len() {
            Ok(element)
        } else {
            Err(CommandParseError::UnexpectedCommand)
        }
    }

    /// The elements `commands` hold, one after another.
    pub fn parse_document(self) -> (parsed: Result<Vec<Element<'a>>, CommandParseError>)
        requires
            self.position() == 0,
        ensures
            match parse_sequence(self.commands(), 0, parse_fuel(self.commands())) {
                Ok(views) => parsed matches Ok(elements) && children_view(elements) == views,
                Err(error) => parsed matches Err(found) && found == error,
            },
    {
        let mut parser = self;
        let ghost commands = parser.commands();
        let fuel = parser.source.len() as u128 * 2 + 2;
        assert(commands.len() == parser.source@.len());
        assert(fuel as nat == parse_fuel(commands));
        let mut remaining = fuel;
        let mut elements: Vec<Element<'a>> = Vec::new();
        proof {
            lemma_children_view(elements);
            match parse_sequence(commands, 0, fuel as nat) {
                Ok(views) => assert(children_view_of(elements@) + views =~= views),
                Err(_) => {},
            }
        }
        while parser.index < parser.source.len()
            invariant
                parser.commands() == commands,
                commands == self.commands(),
                fuel as nat == parse_fuel(commands),
                commands.len() == parser.source@.len(),
                parser.position() <= commands.len(),
                remaining <= fuel,
                match parse_sequence(commands, 0, fuel as nat) {
                    Ok(views) => parse_sequence(commands, parser.position(), remaining as nat) matches Ok(rest)
                        && views == children_view_of(elements@) + rest,
                    Err(error) => parse_sequence(commands, parser.position(), remaining as nat) == Err::<Seq<ElementView>, CommandParseError>(error),
                },
            decreases remaining,
        {
            if remaining == 0 {
                return Err(CommandParseError::UnexpectedEnd);
            }
            let ghost before = elements@;
            let element = parser.parse_element(0, remaining - 1)?;
            elements.push(element);
            remaining = remaining - 1;
            proof {
                assert(children_view_of(elements@) =~= children_view_of(before).push(element_view(element)));
                match parse_sequence(commands, 0, fuel as nat) {
                    Ok(views) => {
                        let rest = parse_sequence(commands, parser.position(), remaining as nat)->Ok_0;
                        assert(children_view_of(before) + (seq![element_view(element)] + rest) =~= children_view_of(elements@) + rest);
                    },
                    Err(_) => {},
                }
            }
        }
        proof {
            lemma_children_view(elements);
            match parse_sequence(commands, 0, fuel as nat) {
                Ok(views) => assert(views =~= children_view_of(elements@) + Seq::<ElementView>::empty()),
                Err(_) => {},
            }
        }
        Ok(elements)
    }
}

} // verus!
