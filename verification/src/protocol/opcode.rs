//! The record opcodes of the protocol.

use vstd::prelude::*;

use super::ProtocolError;

verus! {

#[derive(Clone, Copy, Debug, PartialEq, Eq, Structural)]
pub enum Opcode {
    Spacer,
    StackStart,
    StackEnd,
    RowStart,
    RowEnd,
    PageBreak,
    Footer,
    Paragraph,
    TableStart,
    TableEnd,
    Image,
    BoxStart,
    BoxEnd,
    End,
}

/// The opcode a record's first byte names; bytes no opcode uses name none.
pub open spec fn opcode_of(value: u8) -> Option<Opcode> {
    match value {
        2 => Some(Opcode::Spacer),
        3 => Some(Opcode::StackStart),
        4 => Some(Opcode::StackEnd),
        5 => Some(Opcode::RowStart),
        6 => Some(Opcode::RowEnd),
        7 => Some(Opcode::PageBreak),
        8 => Some(Opcode::Footer),
        9 => Some(Opcode::Paragraph),
        10 => Some(Opcode::TableStart),
        11 => Some(Opcode::TableEnd),
        12 => Some(Opcode::Image),
        17 => Some(Opcode::BoxStart),
        18 => Some(Opcode::BoxEnd),
        255 => Some(Opcode::End),
        _ => None,
    }
}

impl Opcode {
    /// The opcode of a record byte, or `UnknownOpcode`.
    pub fn try_from(value: u8) -> (opcode: Result<Opcode, ProtocolError>)
        ensures
            match opcode_of(value) {
                Some(known) => opcode matches Ok(found) && found == known,
                None => opcode matches Err(ProtocolError::UnknownOpcode),
            },
    {
        Ok(
            match value {
                2 => Opcode::Spacer,
                3 => Opcode::StackStart,
                4 => Opcode::StackEnd,
                5 => Opcode::RowStart,
                6 => Opcode::RowEnd,
                7 => Opcode::PageBreak,
                8 => Opcode::Footer,
                9 => Opcode::Paragraph,
                10 => Opcode::TableStart,
                11 => Opcode::TableEnd,
                12 => Opcode::Image,
                17 => Opcode::BoxStart,
                18 => Opcode::BoxEnd,
                255 => Opcode::End,
                _ => return Err(ProtocolError::UnknownOpcode),
            },
        )
    }
}

} // verus!
