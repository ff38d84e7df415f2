//! TrueType fonts: table directory, metrics, character maps and subsetting.

pub mod bytes;
pub mod cmap;
pub mod subset;
pub mod truetype;

use vstd::prelude::*;

use crate::model::FontId;
use crate::text::{decimal, lemma_decimal_injective, push_decimal};

verus! {

/// The PDF resource name of a font slot: `F` and the slot number plus one.
pub open spec fn resource_name(slot: u8) -> Seq<u8> {
    seq![0x46u8] + decimal(slot as nat + 1)
}

/// Font resource names never collide: different slots have different names.
pub proof fn lemma_resource_names_distinct(a: u8, b: u8)
    requires
        a != b,
    ensures
        resource_name(a) != resource_name(b),
{
    if resource_name(a) == resource_name(b) {
        assert(decimal(a as nat + 1) =~= resource_name(a).drop_first());
        assert(decimal(b as nat + 1) =~= resource_name(b).drop_first());
        lemma_decimal_injective(a as nat + 1, b as nat + 1);
    }
}

/// `/F1` is slot 0, so a PDF resource name never collides with a slot number.
pub fn font_name(font: FontId) -> (name: Vec<u8>)
    ensures
        name@ == resource_name(font.spec_slot()),
{
    let mut name: Vec<u8> = Vec::new();
    name.push(0x46);
    push_decimal(&mut name, font.slot() as u64 + 1);
    assert(name@ =~= resource_name(font.spec_slot()));
    name
}

} // verus!
