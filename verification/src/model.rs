//! Domain values shared by the protocol, the fonts and the renderer.

use vstd::prelude::*;

use vstd::arithmetic::power2::{lemma_pow2_adds, lemma_pow2_pos, lemma_pow2_strictly_increases, pow2};

verus! {

/// IEEE 754 single-precision bits of a finite number that is not below zero
/// (negative zero included, as `-0.0 >= 0.0`).
pub open spec fn nonnegative_bits(bits: u32) -> bool {
    bits < 0x7f80_0000 || bits == 0x8000_0000
}

/// IEEE 754 single-precision bits of a finite number above zero.
pub open spec fn positive_bits(bits: u32) -> bool {
    0 < bits < 0x7f80_0000
}

/// The biased exponent field of non-negative bits.
pub open spec fn exponent_field(bits: u32) -> nat {
    (bits / 0x80_0000) as nat
}

/// The value of finite non-negative bits times 2^149, an exact integer: the
/// smallest subnormal is one, and every finite single is a whole multiple of it.
pub open spec fn scaled(bits: u32) -> nat {
    if bits == 0x8000_0000 {
        0
    } else {
        let fraction = (bits % 0x80_0000) as nat;
        if exponent_field(bits) == 0 {
            fraction
        } else {
            (0x80_0000 + fraction) * pow2((exponent_field(bits) - 1) as nat)
        }
    }
}

/// Where a positive finite single lies between powers of two, in units of 2^-149.
proof fn lemma_scaled_bounds(bits: u32)
    requires
        bits < 0x7f80_0000,
    ensures
        exponent_field(bits) == 0 ==> scaled(bits) < pow2(23),
        exponent_field(bits) >= 1 ==> pow2(exponent_field(bits) + 22) <= scaled(bits) < pow2(
            exponent_field(bits) + 23,
        ),
{
    vstd::arithmetic::power2::lemma2_to64();
    let e = exponent_field(bits);
    let f = (bits % 0x80_0000) as nat;
    if e >= 1 {
        let step = pow2((e - 1) as nat);
        lemma_pow2_pos((e - 1) as nat);
        lemma_pow2_adds(23, (e - 1) as nat);
        lemma_pow2_adds(24, (e - 1) as nat);
        assert(((e - 1) as nat) + 23 == e + 22);
        assert(((e - 1) as nat) + 24 == e + 23);
        assert(0x80_0000 * step <= (0x80_0000 + f) * step) by (nonlinear_arith)
            requires
                f >= 0,
                step > 0,
        ;
        assert((0x80_0000 + f) * step < 0x100_0000 * step) by (nonlinear_arith)
            requires
                f < 0x80_0000,
                step > 0,
        ;
    }
}

/// Among finite non-negative singles, the order of the bit patterns is the
/// order of the values.
pub proof fn lemma_scaled_order(a: u32, b: u32)
    requires
        a < 0x7f80_0000,
        b < 0x7f80_0000,
        a < b,
    ensures
        scaled(a) < scaled(b),
{
    vstd::arithmetic::power2::lemma2_to64();
    lemma_scaled_bounds(a);
    lemma_scaled_bounds(b);
    let ea = exponent_field(a);
    let eb = exponent_field(b);
    assert(ea <= eb);
    if ea == eb {
        assert(a % 0x80_0000 < b % 0x80_0000);
        if ea >= 1 {
            let step = pow2((ea - 1) as nat);
            lemma_pow2_pos((ea - 1) as nat);
            let fa = (a % 0x80_0000) as nat;
            let fb = (b % 0x80_0000) as nat;
            assert((0x80_0000 + fa) * step < (0x80_0000 + fb) * step) by (nonlinear_arith)
                requires
                    fa < fb,
                    step > 0,
            ;
        }
    } else if ea == 0 {
        if eb > 1 {
            lemma_pow2_strictly_increases(23, eb + 22);
        }
    } else {
        if ea + 23 < eb + 22 {
            lemma_pow2_strictly_increases(ea + 23, eb + 22);
        }
    }
}

/// Doubling finite non-negative bits below the top binade: a subnormal shifts
/// its fraction left, a normal number steps its exponent.
pub open spec fn doubled_bits(bits: u32) -> u32 {
    if exponent_field(bits) == 0 {
        (bits * 2) as u32
    } else {
        (bits + 0x80_0000) as u32
    }
}

proof fn lemma_doubled(bits: u32)
    requires
        bits < 0x7f00_0000,
    ensures
        doubled_bits(bits) < 0x7f80_0000,
        scaled(doubled_bits(bits)) == 2 * scaled(bits),
{
    vstd::arithmetic::power2::lemma2_to64();
    let e = exponent_field(bits);
    let f = (bits % 0x80_0000) as nat;
    let d = doubled_bits(bits);
    if e == 0 {
        assert(d == 2 * f);
        if f >= 0x40_0000 {
            assert(exponent_field(d) == 1);
            assert(d % 0x80_0000 == 2 * f - 0x80_0000);
            assert(pow2(0) == 1);
            assert(scaled(d) == (0x80_0000 + (2 * f - 0x80_0000)) * pow2(0));
        } else {
            assert(exponent_field(d) == 0);
            assert(d % 0x80_0000 == d);
        }
        assert(scaled(bits) == f);
    } else {
        assert(d == bits + 0x80_0000);
        assert(exponent_field(d) == e + 1);
        assert(d % 0x80_0000 == f);
        lemma_pow2_adds(1, (e - 1) as nat);
        assert(((e + 1 - 1) as nat) == 1 + ((e - 1) as nat));
        let step = pow2((e - 1) as nat);
        assert(pow2(e) == 2 * step);
        assert(scaled(d) == (0x80_0000 + f) * pow2(e));
        assert((0x80_0000 + f) * (2 * step) == 2 * ((0x80_0000 + f) * step)) by (nonlinear_arith);
        assert(scaled(bits) == (0x80_0000 + f) * step);
    }
}

/// A length in PDF points: a finite number that is not below zero, held as
/// its IEEE 754 single-precision bits.
#[derive(Clone, Copy, Debug, PartialEq, Eq, Structural)]
pub struct Pt {
    bits: u32,
}

impl Pt {
    pub closed spec fn spec_bits(self) -> u32 {
        self.bits
    }

    /// The length with these bits.
    pub closed spec fn from_bits(bits: u32) -> Pt {
        Pt { bits }
    }

    /// Whether the bits are those of a length.
    pub open spec fn wf(self) -> bool {
        nonnegative_bits(self.spec_bits())
    }

    /// The length, given by its single-precision bits; a NaN, an infinity or a
    /// number below zero is refused.
    pub fn new(bits: u32) -> (point: Result<Pt, RenderError>)
        ensures
            match point {
                Ok(point) => nonnegative_bits(bits) && point == Pt::from_bits(bits) && point.wf(),
                Err(error) => !nonnegative_bits(bits) && error == RenderError::InvalidPoint,
            },
    {
        if bits < 0x7f80_0000 || bits == 0x8000_0000 {
            Ok(Pt { bits })
        } else {
            Err(RenderError::InvalidPoint)
        }
    }

    /// Zero points.
    pub fn zero() -> (point: Pt)
        ensures
            point == Pt::from_bits(0),
            point.wf(),
    {
        Pt { bits: 0 }
    }

    /// The single-precision bits of the length.
    pub fn bits(self) -> (bits: u32)
        ensures
            bits == self.spec_bits(),
    {
        self.bits
    }
}

/// The bits of a length made from bits are those bits.
pub broadcast proof fn lemma_point_bits(bits: u32)
    ensures
        #[trigger] Pt::from_bits(bits).spec_bits() == bits,
{
}

/// A length is the one made from its bits.
pub broadcast proof fn lemma_point_from_own_bits(point: Pt)
    ensures
        #[trigger] Pt::from_bits(point.spec_bits()) == point,
{
}

/// The slot of the font in a slot is that slot.
pub broadcast proof fn lemma_font_slot(slot: u8)
    ensures
        #[trigger] FontId::from_slot(slot).spec_slot() == slot,
{
}

pub broadcast group group_point {
    lemma_point_bits,
    lemma_point_from_own_bits,
    lemma_font_slot,
}

/// `value > 2 * limit` on the lengths the bits stand for.
fn exceeds_double(value: Pt, limit: Pt) -> (exceeds: bool)
    requires
        value.wf(),
        limit.wf(),
    ensures
        exceeds == (scaled(value.spec_bits()) > 2 * scaled(limit.spec_bits())),
{
    let v = if value.bits == 0x8000_0000 { 0 } else { value.bits };
    let m = if limit.bits == 0x8000_0000 { 0 } else { limit.bits };
    assert(scaled(v) == scaled(value.spec_bits()));
    assert(scaled(m) == scaled(limit.spec_bits()));
    if m >= 0x7f00_0000 {
        proof {
            vstd::arithmetic::power2::lemma2_to64();
            lemma_scaled_bounds(v);
            lemma_scaled_bounds(m);
            let e = exponent_field(m);
            assert(e == 254);
            assert(exponent_field(v) <= 254);
            if exponent_field(v) + 23 < 277 {
                lemma_pow2_strictly_increases(exponent_field(v) + 23, 277);
            }
            lemma_pow2_adds(1, 276);
        }
        return false;
    }
    let doubled: u32 = if m < 0x80_0000 { m * 2 } else { m + 0x80_0000 };
    proof {
        lemma_doubled(m);
        assert(doubled == doubled_bits(m));
        if v < doubled {
            lemma_scaled_order(v, doubled);
        } else if doubled < v {
            lemma_scaled_order(doubled, v);
        }
    }
    v > doubled
}

/// A page: its width, its height and the margin on every side.
#[derive(Clone, Copy, Debug, PartialEq, Eq, Structural)]
pub struct Page {
    pub width: Pt,
    pub height: Pt,
    pub margin: Pt,
}

/// The margins leave room on both axes: each side exceeds twice the margin.
pub open spec fn page_fits(width: Pt, height: Pt, margin: Pt) -> bool {
    &&& scaled(width.spec_bits()) > 2 * scaled(margin.spec_bits())
    &&& scaled(height.spec_bits()) > 2 * scaled(margin.spec_bits())
}

impl Page {
    /// ISO A4, 595 by 842 points, with half-inch margins.
    pub fn a4() -> (page: Page)
        ensures
            page == (Page {
                width: Pt::from_bits(0x4414_c000),
                height: Pt::from_bits(0x4452_8000),
                margin: Pt::from_bits(0x4210_0000),
            }),
    {
        Page { width: Pt { bits: 0x4414_c000 }, height: Pt { bits: 0x4452_8000 }, margin: Pt { bits: 0x4210_0000 } }
    }

    /// US Letter, 612 by 792 points, with half-inch margins.
    pub fn letter() -> (page: Page)
        ensures
            page == (Page {
                width: Pt::from_bits(0x4419_0000),
                height: Pt::from_bits(0x4446_0000),
                margin: Pt::from_bits(0x4210_0000),
            }),
    {
        Page { width: Pt { bits: 0x4419_0000 }, height: Pt { bits: 0x4446_0000 }, margin: Pt { bits: 0x4210_0000 } }
    }

    pub fn new(width: Pt, height: Pt, margin: Pt) -> (page: Result<Page, RenderError>)
        requires
            width.wf(),
            height.wf(),
            margin.wf(),
        ensures
            match page {
                Ok(page) => page_fits(width, height, margin) && page == (Page { width, height, margin }),
                Err(error) => !page_fits(width, height, margin) && error == RenderError::InvalidPage,
            },
    {
        if exceeds_double(width, margin) && exceeds_double(height, margin) {
            Ok(Page { width, height, margin })
        } else {
            Err(RenderError::InvalidPage)
        }
    }
}

/// Top, right, bottom and left values of a box side property.
#[derive(Clone, Copy, Debug, PartialEq)]
pub struct Edges<T> {
    pub top: T,
    pub right: T,
    pub bottom: T,
    pub left: T,
}

impl<T: Copy> Edges<T> {
    /// The same value on every side.
    pub fn all(value: T) -> (edges: Self)
        ensures
            edges.top == value,
            edges.right == value,
            edges.bottom == value,
            edges.left == value,
    {
        Self { top: value, right: value, bottom: value, left: value }
    }

    /// The sides in CSS order: top, right, bottom, left.
    pub fn into_array(self) -> (sides: [T; 4])
        ensures
            sides@ == seq![self.top, self.right, self.bottom, self.left],
    {
        let sides = [self.top, self.right, self.bottom, self.left];
        assert(sides@ =~= seq![self.top, self.right, self.bottom, self.left]);
        sides
    }
}

impl<T> Edges<T> {
    /// References to the sides in CSS order.
    pub fn iter(&self) -> (sides: [&T; 4])
        ensures
            *sides@[0] == self.top,
            *sides@[1] == self.right,
            *sides@[2] == self.bottom,
            *sides@[3] == self.left,
    {
        [&self.top, &self.right, &self.bottom, &self.left]
    }
}

/// An 8-bit sRGB colour.
#[derive(Clone, Copy, Debug, PartialEq, Eq, Structural)]
pub struct Rgb {
    pub r: u8,
    pub g: u8,
    pub b: u8,
}

impl Rgb {
    /// The default text and border colour.
    pub fn black() -> (color: Rgb)
        ensures
            color.r == 0 && color.g == 0 && color.b == 0,
    {
        Rgb { r: 0, g: 0, b: 0 }
    }

    /// The colour from its red, green and blue channels.
    pub fn from_channels(channels: [u8; 3]) -> (color: Rgb)
        ensures
            color.r == channels@[0],
            color.g == channels@[1],
            color.b == channels@[2],
    {
        Rgb { r: channels[0], g: channels[1], b: channels[2] }
    }
}

/// A font slot: 0 and 1 are Helvetica and Helvetica-Bold, 2 and up the
/// registered TrueType fonts in registration order.
#[derive(Clone, Copy, Debug, PartialEq, Eq, Hash, Structural)]
pub struct FontId(u8);

impl FontId {
    /// Slot 0, the regular Helvetica fallback.
    pub fn helvetica() -> (font: FontId)
        ensures
            font.spec_slot() == 0,
    {
        FontId(0)
    }

    /// Slot 1, the bold Helvetica fallback.
    pub fn helvetica_bold() -> (font: FontId)
        ensures
            font.spec_slot() == 1,
    {
        FontId(1)
    }

    pub closed spec fn spec_slot(self) -> u8 {
        self.0
    }

    /// The font in this slot.
    pub closed spec fn from_slot(slot: u8) -> FontId {
        FontId(slot)
    }

    pub fn new(value: u8) -> (font: FontId)
        ensures
            font.spec_slot() == value,
            font == FontId::from_slot(value),
    {
        FontId(value)
    }

    pub fn slot(self) -> (slot: u8)
        ensures
            slot == self.spec_slot(),
    {
        self.0
    }

    pub fn index(self) -> (index: usize)
        ensures
            index == self.spec_slot() as usize,
    {
        self.0 as usize
    }
}

#[derive(Clone, Copy, Debug, PartialEq, Eq, Structural)]
pub enum TextAlign {
    Left,
    Center,
    Right,
}

/// How a run of text is set: size, alignment, colour and font slot.
#[derive(Clone, Copy, Debug, PartialEq, Eq, Structural)]
pub struct TextStyle {
    pub size: Pt,
    pub align: TextAlign,
    pub color: Rgb,
    pub font: FontId,
}

impl TextStyle {
    /// Left-aligned black regular Helvetica at `size`.
    pub fn plain(size: Pt) -> (style: TextStyle)
        ensures
            style.size == size,
            style.align == TextAlign::Left,
            style.color == (Rgb { r: 0, g: 0, b: 0 }),
            style.font.spec_slot() == 0,
    {
        TextStyle { size, align: TextAlign::Left, color: Rgb::black(), font: FontId::helvetica() }
    }
}

/// The box model of a container: margin, padding and border widths, an
/// optional background and the border colours.
#[derive(Clone, Copy, Debug, PartialEq)]
pub struct BoxStyle {
    pub margin: Edges<Pt>,
    pub padding: Edges<Pt>,
    pub border: Edges<Pt>,
    pub background: Option<Rgb>,
    pub border_color: Edges<Rgb>,
}

/// A share of the space a row leaves to its fraction columns: finite and
/// above zero, held as single-precision bits.
#[derive(Clone, Copy, Debug, PartialEq, Eq, Structural)]
pub struct Fraction {
    bits: u32,
}

impl Fraction {
    pub closed spec fn spec_bits(self) -> u32 {
        self.bits
    }

    /// The share with these bits.
    pub closed spec fn from_bits(bits: u32) -> Fraction {
        Fraction { bits }
    }

    /// The share, given by its single-precision bits; zero, a number below
    /// zero, an infinity or a NaN is refused.
    pub fn new(bits: u32) -> (fraction: Result<Fraction, RenderError>)
        ensures
            match fraction {
                Ok(fraction) => positive_bits(bits) && fraction == Fraction::from_bits(bits),
                Err(error) => !positive_bits(bits) && error == RenderError::InvalidLayout,
            },
    {
        if 0 < bits && bits < 0x7f80_0000 {
            Ok(Fraction { bits })
        } else {
            Err(RenderError::InvalidLayout)
        }
    }

    pub fn bits(self) -> (bits: u32)
        ensures
            bits == self.spec_bits(),
    {
        self.bits
    }
}

/// A percentage of the containing width: finite and above zero, held as
/// single-precision bits.
#[derive(Clone, Copy, Debug, PartialEq, Eq, Structural)]
pub struct Percent {
    bits: u32,
}

impl Percent {
    pub closed spec fn spec_bits(self) -> u32 {
        self.bits
    }

    /// The percentage with these bits.
    pub closed spec fn from_bits(bits: u32) -> Percent {
        Percent { bits }
    }

    /// The percentage, given by its single-precision bits; zero, a number
    /// below zero, an infinity or a NaN is refused.
    pub fn new(bits: u32) -> (percent: Result<Percent, RenderError>)
        ensures
            match percent {
                Ok(percent) => positive_bits(bits) && percent == Percent::from_bits(bits),
                Err(error) => !positive_bits(bits) && error == RenderError::InvalidLayout,
            },
    {
        if 0 < bits && bits < 0x7f80_0000 {
            Ok(Percent { bits })
        } else {
            Err(RenderError::InvalidLayout)
        }
    }

    pub fn bits(self) -> (bits: u32)
        ensures
            bits == self.spec_bits(),
    {
        self.bits
    }
}

/// Paint attributes a text run carries besides its style.
#[derive(Clone, Copy, Debug, PartialEq, Eq, Structural)]
pub struct RunDecoration {
    pub underline: bool,
    pub line_through: bool,
    /// Index into the paragraph's URI table.
    pub link: Option<u16>,
}

impl RunDecoration {
    /// No underline, no line-through, no link.
    pub fn none() -> (decoration: RunDecoration)
        ensures
            !decoration.underline,
            !decoration.line_through,
            decoration.link is None,
    {
        RunDecoration { underline: false, line_through: false, link: None }
    }
}

#[derive(Clone, Copy, Debug, PartialEq, Eq, Structural)]
pub enum RenderError {
    InvalidPoint,
    InvalidPage,
    InvalidFontSize,
    UnsupportedCharacter(char),
    TextTooWide,
    PageOverflow,
    InvalidLayout,
    MissingGlyph(char),
    DocumentTooLarge,
    TableRowOverflow(usize),
}

} // verus!
