use flashpdf_core::{Fraction, Page, Percent, Pt, RenderError};

fn pt(value: f32) -> Pt {
    Pt::new(value.to_bits()).unwrap()
}

#[test]
fn standard_pages_have_their_sizes_and_half_inch_margins() {
    let a4 = Page::a4();
    assert_eq!((a4.width, a4.height, a4.margin), (pt(595.0), pt(842.0), pt(36.0)));
    let letter = Page::letter();
    assert_eq!((letter.width, letter.height, letter.margin), (pt(612.0), pt(792.0), pt(36.0)));
    assert_eq!(Page::new(a4.width, a4.height, a4.margin), Ok(a4));
}

#[test]
fn a_page_needs_room_inside_its_margins_on_both_axes() {
    assert_eq!(Page::new(pt(120.0), pt(60.0), pt(30.0)), Err(RenderError::InvalidPage));
    assert_eq!(Page::new(pt(120.0), pt(60.0), pt(29.5)).map(|page| page.margin), Ok(pt(29.5)));
    assert_eq!(Page::new(pt(60.0), pt(120.0), pt(30.0)), Err(RenderError::InvalidPage));
    assert_eq!(Page::new(pt(f32::MAX), pt(f32::MAX), pt(f32::MAX / 2.0)), Err(RenderError::InvalidPage));
    assert!(Page::new(pt(f32::MAX), pt(f32::MAX), pt(f32::MAX / 4.0)).is_ok());
}

#[test]
fn lengths_are_finite_and_not_below_zero() {
    assert_eq!(Pt::new(f32::NAN.to_bits()), Err(RenderError::InvalidPoint));
    assert_eq!(Pt::new(f32::INFINITY.to_bits()), Err(RenderError::InvalidPoint));
    assert_eq!(Pt::new((-1.0f32).to_bits()), Err(RenderError::InvalidPoint));
    assert_eq!(Pt::new((-0.0f32).to_bits()).map(Pt::bits), Ok(0x8000_0000));
    assert_eq!(Pt::zero().bits(), 0);
    assert_eq!(Fraction::new(0.0f32.to_bits()), Err(RenderError::InvalidLayout));
    assert_eq!(Fraction::new(2.5f32.to_bits()).map(Fraction::bits), Ok(2.5f32.to_bits()));
    assert_eq!(Percent::new((-5.0f32).to_bits()), Err(RenderError::InvalidLayout));
    assert_eq!(Percent::new(50.0f32.to_bits()).map(Percent::bits), Ok(50.0f32.to_bits()));
}
