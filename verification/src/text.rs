//! Character classes: the WinAnsi encoding of the standard fonts, what text a
//! record may carry, and where CJK text may break.

use vstd::prelude::*;
use vstd::std_specs::iter::IteratorSpec;
use vstd::string::StringSliceAdditionalSpecFns;
use vstd::utf8::{
    decode_utf8, encode_scalar, encode_utf8, encode_utf8_decode_utf8, encode_utf8_valid_utf8, has_width_1_encoding,
    has_width_2_encoding, has_width_3_encoding, valid_utf8,
};

use crate::model::RenderError;

verus! {

/// Stands for the current page number inside a header or footer template.
pub const PAGE_NUMBER: char = '\u{1e}';

/// Stands for the total page count inside a header or footer template.
pub const TOTAL_PAGES: char = '\u{1f}';

/// The WinAnsi byte of a character, if the encoding has one: printable ASCII
/// and Latin-1 map to themselves, and 27 typographic characters occupy 0x80..0x9f.
pub open spec fn win_ansi_byte(character: char) -> Option<u8> {
    let code = character as u32;
    if (0x20 <= code <= 0x7e) || (0xa0 <= code <= 0xff) {
        Some(code as u8)
    } else {
        match code {
            0x20ac => Some(128u8),
            0x201a => Some(130u8),
            0x0192 => Some(131u8),
            0x201e => Some(132u8),
            0x2026 => Some(133u8),
            0x2020 => Some(134u8),
            0x2021 => Some(135u8),
            0x02c6 => Some(136u8),
            0x2030 => Some(137u8),
            0x0160 => Some(138u8),
            0x2039 => Some(139u8),
            0x0152 => Some(140u8),
            0x017d => Some(142u8),
            0x2018 => Some(145u8),
            0x2019 => Some(146u8),
            0x201c => Some(147u8),
            0x201d => Some(148u8),
            0x2022 => Some(149u8),
            0x2013 => Some(150u8),
            0x2014 => Some(151u8),
            0x02dc => Some(152u8),
            0x2122 => Some(153u8),
            0x0161 => Some(154u8),
            0x203a => Some(155u8),
            0x0153 => Some(156u8),
            0x017e => Some(158u8),
            0x0178 => Some(159u8),
            _ => None,
        }
    }
}

/// The code point WinAnsiEncoding gives `byte`: printable ASCII and Latin-1
/// stand for themselves, 0x80 to 0x9F hold the typographic extras, and the
/// control bytes, 0x7F, 0x81, 0x8D, 0x8F, 0x90 and 0x9D name nothing.
pub open spec fn win_ansi_char(byte: u8) -> Option<u32> {
    if (0x20 <= byte <= 0x7e) || (0xa0 <= byte <= 0xff) {
        Some(byte as u32)
    } else {
        match byte {
            0x80u8 => Some(0x20acu32),
            0x82u8 => Some(0x201au32),
            0x83u8 => Some(0x0192u32),
            0x84u8 => Some(0x201eu32),
            0x85u8 => Some(0x2026u32),
            0x86u8 => Some(0x2020u32),
            0x87u8 => Some(0x2021u32),
            0x88u8 => Some(0x02c6u32),
            0x89u8 => Some(0x2030u32),
            0x8au8 => Some(0x0160u32),
            0x8bu8 => Some(0x2039u32),
            0x8cu8 => Some(0x0152u32),
            0x8eu8 => Some(0x017du32),
            0x91u8 => Some(0x2018u32),
            0x92u8 => Some(0x2019u32),
            0x93u8 => Some(0x201cu32),
            0x94u8 => Some(0x201du32),
            0x95u8 => Some(0x2022u32),
            0x96u8 => Some(0x2013u32),
            0x97u8 => Some(0x2014u32),
            0x98u8 => Some(0x02dcu32),
            0x99u8 => Some(0x2122u32),
            0x9au8 => Some(0x0161u32),
            0x9bu8 => Some(0x203au32),
            0x9cu8 => Some(0x0153u32),
            0x9eu8 => Some(0x017eu32),
            0x9fu8 => Some(0x0178u32),
            _ => None,
        }
    }
}

/// Encoding is the inverse of the WinAnsiEncoding table: a character encodes
/// to a byte exactly when that byte stands for the character, so no two
/// characters share a byte and every named byte is reachable.
pub proof fn lemma_win_ansi_inverse(character: char, byte: u8)
    ensures
        (win_ansi_byte(character) == Some(byte)) == (win_ansi_char(byte) == Some(character as u32)),
{
}

/// The standard-font encoding: Helvetica has no glyphs beyond it.
pub fn encode(character: char) -> (byte: Result<u8, RenderError>)
    ensures
        match win_ansi_byte(character) {
            Some(code) => byte == Ok::<u8, RenderError>(code),
            None => byte == Err::<u8, RenderError>(RenderError::UnsupportedCharacter(character)),
        },
{
    let code = character as u32;
    if (0x20 <= code && code <= 0x7e) || (0xa0 <= code && code <= 0xff) {
        return Ok(code as u8);
    }
    let byte: u8 = match code {
        0x20ac => 128,
        0x201a => 130,
        0x0192 => 131,
        0x201e => 132,
        0x2026 => 133,
        0x2020 => 134,
        0x2021 => 135,
        0x02c6 => 136,
        0x2030 => 137,
        0x0160 => 138,
        0x2039 => 139,
        0x0152 => 140,
        0x017d => 142,
        0x2018 => 145,
        0x2019 => 146,
        0x201c => 147,
        0x201d => 148,
        0x2022 => 149,
        0x2013 => 150,
        0x2014 => 151,
        0x02dc => 152,
        0x2122 => 153,
        0x0161 => 154,
        0x203a => 155,
        0x0153 => 156,
        0x017e => 158,
        0x0178 => 159,
        _ => return Err(RenderError::UnsupportedCharacter(character)),
    };
    Ok(byte)
}

/// Unicode's control characters (general category Cc).
pub open spec fn is_control(character: char) -> bool {
    let code = character as u32;
    code <= 0x1f || (0x7f <= code <= 0x9f)
}

/// Space, tab, line feed, form feed and carriage return.
pub open spec fn is_ascii_whitespace(character: char) -> bool {
    let code = character as u32;
    code == 0x20 || code == 0x09 || code == 0x0a || code == 0x0c || code == 0x0d
}

/// A character a text record may hold: anything but a control character,
/// except the whitespace body text splits words at, or in a footer the page tokens.
pub open spec fn allowed(character: char, footer: bool) -> bool {
    !is_control(character) || if footer {
        character == PAGE_NUMBER || character == TOTAL_PAGES
    } else {
        is_ascii_whitespace(character)
    }
}

pub open spec fn all_allowed(text: Seq<char>, footer: bool) -> bool {
    forall|index: int| 0 <= index < text.len() ==> allowed(#[trigger] text[index], footer)
}

fn allowed_character(character: char, footer: bool) -> (ok: bool)
    ensures
        ok == allowed(character, footer),
{
    let code = character as u32;
    let control = code <= 0x1f || (0x7f <= code && code <= 0x9f);
    !control || if footer {
        character == PAGE_NUMBER || character == TOTAL_PAGES
    } else {
        code == 0x20 || code == 0x09 || code == 0x0a || code == 0x0c || code == 0x0d
    }
}

/// Control characters never render; body text may hold the ASCII whitespace
/// word splitting consumes, a footer only the page sentinels. Whether a
/// printable character has a glyph is the font's decision at layout.
pub fn valid(text: &str, footer: bool) -> (ok: bool)
    ensures
        ok == all_allowed(text@, footer),
{
    for character in it: text.chars()
        invariant
            it.seq() == text@,
            forall|index: int| 0 <= index < it.index() ==> allowed(#[trigger] it.seq()[index], footer),
    {
        if !allowed_character(character, footer) {
            assert(!allowed(text@[it.index() as int], footer));
            return false;
        }
    }
    true
}

/// A character Helvetica can set: one with a WinAnsi byte, or the ASCII
/// whitespace that word splitting turns into a space.
pub open spec fn standard_encodable(character: char) -> bool {
    is_ascii_whitespace(character) || win_ansi_byte(character) is Some
}

pub open spec fn all_standard_encodable(text: Seq<char>) -> bool {
    forall|index: int| 0 <= index < text.len() ==> standard_encodable(#[trigger] text[index])
}

/// Whether the built-in Helvetica fonts can set every character of `text`.
pub fn standard_text(text: &str) -> (ok: bool)
    ensures
        ok == all_standard_encodable(text@),
{
    for character in it: text.chars()
        invariant
            it.seq() == text@,
            forall|index: int| 0 <= index < it.index() ==> standard_encodable(#[trigger] it.seq()[index]),
    {
        let code = character as u32;
        let whitespace = code == 0x20 || code == 0x09 || code == 0x0a || code == 0x0c || code == 0x0d;
        if !whitespace && encode(character).is_err() {
            assert(!standard_encodable(text@[it.index() as int]));
            return false;
        }
    }
    true
}

/// CJK code points a line may break before and after: the ideographic space
/// and CJK punctuation, kana, Hangul syllables, the unified ideographs with
/// their extensions, compatibility ideographs and the full-width forms.
pub open spec fn is_ideograph(code: u32) -> bool {
    ||| 0x3000 <= code <= 0x30ff
    ||| 0x3400 <= code <= 0x4dbf
    ||| 0x4e00 <= code <= 0x9fff
    ||| 0xac00 <= code <= 0xd7af
    ||| 0xf900 <= code <= 0xfaff
    ||| 0xff00 <= code <= 0xffef
    ||| 0x20000 <= code <= 0x3134f
}

/// A line may break before and after these: CJK scripts do not separate words
/// with spaces.
pub fn ideograph(character: char) -> (breaks: bool)
    ensures
        breaks == is_ideograph(character as u32),
{
    let code = character as u32;
    (0x3000 <= code && code <= 0x30ff) || (0x3400 <= code && code <= 0x4dbf) || (0x4e00 <= code
        && code <= 0x9fff) || (0xac00 <= code && code <= 0xd7af) || (0xf900 <= code && code
        <= 0xfaff) || (0xff00 <= code && code <= 0xffef) || (0x20000 <= code && code <= 0x3134f)
}

/// A Unicode scalar value: a code point that is not a surrogate.
pub open spec fn is_scalar(code: u32) -> bool {
    code <= 0x10ffff && !(0xd800 <= code <= 0xdfff)
}

/// `char::from_u32`: the character with this code point, when it is a scalar
/// value; the standard library documents `None` for surrogates and codes past U+10FFFF.
#[verifier::external_body]
pub(crate) fn char_from_code(code: u32) -> (character: Option<char>)
    ensures
        character is Some <==> is_scalar(code),
        character matches Some(c) ==> c as u32 == code,
{
    char::from_u32(code)
}

/// Whether every byte is ASCII.
pub open spec fn ascii_bytes(bytes: Seq<u8>) -> bool {
    forall|index: int| 0 <= index < bytes.len() ==> #[trigger] bytes[index] < 0x80
}

/// The characters of ASCII bytes.
pub open spec fn ascii_chars(bytes: Seq<u8>) -> Seq<char> {
    bytes.map_values(|byte: u8| byte as char)
}

/// ASCII bytes are their own UTF-8 encoding.
proof fn lemma_ascii_encoding(bytes: Seq<u8>)
    requires
        ascii_bytes(bytes),
    ensures
        encode_utf8(ascii_chars(bytes)) == bytes,
    decreases bytes.len(),
{
    if bytes.len() > 0 {
        let chars = ascii_chars(bytes);
        let first = bytes[0];
        assert(first < 0x80);
        assert(chars[0] == first as char);
        assert(chars.drop_first() =~= ascii_chars(bytes.drop_first()));
        assert forall|index: int| 0 <= index < bytes.drop_first().len() implies #[trigger] bytes.drop_first()[index] < 0x80 by {
            assert(bytes.drop_first()[index] == bytes[index + 1]);
        }
        lemma_ascii_encoding(bytes.drop_first());
        let code = (first as char) as u32;
        assert(code == first);
        assert(((code & 0x7f) as u8) as u32 == code) by (bit_vector)
            requires
                code <= 0x7f,
        ;
        assert(encode_scalar(code) =~= seq![first]);
        assert(seq![first] + bytes.drop_first() =~= bytes);
    }
}

/// The text of ASCII bytes: one character per byte.
pub(crate) fn ascii_string(bytes: Vec<u8>) -> (text: String)
    requires
        ascii_bytes(bytes@),
    ensures
        text@ == ascii_chars(bytes@),
{
    proof {
        lemma_ascii_encoding(bytes@);
        encode_utf8_valid_utf8(ascii_chars(bytes@));
        encode_utf8_decode_utf8(ascii_chars(bytes@));
    }
    match utf8_string(bytes) {
        Some(text) => text,
        None => String::new(),
    }
}

/// The decimal digits of `value`, most significant first, without leading zeros.
pub open spec fn decimal(value: nat) -> Seq<u8>
    decreases value,
{
    if value < 10 {
        seq![(0x30 + value) as u8]
    } else {
        decimal(value / 10).push((0x30 + value % 10) as u8)
    }
}

pub proof fn lemma_decimal_ascii(value: nat)
    ensures
        ascii_bytes(decimal(value)),
        decimal(value).len() >= 1,
    decreases value,
{
    if value >= 10 {
        lemma_decimal_ascii(value / 10);
    }
}

/// Different numbers have different decimal digits.
pub proof fn lemma_decimal_injective(a: nat, b: nat)
    requires
        decimal(a) == decimal(b),
    ensures
        a == b,
    decreases a,
{
    if a >= 10 {
        lemma_decimal_ascii(a / 10);
        if b < 10 {
            assert(decimal(a).len() >= 2);
            assert(decimal(b).len() == 1);
        } else {
            assert(decimal(a) == decimal(a / 10).push((0x30 + a % 10) as u8));
            assert(decimal(b) == decimal(b / 10).push((0x30 + b % 10) as u8));
            assert(decimal(a).last() == (0x30 + a % 10) as u8);
            assert(decimal(b).last() == (0x30 + b % 10) as u8);
            assert(a % 10 == b % 10);
            assert(decimal(a).drop_last() =~= decimal(a / 10));
            assert(decimal(b).drop_last() =~= decimal(b / 10));
            lemma_decimal_injective(a / 10, b / 10);
            assert(a == (a / 10) * 10 + a % 10);
            assert(b == (b / 10) * 10 + b % 10);
        }
    } else if b >= 10 {
        lemma_decimal_ascii(b / 10);
        assert(decimal(b).len() >= 2);
        assert(decimal(a).len() == 1);
    } else {
        assert(decimal(a)[0] == (0x30 + a) as u8);
        assert(decimal(b)[0] == (0x30 + b) as u8);
        assert(decimal(a)[0] == decimal(b)[0]);
    }
}

/// Appends the decimal digits of `value` to `out`.
pub fn push_decimal(out: &mut Vec<u8>, value: u64)
    ensures
        final(out)@ == old(out)@ + decimal(value as nat),
    decreases value,
{
    if value >= 10 {
        push_decimal(out, value / 10);
    }
    out.push((0x30 + value % 10) as u8);
    proof {
        if value >= 10 {
            assert(decimal(value as nat) == decimal((value / 10) as nat).push((0x30 + value % 10) as u8));
        }
    }
    assert(out@ =~= old(out)@ + decimal(value as nat)) by {
        if value < 10 {
            assert(decimal(value as nat) =~= seq![(0x30 + value) as u8]);
        }
    }
}

/// The decimal digits of `value` as text.
pub open spec fn number(value: nat) -> Seq<char> {
    ascii_chars(decimal(value))
}

/// `value` written in decimal.
pub fn number_text(value: u64) -> (text: String)
    ensures
        text@ == number(value as nat),
{
    let mut digits: Vec<u8> = Vec::new();
    push_decimal(&mut digits, value);
    proof {
        lemma_decimal_ascii(value as nat);
        assert(digits@ =~= decimal(value as nat));
    }
    ascii_string(digits)
}

/// A footer template with its page tokens replaced: `page` for each
/// `PAGE_NUMBER`, `total` for each `TOTAL_PAGES`.
pub open spec fn resolve_tokens(template: Seq<char>, page: Seq<char>, total: Seq<char>) -> Seq<char>
    decreases template.len(),
{
    if template.len() == 0 {
        seq![]
    } else {
        (if template[0] == PAGE_NUMBER {
            page
        } else if template[0] == TOTAL_PAGES {
            total
        } else {
            seq![template[0]]
        }) + resolve_tokens(template.drop_first(), page, total)
    }
}

/// The same replacement on UTF-8 bytes: each token is one byte of its own.
spec fn resolve_bytes(bytes: Seq<u8>, page: Seq<u8>, total: Seq<u8>) -> Seq<u8>
    decreases bytes.len(),
{
    if bytes.len() == 0 {
        seq![]
    } else {
        token_bytes(bytes[0], page, total) + resolve_bytes(bytes.drop_first(), page, total)
    }
}

spec fn token_bytes(byte: u8, page: Seq<u8>, total: Seq<u8>) -> Seq<u8> {
    if byte == 0x1e {
        page
    } else if byte == 0x1f {
        total
    } else {
        seq![byte]
    }
}

proof fn lemma_resolve_bytes_concat(a: Seq<u8>, b: Seq<u8>, page: Seq<u8>, total: Seq<u8>)
    ensures
        resolve_bytes(a + b, page, total) == resolve_bytes(a, page, total) + resolve_bytes(b, page, total),
    decreases a.len(),
{
    if a.len() == 0 {
        assert(a + b =~= b);
    } else {
        assert((a + b)[0] == a[0]);
        assert((a + b).drop_first() =~= a.drop_first() + b);
        lemma_resolve_bytes_concat(a.drop_first(), b, page, total);
        assert(token_bytes(a[0], page, total) + (resolve_bytes(a.drop_first(), page, total) + resolve_bytes(b, page, total))
            =~= (token_bytes(a[0], page, total) + resolve_bytes(a.drop_first(), page, total)) + resolve_bytes(b, page, total));
    }
}

proof fn lemma_resolve_bytes_push(bytes: Seq<u8>, byte: u8, page: Seq<u8>, total: Seq<u8>)
    ensures
        resolve_bytes(bytes.push(byte), page, total) == resolve_bytes(bytes, page, total) + token_bytes(byte, page, total),
{
    assert(bytes.push(byte) =~= bytes + seq![byte]);
    lemma_resolve_bytes_concat(bytes, seq![byte], page, total);
    assert(seq![byte][0] == byte);
    assert(seq![byte].drop_first() =~= Seq::<u8>::empty());
    assert(resolve_bytes(Seq::<u8>::empty(), page, total) =~= Seq::<u8>::empty());
    assert(resolve_bytes(seq![byte], page, total) == token_bytes(byte, page, total) + resolve_bytes(
        seq![byte].drop_first(),
        page,
        total,
    ));
    assert(token_bytes(byte, page, total) + Seq::<u8>::empty() =~= token_bytes(byte, page, total));
}

/// Bytes with no token byte come through unchanged.
proof fn lemma_resolve_plain(bytes: Seq<u8>, page: Seq<u8>, total: Seq<u8>)
    requires
        forall|index: int| 0 <= index < bytes.len() ==> #[trigger] bytes[index] >= 0x80,
    ensures
        resolve_bytes(bytes, page, total) == bytes,
    decreases bytes.len(),
{
    if bytes.len() > 0 {
        assert(bytes[0] >= 0x80);
        lemma_resolve_plain(bytes.drop_first(), page, total);
        assert(seq![bytes[0]] + bytes.drop_first() =~= bytes);
    }
}

proof fn lemma_encode_concat(a: Seq<char>, b: Seq<char>)
    ensures
        encode_utf8(a + b) == encode_utf8(a) + encode_utf8(b),
    decreases a.len(),
{
    if a.len() == 0 {
        assert(a + b =~= b);
    } else {
        assert((a + b)[0] == a[0]);
        assert((a + b).drop_first() =~= a.drop_first() + b);
        lemma_encode_concat(a.drop_first(), b);
        assert(encode_scalar(a[0] as u32) + (encode_utf8(a.drop_first()) + encode_utf8(b)) =~= (encode_scalar(
            a[0] as u32,
        ) + encode_utf8(a.drop_first())) + encode_utf8(b));
    }
}

/// A character's UTF-8 bytes with the tokens replaced are the bytes of its replacement.
proof fn lemma_resolve_scalar(character: char, page: Seq<char>, total: Seq<char>)
    ensures
        resolve_bytes(encode_scalar(character as u32), encode_utf8(page), encode_utf8(total)) == encode_utf8(
            if character == PAGE_NUMBER {
                page
            } else if character == TOTAL_PAGES {
                total
            } else {
                seq![character]
            },
        ),
{
    let code = character as u32;
    let (p, t) = (encode_utf8(page), encode_utf8(total));
    let single = seq![character];
    assert(single[0] == character);
    assert(single.drop_first() =~= Seq::<char>::empty());
    assert(encode_utf8(Seq::<char>::empty()) =~= Seq::<u8>::empty());
    assert(encode_utf8(single) =~= encode_scalar(code) + encode_utf8(single.drop_first()));
    assert(encode_utf8(single) =~= encode_scalar(code));
    if has_width_1_encoding(code) {
        let byte = (code & 0x7f) as u8;
        assert(((code & 0x7f) as u8) as u32 == code) by (bit_vector)
            requires
                code <= 0x7f,
        ;
        assert(encode_scalar(code) =~= seq![byte]);
        lemma_resolve_bytes_push(Seq::<u8>::empty(), byte, p, t);
        assert(Seq::<u8>::empty().push(byte) =~= seq![byte]);
        assert(Seq::<u8>::empty() + token_bytes(byte, p, t) =~= token_bytes(byte, p, t));
    } else {
        let encoded = encode_scalar(code);
        assert forall|index: int| 0 <= index < encoded.len() implies #[trigger] encoded[index] >= 0x80 by {
            assert(0xC0u8 | ((code >> 6) & 0x1F) as u8 >= 0x80) by (bit_vector);
            assert(0xE0u8 | ((code >> 12) & 0x0F) as u8 >= 0x80) by (bit_vector);
            assert(0xF0u8 | ((code >> 18) & 0x7) as u8 >= 0x80) by (bit_vector);
            assert(0x80u8 | (code & 0x3F) as u8 >= 0x80) by (bit_vector);
            assert(0x80u8 | ((code >> 6) & 0x3F) as u8 >= 0x80) by (bit_vector);
            assert(0x80u8 | ((code >> 12) & 0x3F) as u8 >= 0x80) by (bit_vector);
        }
        lemma_resolve_plain(encoded, p, t);
    }
}

/// Replacing tokens in the UTF-8 bytes of a template gives the UTF-8 bytes
/// of the template with its tokens replaced.
proof fn lemma_resolve_encoded(template: Seq<char>, page: Seq<char>, total: Seq<char>)
    ensures
        resolve_bytes(encode_utf8(template), encode_utf8(page), encode_utf8(total)) == encode_utf8(
            resolve_tokens(template, page, total),
        ),
    decreases template.len(),
{
    if template.len() > 0 {
        let rest = template.drop_first();
        let first = if template[0] == PAGE_NUMBER {
            page
        } else if template[0] == TOTAL_PAGES {
            total
        } else {
            seq![template[0]]
        };
        lemma_resolve_encoded(rest, page, total);
        lemma_resolve_scalar(template[0], page, total);
        lemma_resolve_bytes_concat(encode_scalar(template[0] as u32), encode_utf8(rest), encode_utf8(page), encode_utf8(total));
        lemma_encode_concat(first, resolve_tokens(rest, page, total));
    }
}

/// `String::from_utf8`, its error reduced to `None`: the text of valid
/// UTF-8 bytes, and nothing for any other bytes.
#[verifier::external_body]
fn utf8_string(bytes: Vec<u8>) -> (text: Option<String>)
    ensures
        match text {
            Some(text) => valid_utf8(bytes@) && text@ == decode_utf8(bytes@),
            None => !valid_utf8(bytes@),
        },
{
    String::from_utf8(bytes).ok()
}

/// `template` with `page` in place of each page-number token and `total` in
/// place of each page-count token.
pub fn resolve_footer(template: &str, page: &str, total: &str) -> (text: String)
    ensures
        text@ == resolve_tokens(template@, page@, total@),
{
    let bytes = template.as_bytes();
    let page_bytes = page.as_bytes();
    let total_bytes = total.as_bytes();
    let mut out: Vec<u8> = Vec::new();
    let mut index: usize = 0;
    assert(bytes@.take(0) =~= Seq::<u8>::empty());
    while index < bytes.len()
        invariant
            index <= bytes@.len(),
            out@ == resolve_bytes(bytes@.take(index as int), page_bytes@, total_bytes@),
        decreases bytes@.len() - index,
    {
        let byte = bytes[index];
        proof {
            assert(bytes@.take(index + 1) =~= bytes@.take(index as int).push(byte));
            lemma_resolve_bytes_push(bytes@.take(index as int), byte, page_bytes@, total_bytes@);
        }
        if byte == 0x1e {
            crate::image::append_bytes(&mut out, page_bytes);
        } else if byte == 0x1f {
            crate::image::append_bytes(&mut out, total_bytes);
        } else {
            out.push(byte);
        }
        index += 1;
    }
    proof {
        assert(bytes@.take(bytes@.len() as int) =~= bytes@);
        lemma_resolve_encoded(template@, page@, total@);
        encode_utf8_valid_utf8(resolve_tokens(template@, page@, total@));
        encode_utf8_decode_utf8(resolve_tokens(template@, page@, total@));
    }
    match utf8_string(out) {
        Some(text) => text,
        None => String::new(),
    }
}

/// A footer's text on page `page` of `total`: the tokens become the numbers
/// in decimal.
pub fn footer_text(template: &str, page: u64, total: u64) -> (text: String)
    ensures
        text@ == resolve_tokens(template@, number(page as nat), number(total as nat)),
{
    let page_text = number_text(page);
    let total_text = number_text(total);
    resolve_footer(template, page_text.as_str(), total_text.as_str())
}

} // verus!
