//! Conversions between bytes and text that the standard library performs.
use vstd::prelude::*;
use vstd::utf8::{decode_utf8, valid_utf8};

verus! {

/// Decimal digits of `n`, most significant first.
pub open spec fn decimal(n: nat) -> Seq<char>
    decreases n,
{
    let d = (('0' as u32) + (n % 10) as u32) as char;
    if n < 10 {
        seq![d]
    } else {
        decimal(n / 10).push(d)
    }
}

/// The text `String::from_utf8_lossy` makes of the bytes: valid sequences
/// decoded, invalid ones replaced by U+FFFD.
pub uninterp spec fn lossy_text(bytes: Seq<u8>) -> Seq<char>;

/// The UTF-16 code units of one character: itself below U+10000, a
/// surrogate pair above.
pub open spec fn utf16_char(c: char) -> Seq<u16> {
    let v = c as u32;
    if v < 0x10000 {
        seq![v as u16]
    } else {
        let w = (v - 0x10000) as u32;
        seq![(0xD800 + w / 1024) as u16, (0xDC00 + w % 1024) as u16]
    }
}

/// The UTF-16 code units that encode some characters.
pub open spec fn utf16_encoding(chars: Seq<char>) -> Seq<u16>
    decreases chars.len(),
{
    if chars.len() == 0 {
        Seq::empty()
    } else {
        utf16_char(chars[0]) + utf16_encoding(chars.drop_first())
    }
}

/// The code units are the UTF-16 encoding of some characters: no
/// surrogate stands alone.
#[verifier::opaque]
pub open spec fn well_formed_utf16(units: Seq<u16>) -> bool {
    exists|c: Seq<char>| utf16_encoding(c) == units
}

/// `std::str::from_utf8`, with an empty string in place of an error: the
/// standard library documents that it succeeds exactly on valid UTF-8, and
/// then holds the decoded characters.
#[verifier::external_body]
pub(crate) fn utf8_or_empty(bytes: &[u8]) -> (s: String)
    ensures
        valid_utf8(bytes@) ==> s@ == decode_utf8(bytes@),
        !valid_utf8(bytes@) ==> s@ == Seq::<char>::empty(),
{
    std::str::from_utf8(bytes).unwrap_or("").to_string()
}

/// `String::from_utf8_lossy`: valid UTF-8 is decoded as it is; where the
/// bytes are not valid UTF-8, the standard library puts replacement
/// characters, which this contract does not describe.
#[verifier::external_body]
pub(crate) fn utf8_lossy(bytes: &[u8]) -> (s: String)
    ensures
        s@ == lossy_text(bytes@),
        valid_utf8(bytes@) ==> s@ == decode_utf8(bytes@),
{
    String::from_utf8_lossy(bytes).into_owned()
}

/// `String::from_utf16`, with an empty string in place of an error: the
/// standard library documents that it fails exactly on code units that
/// hold invalid data (a lone surrogate), and otherwise returns the text
/// whose UTF-16 encoding they are.
#[verifier::external_body]
pub(crate) fn utf16_or_empty(units: &[u16]) -> (s: String)
    ensures
        well_formed_utf16(units@) ==> utf16_encoding(s@) == units@,
        !well_formed_utf16(units@) ==> s@ == Seq::<char>::empty(),
{
    String::from_utf16(units).unwrap_or_default()
}

/// `str::encode_utf16`, collected: the standard library yields each
/// character's UTF-16 code units in order.
#[verifier::external_body]
pub(crate) fn utf16_units(s: &str) -> (units: Vec<u16>)
    ensures
        units@ == utf16_encoding(s@),
{
    s.encode_utf16().collect()
}

/// `u64::to_string`: the standard library writes an unsigned integer in
/// decimal without leading zeros.
#[verifier::external_body]
pub(crate) fn decimal_text(n: u64) -> (s: String)
    ensures
        s@ == decimal(n as nat),
{
    n.to_string()
}

/// `format!("{:08X}", v)`: eight upper-case hexadecimal digits,
/// zero-padded.
#[verifier::external_body]
pub(crate) fn hex8_text(v: u32) -> (s: String)
    ensures
        s@ == hex8(v),
{
    format!("{:08X}", v)
}

/// The text `text` followed by the decimal digits of `n`.
pub fn with_decimal(text: &str, n: u64) -> (s: String)
    ensures
        s@ == text@ + decimal(n as nat),
{
    let mut s = text.to_owned();
    let d = decimal_text(n);
    push_text(&mut s, d.as_str());
    s
}

/// The name of a glyph by its index: `glyph` and the index in decimal.
pub fn glyph_index_name(index: u16) -> (s: String)
    ensures
        s@ == seq!['g', 'l', 'y', 'p', 'h'] + decimal(index as nat),
{
    proof {
        reveal_strlit("glyph");
    }
    with_decimal("glyph", index as u64)
}

/// The message for a palette that runs past the color records.
pub fn palette_index_message(index: u16) -> (s: String)
    ensures
        s@ == "Palette index "@ + decimal(index as nat) + " exceeds color records"@,
{
    let mut s = with_decimal("Palette index ", index as u64);
    push_text(&mut s, " exceeds color records");
    s
}

/// Character-by-character equality of two strings.
pub fn str_eq(a: &str, b: &str) -> (r: bool)
    ensures
        r == (a@ == b@),
{
    let n = a.unicode_len();
    if n != b.unicode_len() {
        return false;
    }
    let mut i: usize = 0;
    while i < n
        invariant
            n == a@.len(),
            n == b@.len(),
            i <= n,
            forall|k: int| 0 <= k < i ==> a@[k] == b@[k],
        decreases n - i,
    {
        if a.get_char(i) != b.get_char(i) {
            return false;
        }
        i += 1;
    }
    proof {
        assert(a@ =~= b@);
    }
    true
}


/// The hexadecimal digit, upper case, of a value below 16.
pub open spec fn hex_digit(d: int) -> char {
    if d < 10 {
        ((('0' as u32) + d) as u32) as char
    } else {
        ((('A' as u32) + d - 10) as u32) as char
    }
}

/// A 32-bit value as eight upper-case hexadecimal digits.
pub open spec fn hex8(v: u32) -> Seq<char> {
    Seq::new(8, |i: int| hex_digit((v as int / crate::math::pow2((4 * (7 - i)) as nat) as int) % 16))
}

/// `true` or `false`.
pub open spec fn bool_text(b: bool) -> Seq<char> {
    if b {
        seq!['t', 'r', 'u', 'e']
    } else {
        seq!['f', 'a', 'l', 's', 'e']
    }
}

/// `String::push_str`: appends the text.
#[verifier::external_body]
pub(crate) fn push_text(out: &mut String, s: &str)
    ensures
        final(out)@ == old(out)@ + s@,
{
    out.push_str(s)
}

/// The message for a collection whose tag is not `ttcf`.
pub fn ttc_tag_message(tag: u32) -> (s: String)
    ensures
        s@ == "Expected ttcTag 0x74746366, got 0x"@ + hex8(tag),
{
    let mut s = "Expected ttcTag 0x74746366, got 0x".to_owned();
    let h = hex8_text(tag);
    push_text(&mut s, h.as_str());
    s
}

/// The message for a font index past the end of a collection.
pub fn font_index_message(index: usize, count: u32) -> (s: String)
    ensures
        s@ == "Font index "@ + decimal(index as nat) + " out of range ("@ + decimal(count as nat)
            + " fonts)"@,
{
    let mut s = with_decimal("Font index ", index as u64);
    push_text(&mut s, " out of range (");
    let c = decimal_text(count as u64);
    push_text(&mut s, c.as_str());
    push_text(&mut s, " fonts)");
    s
}

/// The message for a file whose signature is not `wOF2`.
pub fn woff2_signature_message(sig: u32) -> (s: String)
    ensures
        s@ == "Expected WOFF2 signature 0x774F4632, got 0x"@ + hex8(sig),
{
    let mut s = "Expected WOFF2 signature 0x774F4632, got 0x".to_owned();
    let h = hex8_text(sig);
    push_text(&mut s, h.as_str());
    s
}

/// `true` or `false`, as `bool`'s `Display` writes it.
pub fn bool_string(b: bool) -> (s: String)
    ensures
        s@ == bool_text(b),
{
    proof {
        reveal_strlit("true");
        reveal_strlit("false");
    }
    if b {
        "true".to_owned()
    } else {
        "false".to_owned()
    }
}

} // verus!
