//! Character encoding utilities for legacy single-byte encodings: lookup
//! tables between character codes, Unicode code points and glyph names for
//! Unicode, ASCII, Latin-1, Windows-1252 and Mac Roman.
use std::collections::HashMap;
use vstd::prelude::*;
use crate::text::{push_text, str_eq};

verus! {

/// Supported character encoding kinds.
#[derive(Debug, Clone, Copy, PartialEq, Eq, Structural)]
pub enum EncodingType {
    Unicode,
    Ascii,
    Latin1,
    Windows1252,
    MacRoman,
    Custom,
}

/// A single character mapping entry.
#[derive(Debug, Clone)]
pub struct CharMapping {
    /// Unicode code point.
    pub unicode: u32,
    /// PostScript-style glyph name (e.g. "A", "space", "uni0041").
    pub glyph_name: String,
    /// Character code in this encoding.
    pub char_code: u32,
}

/// A named table of character mappings for one encoding.
#[derive(Debug, Clone)]
pub struct EncodingTable {
    pub encoding_type: EncodingType,
    pub name: String,
    pub mappings: HashMap<u32, CharMapping>,
    /// Reverse lookup from Unicode code point to character code.
    pub unicode_to_char: HashMap<u32, u32>,
}

/// Registry of encoding tables with convenience converters. Table names
/// are distinct.
pub struct EncodingManager {
    tables: Vec<EncodingTable>,
    default_encoding: String,
}

pub open spec fn win1252(c: u8) -> u32 {
    if c == 0x80 {
        0x20AC
    } else if c == 0x82 {
        0x201A
    } else if c == 0x83 {
        0x0192
    } else if c == 0x84 {
        0x201E
    } else if c == 0x85 {
        0x2026
    } else if c == 0x86 {
        0x2020
    } else if c == 0x87 {
        0x2021
    } else if c == 0x88 {
        0x02C6
    } else if c == 0x89 {
        0x2030
    } else if c == 0x8A {
        0x0160
    } else if c == 0x8B {
        0x2039
    } else if c == 0x8C {
        0x0152
    } else if c == 0x8E {
        0x017D
    } else if c == 0x91 {
        0x2018
    } else if c == 0x92 {
        0x2019
    } else if c == 0x93 {
        0x201C
    } else if c == 0x94 {
        0x201D
    } else if c == 0x95 {
        0x2022
    } else if c == 0x96 {
        0x2013
    } else if c == 0x97 {
        0x2014
    } else if c == 0x98 {
        0x02DC
    } else if c == 0x99 {
        0x2122
    } else if c == 0x9A {
        0x0161
    } else if c == 0x9B {
        0x203A
    } else if c == 0x9C {
        0x0153
    } else if c == 0x9E {
        0x017E
    } else if c == 0x9F {
        0x0178
    } else {
        c as u32
    }
}

/// The Mac OS Roman table: ASCII below 0x80, the Apple mapping above.
pub open spec fn mac_roman(c: u8) -> u32 {
    if c < 0x80 {
        c as u32
    } else if c == 0x80 {
        0x00C4
    } else if c == 0x81 {
        0x00C5
    } else if c == 0x82 {
        0x00C7
    } else if c == 0x83 {
        0x00C9
    } else if c == 0x84 {
        0x00D1
    } else if c == 0x85 {
        0x00D6
    } else if c == 0x86 {
        0x00DC
    } else if c == 0x87 {
        0x00E1
    } else if c == 0x88 {
        0x00E0
    } else if c == 0x89 {
        0x00E2
    } else if c == 0x8A {
        0x00E4
    } else if c == 0x8B {
        0x00E3
    } else if c == 0x8C {
        0x00E5
    } else if c == 0x8D {
        0x00E7
    } else if c == 0x8E {
        0x00E9
    } else if c == 0x8F {
        0x00E8
    } else if c == 0x90 {
        0x00EA
    } else if c == 0x91 {
        0x00EB
    } else if c == 0x92 {
        0x00ED
    } else if c == 0x93 {
        0x00EC
    } else if c == 0x94 {
        0x00EE
    } else if c == 0x95 {
        0x00EF
    } else if c == 0x96 {
        0x00F1
    } else if c == 0x97 {
        0x00F3
    } else if c == 0x98 {
        0x00F2
    } else if c == 0x99 {
        0x00F4
    } else if c == 0x9A {
        0x00F6
    } else if c == 0x9B {
        0x00F5
    } else if c == 0x9C {
        0x00FA
    } else if c == 0x9D {
        0x00F9
    } else if c == 0x9E {
        0x00FB
    } else if c == 0x9F {
        0x00FC
    } else if c == 0xA0 {
        0x2020
    } else if c == 0xA1 {
        0x00B0
    } else if c == 0xA2 {
        0x00A2
    } else if c == 0xA3 {
        0x00A3
    } else if c == 0xA4 {
        0x00A7
    } else if c == 0xA5 {
        0x2022
    } else if c == 0xA6 {
        0x00B6
    } else if c == 0xA7 {
        0x00DF
    } else if c == 0xA8 {
        0x00AE
    } else if c == 0xA9 {
        0x00A9
    } else if c == 0xAA {
        0x2122
    } else if c == 0xAB {
        0x00B4
    } else if c == 0xAC {
        0x00A8
    } else if c == 0xAD {
        0x2260
    } else if c == 0xAE {
        0x00C6
    } else if c == 0xAF {
        0x00D8
    } else if c == 0xB0 {
        0x221E
    } else if c == 0xB1 {
        0x00B1
    } else if c == 0xB2 {
        0x2264
    } else if c == 0xB3 {
        0x2265
    } else if c == 0xB4 {
        0x00A5
    } else if c == 0xB5 {
        0x00B5
    } else if c == 0xB6 {
        0x2202
    } else if c == 0xB7 {
        0x2211
    } else if c == 0xB8 {
        0x220F
    } else if c == 0xB9 {
        0x03C0
    } else if c == 0xBA {
        0x222B
    } else if c == 0xBB {
        0x00AA
    } else if c == 0xBC {
        0x00BA
    } else if c == 0xBD {
        0x03A9
    } else if c == 0xBE {
        0x00E6
    } else if c == 0xBF {
        0x00F8
    } else if c == 0xC0 {
        0x00BF
    } else if c == 0xC1 {
        0x00A1
    } else if c == 0xC2 {
        0x00AC
    } else if c == 0xC3 {
        0x221A
    } else if c == 0xC4 {
        0x0192
    } else if c == 0xC5 {
        0x2248
    } else if c == 0xC6 {
        0x2206
    } else if c == 0xC7 {
        0x00AB
    } else if c == 0xC8 {
        0x00BB
    } else if c == 0xC9 {
        0x2026
    } else if c == 0xCA {
        0x00A0
    } else if c == 0xCB {
        0x00C0
    } else if c == 0xCC {
        0x00C3
    } else if c == 0xCD {
        0x00D5
    } else if c == 0xCE {
        0x0152
    } else if c == 0xCF {
        0x0153
    } else if c == 0xD0 {
        0x2013
    } else if c == 0xD1 {
        0x2014
    } else if c == 0xD2 {
        0x201C
    } else if c == 0xD3 {
        0x201D
    } else if c == 0xD4 {
        0x2018
    } else if c == 0xD5 {
        0x2019
    } else if c == 0xD6 {
        0x00F7
    } else if c == 0xD7 {
        0x25CA
    } else if c == 0xD8 {
        0x00FF
    } else if c == 0xD9 {
        0x0178
    } else if c == 0xDA {
        0x2044
    } else if c == 0xDB {
        0x20AC
    } else if c == 0xDC {
        0x2039
    } else if c == 0xDD {
        0x203A
    } else if c == 0xDE {
        0xFB01
    } else if c == 0xDF {
        0xFB02
    } else if c == 0xE0 {
        0x2021
    } else if c == 0xE1 {
        0x00B7
    } else if c == 0xE2 {
        0x201A
    } else if c == 0xE3 {
        0x201E
    } else if c == 0xE4 {
        0x2030
    } else if c == 0xE5 {
        0x00C2
    } else if c == 0xE6 {
        0x00CA
    } else if c == 0xE7 {
        0x00C1
    } else if c == 0xE8 {
        0x00CB
    } else if c == 0xE9 {
        0x00C8
    } else if c == 0xEA {
        0x00CD
    } else if c == 0xEB {
        0x00CE
    } else if c == 0xEC {
        0x00CF
    } else if c == 0xED {
        0x00CC
    } else if c == 0xEE {
        0x00D3
    } else if c == 0xEF {
        0x00D4
    } else if c == 0xF0 {
        0xF8FF
    } else if c == 0xF1 {
        0x00D2
    } else if c == 0xF2 {
        0x00DA
    } else if c == 0xF3 {
        0x00DB
    } else if c == 0xF4 {
        0x00D9
    } else if c == 0xF5 {
        0x0131
    } else if c == 0xF6 {
        0x02C6
    } else if c == 0xF7 {
        0x02DC
    } else if c == 0xF8 {
        0x00AF
    } else if c == 0xF9 {
        0x02D8
    } else if c == 0xFA {
        0x02D9
    } else if c == 0xFB {
        0x02DA
    } else if c == 0xFC {
        0x00B8
    } else if c == 0xFD {
        0x02DD
    } else if c == 0xFE {
        0x02DB
    } else {
        0x02C7
    }
}

/// The Unicode code point of a byte in an encoding: Unicode, ASCII and
/// Latin-1 (and custom tables) map a byte to itself.
pub open spec fn code_unicode(t: EncodingType, c: u8) -> u32 {
    match t {
        EncodingType::Windows1252 => win1252(c),
        EncodingType::MacRoman => mac_roman(c),
        _ => c as u32,
    }
}

/// ASCII leaves out the bytes past 127.
pub open spec fn code_included(t: EncodingType, c: u8) -> bool {
    !(t == EncodingType::Ascii && code_unicode(t, c) >= 128)
}

pub open spec fn hex_char(d: nat) -> char {
    if d < 10 {
        (('0' as u32) + d) as char
    } else {
        (('A' as u32) + d - 10) as char
    }
}

/// Upper-case hexadecimal digits of `n`, most significant first.
pub open spec fn hex_digits(n: nat) -> Seq<char>
    decreases n,
{
    if n < 16 {
        seq![hex_char(n)]
    } else {
        hex_digits(n / 16).push(hex_char(n % 16))
    }
}

/// Upper-case hexadecimal digits of `n`, zero-padded to at least four.
pub open spec fn hex4(n: nat) -> Seq<char> {
    let d = hex_digits(n);
    if d.len() < 4 {
        Seq::new((4 - d.len()) as nat, |i: int| '0') + d
    } else {
        d
    }
}

pub open spec fn is_ascii_letter(u: u32) -> bool {
    (0x41 <= u <= 0x5A) || (0x61 <= u <= 0x7A)
}

/// The PostScript glyph name of a code point: a name for the ASCII
/// punctuation from space to slash, `zero` to `nine` for the digits, the
/// letter itself for ASCII letters, `uniXXXX` otherwise.
pub open spec fn glyph_name_of(u: u32) -> Seq<char> {
    if u == 0x20 {
        "space"@
    } else if u == 0x21 {
        "exclam"@
    } else if u == 0x22 {
        "quotedbl"@
    } else if u == 0x23 {
        "numbersign"@
    } else if u == 0x24 {
        "dollar"@
    } else if u == 0x25 {
        "percent"@
    } else if u == 0x26 {
        "ampersand"@
    } else if u == 0x27 {
        "quotesingle"@
    } else if u == 0x28 {
        "parenleft"@
    } else if u == 0x29 {
        "parenright"@
    } else if u == 0x2A {
        "asterisk"@
    } else if u == 0x2B {
        "plus"@
    } else if u == 0x2C {
        "comma"@
    } else if u == 0x2D {
        "hyphen"@
    } else if u == 0x2E {
        "period"@
    } else if u == 0x2F {
        "slash"@
    } else if u == 0x30 {
        "zero"@
    } else if u == 0x31 {
        "one"@
    } else if u == 0x32 {
        "two"@
    } else if u == 0x33 {
        "three"@
    } else if u == 0x34 {
        "four"@
    } else if u == 0x35 {
        "five"@
    } else if u == 0x36 {
        "six"@
    } else if u == 0x37 {
        "seven"@
    } else if u == 0x38 {
        "eight"@
    } else if u == 0x39 {
        "nine"@
    } else if is_ascii_letter(u) {
        seq![u as char]
    } else {
        "uni"@ + hex4(u as nat)
    }
}

/// The reverse map after the codes below `k` were entered in order: a
/// later code with the same code point replaces an earlier one.
pub open spec fn reverse_map(t: EncodingType, k: int) -> Map<u32, u32>
    decreases k,
{
    if k <= 0 {
        Map::empty()
    } else {
        let c = (k - 1) as u8;
        if code_included(t, c) {
            reverse_map(t, k - 1).insert(code_unicode(t, c), (k - 1) as u32)
        } else {
            reverse_map(t, k - 1)
        }
    }
}

/// `tbl` is the table of encoding `t` named `name`: one mapping per
/// included byte, with its code point and glyph name, and the reverse map.
pub open spec fn table_built(tbl: EncodingTable, t: EncodingType, name: Seq<char>) -> bool {
    &&& tbl.encoding_type == t
    &&& tbl.name@ == name
    &&& forall|c: u32|
        #[trigger] tbl.mappings@.contains_key(c) <==> (c < 256 && code_included(t, c as u8))
    &&& forall|c: u32|
        c < 256 && code_included(t, c as u8) ==> {
            let m = #[trigger] tbl.mappings@[c];
            &&& m.unicode == code_unicode(t, c as u8)
            &&& m.glyph_name@ == glyph_name_of(m.unicode)
            &&& m.char_code == c
        }
    &&& tbl.unicode_to_char@ == reverse_map(t, 256)
}

/// The first table of the list with the given name.
pub open spec fn find_table(tables: Seq<EncodingTable>, name: Seq<char>) -> Option<EncodingTable>
    decreases tables.len(),
{
    if tables.len() == 0 {
        None
    } else if tables[0].name@ == name {
        Some(tables[0])
    } else {
        find_table(tables.drop_first(), name)
    }
}

pub open spec fn names_distinct(tables: Seq<EncodingTable>) -> bool {
    forall|i: int, j: int|
        0 <= i < j < tables.len() ==> (#[trigger] tables[i]).name@ != (#[trigger] tables[j]).name@
}

/// `format!("{:04X}", u)`: upper-case hexadecimal, zero-padded to four
/// digits.
#[verifier::external_body]
fn hex4_text(u: u32) -> (s: String)
    ensures
        s@ == hex4(u as nat),
{
    format!("{:04X}", u)
}

/// `uni` and the code point in hexadecimal.
fn uni_name(u: u32) -> (s: String)
    ensures
        s@ == "uni"@ + hex4(u as nat),
{
    let mut s = "uni".to_owned();
    let h = hex4_text(u);
    push_text(&mut s, h.as_str());
    s
}

/// `char::to_string`: a string of the one character.
#[verifier::external_body]
fn char_string(c: char) -> (s: String)
    ensures
        s@ == seq![c],
{
    c.to_string()
}

fn code_to_unicode(t: EncodingType, code: u8) -> (u: u32)
    ensures
        u == code_unicode(t, code),
{
    match t {
        EncodingType::Windows1252 => EncodingManager::windows1252_to_unicode(code),
        EncodingType::MacRoman => EncodingManager::macroman_to_unicode(code),
        _ => code as u32,
    }
}

impl EncodingManager {
    #[verifier::type_invariant]
    spec fn distinct_names(self) -> bool {
        names_distinct(self.tables@)
    }

    /// The registered table with this name.
    pub closed spec fn table(self, name: Seq<char>) -> Option<EncodingTable> {
        find_table(self.tables@, name)
    }

    /// The registered names, in registration order.
    pub closed spec fn names(self) -> Seq<Seq<char>> {
        Seq::new(self.tables@.len(), |i: int| self.tables@[i].name@)
    }

    pub closed spec fn default_name(self) -> Seq<char> {
        self.default_encoding@
    }

    /// A name has a table exactly when it is registered, and the table
    /// registered under a name carries that name.
    pub open spec fn names_match(self) -> bool {
        forall|n: Seq<char>|
            (#[trigger] self.table(n) is Some <==> self.names().contains(n)) && (self.table(
                n,
            ) matches Some(t) ==> t.name@ == n)
    }

    /// Every manager's tables and names agree: a name has a table exactly
    /// when it is registered, and that table carries the name.
    pub proof fn lemma_names_match(self)
        ensures
            self.names_match(),
    {
        assert forall|n: Seq<char>| #[trigger] self.table(n) is Some <==> self.names().contains(n) by {
            lemma_find_table_names(self.tables@, n);
            if self.names().contains(n) {
                let i = choose|i: int| 0 <= i < self.names().len() && self.names()[i] == n;
                assert(self.tables@[i].name@ == n);
            }
            if self.table(n) is Some {
                let i = choose|i: int|
                    0 <= i < self.tables@.len() && (#[trigger] self.tables@[i]).name@ == n;
                assert(self.names()[i] == n);
            }
        }
        assert forall|n: Seq<char>| #[trigger] self.table(n) matches Some(t) ==> t.name@ == n by {
            lemma_find_table_names(self.tables@, n);
        }
    }

    /// A manager with the standard encodings registered, in this order:
    /// unicode, ascii, latin1, windows1252, macroman; the default is
    /// unicode.
    pub fn new() -> (m: Self)
        ensures
            m.names() == seq!["unicode"@, "ascii"@, "latin1"@, "windows1252"@, "macroman"@],
            m.default_name() == "unicode"@,
            m.names_match(),
            m.table("unicode"@) matches Some(t) && table_built(t, EncodingType::Unicode, "unicode"@),
            m.table("ascii"@) matches Some(t) && table_built(t, EncodingType::Ascii, "ascii"@),
            m.table("latin1"@) matches Some(t) && table_built(t, EncodingType::Latin1, "latin1"@),
            m.table("windows1252"@) matches Some(t) && table_built(
                t,
                EncodingType::Windows1252,
                "windows1252"@,
            ),
            m.table("macroman"@) matches Some(t) && table_built(
                t,
                EncodingType::MacRoman,
                "macroman"@,
            ),
    {
        let unicode = Self::build_table(EncodingType::Unicode, "unicode");
        let ascii = Self::build_table(EncodingType::Ascii, "ascii");
        let latin1 = Self::build_table(EncodingType::Latin1, "latin1");
        let windows1252 = Self::build_table(EncodingType::Windows1252, "windows1252");
        let macroman = Self::build_table(EncodingType::MacRoman, "macroman");
        proof {
            reveal_strlit("unicode");
            reveal_strlit("ascii");
            reveal_strlit("latin1");
            reveal_strlit("windows1252");
            reveal_strlit("macroman");
        }
        let mut tables: Vec<EncodingTable> = Vec::new();
        tables.push(unicode);
        tables.push(ascii);
        tables.push(latin1);
        tables.push(windows1252);
        tables.push(macroman);
        proof {
            let s = tables@;
            let names = seq!["unicode"@, "ascii"@, "latin1"@, "windows1252"@, "macroman"@];
            assert(names[0].len() == 7 && names[1].len() == 5 && names[2].len() == 6
                && names[3].len() == 11 && names[4].len() == 8);
            assert(names[0][0] == 'u' && names[4][0] == 'm');
            assert forall|a: int, b: int| 0 <= a < b < 5 implies names[a] != names[b] by {
                if names[a] == names[b] {
                    assert(names[a].len() == names[b].len());
                    assert(names[a][0] == names[b][0]);
                }
            }
            assert forall|k: int| 0 <= k < 5 implies s[k].name@ == names[k] by {}
            assert(names_distinct(s));
        }
        let m = EncodingManager { tables, default_encoding: "unicode".to_owned() };
        proof {
            assert(m.names() =~= seq!["unicode"@, "ascii"@, "latin1"@, "windows1252"@, "macroman"@]);
            let s = m.tables@;
            lemma_find_at(s, 0);
            lemma_find_at(s, 1);
            lemma_find_at(s, 2);
            lemma_find_at(s, 3);
            lemma_find_at(s, 4);
            m.lemma_names_match();
        }
        m
    }

    fn build_table(encoding_type: EncodingType, name: &str) -> (t: EncodingTable)
        ensures
            table_built(t, encoding_type, name@),
    {
        let mut mappings: HashMap<u32, CharMapping> = HashMap::new();
        let mut unicode_to_char: HashMap<u32, u32> = HashMap::new();
        let mut code: u32 = 0;
        while code <= 255
            invariant
                code <= 256,
                forall|c: u32|
                    #[trigger] mappings@.contains_key(c) <==> (c < code && code_included(
                        encoding_type,
                        c as u8,
                    )),
                forall|c: u32|
                    c < code && code_included(encoding_type, c as u8) ==> {
                        let m = #[trigger] mappings@[c];
                        &&& m.unicode == code_unicode(encoding_type, c as u8)
                        &&& m.glyph_name@ == glyph_name_of(m.unicode)
                        &&& m.char_code == c
                    },
                unicode_to_char@ == reverse_map(encoding_type, code as int),
            decreases 256 - code,
        {
            let unicode = code_to_unicode(encoding_type, code as u8);
            if encoding_type == EncodingType::Ascii && unicode >= 128 {
                code += 1;
                continue;
            }
            let glyph_name = Self::unicode_to_glyph_name(unicode);
            mappings.insert(code, CharMapping { unicode, glyph_name, char_code: code });
            unicode_to_char.insert(unicode, code);
            code += 1;
        }
        EncodingTable { encoding_type, name: name.to_owned(), mappings, unicode_to_char }
    }

    /// The Unicode code point of a Windows-1252 byte.
    pub fn windows1252_to_unicode(code: u8) -> (u: u32)
        ensures
            u == win1252(code),
    {
        match code {
            0x80 => 0x20AC,
            0x82 => 0x201A,
            0x83 => 0x0192,
            0x84 => 0x201E,
            0x85 => 0x2026,
            0x86 => 0x2020,
            0x87 => 0x2021,
            0x88 => 0x02C6,
            0x89 => 0x2030,
            0x8A => 0x0160,
            0x8B => 0x2039,
            0x8C => 0x0152,
            0x8E => 0x017D,
            0x91 => 0x2018,
            0x92 => 0x2019,
            0x93 => 0x201C,
            0x94 => 0x201D,
            0x95 => 0x2022,
            0x96 => 0x2013,
            0x97 => 0x2014,
            0x98 => 0x02DC,
            0x99 => 0x2122,
            0x9A => 0x0161,
            0x9B => 0x203A,
            0x9C => 0x0153,
            0x9E => 0x017E,
            0x9F => 0x0178,
            _ => code as u32,
        }
    }

    /// The Unicode code point of a Mac Roman byte, by the Mac OS Roman
    /// table.
    pub fn macroman_to_unicode(code: u8) -> (u: u32)
        ensures
            u == mac_roman(code),
    {
        match code {
            0x80 => 0x00C4,
            0x81 => 0x00C5,
            0x82 => 0x00C7,
            0x83 => 0x00C9,
            0x84 => 0x00D1,
            0x85 => 0x00D6,
            0x86 => 0x00DC,
            0x87 => 0x00E1,
            0x88 => 0x00E0,
            0x89 => 0x00E2,
            0x8A => 0x00E4,
            0x8B => 0x00E3,
            0x8C => 0x00E5,
            0x8D => 0x00E7,
            0x8E => 0x00E9,
            0x8F => 0x00E8,
            0x90 => 0x00EA,
            0x91 => 0x00EB,
            0x92 => 0x00ED,
            0x93 => 0x00EC,
            0x94 => 0x00EE,
            0x95 => 0x00EF,
            0x96 => 0x00F1,
            0x97 => 0x00F3,
            0x98 => 0x00F2,
            0x99 => 0x00F4,
            0x9A => 0x00F6,
            0x9B => 0x00F5,
            0x9C => 0x00FA,
            0x9D => 0x00F9,
            0x9E => 0x00FB,
            0x9F => 0x00FC,
            0xA0 => 0x2020,
            0xA1 => 0x00B0,
            0xA2 => 0x00A2,
            0xA3 => 0x00A3,
            0xA4 => 0x00A7,
            0xA5 => 0x2022,
            0xA6 => 0x00B6,
            0xA7 => 0x00DF,
            0xA8 => 0x00AE,
            0xA9 => 0x00A9,
            0xAA => 0x2122,
            0xAB => 0x00B4,
            0xAC => 0x00A8,
            0xAD => 0x2260,
            0xAE => 0x00C6,
            0xAF => 0x00D8,
            0xB0 => 0x221E,
            0xB1 => 0x00B1,
            0xB2 => 0x2264,
            0xB3 => 0x2265,
            0xB4 => 0x00A5,
            0xB5 => 0x00B5,
            0xB6 => 0x2202,
            0xB7 => 0x2211,
            0xB8 => 0x220F,
            0xB9 => 0x03C0,
            0xBA => 0x222B,
            0xBB => 0x00AA,
            0xBC => 0x00BA,
            0xBD => 0x03A9,
            0xBE => 0x00E6,
            0xBF => 0x00F8,
            0xC0 => 0x00BF,
            0xC1 => 0x00A1,
            0xC2 => 0x00AC,
            0xC3 => 0x221A,
            0xC4 => 0x0192,
            0xC5 => 0x2248,
            0xC6 => 0x2206,
            0xC7 => 0x00AB,
            0xC8 => 0x00BB,
            0xC9 => 0x2026,
            0xCA => 0x00A0,
            0xCB => 0x00C0,
            0xCC => 0x00C3,
            0xCD => 0x00D5,
            0xCE => 0x0152,
            0xCF => 0x0153,
            0xD0 => 0x2013,
            0xD1 => 0x2014,
            0xD2 => 0x201C,
            0xD3 => 0x201D,
            0xD4 => 0x2018,
            0xD5 => 0x2019,
            0xD6 => 0x00F7,
            0xD7 => 0x25CA,
            0xD8 => 0x00FF,
            0xD9 => 0x0178,
            0xDA => 0x2044,
            0xDB => 0x20AC,
            0xDC => 0x2039,
            0xDD => 0x203A,
            0xDE => 0xFB01,
            0xDF => 0xFB02,
            0xE0 => 0x2021,
            0xE1 => 0x00B7,
            0xE2 => 0x201A,
            0xE3 => 0x201E,
            0xE4 => 0x2030,
            0xE5 => 0x00C2,
            0xE6 => 0x00CA,
            0xE7 => 0x00C1,
            0xE8 => 0x00CB,
            0xE9 => 0x00C8,
            0xEA => 0x00CD,
            0xEB => 0x00CE,
            0xEC => 0x00CF,
            0xED => 0x00CC,
            0xEE => 0x00D3,
            0xEF => 0x00D4,
            0xF0 => 0xF8FF,
            0xF1 => 0x00D2,
            0xF2 => 0x00DA,
            0xF3 => 0x00DB,
            0xF4 => 0x00D9,
            0xF5 => 0x0131,
            0xF6 => 0x02C6,
            0xF7 => 0x02DC,
            0xF8 => 0x00AF,
            0xF9 => 0x02D8,
            0xFA => 0x02D9,
            0xFB => 0x02DA,
            0xFC => 0x00B8,
            0xFD => 0x02DD,
            0xFE => 0x02DB,
            0xFF => 0x02C7,
            _ => code as u32,
        }
    }

    /// The PostScript glyph name of a code point.
    pub fn unicode_to_glyph_name(unicode: u32) -> (s: String)
        ensures
            s@ == glyph_name_of(unicode),
    {
        if unicode == 0x20 {
            "space".to_owned()
        } else if unicode == 0x21 {
            "exclam".to_owned()
        } else if unicode == 0x22 {
            "quotedbl".to_owned()
        } else if unicode == 0x23 {
            "numbersign".to_owned()
        } else if unicode == 0x24 {
            "dollar".to_owned()
        } else if unicode == 0x25 {
            "percent".to_owned()
        } else if unicode == 0x26 {
            "ampersand".to_owned()
        } else if unicode == 0x27 {
            "quotesingle".to_owned()
        } else if unicode == 0x28 {
            "parenleft".to_owned()
        } else if unicode == 0x29 {
            "parenright".to_owned()
        } else if unicode == 0x2A {
            "asterisk".to_owned()
        } else if unicode == 0x2B {
            "plus".to_owned()
        } else if unicode == 0x2C {
            "comma".to_owned()
        } else if unicode == 0x2D {
            "hyphen".to_owned()
        } else if unicode == 0x2E {
            "period".to_owned()
        } else if unicode == 0x2F {
            "slash".to_owned()
        } else if unicode == 0x30 {
            "zero".to_owned()
        } else if unicode == 0x31 {
            "one".to_owned()
        } else if unicode == 0x32 {
            "two".to_owned()
        } else if unicode == 0x33 {
            "three".to_owned()
        } else if unicode == 0x34 {
            "four".to_owned()
        } else if unicode == 0x35 {
            "five".to_owned()
        } else if unicode == 0x36 {
            "six".to_owned()
        } else if unicode == 0x37 {
            "seven".to_owned()
        } else if unicode == 0x38 {
            "eight".to_owned()
        } else if unicode == 0x39 {
            "nine".to_owned()
        } else if (0x41 <= unicode && unicode <= 0x5A) || (0x61 <= unicode && unicode <= 0x7A) {
            char_string((unicode as u8) as char)
        } else {
            uni_name(unicode)
        }
    }

    /// Where the table with this name is registered.
    fn position(&self, name: &str) -> (r: Option<usize>)
        ensures
            match r {
                Some(i) => i < self.tables@.len() && self.tables@[i as int].name@ == name@
                    && forall|k: int| 0 <= k < i ==> self.tables@[k].name@ != name@,
                None => forall|k: int| 0 <= k < self.tables@.len() ==> self.tables@[k].name@ != name@,
            },
    {
        let n = self.tables.len();
        let mut i: usize = 0;
        while i < n
            invariant
                n == self.tables@.len(),
                i <= n,
                forall|k: int| 0 <= k < i ==> self.tables@[k].name@ != name@,
            decreases n - i,
        {
            if str_eq(self.tables[i].name.as_str(), name) {
                return Some(i);
            }
            i += 1;
        }
        None
    }

    /// Registers a table, replacing the one with the same name.
    pub fn add_encoding_table(&mut self, table: EncodingTable)
        ensures
            forall|n: Seq<char>|
                #[trigger] final(self).table(n) == if n == table.name@ {
                    Some(table)
                } else {
                    old(self).table(n)
                },
            final(self).default_name() == old(self).default_name(),
            final(self).names() == if old(self).names().contains(table.name@) {
                old(self).names()
            } else {
                old(self).names().push(table.name@)
            },
            final(self).names_match(),
    {
        proof {
            use_type_invariant(&*self);
        }
        let ghost name = table.name@;
        let ghost old_names = self.names();
        match self.position(table.name.as_str()) {
            Some(i) => {
                let ghost before = self.tables@;
                let mut tables: Vec<EncodingTable> = Vec::new();
                std::mem::swap(&mut tables, &mut self.tables);
                tables.set(i, table);
                proof {
                    lemma_find_after_update(before, i as int, table);
                    assert(names_distinct(tables@)) by {
                        assert forall|a: int, b: int|
                            0 <= a < b < tables@.len() implies (#[trigger] tables@[a]).name@
                            != (#[trigger] tables@[b]).name@ by {
                            assert(before[i as int].name@ == name);
                        }
                    }
                }
                self.tables = tables;
                proof {
                    assert(old_names.contains(name)) by {
                        assert(old_names[i as int] == name);
                    }
                    assert(self.names() =~= old_names);
                    self.lemma_names_match();
                }
            },
            None => {
                let ghost before = self.tables@;
                let mut tables: Vec<EncodingTable> = Vec::new();
                std::mem::swap(&mut tables, &mut self.tables);
                tables.push(table);
                proof {
                    lemma_find_after_push(before, table);
                    assert(names_distinct(tables@)) by {
                        assert forall|a: int, b: int|
                            0 <= a < b < tables@.len() implies (#[trigger] tables@[a]).name@
                            != (#[trigger] tables@[b]).name@ by {
                            if b == before.len() {
                                assert(tables@[a] == before[a]);
                            } else {
                                assert(tables@[a] == before[a]);
                                assert(tables@[b] == before[b]);
                            }
                        }
                    }
                }
                self.tables = tables;
                proof {
                    assert(!old_names.contains(name)) by {
                        if old_names.contains(name) {
                            let k = choose|k: int| 0 <= k < old_names.len() && old_names[k] == name;
                            assert(before[k].name@ == name);
                        }
                    }
                    assert(self.names() =~= old_names.push(name));
                    self.lemma_names_match();
                }
            },
        }
    }

    /// The registered table with this name.
    pub fn get_encoding_table(&self, name: &str) -> (r: Option<&EncodingTable>)
        ensures
            match r {
                Some(t) => self.table(name@) == Some(*t) && t.name@ == name@,
                None => self.table(name@) is None && !self.names().contains(name@),
            },
    {
        proof {
            self.lemma_names_match();
        }
        match self.position(name) {
            Some(i) => {
                proof {
                    lemma_find_at(self.tables@, i as int);
                }
                Some(&self.tables[i])
            },
            None => {
                proof {
                    lemma_find_absent(self.tables@, name@);
                }
                None
            },
        }
    }

    /// The table of the default encoding.
    pub fn get_default_encoding(&self) -> (r: Option<&EncodingTable>)
        ensures
            match r {
                Some(t) => self.table(self.default_name()) == Some(*t),
                None => self.table(self.default_name()) is None,
            },
    {
        self.get_encoding_table(self.default_encoding.as_str())
    }

    /// Makes the named encoding the default, if it is registered.
    pub fn set_default_encoding(&mut self, name: String)
        ensures
            final(self).default_name() == if old(self).table(name@) is Some {
                name@
            } else {
                old(self).default_name()
            },
            forall|n: Seq<char>| #[trigger] final(self).table(n) == old(self).table(n),
            final(self).names() == old(self).names(),
            final(self).names_match(),
    {
        proof {
            use_type_invariant(&*self);
        }
        if self.get_encoding_table(name.as_str()).is_some() {
            self.default_encoding = name;
        }
        proof {
            self.lemma_names_match();
        }
    }

    /// The code point of a character code in the named encoding.
    pub fn char_to_unicode(&self, char_code: u32, encoding_name: &str) -> (r: Option<u32>)
        ensures
            r == match self.table(encoding_name@) {
                Some(t) => if t.mappings@.contains_key(char_code) {
                    Some(t.mappings@[char_code].unicode)
                } else {
                    None
                },
                None => None,
            },
    {
        let table = match self.get_encoding_table(encoding_name) {
            Some(t) => t,
            None => {
                return None;
            },
        };
        match table.mappings.get(&char_code) {
            Some(m) => Some(m.unicode),
            None => None,
        }
    }

    /// The character code of a code point in the named encoding.
    pub fn unicode_to_char(&self, unicode: u32, encoding_name: &str) -> (r: Option<u32>)
        ensures
            r == match self.table(encoding_name@) {
                Some(t) => if t.unicode_to_char@.contains_key(unicode) {
                    Some(t.unicode_to_char@[unicode])
                } else {
                    None
                },
                None => None,
            },
    {
        let table = match self.get_encoding_table(encoding_name) {
            Some(t) => t,
            None => {
                return None;
            },
        };
        match table.unicode_to_char.get(&unicode) {
            Some(c) => Some(*c),
            None => None,
        }
    }

    /// The glyph name that the named encoding gives a code point, through
    /// its character code.
    pub fn get_glyph_name(&self, unicode: u32, encoding_name: &str) -> (r: Option<String>)
        ensures
            match self.table(encoding_name@) {
                Some(t) => if t.unicode_to_char@.contains_key(unicode)
                    && t.mappings@.contains_key(t.unicode_to_char@[unicode]) {
                    r matches Some(s) && s@ == t.mappings@[t.unicode_to_char@[unicode]].glyph_name@
                } else {
                    r is None
                },
                None => r is None,
            },
    {
        let table = match self.get_encoding_table(encoding_name) {
            Some(t) => t,
            None => {
                return None;
            },
        };
        let char_code = match table.unicode_to_char.get(&unicode) {
            Some(c) => *c,
            None => {
                return None;
            },
        };
        match table.mappings.get(&char_code) {
            Some(m) => Some(m.glyph_name.clone()),
            None => None,
        }
    }

    /// The names of all registered encodings, each once.
    pub fn list_encodings(&self) -> (v: Vec<String>)
        ensures
            v@.len() == self.names().len(),
            forall|i: int| 0 <= i < v@.len() ==> (#[trigger] v@[i])@ == self.names()[i],
            forall|i: int, j: int|
                0 <= i < j < v@.len() ==> (#[trigger] v@[i])@ != (#[trigger] v@[j])@,
            forall|n: Seq<char>|
                #[trigger] self.table(n) is Some <==> exists|i: int| 0 <= i < v@.len() && v@[i]@ == n,
    {
        proof {
            self.lemma_names_match();
        }
        proof {
            use_type_invariant(self);
        }
        let n = self.tables.len();
        let mut v: Vec<String> = Vec::new();
        let mut i: usize = 0;
        while i < n
            invariant
                n == self.tables@.len(),
                i <= n,
                v@.len() == i,
                forall|k: int| 0 <= k < i ==> (#[trigger] v@[k])@ == self.tables@[k].name@,
            decreases n - i,
        {
            v.push(self.tables[i].name.clone());
            i += 1;
        }
        proof {
            assert forall|n: Seq<char>| #[trigger] self.table(n) is Some <==> exists|i: int|
                0 <= i < v@.len() && v@[i]@ == n by {
                if self.table(n) is Some {
                    assert(self.names().contains(n));
                    let i = choose|i: int| 0 <= i < self.names().len() && self.names()[i] == n;
                    assert(v@[i]@ == n);
                }
                if exists|i: int| 0 <= i < v@.len() && v@[i]@ == n {
                    let i = choose|i: int| 0 <= i < v@.len() && v@[i]@ == n;
                    assert(self.names()[i] == n);
                }
            }
        }
        v
    }

}

proof fn lemma_find_at(tables: Seq<EncodingTable>, i: int)
    requires
        0 <= i < tables.len(),
        forall|k: int| 0 <= k < i ==> tables[k].name@ != tables[i].name@,
    ensures
        find_table(tables, tables[i].name@) == Some(tables[i]),
    decreases i,
{
    if i > 0 {
        lemma_find_at(tables.drop_first(), i - 1);
    }
}

proof fn lemma_find_absent(tables: Seq<EncodingTable>, name: Seq<char>)
    requires
        forall|k: int| 0 <= k < tables.len() ==> tables[k].name@ != name,
    ensures
        find_table(tables, name) is None,
    decreases tables.len(),
{
    if tables.len() > 0 {
        lemma_find_absent(tables.drop_first(), name);
    }
}

proof fn lemma_find_after_update_at(tables: Seq<EncodingTable>, i: int, t: EncodingTable, n: Seq<char>)
    requires
        0 <= i < tables.len(),
        tables[i].name@ == t.name@,
        forall|k: int| 0 <= k < i ==> tables[k].name@ != t.name@,
    ensures
        find_table(tables.update(i, t), n) == if n == t.name@ {
            Some(t)
        } else {
            find_table(tables, n)
        },
    decreases i,
{
    let u = tables.update(i, t);
    if i == 0 {
        assert(u.drop_first() =~= tables.drop_first());
        assert(u[0] == t);
    } else {
        assert forall|k: int| 0 <= k < i - 1 implies tables.drop_first()[k].name@ != t.name@ by {
            assert(tables.drop_first()[k] == tables[k + 1]);
        }
        lemma_find_after_update_at(tables.drop_first(), i - 1, t, n);
        assert(u.drop_first() =~= tables.drop_first().update(i - 1, t));
        assert(u[0] == tables[0]);
        assert(tables[0].name@ != t.name@);
    }
}

proof fn lemma_find_after_update(tables: Seq<EncodingTable>, i: int, t: EncodingTable)
    requires
        0 <= i < tables.len(),
        tables[i].name@ == t.name@,
        forall|k: int| 0 <= k < i ==> tables[k].name@ != t.name@,
    ensures
        forall|n: Seq<char>|
            #[trigger] find_table(tables.update(i, t), n) == if n == t.name@ {
                Some(t)
            } else {
                find_table(tables, n)
            },
{
    assert forall|n: Seq<char>|
        #[trigger] find_table(tables.update(i, t), n) == if n == t.name@ {
            Some(t)
        } else {
            find_table(tables, n)
        } by {
        lemma_find_after_update_at(tables, i, t, n);
    }
}

proof fn lemma_find_after_push_at(tables: Seq<EncodingTable>, t: EncodingTable, n: Seq<char>)
    requires
        forall|k: int| 0 <= k < tables.len() ==> tables[k].name@ != t.name@,
    ensures
        find_table(tables.push(t), n) == if n == t.name@ {
            Some(t)
        } else {
            find_table(tables, n)
        },
    decreases tables.len(),
{
    reveal_with_fuel(find_table, 2);
    let p = tables.push(t);
    if tables.len() > 0 {
        assert forall|k: int| 0 <= k < tables.drop_first().len() implies tables.drop_first()[k].name@
            != t.name@ by {
            assert(tables.drop_first()[k] == tables[k + 1]);
        }
        lemma_find_after_push_at(tables.drop_first(), t, n);
        assert(p.drop_first() =~= tables.drop_first().push(t));
        assert(p[0] == tables[0]);
        assert(tables[0].name@ != t.name@);
    } else {
        assert(p.drop_first() =~= Seq::<EncodingTable>::empty());
        assert(p[0] == t);
    }
}

proof fn lemma_find_after_push(tables: Seq<EncodingTable>, t: EncodingTable)
    requires
        forall|k: int| 0 <= k < tables.len() ==> tables[k].name@ != t.name@,
    ensures
        forall|n: Seq<char>|
            #[trigger] find_table(tables.push(t), n) == if n == t.name@ {
                Some(t)
            } else {
                find_table(tables, n)
            },
{
    assert forall|n: Seq<char>|
        #[trigger] find_table(tables.push(t), n) == if n == t.name@ {
            Some(t)
        } else {
            find_table(tables, n)
        } by {
        lemma_find_after_push_at(tables, t, n);
    }
}

/// The table found under a name carries that name, and there is one
/// exactly when some table of the list has the name.
proof fn lemma_find_table_names(tables: Seq<EncodingTable>, n: Seq<char>)
    ensures
        find_table(tables, n) matches Some(t) ==> t.name@ == n,
        (find_table(tables, n) is Some) <==> exists|i: int|
            0 <= i < tables.len() && (#[trigger] tables[i]).name@ == n,
    decreases tables.len(),
{
    if tables.len() > 0 {
        lemma_find_table_names(tables.drop_first(), n);
        if exists|i: int| 0 <= i < tables.len() && (#[trigger] tables[i]).name@ == n {
            let i = choose|i: int| 0 <= i < tables.len() && (#[trigger] tables[i]).name@ == n;
            if i > 0 {
                assert(tables.drop_first()[i - 1] == tables[i]);
            }
        }
        if exists|i: int|
            0 <= i < tables.drop_first().len() && (#[trigger] tables.drop_first()[i]).name@ == n {
            let i = choose|i: int|
                0 <= i < tables.drop_first().len() && (#[trigger] tables.drop_first()[i]).name@
                    == n;
            assert(tables[i + 1] == tables.drop_first()[i]);
        }
    }
}

/// No two bytes of an encoding share a code point.
pub open spec fn code_injective(t: EncodingType) -> bool {
    forall|a: u8, b: u8| #[trigger] code_unicode(t, a) == #[trigger] code_unicode(t, b) ==> a == b
}

proof fn lemma_mac_roman_injective()
    ensures
        forall|a: u8, b: u8| #[trigger] mac_roman(a) == #[trigger] mac_roman(b) ==> a == b,
{
    assert forall|a: u8, b: u8| #[trigger] mac_roman(a) == #[trigger] mac_roman(b) implies a == b by {
        if a < 0x80 && b >= 0x80 {
            assert(mac_roman(b) >= 0xA0);
        } else if b < 0x80 && a >= 0x80 {
            assert(mac_roman(a) >= 0xA0);
        }
    }
}

/// Every encoding maps distinct bytes to distinct code points.
pub proof fn lemma_code_injective(t: EncodingType)
    ensures
        code_injective(t),
{
    match t {
        EncodingType::MacRoman => lemma_mac_roman_injective(),
        _ => {},
    }
}

proof fn lemma_reverse_map_at(t: EncodingType, k: int, c: u8)
    requires
        code_injective(t),
        0 <= c < k <= 256,
        code_included(t, c),
    ensures
        reverse_map(t, k).contains_key(code_unicode(t, c)),
        reverse_map(t, k)[code_unicode(t, c)] == c,
    decreases k,
{
    if k - 1 != c {
        lemma_reverse_map_at(t, k - 1, c);
        let d = (k - 1) as u8;
        assert(code_unicode(t, d) != code_unicode(t, c));
    }
}

/// In a table built for an encoding, the character code found for the
/// code point of a character code is that code: `unicode_to_char`
/// undoes `char_to_unicode`.
pub proof fn lemma_code_round_trip(tbl: EncodingTable, t: EncodingType, name: Seq<char>, c: u32)
    requires
        table_built(tbl, t, name),
        tbl.mappings@.contains_key(c),
    ensures
        tbl.unicode_to_char@.contains_key(tbl.mappings@[c].unicode),
        tbl.unicode_to_char@[tbl.mappings@[c].unicode] == c,
{
    lemma_code_injective(t);
    lemma_reverse_map_at(t, 256, c as u8);
}

impl Default for EncodingManager {
    fn default() -> (m: Self)
        ensures
            m.names() == seq!["unicode"@, "ascii"@, "latin1"@, "windows1252"@, "macroman"@],
            m.default_name() == "unicode"@,
            m.names_match(),
    {
        Self::new()
    }
}

} // verus!
