//! WOFF 2.0: a table directory and the tables, compressed together with
//! Brotli.
use vstd::prelude::*;
use std::io::{Read, Write};
use crate::codec::{be_u16, be_u32, u16_bytes, u32_bytes};
use crate::error::{FontError, Tag};
use crate::parse::Parser;
use crate::write::Writer;
use crate::woff::{padded_total, tables_view};

verus! {

#[derive(Debug, Clone, PartialEq)]
pub struct Woff2Table {
    pub tag: Tag,
    pub orig_length: u32,
    pub transform_length: u32,
    pub data: Vec<u8>,
}

#[derive(Debug, Clone, PartialEq)]
pub struct Woff2Header {
    pub signature: u32,
    pub flavor: u32,
    pub length: u32,
    pub num_tables: u16,
    pub reserved: u16,
    pub total_sfnt_size: u32,
    pub total_compressed_size: u32,
    pub major_version: u16,
    pub minor_version: u16,
    pub meta_offset: u32,
    pub meta_length: u32,
    pub meta_orig_length: u32,
    pub priv_offset: u32,
    pub priv_length: u32,
}

/// `wOF2`.
pub const WOFF2_SIGNATURE: u32 = 0x774F4632;

/// The four bytes of a tag's big-endian number are the tag.
proof fn lemma_tag_code_bytes(t: Seq<u8>)
    requires
        t.len() == 4,
    ensures
        u32_bytes(tag_code(t)) == t,
{
    let a = t[0] as int;
    let b = t[1] as int;
    let c = t[2] as int;
    let d = t[3] as int;
    let v = a * 16777216 + b * 65536 + c * 256 + d;
    assert(v / 16777216 == a && (v / 65536) % 256 == b && (v / 256) % 256 == c && v % 256 == d)
        by (nonlinear_arith)
        requires
            0 <= a < 256,
            0 <= b < 256,
            0 <= c < 256,
            0 <= d < 256,
            v == a * 16777216 + b * 65536 + c * 256 + d,
    ;
    assert(tag_code(t) == v);
    assert(u32_bytes(tag_code(t)) =~= t);
}

/// The tags of the tables a WOFF2 directory names by a type number, in the
/// order of their numbers: cmap, head, hhea, hmtx, maxp, name, OS/2, post,
/// cvt, fpgm, glyf, loca, prep, CFF, CFF2 and the rest.
pub open spec fn known_table_tags() -> Seq<Seq<u8>> {
    seq![
        seq![0x63u8, 0x6d, 0x61, 0x70],
        seq![0x68u8, 0x65, 0x61, 0x64],
        seq![0x68u8, 0x68, 0x65, 0x61],
        seq![0x68u8, 0x6d, 0x74, 0x78],
        seq![0x6du8, 0x61, 0x78, 0x70],
        seq![0x6eu8, 0x61, 0x6d, 0x65],
        seq![0x4fu8, 0x53, 0x2f, 0x32],
        seq![0x70u8, 0x6f, 0x73, 0x74],
        seq![0x63u8, 0x76, 0x74, 0x20],
        seq![0x66u8, 0x70, 0x67, 0x6d],
        seq![0x67u8, 0x6c, 0x79, 0x66],
        seq![0x6cu8, 0x6f, 0x63, 0x61],
        seq![0x70u8, 0x72, 0x65, 0x70],
        seq![0x43u8, 0x46, 0x46, 0x20],
        seq![0x43u8, 0x46, 0x46, 0x32],
        seq![0x47u8, 0x50, 0x4f, 0x53],
        seq![0x47u8, 0x53, 0x55, 0x42],
        seq![0x48u8, 0x56, 0x41, 0x52],
        seq![0x4au8, 0x53, 0x54, 0x46],
        seq![0x4du8, 0x56, 0x41, 0x52],
        seq![0x42u8, 0x41, 0x53, 0x45],
        seq![0x47u8, 0x44, 0x45, 0x46],
        seq![0x56u8, 0x44, 0x4d, 0x58],
        seq![0x76u8, 0x68, 0x65, 0x61],
        seq![0x76u8, 0x6d, 0x74, 0x78],
        seq![0x53u8, 0x54, 0x41, 0x54],
        seq![0x61u8, 0x76, 0x61, 0x72],
        seq![0x63u8, 0x76, 0x61, 0x72],
        seq![0x66u8, 0x76, 0x61, 0x72],
        seq![0x67u8, 0x76, 0x61, 0x72],
        seq![0x48u8, 0x56, 0x41, 0x52],
        seq![0x4du8, 0x56, 0x41, 0x52],
        seq![0x44u8, 0x53, 0x49, 0x47],
        seq![0x45u8, 0x42, 0x44, 0x54],
        seq![0x45u8, 0x42, 0x4c, 0x43],
        seq![0x45u8, 0x42, 0x53, 0x43],
        seq![0x67u8, 0x61, 0x73, 0x70],
        seq![0x68u8, 0x64, 0x6d, 0x78],
        seq![0x6bu8, 0x65, 0x72, 0x6e],
        seq![0x4cu8, 0x54, 0x53, 0x48],
        seq![0x4du8, 0x45, 0x52, 0x47],
        seq![0x6du8, 0x65, 0x74, 0x61],
        seq![0x50u8, 0x43, 0x4c, 0x54],
        seq![0x56u8, 0x44, 0x4d, 0x58],
        seq![0x76u8, 0x68, 0x65, 0x61],
        seq![0x76u8, 0x6d, 0x74, 0x78],
        seq![0x4du8, 0x41, 0x54, 0x48],
        seq![0x43u8, 0x50, 0x41, 0x4c],
        seq![0x53u8, 0x56, 0x47, 0x20],
        seq![0x73u8, 0x62, 0x69, 0x78],
        seq![0x43u8, 0x42, 0x44, 0x54],
        seq![0x43u8, 0x42, 0x4c, 0x43],
        seq![0x43u8, 0x4f, 0x4c, 0x52],
        seq![0x4au8, 0x53, 0x54, 0x46],
        seq![0x44u8, 0x53, 0x49, 0x47],
        seq![0x45u8, 0x42, 0x44, 0x54],
    ]
}

/// A directory entry of type number `i` below 56 is read as the `i`-th tag
/// of `known_table_tags`, and one of a larger number as `unkn`; in
/// particular the numbers 0 to 7 are read as `cmap`, `head`, `hhea`,
/// `hmtx`, `maxp`, `name`, `OS/2` and `post`.
pub proof fn lemma_known_types_read(i: u8)
    ensures
        i < 56 ==> u32_bytes(read_known_code(i)) == known_table_tags()[i as int],
        i >= 56 ==> u32_bytes(read_known_code(i)) == seq![0x75u8, 0x6e, 0x6b, 0x6e],
        u32_bytes(read_known_code(0)) == seq![0x63u8, 0x6d, 0x61, 0x70],
        u32_bytes(read_known_code(1)) == seq![0x68u8, 0x65, 0x61, 0x64],
        u32_bytes(read_known_code(2)) == seq![0x68u8, 0x68, 0x65, 0x61],
        u32_bytes(read_known_code(3)) == seq![0x68u8, 0x6d, 0x74, 0x78],
        u32_bytes(read_known_code(4)) == seq![0x6du8, 0x61, 0x78, 0x70],
        u32_bytes(read_known_code(5)) == seq![0x6eu8, 0x61, 0x6d, 0x65],
        u32_bytes(read_known_code(6)) == seq![0x4fu8, 0x53, 0x2f, 0x32],
        u32_bytes(read_known_code(7)) == seq![0x70u8, 0x6f, 0x73, 0x74],
{
    if i < 56 {
        let t = known_table_tags()[i as int];
        match i {
            0 => assert(read_known_code(0) == tag_code(known_table_tags()[0])),
            1 => assert(read_known_code(1) == tag_code(known_table_tags()[1])),
            2 => assert(read_known_code(2) == tag_code(known_table_tags()[2])),
            3 => assert(read_known_code(3) == tag_code(known_table_tags()[3])),
            4 => assert(read_known_code(4) == tag_code(known_table_tags()[4])),
            5 => assert(read_known_code(5) == tag_code(known_table_tags()[5])),
            6 => assert(read_known_code(6) == tag_code(known_table_tags()[6])),
            7 => assert(read_known_code(7) == tag_code(known_table_tags()[7])),
            8 => assert(read_known_code(8) == tag_code(known_table_tags()[8])),
            9 => assert(read_known_code(9) == tag_code(known_table_tags()[9])),
            10 => assert(read_known_code(10) == tag_code(known_table_tags()[10])),
            11 => assert(read_known_code(11) == tag_code(known_table_tags()[11])),
            12 => assert(read_known_code(12) == tag_code(known_table_tags()[12])),
            13 => assert(read_known_code(13) == tag_code(known_table_tags()[13])),
            14 => assert(read_known_code(14) == tag_code(known_table_tags()[14])),
            15 => assert(read_known_code(15) == tag_code(known_table_tags()[15])),
            16 => assert(read_known_code(16) == tag_code(known_table_tags()[16])),
            17 => assert(read_known_code(17) == tag_code(known_table_tags()[17])),
            18 => assert(read_known_code(18) == tag_code(known_table_tags()[18])),
            19 => assert(read_known_code(19) == tag_code(known_table_tags()[19])),
            20 => assert(read_known_code(20) == tag_code(known_table_tags()[20])),
            21 => assert(read_known_code(21) == tag_code(known_table_tags()[21])),
            22 => assert(read_known_code(22) == tag_code(known_table_tags()[22])),
            23 => assert(read_known_code(23) == tag_code(known_table_tags()[23])),
            24 => assert(read_known_code(24) == tag_code(known_table_tags()[24])),
            25 => assert(read_known_code(25) == tag_code(known_table_tags()[25])),
            26 => assert(read_known_code(26) == tag_code(known_table_tags()[26])),
            27 => assert(read_known_code(27) == tag_code(known_table_tags()[27])),
            28 => assert(read_known_code(28) == tag_code(known_table_tags()[28])),
            29 => assert(read_known_code(29) == tag_code(known_table_tags()[29])),
            30 => assert(read_known_code(30) == tag_code(known_table_tags()[30])),
            31 => assert(read_known_code(31) == tag_code(known_table_tags()[31])),
            32 => assert(read_known_code(32) == tag_code(known_table_tags()[32])),
            33 => assert(read_known_code(33) == tag_code(known_table_tags()[33])),
            34 => assert(read_known_code(34) == tag_code(known_table_tags()[34])),
            35 => assert(read_known_code(35) == tag_code(known_table_tags()[35])),
            36 => assert(read_known_code(36) == tag_code(known_table_tags()[36])),
            37 => assert(read_known_code(37) == tag_code(known_table_tags()[37])),
            38 => assert(read_known_code(38) == tag_code(known_table_tags()[38])),
            39 => assert(read_known_code(39) == tag_code(known_table_tags()[39])),
            40 => assert(read_known_code(40) == tag_code(known_table_tags()[40])),
            41 => assert(read_known_code(41) == tag_code(known_table_tags()[41])),
            42 => assert(read_known_code(42) == tag_code(known_table_tags()[42])),
            43 => assert(read_known_code(43) == tag_code(known_table_tags()[43])),
            44 => assert(read_known_code(44) == tag_code(known_table_tags()[44])),
            45 => assert(read_known_code(45) == tag_code(known_table_tags()[45])),
            46 => assert(read_known_code(46) == tag_code(known_table_tags()[46])),
            47 => assert(read_known_code(47) == tag_code(known_table_tags()[47])),
            48 => assert(read_known_code(48) == tag_code(known_table_tags()[48])),
            49 => assert(read_known_code(49) == tag_code(known_table_tags()[49])),
            50 => assert(read_known_code(50) == tag_code(known_table_tags()[50])),
            51 => assert(read_known_code(51) == tag_code(known_table_tags()[51])),
            52 => assert(read_known_code(52) == tag_code(known_table_tags()[52])),
            53 => assert(read_known_code(53) == tag_code(known_table_tags()[53])),
            54 => assert(read_known_code(54) == tag_code(known_table_tags()[54])),
            55 => assert(read_known_code(55) == tag_code(known_table_tags()[55])),
            _ => {},
        }
        lemma_tag_code_bytes(t);
    } else {
        assert(u32_bytes(read_known_code(i)) =~= seq![0x75u8, 0x6e, 0x6b, 0x6e]);
    }
}

/// The writer gives each tag of `known_table_tags` its type number, except
/// `JSTF`, whose numbers 18 and 53 it gives to the spelling `JSUF` (so a
/// `JSTF` table is written with its tag); numbers from 56 on it gives to no
/// tag.
pub proof fn lemma_known_types_written(i: u8)
    ensures
        i >= 56 ==> write_known_code(i) is None,
        i < 56 && i != 18 && i != 53 ==> (write_known_code(i) matches Some(c) && u32_bytes(c)
            == known_table_tags()[i as int]),
        i == 18 || i == 53 ==> (write_known_code(i) matches Some(c) && u32_bytes(c) == seq![
            0x4au8,
            0x53,
            0x55,
            0x46,
        ]),
{
    if i < 56 {
        let t = if i == 18 || i == 53 {
            seq![0x4au8, 0x53, 0x55, 0x46]
        } else {
            known_table_tags()[i as int]
        };
        match i {
            0 => assert(write_known_code(0) == Some(tag_code(known_table_tags()[0]))),
            1 => assert(write_known_code(1) == Some(tag_code(known_table_tags()[1]))),
            2 => assert(write_known_code(2) == Some(tag_code(known_table_tags()[2]))),
            3 => assert(write_known_code(3) == Some(tag_code(known_table_tags()[3]))),
            4 => assert(write_known_code(4) == Some(tag_code(known_table_tags()[4]))),
            5 => assert(write_known_code(5) == Some(tag_code(known_table_tags()[5]))),
            6 => assert(write_known_code(6) == Some(tag_code(known_table_tags()[6]))),
            7 => assert(write_known_code(7) == Some(tag_code(known_table_tags()[7]))),
            8 => assert(write_known_code(8) == Some(tag_code(known_table_tags()[8]))),
            9 => assert(write_known_code(9) == Some(tag_code(known_table_tags()[9]))),
            10 => assert(write_known_code(10) == Some(tag_code(known_table_tags()[10]))),
            11 => assert(write_known_code(11) == Some(tag_code(known_table_tags()[11]))),
            12 => assert(write_known_code(12) == Some(tag_code(known_table_tags()[12]))),
            13 => assert(write_known_code(13) == Some(tag_code(known_table_tags()[13]))),
            14 => assert(write_known_code(14) == Some(tag_code(known_table_tags()[14]))),
            15 => assert(write_known_code(15) == Some(tag_code(known_table_tags()[15]))),
            16 => assert(write_known_code(16) == Some(tag_code(known_table_tags()[16]))),
            17 => assert(write_known_code(17) == Some(tag_code(known_table_tags()[17]))),
            18 => assert(write_known_code(18) == Some(tag_code(seq![0x4au8, 0x53, 0x55, 0x46]))),
            19 => assert(write_known_code(19) == Some(tag_code(known_table_tags()[19]))),
            20 => assert(write_known_code(20) == Some(tag_code(known_table_tags()[20]))),
            21 => assert(write_known_code(21) == Some(tag_code(known_table_tags()[21]))),
            22 => assert(write_known_code(22) == Some(tag_code(known_table_tags()[22]))),
            23 => assert(write_known_code(23) == Some(tag_code(known_table_tags()[23]))),
            24 => assert(write_known_code(24) == Some(tag_code(known_table_tags()[24]))),
            25 => assert(write_known_code(25) == Some(tag_code(known_table_tags()[25]))),
            26 => assert(write_known_code(26) == Some(tag_code(known_table_tags()[26]))),
            27 => assert(write_known_code(27) == Some(tag_code(known_table_tags()[27]))),
            28 => assert(write_known_code(28) == Some(tag_code(known_table_tags()[28]))),
            29 => assert(write_known_code(29) == Some(tag_code(known_table_tags()[29]))),
            30 => assert(write_known_code(30) == Some(tag_code(known_table_tags()[30]))),
            31 => assert(write_known_code(31) == Some(tag_code(known_table_tags()[31]))),
            32 => assert(write_known_code(32) == Some(tag_code(known_table_tags()[32]))),
            33 => assert(write_known_code(33) == Some(tag_code(known_table_tags()[33]))),
            34 => assert(write_known_code(34) == Some(tag_code(known_table_tags()[34]))),
            35 => assert(write_known_code(35) == Some(tag_code(known_table_tags()[35]))),
            36 => assert(write_known_code(36) == Some(tag_code(known_table_tags()[36]))),
            37 => assert(write_known_code(37) == Some(tag_code(known_table_tags()[37]))),
            38 => assert(write_known_code(38) == Some(tag_code(known_table_tags()[38]))),
            39 => assert(write_known_code(39) == Some(tag_code(known_table_tags()[39]))),
            40 => assert(write_known_code(40) == Some(tag_code(known_table_tags()[40]))),
            41 => assert(write_known_code(41) == Some(tag_code(known_table_tags()[41]))),
            42 => assert(write_known_code(42) == Some(tag_code(known_table_tags()[42]))),
            43 => assert(write_known_code(43) == Some(tag_code(known_table_tags()[43]))),
            44 => assert(write_known_code(44) == Some(tag_code(known_table_tags()[44]))),
            45 => assert(write_known_code(45) == Some(tag_code(known_table_tags()[45]))),
            46 => assert(write_known_code(46) == Some(tag_code(known_table_tags()[46]))),
            47 => assert(write_known_code(47) == Some(tag_code(known_table_tags()[47]))),
            48 => assert(write_known_code(48) == Some(tag_code(known_table_tags()[48]))),
            49 => assert(write_known_code(49) == Some(tag_code(known_table_tags()[49]))),
            50 => assert(write_known_code(50) == Some(tag_code(known_table_tags()[50]))),
            51 => assert(write_known_code(51) == Some(tag_code(known_table_tags()[51]))),
            52 => assert(write_known_code(52) == Some(tag_code(known_table_tags()[52]))),
            53 => assert(write_known_code(53) == Some(tag_code(seq![0x4au8, 0x53, 0x55, 0x46]))),
            54 => assert(write_known_code(54) == Some(tag_code(known_table_tags()[54]))),
            55 => assert(write_known_code(55) == Some(tag_code(known_table_tags()[55]))),
            _ => {},
        }
        lemma_tag_code_bytes(t);
    }
}

/// The tag, as a big-endian number, that a reader gives the table type
/// `i` of the directory; `unkn` past the end of its list.
pub open spec fn read_known_code(i: u8) -> u32 {
    match i {
        0 => 0x636D6170,
        1 => 0x68656164,
        2 => 0x68686561,
        3 => 0x686D7478,
        4 => 0x6D617870,
        5 => 0x6E616D65,
        6 => 0x4F532F32,
        7 => 0x706F7374,
        8 => 0x63767420,
        9 => 0x6670676D,
        10 => 0x676C7966,
        11 => 0x6C6F6361,
        12 => 0x70726570,
        13 => 0x43464620,
        14 => 0x43464632,
        15 => 0x47504F53,
        16 => 0x47535542,
        17 => 0x48564152,
        18 => 0x4A535446,
        19 => 0x4D564152,
        20 => 0x42415345,
        21 => 0x47444546,
        22 => 0x56444D58,
        23 => 0x76686561,
        24 => 0x766D7478,
        25 => 0x53544154,
        26 => 0x61766172,
        27 => 0x63766172,
        28 => 0x66766172,
        29 => 0x67766172,
        30 => 0x48564152,
        31 => 0x4D564152,
        32 => 0x44534947,
        33 => 0x45424454,
        34 => 0x45424C43,
        35 => 0x45425343,
        36 => 0x67617370,
        37 => 0x68646D78,
        38 => 0x6B65726E,
        39 => 0x4C545348,
        40 => 0x4D455247,
        41 => 0x6D657461,
        42 => 0x50434C54,
        43 => 0x56444D58,
        44 => 0x76686561,
        45 => 0x766D7478,
        46 => 0x4D415448,
        47 => 0x4350414C,
        48 => 0x53564720,
        49 => 0x73626978,
        50 => 0x43424454,
        51 => 0x43424C43,
        52 => 0x434F4C52,
        53 => 0x4A535446,
        54 => 0x44534947,
        55 => 0x45424454,
        _ => 0x756E6B6E,
    }
}

/// The tag, as a big-endian number, that a writer gives the table type
/// `i`; none past the end of its list.
pub open spec fn write_known_code(i: u8) -> Option<u32> {
    match i {
        0 => Some(0x636D6170),
        1 => Some(0x68656164),
        2 => Some(0x68686561),
        3 => Some(0x686D7478),
        4 => Some(0x6D617870),
        5 => Some(0x6E616D65),
        6 => Some(0x4F532F32),
        7 => Some(0x706F7374),
        8 => Some(0x63767420),
        9 => Some(0x6670676D),
        10 => Some(0x676C7966),
        11 => Some(0x6C6F6361),
        12 => Some(0x70726570),
        13 => Some(0x43464620),
        14 => Some(0x43464632),
        15 => Some(0x47504F53),
        16 => Some(0x47535542),
        17 => Some(0x48564152),
        18 => Some(0x4A535546),
        19 => Some(0x4D564152),
        20 => Some(0x42415345),
        21 => Some(0x47444546),
        22 => Some(0x56444D58),
        23 => Some(0x76686561),
        24 => Some(0x766D7478),
        25 => Some(0x53544154),
        26 => Some(0x61766172),
        27 => Some(0x63766172),
        28 => Some(0x66766172),
        29 => Some(0x67766172),
        30 => Some(0x48564152),
        31 => Some(0x4D564152),
        32 => Some(0x44534947),
        33 => Some(0x45424454),
        34 => Some(0x45424C43),
        35 => Some(0x45425343),
        36 => Some(0x67617370),
        37 => Some(0x68646D78),
        38 => Some(0x6B65726E),
        39 => Some(0x4C545348),
        40 => Some(0x4D455247),
        41 => Some(0x6D657461),
        42 => Some(0x50434C54),
        43 => Some(0x56444D58),
        44 => Some(0x76686561),
        45 => Some(0x766D7478),
        46 => Some(0x4D415448),
        47 => Some(0x4350414C),
        48 => Some(0x53564720),
        49 => Some(0x73626978),
        50 => Some(0x43424454),
        51 => Some(0x43424C43),
        52 => Some(0x434F4C52),
        53 => Some(0x4A535546),
        54 => Some(0x44534947),
        55 => Some(0x45424454),
        _ => None,
    }
}

fn read_known(i: u8) -> (c: u32)
    ensures
        c == read_known_code(i),
{
    match i {
        0 => 0x636D6170,
        1 => 0x68656164,
        2 => 0x68686561,
        3 => 0x686D7478,
        4 => 0x6D617870,
        5 => 0x6E616D65,
        6 => 0x4F532F32,
        7 => 0x706F7374,
        8 => 0x63767420,
        9 => 0x6670676D,
        10 => 0x676C7966,
        11 => 0x6C6F6361,
        12 => 0x70726570,
        13 => 0x43464620,
        14 => 0x43464632,
        15 => 0x47504F53,
        16 => 0x47535542,
        17 => 0x48564152,
        18 => 0x4A535446,
        19 => 0x4D564152,
        20 => 0x42415345,
        21 => 0x47444546,
        22 => 0x56444D58,
        23 => 0x76686561,
        24 => 0x766D7478,
        25 => 0x53544154,
        26 => 0x61766172,
        27 => 0x63766172,
        28 => 0x66766172,
        29 => 0x67766172,
        30 => 0x48564152,
        31 => 0x4D564152,
        32 => 0x44534947,
        33 => 0x45424454,
        34 => 0x45424C43,
        35 => 0x45425343,
        36 => 0x67617370,
        37 => 0x68646D78,
        38 => 0x6B65726E,
        39 => 0x4C545348,
        40 => 0x4D455247,
        41 => 0x6D657461,
        42 => 0x50434C54,
        43 => 0x56444D58,
        44 => 0x76686561,
        45 => 0x766D7478,
        46 => 0x4D415448,
        47 => 0x4350414C,
        48 => 0x53564720,
        49 => 0x73626978,
        50 => 0x43424454,
        51 => 0x43424C43,
        52 => 0x434F4C52,
        53 => 0x4A535446,
        54 => 0x44534947,
        55 => 0x45424454,
        _ => 0x756E6B6E,
    }
}

fn write_known(i: u8) -> (c: Option<u32>)
    ensures
        c == write_known_code(i),
{
    match i {
        0 => Some(0x636D6170),
        1 => Some(0x68656164),
        2 => Some(0x68686561),
        3 => Some(0x686D7478),
        4 => Some(0x6D617870),
        5 => Some(0x6E616D65),
        6 => Some(0x4F532F32),
        7 => Some(0x706F7374),
        8 => Some(0x63767420),
        9 => Some(0x6670676D),
        10 => Some(0x676C7966),
        11 => Some(0x6C6F6361),
        12 => Some(0x70726570),
        13 => Some(0x43464620),
        14 => Some(0x43464632),
        15 => Some(0x47504F53),
        16 => Some(0x47535542),
        17 => Some(0x48564152),
        18 => Some(0x4A535546),
        19 => Some(0x4D564152),
        20 => Some(0x42415345),
        21 => Some(0x47444546),
        22 => Some(0x56444D58),
        23 => Some(0x76686561),
        24 => Some(0x766D7478),
        25 => Some(0x53544154),
        26 => Some(0x61766172),
        27 => Some(0x63766172),
        28 => Some(0x66766172),
        29 => Some(0x67766172),
        30 => Some(0x48564152),
        31 => Some(0x4D564152),
        32 => Some(0x44534947),
        33 => Some(0x45424454),
        34 => Some(0x45424C43),
        35 => Some(0x45425343),
        36 => Some(0x67617370),
        37 => Some(0x68646D78),
        38 => Some(0x6B65726E),
        39 => Some(0x4C545348),
        40 => Some(0x4D455247),
        41 => Some(0x6D657461),
        42 => Some(0x50434C54),
        43 => Some(0x56444D58),
        44 => Some(0x76686561),
        45 => Some(0x766D7478),
        46 => Some(0x4D415448),
        47 => Some(0x4350414C),
        48 => Some(0x53564720),
        49 => Some(0x73626978),
        50 => Some(0x43424454),
        51 => Some(0x43424C43),
        52 => Some(0x434F4C52),
        53 => Some(0x4A535546),
        54 => Some(0x44534947),
        55 => Some(0x45424454),
        _ => None,
    }
}


/// What Brotli decompresses `data` to, read to its end: `None` when
/// reading fails.
pub uninterp spec fn brotli_inflated(data: Seq<u8>) -> Option<Seq<u8>>;

/// The Brotli stream that the brotli crate writes for `data` at quality 4
/// with a 22-bit window.
pub uninterp spec fn brotli_deflated(data: Seq<u8>) -> Seq<u8>;

/// brotli's `Decompressor` (4096-byte buffer) over `data`, read to the
/// end. The contract says that the outcome is a function of `data` alone,
/// named `brotli_inflated`; on failure it gives the message "Brotli
/// decompression failed: " and the error, which it does not state.
#[verifier::external_body]
fn brotli_decompress(data: &[u8]) -> (r: Result<Vec<u8>, String>)
    ensures
        match r {
            Ok(v) => brotli_inflated(data@) == Some(v@),
            Err(_) => brotli_inflated(data@) is None,
        },
{
    let mut decoder = brotli::Decompressor::new(data, 4096);
    let mut out = Vec::new();
    match decoder.read_to_end(&mut out) {
        Ok(_) => Ok(out),
        Err(e) => Err(format!("Brotli decompression failed: {}", e)),
    }
}

/// brotli's `CompressorWriter` (4096-byte buffer, quality 4, 22-bit
/// window) over a `Vec`, fed `data` and dropped, which finishes the
/// stream. The contract names the stream `brotli_deflated` and says that
/// Brotli decompresses it back to `data` (the format is lossless), and
/// that writing succeeds: the `Vec` it writes into never fails or writes
/// nothing, and the encoder refuses input only in metadata mode or after
/// the stream has finished, neither of which `write_all` reaches. Dropping
/// the writer runs the encoder until the stream is finished, and a
/// finished Brotli stream ends with its last meta-block header, so the
/// output is never empty.
#[verifier::external_body]
fn brotli_compress(data: &[u8]) -> (r: Result<Vec<u8>, String>)
    ensures
        r is Ok,
        r matches Ok(v) ==> v@ == brotli_deflated(data@) && brotli_inflated(v@) == Some(data@)
            && v@.len() > 0,
{
    let mut compressed = Vec::new();
    {
        let mut encoder = brotli::CompressorWriter::new(&mut compressed, 4096, 4, 22);
        if let Err(e) = encoder.write_all(data) {
            return Err(format!("Brotli compression failed: {}", e));
        }
    }
    Ok(compressed)
}

/// A WOFF2 variable-length number at `p`: its value and its length in
/// bytes (one byte below 0x80, two below 0xC0, four otherwise).
pub open spec fn uint_at(d: Seq<u8>, p: int) -> Option<(u32, int)> {
    if p < 0 || p + 1 > d.len() {
        None
    } else if d[p] < 0x80 {
        Some((d[p] as u32, 1))
    } else if d[p] < 0xC0 {
        if p + 2 > d.len() {
            None
        } else {
            Some((((d[p] - 0x80) * 256 + d[p + 1]) as u32, 2))
        }
    } else if p + 4 > d.len() {
        None
    } else {
        Some(
            (((d[p] - 0xC0) * 0x1000000 + d[p + 1] * 0x10000 + d[p + 2] * 0x100 + d[p + 3]) as u32, 4),
        )
    }
}

/// The bytes `write_woff2_uint` emits for `v`.
pub open spec fn uint_bytes(v: u32) -> Seq<u8> {
    if v < 128 {
        seq![v as u8]
    } else if v < 0x4000 {
        seq![((v / 256) + 0x80) as u8, (v % 256) as u8]
    } else {
        seq![
            (((v / 0x1000000) % 256) | 0xC0) as u8,
            ((v / 0x10000) % 256) as u8,
            ((v / 256) % 256) as u8,
            (v % 256) as u8,
        ]
    }
}

/// A number below 2^30 written with `write_woff2_uint` reads back, with
/// its length, from the front of any byte string that starts with it.
pub proof fn lemma_uint_roundtrip(v: u32, rest: Seq<u8>)
    requires
        v < 0x4000_0000,
    ensures
        uint_at(uint_bytes(v) + rest, 0) == Some((v, uint_bytes(v).len() as int)),
{
    let b = uint_bytes(v);
    let s = b + rest;
    if v < 128 {
        assert(s[0] == v as u8);
    } else if v < 0x4000 {
        assert(s[0] == ((v / 256) + 0x80) as u8);
        assert(s[1] == (v % 256) as u8);
    } else {
        let b0 = (((v / 0x1000000) % 256) | 0xC0) as u8;
        assert(s[0] == b0);
        assert(s[1] == ((v / 0x10000) % 256) as u8);
        assert(s[2] == ((v / 256) % 256) as u8);
        assert(s[3] == (v % 256) as u8);
        assert(v / 0x1000000 < 64);
        assert((((v / 0x1000000) % 256) | 0xC0) == (v / 0x1000000) + 0xC0) by (bit_vector)
            requires
                v < 0x4000_0000,
        ;
    }
}

fn read_woff2_uint(p: &mut Parser) -> (r: Result<u32, FontError>)
    ensures
        final(p).data() == old(p).data(),
        match r {
            Ok(v) => uint_at(old(p).data(), old(p).pos()) matches Some((x, l)) && v == x
                && final(p).pos() == old(p).pos() + l,
            Err(e) => uint_at(old(p).data(), old(p).pos()) is None && e is OutOfBounds,
        },
{
    let ghost d = old(p).data();
    let ghost p0 = old(p).pos();
    proof {
        old(p).lemma_bounds();
    }
    let b0 = p.u8()?;
    assert(b0 == d[p0]);
    if b0 < 0x80 {
        Ok(b0 as u32)
    } else if b0 < 0xC0 {
        let b1 = p.u8()?;
        assert(b1 == d[p0 + 1]);
        let v = (b0 - 0x80) as u32 * 256 + b1 as u32;
        assert(uint_at(d, p0) == Some((v, 2int)));
        Ok(v)
    } else {
        let b1 = p.u8()?;
        let b2 = p.u8()?;
        let b3 = p.u8()?;
        assert(b1 == d[p0 + 1] && b2 == d[p0 + 2] && b3 == d[p0 + 3]);
        let v = (b0 - 0xC0) as u32 * 0x1000000 + b1 as u32 * 0x10000 + b2 as u32 * 0x100
            + b3 as u32;
        assert(uint_at(d, p0) == Some((v, 4int)));
        Ok(v)
    }
}

fn write_woff2_uint(w: &mut Writer, val: u32)
    ensures
        final(w)@ == old(w)@ + uint_bytes(val),
{
    if val < 128 {
        w.write_u8(val as u8);
    } else if val < 0x4000 {
        w.write_u8(((val / 256) + 0x80) as u8);
        w.write_u8((val % 256) as u8);
    } else {
        w.write_u8((((val / 0x1000000) % 256) | 0xC0) as u8);
        w.write_u8(((val / 0x10000) % 256) as u8);
        w.write_u8(((val / 256) % 256) as u8);
        w.write_u8((val % 256) as u8);
    }
    proof {
        assert(w@ =~= old(w)@ + uint_bytes(val));
    }
}


/// The tag spelled by a big-endian number.
fn tag_of_code(c: u32) -> (t: Tag)
    ensures
        t.0@ == u32_bytes(c),
{
    let t = Tag([(c / 16777216) as u8, ((c / 65536) % 256) as u8, ((c / 256) % 256) as u8, (c % 256) as u8]);
    assert(t.0@ =~= u32_bytes(c));
    t
}

/// The directory entry at `p` of the decompressed stream: the tag, the
/// length of the table's data, and where the next entry starts.
pub open spec fn entry_at(d: Seq<u8>, p: int) -> Option<(Seq<u8>, u32, int)> {
    if p < 0 || p + 1 > d.len() {
        None
    } else {
        let flags = d[p];
        let ty = (flags % 64) as u8;
        let has_t = (flags / 64) % 2 == 1;
        if ty == 63 && p + 5 > d.len() {
            None
        } else {
            let tag = if ty == 63 {
                d.subrange(p + 1, p + 5)
            } else {
                u32_bytes(read_known_code(ty))
            };
            let q = if ty == 63 {
                p + 5
            } else {
                p + 1
            };
            match uint_at(d, q) {
                None => None,
                Some((orig, l1)) => if has_t {
                    match uint_at(d, q + l1) {
                        None => None,
                        Some((t, l2)) => Some((tag, t, q + l1 + l2)),
                    }
                } else {
                    Some((tag, orig, q + l1))
                },
            }
        }
    }
}

/// The first `k` directory entries (tag and data length) and where the
/// directory ends.
pub open spec fn dir_at(d: Seq<u8>, k: int) -> Option<(Seq<(Seq<u8>, u32)>, int)>
    decreases k,
{
    if k <= 0 {
        Some((Seq::empty(), 0))
    } else {
        match dir_at(d, k - 1) {
            None => None,
            Some((es, p)) => match entry_at(d, p) {
                None => None,
                Some((t, l, q)) => Some((es.push((t, l)), q)),
            },
        }
    }
}

pub open spec fn lens_sum(es: Seq<(Seq<u8>, u32)>) -> int
    decreases es.len(),
{
    if es.len() == 0 {
        0
    } else {
        lens_sum(es.drop_last()) + es.last().1
    }
}

/// The tables' data, one after the other from `start`: `None` when one
/// runs past the end of the stream.
pub open spec fn slices_at(d: Seq<u8>, es: Seq<(Seq<u8>, u32)>, start: int) -> Option<
    Seq<(Seq<u8>, Seq<u8>)>,
>
    decreases es.len(),
{
    if es.len() == 0 {
        Some(Seq::empty())
    } else {
        match slices_at(d, es.drop_last(), start) {
            None => None,
            Some(v) => {
                let off = start + lens_sum(es.drop_last());
                let l = es.last().1;
                if off + l > d.len() {
                    None
                } else {
                    Some(v.push((es.last().0, d.subrange(off, off + l))))
                }
            },
        }
    }
}

/// The signature is right and the 48-byte header is there.
pub open spec fn woff2_header_ok(s: Seq<u8>) -> bool {
    s.len() >= 48 && be_u32(s, 0) == WOFF2_SIGNATURE
}

/// The compressed stream after the header.
pub open spec fn woff2_stream(s: Seq<u8>) -> Seq<u8> {
    s.subrange(48, 48 + be_u32(s, 20))
}

/// The tables a WOFF2 file unpacks to, when it unpacks.
pub open spec fn woff2_tables(s: Seq<u8>) -> Option<Seq<(Seq<u8>, Seq<u8>)>> {
    match brotli_inflated(woff2_stream(s)) {
        None => None,
        Some(d) => match dir_at(d, be_u16(s, 12) as int) {
            None => None,
            Some((es, p)) => slices_at(d, es, p),
        },
    }
}

#[verifier::rlimit(60)]
fn read_dir(d: &[u8], n: u16) -> (r: Result<(Vec<Woff2Table>, usize), FontError>)
    ensures
        match r {
            Ok((ts, end)) => dir_at(d@, n as int) matches Some((es, p)) && p == end && ts@.len()
                == es.len() && forall|i: int|
                0 <= i < es.len() ==> (#[trigger] ts@[i]).tag.0@ == es[i].0
                    && ts@[i].transform_length == es[i].1,
            Err(e) => dir_at(d@, n as int) is None && e is OutOfBounds,
        },
{
    let ghost s = d@;
    let mut dp = Parser::new(d, 0);
    let mut tables: Vec<Woff2Table> = Vec::new();
    let mut k: u16 = 0;
    while k < n
        invariant
            s == d@,
            dp.data() == s,
            k <= n,
            dir_at(s, k as int) matches Some((es, p)) && p == dp.pos() && tables@.len() == es.len()
                && forall|i: int|
                0 <= i < es.len() ==> (#[trigger] tables@[i]).tag.0@ == es[i].0
                    && tables@[i].transform_length == es[i].1,
        decreases n - k,
    {
        let ghost p0 = dp.pos();
        let ghost prev = dir_at(s, k as int).unwrap().0;
        proof {
            dp.lemma_bounds();
        }
        let flags = match dp.u8() {
            Ok(v) => v,
            Err(e) => {
                proof {
                    assert(entry_at(s, p0) is None);
                    lemma_dir_none_after(s, k as int + 1, n as int);
                }
                return Err(e);
            },
        };
        let table_type = flags % 64;
        let has_transform = (flags / 64) % 2 == 1;
        let tag = if table_type == 63 {
            match dp.tag() {
                Ok(t) => {
                    assert(t.0@ =~= s.subrange(p0 + 1, p0 + 5));
                    t
                },
                Err(e) => {
                    proof {
                        assert(entry_at(s, p0) is None);
                        lemma_dir_none_after(s, k as int + 1, n as int);
                    }
                    return Err(e);
                },
            }
        } else {
            tag_of_code(read_known(table_type))
        };
        let orig_length = match read_woff2_uint(&mut dp) {
            Ok(v) => v,
            Err(e) => {
                proof {
                    assert(entry_at(s, p0) is None);
                    lemma_dir_none_after(s, k as int + 1, n as int);
                }
                return Err(e);
            },
        };
        let transform_length = if has_transform {
            match read_woff2_uint(&mut dp) {
                Ok(v) => v,
                Err(e) => {
                    proof {
                        assert(entry_at(s, p0) is None);
                        lemma_dir_none_after(s, k as int + 1, n as int);
                    }
                    return Err(e);
                },
            }
        } else {
            orig_length
        };
        proof {
            assert(entry_at(s, p0) == Some((tag.0@, transform_length, dp.pos())));
        }
        let ghost old_t = tables@;
        tables.push(Woff2Table { tag, orig_length, transform_length, data: Vec::new() });
        k += 1;
        proof {
            let es = dir_at(s, k as int).unwrap().0;
            assert(es == prev.push((tag.0@, transform_length)));
            assert forall|i: int| 0 <= i < es.len() implies (#[trigger] tables@[i]).tag.0@ == es[i].0
                && tables@[i].transform_length == es[i].1 by {
                if i < old_t.len() {
                    assert(tables@[i] == old_t[i]);
                }
            }
        }
    }
    Ok((tables, dp.offset()))
}

proof fn lemma_dir_none_after(d: Seq<u8>, k: int, n: int)
    requires
        1 <= k <= n,
        dir_at(d, k) is None,
    ensures
        dir_at(d, n) is None,
    decreases n - k,
{
    if k < n {
        lemma_dir_none_after(d, k + 1, n);
    }
}


/// Cuts the tables' data out of the stream, one after the other from
/// `start`.
#[verifier::rlimit(40)]
fn read_slices(d: &[u8], dir: &Vec<Woff2Table>, start: usize, Ghost(es): Ghost<Seq<(Seq<u8>, u32)>>) -> (r: Result<
    Vec<(Tag, Vec<u8>)>,
    FontError,
>)
    requires
        start <= d@.len(),
        dir@.len() == es.len(),
        forall|i: int|
            0 <= i < es.len() ==> (#[trigger] dir@[i]).tag.0@ == es[i].0 && dir@[i].transform_length
                == es[i].1,
    ensures
        match r {
            Ok(v) => slices_at(d@, es, start as int) == Some(tables_view(v@)),
            Err(e) => slices_at(d@, es, start as int) is None && (e matches FontError::InvalidTable {
                tag: t,
                reason,
            } && t.0@ == seq![0x77u8, 0x4f, 0x46, 0x32] && reason@
                == "Table data exceeds decompressed stream"@),
        },
{
    let ghost s = d@;
    let n = dir.len();
    let dlen = d.len();
    let mut out: Vec<(Tag, Vec<u8>)> = Vec::new();
    let mut offset = start;
    let mut k: usize = 0;
    while k < n
        invariant
            s == d@,
            dlen == s.len(),
            n == es.len(),
            dir@.len() == es.len(),
            forall|i: int|
                0 <= i < es.len() ==> (#[trigger] dir@[i]).tag.0@ == es[i].0
                    && dir@[i].transform_length == es[i].1,
            k <= n,
            offset <= dlen,
            offset == start + lens_sum(es.subrange(0, k as int)),
            slices_at(s, es.subrange(0, k as int), start as int) == Some(tables_view(out@)),
        decreases n - k,
    {
        let ghost sub = es.subrange(0, k + 1);
        proof {
            assert(sub.drop_last() =~= es.subrange(0, k as int));
            assert(sub.last() == es[k as int]);
        }
        let len = dir[k].transform_length as usize;
        if len > dlen - offset {
            proof {
                lemma_slices_none_after(s, es, start as int, k + 1);
                assert(es.subrange(0, n as int) =~= es);
            }
            let t = Tag([0x77, 0x4f, 0x46, 0x32]);
            assert(t.0@ =~= seq![0x77u8, 0x4f, 0x46, 0x32]);
            return Err(FontError::invalid_table(t, "Table data exceeds decompressed stream"));
        }
        let data = vstd::slice::slice_subrange(d, offset, offset + len);
        let ghost old_out = out@;
        out.push((dir[k].tag, vstd::slice::slice_to_vec(data)));
        offset = offset + len;
        k += 1;
        proof {
            assert(tables_view(out@) =~= tables_view(old_out).push((es[k - 1].0, s.subrange(
                offset - len,
                offset as int,
            ))));
        }
    }
    proof {
        assert(es.subrange(0, n as int) =~= es);
    }
    Ok(out)
}

proof fn lemma_slices_none_after(d: Seq<u8>, es: Seq<(Seq<u8>, u32)>, start: int, k: int)
    requires
        1 <= k <= es.len(),
        slices_at(d, es.subrange(0, k), start) is None,
    ensures
        slices_at(d, es, start) is None,
    decreases es.len() - k,
{
    if k < es.len() {
        let sub = es.subrange(0, k + 1);
        assert(sub.drop_last() =~= es.subrange(0, k));
        lemma_slices_none_after(d, es, start, k + 1);
    } else {
        assert(es.subrange(0, k) =~= es);
    }
}

/// The inputs on which `read_woff2` runs to its end: the compressed
/// stream that the header announces lies inside the file.
pub open spec fn woff2_readable(s: Seq<u8>) -> bool {
    woff2_header_ok(s) ==> 48 + be_u32(s, 20) <= s.len()
}

/// Whether `read_woff2` can be called on these bytes: callers that hold
/// no proof of `woff2_readable` test it here first.
pub fn woff2_can_read(buf: &[u8]) -> (b: bool)
    ensures
        b == woff2_readable(buf@),
{
    if buf.len() < 48 {
        return true;
    }
    let mut p = Parser::new(buf, 0);
    let signature = match p.u32() {
        Ok(v) => v,
        Err(_) => return true,
    };
    if signature != WOFF2_SIGNATURE {
        return true;
    }
    let mut q = Parser::new(buf, 20);
    let stream_len = match q.u32() {
        Ok(v) => v,
        Err(_) => return true,
    };
    48 + (stream_len as u64) <= buf.len() as u64
}

/// Unpacks a WOFF2 file into its tables: tag and bytes of each, in
/// directory order.
pub fn read_woff2(buf: &[u8]) -> (r: Result<Vec<(Tag, Vec<u8>)>, FontError>)
    requires
        woff2_readable(buf@),
    ensures
        match r {
            Ok(v) => woff2_header_ok(buf@) && woff2_tables(buf@) == Some(tables_view(v@)),
            Err(e) => if !woff2_header_ok(buf@) {
                if buf@.len() >= 4 && be_u32(buf@, 0) != WOFF2_SIGNATURE {
                    e matches FontError::InvalidTable { tag: t, reason } && t.0@ == seq![
                        0x77u8,
                        0x4f,
                        0x46,
                        0x32,
                    ] && reason@ == "Expected WOFF2 signature 0x774F4632, got 0x"@
                        + crate::text::hex8(be_u32(buf@, 0))
                } else {
                    e is OutOfBounds
                }
            } else {
                woff2_tables(buf@) is None && match brotli_inflated(woff2_stream(buf@)) {
                    None => e matches FontError::InvalidTable { tag: t, .. } && t.0@ == seq![
                        0x77u8,
                        0x4f,
                        0x46,
                        0x32,
                    ],
                    Some(d) => match dir_at(d, be_u16(buf@, 12) as int) {
                        None => e is OutOfBounds,
                        Some(_) => e is InvalidTable,
                    },
                }
            },
        },
{
    let ghost s = buf@;
    let mut p = Parser::new(buf, 0);
    let signature = p.u32()?;
    if signature != WOFF2_SIGNATURE {
        let t = Tag([0x77, 0x4f, 0x46, 0x32]);
        assert(t.0@ =~= seq![0x77u8, 0x4f, 0x46, 0x32]);
        let msg = crate::text::woff2_signature_message(signature);
        return Err(FontError::invalid_table(t, msg.as_str()));
    }
    let _flavor = p.u32()?;
    let _length = p.u32()?;
    let num_tables = p.u16()?;
    let _reserved = p.u16()?;
    let _total_sfnt_size = p.u32()?;
    let total_compressed_size = p.u32()?;
    let _major_version = p.u16()?;
    let _minor_version = p.u16()?;
    let _meta_offset = p.u32()?;
    let _meta_length = p.u32()?;
    let _meta_orig_length = p.u32()?;
    let _priv_offset = p.u32()?;
    let _priv_length = p.u32()?;
    assert(woff2_header_ok(s));
    let blen = buf.len();
    let compressed = vstd::slice::slice_subrange(buf, 48, 48 + total_compressed_size as usize);
    assert(compressed@ == woff2_stream(s));
    let decompressed = match brotli_decompress(compressed) {
        Ok(d) => d,
        Err(msg) => {
            let t = Tag([0x77, 0x4f, 0x46, 0x32]);
            assert(t.0@ =~= seq![0x77u8, 0x4f, 0x46, 0x32]);
            return Err(FontError::invalid_table(t, msg.as_str()));
        },
    };
    let (dir, data_start) = read_dir(decompressed.as_slice(), num_tables)?;
    let ghost es = dir_at(decompressed@, num_tables as int).unwrap().0;
    proof {
        lemma_dir_end_bounded(decompressed@, num_tables as int);
    }
    read_slices(decompressed.as_slice(), &dir, data_start, Ghost(es))
}

proof fn lemma_dir_end_bounded(d: Seq<u8>, k: int)
    ensures
        dir_at(d, k) matches Some((es, p)) ==> 0 <= p <= d.len(),
    decreases k,
{
    if k > 0 {
        lemma_dir_end_bounded(d, k - 1);
    }
}


/// The first table type, from `i` on, whose tag a writer spells `code`.
pub open spec fn write_index_from(code: u32, i: int) -> Option<int>
    decreases 56 - i,
{
    if i < 0 || i >= 56 {
        None
    } else if write_known_code(i as u8) == Some(code) {
        Some(i)
    } else {
        write_index_from(code, i + 1)
    }
}

/// A tag as a big-endian number.
pub open spec fn tag_code(t: Seq<u8>) -> u32 {
    (t[0] as int * 16777216 + t[1] as int * 65536 + t[2] as int * 256 + t[3] as int) as u32
}

/// The directory entry `write_woff2` emits for a table: its type number,
/// or 63 and the tag, then its length.
pub open spec fn write_entry(tag: Seq<u8>, len: nat) -> Seq<u8> {
    match write_index_from(tag_code(tag), 0) {
        Some(i) => seq![i as u8] + uint_bytes(len as u32),
        None => seq![0x3Fu8] + tag + uint_bytes(len as u32),
    }
}

/// The directory entries of the first `k` tables.
pub open spec fn write_dir(tabs: Seq<(Seq<u8>, Seq<u8>)>, k: int) -> Seq<u8>
    decreases k,
{
    if k <= 0 {
        Seq::empty()
    } else {
        write_dir(tabs, k - 1) + write_entry(tabs[k - 1].0, tabs[k - 1].1.len())
    }
}

/// The data of the first `k` tables, one after the other.
pub open spec fn concat_data(tabs: Seq<(Seq<u8>, Seq<u8>)>, k: int) -> Seq<u8>
    decreases k,
{
    if k <= 0 {
        Seq::empty()
    } else {
        concat_data(tabs, k - 1) + tabs[k - 1].1
    }
}

/// The 48-byte header and the compressed stream.
pub open spec fn woff2_file(tabs: Seq<(Seq<u8>, Seq<u8>)>, comp: Seq<u8>) -> Seq<u8> {
    let n = tabs.len() as int;
    u32_bytes(WOFF2_SIGNATURE) + u32_bytes(0x00010000) + u32_bytes((48 + comp.len()) as u32)
        + u16_bytes(n as u16) + u16_bytes(0) + u32_bytes(
        (12 + 16 * n + padded_total(crate::woff::orig_lengths(tabs), n)) as u32,
    ) + u32_bytes(comp.len() as u32) + u16_bytes(1) + u16_bytes(0) + u32_bytes(0) + u32_bytes(0)
        + u32_bytes(0) + u32_bytes(0) + u32_bytes(0) + comp
}

/// The uncompressed stream of a WOFF2 file: the directory, then the data.
pub open spec fn woff2_payload(tabs: Seq<(Seq<u8>, Seq<u8>)>) -> Seq<u8> {
    write_dir(tabs, tabs.len() as int) + concat_data(tabs, tabs.len() as int)
}

fn write_index(code: u32) -> (r: Option<u8>)
    ensures
        match write_index_from(code, 0) {
            Some(i) => r == Some(i as u8),
            None => r is None,
        },
{
    let mut i: u8 = 0;
    while i < 56
        invariant
            i <= 56,
            write_index_from(code, 0) == write_index_from(code, i as int),
        decreases 56 - i,
    {
        match write_known(i) {
            Some(c) => {
                if c == code {
                    return Some(i);
                }
            },
            None => {},
        }
        i += 1;
    }
    None
}

/// Packs tables into a WOFF2 file: a directory of type numbers and
/// lengths, then the data, compressed together with Brotli behind a
/// 48-byte header.
pub fn write_woff2(tables: &[(Tag, Vec<u8>)]) -> (r: Result<Vec<u8>, FontError>)
    requires
        12 + 16 * tables@.len() + padded_total(
            crate::woff::orig_lengths(tables_view(tables@)),
            tables@.len() as int,
        ) <= usize::MAX,
    ensures
        r matches Ok(v) && v@ == woff2_file(
            tables_view(tables@),
            brotli_deflated(woff2_payload(tables_view(tables@))),
        ),
        brotli_inflated(brotli_deflated(woff2_payload(tables_view(tables@)))) == Some(
            woff2_payload(tables_view(tables@)),
        ),
        r matches Ok(v) && v@.len() > 48,
{
    let ghost tabs = tables_view(tables@);
    let ghost n = tabs.len() as int;
    let count = tables.len();
    proof {
        assert forall|i: int| 0 <= i < n implies #[trigger] crate::woff::orig_lengths(tabs)[i] >= 0 by {}
        crate::woff::lemma_padded_total_monotone(crate::woff::orig_lengths(tabs), 0, n);
    }
    let mut sfnt_size: usize = 12 + count * 16;
    let mut dir = Writer::new();
    let mut k: usize = 0;
    while k < count
        invariant
            tabs == tables_view(tables@),
            n == tabs.len(),
            count == n,
            12 + 16 * n + padded_total(crate::woff::orig_lengths(tabs), n) <= usize::MAX,
            k <= count,
            sfnt_size == 12 + 16 * n + padded_total(crate::woff::orig_lengths(tabs), k as int),
            dir@ == write_dir(tabs, k as int),
        decreases count - k,
    {
        proof {
            assert forall|i: int| 0 <= i < n implies #[trigger] crate::woff::orig_lengths(tabs)[i] >= 0 by {}
            crate::woff::lemma_padded_total_monotone(crate::woff::orig_lengths(tabs), k + 1, n);
        }
        let tag = &tables[k].0;
        let data = &tables[k].1;
        let len = data.len();
        assert(crate::woff::orig_lengths(tabs)[k as int] == len);
        assert(tabs[k as int] == (tag.0@, data@));
        sfnt_size = sfnt_size + len + (4 - len % 4) % 4;
        let code = tag.0[0] as u32 * 16777216 + tag.0[1] as u32 * 65536 + tag.0[2] as u32 * 256
            + tag.0[3] as u32;
        assert(code == tag_code(tag.0@));
        let ghost before = dir@;
        match write_index(code) {
            Some(i) => {
                dir.write_u8(i);
            },
            None => {
                dir.write_u8(0x3F);
                dir.write_tag(&tag.0);
            },
        }
        write_woff2_uint(&mut dir, len as u32);
        k += 1;
        proof {
            assert(dir@ =~= write_dir(tabs, k as int));
        }
    }
    let mut uncompressed = dir.into_vec();
    let mut k: usize = 0;
    let ghost d0 = uncompressed@;
    while k < count
        invariant
            tabs == tables_view(tables@),
            n == tabs.len(),
            count == n,
            k <= count,
            uncompressed@ == d0 + concat_data(tabs, k as int),
        decreases count - k,
    {
        let data = &tables[k].1;
        assert(tabs[k as int].1 == data@);
        let ghost before = uncompressed@;
        let mut j: usize = 0;
        let dl = data.len();
        while j < dl
            invariant
                dl == data@.len(),
                j <= dl,
                uncompressed@ == before + data@.subrange(0, j as int),
            decreases dl - j,
        {
            uncompressed.push(data[j]);
            j += 1;
            proof {
                assert(uncompressed@ =~= before + data@.subrange(0, j as int));
            }
        }
        k += 1;
        proof {
            assert(data@.subrange(0, dl as int) =~= data@);
            assert(uncompressed@ =~= d0 + concat_data(tabs, k as int));
        }
    }
    assert(uncompressed@ == woff2_payload(tabs));
    let compressed = match brotli_compress(uncompressed.as_slice()) {
        Ok(c) => c,
        Err(msg) => {
            let t = Tag([0x77, 0x4f, 0x46, 0x32]);
            assert(t.0@ =~= seq![0x77u8, 0x4f, 0x46, 0x32]);
            return Err(FontError::invalid_table(t, msg.as_str()));
        },
    };
    let mut w = Writer::new();
    w.write_u32(WOFF2_SIGNATURE);
    w.write_u32(0x00010000);
    let clen = compressed.len();
    let length: u32 = ((48 + clen as u128) % 0x1_0000_0000) as u32;
    w.write_u32(length);
    w.write_u16(count as u16);
    w.write_u16(0);
    w.write_u32(sfnt_size as u32);
    w.write_u32(clen as u32);
    w.write_u16(1);
    w.write_u16(0);
    w.write_u32(0);
    w.write_u32(0);
    w.write_u32(0);
    w.write_u32(0);
    w.write_u32(0);
    w.write_bytes(compressed.as_slice());
    proof {
        assert(length == (48 + clen) as u32) by (bit_vector)
            requires
                length == ((48 + clen as u128) % 0x1_0000_0000) as u32,
        ;
        assert(w@ =~= woff2_file(tabs, compressed@));
    }
    Ok(w.into_vec())
}

} // verus!
