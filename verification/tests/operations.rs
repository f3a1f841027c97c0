use fonttype::coverage::{count_in_block, covered_codepoints};
use fonttype::sfnt::{build_sfnt, sfnt_tables};
use fonttype::tables::cmap::{Cmap, CmapSubtable, Format4Segment, SequentialMapGroup};
use fonttype::tables::glyf::{Glyph, SimpleGlyph};
use fonttype::{Font, FontError, Tag};

fn hinted_glyph() -> Glyph {
    Glyph::Simple(SimpleGlyph {
        number_of_contours: 1,
        x_min: 0,
        y_min: 0,
        x_max: 10,
        y_max: 10,
        end_pts_of_contours: vec![2],
        instructions: vec![0xB0, 0x01, 0x2F],
        flags: vec![1, 1, 1],
        x_coordinates: vec![0, 10, 0],
        y_coordinates: vec![0, 0, 10],
    })
}

#[test]
fn strip_hinting_removes_tables_and_instructions() {
    let mut font = Font::create_minimal();
    font.cvt = Some(vec![0, 1, 0, 2]);
    font.prep = Some(vec![0xB0, 0x00]);
    font.fpgm = Some(vec![0xB0, 0x01]);
    if let Some(ref mut glyf) = font.glyf {
        glyf.glyphs.push(hinted_glyph());
    }
    let head_before = font.head.clone();
    font.strip_hinting();
    assert!(font.cvt.is_none());
    assert!(font.prep.is_none());
    assert!(font.fpgm.is_none());
    assert_eq!(font.head, head_before);
    let glyf = font.glyf.as_ref().unwrap();
    assert_eq!(glyf.glyphs.len(), 2);
    match &glyf.glyphs[1] {
        Glyph::Simple(sg) => {
            assert!(sg.instructions.is_empty());
            assert_eq!(sg.flags, vec![1, 1, 1]);
            assert_eq!(sg.x_coordinates, vec![0, 10, 0]);
            assert_eq!(sg.end_pts_of_contours, vec![2]);
        }
        _ => panic!("expected a simple glyph"),
    }
}

#[test]
fn merge_appends_glyphs_metrics_and_mappings() {
    let mut base = Font::create_minimal();
    let mut other = Font::create_minimal();
    if let Some(ref mut glyf) = other.glyf {
        glyf.glyphs.push(hinted_glyph());
    }
    other.cmap = Cmap {
        version: 0,
        num_tables: 1,
        records: vec![],
        subtables: vec![CmapSubtable::Format12 {
            language: 0,
            groups: vec![SequentialMapGroup { start_char_code: 0x41, end_char_code: 0x42, start_glyph_id: 1 }],
        }],
    };
    let base_glyphs = base.glyf.as_ref().unwrap().glyphs.len();
    let other_glyphs = other.glyf.as_ref().unwrap().glyphs.len();
    let base_metrics = base.hmtx.h_metrics.len();
    let base_groups = match &base.cmap.subtables[0] {
        CmapSubtable::Format12 { groups, .. } => groups.len(),
        _ => 0,
    };
    let shift = base.maxp.num_glyphs as u32;
    base.merge(&other);

    let glyf = base.glyf.as_ref().unwrap();
    assert_eq!(glyf.glyphs.len(), base_glyphs + other_glyphs);
    assert_eq!(glyf.glyphs[base_glyphs + other_glyphs - 1], hinted_glyph());
    assert_eq!(base.maxp.num_glyphs as usize, base_glyphs + other_glyphs);
    let loca = base.loca.as_ref().unwrap();
    assert_eq!(loca.offsets.len(), base_glyphs + other_glyphs + 1);
    assert_eq!(loca.offsets[0], 0);
    assert_eq!(base.hmtx.h_metrics.len(), base_metrics + other.hmtx.h_metrics.len());
    assert_eq!(base.hhea.number_of_hmetrics as usize, base.hmtx.h_metrics.len());
    match &base.cmap.subtables[0] {
        CmapSubtable::Format12 { groups, .. } => {
            assert_eq!(groups.len(), base_groups + 1);
            let last = groups[groups.len() - 1];
            assert_eq!(last.start_char_code, 0x41);
            assert_eq!(last.end_char_code, 0x42);
            assert_eq!(last.start_glyph_id, 1 + shift);
        }
        _ => panic!("expected Format 12"),
    }
    assert!(base.gpos.is_none() && base.gsub.is_none() && base.kern.is_none());
    assert!(base.hvar.is_none() && base.gvar.is_none());
    // The merged font still writes and reads back.
    let bytes = base.write().unwrap();
    let again = Font::read(&bytes).unwrap();
    assert_eq!(again.maxp.num_glyphs as usize, base_glyphs + other_glyphs);
}

#[test]
fn sfnt_tables_lists_the_directory() {
    let bytes = Font::create_minimal().write().unwrap();
    let tables = sfnt_tables(&bytes).unwrap();
    assert_eq!(tables.len(), u16::from_be_bytes([bytes[4], bytes[5]]) as usize);
    let head = tables.iter().find(|(t, _)| *t == Tag::new(b"head")).unwrap();
    // `write` pads each table to four bytes before recording its length.
    assert_eq!(head.1.len(), 56);
    let mut sorted = tables.iter().map(|(t, _)| t.0).collect::<Vec<_>>();
    sorted.sort();
    assert_eq!(sorted, tables.iter().map(|(t, _)| t.0).collect::<Vec<_>>());
}

#[test]
fn sfnt_tables_rejects_a_short_directory() {
    let bytes = Font::create_minimal().write().unwrap();
    assert!(matches!(sfnt_tables(&bytes[..8]), Err(FontError::OutOfBounds { .. })));
    assert!(matches!(sfnt_tables(&bytes[..40]), Err(FontError::OutOfBounds { .. })));
}

#[test]
fn build_sfnt_lays_out_tables_as_given() {
    let tables = vec![
        (Tag::new(b"zzzz"), vec![1u8, 2, 3]),
        (Tag::new(b"aaaa"), vec![9u8; 8]),
    ];
    let bytes = build_sfnt(&tables);
    // Header: version, two tables, search range 32, selector 1, shift 0.
    assert_eq!(&bytes[0..12], &[0, 1, 0, 0, 0, 2, 0, 32, 0, 1, 0, 0]);
    assert_eq!(bytes.len(), 12 + 32 + 4 + 8);
    assert_eq!(&bytes[12..16], b"zzzz");
    // First table starts right after the directory, with its true length.
    assert_eq!(&bytes[20..28], &[0, 0, 0, 44, 0, 0, 0, 3]);
    // Checksum of the padded first table: 0x01020300.
    assert_eq!(&bytes[16..20], &[1, 2, 3, 0]);
    assert_eq!(&bytes[44..48], &[1, 2, 3, 0]);
    assert_eq!(&bytes[28..32], b"aaaa");
    assert_eq!(&bytes[36..40], &[0, 0, 0, 48]);
    // The list comes back out the same.
    assert_eq!(sfnt_tables(&bytes).unwrap(), tables);
}

#[test]
fn covered_codepoints_joins_subtables_sorted() {
    let mut ids = [0u8; 256];
    ids[0x20] = 3;
    ids[0x41] = 4;
    let cmap = Cmap {
        version: 0,
        num_tables: 3,
        records: vec![],
        subtables: vec![
            CmapSubtable::Format0 { language: 0, glyph_id_array: ids },
            CmapSubtable::Format4 {
                language: 0,
                segments: vec![Format4Segment { end_code: 0x43, start_code: 0x40, id_delta: 0, id_range_offset: 0 }],
            },
            CmapSubtable::Format12 {
                language: 0,
                groups: vec![SequentialMapGroup { start_char_code: 0x1F600, end_char_code: 0x1F601, start_glyph_id: 7 }],
            },
        ],
    };
    let cps = covered_codepoints(&cmap);
    assert_eq!(cps, vec![0x20, 0x40, 0x41, 0x42, 0x43, 0x1F600, 0x1F601]);
    assert_eq!(count_in_block(&cps, 0x0000, 0x007F), 5);
    assert_eq!(count_in_block(&cps, 0x1F600, 0x1F64F), 2);
    assert_eq!(count_in_block(&cps, 0x0080, 0x00FF), 0);
}

#[test]
fn covered_codepoints_of_the_minimal_font() {
    let font = Font::create_minimal();
    let cps = covered_codepoints(&font.cmap);
    assert_eq!(cps.first(), Some(&0x20));
    assert_eq!(cps.last(), Some(&0x7E));
    assert_eq!(count_in_block(&cps, 0x0000, 0x007F), 95);
}

#[test]
fn woff_unpacks_to_the_plain_layout() {
    let tables = sfnt_tables(&Font::create_minimal().write().unwrap()).unwrap();
    let woff = fonttype::write_woff(&tables).unwrap();
    assert!(fonttype::woff::woff_can_read(&woff));
    let sfnt = fonttype::read_woff(&woff).unwrap();
    assert_eq!(sfnt, build_sfnt(&tables));
    assert_eq!(sfnt_tables(&sfnt).unwrap(), tables);
}

#[test]
fn woff2_unpacks_to_the_same_tables() {
    let tables = sfnt_tables(&Font::create_minimal().write().unwrap()).unwrap();
    let woff2 = fonttype::write_woff2(&tables).unwrap();
    assert!(fonttype::woff2::woff2_can_read(&woff2));
    assert_eq!(fonttype::read_woff2(&woff2).unwrap(), tables);
}

#[test]
fn woff_can_read_refuses_a_directory_past_the_end() {
    let tables = sfnt_tables(&Font::create_minimal().write().unwrap()).unwrap();
    let woff = fonttype::write_woff(&tables).unwrap();
    // A file cut inside the compressed data still has a whole directory.
    let cut = &woff[..woff.len() - 8];
    assert!(!fonttype::woff::woff_can_read(cut));
    // Bytes that are no WOFF file at all can be handed over: they are refused.
    assert!(fonttype::woff::woff_can_read(b"not a font"));
    assert!(fonttype::read_woff(b"not a font").is_err());
}

#[test]
fn woff2_can_read_refuses_a_stream_past_the_end() {
    let tables = sfnt_tables(&Font::create_minimal().write().unwrap()).unwrap();
    let woff2 = fonttype::write_woff2(&tables).unwrap();
    assert!(!fonttype::woff2::woff2_can_read(&woff2[..woff2.len() - 1]));
    assert!(fonttype::woff2::woff2_can_read(&woff2[..20]));
}

#[test]
fn written_font_reads_back_its_fixed_tables() {
    let mut font = Font::create_minimal();
    font.hhea.ascender = 901;
    font.maxp.num_glyphs = 1;
    font.post.italic_angle = -12 * 65536;
    font.os2.us_weight_class = 700;
    font.head.units_per_em = 2048;
    let bytes = font.write().unwrap();
    let back = Font::read(&bytes).unwrap();
    assert_eq!(back.hhea, font.hhea);
    assert_eq!(back.maxp, font.maxp);
    assert_eq!(back.os2, font.os2);
    assert_eq!(back.post.italic_angle, font.post.italic_angle);
    assert_eq!(back.head.units_per_em, 2048);
    assert_eq!(back.head.index_to_loc_format, 1);
    // The adjustment makes the whole file sum to the magic number.
    assert_eq!(fonttype::parse::checksum_table(&bytes), 0xB1B0AFBA);
    let listed: Vec<[u8; 4]> = back.tables.iter().map(|r| r.tag.0).collect();
    let mut sorted = listed.clone();
    sorted.sort();
    assert_eq!(listed, sorted);
}

#[test]
fn unknown_tables_come_back_padded_in_tag_order() {
    let mut font = Font::create_minimal();
    font.raw_tables.push((Tag::new(b"ZZZZ"), vec![1, 2, 3, 4, 5]));
    font.raw_tables.push((Tag::new(b"MATH"), vec![9, 9]));
    let back = Font::read(&font.write().unwrap()).unwrap();
    assert_eq!(
        back.raw_tables,
        vec![(Tag::new(b"MATH"), vec![9, 9, 0, 0]), (Tag::new(b"ZZZZ"), vec![1, 2, 3, 4, 5, 0, 0, 0])]
    );
}

#[test]
fn rewriting_a_read_font_sums_to_the_magic_again() {
    let bytes = Font::create_minimal().write().unwrap();
    let read = Font::read(&bytes).unwrap();
    assert_ne!(read.head.check_sum_adjustment, 0);
    let again = read.write().unwrap();
    assert_eq!(fonttype::parse::checksum_table(&again), 0xB1B0AFBA);
    let back = Font::read(&again).unwrap();
    for rec in &back.tables {
        let start = rec.offset as usize;
        let mut data = again[start..start + rec.length as usize].to_vec();
        if &rec.tag.0 == b"head" {
            data[8..12].copy_from_slice(&[0, 0, 0, 0]);
        }
        assert_eq!(rec.checksum, fonttype::parse::checksum_table(&data));
    }
}

#[test]
fn subset_keeps_the_other_tables() {
    let mut font = Font::create_minimal();
    font.cvt = Some(vec![0, 7]);
    font.raw_tables.push((Tag::new(b"MATH"), vec![1, 2, 3]));
    let sub = font.subset(&[0]);
    assert_eq!(sub.head, font.head);
    assert_eq!(sub.os2, font.os2);
    assert_eq!(sub.name, font.name);
    assert_eq!(sub.post, font.post);
    assert_eq!(sub.cvt, Some(vec![0, 7]));
    assert_eq!(sub.raw_tables, font.raw_tables);
    assert_eq!(sub.hhea.ascender, font.hhea.ascender);
    assert_eq!(sub.maxp.version, font.maxp.version);
}
