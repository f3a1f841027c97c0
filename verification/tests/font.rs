use fonttype::tables::glyf::{CompositeComponent, CompositeGlyph, CompositeTransform, GlyfTable};
use fonttype::tables::kern::{Kern, KernPair, KernSubtable};
use fonttype::compare::{compare_fonts, FontDiff};
use fonttype::tables::cmap::CmapSubtable;
use fonttype::parse::Parser;
use fonttype::tables::glyf::Glyph;
use fonttype::tables::loca::LocaTable;
use fonttype::tracer::{image_to_rectangle_glyph, trace_image, Bitmap};
use fonttype::validation::IssueCategory;
use fonttype::write::Writer;
use fonttype::{read_woff, read_woff2, write_woff, write_woff2, Font, Tag, Ttc};

fn table_list(sfnt: &[u8]) -> Vec<(Tag, Vec<u8>)> {
    let mut p = Parser::new(sfnt, 0);
    let _sfnt_version = p.u32().unwrap();
    let num_tables = p.u16().unwrap();
    let _ = p.u16().unwrap();
    let _ = p.u16().unwrap();
    let _ = p.u16().unwrap();
    let mut table_data = Vec::with_capacity(num_tables as usize);
    for _ in 0..num_tables {
        let tag = p.tag().unwrap();
        let _checksum = p.u32().unwrap();
        let offset = p.u32().unwrap() as usize;
        let length = p.u32().unwrap() as usize;
        let data = p.buf()[offset..offset + length].to_vec();
        table_data.push((tag, data));
    }
    table_data
}

#[test]
fn test_create_minimal_roundtrip() {
    let font = Font::create_minimal();
    let bytes = font.write().expect("write should succeed");
    let font2 = Font::read(&bytes).expect("read should succeed");

    assert_eq!(font.head.major_version, font2.head.major_version);
    assert_eq!(font.hhea, font2.hhea);
    assert_eq!(font.maxp, font2.maxp);
    assert_eq!(font.post, font2.post);
    assert_eq!(font.name.records.len(), font2.name.records.len());
    assert_eq!(font.cmap.subtables.len(), font2.cmap.subtables.len());
    assert_eq!(font.os2, font2.os2);
}

#[test]
fn written_font_sums_to_the_magic_constant() {
    let bytes = Font::create_minimal().write().unwrap();
    assert_eq!(bytes.len() % 4, 0);
    assert_eq!(fonttype::parse::checksum_table(&bytes), 0xB1B0AFBA);
    // The directory is sorted by tag.
    let tables = table_list(&bytes);
    for pair in tables.windows(2) {
        assert!(pair[0].0 .0 <= pair[1].0 .0);
    }
}

#[test]
fn test_cmap_mapping() {
    let font = Font::create_minimal();
    assert_eq!(font.cmap.map_codepoint(0x20), Some(1));
    assert_eq!(font.cmap.map_codepoint(0x7E), Some(95));
    assert_eq!(font.cmap.map_codepoint(0x00), None);
}

#[test]
fn test_name_lookup() {
    let font = Font::create_minimal();
    assert_eq!(font.name.family_name(), Some("TestFont".to_string()));
    assert_eq!(font.name.subfamily_name(), Some("Regular".to_string()));
}

#[test]
fn test_glyf_roundtrip() {
    let mut font = Font::create_minimal();
    let rectangle = Glyph::from_points(vec![vec![(0, 0), (100, 0), (100, 100), (0, 100), (0, 0)]]);
    if let Some(ref mut glyf) = font.glyf {
        glyf.glyphs.push(rectangle);
    }
    font.maxp.num_glyphs = 2;
    if let Some(ref mut loca) = font.loca {
        let sizes: Vec<usize> = if let Some(ref glyf) = font.glyf {
            glyf.glyphs
                .iter()
                .map(|g| {
                    let mut w = Writer::new();
                    g.write(&mut w);
                    w.len()
                })
                .collect()
        } else {
            vec![]
        };
        *loca = LocaTable::from_glyph_sizes(&sizes, true);
    }

    let bytes = font.write().expect("write should succeed");
    let font2 = Font::read(&bytes).expect("read should succeed");

    assert!(font2.glyf.is_some());
    let glyf = font2.glyf.as_ref().unwrap();
    assert_eq!(glyf.glyphs.len(), 2);
    assert!(matches!(glyf.glyphs[1], Glyph::Simple(_)));
}

#[test]
fn test_glyph_from_points() {
    let glyph = Glyph::from_points(vec![vec![(0, 0), (10, 0), (10, 10), (0, 10), (0, 0)]]);
    if let Glyph::Simple(sg) = glyph {
        assert_eq!(sg.number_of_contours, 1);
        assert_eq!(sg.x_min, 0);
        assert_eq!(sg.y_min, 0);
        assert_eq!(sg.x_max, 10);
        assert_eq!(sg.y_max, 10);
        assert_eq!(sg.end_pts_of_contours, vec![4]);
    } else {
        panic!("Expected Simple glyph");
    }
}

#[test]
fn test_image_tracer_rectangle() {
    let mut img = Bitmap::from_pixel(32, 32, 255);
    for y in 8..24 {
        for x in 8..24 {
            img.put_pixel(x, y, 0);
        }
    }
    let contours = trace_image(&img, 128);
    assert!(!contours.is_empty(), "tracer should find at least one contour");
    let first = &contours[0];
    assert!(first.len() >= 4, "contour should have at least 4 points");
}

#[test]
fn tracer_finds_nothing_in_a_light_image() {
    let img = Bitmap::from_pixel(16, 16, 255);
    assert!(trace_image(&img, 128).is_empty());
}

#[test]
fn rectangle_glyph_spans_the_image() {
    let img = Bitmap::from_pixel(40, 30, 0);
    assert_eq!(image_to_rectangle_glyph(&img), vec![vec![(0, 0), (40, 0), (40, 30), (0, 30), (0, 0)]]);
}

#[test]
fn test_subset_font() {
    let font = Font::create_minimal();
    let subset = font.subset(&[0]);
    assert_eq!(subset.maxp.num_glyphs, 1);
    assert_eq!(subset.hmtx.h_metrics.len(), 1);
    assert_eq!(subset.glyf.as_ref().unwrap().glyphs.len(), 1);
}

#[test]
fn subset_drops_unknown_glyphs_but_keeps_their_metrics() {
    let font = Font::create_minimal();
    let subset = font.subset(&[0, 7]);
    assert_eq!(subset.glyf.as_ref().unwrap().glyphs.len(), 1);
    assert_eq!(subset.maxp.num_glyphs, 1);
    assert_eq!(subset.hmtx.h_metrics.len(), 2);
    assert_eq!(subset.hhea.number_of_hmetrics, 1);
    assert!(subset.gpos.is_none() && subset.cff.is_none());
}

#[test]
fn test_validate_minimal_font() {
    let font = Font::create_minimal();
    let bytes = font.write().unwrap();
    let font2 = Font::read(&bytes).unwrap();
    let issues = font2.validate(&bytes);
    assert!(!issues.iter().any(|i| i.contains("Missing required table")));
    assert!(!issues.iter().any(|i| i.contains("glyph count")));
}

#[test]
fn test_woff_roundtrip() {
    let font = Font::create_minimal();
    let sfnt = font.write().unwrap();
    let table_data = table_list(&sfnt);

    let woff = write_woff(&table_data).unwrap();
    let recovered_sfnt = read_woff(&woff).unwrap();
    let font2 = Font::read(&recovered_sfnt).unwrap();
    assert_eq!(font.name.family_name(), font2.name.family_name());
    assert_eq!(font.maxp.num_glyphs, font2.maxp.num_glyphs);
}

#[test]
fn woff_with_a_wrong_signature_is_refused() {
    let mut woff = write_woff(&[(Tag::new(b"head"), vec![0; 54])]).unwrap();
    woff[0] = b'x';
    assert!(read_woff(&woff).is_err());
}

#[test]
fn test_woff2_roundtrip() {
    let font = Font::create_minimal();
    let sfnt = font.write().unwrap();
    let table_data = table_list(&sfnt);
    let woff2 = write_woff2(&table_data).unwrap();
    assert!(woff2.len() > 48);
    let recovered = read_woff2(&woff2).unwrap();
    assert_eq!(recovered.len(), table_data.len());
}

#[test]
fn woff2_gives_back_the_tables() {
    let tables = vec![
        (Tag::new(b"head"), vec![1, 2, 3, 4, 5]),
        (Tag::new(b"zzzz"), vec![9; 300]),
    ];
    let packed = write_woff2(&tables).unwrap();
    assert_eq!(read_woff2(&packed).unwrap(), tables);
}

#[test]
fn test_ttc_parsing() {
    let font = Font::create_minimal();
    let font_bytes = font.write().unwrap();
    let font2 = Font::create_minimal();
    let mut font2_bytes = font2.write().unwrap();
    font2_bytes[0] = 0x4F;
    font2_bytes[1] = 0x54;
    font2_bytes[2] = 0x54;
    font2_bytes[3] = 0x4F;

    let mut ttc_bytes = Vec::new();
    ttc_bytes.extend_from_slice(b"ttcf");
    ttc_bytes.extend_from_slice(&0x00020000u32.to_be_bytes());
    ttc_bytes.extend_from_slice(&2u32.to_be_bytes());
    let offset1 = 12 + 8 + 12;
    let offset2 = offset1 + font_bytes.len();
    ttc_bytes.extend_from_slice(&(offset1 as u32).to_be_bytes());
    ttc_bytes.extend_from_slice(&(offset2 as u32).to_be_bytes());
    ttc_bytes.extend_from_slice(&0u32.to_be_bytes());
    ttc_bytes.extend_from_slice(&0u32.to_be_bytes());
    ttc_bytes.extend_from_slice(&0u32.to_be_bytes());
    ttc_bytes.extend_from_slice(&font_bytes);
    ttc_bytes.extend_from_slice(&font2_bytes);

    let ttc = Ttc::parse(&ttc_bytes).unwrap();
    assert_eq!(ttc.num_fonts, 2);
    assert_eq!(ttc.offsets.len(), 2);
    let f0 = ttc.font_at(&ttc_bytes, 0).unwrap();
    assert_eq!(f0.maxp.num_glyphs, font.maxp.num_glyphs);
}

#[test]
fn ttc_index_past_the_end_is_refused() {
    let mut ttc_bytes = Vec::new();
    ttc_bytes.extend_from_slice(b"ttcf");
    ttc_bytes.extend_from_slice(&0x00010000u32.to_be_bytes());
    ttc_bytes.extend_from_slice(&0u32.to_be_bytes());
    let ttc = Ttc::parse(&ttc_bytes).unwrap();
    assert_eq!(ttc.dsig_tag, None);
    match ttc.font_at(&ttc_bytes, 3) {
        Err(fonttype::FontError::InvalidTable { reason, .. }) => {
            assert_eq!(reason, "Font index 3 out of range (0 fonts)")
        }
        _ => panic!("expected an error"),
    }
}

#[test]
fn test_extract_inject_roundtrip() {
    let font = Font::create_minimal();
    let bytes = font.write().unwrap();
    let font2 = Font::read(&bytes).unwrap();
    if let Some((tag, data)) = font2.raw_tables.iter().find(|(t, _)| *t == Tag::new(b"MATH")) {
        let mut font3 = Font::create_minimal();
        font3.raw_tables.push((*tag, data.clone()));
        let out = font3.write().unwrap();
        let font4 = Font::read(&out).unwrap();
        assert!(font4.raw_tables.iter().any(|(t, _)| *t == Tag::new(b"MATH")));
    }
}

#[test]
fn raw_tables_survive_a_write() {
    let mut font = Font::create_minimal();
    font.raw_tables.push((Tag::new(b"MATH"), vec![1, 2, 3]));
    let out = font.write().unwrap();
    let back = Font::read(&out).unwrap();
    let math = back.raw_tables.iter().find(|(t, _)| *t == Tag::new(b"MATH")).unwrap();
    assert_eq!(math.1, vec![1, 2, 3, 0]);
}

#[test]
fn reading_garbage_fails_cleanly() {
    assert!(Font::read(&[]).is_err());
    assert!(matches!(
        Font::read(&[0xDE, 0xAD, 0xBE, 0xEF, 0, 0, 0, 0, 0, 0, 0, 0]),
        Err(fonttype::FontError::InvalidTable { .. })
    ));
}

#[test]
fn test_report_is_valid_for_minimal_font() {
    let font = Font::create_minimal();
    let bytes = font.write().unwrap();
    let reread = Font::read(&bytes).unwrap();
    let report = reread.validate_report(&bytes);
    assert!(report.is_valid(), "{}", report.summary());
}

#[test]
fn test_report_categorizes_bad_magic() {
    let font = Font::create_minimal();
    let bytes = font.write().unwrap();
    let mut bad = Font::read(&bytes).unwrap();
    bad.head.magic_number = 0xDEADBEEF;
    let report = bad.validate_report(&bytes);
    assert!(!report.is_valid());
    assert!(report.errors().iter().any(|i| i.category == IssueCategory::HeadMagic));
}

#[test]
fn test_report_detects_overlap() {
    let font = Font::create_minimal();
    let bytes = font.write().unwrap();
    let mut bad = Font::read(&bytes).unwrap();
    if bad.tables.len() >= 2 {
        bad.tables[1].offset = bad.tables[0].offset;
        bad.tables[1].length = bad.tables[0].length;
    }
    let report = bad.validate_report(&bytes);
    assert!(report.errors().iter().any(|i| i.category == IssueCategory::TableOverlap));
}

#[test]
fn test_report_checksum_is_warning() {
    let font = Font::create_minimal();
    let bytes = font.write().unwrap();
    let mut bad = Font::read(&bytes).unwrap();
    if let Some(rec) = bad.tables.iter_mut().find(|t| t.tag == Tag::new(b"post")) {
        rec.checksum = rec.checksum.wrapping_add(1);
    }
    let report = bad.validate_report(&bytes);
    assert!(report.is_valid());
    assert!(report.warnings().iter().any(|i| i.category == IssueCategory::Checksum));
}

#[test]
fn report_messages_name_the_problem() {
    let font = Font::create_minimal();
    let bytes = font.write().unwrap();
    let mut bad = Font::read(&bytes).unwrap();
    bad.head.units_per_em = 8;
    let issues = bad.validate(&bytes);
    assert!(issues.iter().any(|m| m == "head.unitsPerEm is 8, expected 16..16384"));
    assert_eq!(Font::read(&bytes).unwrap().validate_report(&bytes).summary(), "valid");
}

#[test]
fn test_modifier_updates_family_and_version() {
    let mut font = Font::create_minimal();
    font.modify().set_family("Renamed").set_version(2, 1);
    assert_eq!(font.name.family_name().as_deref(), Some("Renamed"));
    assert_eq!(font.head.font_revision >> 16, 2);
    let written = font.write().unwrap();
    let reread = Font::read(&written).unwrap();
    assert_eq!(reread.name.family_name().as_deref(), Some("Renamed"));
}

#[test]
fn version_sets_the_revision_and_the_name() {
    let mut font = Font::create_minimal();
    font.modify().set_version(1, 50);
    assert_eq!(font.head.font_revision, 0x0001_0000 + 32768);
    assert_eq!(font.name.version().as_deref(), Some("Version 1.50"));
}

#[test]
fn test_modifier_vertical_metrics_synced() {
    let mut font = Font::create_minimal();
    font.modify().set_font_metrics(2048, 1800, -400, 100);
    assert_eq!(font.head.units_per_em, 2048);
    assert_eq!(font.hhea.ascender, 1800);
    assert_eq!(font.os2.s_typo_ascender, 1800);
    assert_eq!(font.hhea.descender, -400);
}

#[test]
fn test_modifier_glyph_advance_and_max() {
    let mut font = Font::create_minimal();
    font.modify().set_glyph_advance(0, 750);
    assert_eq!(font.hmtx.h_metrics[0].advance_width, 750);
    assert_eq!(font.hhea.advance_width_max, 750);
}

#[test]
fn test_modifier_adds_missing_name_record() {
    let mut font = Font::create_minimal();
    font.modify().set_full_name("TestFont Regular");
    assert_eq!(font.name.full_name().as_deref(), Some("TestFont Regular"));
}

#[test]
fn tracer_outlines_a_square_block() {
    let mut img = Bitmap::from_pixel(4, 4, 255);
    for y in 1..3 {
        for x in 1..3 {
            img.put_pixel(x, y, 0);
        }
    }
    assert_eq!(trace_image(&img, 128), vec![vec![(1, 1), (2, 1), (2, 2), (1, 2), (1, 1)]]);
}

#[test]
fn tracer_drops_points_on_a_straight_run() {
    let mut img = Bitmap::from_pixel(5, 3, 255);
    for x in 1..4 {
        img.put_pixel(x, 1, 0);
    }
    assert_eq!(trace_image(&img, 128), vec![vec![(1, 1), (2, 1), (1, 1)]]);
}

#[test]
fn a_traced_glyph_becomes_glyph_one() {
    let glyph = Glyph::from_points(vec![vec![(0, 0), (10, 0), (10, 10), (0, 10), (0, 0)]]);
    let font = Font::create_minimal().with_traced_glyph(glyph.clone(), 0xE000);
    let glyf = font.glyf.as_ref().unwrap();
    assert_eq!(glyf.glyphs.len(), 2);
    assert_eq!(glyf.glyphs[1], glyph);
    assert_eq!(font.maxp.num_glyphs, 2);
    assert_eq!(font.hhea.number_of_hmetrics, 2);
    assert_eq!(font.hmtx.h_metrics.len(), 2);
    assert_eq!(font.hmtx.h_metrics[1].advance_width, 500);
    let loca = font.loca.as_ref().unwrap();
    assert_eq!(loca.format, 1);
    assert_eq!(loca.offsets.len(), 3);
    assert_eq!(loca.offsets[1], 0);
    assert!(loca.offsets[2] > 0);
    match &font.cmap.subtables[0] {
        CmapSubtable::Format12 { groups, .. } => {
            let last = groups.last().unwrap();
            assert_eq!((last.start_char_code, last.end_char_code, last.start_glyph_id), (0xE000, 0xE000, 1));
        }
        other => panic!("unexpected subtable {:?}", other),
    }
    assert_eq!(font.cmap.subtables[0].map(0xE000), Some(1));
    let back = Font::read(&font.write().unwrap()).unwrap();
    assert_eq!(back.maxp.num_glyphs, 2);
}

#[test]
fn compare_lists_the_differences() {
    let a = Font::read(&Font::create_minimal().write().unwrap()).unwrap();
    assert!(compare_fonts(&a, &a).is_empty());
    let mut b = a.clone();
    b.head.units_per_em = 2048;
    b.maxp.num_glyphs = 7;
    let head_at = b.tables.iter().position(|r| &r.tag.0 == b"head").unwrap();
    b.tables[head_at].length += 4;
    let removed = b.tables.remove(0);
    let d = compare_fonts(&a, &b);
    let text: Vec<String> = d.iter().map(|x| format!("{:?}", x)).collect();
    assert!(matches!(&d[0], FontDiff::OnlyInFirst(t) if t == &removed.tag), "{:?}", text);
    assert!(d.iter().any(|x| matches!(x, FontDiff::TableLength(t, _, _) if &t.0 == b"head")), "{:?}", text);
    assert!(d.iter().any(|x| matches!(x, FontDiff::GlyphCount(1, 7))), "{:?}", text);
    assert!(d.iter().any(|x| matches!(x, FontDiff::UnitsPerEm(1000, 2048))), "{:?}", text);
}

#[test]
fn tracer_reads_wide_sides_as_16_bit_numbers() {
    let img = Bitmap::from_pixel(40000, 2, 0);
    assert!(trace_image(&img, 128).is_empty());
    let img = Bitmap::from_pixel(65538, 2, 0);
    assert_eq!(trace_image(&img, 128), vec![vec![(0, 0), (1, 0), (1, 1), (0, 1), (0, 0)]]);
}

#[test]
fn written_fonts_sum_to_the_magic_number() {
    let mut font = Font::create_minimal();
    font.head.check_sum_adjustment = 0x12345678;
    let bytes = font.write().unwrap();
    assert_eq!(fonttype::parse::checksum_table(&bytes), 0xB1B0AFBA);
}

#[test]
fn written_font_with_kern_and_raw_table_reads_back() {
    let mut font = Font::create_minimal();
    font.kern = Some(Kern {
        version: 0,
        n_tables: 1,
        subtables: vec![KernSubtable {
            version: 0,
            length: 20,
            coverage: 1,
            pairs: vec![KernPair { left: 1, right: 2, value: -40 }],
        }],
    });
    font.raw_tables.push((Tag::new(b"zzzz"), vec![1, 2, 3, 4, 5]));
    let bytes = font.write().expect("write should succeed");
    let back = Font::read(&bytes).expect("a written font reads back");
    assert_eq!(back.kern, font.kern);
    assert_eq!(back.name.records, font.name.records);
    assert_eq!(back.cmap.subtables, font.cmap.subtables);
    assert_eq!(back.hmtx.h_metrics, font.hmtx.h_metrics);
    assert_eq!(back.raw_tables.len(), 1);
    assert_eq!(back.raw_tables[0].1, vec![1, 2, 3, 4, 5, 0, 0, 0]);
    // Each directory record is aligned and its bytes lie inside the file.
    let n = u16::from_be_bytes([bytes[4], bytes[5]]) as usize;
    for k in 0..n {
        let r = 12 + 16 * k;
        let off = u32::from_be_bytes([bytes[r + 8], bytes[r + 9], bytes[r + 10], bytes[r + 11]]) as usize;
        let len = u32::from_be_bytes([bytes[r + 12], bytes[r + 13], bytes[r + 14], bytes[r + 15]]) as usize;
        assert_eq!(off % 4, 0);
        assert!(off + len <= bytes.len());
    }
}

#[test]
fn written_woff2_is_longer_than_its_header() {
    let bytes = write_woff2(&[(Tag::new(b"abcd"), vec![])]).unwrap();
    assert!(bytes.len() > 48);
}

#[test]
fn written_font_with_composite_glyph_reads_back() {
    let mut font = Font::create_minimal();
    let comp = CompositeGlyph {
        x_min: 0,
        y_min: 0,
        x_max: 100,
        y_max: 100,
        components: vec![
            CompositeComponent { glyph_index: 0, flags: 0x0008, argument1: 300, argument2: -2, transformation: Some(CompositeTransform::Scale(8192)) },
            CompositeComponent { glyph_index: 0, flags: 0, argument1: 1, argument2: 2, transformation: None },
        ],
    };
    font.glyf = Some(GlyfTable { glyphs: vec![Glyph::Empty, Glyph::Composite(comp.clone())] });
    font.maxp.num_glyphs = 2;
    font.hmtx.left_side_bearings.push(0);
    let bytes = font.write().expect("write should succeed");
    let back = Font::read(&bytes).expect("a written font reads back");
    let glyphs = back.glyf.unwrap().glyphs;
    assert_eq!(glyphs.len(), 2);
    match &glyphs[1] {
        Glyph::Composite(c) => {
            assert_eq!(c.components.len(), 2);
            assert_eq!(c.components[0].argument1, 300);
            assert_eq!(c.components[0].transformation, Some(CompositeTransform::Scale(8192)));
            assert_eq!(c.components[1].argument2, 2);
        }
        _ => panic!("expected a composite glyph"),
    }
}
