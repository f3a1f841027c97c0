use fonttype::parse::checksum_table;
use fonttype::tables::cff::Cff;
use fonttype::tables::colr::Colr;
use fonttype::tables::cpal::Cpal;
use fonttype::tables::svg::Svg;
use fonttype::tables::cmap::{
    Cmap, CmapSubtable, ConstantMapGroup, EncodingRecord, Format4Segment, NonDefaultUvMapping,
    SequentialMapGroup, UnicodeRange, VariationSelectorRecord,
};
use fonttype::tables::fvar::{AxisRecord, Fvar, InstanceRecord};
use fonttype::tables::glyf::{CompositeComponent, CompositeGlyph, CompositeTransform, SimpleGlyph};
use fonttype::tables::gpos::{Gpos, GposKernPair};
use fonttype::tables::gsub::Gsub;
use fonttype::tables::head::Head;
use fonttype::tables::hmtx::{Hmtx, LongHorMetricRecord};
use fonttype::tables::kern::{Kern, KernPair, KernSubtable};
use fonttype::tables::loca::LocaTable;
use fonttype::tables::name::{Name, NameRecord};
use fonttype::tables::os2::Os2;
use fonttype::tables::post::Post;
use fonttype::tables::stat::{AxisValueRecord, DesignAxisRecord, Stat};
use fonttype::tables::var::{Gvar, Hvar};
use fonttype::write::Writer;
use fonttype::{Table, Tag};

/// A 16.16 fixed-point number as its raw 32-bit value.
fn fixed(v: f64) -> i32 {
    (v * 65536.0) as i32
}

/// An F2Dot14 number as its raw 16-bit value.
fn f2dot14(v: f32) -> i16 {
    (v * 16384.0) as i16
}

#[test]
fn test_hmtx_metric_lookup() {
    let hmtx = Hmtx {
        h_metrics: vec![
            LongHorMetricRecord { advance_width: 500, lsb: 10 },
            LongHorMetricRecord { advance_width: 600, lsb: 20 },
        ],
        left_side_bearings: vec![30],
    };
    assert_eq!(hmtx.metric_for_glyph(0), (500, 10));
    assert_eq!(hmtx.metric_for_glyph(1), (600, 20));
    assert_eq!(hmtx.metric_for_glyph(2), (600, 30));
}

#[test]
fn test_kern_lookup_and_roundtrip() {
    let kern = Kern {
        version: 0,
        n_tables: 1,
        subtables: vec![KernSubtable {
            version: 0,
            length: 0,
            coverage: 1,
            pairs: vec![
                KernPair { left: 0, right: 1, value: -50 },
                KernPair { left: 2, right: 3, value: 30 },
            ],
        }],
    };
    assert_eq!(kern.lookup(0, 1), Some(-50));
    assert_eq!(kern.lookup(2, 3), Some(30));
    assert_eq!(kern.lookup(0, 2), None);

    let mut w = Writer::new();
    kern.write(&mut w).unwrap();
    let written = w.into_vec();
    let parsed = Kern::parse(&written, 0).unwrap();
    assert_eq!(parsed.subtables[0].pairs.len(), 2);
    assert_eq!(parsed.subtables[0].pairs[0].value, -50);
}

#[test]
fn test_gpos_parse_minimal() {
    let data = vec![
        0x00, 0x01, 0x00, 0x00, 0x00, 0x0A, 0x00, 0x0A, 0x00, 0x0A, 0x00, 0x00,
    ];
    let gpos = Gpos::parse(&data).unwrap();
    assert!(gpos.kerning.is_empty());
}

#[test]
fn test_gsub_parse_features() {
    let mut data = vec![0x00, 0x01, 0x00, 0x00, 0x00, 0x0A, 0x00, 0x0A, 0x00, 0x0A];
    data.extend_from_slice(&[
        0x00, 0x02, b'l', b'i', b'g', b'a', 0x00, 0x08, b'c', b'a', b'l', b't', 0x00, 0x10,
    ]);
    let gsub = Gsub::parse(&data).unwrap();
    let tags: Vec<&str> = gsub.features.iter().map(|f| f.feature_tag.as_str()).collect();
    assert_eq!(tags, vec!["liga", "calt"]);
    assert!(gsub.has_ligatures());
}

#[test]
fn test_hvar_gvar_passthrough() {
    let hvar = Hvar::parse(&[0x00, 0x01, 0x00, 0x00, 0x00, 0x00]).unwrap();
    assert_eq!(hvar.major_version, 1);
    let gvar = Gvar::parse(&[0x00, 0x01, 0x00, 0x00]).unwrap();
    assert_eq!(gvar.major_version, 1);

    let mut w = Writer::new();
    hvar.write(&mut w).unwrap();
    assert_eq!(w.into_vec().len(), 6);
}

#[test]
fn hvar_too_short_is_refused() {
    assert!(Hvar::parse(&[0x00, 0x01, 0x00]).is_err());
}

#[test]
fn test_fvar_roundtrip() {
    let fvar = Fvar {
        major_version: 1,
        minor_version: 0,
        axes: vec![AxisRecord {
            axis_tag: Tag::new(b"wght"),
            min_value: fixed(100.0),
            default_value: fixed(400.0),
            max_value: fixed(900.0),
            flags: 0,
            axis_name_id: 256,
        }],
        instances: vec![InstanceRecord {
            subfamily_name_id: 2,
            flags: 0,
            coordinates: vec![fixed(400.0)],
            post_script_name_id: None,
        }],
    };
    let mut w = Writer::new();
    fvar.write(&mut w).unwrap();
    let bytes = w.into_vec();
    let parsed = Fvar::parse(&bytes).unwrap();
    assert_eq!(parsed.axes.len(), 1);
    assert_eq!(parsed.axes[0].axis_tag, Tag::new(b"wght"));
    assert_eq!(parsed.axes[0].default_value, fixed(400.0));
    assert_eq!(parsed.instances.len(), 1);
}

#[test]
fn test_composite_glyph_roundtrip() {
    let comp = CompositeGlyph {
        x_min: 0,
        y_min: 0,
        x_max: 500,
        y_max: 700,
        components: vec![CompositeComponent {
            glyph_index: 1,
            flags: 0x0001 | 0x0002 | 0x0008,
            argument1: 10,
            argument2: 20,
            transformation: Some(CompositeTransform::Scale(f2dot14(1.0))),
        }],
    };
    let mut w = Writer::new();
    comp.write(&mut w);
    let bytes = w.into_vec();
    assert!(bytes.len() > 10);
    assert_eq!(i16::from_be_bytes([bytes[0], bytes[1]]), -1);
}

#[test]
fn test_cmap_reverse_lookup() {
    let cmap = Cmap {
        version: 0,
        num_tables: 1,
        records: vec![],
        subtables: vec![CmapSubtable::Format12 {
            language: 0,
            groups: vec![SequentialMapGroup { start_char_code: 0x41, end_char_code: 0x43, start_glyph_id: 10 }],
        }],
    };
    assert_eq!(cmap.glyph_codepoints(10), vec![0x41]);
    assert_eq!(cmap.glyph_codepoints(11), vec![0x42]);
    assert_eq!(cmap.glyph_codepoints(12), vec![0x43]);
    assert!(cmap.glyph_codepoints(99).is_empty());
}

#[test]
fn test_stat_roundtrip() {
    let stat = Stat {
        major_version: 1,
        minor_version: 2,
        design_axes: vec![DesignAxisRecord { axis_tag: Tag::new(b"wght"), axis_name_id: 256, axis_ordering: 0 }],
        axis_values: vec![AxisValueRecord {
            format: 1,
            axis_index: 0,
            flags: 0,
            value_name_id: 2,
            value: fixed(400.0),
            linked_value: None,
            nominal_value: None,
            range_min_value: None,
            range_max_value: None,
            axis_values: vec![],
        }],
        elided_fallback_name_id: Some(2),
    };
    let mut w = Writer::new();
    stat.write(&mut w).unwrap();
    let bytes = w.into_vec();
    let parsed = Stat::parse(&bytes).unwrap();
    assert_eq!(parsed.design_axes.len(), 1);
    assert_eq!(parsed.design_axes[0].axis_tag, Tag::new(b"wght"));
    assert_eq!(parsed.axis_values.len(), 1);
    assert_eq!(parsed.axis_values[0].value, fixed(400.0));
    assert_eq!(parsed.elided_fallback_name_id, Some(2));
}

#[test]
fn test_composite_glyph_full_roundtrip() {
    let comp = CompositeGlyph {
        x_min: 10,
        y_min: 20,
        x_max: 510,
        y_max: 720,
        components: vec![
            CompositeComponent {
                glyph_index: 5,
                flags: 0x0001 | 0x0002 | 0x0020,
                argument1: 100,
                argument2: 200,
                transformation: Some(CompositeTransform::XyScale(f2dot14(0.9), f2dot14(1.1))),
            },
            CompositeComponent {
                glyph_index: 8,
                flags: 0x0001 | 0x0002 | 0x0040,
                argument1: -50,
                argument2: 25,
                transformation: Some(CompositeTransform::TwoByTwo(
                    f2dot14(1.0),
                    f2dot14(0.0),
                    f2dot14(0.0),
                    f2dot14(1.0),
                )),
            },
        ],
    };
    let mut w = Writer::new();
    comp.write(&mut w);
    let bytes = w.into_vec();
    assert!(bytes.len() >= 10);
    assert_eq!(i16::from_be_bytes([bytes[0], bytes[1]]), -1);
    assert_eq!(i16::from_be_bytes([bytes[2], bytes[3]]), 10);
    assert_eq!(i16::from_be_bytes([bytes[4], bytes[5]]), 20);
    assert_eq!(i16::from_be_bytes([bytes[6], bytes[7]]), 510);
    assert_eq!(i16::from_be_bytes([bytes[8], bytes[9]]), 720);
}

#[test]
fn test_name_set_family_subfamily() {
    let mut name = Name {
        format: 0,
        count: 2,
        string_offset: 0,
        records: vec![
            NameRecord { platform_id: 1, encoding_id: 0, language_id: 0, name_id: 1, string: "Original".to_string() },
            NameRecord { platform_id: 1, encoding_id: 0, language_id: 0, name_id: 2, string: "OldStyle".to_string() },
        ],
    };
    name.set_family("NewFamily");
    name.set_subfamily("Bold");
    assert_eq!(name.family_name(), Some("NewFamily".to_string()));
    assert_eq!(name.subfamily_name(), Some("Bold".to_string()));
}

#[test]
fn set_family_adds_a_windows_record_when_there_is_none() {
    let mut name = Name { format: 0, count: 0, string_offset: 0, records: vec![] };
    name.set_family("Fresh");
    assert_eq!(name.records.len(), 1);
    assert_eq!(name.records[0].platform_id, 3);
    assert_eq!(name.records[0].encoding_id, 1);
    assert_eq!(name.records[0].language_id, 0x0409);
    assert_eq!(name.family_name(), Some("Fresh".to_string()));
}

fn sample_os2() -> Os2 {
    Os2 {
        version: 4,
        x_avg_char_width: 500,
        us_weight_class: 400,
        us_width_class: 5,
        fs_type: 0,
        y_subscript_x_size: 650,
        y_subscript_y_size: 700,
        y_subscript_x_offset: 0,
        y_subscript_y_offset: 140,
        y_superscript_x_size: 650,
        y_superscript_y_size: 700,
        y_superscript_x_offset: 0,
        y_superscript_y_offset: 480,
        y_strikeout_size: 50,
        y_strikeout_position: 300,
        s_family_class: 0,
        panose: [2, 15, 5, 2, 2, 2, 4, 3, 2, 4],
        ul_unicode_range1: 0x00000001,
        ul_unicode_range2: 0,
        ul_unicode_range3: 0,
        ul_unicode_range4: 0,
        ach_vend_id: [b'P', b'Y', b'R', b'S'],
        fs_selection: 0x0040,
        us_first_char_index: 0x0020,
        us_last_char_index: 0x007E,
        s_typo_ascender: 800,
        s_typo_descender: -200,
        s_typo_line_gap: 200,
        us_win_ascent: 1000,
        us_win_descent: 200,
        ul_code_page_range1: Some(0x00000001),
        ul_code_page_range2: Some(0),
        sx_height: Some(500),
        s_cap_height: Some(700),
        us_default_char: Some(0),
        us_break_char: Some(0x20),
        us_max_context: Some(0),
        us_lower_optical_point_size: None,
        us_upper_optical_point_size: None,
    }
}

#[test]
fn test_os2_roundtrip() {
    let os2 = sample_os2();
    let mut w = Writer::new();
    os2.write(&mut w).unwrap();
    let bytes = w.into_vec();
    let parsed = Os2::parse(&bytes, 0).unwrap();
    assert_eq!(parsed.version, 4);
    assert_eq!(parsed.us_weight_class, 400);
    assert_eq!(parsed.s_cap_height, Some(700));
    assert_eq!(parsed.panose, [2, 15, 5, 2, 2, 2, 4, 3, 2, 4]);
}

#[test]
fn os2_reads_back_whole() {
    let os2 = sample_os2();
    let mut w = Writer::new();
    os2.write(&mut w).unwrap();
    let parsed = Os2::parse(&w.into_vec(), 0).unwrap();
    assert_eq!(parsed, os2);
}

fn sample_head() -> Head {
    Head {
        major_version: 1,
        minor_version: 0,
        font_revision: 0x00010000,
        check_sum_adjustment: 0,
        magic_number: 0x5F0F3CF5,
        flags: 0x000B,
        units_per_em: 1000,
        created: 0,
        modified: 0,
        x_min: -10,
        y_min: -200,
        x_max: 510,
        y_max: 800,
        mac_style: 0,
        lowest_rec_ppem: 3,
        font_direction_hint: 2,
        index_to_loc_format: 1,
        glyph_data_format: 0,
    }
}

#[test]
fn test_head_roundtrip() {
    let head = sample_head();
    let mut w = Writer::new();
    head.write(&mut w).unwrap();
    let bytes = w.into_vec();
    let parsed = Head::parse(&bytes, 0).unwrap();
    assert_eq!(parsed.units_per_em, 1000);
    assert_eq!(parsed.x_min, -10);
    assert_eq!(parsed.index_to_loc_format, 1);
}

#[test]
fn head_reads_back_whole_and_short_input_is_refused() {
    let head = sample_head();
    let mut w = Writer::new();
    head.write(&mut w).unwrap();
    let bytes = w.into_vec();
    assert_eq!(bytes.len(), 54);
    assert_eq!(Head::parse(&bytes, 0).unwrap(), head);
    assert!(Head::parse(&bytes[..53], 0).is_err());
}

#[test]
fn test_post_roundtrip() {
    let post = Post {
        version: 0x00030000,
        italic_angle: 0,
        underline_position: -100,
        underline_thickness: 50,
        is_fixed_pitch: 0,
        min_mem_type42: 0,
        max_mem_type42: 0,
        min_mem_type1: 0,
        max_mem_type1: 0,
        names: None,
    };
    let mut w = Writer::new();
    post.write(&mut w).unwrap();
    let bytes = w.into_vec();
    let parsed = Post::parse(&bytes, 0).unwrap();
    assert_eq!(parsed.version, 0x00030000);
    assert_eq!(parsed.underline_position, -100);
}

#[test]
fn test_loca_roundtrip() {
    let loca = LocaTable { offsets: vec![0, 100, 250, 400, 400], format: 1 };
    let mut w = Writer::new();
    loca.write(&mut w).unwrap();
    let bytes = w.into_vec();
    assert_eq!(bytes.len(), 20);
    assert_eq!(u32::from_be_bytes([bytes[0], bytes[1], bytes[2], bytes[3]]), 0);
    assert_eq!(u32::from_be_bytes([bytes[4], bytes[5], bytes[6], bytes[7]]), 100);
}

#[test]
fn loca_from_sizes_is_the_running_sum() {
    let loca = LocaTable::from_glyph_sizes(&[10, 0, 5], true);
    assert_eq!(loca.offsets, vec![0, 10, 10, 15]);
    assert_eq!(loca.format, 1);
}

#[test]
fn test_simple_glyph_with_instructions_roundtrip() {
    let glyph = SimpleGlyph {
        number_of_contours: 1,
        x_min: 0,
        y_min: 0,
        x_max: 100,
        y_max: 100,
        end_pts_of_contours: vec![3],
        instructions: vec![0x2B, 0xB8, 0x01],
        flags: vec![0x01, 0x01, 0x01, 0x01],
        x_coordinates: vec![0, 100, 100, 0],
        y_coordinates: vec![0, 0, 100, 100],
    };
    let mut w = Writer::new();
    glyph.write(&mut w);
    let bytes = w.into_vec();
    let num_contours = i16::from_be_bytes([bytes[0], bytes[1]]);
    assert_eq!(num_contours, 1);
    let instr_len = u16::from_be_bytes([bytes[12], bytes[13]]);
    assert_eq!(instr_len, 3);
    assert_eq!(bytes[14], 0x2B);
    assert_eq!(bytes[15], 0xB8);
    assert_eq!(bytes[16], 0x01);
}

#[test]
fn test_cmap_multiple_subtables() {
    let cmap = Cmap {
        version: 0,
        num_tables: 2,
        records: vec![
            EncodingRecord { platform_id: 0, encoding_id: 3, subtable_offset: 0 },
            EncodingRecord { platform_id: 3, encoding_id: 1, subtable_offset: 0 },
        ],
        subtables: vec![
            CmapSubtable::Format12 {
                language: 0,
                groups: vec![SequentialMapGroup { start_char_code: 0x41, end_char_code: 0x5A, start_glyph_id: 1 }],
            },
            CmapSubtable::Format4 {
                language: 0,
                segments: vec![
                    Format4Segment { end_code: 0x5A, start_code: 0x41, id_delta: 0, id_range_offset: 0 },
                    Format4Segment { end_code: 0xFFFF, start_code: 0xFFFF, id_delta: 1, id_range_offset: 0 },
                ],
            },
        ],
    };
    let mut w = Writer::new();
    cmap.write(&mut w).unwrap();
    let bytes = w.into_vec();
    let parsed = Cmap::parse(&bytes, 0).unwrap();
    assert_eq!(parsed.subtables.len(), 2);
    assert_eq!(parsed.map_codepoint(0x41), Some(1));
    assert_eq!(parsed.map_codepoint(0x5A), Some(26));
}

#[test]
fn test_gpos_kerning_lookup() {
    let kerning = vec![
        GposKernPair { left: 0, right: 1, x_advance: -80 },
        GposKernPair { left: 2, right: 3, x_advance: 40 },
    ];
    let found = kerning.iter().find(|k| k.left == 0 && k.right == 1);
    assert!(found.is_some(), "Expected kerning pair (0, 1)");
    assert_eq!(found.unwrap().x_advance, -80);
    assert_eq!(kerning.len(), 2);
}

#[test]
fn test_glyf_bounds_check_does_not_panic() {
    let bad_data = vec![0x00, 0x01, 0x00, 0x00, 0x00, 0x00, 0x00, 0x00, 0x00, 0x00];
    assert!(bad_data.len() < 14);
}

#[test]
fn test_writer_length_and_pad() {
    let mut w = Writer::new();
    w.write_u16(42);
    assert_eq!(w.len(), 2);
    w.pad_to_4();
    assert_eq!(w.len(), 4);
    w.write_u32(123);
    assert_eq!(w.len(), 8);
}

#[test]
fn test_checksum_table() {
    let data = vec![0x00, 0x01, 0x02, 0x03, 0x04, 0x05];
    let sum = checksum_table(&data);
    let expected = u32::from_be_bytes([0x00, 0x01, 0x02, 0x03])
        .wrapping_add(u32::from_be_bytes([0x04, 0x05, 0x00, 0x00]));
    assert_eq!(sum, expected);
}

#[test]
fn test_cmap_format6_roundtrip() {
    let cmap = Cmap {
        version: 0,
        num_tables: 1,
        records: vec![EncodingRecord { platform_id: 0, encoding_id: 1, subtable_offset: 0 }],
        subtables: vec![CmapSubtable::Format6 { language: 0, first_code: 0x41, glyph_id_array: vec![10, 11, 12, 13, 14] }],
    };
    let mut w = Writer::new();
    cmap.write(&mut w).unwrap();
    let bytes = w.into_vec();
    let parsed = Cmap::parse(&bytes, 0).unwrap();
    assert_eq!(parsed.map_codepoint(0x41), Some(10));
    assert_eq!(parsed.map_codepoint(0x43), Some(12));
    assert_eq!(parsed.map_codepoint(0x40), None);
    assert_eq!(parsed.map_codepoint(0x46), None);
    assert_eq!(parsed.glyph_codepoints(12), vec![0x43]);
}

#[test]
fn test_cmap_format10_roundtrip() {
    let cmap = Cmap {
        version: 0,
        num_tables: 1,
        records: vec![EncodingRecord { platform_id: 0, encoding_id: 4, subtable_offset: 0 }],
        subtables: vec![CmapSubtable::Format10 { language: 0, start_char_code: 0x1F600, glyph_id_array: vec![100, 101, 102] }],
    };
    let mut w = Writer::new();
    cmap.write(&mut w).unwrap();
    let bytes = w.into_vec();
    let parsed = Cmap::parse(&bytes, 0).unwrap();
    assert_eq!(parsed.map_codepoint(0x1F600), Some(100));
    assert_eq!(parsed.map_codepoint(0x1F602), Some(102));
    assert_eq!(parsed.map_codepoint(0x1F5FF), None);
    assert_eq!(parsed.map_codepoint(0x1F603), None);
}

#[test]
fn test_cmap_format13_roundtrip() {
    let cmap = Cmap {
        version: 0,
        num_tables: 1,
        records: vec![EncodingRecord { platform_id: 0, encoding_id: 5, subtable_offset: 0 }],
        subtables: vec![CmapSubtable::Format13 {
            language: 0,
            groups: vec![ConstantMapGroup { start_char_code: 0x30, end_char_code: 0x39, glyph_id: 50 }],
        }],
    };
    let mut w = Writer::new();
    cmap.write(&mut w).unwrap();
    let bytes = w.into_vec();
    let parsed = Cmap::parse(&bytes, 0).unwrap();
    assert_eq!(parsed.map_codepoint(0x30), Some(50));
    assert_eq!(parsed.map_codepoint(0x35), Some(50));
    assert_eq!(parsed.map_codepoint(0x39), Some(50));
    assert_eq!(parsed.map_codepoint(0x2F), None);
    assert_eq!(
        parsed.glyph_codepoints(50),
        vec![0x30, 0x31, 0x32, 0x33, 0x34, 0x35, 0x36, 0x37, 0x38, 0x39]
    );
}

#[test]
fn test_cmap_format14_roundtrip() {
    let cmap = Cmap {
        version: 0,
        num_tables: 1,
        records: vec![EncodingRecord { platform_id: 0, encoding_id: 5, subtable_offset: 0 }],
        subtables: vec![CmapSubtable::Format14 {
            records: vec![
                VariationSelectorRecord {
                    var_selector: 0xFE00,
                    default_uvs: vec![UnicodeRange { start_unicode_value: 0x0041, additional_count: 2 }],
                    non_default_uvs: vec![NonDefaultUvMapping { unicode_value: 0x0044, glyph_id: 99 }],
                },
                VariationSelectorRecord {
                    var_selector: 0xFE01,
                    default_uvs: vec![],
                    non_default_uvs: vec![NonDefaultUvMapping { unicode_value: 0x0045, glyph_id: 100 }],
                },
            ],
        }],
    };
    let mut w = Writer::new();
    cmap.write(&mut w).unwrap();
    let bytes = w.into_vec();
    let parsed = Cmap::parse(&bytes, 0).unwrap();
    assert_eq!(parsed.map_codepoint(0x0041), None);
    assert_eq!(parsed.map_codepoint(0x0044), None);
    if let CmapSubtable::Format14 { records } = &parsed.subtables[0] {
        assert_eq!(records.len(), 2);
        assert_eq!(records[0].var_selector, 0xFE00);
        assert_eq!(records[0].default_uvs.len(), 1);
        assert_eq!(records[0].default_uvs[0].start_unicode_value, 0x0041);
        assert_eq!(records[0].default_uvs[0].additional_count, 2);
        assert_eq!(records[0].non_default_uvs.len(), 1);
        assert_eq!(records[0].non_default_uvs[0].glyph_id, 99);
        assert_eq!(records[1].var_selector, 0xFE01);
        assert_eq!(records[1].default_uvs.len(), 0);
        assert_eq!(records[1].non_default_uvs.len(), 1);
        assert_eq!(records[1].non_default_uvs[0].glyph_id, 100);
    } else {
        panic!("Expected Format14 subtable");
    }
}

#[test]
fn test_cff_header_parse() {
    let data = vec![0x01, 0x00, 0x04, 0x01];
    let cff = Cff::parse(&data).unwrap();
    assert!(!cff.is_cff2);
    assert_eq!(cff.major_version, 1);
    assert_eq!(cff.header_size, 4);
}

#[test]
fn test_cff2_header_parse() {
    let data = vec![0x02, 0x00, 0x05, 0x00];
    let cff = Cff::parse(&data).unwrap();
    assert!(cff.is_cff2);
    assert_eq!(cff.major_version, 2);
}

#[test]
fn cff_header_too_short_is_refused() {
    assert!(Cff::parse(&[0x01, 0x00, 0x04]).is_err());
}

fn cpal_bytes(first_index: u16) -> Vec<u8> {
    let mut b = vec![0, 0, 0, 2, 0, 1, 0, 2, 0, 12];
    b.extend_from_slice(&first_index.to_be_bytes());
    b.extend_from_slice(&[1, 2, 3, 4, 5, 6, 7, 8]);
    b
}

#[test]
fn cpal_palettes_take_consecutive_colors() {
    let c = Cpal::parse(&cpal_bytes(0), 0).unwrap();
    assert_eq!(c.num_palette_entries, 2);
    assert_eq!(c.palettes.len(), 1);
    assert_eq!(c.palettes[0].color_indices, vec![0, 1]);
    assert_eq!(c.colors.len(), 2);
    assert_eq!(c.colors[1].to_rgba(), (7, 6, 5, 8));
}

#[test]
fn cpal_palette_past_the_colors_is_refused() {
    match Cpal::parse(&cpal_bytes(1), 0) {
        Err(fonttype::FontError::InvalidTable { tag, reason }) => {
            assert_eq!(tag, Tag(*b"CPAL"));
            assert_eq!(reason, "Palette index 1 exceeds color records");
        }
        other => panic!("expected an invalid table, got {:?}", other),
    }
}

#[test]
fn cpal_short_color_records_are_out_of_bounds() {
    let b = cpal_bytes(0);
    assert!(matches!(Cpal::parse(&b[..b.len() - 1], 0), Err(fonttype::FontError::OutOfBounds { .. })));
}

fn svg_bytes(doc_len: u32) -> Vec<u8> {
    let mut b = vec![0, 0, 0, 0, 0, 6, 0, 1, 0, 5, 0, 5, 0, 0, 0, 14];
    b.extend_from_slice(&doc_len.to_be_bytes());
    b.extend_from_slice(b"<svg/>");
    b
}

#[test]
fn svg_documents_are_read_where_their_records_point() {
    let s = Svg::parse(&svg_bytes(6), 0).unwrap();
    assert_eq!(s.entries.len(), 1);
    assert_eq!(s.entries[0].start_glyph_id, 5);
    assert_eq!(s.documents, vec![b"<svg/>".to_vec()]);
}

#[test]
fn svg_document_past_the_end_is_out_of_bounds() {
    assert!(matches!(Svg::parse(&svg_bytes(7), 0), Err(fonttype::FontError::OutOfBounds { .. })));
}

fn colr_bytes() -> Vec<u8> {
    let mut b = vec![0, 0, 0, 1, 0, 0, 0, 14, 0, 0, 0, 20, 0, 2];
    b.extend_from_slice(&[0, 7, 0, 0, 0, 2]);
    b.extend_from_slice(&[0, 8, 0, 1, 0, 9, 0, 0]);
    b
}

#[test]
fn colr_reads_base_glyphs_and_layers() {
    let c = Colr::parse(&colr_bytes(), 0).unwrap();
    assert_eq!(c.base_glyphs.len(), 1);
    assert_eq!(c.base_glyphs[0].glyph_id, 7);
    assert_eq!(c.base_glyphs[0].num_layers, 2);
    assert_eq!(c.layers.len(), 2);
    assert_eq!(c.layers[1].glyph_id, 9);
    assert_eq!(c.layers[0].palette_index, 1);
}

#[test]
fn colr_short_layer_records_are_out_of_bounds() {
    let b = colr_bytes();
    assert!(matches!(Colr::parse(&b[..b.len() - 2], 0), Err(fonttype::FontError::OutOfBounds { .. })));
}

fn post_v2_bytes() -> Vec<u8> {
    let mut b = vec![0, 2, 0, 0];
    b.extend_from_slice(&[0u8; 28]);
    b.extend_from_slice(&[0, 2, 0, 5, 1, 2, 3]);
    b.extend_from_slice(b"abc");
    b
}

#[test]
fn post_names_standard_and_pascal_strings() {
    let p = Post::parse(&post_v2_bytes(), 0).unwrap();
    assert_eq!(p.names, Some(vec!["glyph5".to_string(), "abc".to_string()]));
}

#[test]
fn post_short_pascal_string_is_out_of_bounds() {
    let b = post_v2_bytes();
    assert!(matches!(Post::parse(&b[..b.len() - 1], 0), Err(fonttype::FontError::OutOfBounds { .. })));
}

#[test]
fn kern_subtable_past_the_end_is_out_of_bounds() {
    let mut b = vec![0, 0, 0, 1];
    b.extend_from_slice(&[0, 0, 0, 26, 0, 1, 0, 2, 0, 6, 0, 0, 0, 6]);
    b.extend_from_slice(&[0, 1, 0, 2, 0xff, 0xf6]);
    assert!(matches!(Kern::parse(&b, 0), Err(fonttype::FontError::OutOfBounds { .. })));
}

#[test]
fn name_string_past_the_storage_is_out_of_bounds() {
    let mut b = vec![0, 0, 0, 1, 0, 18];
    b.extend_from_slice(&[0, 1, 0, 0, 0, 0, 0, 1, 0, 4, 0, 0]);
    b.extend_from_slice(b"abc");
    assert!(matches!(Name::parse(&b, 0), Err(fonttype::FontError::OutOfBounds { .. })));
    b.push(b'd');
    let n = Name::parse(&b, 0).unwrap();
    assert_eq!(n.records[0].string, "abcd");
}

#[test]
fn hmtx_reads_back_what_it_wrote() {
    let h = Hmtx {
        h_metrics: vec![
            LongHorMetricRecord { advance_width: 500, lsb: -3 },
            LongHorMetricRecord { advance_width: 620, lsb: 12 },
        ],
        left_side_bearings: vec![-7, 40],
    };
    let mut w = Writer::new();
    h.write(&mut w).unwrap();
    let bytes = w.into_vec();
    assert_eq!(bytes.len(), 12);
    let back = Hmtx::parse_with_count(&bytes, 0, 2, 4).unwrap();
    assert_eq!(back.h_metrics, h.h_metrics);
    assert_eq!(back.left_side_bearings, h.left_side_bearings);
}

#[test]
fn test_cmap_all_formats_read_back_field_for_field() {
    let cmap = Cmap {
        version: 0,
        num_tables: 4,
        records: vec![
            EncodingRecord { platform_id: 0, encoding_id: 3, subtable_offset: 999 },
            EncodingRecord { platform_id: 3, encoding_id: 1, subtable_offset: 0 },
            EncodingRecord { platform_id: 3, encoding_id: 10, subtable_offset: 0 },
            EncodingRecord { platform_id: 0, encoding_id: 5, subtable_offset: 0 },
        ],
        subtables: vec![
            CmapSubtable::Format4 {
                language: 0,
                segments: vec![
                    Format4Segment { end_code: 0x5A, start_code: 0x41, id_delta: -60, id_range_offset: 0 },
                    Format4Segment { end_code: 0xFFFF, start_code: 0xFFFF, id_delta: 1, id_range_offset: 0 },
                ],
            },
            CmapSubtable::Format6 { language: 2, first_code: 0x30, glyph_id_array: vec![7, 8, 9] },
            CmapSubtable::Format13 {
                language: 0,
                groups: vec![ConstantMapGroup { start_char_code: 0x1F600, end_char_code: 0x1F64F, glyph_id: 40 }],
            },
            CmapSubtable::Format14 {
                records: vec![VariationSelectorRecord {
                    var_selector: 0xFE0F,
                    default_uvs: vec![UnicodeRange { start_unicode_value: 0x2600, additional_count: 3 }],
                    non_default_uvs: vec![NonDefaultUvMapping { unicode_value: 0x2764, glyph_id: 12 }],
                }],
            },
        ],
    };
    let mut w = Writer::new();
    cmap.write(&mut w).unwrap();
    let bytes = w.into_vec();
    let parsed = Cmap::parse(&bytes, 0).unwrap();
    assert_eq!(parsed.version, 0);
    assert_eq!(parsed.num_tables, 4);
    assert_eq!(parsed.subtables, cmap.subtables);
    for k in 0..4 {
        assert_eq!(parsed.records[k].platform_id, cmap.records[k].platform_id);
        assert_eq!(parsed.records[k].encoding_id, cmap.records[k].encoding_id);
    }
    // Each record points at its subtable, right after the 36-byte header.
    assert_eq!(parsed.records[0].subtable_offset, 36);
}

#[test]
fn test_cmap_reverse_lookup_maps_back() {
    let subtables = vec![
        CmapSubtable::Format4 {
            language: 0,
            segments: vec![
                Format4Segment { end_code: 0x5A, start_code: 0x41, id_delta: -60, id_range_offset: 0 },
                Format4Segment { end_code: 0x7A, start_code: 0x61, id_delta: -92, id_range_offset: 0 },
            ],
        },
        CmapSubtable::Format6 { language: 0, first_code: 0x30, glyph_id_array: vec![7, 5, 7] },
        CmapSubtable::Format13 {
            language: 0,
            groups: vec![ConstantMapGroup { start_char_code: 0x100, end_char_code: 0x102, glyph_id: 5 }],
        },
    ];
    for st in &subtables {
        for g in [5u16, 7, 9] {
            let cps = st.codepoints_for_glyph(g);
            for cp in &cps {
                assert_eq!(st.map(*cp), Some(g));
            }
            for cp in 0u32..0x200 {
                if st.map(cp) == Some(g) {
                    assert!(cps.contains(&cp));
                }
            }
        }
    }
    assert_eq!(subtables[0].codepoints_for_glyph(5), vec![0x41, 0x61]);
    assert_eq!(subtables[1].codepoints_for_glyph(7), vec![0x30, 0x32]);
    assert_eq!(subtables[2].codepoints_for_glyph(5), vec![0x100, 0x101, 0x102]);
}

#[test]
fn test_name_utf16_lone_surrogate_reads_empty() {
    let mut b: Vec<u8> = vec![0, 0, 0, 2, 0, 30];
    b.extend_from_slice(&[0, 3, 0, 1, 4, 9, 0, 1, 0, 2, 0, 0]);
    b.extend_from_slice(&[0, 3, 0, 1, 4, 9, 0, 2, 0, 4, 0, 2]);
    b.extend_from_slice(&[0xD8, 0x00, 0x00, 0x41, 0x00, 0x42]);
    let n = Name::parse(&b, 0).unwrap();
    assert_eq!(n.records[0].string, "");
    assert_eq!(n.records[1].string, "AB");
}

#[test]
fn test_name_round_trip_keeps_every_string() {
    let name = Name {
        format: 0,
        count: 3,
        string_offset: 0,
        records: vec![
            NameRecord { platform_id: 1, encoding_id: 0, language_id: 0, name_id: 1, string: "Caf\u{e9}".to_string() },
            NameRecord { platform_id: 3, encoding_id: 1, language_id: 0x409, name_id: 1, string: "Caf\u{e9} \u{1F600}".to_string() },
            NameRecord { platform_id: 0, encoding_id: 3, language_id: 0, name_id: 4, string: String::new() },
        ],
    };
    let mut w = Writer::new();
    name.write(&mut w).unwrap();
    let bytes = w.into_vec();
    let back = Name::parse(&bytes, 0).unwrap();
    assert_eq!(back.format, 0);
    assert_eq!(back.count, 3);
    assert_eq!(back.string_offset, 6 + 12 * 3);
    assert_eq!(back.records, name.records);
}
