use fonttype::encoding::EncodingManager;

#[test]
fn test_standard_encodings_registered() {
    let manager = EncodingManager::new();
    assert!(manager.get_encoding_table("unicode").is_some());
    assert!(manager.get_encoding_table("ascii").is_some());
    assert!(manager.get_encoding_table("latin1").is_some());
    assert!(manager.get_encoding_table("windows1252").is_some());
    assert!(manager.get_encoding_table("macroman").is_some());
}

#[test]
fn test_unicode_lookup() {
    let manager = EncodingManager::new();
    assert_eq!(manager.char_to_unicode(0x41, "unicode"), Some(0x41));
}

#[test]
fn test_glyph_name_lookup() {
    let manager = EncodingManager::new();
    assert_eq!(manager.get_glyph_name(0x41, "unicode").as_deref(), Some("A"));
    assert_eq!(manager.get_glyph_name(0x20, "unicode").as_deref(), Some("space"));
}

#[test]
fn test_ascii_excludes_high_bytes() {
    let manager = EncodingManager::new();
    let ascii = manager.get_encoding_table("ascii").unwrap();
    assert!(ascii.mappings.len() <= 128);
    assert_eq!(manager.char_to_unicode(0x80, "ascii"), None);
}

#[test]
fn test_windows1252_special_chars() {
    assert_eq!(EncodingManager::windows1252_to_unicode(0x80), 0x20AC);
    assert_eq!(EncodingManager::windows1252_to_unicode(0x99), 0x2122);
    let manager = EncodingManager::new();
    assert_eq!(manager.char_to_unicode(0x80, "windows1252"), Some(0x20AC));
}

#[test]
fn test_macroman_special_chars() {
    assert_eq!(EncodingManager::macroman_to_unicode(0x80), 0x00C4);
    let manager = EncodingManager::new();
    assert_eq!(manager.char_to_unicode(0x80, "macroman"), Some(0x00C4));
    assert_eq!(manager.char_to_unicode(0x86, "macroman"), Some(0x00DC));
}

#[test]
fn test_round_trip_latin1() {
    let manager = EncodingManager::new();
    for code in 0..=255u32 {
        let uni = manager.char_to_unicode(code, "latin1").unwrap();
        assert_eq!(manager.unicode_to_char(uni, "latin1"), Some(code));
    }
}

#[test]
fn windows1252_plain_bytes_map_to_themselves() {
    assert_eq!(EncodingManager::windows1252_to_unicode(0x41), 0x41);
    assert_eq!(EncodingManager::windows1252_to_unicode(0xE9), 0xE9);
}

#[test]
fn unknown_encoding_gives_nothing() {
    let manager = EncodingManager::new();
    assert_eq!(manager.char_to_unicode(0x41, "klingon"), None);
    assert!(manager.get_encoding_table("klingon").is_none());
}

#[test]
fn glyph_names_for_unnamed_code_points() {
    assert_eq!(EncodingManager::unicode_to_glyph_name(0x41), "A");
    assert_eq!(EncodingManager::unicode_to_glyph_name(0x4E2D), "uni4E2D");
}

#[test]
fn macroman_follows_the_mac_os_roman_table() {
    assert_eq!(EncodingManager::macroman_to_unicode(0x41), 0x41);
    assert_eq!(EncodingManager::macroman_to_unicode(0x8F), 0x00E8);
    assert_eq!(EncodingManager::macroman_to_unicode(0x90), 0x00EA);
    assert_eq!(EncodingManager::macroman_to_unicode(0xA5), 0x2022);
    assert_eq!(EncodingManager::macroman_to_unicode(0xAA), 0x2122);
    assert_eq!(EncodingManager::macroman_to_unicode(0xCA), 0x00A0);
    assert_eq!(EncodingManager::macroman_to_unicode(0xDB), 0x20AC);
    assert_eq!(EncodingManager::macroman_to_unicode(0xF0), 0xF8FF);
    assert_eq!(EncodingManager::macroman_to_unicode(0xFF), 0x02C7);
    let manager = EncodingManager::new();
    assert_eq!(manager.char_to_unicode(0x90, "macroman"), Some(0x00EA));
    assert_eq!(manager.get_glyph_name(0x2022, "macroman").as_deref(), Some("uni2022"));
}

#[test]
fn every_standard_table_round_trips() {
    let manager = EncodingManager::new();
    for name in ["unicode", "ascii", "latin1", "windows1252", "macroman"] {
        for code in 0..=255u32 {
            if let Some(uni) = manager.char_to_unicode(code, name) {
                assert_eq!(manager.unicode_to_char(uni, name), Some(code), "{} {}", name, code);
            }
        }
    }
}

#[test]
fn digits_have_their_postscript_names() {
    assert_eq!(EncodingManager::unicode_to_glyph_name(0x30), "zero");
    assert_eq!(EncodingManager::unicode_to_glyph_name(0x35), "five");
    assert_eq!(EncodingManager::unicode_to_glyph_name(0x39), "nine");
    let manager = EncodingManager::new();
    assert_eq!(manager.get_glyph_name(0x37, "ascii").as_deref(), Some("seven"));
}

#[test]
fn registered_names_and_tables_agree() {
    let mut manager = EncodingManager::new();
    for name in manager.list_encodings() {
        assert_eq!(manager.get_encoding_table(&name).map(|t| t.name.clone()), Some(name.clone()));
    }
    assert!(manager.get_encoding_table("ebcdic").is_none());
    let mut custom = manager.get_encoding_table("latin1").unwrap().clone();
    custom.name = "ebcdic".to_string();
    manager.add_encoding_table(custom);
    assert_eq!(manager.list_encodings(), vec!["unicode", "ascii", "latin1", "windows1252", "macroman", "ebcdic"]);
    manager.set_default_encoding("ebcdic".to_string());
    assert_eq!(manager.get_default_encoding().unwrap().name, "ebcdic");
    manager.set_default_encoding("klingon".to_string());
    assert_eq!(manager.get_default_encoding().unwrap().name, "ebcdic");
}
