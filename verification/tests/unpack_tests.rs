use glyphspack::error::{Error, PlistFile};
use glyphspack::pack::GlyphRecord;
use glyphspack::unpack::{glyph_record, unpack};

fn record(name: &[u8], code: &[u8]) -> GlyphRecord {
    GlyphRecord { name: name.to_vec(), code: code.to_vec() }
}

#[test]
fn glyph_record_extracts_name_and_raw_code() {
    let file = b"{\nglyphname = A;\nwidth = 500;\n}\n".to_vec();
    let g = glyph_record(&file).unwrap();
    assert_eq!(g.name, b"A".to_vec());
    assert_eq!(g.code, file);
}

#[test]
fn glyph_record_missing_name_is_fatal() {
    let file = b"{\nwidth = 500;\n}\n".to_vec();
    assert!(matches!(glyph_record(&file).unwrap_err(), Error::MissingGlyphName));
}

#[test]
fn glyph_record_non_string_name_is_fatal() {
    let file = b"{\nglyphname = (\n);\n}\n".to_vec();
    assert!(matches!(glyph_record(&file).unwrap_err(), Error::NonStringGlyphName));
}

#[test]
fn unpack_sorts_entries_and_follows_order_list() {
    let fontinfo = b"{\nb = 2;\na = 1;\n}\n".to_vec();
    let order = b"(\nA,\nB\n)".to_vec();
    // Storage lists B before A; the order list must win.
    let glyphs = vec![
        record(b"B", b"{\nglyphname = B;\n}\n"),
        record(b"A", b"{\nglyphname = A;\n}\n"),
    ];
    let out = unpack(&fontinfo, &order, &glyphs, &None).unwrap();
    let expected = b"{\na = 1;\nb = 2;\nglyphs = (\n{\nglyphname = A;\n},{\nglyphname = B;\n}\n);\n}\n".to_vec();
    assert_eq!(out, expected);
}

#[test]
fn unpack_missing_glyph_is_fatal_and_names_it() {
    let fontinfo = b"{\n}\n".to_vec();
    let order = b"(\nA,\nC\n)".to_vec();
    let glyphs = vec![record(b"A", b"{\nglyphname = A;\n}\n")];
    match unpack(&fontinfo, &order, &glyphs, &None).unwrap_err() {
        Error::MissingGlyph { name } => assert_eq!(name, b"C".to_vec()),
        _ => panic!("expected a missing-glyph error"),
    }
}

#[test]
fn unpack_without_ui_state_has_no_display_strings() {
    let fontinfo = b"{\na = 1;\n}\n".to_vec();
    let order = b"(\n)".to_vec();
    let glyphs: Vec<GlyphRecord> = Vec::new();
    let out = unpack(&fontinfo, &order, &glyphs, &None).unwrap();
    let text = String::from_utf8(out).unwrap();
    assert!(!text.contains("DisplayStrings"));
    assert_eq!(text, "{\na = 1;\nglyphs = (\n\n);\n}\n");
}

#[test]
fn unpack_renames_display_strings_key_back() {
    let fontinfo = b"{\nalpha = 1;\n}\n".to_vec();
    let order = b"(\n)".to_vec();
    let glyphs: Vec<GlyphRecord> = Vec::new();
    let ui = Some(b"{\ndisplayStrings = (\ny\n);\nother = 3;\n}\n".to_vec());
    let out = unpack(&fontinfo, &order, &glyphs, &ui).unwrap();
    let expected =
        b"{\nDisplayStrings = (\ny\n);\nalpha = 1;\nglyphs = (\n\n);\nother = 3;\n}\n".to_vec();
    assert_eq!(out, expected);
}

#[test]
fn unpack_non_string_order_entry_is_fatal() {
    let fontinfo = b"{\n}\n".to_vec();
    let order = b"(\n{}\n)".to_vec();
    let glyphs: Vec<GlyphRecord> = Vec::new();
    assert!(matches!(
        unpack(&fontinfo, &order, &glyphs, &None).unwrap_err(),
        Error::NonStringOrderEntry
    ));
}

#[test]
fn unpack_syntax_errors_name_their_file() {
    let bad = b"{".to_vec();
    let good_dict = b"{\n}\n".to_vec();
    let good_order = b"(\n)".to_vec();
    let glyphs: Vec<GlyphRecord> = Vec::new();
    match unpack(&bad, &good_order, &glyphs, &None).unwrap_err() {
        Error::Syntax { file, pos: _ } => assert_eq!(file, PlistFile::FontInfo),
        _ => panic!("expected a syntax error"),
    }
    match unpack(&good_dict, &bad, &glyphs, &None).unwrap_err() {
        Error::Syntax { file, pos: _ } => assert_eq!(file, PlistFile::Order),
        _ => panic!("expected a syntax error"),
    }
    match unpack(&good_dict, &good_order, &glyphs, &Some(b"{".to_vec())).unwrap_err() {
        Error::Syntax { file, pos: _ } => assert_eq!(file, PlistFile::UiState),
        _ => panic!("expected a syntax error"),
    }
}

#[test]
fn unpack_duplicate_storage_names_first_record_wins() {
    let fontinfo = b"{\n}\n".to_vec();
    let order = b"(\nA\n)".to_vec();
    let glyphs = vec![
        record(b"A", b"{\nglyphname = A;\nv = 1;\n}\n"),
        record(b"A", b"{\nglyphname = A;\nv = 2;\n}\n"),
    ];
    let out = unpack(&fontinfo, &order, &glyphs, &None).unwrap();
    let text = String::from_utf8(out).unwrap();
    assert!(text.contains("v = 1;"));
    assert!(!text.contains("v = 2;"));
}
