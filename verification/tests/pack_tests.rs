use glyphspack::error::{Error, PlistFile};
use glyphspack::pack::pack;

#[test]
fn pack_splits_buckets_in_encounter_order() {
    let doc = b"{\n.appVersion = \"3\";\nDisplayStrings = (\nx\n);\nglyphs = (\n{\nglyphname = A;\n},{\nglyphname = \"B b\";\n}\n);\nunitsPerEm = 1000;\n}\n".to_vec();
    let p = pack(&doc).unwrap();
    assert_eq!(
        p.fontinfo,
        vec![b".appVersion = \"3\";".to_vec(), b"unitsPerEm = 1000;".to_vec()]
    );
    assert_eq!(p.order, vec![b"A".to_vec(), b"B b".to_vec()]);
    assert_eq!(p.ui_state, vec![b"displayStrings = (\nx\n);".to_vec()]);
    assert_eq!(p.glyphs.len(), 2);
    assert_eq!(p.glyphs[0].name, b"A".to_vec());
    assert_eq!(p.glyphs[0].code, b"glyphname = A;".to_vec());
    assert_eq!(p.glyphs[1].name, b"B b".to_vec());
    assert_eq!(p.glyphs[1].code, b"glyphname = \"B b\";".to_vec());
}

#[test]
fn pack_without_display_strings_has_empty_ui_state() {
    let doc = b"{\na = 1;\nglyphs = (\n);\n}\n".to_vec();
    let p = pack(&doc).unwrap();
    assert!(p.ui_state.is_empty());
    assert!(p.order.is_empty());
    assert!(p.glyphs.is_empty());
}

#[test]
fn pack_renames_display_strings_key() {
    let doc = b"{\nDisplayStrings = (\nfoo,\nbar\n);\n}\n".to_vec();
    let p = pack(&doc).unwrap();
    assert_eq!(p.ui_state, vec![b"displayStrings = (\nfoo,\nbar\n);".to_vec()]);
}

#[test]
fn pack_missing_glyphname_is_fatal() {
    let doc = b"{\nglyphs = (\n{\nx = y;\n}\n);\n}\n".to_vec();
    let e = pack(&doc).unwrap_err();
    assert!(matches!(e, Error::MissingGlyphName));
}

#[test]
fn pack_last_glyphname_wins() {
    let doc = b"{\nglyphs = (\n{\nglyphname = first;\nglyphname = second;\n}\n);\n}\n".to_vec();
    let p = pack(&doc).unwrap();
    assert_eq!(p.order, vec![b"second".to_vec()]);
}

#[test]
fn pack_non_array_glyphs_is_fatal() {
    let doc = b"{\nglyphs = x;\n}\n".to_vec();
    assert!(matches!(pack(&doc).unwrap_err(), Error::NonArrayGlyphs));
}

#[test]
fn pack_non_dict_glyph_is_fatal() {
    let doc = b"{\nglyphs = (\na\n);\n}\n".to_vec();
    assert!(matches!(pack(&doc).unwrap_err(), Error::NonDictGlyph));
}

#[test]
fn pack_non_string_glyphname_is_fatal() {
    let doc = b"{\nglyphs = (\n{\nglyphname = (\n);\n}\n);\n}\n".to_vec();
    assert!(matches!(pack(&doc).unwrap_err(), Error::NonStringGlyphName));
}

#[test]
fn pack_syntax_error_names_standalone_file() {
    let doc = b"{\na = ;\n}\n".to_vec();
    match pack(&doc).unwrap_err() {
        Error::Syntax { file, pos: _ } => assert_eq!(file, PlistFile::Standalone),
        _ => panic!("expected a syntax error"),
    }
}
