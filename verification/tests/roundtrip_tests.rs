use glyphspack::pack::{pack, GlyphRecord};
use glyphspack::plist::{array_file_content, dict_file_content};
use glyphspack::unpack::{glyph_record, unpack};

/// Packs a document into in-memory package files, reads them back the way
/// the directory layout would be read, and unpacks.
fn round_trip(doc: &[u8]) -> Vec<u8> {
    let p = pack(&doc.to_vec()).unwrap();
    let fontinfo_file = dict_file_content(&p.fontinfo);
    let order_file = array_file_content(&p.order);
    let ui_file = if p.ui_state.is_empty() {
        None
    } else {
        Some(dict_file_content(&p.ui_state))
    };
    let mut records: Vec<GlyphRecord> = Vec::new();
    // Read the glyph files back in reverse of the order they were written,
    // as a directory listing is free to do.
    for g in p.glyphs.iter().rev() {
        let file = dict_file_content(&vec![g.code.clone()]);
        records.push(glyph_record(&file).unwrap());
    }
    unpack(&fontinfo_file, &order_file, &records, &ui_file).unwrap()
}

#[test]
fn metadata_only_document_round_trips_byte_identically() {
    let doc = b"{\nalpha = 1;\nbeta = \"two\";\nglyphs = (\n\n);\n}\n".to_vec();
    assert_eq!(round_trip(&doc), doc);
}

#[test]
fn full_document_round_trips_byte_identically() {
    let doc = b"{\nDisplayStrings = (\nx\n);\nalpha = 1;\nglyphs = (\n{\nglyphname = A;\n},{\nglyphname = B;\n}\n);\n}\n".to_vec();
    assert_eq!(round_trip(&doc), doc);
}

#[test]
fn glyph_order_is_kept_through_round_trip() {
    // The glyphs array lists B, a, A in that order; the storage listing is
    // reversed by the round-trip helper, and the sequence must still come
    // back as B, a, A.
    let doc = b"{\nglyphs = (\n{\nglyphname = B;\n},{\nglyphname = a;\n},{\nglyphname = A;\n}\n);\n}\n".to_vec();
    let out = round_trip(&doc);
    let text = String::from_utf8(out).unwrap();
    let b_at = text.find("glyphname = B;").unwrap();
    let a_lower_at = text.find("glyphname = a;").unwrap();
    let a_upper_at = text.find("glyphname = A;").unwrap();
    assert!(b_at < a_lower_at);
    assert!(a_lower_at < a_upper_at);
}

#[test]
fn unsorted_metadata_comes_back_sorted() {
    let doc = b"{\nzeta = 1;\nalpha = 2;\nglyphs = (\n\n);\n}\n".to_vec();
    let out = round_trip(&doc);
    assert_eq!(out, b"{\nalpha = 2;\nglyphs = (\n\n);\nzeta = 1;\n}\n".to_vec());
}
