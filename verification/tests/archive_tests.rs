use std::io::{Cursor, Write};

use epub_subset::archive::read_archive;
use epub_subset::glyphs::chars_to_glyphs;
use epub_subset::pipeline::{get_epub_word_count, subset_epub, zip_xhtml_read};
use epub_subset::EpubError;

fn make_zip(entries: &[(&str, &[u8])]) -> Vec<u8> {
    let mut w = zip::ZipWriter::new(Cursor::new(Vec::new()));
    for (name, data) in entries {
        let method = if *name == "mimetype" {
            zip::CompressionMethod::Stored
        } else {
            zip::CompressionMethod::Deflated
        };
        let options = zip::write::SimpleFileOptions::default().compression_method(method);
        w.start_file(*name, options).unwrap();
        w.write_all(data).unwrap();
    }
    w.finish().unwrap().into_inner()
}

const MARKER_BYTES: &[u8] = b"application/epub+zip";

#[test]
fn read_archive_round_trip() {
    let data = make_zip(&[
        ("mimetype", MARKER_BYTES),
        ("a.xhtml", b"<p>AB</p>"),
        ("img.bin", &[0u8, 1, 2, 255]),
    ]);
    let entries = read_archive(&data).unwrap();
    assert_eq!(entries.len(), 3);
    assert_eq!(entries[0].name, "mimetype");
    assert_eq!(entries[0].data, MARKER_BYTES.to_vec());
    assert_eq!(entries[1].name, "a.xhtml");
    assert_eq!(entries[1].data, b"<p>AB</p>".to_vec());
    assert_eq!(entries[2].name, "img.bin");
    assert_eq!(entries[2].data, vec![0u8, 1, 2, 255]);
}

#[test]
fn read_archive_rejects_garbage() {
    let data = vec![1u8, 2, 3, 4, 5];
    assert_eq!(read_archive(&data).unwrap_err(), EpubError::InvalidArchive);
}

#[test]
fn content_documents_skip_toc_and_non_markup() {
    let data = make_zip(&[
        ("mimetype", MARKER_BYTES),
        ("one.xhtml", b"<p>AB</p>"),
        ("toc.xhtml", b"<p>Z</p>"),
        ("style.css", b"p { }"),
        ("two.html", b"<p>CD</p>"),
    ]);
    let docs = zip_xhtml_read(&data).unwrap();
    assert_eq!(docs.len(), 2);
    assert_eq!(docs[0], "<p>AB</p>");
    assert_eq!(docs[1], "<p>CD</p>");
}

#[test]
fn toc_only_archive_has_empty_required_set() {
    let data = make_zip(&[("mimetype", MARKER_BYTES), ("toc.xhtml", b"<p>XYZ</p>")]);
    let docs = zip_xhtml_read(&data).unwrap();
    assert!(docs.is_empty());
    assert_eq!(get_epub_word_count(&data).unwrap(), 0);
}

#[test]
fn word_count_of_simple_archive() {
    let data = make_zip(&[
        ("mimetype", MARKER_BYTES),
        ("one.xhtml", b"<html><body>AB AB</body></html>"),
    ]);
    assert_eq!(get_epub_word_count(&data).unwrap(), 4);
}

#[test]
fn rewrite_keeps_marker_first_and_stored() {
    let data = make_zip(&[
        ("mimetype", MARKER_BYTES),
        ("one.xhtml", b"<p>AB</p>"),
        ("img.bin", &[9u8, 8, 7]),
    ]);
    let out = subset_epub(&data).unwrap();
    let mut z = zip::ZipArchive::new(Cursor::new(out)).unwrap();
    let first = z.by_index(0).unwrap();
    assert_eq!(first.name(), "mimetype");
    assert_eq!(first.compression(), zip::CompressionMethod::Stored);
    drop(first);
    let mut marker_bytes = Vec::new();
    std::io::Read::read_to_end(&mut z.by_name("mimetype").unwrap(), &mut marker_bytes).unwrap();
    assert_eq!(marker_bytes, MARKER_BYTES.to_vec());
}

#[test]
fn rewrite_copies_non_font_entries_exactly() {
    let data = make_zip(&[
        ("mimetype", MARKER_BYTES),
        ("one.xhtml", b"<p>AB</p>"),
        ("img.bin", &[9u8, 8, 7, 0, 255]),
    ]);
    let out = subset_epub(&data).unwrap();
    let before = read_archive(&data).unwrap();
    let after = read_archive(&out).unwrap();
    assert_eq!(before.len(), after.len());
    for (b, a) in before.iter().zip(after.iter()) {
        assert_eq!(b.name, a.name);
        assert_eq!(b.data, a.data);
    }
}

#[test]
fn rewrite_preserves_required_characters() {
    let data = make_zip(&[
        ("mimetype", MARKER_BYTES),
        ("one.xhtml", b"<p>AB C</p>"),
        ("toc.xhtml", b"<p>Q</p>"),
    ]);
    let out = subset_epub(&data).unwrap();
    let docs_before = zip_xhtml_read(&data).unwrap();
    let docs_after = zip_xhtml_read(&out).unwrap();
    assert_eq!(docs_before, docs_after);
    let out_again = subset_epub(&out).unwrap();
    assert_eq!(zip_xhtml_read(&out_again).unwrap(), docs_before);
}

#[test]
fn missing_marker_is_reported() {
    let data = make_zip(&[("one.xhtml", b"<p>AB</p>")]);
    assert_eq!(subset_epub(&data).unwrap_err(), EpubError::MarkerMissing);
}

#[test]
fn invalid_archive_is_reported() {
    let data = b"this is not a zip archive".to_vec();
    assert_eq!(subset_epub(&data).unwrap_err(), EpubError::InvalidArchive);
}

#[test]
fn non_utf8_content_is_reported() {
    let data = make_zip(&[
        ("mimetype", MARKER_BYTES),
        ("bad.xhtml", &[0xffu8, 0xfe, 0x00, 0x80]),
    ]);
    assert_eq!(subset_epub(&data).unwrap_err(), EpubError::TextNotUtf8);
}

#[test]
fn unreadable_font_is_reported() {
    let data = make_zip(&[
        ("mimetype", MARKER_BYTES),
        ("one.xhtml", b"<p>AB</p>"),
        ("broken.ttf", &[0u8, 1, 2, 3]),
    ]);
    assert_eq!(subset_epub(&data).unwrap_err(), EpubError::CmapMissing);
}

#[test]
fn glyph_mapping_needs_a_font_table() {
    let font = vec![0u8, 1, 2, 3];
    let chars = vec!['A', 'B'];
    assert_eq!(chars_to_glyphs(&font, &chars).unwrap_err(), EpubError::CmapMissing);
}
