use std::io::{Cursor, Write};

use epub_subset::glyphs::{chars_to_glyphs, subset_one_font};
use epub_subset::pipeline::subset_epub;

fn push_u16(v: &mut Vec<u8>, x: u16) {
    v.extend_from_slice(&x.to_be_bytes());
}

fn push_i16(v: &mut Vec<u8>, x: i16) {
    v.extend_from_slice(&x.to_be_bytes());
}

fn push_u32(v: &mut Vec<u8>, x: u32) {
    v.extend_from_slice(&x.to_be_bytes());
}

fn head_table() -> Vec<u8> {
    let mut t = Vec::new();
    push_u32(&mut t, 0x00010000); // version
    push_u32(&mut t, 0); // fontRevision
    push_u32(&mut t, 0); // checkSumAdjustment
    push_u32(&mut t, 0x5F0F3CF5); // magicNumber
    push_u16(&mut t, 0); // flags
    push_u16(&mut t, 1000); // unitsPerEm
    t.extend_from_slice(&[0u8; 8]); // created
    t.extend_from_slice(&[0u8; 8]); // modified
    push_i16(&mut t, 0); // xMin
    push_i16(&mut t, 0); // yMin
    push_i16(&mut t, 30); // xMax
    push_i16(&mut t, 30); // yMax
    push_u16(&mut t, 0); // macStyle
    push_u16(&mut t, 8); // lowestRecPPEM
    push_i16(&mut t, 2); // fontDirectionHint
    push_i16(&mut t, 0); // indexToLocFormat: short loca
    push_i16(&mut t, 0); // glyphDataFormat
    t
}

fn maxp_table(num_glyphs: u16) -> Vec<u8> {
    let mut t = Vec::new();
    push_u32(&mut t, 0x00010000);
    push_u16(&mut t, num_glyphs);
    push_u16(&mut t, 4); // maxPoints
    push_u16(&mut t, 1); // maxContours
    push_u16(&mut t, 0); // maxCompositePoints
    push_u16(&mut t, 0); // maxCompositeContours
    push_u16(&mut t, 2); // maxZones
    push_u16(&mut t, 0); // maxTwilightPoints
    push_u16(&mut t, 0); // maxStorage
    push_u16(&mut t, 0); // maxFunctionDefs
    push_u16(&mut t, 0); // maxInstructionDefs
    push_u16(&mut t, 0); // maxStackElements
    push_u16(&mut t, 0); // maxSizeOfInstructions
    push_u16(&mut t, 0); // maxComponentElements
    push_u16(&mut t, 0); // maxComponentDepth
    t
}

fn hhea_table(num_h_metrics: u16) -> Vec<u8> {
    let mut t = Vec::new();
    push_u32(&mut t, 0x00010000);
    push_i16(&mut t, 800); // ascender
    push_i16(&mut t, -200); // descender
    push_i16(&mut t, 0); // lineGap
    push_u16(&mut t, 500); // advanceWidthMax
    push_i16(&mut t, 0); // minLeftSideBearing
    push_i16(&mut t, 0); // minRightSideBearing
    push_i16(&mut t, 30); // xMaxExtent
    push_i16(&mut t, 1); // caretSlopeRise
    push_i16(&mut t, 0); // caretSlopeRun
    push_i16(&mut t, 0); // caretOffset
    push_i16(&mut t, 0);
    push_i16(&mut t, 0);
    push_i16(&mut t, 0);
    push_i16(&mut t, 0);
    push_i16(&mut t, 0); // metricDataFormat
    push_u16(&mut t, num_h_metrics);
    t
}

fn hmtx_table(num_glyphs: u16) -> Vec<u8> {
    let mut t = Vec::new();
    for _ in 0..num_glyphs {
        push_u16(&mut t, 500);
        push_i16(&mut t, 0);
    }
    t
}

/// One segment mapping 'A'..='C' to glyphs 1..=3, plus the final sentinel.
fn cmap_table() -> Vec<u8> {
    let mut t = Vec::new();
    push_u16(&mut t, 0); // version
    push_u16(&mut t, 1); // numTables
    push_u16(&mut t, 3); // platform: Windows
    push_u16(&mut t, 1); // encoding: Unicode BMP
    push_u32(&mut t, 12); // subtable offset
    // format 4 subtable
    push_u16(&mut t, 4); // format
    push_u16(&mut t, 32); // length
    push_u16(&mut t, 0); // language
    push_u16(&mut t, 4); // segCountX2
    push_u16(&mut t, 4); // searchRange
    push_u16(&mut t, 1); // entrySelector
    push_u16(&mut t, 0); // rangeShift
    push_u16(&mut t, 0x43); // endCode: 'C'
    push_u16(&mut t, 0xFFFF);
    push_u16(&mut t, 0); // reservedPad
    push_u16(&mut t, 0x41); // startCode: 'A'
    push_u16(&mut t, 0xFFFF);
    push_i16(&mut t, 1 - 0x41); // idDelta: 'A' -> glyph 1
    push_i16(&mut t, 1);
    push_u16(&mut t, 0); // idRangeOffset
    push_u16(&mut t, 0);
    t
}

fn post_table() -> Vec<u8> {
    let mut t = Vec::new();
    push_u32(&mut t, 0x00030000); // version 3.0: no glyph names
    push_u32(&mut t, 0); // italicAngle
    push_i16(&mut t, 0); // underlinePosition
    push_i16(&mut t, 0); // underlineThickness
    push_u32(&mut t, 0); // isFixedPitch
    push_u32(&mut t, 0); // minMemType42
    push_u32(&mut t, 0); // maxMemType42
    push_u32(&mut t, 0); // minMemType1
    push_u32(&mut t, 0); // maxMemType1
    t
}

fn os2_table() -> Vec<u8> {
    let mut t = Vec::new();
    push_u16(&mut t, 0); // version 0
    push_i16(&mut t, 500); // xAvgCharWidth
    push_u16(&mut t, 400); // usWeightClass
    push_u16(&mut t, 5); // usWidthClass
    push_u16(&mut t, 0); // fsType
    for _ in 0..10 {
        push_i16(&mut t, 0); // subscript/superscript/strikeout metrics
    }
    push_i16(&mut t, 0); // sFamilyClass
    t.extend_from_slice(&[0u8; 10]); // panose
    push_u32(&mut t, 0); // ulUnicodeRange1
    push_u32(&mut t, 0); // ulUnicodeRange2
    push_u32(&mut t, 0); // ulUnicodeRange3
    push_u32(&mut t, 0); // ulUnicodeRange4
    t.extend_from_slice(b"NONE"); // achVendID
    push_u16(&mut t, 0x40); // fsSelection: regular
    push_u16(&mut t, 0x41); // usFirstCharIndex
    push_u16(&mut t, 0x43); // usLastCharIndex
    push_i16(&mut t, 800); // sTypoAscender
    push_i16(&mut t, -200); // sTypoDescender
    push_i16(&mut t, 0); // sTypoLineGap
    push_u16(&mut t, 800); // usWinAscent
    push_u16(&mut t, 200); // usWinDescent
    t
}

/// A triangle of three on-curve points with non-negative deltas.
fn simple_glyph() -> Vec<u8> {
    let mut g = Vec::new();
    push_i16(&mut g, 1); // numberOfContours
    push_i16(&mut g, 0); // xMin
    push_i16(&mut g, 0); // yMin
    push_i16(&mut g, 30); // xMax
    push_i16(&mut g, 30); // yMax
    push_u16(&mut g, 2); // endPtsOfContours
    push_u16(&mut g, 0); // instructionLength
    g.extend_from_slice(&[0x37, 0x37, 0x37]); // flags: on-curve, short, positive
    g.extend_from_slice(&[0, 30, 0]); // x deltas
    g.extend_from_slice(&[0, 0, 30]); // y deltas
    g.push(0); // pad to even length
    g
}

fn glyf_and_loca() -> (Vec<u8>, Vec<u8>) {
    let mut glyf = Vec::new();
    let mut loca = Vec::new();
    push_u16(&mut loca, 0); // glyph 0: empty
    push_u16(&mut loca, 0);
    for _ in 0..3 {
        let g = simple_glyph();
        glyf.extend_from_slice(&g);
        push_u16(&mut loca, (glyf.len() / 2) as u16);
    }
    (glyf, loca)
}

/// A minimal TrueType font whose character map covers exactly 'A', 'B', 'C'.
fn make_test_font() -> Vec<u8> {
    let (glyf, loca) = glyf_and_loca();
    assemble_font(vec![
        (b"OS/2", os2_table()),
        (b"cmap", cmap_table()),
        (b"glyf", glyf),
        (b"head", head_table()),
        (b"hhea", hhea_table(4)),
        (b"hmtx", hmtx_table(4)),
        (b"loca", loca),
        (b"maxp", maxp_table(4)),
        (b"post", post_table()),
    ])
}

/// The same font without its `post` table: its character map reads fine but
/// the subsetting capability rejects it.
fn make_font_without_post() -> Vec<u8> {
    let (glyf, loca) = glyf_and_loca();
    assemble_font(vec![
        (b"OS/2", os2_table()),
        (b"cmap", cmap_table()),
        (b"glyf", glyf),
        (b"head", head_table()),
        (b"hhea", hhea_table(4)),
        (b"hmtx", hmtx_table(4)),
        (b"loca", loca),
        (b"maxp", maxp_table(4)),
    ])
}

/// The same font with a `cmap` table that holds no subtables: the table is
/// located, but no character can be looked up in it.
fn make_font_with_empty_cmap() -> Vec<u8> {
    let (glyf, loca) = glyf_and_loca();
    let mut empty_cmap = Vec::new();
    push_u16(&mut empty_cmap, 0); // version
    push_u16(&mut empty_cmap, 0); // numTables
    assemble_font(vec![
        (b"OS/2", os2_table()),
        (b"cmap", empty_cmap),
        (b"glyf", glyf),
        (b"head", head_table()),
        (b"hhea", hhea_table(4)),
        (b"hmtx", hmtx_table(4)),
        (b"loca", loca),
        (b"maxp", maxp_table(4)),
        (b"post", post_table()),
    ])
}

fn assemble_font(mut tables: Vec<(&[u8; 4], Vec<u8>)>) -> Vec<u8> {
    let num_tables = tables.len() as u16;
    let mut search_range: u16 = 16;
    let mut entry_selector: u16 = 0;
    while search_range * 2 <= num_tables * 16 {
        search_range *= 2;
        entry_selector += 1;
    }
    let mut font = Vec::new();
    push_u32(&mut font, 0x00010000); // sfnt version
    push_u16(&mut font, num_tables);
    push_u16(&mut font, search_range);
    push_u16(&mut font, entry_selector);
    push_u16(&mut font, num_tables * 16 - search_range);
    let mut offset = 12 + num_tables as u32 * 16;
    let mut body = Vec::new();
    for (tag, data) in tables.iter_mut() {
        font.extend_from_slice(*tag);
        push_u32(&mut font, 0); // checksum (not validated here)
        push_u32(&mut font, offset);
        push_u32(&mut font, data.len() as u32);
        while data.len() % 4 != 0 {
            data.push(0);
        }
        offset += data.len() as u32;
        body.extend_from_slice(data);
    }
    font.extend_from_slice(&body);
    font
}


#[test]
fn glyph_mapping_resolves_covered_characters() {
    let font = make_test_font();
    let glyphs = chars_to_glyphs(&font, &vec!['A', 'B', 'C']).unwrap();
    assert_eq!(glyphs, vec![0u16, 1, 2, 3]);
}

#[test]
fn glyph_mapping_skips_uncovered_characters() {
    let font = make_test_font();
    let glyphs = chars_to_glyphs(&font, &vec!['A', 'Z', 'B', 'A']).unwrap();
    assert_eq!(glyphs, vec![0u16, 1, 2]);
}

#[test]
fn subsetted_font_drops_unrequired_glyphs() {
    let font = make_test_font();
    let reduced = subset_one_font(&font, &vec!['A', 'B']).unwrap();
    assert_ne!(reduced, font);
    // The reduced font still maps the required characters ...
    let kept = chars_to_glyphs(&reduced, &vec!['A', 'B']).unwrap();
    assert_eq!(kept.len(), 3);
    assert_eq!(kept[0], 0);
    assert!(kept[1] != 0 && kept[2] != 0);
    // ... but no longer carries a glyph for 'C'.
    let c_lookup = chars_to_glyphs(&reduced, &vec!['C']).unwrap();
    assert_eq!(c_lookup, vec![0u16]);
}

#[test]
fn whole_pipeline_subsets_the_embedded_font() {
    let font = make_test_font();
    let mut w = zip::ZipWriter::new(Cursor::new(Vec::new()));
    let stored = zip::write::SimpleFileOptions::default().compression_method(
        zip::CompressionMethod::Stored,
    );
    let deflated = zip::write::SimpleFileOptions::default().compression_method(
        zip::CompressionMethod::Deflated,
    );
    w.start_file("mimetype", stored).unwrap();
    w.write_all(b"application/epub+zip").unwrap();
    w.start_file("one.xhtml", deflated).unwrap();
    w.write_all(b"<html><body>AB AB</body></html>").unwrap();
    w.start_file("fonts/test.ttf", deflated).unwrap();
    w.write_all(&font).unwrap();
    let data = w.finish().unwrap().into_inner();

    let out = subset_epub(&data).unwrap();
    let entries = epub_subset::archive::read_archive(&out).unwrap();
    assert_eq!(entries.len(), 3);
    assert_eq!(entries[2].name, "fonts/test.ttf");
    let reduced = &entries[2].data;
    assert_ne!(reduced, &font);
    // Required characters still map; the unused character does not.
    assert_eq!(chars_to_glyphs(reduced, &vec!['C']).unwrap(), vec![0u16]);
    assert_eq!(chars_to_glyphs(reduced, &vec!['A', 'B']).unwrap().len(), 3);
}

#[test]
fn subsetting_rejects_a_font_missing_required_tables() {
    let font = make_font_without_post();
    // The character map itself still resolves ...
    assert_eq!(chars_to_glyphs(&font, &vec!['A']).unwrap(), vec![0u16, 1]);
    // ... but the reduced font cannot be built.
    assert_eq!(
        subset_one_font(&font, &vec!['A']).unwrap_err(),
        epub_subset::EpubError::SubsetFailed
    );
}

#[test]
fn toc_only_characters_leave_the_font() {
    let font = make_test_font();
    let mut w = zip::ZipWriter::new(Cursor::new(Vec::new()));
    let stored = zip::write::SimpleFileOptions::default().compression_method(
        zip::CompressionMethod::Stored,
    );
    let deflated = zip::write::SimpleFileOptions::default().compression_method(
        zip::CompressionMethod::Deflated,
    );
    w.start_file("mimetype", stored).unwrap();
    w.write_all(b"application/epub+zip").unwrap();
    w.start_file("one.xhtml", deflated).unwrap();
    w.write_all(b"<p>AB</p>").unwrap();
    w.start_file("toc.xhtml", deflated).unwrap();
    w.write_all(b"<p>C</p>").unwrap();
    w.start_file("f.ttf", deflated).unwrap();
    w.write_all(&font).unwrap();
    let data = w.finish().unwrap().into_inner();

    let out = subset_epub(&data).unwrap();
    let entries = epub_subset::archive::read_archive(&out).unwrap();
    let reduced = &entries[3].data;
    assert_eq!(entries[3].name, "f.ttf");
    // 'C' appears only in the table-of-contents document, so its glyph is
    // gone even though the original font carried it.
    assert_eq!(chars_to_glyphs(reduced, &vec!['C']).unwrap(), vec![0u16]);
    assert_eq!(chars_to_glyphs(reduced, &vec!['A', 'B']).unwrap().len(), 3);
}

#[test]
fn empty_required_set_keeps_only_mandatory_glyphs() {
    let font = make_test_font();
    let reduced = subset_one_font(&font, &Vec::new()).unwrap();
    // No optional glyphs remain beyond the mandatory glyph 0.
    assert_eq!(chars_to_glyphs(&reduced, &vec!['A', 'B', 'C']).unwrap(), vec![0u16]);
}

#[test]
fn unusable_character_map_is_reported() {
    let font = make_font_with_empty_cmap();
    assert_eq!(
        chars_to_glyphs(&font, &vec!['A']).unwrap_err(),
        epub_subset::EpubError::GlyphLookup
    );
}
