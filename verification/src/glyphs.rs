//! Glyph mapping and font subsetting.
//!
//! Reading a font's character-to-glyph table and producing the reduced font
//! are outside capabilities.  The verified logic decides which glyph
//! identifiers the reduced font must keep: glyph 0, which the format
//! mandates first, and the glyph of every required character the font maps,
//! each at most once, with characters the font does not cover silently
//! skipped.
use allsorts::tables::FontTableProvider;
use vstd::prelude::*;

use crate::EpubError;

verus! {

/// The raw character-to-glyph table of a font, if the font parses and has
/// one.  Both depend on the font bytes alone.
pub uninterp spec fn cmap_table_of(font: Seq<u8>) -> Option<Seq<u8>>;

/// The outcome of looking one character up in a character-to-glyph table:
/// nothing if the table cannot be read or queried, otherwise the glyph
/// identifier it assigns the character, if any.  The outcome depends on the
/// table bytes and the character alone.
pub uninterp spec fn cmap_lookup_of(cmap: Seq<u8>, ch: char) -> Option<Option<u16>>;

/// The lookup of `ch` in the table succeeds.
pub open spec fn lookup_ok(cmap: Seq<u8>, ch: char) -> bool {
    cmap_lookup_of(cmap, ch) is Some
}

/// The glyph identifier a character-to-glyph table assigns to a character,
/// if any.
pub open spec fn glyph_of(cmap: Seq<u8>, ch: char) -> Option<u16> {
    cmap_lookup_of(cmap, ch).unwrap()
}

/// The outcome of subsetting a font to a glyph list: the reduced font bytes,
/// or nothing if the subsetting capability rejects the font or the list.
/// The outcome depends on the font bytes and the glyph list alone.
pub uninterp spec fn subset_result_of(font: Seq<u8>, glyphs: Seq<u16>) -> Option<Seq<u8>>;

/// The subsetting capability accepts the font and the glyph list.
pub open spec fn subset_ok(font: Seq<u8>, glyphs: Seq<u16>) -> bool {
    subset_result_of(font, glyphs) is Some
}

/// The reduced font built from a font and the glyph identifiers to keep.
pub open spec fn subset_of(font: Seq<u8>, glyphs: Seq<u16>) -> Seq<u8> {
    subset_result_of(font, glyphs).unwrap()
}

#[verifier::external_type_specification]
#[verifier::external_body]
pub struct ExReadWriteError(allsorts::error::ReadWriteError);

#[verifier::external_type_specification]
#[verifier::external_body]
pub struct ExParseError(allsorts::error::ParseError);

#[verifier::external_type_specification]
#[verifier::external_body]
pub struct ExSubsetError(allsorts::subset::SubsetError);

/// Relies on allsorts: ReadScope::read::<FontData>, FontData::table_provider
/// and FontTableProvider::read_table_data, which locate the font's `cmap`
/// table; success and the table bytes depend on the font bytes alone.
#[verifier::external_body]
fn read_cmap_table(font: &Vec<u8>) -> (r: Result<Vec<u8>, allsorts::error::ReadWriteError>)
    ensures
        r is Ok <==> cmap_table_of(font@) is Some,
        r matches Ok(b) ==> Some(b@) == cmap_table_of(font@),
{
    let scope = allsorts::binary::read::ReadScope::new(font.as_slice());
    let font_data = scope.read::<allsorts::font_data::FontData>()?;
    let provider = font_data.table_provider(0)?;
    let data = provider.read_table_data(allsorts::tag::CMAP)?;
    Ok(data.into_owned())
}

/// Relies on allsorts: ReadScope::read::<Cmap>, read_cmap_subtable and
/// CmapSubtable::map_glyph, which look one character up in a `cmap` table;
/// the glyph found depends on the table bytes and the character alone.
#[verifier::external_body]
fn cmap_lookup(cmap: &Vec<u8>, ch: char) -> (r: Result<
    Option<u16>,
    allsorts::error::ParseError,
>)
    ensures
        r is Ok <==> lookup_ok(cmap@, ch),
        r matches Ok(g) ==> Some(g) == cmap_lookup_of(cmap@, ch),
{
    let scope = allsorts::binary::read::ReadScope::new(cmap.as_slice());
    let table = scope.read::<allsorts::tables::cmap::Cmap>()?;
    match allsorts::font::read_cmap_subtable(&table)? {
        Some((_, subtable)) => subtable.map_glyph(ch as u32),
        None => Err(allsorts::error::ParseError::MissingValue),
    }
}

/// Relies on allsorts::subset::subset with the minimal profile and a Unicode
/// character map, after reading the font as above: the reduced font bytes
/// depend on the font bytes and the glyph list alone.
#[verifier::external_body]
fn subset_font_bytes(font: &Vec<u8>, glyphs: &Vec<u16>) -> (r: Result<
    Vec<u8>,
    allsorts::subset::SubsetError,
>)
    ensures
        r is Ok <==> subset_ok(font@, glyphs@),
        r matches Ok(b) ==> Some(b@) == subset_result_of(font@, glyphs@),
{
    let scope = allsorts::binary::read::ReadScope::new(font.as_slice());
    let font_data = scope.read::<allsorts::font_data::FontData>().map_err(
        allsorts::subset::SubsetError::from,
    )?;
    let provider = font_data.table_provider(0).map_err(allsorts::subset::SubsetError::from)?;
    allsorts::subset::subset(
        &provider,
        glyphs.as_slice(),
        &allsorts::subset::SubsetProfile::Minimal,
        allsorts::subset::CmapTarget::Unicode,
    )
}

/// The glyph identifiers to keep for `cs`: glyph 0 first, then the glyph of
/// each character the table maps, in first-occurrence order, duplicates
/// dropped.
pub open spec fn glyph_list(cmap: Seq<u8>, cs: Seq<char>) -> Seq<u16>
    decreases cs.len(),
{
    if cs.len() == 0 {
        seq![0u16]
    } else {
        let pre = glyph_list(cmap, cs.drop_last());
        match glyph_of(cmap, cs.last()) {
            Some(g) => if pre.contains(g) {
                pre
            } else {
                pre.push(g)
            },
            None => pre,
        }
    }
}

/// The glyph list keeps glyph 0 first, holds no duplicates, and holds exactly
/// the glyphs of the mapped characters: nothing else is retained, and no
/// required character the table maps is dropped.
pub proof fn lemma_glyph_list_exact(cmap: Seq<u8>, cs: Seq<char>)
    ensures
        glyph_list(cmap, cs).len() > 0,
        glyph_list(cmap, cs)[0] == 0u16,
        glyph_list(cmap, cs).no_duplicates(),
        forall|g: u16|
            glyph_list(cmap, cs).contains(g) <==> (g == 0u16 || exists|i: int|
                0 <= i < cs.len() && glyph_of(cmap, cs[i]) == Some(g)),
    decreases cs.len(),
{
    if cs.len() == 0 {
        assert(glyph_list(cmap, cs) == seq![0u16]);
        assert forall|g: u16| glyph_list(cmap, cs).contains(g) implies g == 0u16 by {
            let j = choose|j: int| 0 <= j < 1 && glyph_list(cmap, cs)[j] == g;
        }
        assert(glyph_list(cmap, cs)[0] == 0u16);
        assert(glyph_list(cmap, cs).contains(0u16));
    } else {
        lemma_glyph_list_exact(cmap, cs.drop_last());
        let pre = glyph_list(cmap, cs.drop_last());
        let full = glyph_list(cmap, cs);
        assert forall|g: u16| full.contains(g) implies (g == 0u16 || exists|i: int|
            0 <= i < cs.len() && glyph_of(cmap, cs[i]) == Some(g)) by {
            if !pre.contains(g) {
                assert(glyph_of(cmap, cs.last()) == Some(g));
                assert(glyph_of(cmap, cs[cs.len() - 1]) == Some(g));
            } else {
                if g != 0u16 {
                    let i = choose|i: int|
                        0 <= i < cs.len() - 1 && glyph_of(cmap, cs.drop_last()[i]) == Some(g);
                    assert(cs[i] == cs.drop_last()[i]);
                }
            }
        }
        assert forall|g: u16| (g == 0u16 || exists|i: int|
            0 <= i < cs.len() && glyph_of(cmap, cs[i]) == Some(g)) implies full.contains(g) by {
            if g == 0u16 {
                assert(pre.contains(g));
                if full != pre {
                    assert(full == pre.push(glyph_of(cmap, cs.last()).unwrap()));
                    let j = choose|j: int| 0 <= j < pre.len() && pre[j] == g;
                    assert(full[j] == g);
                }
            } else {
                let i = choose|i: int| 0 <= i < cs.len() && glyph_of(cmap, cs[i]) == Some(g);
                if i < cs.len() - 1 {
                    assert(cs.drop_last()[i] == cs[i]);
                    assert(pre.contains(g));
                    if full != pre {
                        let j = choose|j: int| 0 <= j < pre.len() && pre[j] == g;
                        assert(full[j] == g);
                    }
                } else {
                    assert(glyph_of(cmap, cs.last()) == Some(g));
                    if pre.contains(g) {
                        if full != pre {
                            let j = choose|j: int| 0 <= j < pre.len() && pre[j] == g;
                            assert(full[j] == g);
                        }
                    } else {
                        assert(full == pre.push(g));
                        assert(full[full.len() - 1] == g);
                    }
                }
            }
        }
    }
}

/// Whether `v` holds `g`.
fn glyph_in(v: &Vec<u16>, g: u16) -> (r: bool)
    ensures
        r == v@.contains(g),
{
    let mut i: usize = 0;
    while i < v.len()
        invariant
            i <= v@.len(),
            forall|j: int| 0 <= j < i ==> v@[j] != g,
        decreases v@.len() - i,
    {
        if v[i] == g {
            return true;
        }
        i += 1;
    }
    false
}

/// Translates the required characters into the glyph identifiers the reduced
/// font must keep.  A character the font does not map is silently skipped; a
/// font whose character-to-glyph table is missing, or cannot be queried for
/// some required character, is a fatal error for the archive.  Policy note:
/// the table is only queried per required character, so with an empty
/// required set a font with an unusable subtable is not rejected here — the
/// subsetting capability still decides whether the font itself is acceptable.
pub fn chars_to_glyphs(font_data: &Vec<u8>, chars: &Vec<char>) -> (r: Result<Vec<u16>, EpubError>)
    ensures
        r is Ok <==> (cmap_table_of(font_data@) matches Some(cmap) && forall|i: int|
            0 <= i < chars@.len() ==> lookup_ok(cmap, #[trigger] chars@[i])),
        r matches Ok(gs) ==> cmap_table_of(font_data@) matches Some(cmap) && gs@ == glyph_list(
            cmap,
            chars@,
        ),
        r == Err::<Vec<u16>, EpubError>(EpubError::CmapMissing) <==> cmap_table_of(font_data@)
            is None,
        r == Err::<Vec<u16>, EpubError>(EpubError::GlyphLookup) <==> (cmap_table_of(font_data@)
            matches Some(cmap) && exists|i: int|
            0 <= i < chars@.len() && !lookup_ok(cmap, #[trigger] chars@[i])),
{
    let cmap = match read_cmap_table(font_data) {
        Ok(c) => c,
        Err(_) => {
            return Err(EpubError::CmapMissing);
        },
    };
    let mut glyphs: Vec<u16> = Vec::new();
    glyphs.push(0u16);
    proof {
        assert(chars@.take(0) =~= Seq::<char>::empty());
        assert(glyphs@ =~= glyph_list(cmap@, chars@.take(0)));
    }
    let mut i: usize = 0;
    while i < chars.len()
        invariant
            i <= chars@.len(),
            Some(cmap@) == cmap_table_of(font_data@),
            glyphs@ == glyph_list(cmap@, chars@.take(i as int)),
            forall|j: int| 0 <= j < i ==> lookup_ok(cmap@, #[trigger] chars@[j]),
        decreases chars@.len() - i,
    {
        proof {
            assert(chars@.take(i + 1).drop_last() =~= chars@.take(i as int));
            assert(chars@.take(i + 1).last() == chars@[i as int]);
        }
        match cmap_lookup(&cmap, chars[i]) {
            Ok(Some(g)) => {
                if !glyph_in(&glyphs, g) {
                    glyphs.push(g);
                }
            },
            Ok(None) => {},
            Err(_) => {
                proof {
                    assert(!lookup_ok(cmap@, chars@[i as int]));
                }
                return Err(EpubError::GlyphLookup);
            },
        }
        i += 1;
    }
    proof {
        assert(chars@.take(chars@.len() as int) =~= chars@);
    }
    Ok(glyphs)
}

/// A font entry can be processed: its character-to-glyph table is readable,
/// every required character can be looked up in it, and the subsetting
/// capability accepts the resulting glyph list.
pub open spec fn font_subset_ok(font: Seq<u8>, cs: Seq<char>) -> bool {
    cmap_table_of(font) matches Some(cmap) && (forall|i: int|
        0 <= i < cs.len() ==> lookup_ok(cmap, #[trigger] cs[i])) && subset_ok(
        font,
        glyph_list(cmap, cs),
    )
}

/// Produces the reduced font for one font entry: the glyphs of the required
/// characters are resolved and handed to the subsetting capability.
pub fn subset_one_font(font_data: &Vec<u8>, chars: &Vec<char>) -> (r: Result<Vec<u8>, EpubError>)
    ensures
        r is Ok <==> font_subset_ok(font_data@, chars@),
        r matches Ok(b) ==> cmap_table_of(font_data@) matches Some(cmap) && b@ == subset_of(
            font_data@,
            glyph_list(cmap, chars@),
        ),
        r == Err::<Vec<u8>, EpubError>(EpubError::CmapMissing) <==> cmap_table_of(font_data@)
            is None,
        r == Err::<Vec<u8>, EpubError>(EpubError::GlyphLookup) <==> (cmap_table_of(font_data@)
            matches Some(cmap) && exists|i: int|
            0 <= i < chars@.len() && !lookup_ok(cmap, #[trigger] chars@[i])),
        r == Err::<Vec<u8>, EpubError>(EpubError::SubsetFailed) <==> (cmap_table_of(font_data@)
            matches Some(cmap) && (forall|i: int|
            0 <= i < chars@.len() ==> lookup_ok(cmap, #[trigger] chars@[i])) && !subset_ok(
            font_data@,
            glyph_list(cmap, chars@),
        )),
{
    let glyphs = chars_to_glyphs(font_data, chars)?;
    match subset_font_bytes(font_data, &glyphs) {
        Ok(b) => Ok(b),
        Err(_) => Err(EpubError::SubsetFailed),
    }
}

} // verus!
