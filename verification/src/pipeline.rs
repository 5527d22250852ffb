//! The end-to-end pipeline: collect the required characters of an archive,
//! subset every font against them, and rebuild the archive; and the sibling
//! character-count entry point.
use vstd::prelude::*;

use crate::archive::{
    archive_readable, assoc, entry_views, read_archive, rewrite_spec, strip_stored, write_archive,
    write_plan_ok, zip_entries_of, ArchiveEntry,
};
use crate::chars::{
    collect_required_chars, collect_spec, docs_chars, html_word_count, nonws_count, text_of,
    utf8_decode,
};
use crate::glyphs::{cmap_table_of, font_subset_ok, glyph_list, subset_of, subset_one_font};
use crate::names::{content_name, font_name, is_content_name, is_font_name, marker_name};
use crate::EpubError;

verus! {

/// The decoded content documents of an entry sequence, in entry order.
pub open spec fn content_docs(es: Seq<(Seq<char>, Seq<u8>)>) -> Seq<Seq<char>>
    decreases es.len(),
{
    if es.len() == 0 {
        Seq::empty()
    } else {
        let pre = content_docs(es.drop_last());
        if is_content_name(es.last().0) {
            pre.push(utf8_decode(es.last().1).unwrap())
        } else {
            pre
        }
    }
}

/// Every content document's bytes decode as UTF-8.
pub open spec fn all_content_utf8(es: Seq<(Seq<char>, Seq<u8>)>) -> bool {
    forall|i: int|
        0 <= i < es.len() && is_content_name(es[i].0) ==> utf8_decode(#[trigger] es[i].1) is Some
}

/// The archive-wide required-character set: every non-whitespace character of
/// any content document's rendered text.
pub open spec fn required_chars(es: Seq<(Seq<char>, Seq<u8>)>) -> Set<char> {
    docs_chars(content_docs(es))
}

/// The required-character list the pipeline collects for an archive: the
/// content documents' texts scanned in entry order.
pub open spec fn req_seq(es: Seq<(Seq<char>, Seq<u8>)>) -> Seq<char> {
    collect_spec(content_docs(es))
}

/// Every font entry can be subsetted against the required characters.
pub open spec fn fonts_subsettable(es: Seq<(Seq<char>, Seq<u8>)>, cs: Seq<char>) -> bool {
    forall|i: int|
        0 <= i < es.len() && is_font_name((#[trigger] es[i]).0) ==> font_subset_ok(es[i].1, cs)
}

/// Everything the pipeline needs of an archive's bytes: the container reads
/// back whole, every content document decodes, every font can be subsetted
/// against the required characters, and the rewrite can be streamed out.
pub open spec fn subset_pipeline_ok(data: Seq<u8>) -> bool {
    &&& archive_readable(data)
    &&& zip_entries_of(data) matches Some(zs) && {
        let es = strip_stored(zs);
        &&& all_content_utf8(es)
        &&& fonts_subsettable(es, req_seq(es))
        &&& write_plan_ok(es, font_subs(es, req_seq(es)))
    }
}

/// What each font entry becomes: its bytes subsetted to the glyphs of the
/// required characters.
pub open spec fn font_subs(es: Seq<(Seq<char>, Seq<u8>)>, cs: Seq<char>) -> Seq<
    (Seq<char>, Seq<u8>),
>
    decreases es.len(),
{
    if es.len() == 0 {
        Seq::empty()
    } else {
        let pre = font_subs(es.drop_last(), cs);
        if is_font_name(es.last().0) {
            pre.push(
                (
                    es.last().0,
                    subset_of(es.last().1, glyph_list(cmap_table_of(es.last().1).unwrap(), cs)),
                ),
            )
        } else {
            pre
        }
    }
}

/// Decodes every content document of the entry list, in entry order.  A
/// content document that is not UTF-8 is fatal for the archive.
pub fn content_docs_of(entries: &Vec<ArchiveEntry>) -> (r: Result<Vec<String>, EpubError>)
    ensures
        r matches Ok(ds) ==> all_content_utf8(entry_views(entries@)) && ds@.map_values(
            |s: String| s@,
        ) == content_docs(entry_views(entries@)),
        r is Err <==> !all_content_utf8(entry_views(entries@)),
        r is Err ==> r == Err::<Vec<String>, EpubError>(EpubError::TextNotUtf8),
{
    let ghost eviews = entry_views(entries@);
    let mut ds: Vec<String> = Vec::new();
    proof {
        assert(ds@.map_values(|s: String| s@) =~= content_docs(eviews.take(0)));
    }
    let mut i: usize = 0;
    while i < entries.len()
        invariant
            eviews == entry_views(entries@),
            i <= entries@.len(),
            ds@.map_values(|s: String| s@) == content_docs(eviews.take(i as int)),
            forall|j: int|
                0 <= j < i && is_content_name(eviews[j].0) ==> utf8_decode(
                    #[trigger] eviews[j].1,
                ) is Some,
        decreases entries@.len() - i,
    {
        proof {
            assert(eviews.take(i + 1).drop_last() =~= eviews.take(i as int));
            assert(eviews.take(i + 1).last() == eviews[i as int]);
        }
        let e = &entries[i];
        if content_name(e.name.as_str()) {
            let doc = match crate::chars::decode_utf8(&e.data) {
                Some(doc) => doc,
                None => {
                    proof {
                        assert(eviews[i as int] == entries@[i as int]@);
                        assert(is_content_name(eviews[i as int].0) && utf8_decode(
                            eviews[i as int].1,
                        ) is None);
                    }
                    return Err(EpubError::TextNotUtf8);
                },
            };
            let ghost prev = ds@;
            ds.push(doc);
            proof {
                let f = |s: String| s@;
                assert(ds@.map_values(f).len() == prev.map_values(f).len() + 1);
                assert forall|k: int| 0 <= k < ds@.len() implies ds@.map_values(f)[k]
                    == content_docs(eviews.take(i + 1))[k] by {
                    assert(ds@.map_values(f)[k] == ds@[k]@);
                    if k < prev.len() {
                        assert(ds@[k] == prev[k]);
                        assert(prev.map_values(f)[k] == prev[k]@);
                    }
                }
                assert(ds@.map_values(f) =~= content_docs(eviews.take(i + 1)));
            }
        } else {
            proof {
                assert(ds@.map_values(|s: String| s@) =~= content_docs(eviews.take(i + 1)));
            }
        }
        i += 1;
    }
    proof {
        assert(eviews.take(entries@.len() as int) =~= eviews);
    }
    Ok(ds)
}

/// The content documents of an archive's bytes: every entry whose name marks
/// book content, decoded, with the table-of-contents document left out.
pub fn zip_xhtml_read(data: &Vec<u8>) -> (r: Result<Vec<String>, EpubError>)
    ensures
        r is Ok <==> archive_readable(data@) && (zip_entries_of(data@) matches Some(zs)
            && all_content_utf8(strip_stored(zs))),
        r matches Ok(ds) ==> zip_entries_of(data@) matches Some(zs) && all_content_utf8(
            strip_stored(zs),
        ) && ds@.map_values(|s: String| s@) == content_docs(strip_stored(zs)),
        r == Err::<Vec<String>, EpubError>(EpubError::InvalidArchive) <==> zip_entries_of(data@)
            is None,
        r is Err ==> r == Err::<Vec<String>, EpubError>(EpubError::InvalidArchive) || r == Err::<
            Vec<String>,
            EpubError,
        >(EpubError::EntryUnreadable) || r == Err::<Vec<String>, EpubError>(
            EpubError::DuplicateEntryName,
        ) || r == Err::<Vec<String>, EpubError>(EpubError::TextNotUtf8),
{
    let entries = read_archive(data)?;
    match content_docs_of(&entries) {
        Ok(ds) => Ok(ds),
        Err(e) => Err(e),
    }
}

/// The sum of the documents' non-whitespace character counts.
pub open spec fn total_count(docs: Seq<Seq<char>>) -> nat
    decreases docs.len(),
{
    if docs.len() == 0 {
        0
    } else {
        total_count(docs.drop_last()) + nonws_count(text_of(docs.last()))
    }
}

/// A sum capped at the largest reportable count.
pub open spec fn capped(x: nat) -> nat {
    if x <= u64::MAX {
        x
    } else {
        u64::MAX as nat
    }
}

/// The character count of one archive: the non-whitespace characters of all
/// content documents' rendered text, summed, saturating at the largest
/// reportable count.
pub fn get_epub_word_count(data: &Vec<u8>) -> (r: Result<u64, EpubError>)
    ensures
        r is Ok <==> archive_readable(data@) && (zip_entries_of(data@) matches Some(zs)
            && all_content_utf8(strip_stored(zs))),
        r matches Ok(n) ==> zip_entries_of(data@) matches Some(zs) && all_content_utf8(
            strip_stored(zs),
        ) && n as nat == capped(total_count(content_docs(strip_stored(zs)))),
        r == Err::<u64, EpubError>(EpubError::InvalidArchive) <==> zip_entries_of(data@) is None,
        r is Err ==> r == Err::<u64, EpubError>(EpubError::InvalidArchive) || r == Err::<
            u64,
            EpubError,
        >(EpubError::EntryUnreadable) || r == Err::<u64, EpubError>(EpubError::DuplicateEntryName)
            || r == Err::<u64, EpubError>(EpubError::TextNotUtf8),
{
    let docs = zip_xhtml_read(data)?;
    let ghost dviews = docs@.map_values(|s: String| s@);
    let mut total: u64 = 0;
    proof {
        assert(dviews.take(0) =~= Seq::<Seq<char>>::empty());
    }
    let mut i: usize = 0;
    while i < docs.len()
        invariant
            dviews == docs@.map_values(|s: String| s@),
            i <= docs@.len(),
            total as nat == capped(total_count(dviews.take(i as int))),
        decreases docs@.len() - i,
    {
        proof {
            assert(dviews.take(i + 1).drop_last() =~= dviews.take(i as int));
            assert(dviews.take(i + 1).last() == dviews[i as int]);
        }
        let c = html_word_count(docs[i].as_str());
        total = total.saturating_add(c);
        i += 1;
    }
    proof {
        assert(dviews.take(docs@.len() as int) =~= dviews);
    }
    Ok(total)
}

/// Subsets every font entry against the required characters, building the
/// map from font entry name to reduced bytes.  A failing font is fatal for
/// the archive: nothing is silently shipped unprocessed.
pub fn build_font_map(entries: &Vec<ArchiveEntry>, chars: &Vec<char>) -> (r: Result<
    Vec<ArchiveEntry>,
    EpubError,
>)
    ensures
        r is Ok <==> fonts_subsettable(entry_views(entries@), chars@),
        r matches Ok(fs) ==> entry_views(fs@) == font_subs(entry_views(entries@), chars@),
        r is Err ==> r == Err::<Vec<ArchiveEntry>, EpubError>(EpubError::CmapMissing) || r
            == Err::<Vec<ArchiveEntry>, EpubError>(EpubError::GlyphLookup) || r == Err::<
            Vec<ArchiveEntry>,
            EpubError,
        >(EpubError::SubsetFailed),
{
    let ghost eviews = entry_views(entries@);
    let mut fs: Vec<ArchiveEntry> = Vec::new();
    proof {
        assert(entry_views(fs@) =~= font_subs(eviews.take(0), chars@));
    }
    let mut i: usize = 0;
    while i < entries.len()
        invariant
            eviews == entry_views(entries@),
            i <= entries@.len(),
            entry_views(fs@) == font_subs(eviews.take(i as int), chars@),
            forall|j: int|
                0 <= j < i && is_font_name((#[trigger] eviews[j]).0) ==> font_subset_ok(
                    eviews[j].1,
                    chars@,
                ),
        decreases entries@.len() - i,
    {
        proof {
            assert(eviews.take(i + 1).drop_last() =~= eviews.take(i as int));
            assert(eviews.take(i + 1).last() == eviews[i as int]);
            assert(eviews[i as int] == entries@[i as int]@);
        }
        let e = &entries[i];
        if font_name(e.name.as_str()) {
            let sub = match subset_one_font(&e.data, chars) {
                Ok(s) => s,
                Err(err) => {
                    proof {
                        assert(!font_subset_ok(eviews[i as int].1, chars@));
                    }
                    return Err(err);
                },
            };
            let ghost prev = fs@;
            let name = e.name.clone();
            fs.push(ArchiveEntry { name, data: sub });
            proof {
                assert forall|k: int| 0 <= k < fs@.len() implies entry_views(fs@)[k] == font_subs(
                    eviews.take(i + 1),
                    chars@,
                )[k] by {
                    assert(entry_views(fs@)[k] == fs@[k]@);
                    if k < prev.len() {
                        assert(fs@[k] == prev[k]);
                        assert(entry_views(prev)[k] == prev[k]@);
                    }
                }
                assert(entry_views(fs@) =~= font_subs(eviews.take(i + 1), chars@));
            }
        } else {
            proof {
                assert(entry_views(fs@) =~= font_subs(eviews.take(i + 1), chars@));
            }
        }
        i += 1;
    }
    proof {
        assert(eviews.take(entries@.len() as int) =~= eviews);
    }
    Ok(fs)
}

/// The whole pipeline on one archive's bytes: reads the entries, collects
/// the required characters of the content documents, subsets every font
/// against them, and rebuilds the archive — marker entry first and
/// uncompressed, fonts substituted, everything else copied byte for byte.
/// The caller replaces the original file only on success.
pub fn subset_epub(data: &Vec<u8>) -> (r: Result<Vec<u8>, EpubError>)
    ensures
        r is Ok <==> subset_pipeline_ok(data@),
        r matches Ok(out) ==> zip_entries_of(data@) matches Some(zs) && {
            let es = strip_stored(zs);
            &&& all_content_utf8(es)
            &&& assoc(es, marker_name()) is Some
            &&& zip_entries_of(out@) == Some(rewrite_spec(es, font_subs(es, req_seq(es))))
        },
        r == Err::<Vec<u8>, EpubError>(EpubError::InvalidArchive) <==> zip_entries_of(data@)
            is None,
        r is Err ==> r == Err::<Vec<u8>, EpubError>(EpubError::InvalidArchive) || r == Err::<
            Vec<u8>,
            EpubError,
        >(EpubError::EntryUnreadable) || r == Err::<Vec<u8>, EpubError>(
            EpubError::DuplicateEntryName,
        ) || r == Err::<Vec<u8>, EpubError>(EpubError::TextNotUtf8) || r == Err::<
            Vec<u8>,
            EpubError,
        >(EpubError::CmapMissing) || r == Err::<Vec<u8>, EpubError>(EpubError::GlyphLookup) || r
            == Err::<Vec<u8>, EpubError>(EpubError::SubsetFailed) || r == Err::<
            Vec<u8>,
            EpubError,
        >(EpubError::MarkerMissing) || r == Err::<Vec<u8>, EpubError>(EpubError::WriteFailed),
{
    let entries = match read_archive(data) {
        Ok(es) => es,
        Err(e) => {
            return Err(e);
        },
    };
    let ghost es = entry_views(entries@);
    let docs = match content_docs_of(&entries) {
        Ok(ds) => ds,
        Err(e) => {
            return Err(e);
        },
    };
    let chars = collect_required_chars(&docs);
    proof {
        assert(chars@ == req_seq(es));
    }
    let fonts = match build_font_map(&entries, &chars) {
        Ok(fs) => fs,
        Err(e) => {
            proof {
                assert(!fonts_subsettable(es, req_seq(es)));
            }
            return Err(e);
        },
    };
    match write_archive(&entries, &fonts) {
        Ok(out) => Ok(out),
        Err(e) => {
            proof {
                assert(!write_plan_ok(es, font_subs(es, req_seq(es))));
            }
            Err(e)
        },
    }
}

} // verus!
