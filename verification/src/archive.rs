//! The archive boundary and the rewrite logic.
//!
//! The zip container format is an outside capability.  An archive is modelled
//! as the ordered sequence of entries — name, raw bytes, and whether the
//! entry is stored without compression — that the container parses to.  The
//! verified logic reads that sequence, and rebuilds it with the marker entry
//! first and uncompressed, subsetted bytes in place of font entries, and
//! every other entry copied byte for byte.
use std::io::Cursor;
use std::io::Read;
use std::io::Write;
use vstd::prelude::*;

use crate::names::{marker, marker_name};
use crate::strutil::str_eq;
use crate::EpubError;

verus! {

/// One archive entry as the library models it: a name and raw bytes.
#[derive(Debug)]
pub struct ArchiveEntry {
    pub name: String,
    pub data: Vec<u8>,
}

impl View for ArchiveEntry {
    type V = (Seq<char>, Seq<u8>);

    open spec fn view(&self) -> (Seq<char>, Seq<u8>) {
        (self.name@, self.data@)
    }
}

/// The entry sequence of an entry list.
pub open spec fn entry_views(es: Seq<ArchiveEntry>) -> Seq<(Seq<char>, Seq<u8>)> {
    es.map_values(|e: ArchiveEntry| e@)
}

/// The names of a (name, bytes, stored) sequence.
pub open spec fn entry_names(s: Seq<(Seq<char>, Seq<u8>, bool)>) -> Seq<Seq<char>> {
    s.map_values(|e: (Seq<char>, Seq<u8>, bool)| e.0)
}

/// The names of a (name, bytes) sequence.
pub open spec fn names_of(s: Seq<(Seq<char>, Seq<u8>)>) -> Seq<Seq<char>> {
    s.map_values(|e: (Seq<char>, Seq<u8>)| e.0)
}

/// Drops the stored-without-compression flag.
pub open spec fn strip_stored(s: Seq<(Seq<char>, Seq<u8>, bool)>) -> Seq<(Seq<char>, Seq<u8>)> {
    s.map_values(|e: (Seq<char>, Seq<u8>, bool)| (e.0, e.1))
}

/// What a byte sequence parses to as a zip container: the ordered entries —
/// name, uncompressed bytes, stored flag — or nothing if the bytes are not a
/// valid container.  The result depends on the bytes alone.  Names are the
/// decoded form the reader hands out, so two raw entry names may decode to
/// one name here.
pub uninterp spec fn zip_entries_of(data: Seq<u8>) -> Option<Seq<(Seq<char>, Seq<u8>, bool)>>;

/// The entries an open archive reader holds.
pub uninterp spec fn zip_contents(z: zip::ZipArchive<Cursor<Vec<u8>>>) -> Seq<
    (Seq<char>, Seq<u8>, bool),
>;

/// The container bytes an archive reader was opened on.
pub uninterp spec fn zip_source(z: zip::ZipArchive<Cursor<Vec<u8>>>) -> Seq<u8>;

/// Entry `i` of the container bytes can be read back in full.  The outcome
/// depends on the bytes and the index alone.
pub uninterp spec fn zip_entry_ok(data: Seq<u8>, i: int) -> bool;

/// Appending an entry to a writer holding `entries` succeeds.  Every write
/// goes to an in-memory buffer, so the outcome depends on what was written
/// before and on the entry alone.
pub uninterp spec fn zip_write_ok(
    entries: Seq<(Seq<char>, Seq<u8>, bool)>,
    name: Seq<char>,
    data: Seq<u8>,
    stored: bool,
) -> bool;

/// Finalizing a writer holding `entries` succeeds.
pub uninterp spec fn zip_finish_ok(entries: Seq<(Seq<char>, Seq<u8>, bool)>) -> bool;

/// The whole container can be read into the entry model: the bytes parse,
/// every entry reads back, and no two entries decode to one name.
pub open spec fn archive_readable(data: Seq<u8>) -> bool {
    zip_entries_of(data) matches Some(zs) && (forall|i: int|
        0 <= i < zs.len() ==> zip_entry_ok(data, i)) && entry_names(zs).no_duplicates()
}

/// A writer building a fresh container.  The zip writer it holds is opaque
/// to the verifier; what has been written to it is tracked by [`zw_entries`].
#[verifier::external_body]
pub struct ArchiveWriter {
    inner: zip::ZipWriter<Cursor<Vec<u8>>>,
}

/// The entries written to an archive writer so far.
pub uninterp spec fn zw_entries(w: ArchiveWriter) -> Seq<(Seq<char>, Seq<u8>, bool)>;

#[verifier::external_type_specification]
#[verifier::external_body]
pub struct ExZipError(zip::result::ZipError);

#[verifier::external_type_specification]
#[verifier::external_body]
#[verifier::reject_recursive_types(T)]
pub struct ExCursor<T>(Cursor<T>);

#[verifier::external_type_specification]
#[verifier::external_body]
#[verifier::reject_recursive_types(R)]
pub struct ExZipArchive<R>(zip::ZipArchive<R>);

/// Relies on zip::ZipArchive::new: it opens exactly the valid containers,
/// and what it holds is a function of the bytes it was opened on.
#[verifier::external_body]
fn zip_open(data: &Vec<u8>) -> (r: Result<
    zip::ZipArchive<Cursor<Vec<u8>>>,
    zip::result::ZipError,
>)
    ensures
        r is Ok <==> zip_entries_of(data@) is Some,
        r matches Ok(z) ==> Some(zip_contents(z)) == zip_entries_of(data@),
        r matches Ok(z) ==> zip_source(z) == data@,
{
    zip::ZipArchive::new(Cursor::new(data.clone()))
}

/// Relies on zip::ZipArchive::len: the number of entries.
#[verifier::external_body]
fn zip_len(z: &zip::ZipArchive<Cursor<Vec<u8>>>) -> (n: usize)
    ensures
        n == zip_contents(*z).len(),
{
    z.len()
}

/// Relies on zip::ZipArchive::by_index and Read::read_to_end: one entry's
/// name and uncompressed bytes, the archive's contents left as they were.
#[verifier::external_body]
fn zip_entry_at(z: &mut zip::ZipArchive<Cursor<Vec<u8>>>, i: usize) -> (r: Result<
    (String, Vec<u8>),
    zip::result::ZipError,
>)
    requires
        i < zip_contents(*old(z)).len(),
    ensures
        zip_contents(*final(z)) == zip_contents(*old(z)),
        zip_source(*final(z)) == zip_source(*old(z)),
        r is Ok <==> zip_entry_ok(zip_source(*old(z)), i as int),
        r matches Ok(e) ==> e.0@ == zip_contents(*old(z))[i as int].0 && e.1@ == zip_contents(
            *old(z),
        )[i as int].1,
{
    let mut file = z.by_index(i)?;
    let name = file.name().to_string();
    let mut data = Vec::new();
    file.read_to_end(&mut data).map_err(zip::result::ZipError::from)?;
    Ok((name, data))
}

/// Relies on zip::ZipWriter::new: a writer holding no entries yet.
#[verifier::external_body]
fn zip_writer_new() -> (w: ArchiveWriter)
    ensures
        zw_entries(w) == Seq::<(Seq<char>, Seq<u8>, bool)>::empty(),
{
    ArchiveWriter { inner: zip::ZipWriter::new(Cursor::new(Vec::new())) }
}

/// Relies on zip::ZipWriter::start_file with the stored compression method
/// and Write::write_all: appends one uncompressed entry.
#[verifier::external_body]
fn zip_write_stored(w: &mut ArchiveWriter, name: &str, data: &Vec<u8>) -> (r:
    Result<(), zip::result::ZipError>)
    ensures
        r is Ok <==> zip_write_ok(zw_entries(*old(w)), name@, data@, true),
        r is Ok ==> zw_entries(*final(w)) == zw_entries(*old(w)).push((name@, data@, true)),
{
    let options = zip::write::SimpleFileOptions::default().compression_method(
        zip::CompressionMethod::Stored,
    );
    w.inner.start_file(name, options)?;
    w.inner.write_all(data.as_slice()).map_err(zip::result::ZipError::from)
}

/// Relies on zip::ZipWriter::start_file with the deflate compression method
/// and Write::write_all: appends one compressed entry.
#[verifier::external_body]
fn zip_write_deflated(w: &mut ArchiveWriter, name: &str, data: &Vec<u8>) -> (r:
    Result<(), zip::result::ZipError>)
    ensures
        r is Ok <==> zip_write_ok(zw_entries(*old(w)), name@, data@, false),
        r is Ok ==> zw_entries(*final(w)) == zw_entries(*old(w)).push((name@, data@, false)),
{
    let options = zip::write::SimpleFileOptions::default().compression_method(
        zip::CompressionMethod::Deflated,
    );
    w.inner.start_file(name, options)?;
    w.inner.write_all(data.as_slice()).map_err(zip::result::ZipError::from)
}

/// Relies on zip::ZipWriter::finish: the finished container's bytes parse
/// back to the entries that were written, in order, as long as no name was
/// written twice.
#[verifier::external_body]
fn zip_finish(w: ArchiveWriter) -> (r: Result<Vec<u8>, zip::result::ZipError>)
    ensures
        r is Ok <==> zip_finish_ok(zw_entries(w)),
        r matches Ok(b) ==> (entry_names(zw_entries(w)).no_duplicates() ==> zip_entries_of(b@)
            == Some(zw_entries(w))),
{
    let cursor = w.inner.finish()?;
    Ok(cursor.into_inner())
}

/// Reads the whole archive into the library's entry model, in entry order,
/// refusing an archive in which two entries decode to one name: the rewrite
/// could otherwise mis-copy.
pub fn read_archive(data: &Vec<u8>) -> (r: Result<Vec<ArchiveEntry>, EpubError>)
    ensures
        r is Ok <==> archive_readable(data@),
        r matches Ok(es) ==> zip_entries_of(data@) matches Some(zs) && entry_views(es@)
            == strip_stored(zs) && names_of(entry_views(es@)).no_duplicates(),
        r == Err::<Vec<ArchiveEntry>, EpubError>(EpubError::InvalidArchive) <==> zip_entries_of(
            data@,
        ) is None,
        r is Err ==> r == Err::<Vec<ArchiveEntry>, EpubError>(EpubError::InvalidArchive) || r
            == Err::<Vec<ArchiveEntry>, EpubError>(EpubError::EntryUnreadable) || r == Err::<
            Vec<ArchiveEntry>,
            EpubError,
        >(EpubError::DuplicateEntryName),
{
    let mut z = match zip_open(data) {
        Ok(z) => z,
        Err(_) => {
            return Err(EpubError::InvalidArchive);
        },
    };
    let n = zip_len(&z);
    let mut es: Vec<ArchiveEntry> = Vec::new();
    let mut i: usize = 0;
    while i < n
        invariant
            n == zip_contents(z).len(),
            Some(zip_contents(z)) == zip_entries_of(data@),
            zip_source(z) == data@,
            i <= n,
            entry_views(es@) == strip_stored(zip_contents(z)).take(i as int),
            names_of(entry_views(es@)).no_duplicates(),
            forall|j: int| 0 <= j < i ==> zip_entry_ok(data@, j),
        decreases n - i,
    {
        let (name, bytes) = match zip_entry_at(&mut z, i) {
            Ok(e) => e,
            Err(_) => {
                proof {
                    assert(!zip_entry_ok(data@, i as int));
                }
                return Err(EpubError::EntryUnreadable);
            },
        };
        if let Some(dup) = find_entry(&es, name.as_str()) {
            proof {
                let zs = zip_contents(z);
                assert(es@[dup as int]@.0 == name@);
                assert(entry_views(es@)[dup as int] == strip_stored(zs).take(i as int)[
                    dup as int]);
                assert(zs[dup as int].0 == name@);
                assert(entry_names(zs)[dup as int] == zs[dup as int].0);
                assert(entry_names(zs)[i as int] == zs[i as int].0);
                assert(!entry_names(zs).no_duplicates());
            }
            return Err(EpubError::DuplicateEntryName);
        }
        let ghost prev = es@;
        let ghost name_view = name@;
        proof {
            lemma_assoc_none_no_match(entry_views(prev), name_view);
        }
        let entry = ArchiveEntry { name, data: bytes };
        let ghost ev = entry@;
        es.push(entry);
        proof {
            let zs = zip_contents(z);
            assert(entry_views(prev).len() == prev.len());
            assert(prev.len() == i);
            assert(es@.len() == i + 1);
            assert forall|k: int| 0 <= k <= i implies entry_views(es@)[k] == strip_stored(
                zs,
            )[k] by {
                assert(entry_views(es@)[k] == es@[k]@);
                if k < i {
                    assert(es@[k] == prev[k]);
                    assert(entry_views(prev)[k] == strip_stored(zs).take(i as int)[k]);
                } else {
                    assert(es@[k]@ == ev);
                }
            }
            assert(entry_views(es@) =~= strip_stored(zs).take(i + 1));
            let nm = names_of(entry_views(es@));
            let pnm = names_of(entry_views(prev));
            assert forall|a: int, b: int|
                0 <= a < nm.len() && 0 <= b < nm.len() && a != b implies nm[a] != nm[b] by {
                assert(nm[a] == es@[a]@.0);
                assert(nm[b] == es@[b]@.0);
                if a < prev.len() {
                    assert(es@[a] == prev[a]);
                    assert(pnm[a] == entry_views(prev)[a].0);
                    assert(entry_views(prev)[a].0 != name_view);
                } else {
                    assert(es@[a]@ == ev);
                }
                if b < prev.len() {
                    assert(es@[b] == prev[b]);
                    assert(pnm[b] == entry_views(prev)[b].0);
                    assert(entry_views(prev)[b].0 != name_view);
                } else {
                    assert(es@[b]@ == ev);
                }
            }
        }
        i += 1;
    }
    proof {
        let zs = zip_contents(z);
        assert(entry_views(es@) =~= strip_stored(zs));
        let nm = names_of(entry_views(es@));
        assert forall|a: int, b: int|
            0 <= a < entry_names(zs).len() && 0 <= b < entry_names(zs).len() && a
                != b implies entry_names(zs)[a] != entry_names(zs)[b] by {
            assert(entry_names(zs)[a] == zs[a].0);
            assert(entry_names(zs)[b] == zs[b].0);
            assert(nm[a] == entry_views(es@)[a].0);
            assert(nm[b] == entry_views(es@)[b].0);
            assert(entry_views(es@)[a] == strip_stored(zs)[a]);
            assert(entry_views(es@)[b] == strip_stored(zs)[b]);
        }
        assert(entry_names(zs).no_duplicates());
    }
    Ok(es)
}

/// No key matches when first-match lookup finds nothing.
pub proof fn lemma_assoc_none_no_match(s: Seq<(Seq<char>, Seq<u8>)>, name: Seq<char>)
    requires
        assoc(s, name) is None,
    ensures
        forall|j: int| 0 <= j < s.len() ==> (#[trigger] s[j]).0 != name,
    decreases s.len(),
{
    if s.len() > 0 {
        lemma_assoc_none_no_match(s.drop_first(), name);
        assert forall|j: int| 0 <= j < s.len() implies (#[trigger] s[j]).0 != name by {
            if j > 0 {
                assert(s.drop_first()[j - 1] == s[j]);
            }
        }
    }
}

/// First-match lookup of a name in a (name, bytes) sequence: the open
/// question of duplicate entry names is resolved as the rewrite logic does,
/// by first match.
pub open spec fn assoc(s: Seq<(Seq<char>, Seq<u8>)>, name: Seq<char>) -> Option<Seq<u8>>
    decreases s.len(),
{
    if s.len() == 0 {
        None
    } else if s[0].0 == name {
        Some(s[0].1)
    } else {
        assoc(s.drop_first(), name)
    }
}

/// The index [`assoc`] finds, as runtime code.
pub fn find_entry(entries: &Vec<ArchiveEntry>, name: &str) -> (r: Option<usize>)
    ensures
        r matches Some(j) ==> j < entries@.len() && entries@[j as int]@.0 == name@ && assoc(
            entry_views(entries@),
            name@,
        ) == Some(entries@[j as int]@.1),
        r is None ==> assoc(entry_views(entries@), name@) is None,
{
    let ghost views = entry_views(entries@);
    proof {
        assert(views.skip(0) =~= views);
    }
    let mut i: usize = 0;
    while i < entries.len()
        invariant
            views == entry_views(entries@),
            i <= entries@.len(),
            assoc(views.skip(i as int), name@) == assoc(views, name@),
        decreases entries@.len() - i,
    {
        proof {
            assert(views.skip(i as int)[0] == views[i as int]);
        }
        if str_eq(entries[i].name.as_str(), name) {
            return Some(i);
        }
        proof {
            assert(views.skip(i as int).drop_first() =~= views.skip(i + 1));
        }
        i += 1;
    }
    proof {
        assert(views.skip(entries@.len() as int) =~= Seq::<(Seq<char>, Seq<u8>)>::empty());
    }
    None
}

/// What one entry's bytes become in the rewritten archive: a font entry with
/// subsetted bytes keeps them, anything else keeps its original bytes.
pub open spec fn subst_data(fonts: Seq<(Seq<char>, Seq<u8>)>, e: (Seq<char>, Seq<u8>)) -> Seq<u8> {
    match assoc(fonts, e.0) {
        Some(d) => d,
        None => e.1,
    }
}

/// The rewritten archive after the marker: every original entry in order,
/// marker entries dropped, font bytes substituted, everything compressed.
pub open spec fn rest_rewrite(
    es: Seq<(Seq<char>, Seq<u8>)>,
    fonts: Seq<(Seq<char>, Seq<u8>)>,
) -> Seq<(Seq<char>, Seq<u8>, bool)>
    decreases es.len(),
{
    if es.len() == 0 {
        Seq::empty()
    } else {
        let pre = rest_rewrite(es.drop_last(), fonts);
        if es.last().0 == marker_name() {
            pre
        } else {
            pre.push((es.last().0, subst_data(fonts, es.last()), false))
        }
    }
}

/// The first entry of the rewritten archive: the original marker entry,
/// stored without compression.
pub open spec fn head_of(es: Seq<(Seq<char>, Seq<u8>)>) -> (Seq<char>, Seq<u8>, bool) {
    (marker_name(), assoc(es, marker_name()).unwrap(), true)
}

/// The whole rewritten archive: the original marker entry first and
/// uncompressed, then everything else.
pub open spec fn rewrite_spec(
    es: Seq<(Seq<char>, Seq<u8>)>,
    fonts: Seq<(Seq<char>, Seq<u8>)>,
) -> Seq<(Seq<char>, Seq<u8>, bool)> {
    seq![head_of(es)] + rest_rewrite(es, fonts)
}

/// Every write from entry `i` on succeeds, and so does finalizing: at each
/// step the writer holds the marker and the rewritten entries before `i`.
pub open spec fn write_steps_ok(
    es: Seq<(Seq<char>, Seq<u8>)>,
    fonts: Seq<(Seq<char>, Seq<u8>)>,
    i: int,
) -> bool
    decreases es.len() - i,
{
    if i < 0 {
        false
    } else if i >= es.len() {
        zip_finish_ok(seq![head_of(es)] + rest_rewrite(es, fonts))
    } else if es[i].0 == marker_name() {
        write_steps_ok(es, fonts, i + 1)
    } else {
        zip_write_ok(
            seq![head_of(es)] + rest_rewrite(es.take(i), fonts),
            es[i].0,
            subst_data(fonts, es[i]),
            false,
        ) && write_steps_ok(es, fonts, i + 1)
    }
}

/// The whole rewrite can be streamed out: the archive has a marker entry,
/// the marker write succeeds, and so do every later write and the finish.
pub open spec fn write_plan_ok(
    es: Seq<(Seq<char>, Seq<u8>)>,
    fonts: Seq<(Seq<char>, Seq<u8>)>,
) -> bool {
    &&& assoc(es, marker_name()) is Some
    &&& zip_write_ok(Seq::empty(), marker_name(), assoc(es, marker_name()).unwrap(), true)
    &&& write_steps_ok(es, fonts, 0)
}

/// Every name in the rewritten tail is an original entry's name, and never
/// the marker's.
pub proof fn lemma_rest_rewrite_name_source(
    es: Seq<(Seq<char>, Seq<u8>)>,
    fonts: Seq<(Seq<char>, Seq<u8>)>,
    n: Seq<char>,
)
    requires
        entry_names(rest_rewrite(es, fonts)).contains(n),
    ensures
        names_of(es).contains(n),
        n != marker_name(),
    decreases es.len(),
{
    let full = rest_rewrite(es, fonts);
    let j = choose|j: int| 0 <= j < entry_names(full).len() && entry_names(full)[j] == n;
    assert(full[j].0 == n);
    if es.len() == 0 {
        assert(false);
    } else {
        let pre = rest_rewrite(es.drop_last(), fonts);
        if es.last().0 == marker_name() || j < pre.len() {
            assert(entry_names(pre)[j] == n);
            assert(entry_names(pre).contains(n));
            lemma_rest_rewrite_name_source(es.drop_last(), fonts, n);
            let k = choose|k: int|
                0 <= k < names_of(es.drop_last()).len() && names_of(es.drop_last())[k] == n;
            assert(names_of(es)[k] == n);
        } else {
            assert(full[j] == (es.last().0, subst_data(fonts, es.last()), false));
            assert(names_of(es)[es.len() - 1] == n);
        }
    }
}

/// The rewritten tail repeats no name if the original repeated none.
pub proof fn lemma_rest_rewrite_nodup(
    es: Seq<(Seq<char>, Seq<u8>)>,
    fonts: Seq<(Seq<char>, Seq<u8>)>,
)
    requires
        names_of(es).no_duplicates(),
    ensures
        entry_names(rest_rewrite(es, fonts)).no_duplicates(),
    decreases es.len(),
{
    if es.len() > 0 {
        assert(names_of(es.drop_last()) =~= names_of(es).drop_last());
        assert forall|a: int, b: int|
            0 <= a < names_of(es.drop_last()).len() && 0 <= b < names_of(es.drop_last()).len()
                && a != b implies names_of(es.drop_last())[a] != names_of(es.drop_last())[b] by {
            assert(names_of(es)[a] == names_of(es.drop_last())[a]);
            assert(names_of(es)[b] == names_of(es.drop_last())[b]);
        }
        lemma_rest_rewrite_nodup(es.drop_last(), fonts);
        let pre = rest_rewrite(es.drop_last(), fonts);
        let full = rest_rewrite(es, fonts);
        if es.last().0 != marker_name() {
            assert(full == pre.push((es.last().0, subst_data(fonts, es.last()), false)));
            if entry_names(pre).contains(es.last().0) {
                lemma_rest_rewrite_name_source(es.drop_last(), fonts, es.last().0);
                let k = choose|k: int|
                    0 <= k < names_of(es.drop_last()).len() && names_of(es.drop_last())[k]
                        == es.last().0;
                assert(names_of(es)[k] == names_of(es)[es.len() - 1]);
                assert(false);
            }
            assert forall|a: int, b: int|
                0 <= a < entry_names(full).len() && 0 <= b < entry_names(full).len() && a
                    != b implies entry_names(full)[a] != entry_names(full)[b] by {
                assert(entry_names(full)[a] == full[a].0);
                assert(entry_names(full)[b] == full[b].0);
                if a < pre.len() {
                    assert(entry_names(pre)[a] == full[a].0);
                } else {
                    assert(full[a].0 == es.last().0);
                }
                if b < pre.len() {
                    assert(entry_names(pre)[b] == full[b].0);
                } else {
                    assert(full[b].0 == es.last().0);
                }
                if a < pre.len() && b < pre.len() {
                    assert(entry_names(pre)[a] != entry_names(pre)[b]);
                } else if a < pre.len() {
                    assert(entry_names(pre).contains(full[a].0));
                } else if b < pre.len() {
                    assert(entry_names(pre).contains(full[b].0));
                }
            }
        }
    }
}

/// Streams every entry into a fresh container: the marker entry first,
/// uncompressed and byte-identical to the original, then every other entry in
/// original order, font entries substituted from `fonts`, all others copied
/// byte for byte.
pub fn write_archive(entries: &Vec<ArchiveEntry>, fonts: &Vec<ArchiveEntry>) -> (r: Result<
    Vec<u8>,
    EpubError,
>)
    requires
        names_of(entry_views(entries@)).no_duplicates(),
    ensures
        r is Ok <==> write_plan_ok(entry_views(entries@), entry_views(fonts@)),
        r matches Ok(b) ==> assoc(entry_views(entries@), marker_name()) is Some && zip_entries_of(
            b@,
        ) == Some(rewrite_spec(entry_views(entries@), entry_views(fonts@))),
        r == Err::<Vec<u8>, EpubError>(EpubError::MarkerMissing) <==> assoc(
            entry_views(entries@),
            marker_name(),
        ) is None,
        r is Err ==> r == Err::<Vec<u8>, EpubError>(EpubError::MarkerMissing) || r == Err::<
            Vec<u8>,
            EpubError,
        >(EpubError::WriteFailed),
{
    let ghost eviews = entry_views(entries@);
    let ghost fviews = entry_views(fonts@);
    let marker_idx = match find_entry(entries, "mimetype") {
        Some(j) => j,
        None => {
            return Err(EpubError::MarkerMissing);
        },
    };
    let mut w = zip_writer_new();
    let ghost head = head_of(eviews);
    match zip_write_stored(&mut w, "mimetype", &entries[marker_idx].data) {
        Ok(()) => {},
        Err(_) => {
            proof {
                assert(!zip_write_ok(
                    Seq::empty(),
                    marker_name(),
                    assoc(eviews, marker_name()).unwrap(),
                    true,
                ));
            }
            return Err(EpubError::WriteFailed);
        },
    }
    proof {
        assert(zip_write_ok(Seq::empty(), marker_name(), assoc(eviews, marker_name()).unwrap(), true));
        assert(zw_entries(w) =~= seq![head] + rest_rewrite(eviews.take(0), fviews));
    }
    let mut i: usize = 0;
    while i < entries.len()
        invariant
            eviews == entry_views(entries@),
            fviews == entry_views(fonts@),
            names_of(eviews).no_duplicates(),
            assoc(eviews, marker_name()) is Some,
            zip_write_ok(Seq::empty(), marker_name(), assoc(eviews, marker_name()).unwrap(), true),
            i <= entries@.len(),
            zw_entries(w) == seq![head] + rest_rewrite(eviews.take(i as int), fviews),
            head == head_of(eviews),
            write_steps_ok(eviews, fviews, 0) <==> write_steps_ok(eviews, fviews, i as int),
        decreases entries@.len() - i,
    {
        proof {
            assert(eviews.take(i + 1).drop_last() =~= eviews.take(i as int));
            assert(eviews.take(i + 1).last() == eviews[i as int]);
        }
        let e = &entries[i];
        proof {
            assert(eviews[i as int] == entries@[i as int]@);
        }
        if !marker(e.name.as_str()) {
            let ghost step_state = seq![head] + rest_rewrite(eviews.take(i as int), fviews);
            let ghost step_data = subst_data(fviews, eviews[i as int]);
            let write_result = match find_entry(fonts, e.name.as_str()) {
                Some(j) => zip_write_deflated(&mut w, e.name.as_str(), &fonts[j].data),
                None => zip_write_deflated(&mut w, e.name.as_str(), &e.data),
            };
            match write_result {
                Ok(()) => {},
                Err(_) => {
                    proof {
                        assert(!zip_write_ok(step_state, eviews[i as int].0, step_data, false));
                        assert(!write_steps_ok(eviews, fviews, i as int));
                    }
                    return Err(EpubError::WriteFailed);
                },
            }
            proof {
                assert(zip_write_ok(step_state, eviews[i as int].0, step_data, false));
                assert(write_steps_ok(eviews, fviews, i as int) <==> write_steps_ok(
                    eviews,
                    fviews,
                    i + 1,
                ));
                assert(zw_entries(w) =~= seq![head] + rest_rewrite(eviews.take(i + 1), fviews));
            }
        } else {
            proof {
                assert(write_steps_ok(eviews, fviews, i as int) <==> write_steps_ok(
                    eviews,
                    fviews,
                    i + 1,
                ));
            }
        }
        i += 1;
    }
    proof {
        assert(eviews.len() == entries@.len());
        assert(eviews.take(eviews.len() as int) =~= eviews);
        lemma_rest_rewrite_nodup(eviews, fviews);
        let zw = zw_entries(w);
        let rest = rest_rewrite(eviews, fviews);
        assert(zw == seq![head] + rest);
        assert(zw.len() == 1 + rest.len());
        assert(entry_names(rest).no_duplicates());
        assert(head.0 == marker_name());
        assert forall|a: int, b: int|
            0 <= a < entry_names(zw).len() && 0 <= b < entry_names(zw).len() && a
                != b implies entry_names(zw)[a] != entry_names(zw)[b] by {
            assert(entry_names(zw)[a] == zw[a].0);
            assert(entry_names(zw)[b] == zw[b].0);
            if a > 0 {
                assert(zw[a] == rest[a - 1]);
                assert(entry_names(rest)[a - 1] == rest[a - 1].0);
                assert(entry_names(rest).contains(rest[a - 1].0));
                lemma_rest_rewrite_name_source(eviews, fviews, rest[a - 1].0);
            } else {
                assert(zw[0] == head);
            }
            if b > 0 {
                assert(zw[b] == rest[b - 1]);
                assert(entry_names(rest)[b - 1] == rest[b - 1].0);
                assert(entry_names(rest).contains(rest[b - 1].0));
                lemma_rest_rewrite_name_source(eviews, fviews, rest[b - 1].0);
            } else {
                assert(zw[0] == head);
            }
            if a > 0 && b > 0 {
                assert(entry_names(rest)[a - 1] != entry_names(rest)[b - 1]);
            }
        }
        assert(entry_names(zw).no_duplicates());
        assert(zw =~= rewrite_spec(eviews, fviews));
        assert(write_steps_ok(eviews, fviews, eviews.len() as int) == zip_finish_ok(
            seq![head_of(eviews)] + rest_rewrite(eviews, fviews),
        ));
    }
    match zip_finish(w) {
        Ok(b) => {
            proof {
                assert(write_steps_ok(eviews, fviews, eviews.len() as int));
                assert(write_plan_ok(eviews, fviews));
            }
            Ok(b)
        },
        Err(_) => {
            proof {
                assert(!write_steps_ok(eviews, fviews, eviews.len() as int));
            }
            Err(EpubError::WriteFailed)
        },
    }
}

} // verus!
