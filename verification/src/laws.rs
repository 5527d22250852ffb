//! The pipeline's laws: what the rewritten archive keeps of the original —
//! the marker entry first and untouched, every non-font entry byte for byte,
//! and the required-character set itself.
use vstd::prelude::*;

use crate::archive::{assoc, rest_rewrite, rewrite_spec, strip_stored};
use crate::chars::{lemma_nonws_chars_contains, nonws_chars, text_of, utf8_decode};
use crate::names::{is_content_name, is_font_name, lemma_name_classes_disjoint, marker_name};
use crate::pipeline::{font_subs, required_chars};

verus! {

/// The rewritten archive's first entry is the marker, stored without
/// compression, with bytes identical to the original's first marker entry.
pub proof fn lemma_marker_entry_first(
    es: Seq<(Seq<char>, Seq<u8>)>,
    fonts: Seq<(Seq<char>, Seq<u8>)>,
)
    requires
        assoc(es, marker_name()) is Some,
    ensures
        rewrite_spec(es, fonts).len() >= 1,
        rewrite_spec(es, fonts)[0] == (marker_name(), assoc(es, marker_name()).unwrap(), true),
{
}

/// A name that is not a font entry's name is not a key of a map whose keys
/// are all font entry names.
proof fn lemma_assoc_nonfont_none(fonts: Seq<(Seq<char>, Seq<u8>)>, name: Seq<char>)
    requires
        forall|j: int| 0 <= j < fonts.len() ==> is_font_name((#[trigger] fonts[j]).0),
        !is_font_name(name),
    ensures
        assoc(fonts, name) is None,
    decreases fonts.len(),
{
    if fonts.len() > 0 {
        assert(is_font_name(fonts[0].0));
        assert(fonts[0].0 != name);
        assert forall|j: int| 0 <= j < fonts.drop_first().len() implies is_font_name(
            (#[trigger] fonts.drop_first()[j]).0,
        ) by {
            assert(fonts.drop_first()[j] == fonts[j + 1]);
        }
        lemma_assoc_nonfont_none(fonts.drop_first(), name);
    }
}

/// The original entries other than the marker, in order.
pub open spec fn drop_marker(es: Seq<(Seq<char>, Seq<u8>)>) -> Seq<(Seq<char>, Seq<u8>)>
    decreases es.len(),
{
    if es.len() == 0 {
        Seq::empty()
    } else {
        let pre = drop_marker(es.drop_last());
        if es.last().0 == marker_name() {
            pre
        } else {
            pre.push(es.last())
        }
    }
}

/// Copy fidelity: after the marker, the rewritten archive carries the
/// original's non-marker entries in order under their own names, and every
/// entry that is not a font resource keeps its original bytes exactly.
pub proof fn lemma_copy_fidelity(es: Seq<(Seq<char>, Seq<u8>)>, fonts: Seq<(Seq<char>, Seq<u8>)>)
    requires
        forall|j: int| 0 <= j < fonts.len() ==> is_font_name((#[trigger] fonts[j]).0),
    ensures
        rest_rewrite(es, fonts).len() == drop_marker(es).len(),
        forall|k: int|
            0 <= k < drop_marker(es).len() ==> {
                let r = #[trigger] rest_rewrite(es, fonts)[k];
                let e = drop_marker(es)[k];
                r.0 == e.0 && r.2 == false && (!is_font_name(e.0) ==> r.1 == e.1)
            },
    decreases es.len(),
{
    if es.len() > 0 {
        lemma_copy_fidelity(es.drop_last(), fonts);
        let pre = rest_rewrite(es.drop_last(), fonts);
        let keep = drop_marker(es.drop_last());
        if es.last().0 != marker_name() {
            if !is_font_name(es.last().0) {
                lemma_assoc_nonfont_none(fonts, es.last().0);
            }
            assert forall|k: int| 0 <= k < drop_marker(es).len() implies {
                let r = #[trigger] rest_rewrite(es, fonts)[k];
                let e = drop_marker(es)[k];
                r.0 == e.0 && r.2 == false && (!is_font_name(e.0) ==> r.1 == e.1)
            } by {
                if k < keep.len() {
                    assert(rest_rewrite(es, fonts)[k] == pre[k]);
                    assert(drop_marker(es)[k] == keep[k]);
                }
            }
        }
    }
}

/// Where a character of the required set comes from: some content document's
/// rendered text holds it.  In particular a character that appears only in
/// the table-of-contents document — whose name is never a content name — is
/// absent from the required set.
pub proof fn lemma_required_char_source(es: Seq<(Seq<char>, Seq<u8>)>, c: char)
    ensures
        required_chars(es).contains(c) <==> exists|i: int|
            0 <= i < es.len() && is_content_name((#[trigger] es[i]).0) && nonws_chars(
                text_of(utf8_decode(es[i].1).unwrap()),
            ).contains(c),
    decreases es.len(),
{
    lemma_required_chars_unfold(es);
    if es.len() > 0 {
        lemma_required_char_source(es.drop_last(), c);
        if required_chars(es).contains(c) {
            if required_chars(es.drop_last()).contains(c) {
                let i = choose|i: int|
                    0 <= i < es.drop_last().len() && is_content_name(
                        (#[trigger] es.drop_last()[i]).0,
                    ) && nonws_chars(
                        text_of(utf8_decode(es.drop_last()[i].1).unwrap()),
                    ).contains(c);
                assert(es[i] == es.drop_last()[i]);
            } else {
                assert(is_content_name(es[es.len() - 1].0) && nonws_chars(
                    text_of(utf8_decode(es[es.len() - 1].1).unwrap()),
                ).contains(c));
            }
        }
        if exists|i: int|
            0 <= i < es.len() && is_content_name((#[trigger] es[i]).0) && nonws_chars(
                text_of(utf8_decode(es[i].1).unwrap()),
            ).contains(c) {
            let i = choose|i: int|
                0 <= i < es.len() && is_content_name((#[trigger] es[i]).0) && nonws_chars(
                    text_of(utf8_decode(es[i].1).unwrap()),
                ).contains(c);
            if i < es.len() - 1 {
                assert(es.drop_last()[i] == es[i]);
                assert(required_chars(es.drop_last()).contains(c));
            }
        }
    }
}

/// A character that appears in no content document's rendered text is not
/// required — in particular one that appears only in the table-of-contents
/// document, whose name is never a content name, may be dropped from every
/// font even if the original font carried it.
pub proof fn lemma_toc_only_chars_not_required(es: Seq<(Seq<char>, Seq<u8>)>, c: char)
    requires
        forall|i: int|
            0 <= i < es.len() && is_content_name((#[trigger] es[i]).0) ==> !text_of(
                utf8_decode(es[i].1).unwrap(),
            ).contains(c),
    ensures
        !required_chars(es).contains(c),
{
    lemma_required_char_source(es, c);
    if required_chars(es).contains(c) {
        let i = choose|i: int|
            0 <= i < es.len() && is_content_name((#[trigger] es[i]).0) && nonws_chars(
                text_of(utf8_decode(es[i].1).unwrap()),
            ).contains(c);
        lemma_nonws_chars_contains(text_of(utf8_decode(es[i].1).unwrap()), c);
    }
}

/// One unfolding step of [`required_chars`]: the last entry contributes its
/// document's characters exactly when it is a content document.
proof fn lemma_required_chars_unfold(es: Seq<(Seq<char>, Seq<u8>)>)
    ensures
        es.len() == 0 ==> required_chars(es) == Set::<char>::empty(),
        es.len() > 0 && is_content_name(es.last().0) ==> required_chars(es) == required_chars(
            es.drop_last(),
        ) + nonws_chars(text_of(utf8_decode(es.last().1).unwrap())),
        es.len() > 0 && !is_content_name(es.last().0) ==> required_chars(es) == required_chars(
            es.drop_last(),
        ),
{
    if es.len() > 0 {
        let pre = crate::pipeline::content_docs(es.drop_last());
        if is_content_name(es.last().0) {
            let d = utf8_decode(es.last().1).unwrap();
            assert(crate::pipeline::content_docs(es) == pre.push(d));
            assert(pre.push(d).drop_last() =~= pre);
            assert(pre.push(d).last() == d);
        }
    }
}

/// An entry of the marker-free list is an entry of the original.
proof fn lemma_drop_marker_elem(es: Seq<(Seq<char>, Seq<u8>)>, k: int)
    requires
        0 <= k < drop_marker(es).len(),
    ensures
        exists|i: int| 0 <= i < es.len() && #[trigger] es[i] == drop_marker(es)[k],
    decreases es.len(),
{
    if es.len() > 0 {
        let keep = drop_marker(es.drop_last());
        if es.last().0 != marker_name() && k == keep.len() {
            assert(es[es.len() - 1] == drop_marker(es)[k]);
        } else {
            lemma_drop_marker_elem(es.drop_last(), k);
            let i = choose|i: int|
                0 <= i < es.drop_last().len() && #[trigger] es.drop_last()[i] == keep[k];
            assert(es[i] == drop_marker(es)[k]);
        }
    }
}

/// A non-marker entry of the original is an entry of the marker-free list.
proof fn lemma_drop_marker_keeps(es: Seq<(Seq<char>, Seq<u8>)>, i: int)
    requires
        0 <= i < es.len(),
        es[i].0 != marker_name(),
    ensures
        exists|k: int|
            0 <= k < drop_marker(es).len() && #[trigger] drop_marker(es)[k] == es[i],
    decreases es.len(),
{
    if es.len() > 0 {
        let keep = drop_marker(es.drop_last());
        if i == es.len() - 1 {
            assert(drop_marker(es)[keep.len() as int] == es[i]);
        } else {
            assert(es.drop_last()[i] == es[i]);
            lemma_drop_marker_keeps(es.drop_last(), i);
            let k = choose|k: int| 0 <= k < keep.len() && #[trigger] keep[k] == es[i];
            assert(drop_marker(es)[k] == es[i]);
        }
    }
}

/// Idempotence with respect to required characters: the rewritten archive's
/// content documents are exactly the original's, so a second pass over the
/// rewritten archive collects the same required-character set — re-subsetting
/// is a no-op for the characters that must be kept.
pub proof fn lemma_rewrite_same_required_chars(
    es: Seq<(Seq<char>, Seq<u8>)>,
    fonts: Seq<(Seq<char>, Seq<u8>)>,
)
    requires
        forall|j: int| 0 <= j < fonts.len() ==> is_font_name((#[trigger] fonts[j]).0),
    ensures
        required_chars(strip_stored(rewrite_spec(es, fonts))) == required_chars(es),
{
    lemma_copy_fidelity(es, fonts);
    let rw = strip_stored(rewrite_spec(es, fonts));
    let rest = rest_rewrite(es, fonts);
    let keep = drop_marker(es);
    assert(rw.len() == 1 + rest.len());
    assert forall|c: char| required_chars(rw).contains(c) == required_chars(es).contains(
        c,
    ) by {
        lemma_required_char_source(rw, c);
        lemma_required_char_source(es, c);
        lemma_name_classes_disjoint(marker_name());
        if required_chars(rw).contains(c) {
            let i = choose|i: int|
                0 <= i < rw.len() && is_content_name((#[trigger] rw[i]).0) && nonws_chars(
                    text_of(utf8_decode(rw[i].1).unwrap()),
                ).contains(c);
            assert(rw[i] == (rewrite_spec(es, fonts)[i].0, rewrite_spec(es, fonts)[i].1));
            if i == 0 {
                assert(rw[0].0 == marker_name());
                assert(false);
            } else {
                let k = i - 1;
                assert(rewrite_spec(es, fonts)[i] == rest[k]);
                lemma_name_classes_disjoint(keep[k].0);
                assert(rest[k].0 == keep[k].0 && rest[k].1 == keep[k].1);
                lemma_drop_marker_elem(es, k);
                let j = choose|j: int| 0 <= j < es.len() && #[trigger] es[j] == keep[k];
                assert(is_content_name(es[j].0) && nonws_chars(
                    text_of(utf8_decode(es[j].1).unwrap()),
                ).contains(c));
            }
        }
        if required_chars(es).contains(c) {
            let i = choose|i: int|
                0 <= i < es.len() && is_content_name((#[trigger] es[i]).0) && nonws_chars(
                    text_of(utf8_decode(es[i].1).unwrap()),
                ).contains(c);
            lemma_name_classes_disjoint(es[i].0);
            lemma_drop_marker_keeps(es, i);
            let k = choose|k: int| 0 <= k < keep.len() && #[trigger] keep[k] == es[i];
            assert(rest[k].0 == keep[k].0 && rest[k].1 == keep[k].1);
            assert(rw[k + 1] == (rewrite_spec(es, fonts)[k + 1].0, rewrite_spec(es, fonts)[k
                + 1].1));
            assert(rewrite_spec(es, fonts)[k + 1] == rest[k]);
            assert(is_content_name((rw[k + 1]).0) && nonws_chars(
                text_of(utf8_decode(rw[k + 1].1).unwrap()),
            ).contains(c));
        }
    }
    assert(required_chars(rw) =~= required_chars(es));
}

/// Every entry of the subsetted-font map carries a font entry's name.
proof fn lemma_font_subs_names(es: Seq<(Seq<char>, Seq<u8>)>, cs: Seq<char>)
    ensures
        forall|j: int|
            0 <= j < font_subs(es, cs).len() ==> is_font_name((#[trigger] font_subs(es, cs)[j]).0),
    decreases es.len(),
{
    if es.len() > 0 {
        lemma_font_subs_names(es.drop_last(), cs);
        let pre = font_subs(es.drop_last(), cs);
        assert forall|j: int| 0 <= j < font_subs(es, cs).len() implies is_font_name(
            (#[trigger] font_subs(es, cs)[j]).0,
        ) by {
            if j < pre.len() {
                assert(font_subs(es, cs)[j] == pre[j]);
            }
        }
    }
}

/// Idempotence for the pipeline's own font map: rewriting an archive with
/// the fonts it subsets leaves the required-character set unchanged, so a
/// second pass collects exactly the characters the first one did.
pub proof fn lemma_pipeline_preserves_required_chars(
    es: Seq<(Seq<char>, Seq<u8>)>,
    cs: Seq<char>,
)
    ensures
        required_chars(strip_stored(rewrite_spec(es, font_subs(es, cs)))) == required_chars(es),
{
    lemma_font_subs_names(es, cs);
    lemma_rewrite_same_required_chars(es, font_subs(es, cs));
}

} // verus!
