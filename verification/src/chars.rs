//! Text extraction and the required-character set.
//!
//! Markup parsing is an outside capability: the extractor hands back the
//! rendered text runs of a document, and everything downstream — discarding
//! whitespace, collecting the distinct characters, counting — is verified.
use vstd::prelude::*;
use vstd::string::StrSliceExecFns;

use crate::strutil::{is_ws, whitespace_char};

verus! {

/// The rendered text runs of a markup document, flattened in order.  The
/// result depends on the markup alone.
pub uninterp spec fn text_of(doc: Seq<char>) -> Seq<char>;

/// What a byte sequence decodes to as UTF-8, if it does.  Both success and
/// the decoded text depend on the bytes alone.
pub uninterp spec fn utf8_decode(bytes: Seq<u8>) -> Option<Seq<char>>;

/// Relies on scraper::Html::parse_document and scraper::ElementRef::text:
/// best-effort parsing that never fails, whose text runs depend on the markup
/// alone.
#[verifier::external_body]
fn extract_text(doc: &str) -> (r: String)
    ensures
        r@ == text_of(doc@),
{
    let html = scraper::Html::parse_document(doc);
    let root = html.root_element();
    root.text().collect::<String>()
}

/// Relies on String::from_utf8: whether the bytes decode, and to what,
/// depends on the bytes alone.
#[verifier::external_body]
pub(crate) fn decode_utf8(bytes: &Vec<u8>) -> (r: Option<String>)
    ensures
        r is Some <==> utf8_decode(bytes@) is Some,
        r matches Some(s) ==> Some(s@) == utf8_decode(bytes@),
{
    String::from_utf8(bytes.clone()).ok()
}

/// The set of characters of `s`, whitespace excluded.
pub open spec fn nonws_chars(s: Seq<char>) -> Set<char>
    decreases s.len(),
{
    if s.len() == 0 {
        Set::empty()
    } else if is_ws(s.last()) {
        nonws_chars(s.drop_last())
    } else {
        nonws_chars(s.drop_last()).insert(s.last())
    }
}

/// Membership in [`nonws_chars`]: exactly the non-whitespace characters that
/// occur in the sequence.
pub proof fn lemma_nonws_chars_contains(s: Seq<char>, c: char)
    ensures
        nonws_chars(s).contains(c) <==> s.contains(c) && !is_ws(c),
    decreases s.len(),
{
    if s.len() > 0 {
        lemma_nonws_chars_contains(s.drop_last(), c);
        if s.contains(c) && !is_ws(c) {
            let i = choose|i: int| 0 <= i < s.len() && s[i] == c;
            if i < s.len() - 1 {
                assert(s.drop_last()[i] == c);
            }
        }
        if s.drop_last().contains(c) {
            let i = choose|i: int| 0 <= i < s.len() - 1 && s.drop_last()[i] == c;
            assert(s[i] == c);
        }
    }
}

/// The count of non-whitespace characters of `s`.
pub open spec fn nonws_count(s: Seq<char>) -> nat
    decreases s.len(),
{
    if s.len() == 0 {
        0
    } else if is_ws(s.last()) {
        nonws_count(s.drop_last())
    } else {
        nonws_count(s.drop_last()) + 1
    }
}

/// The set of characters of a distinct-character list.
pub open spec fn char_set_of(s: Seq<char>) -> Set<char>
    decreases s.len(),
{
    if s.len() == 0 {
        Set::empty()
    } else {
        char_set_of(s.drop_last()).insert(s.last())
    }
}

pub proof fn lemma_char_set_of_contains(s: Seq<char>, c: char)
    ensures
        char_set_of(s).contains(c) <==> s.contains(c),
    decreases s.len(),
{
    if s.len() > 0 {
        lemma_char_set_of_contains(s.drop_last(), c);
        if s.contains(c) {
            let i = choose|i: int| 0 <= i < s.len() && s[i] == c;
            if i < s.len() - 1 {
                assert(s.drop_last()[i] == c);
            }
        }
        if s.drop_last().contains(c) {
            let i = choose|i: int| 0 <= i < s.len() - 1 && s.drop_last()[i] == c;
            assert(s[i] == c);
        }
    }
}

/// The distinct-character list after scanning `text`: each non-whitespace
/// character is appended at its first occurrence, in text order.
pub open spec fn add_text_spec(acc: Seq<char>, text: Seq<char>) -> Seq<char>
    decreases text.len(),
{
    if text.len() == 0 {
        acc
    } else {
        let pre = add_text_spec(acc, text.drop_last());
        if is_ws(text.last()) || pre.contains(text.last()) {
            pre
        } else {
            pre.push(text.last())
        }
    }
}

/// The required-character list of a document sequence: the documents'
/// rendered texts scanned in order.
pub open spec fn collect_spec(docs: Seq<Seq<char>>) -> Seq<char>
    decreases docs.len(),
{
    if docs.len() == 0 {
        Seq::empty()
    } else {
        add_text_spec(collect_spec(docs.drop_last()), text_of(docs.last()))
    }
}

/// Scanning a text keeps the list duplicate-free and adds exactly the text's
/// non-whitespace characters.
pub proof fn lemma_add_text_spec_props(acc: Seq<char>, text: Seq<char>)
    requires
        acc.no_duplicates(),
    ensures
        add_text_spec(acc, text).no_duplicates(),
        char_set_of(add_text_spec(acc, text)) == char_set_of(acc) + nonws_chars(text),
    decreases text.len(),
{
    if text.len() == 0 {
        assert(char_set_of(acc) =~= char_set_of(acc) + nonws_chars(text));
    } else {
        lemma_add_text_spec_props(acc, text.drop_last());
        let pre = add_text_spec(acc, text.drop_last());
        let c = text.last();
        if is_ws(c) {
            assert(char_set_of(pre) =~= char_set_of(acc) + nonws_chars(text));
        } else if pre.contains(c) {
            lemma_char_set_of_contains(pre, c);
            assert(char_set_of(pre) =~= char_set_of(acc) + nonws_chars(text));
        } else {
            assert(pre.push(c).drop_last() =~= pre);
            assert(char_set_of(pre.push(c)) == char_set_of(pre).insert(c));
            assert(char_set_of(pre.push(c)) =~= char_set_of(acc) + nonws_chars(text));
            assert forall|a: int, b: int|
                0 <= a < pre.push(c).len() && 0 <= b < pre.push(c).len() && a != b implies pre.push(
                c,
            )[a] != pre.push(c)[b] by {
                if a < pre.len() && b < pre.len() {
                    assert(pre[a] == pre.push(c)[a]);
                    assert(pre[b] == pre.push(c)[b]);
                } else if a < pre.len() {
                    assert(pre.contains(pre[a]) && pre.push(c)[b] == c);
                } else {
                    assert(pre.contains(pre[b]) && pre.push(c)[a] == c);
                }
            }
        }
    }
}

/// Scanning the documents in order keeps the list duplicate-free and
/// collects exactly their non-whitespace characters.
pub proof fn lemma_collect_spec_props(docs: Seq<Seq<char>>)
    ensures
        collect_spec(docs).no_duplicates(),
        char_set_of(collect_spec(docs)) == docs_chars(docs),
    decreases docs.len(),
{
    if docs.len() == 0 {
        assert(char_set_of(collect_spec(docs)) =~= docs_chars(docs));
    } else {
        lemma_collect_spec_props(docs.drop_last());
        lemma_add_text_spec_props(collect_spec(docs.drop_last()), text_of(docs.last()));
        assert(char_set_of(collect_spec(docs)) =~= docs_chars(docs));
    }
}

/// Whether `v` holds `c`.
fn char_in(v: &Vec<char>, c: char) -> (r: bool)
    ensures
        r == v@.contains(c),
{
    let mut i: usize = 0;
    while i < v.len()
        invariant
            i <= v@.len(),
            forall|j: int| 0 <= j < i ==> v@[j] != c,
        decreases v@.len() - i,
    {
        if v[i] == c {
            return true;
        }
        i += 1;
    }
    false
}

/// Adds `c` to the distinct-character list unless it is already there.
fn insert_char(acc: &mut Vec<char>, c: char)
    ensures
        final(acc)@ == if old(acc)@.contains(c) {
            old(acc)@
        } else {
            old(acc)@.push(c)
        },
{
    if !char_in(acc, c) {
        acc.push(c);
    }
}

/// Appends the non-whitespace characters of `text` to the accumulator, each
/// at its first occurrence, in text order.
fn add_text_chars(acc: &mut Vec<char>, text: &str)
    ensures
        final(acc)@ == add_text_spec(old(acc)@, text@),
{
    let n = text.unicode_len();
    let mut i: usize = 0;
    proof {
        assert(text@.take(0) =~= Seq::<char>::empty());
    }
    while i < n
        invariant
            n == text@.len(),
            i <= n,
            acc@ == add_text_spec(old(acc)@, text@.take(i as int)),
        decreases n - i,
    {
        let c = text.get_char(i);
        proof {
            assert(text@.take(i + 1).drop_last() =~= text@.take(i as int));
            assert(text@.take(i + 1).last() == text@[i as int]);
        }
        if !whitespace_char(c) {
            insert_char(acc, c);
        }
        i += 1;
    }
    proof {
        assert(text@.take(n as int) =~= text@);
    }
}

/// The distinct non-whitespace characters of one content document's rendered
/// text.
pub fn get_xhtml_words(doc: &str) -> (r: Vec<char>)
    ensures
        r@ == add_text_spec(Seq::empty(), text_of(doc@)),
        r@.no_duplicates(),
        char_set_of(r@) == nonws_chars(text_of(doc@)),
{
    let text = extract_text(doc);
    let mut acc: Vec<char> = Vec::new();
    add_text_chars(&mut acc, text.as_str());
    proof {
        lemma_add_text_spec_props(Seq::empty(), text_of(doc@));
        assert(char_set_of(Seq::<char>::empty()) + nonws_chars(text_of(doc@)) =~= nonws_chars(
            text_of(doc@),
        ));
    }
    acc
}

/// The union of the documents' non-whitespace character sets.
pub open spec fn docs_chars(docs: Seq<Seq<char>>) -> Set<char>
    decreases docs.len(),
{
    if docs.len() == 0 {
        Set::empty()
    } else {
        docs_chars(docs.drop_last()) + nonws_chars(text_of(docs.last()))
    }
}

/// The archive-wide required-character set: the union over all content
/// documents of the characters of their rendered text.
pub fn collect_required_chars(docs: &Vec<String>) -> (r: Vec<char>)
    ensures
        r@ == collect_spec(docs@.map_values(|d: String| d@)),
        r@.no_duplicates(),
        char_set_of(r@) == docs_chars(docs@.map_values(|d: String| d@)),
{
    let ghost views = docs@.map_values(|d: String| d@);
    let mut acc: Vec<char> = Vec::new();
    let mut i: usize = 0;
    while i < docs.len()
        invariant
            i <= docs@.len(),
            views == docs@.map_values(|d: String| d@),
            acc@ == collect_spec(views.take(i as int)),
        decreases docs@.len() - i,
    {
        let text = extract_text(docs[i].as_str());
        add_text_chars(&mut acc, text.as_str());
        proof {
            assert(views.take(i + 1).drop_last() =~= views.take(i as int));
            assert(views.take(i + 1).last() == views[i as int]);
        }
        i += 1;
    }
    proof {
        assert(views.take(docs@.len() as int) =~= views);
        lemma_collect_spec_props(views);
    }
    acc
}

/// The count of non-whitespace characters of one content document's rendered
/// text: how the counting tool measures a document.
pub fn html_word_count(doc: &str) -> (r: u64)
    ensures
        r == nonws_count(text_of(doc@)),
{
    let text = extract_text(doc);
    let t = text.as_str();
    let n = t.unicode_len();
    let mut count: usize = 0;
    let mut i: usize = 0;
    proof {
        assert(t@.take(0) =~= Seq::<char>::empty());
    }
    while i < n
        invariant
            n == t@.len(),
            i <= n,
            count == nonws_count(t@.take(i as int)),
            count <= i,
        decreases n - i,
    {
        let c = t.get_char(i);
        proof {
            assert(t@.take(i + 1).drop_last() =~= t@.take(i as int));
            assert(t@.take(i + 1).last() == t@[i as int]);
        }
        if !whitespace_char(c) {
            count += 1;
        }
        i += 1;
    }
    proof {
        assert(t@.take(n as int) =~= t@);
    }
    count as u64
}

} // verus!
