//! Classification of archive entry names: content documents, font resources,
//! the table-of-contents document, and the marker entry.
use vstd::prelude::*;

use crate::strutil::{ends_with, str_ends_with, str_eq};

verus! {

/// The fixed first entry of an EPUB archive.
pub open spec fn marker_name() -> Seq<char> {
    "mimetype"@
}

/// Entry names that hold book content: markup documents other than the
/// table-of-contents document, which is never rendered as book content.
pub open spec fn is_content_name(name: Seq<char>) -> bool {
    &&& (ends_with(name, ".xhtml"@) || ends_with(name, ".html"@))
    &&& name != "toc.xhtml"@
    &&& name != "toc.html"@
}

/// Entry names that hold an embedded font resource.
pub open spec fn is_font_name(name: Seq<char>) -> bool {
    ||| ends_with(name, ".ttf"@)
    ||| ends_with(name, ".otf"@)
    ||| ends_with(name, ".woff"@)
}

/// Runtime test for [`is_content_name`].
pub fn content_name(name: &str) -> (r: bool)
    ensures
        r == is_content_name(name@),
{
    (str_ends_with(name, ".xhtml") || str_ends_with(name, ".html")) && !str_eq(name, "toc.xhtml")
        && !str_eq(name, "toc.html")
}

/// Runtime test for [`is_font_name`].
pub fn font_name(name: &str) -> (r: bool)
    ensures
        r == is_font_name(name@),
{
    str_ends_with(name, ".ttf") || str_ends_with(name, ".otf") || str_ends_with(name, ".woff")
}

/// Runtime test for the marker entry's name.
pub fn marker(name: &str) -> (r: bool)
    ensures
        r == (name@ == marker_name()),
{
    str_eq(name, "mimetype")
}

/// No entry name is at once a content document, a font resource, or the
/// marker: the three classes end in distinct characters.
pub proof fn lemma_name_classes_disjoint(name: Seq<char>)
    ensures
        !(is_content_name(name) && is_font_name(name)),
        is_content_name(name) ==> name != marker_name(),
        is_font_name(name) ==> name != marker_name(),
{
    reveal_strlit(".xhtml");
    reveal_strlit(".html");
    reveal_strlit(".ttf");
    reveal_strlit(".otf");
    reveal_strlit(".woff");
    reveal_strlit("mimetype");
    if is_content_name(name) {
        if ends_with(name, ".xhtml"@) {
            crate::strutil::lemma_ends_with_last(name, ".xhtml"@);
        } else {
            crate::strutil::lemma_ends_with_last(name, ".html"@);
        }
        assert(name[name.len() - 1] == 'l');
    }
    if is_font_name(name) {
        if ends_with(name, ".ttf"@) {
            crate::strutil::lemma_ends_with_last(name, ".ttf"@);
        } else if ends_with(name, ".otf"@) {
            crate::strutil::lemma_ends_with_last(name, ".otf"@);
        } else {
            crate::strutil::lemma_ends_with_last(name, ".woff"@);
        }
        assert(name[name.len() - 1] == 'f');
    }
    assert(marker_name()[7] == 'e');
    assert(marker_name().len() == 8);
}

} // verus!
