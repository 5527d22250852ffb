use epub_subset::chars::{collect_required_chars, get_xhtml_words, html_word_count};
use epub_subset::input::split_vec;

fn sorted(mut v: Vec<char>) -> Vec<char> {
    v.sort();
    v
}

#[test]
fn word_set_of_simple_document() {
    let words = get_xhtml_words("<html><body>AB AB</body></html>");
    assert_eq!(sorted(words), vec!['A', 'B']);
}

#[test]
fn word_set_excludes_markup() {
    let words = get_xhtml_words("<p>AB</p>");
    assert!(!words.contains(&'<'));
    assert!(!words.contains(&'p'));
    assert_eq!(sorted(words), vec!['A', 'B']);
}

#[test]
fn word_set_excludes_whitespace() {
    let words = get_xhtml_words("<body>A B\nC\tA</body>");
    assert_eq!(sorted(words), vec!['A', 'B', 'C']);
}

#[test]
fn count_measures_characters_after_whitespace_removal() {
    assert_eq!(html_word_count("<html><body>AB AB</body></html>"), 4);
    assert_eq!(html_word_count("<body>  \n </body>"), 0);
    assert_eq!(html_word_count("<p>一二三 四</p>"), 4);
}

#[test]
fn required_chars_union_over_documents() {
    let docs = vec![
        String::from("<p>AB</p>"),
        String::from("<p>BC</p>"),
    ];
    let chars = collect_required_chars(&docs);
    assert_eq!(sorted(chars), vec!['A', 'B', 'C']);
}

#[test]
fn required_chars_of_nothing_is_empty() {
    let docs: Vec<String> = Vec::new();
    let chars = collect_required_chars(&docs);
    assert!(chars.is_empty());
}

#[test]
fn split_vec_even_chunks() {
    let v = vec![1, 2, 3, 4, 5, 6, 7];
    let chunks = split_vec(v, 3);
    assert_eq!(chunks, vec![vec![1, 2, 3], vec![4, 5, 6], vec![7]]);
}

#[test]
fn split_vec_zero_workers_is_one_chunk() {
    let v = vec![1, 2, 3];
    let chunks = split_vec(v, 0);
    assert_eq!(chunks, vec![vec![1, 2, 3]]);
}

#[test]
fn split_vec_empty_is_one_empty_chunk() {
    let v: Vec<u8> = Vec::new();
    let chunks = split_vec(v, 4);
    assert_eq!(chunks, vec![Vec::<u8>::new()]);
}

#[test]
fn split_vec_more_workers_than_items() {
    let v = vec![1, 2, 3];
    let chunks = split_vec(v, 10);
    assert_eq!(chunks, vec![vec![1], vec![2], vec![3]]);
}
