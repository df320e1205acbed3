//! Unit tests of the suffix-to-index map used for disambiguation.
use markdown_bib_processor::citation::suffix_to_index;

#[test]
fn suffix_to_index_values() {
    assert_eq!(suffix_to_index(""), 0);
    assert_eq!(suffix_to_index("a"), 0);
    assert_eq!(suffix_to_index("b"), 1);
    assert_eq!(suffix_to_index("c"), 2);
    assert_eq!(suffix_to_index("z"), 25);
}

#[test]
fn suffix_to_index_is_monotone_on_letters() {
    let letters = "abcdefghijklmnopqrstuvwxyz";
    let mut prev: Option<usize> = None;
    for c in letters.chars() {
        let idx = suffix_to_index(&c.to_string());
        if let Some(p) = prev {
            assert!(p < idx);
        }
        prev = Some(idx);
    }
}
