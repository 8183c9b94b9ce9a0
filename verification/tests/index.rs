use cpdetect::trie::{RepetitionIndex, TrieNode};

#[test]
fn repeated_insertions_count_up() {
    let mut index = RepetitionIndex::new();
    for expected in 1..=50usize {
        assert_eq!(index.insert("let x = 1;"), expected);
    }
    assert_eq!(index.len(), 50);
}

#[test]
fn fresh_index_is_empty() {
    let index = RepetitionIndex::new();
    assert_eq!(index.len(), 0);
}

#[test]
fn prefix_then_longer_text_count_apart() {
    let mut index = RepetitionIndex::new();
    assert_eq!(index.insert("foo"), 1);
    assert_eq!(index.insert("foobar"), 1);
    assert_eq!(index.insert("foo"), 2);
    assert_eq!(index.insert("foobar"), 2);
}

#[test]
fn longer_text_then_prefix_count_apart() {
    let mut index = RepetitionIndex::new();
    assert_eq!(index.insert("foobar"), 1);
    assert_eq!(index.insert("foo"), 1);
    assert_eq!(index.insert("fo"), 1);
    assert_eq!(index.insert("f"), 1);
    assert_eq!(index.insert("foobar"), 2);
    assert_eq!(index.len(), 5);
}

#[test]
fn texts_that_part_after_a_common_start_count_apart() {
    let mut index = RepetitionIndex::new();
    assert_eq!(index.insert("return a;"), 1);
    assert_eq!(index.insert("return b;"), 1);
    assert_eq!(index.insert("return a;"), 2);
    assert_eq!(index.insert("return b;"), 2);
    assert_eq!(index.insert("return a;"), 3);
}

#[test]
fn empty_text_is_a_text() {
    let mut index = RepetitionIndex::new();
    assert_eq!(index.insert(""), 1);
    assert_eq!(index.insert("a"), 1);
    assert_eq!(index.insert(""), 2);
}

#[test]
fn texts_differ_by_case_and_inner_space() {
    let mut index = RepetitionIndex::new();
    assert_eq!(index.insert("a b"), 1);
    assert_eq!(index.insert("a  b"), 1);
    assert_eq!(index.insert("A b"), 1);
    assert_eq!(index.insert("a b"), 2);
}

#[test]
fn texts_beyond_ascii_are_counted_by_character() {
    let mut index = RepetitionIndex::new();
    assert_eq!(index.insert("größe = 1"), 1);
    assert_eq!(index.insert("grösse = 1"), 1);
    assert_eq!(index.insert("größe = 1"), 2);
    assert_eq!(index.insert("日本語"), 1);
    assert_eq!(index.insert("日本"), 1);
    assert_eq!(index.insert("日本語"), 2);
}

#[test]
fn trie_node_counts_like_the_index() {
    let mut root = TrieNode::new();
    assert_eq!(root.insert("x"), 1);
    assert_eq!(root.insert("xy"), 1);
    assert_eq!(root.insert("x"), 2);
    assert_eq!(root.insert("x"), 3);
    assert_eq!(root.insert("xy"), 2);
    assert_eq!(root.insert("y"), 1);
}
