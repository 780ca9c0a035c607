use std::collections::hash_map::DefaultHasher;
use std::hash::{Hash, Hasher};
use tex_rsm_parser::digest::{hex, HashTable};
use tex_rsm_parser::key::Key;
use tex_rsm_parser::node::Node;
use tex_rsm_parser::parser::parse_paragraphs;
use tex_rsm_parser::result_map::ResultMap;

fn key(value: u32) -> Key {
    Key { value }
}

fn table_of(input: &str) -> HashTable {
    parse_paragraphs(input).unwrap().rmap.hash_table()
}

fn label(table: &HashTable, key_value: u32) -> String {
    table.get(&key(key_value)).unwrap().clone()
}

#[test]
fn hex_of_numbers() {
    assert_eq!(hex(0), "0");
    assert_eq!(hex(9), "9");
    assert_eq!(hex(10), "a");
    assert_eq!(hex(15), "f");
    assert_eq!(hex(16), "10");
    assert_eq!(hex(255), "ff");
    assert_eq!(hex(0xdead_beef), "deadbeef");
    assert_eq!(hex(0x0123_4567_89ab_cdef), "123456789abcdef");
    assert_eq!(hex(u64::MAX), "ffffffffffffffff");
}

#[test]
fn hex_agrees_with_the_standard_library() {
    for n in [0u64, 1, 15, 16, 17, 4095, 4096, 65535, 1 << 32, (1 << 63) + 12345, u64::MAX - 1] {
        assert_eq!(hex(n), format!("{:x}", n));
    }
}

#[test]
fn every_key_of_a_document_has_a_label() {
    let table = table_of("a$b$\n\n\\c d");
    for k in 0..7 {
        let text = label(&table, k);
        assert!(!text.is_empty() && text.len() <= 16);
        assert!(text.chars().all(|c| c.is_ascii_digit() || ('a'..='f').contains(&c)));
    }
    assert!(table.get(&key(7)).is_none());
}

#[test]
fn hashing_twice_gives_the_same_labels() {
    let arena = parse_paragraphs("a $x$ \\foo\n\nb").unwrap().rmap;
    let first = arena.hash_table();
    let second = arena.hash_table();
    let other = table_of("a $x$ \\foo\n\nb");
    for k in 0..7 {
        assert_eq!(label(&first, k), label(&second, k));
        assert_eq!(label(&first, k), label(&other, k));
    }
}

#[test]
fn equal_subtrees_have_equal_labels() {
    let table = table_of("a $x$\n\na $x$\n\na $y$");
    assert_eq!(label(&table, 1), label(&table, 4));
    assert_eq!(label(&table, 2), label(&table, 5));
    assert_eq!(label(&table, 3), label(&table, 6));
    assert_eq!(label(&table, 2), label(&table, 8));
    assert_ne!(label(&table, 3), label(&table, 9));
    assert_ne!(label(&table, 1), label(&table, 7));
}

#[test]
fn a_changed_leaf_changes_the_labels_up_to_the_root() {
    let one = table_of("abc\n\nsame");
    let two = table_of("abd\n\nsame");
    assert_ne!(label(&one, 2), label(&two, 2));
    assert_ne!(label(&one, 1), label(&two, 1));
    assert_ne!(label(&one, 0), label(&two, 0));
    assert_eq!(label(&one, 3), label(&two, 3));
    assert_eq!(label(&one, 4), label(&two, 4));
}

#[test]
fn kind_and_status_of_math_enter_the_label() {
    let matched = table_of("$x$");
    let unmatched = table_of("$x");
    let paren = table_of("\\(x\\)");
    let text = table_of("x");
    assert_ne!(label(&matched, 2), label(&unmatched, 2));
    assert_ne!(label(&matched, 2), label(&paren, 2));
    assert_ne!(label(&matched, 2), label(&text, 2));
}

#[test]
fn adjacent_texts_are_kept_apart() {
    let one = table_of("ab$c$");
    let two = table_of("a$bc$");
    assert_ne!(label(&one, 1), label(&two, 1));
}

#[test]
fn only_what_hangs_on_the_root_is_labelled() {
    let mut arena = ResultMap::new(key(0), Node::Paragraph(Some(vec![key(1), key(3)])));
    arena.merge(vec![
        ResultMap::new(key(1), Node::RawString("a".to_string())),
        ResultMap::new(key(2), Node::RawString("b".to_string())),
    ]);
    let table = arena.hash_table();
    assert!(table.get(&key(0)).is_some());
    assert!(table.get(&key(1)).is_some());
    assert!(table.get(&key(2)).is_none());
    assert!(table.get(&key(3)).is_some());
}

#[test]
fn a_key_without_an_entry_and_a_node_without_content_feed_nothing() {
    let mut arena = ResultMap::new(key(0), Node::Paragraph(Some(vec![key(1), key(2), key(3)])));
    arena.merge(vec![
        ResultMap::new(key(1), Node::Paragraph(None)),
        ResultMap::new(key(2), Node::InlineCommand(None)),
    ]);
    let table = arena.hash_table();
    assert_eq!(label(&table, 1), label(&table, 3));
    assert_eq!(label(&table, 2), label(&table, 3));
    assert_ne!(label(&table, 0), label(&table, 3));
}

#[test]
fn a_table_holds_what_was_put_into_it() {
    let mut table = HashTable::new();
    assert!(table.get(&key(1)).is_none());
    table.insert(key(1), "a".to_string());
    table.insert(key(2), "b".to_string());
    table.insert(key(1), "c".to_string());
    assert_eq!(label(&table, 1), "c");
    assert_eq!(label(&table, 2), "b");
    assert!(table.get(&key(3)).is_none());
}

#[test]
fn the_label_of_a_text_is_the_hash_of_the_text() {
    let table = table_of("abc");
    let mut hasher = DefaultHasher::new();
    "abc".hash(&mut hasher);
    let text = format!("{:x}", hasher.finish());
    assert_eq!(label(&table, 2), text);

    let mut hasher = DefaultHasher::new();
    text.hash(&mut hasher);
    let paragraph = format!("{:x}", hasher.finish());
    assert_eq!(label(&table, 1), paragraph);

    let mut hasher = DefaultHasher::new();
    paragraph.hash(&mut hasher);
    assert_eq!(label(&table, 0), format!("{:x}", hasher.finish()));
}
