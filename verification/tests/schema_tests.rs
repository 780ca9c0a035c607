use tex_rsm_parser::digest::HashTable;
use tex_rsm_parser::key::Key;
use tex_rsm_parser::math_expr::{MathDisc, MathExprParseResult};
use tex_rsm_parser::node::Node;
use tex_rsm_parser::outside::schema::{
    convert_key, convert_keys, convert_to_entry, EVInlineCommand, EVKeys, EVMathStatus, EVText,
    Entry, EntryKey, EntryValue, ParseResult,
};
use tex_rsm_parser::outside::MAX_INPUT_LENGTH;
use tex_rsm_parser::parse_paragraphs_to_json;
use tex_rsm_parser::parser::parse_paragraphs;

fn key(value: u32) -> Key {
    Key { value }
}

fn table() -> HashTable {
    let mut table = HashTable::new();
    table.insert(key(0), "zero".to_string());
    table.insert(key(1), "one".to_string());
    table.insert(key(2), "two".to_string());
    table
}

fn labels(keys: &EVKeys) -> Vec<String> {
    keys.keys.iter().map(|k| k.0.clone()).collect()
}

fn entries_of(input: &str) -> (EntryKey, Vec<Entry>, usize) {
    match parse_paragraphs_to_json(input) {
        ParseResult::Success(ok) => (ok.root, ok.entries, ok.count),
        ParseResult::Error(error) => panic!("no error was expected: {}", error.message),
    }
}

#[test]
fn keys_are_converted_to_their_labels() {
    let table = table();
    assert_eq!(convert_key(key(1), &table).0, "one");
    let labels: Vec<String> =
        convert_keys(vec![key(2), key(0), key(2)], &table).into_iter().map(|k| k.0).collect();
    assert_eq!(labels, vec!["two", "zero", "two"]);
    assert!(convert_keys(vec![], &table).is_empty());
}

#[test]
fn nodes_with_children_are_converted() {
    let table = table();
    let entry = convert_to_entry(key(0), Node::ParagraphList(Some(vec![key(1), key(2)])), &table);
    assert_eq!(entry.key.0, "zero");
    match entry.value {
        EntryValue::Paragraphs(keys) => assert_eq!(labels(&keys), vec!["one", "two"]),
        other => panic!("paragraphs were expected, not {:?}", other),
    }
    let entry = convert_to_entry(key(1), Node::Paragraph(Some(vec![key(2)])), &table);
    assert_eq!(entry.key.0, "one");
    match entry.value {
        EntryValue::Paragraph(keys) => assert_eq!(labels(&keys), vec!["two"]),
        other => panic!("a paragraph was expected, not {:?}", other),
    }
}

#[test]
fn leaves_are_converted() {
    let table = table();
    let entry = convert_to_entry(key(2), Node::RawString("abc".to_string()), &table);
    assert_eq!(entry.key.0, "two");
    assert!(matches!(entry.value, EntryValue::Text(EVText { content }) if content == "abc"));

    let entry = convert_to_entry(key(2), Node::InlineCommand(Some("\\foo".to_string())), &table);
    assert!(matches!(
        entry.value,
        EntryValue::InlineCommand(EVInlineCommand { content }) if content == "\\foo"
    ));
}

#[test]
fn math_is_converted_by_style_and_status() {
    let table = table();
    let cases = [
        (MathDisc::SingleDollar, true),
        (MathDisc::BsParen, true),
        (MathDisc::DoubleDollar, false),
        (MathDisc::BsBracket, false),
    ];
    for (disc, inline) in cases {
        for matched in [true, false] {
            let math = if matched {
                MathExprParseResult::ok("x".to_string(), disc)
            } else {
                MathExprParseResult::err("x".to_string(), disc)
            };
            let entry = convert_to_entry(key(1), Node::MathExpr(math), &table);
            let status = if matched { EVMathStatus::Success } else { EVMathStatus::Error };
            match entry.value {
                EntryValue::InlineMath(math) => {
                    assert!(inline);
                    assert_eq!(math.status, status);
                    assert_eq!(math.content, "x");
                }
                EntryValue::DisplayMath(math) => {
                    assert!(!inline);
                    assert_eq!(math.status, status);
                    assert_eq!(math.content, "x");
                }
                other => panic!("math was expected, not {:?}", other),
            }
        }
    }
}

#[test]
fn nodes_without_content_become_the_text_unknown() {
    let table = table();
    for node in [Node::ParagraphList(None), Node::Paragraph(None), Node::InlineCommand(None)] {
        let entry = convert_to_entry(key(0), node, &table);
        assert!(matches!(entry.value, EntryValue::Text(EVText { content }) if content == "unknown"));
    }
}

#[test]
fn constructors_keep_what_they_are_given() {
    assert_eq!(EVText::new("a".to_string()).content, "a");
    assert_eq!(EVInlineCommand::new("\\b".to_string()).content, "\\b");
    let keys = EVKeys::new(vec![EntryKey("x".to_string()), EntryKey("y".to_string())]);
    assert_eq!(labels(&keys), vec!["x", "y"]);
    match ParseResult::new_error("no".to_string()) {
        ParseResult::Error(error) => assert_eq!(error.message, "no"),
        ParseResult::Success(_) => panic!("an error was expected"),
    }
    match ParseResult::new_ok(EntryKey("r".to_string()), vec![], 3) {
        ParseResult::Success(ok) => {
            assert_eq!(ok.root.0, "r");
            assert!(ok.entries.is_empty());
            assert_eq!(ok.count, 3);
        }
        ParseResult::Error(_) => panic!("no error was expected"),
    }
}

#[test]
fn a_document_is_projected_entry_by_entry() {
    let (root, entries, count) = entries_of("ab $x$\n\n\\[y");
    assert_eq!(count, 11);
    assert_eq!(entries.len(), 6);
    assert_eq!(root.0, entries[0].key.0);

    let table = parse_paragraphs("ab $x$\n\n\\[y").unwrap().rmap.hash_table();
    for (i, entry) in entries.iter().enumerate() {
        assert_eq!(&entry.key.0, table.get(&key(i as u32)).unwrap());
    }
    match &entries[0].value {
        EntryValue::Paragraphs(keys) => {
            assert_eq!(labels(keys), vec![entries[1].key.0.clone(), entries[4].key.0.clone()])
        }
        other => panic!("paragraphs were expected, not {:?}", other),
    }
    match &entries[1].value {
        EntryValue::Paragraph(keys) => {
            assert_eq!(labels(keys), vec![entries[2].key.0.clone(), entries[3].key.0.clone()])
        }
        other => panic!("a paragraph was expected, not {:?}", other),
    }
    assert!(matches!(&entries[2].value, EntryValue::Text(text) if text.content == "ab"));
    assert!(matches!(
        &entries[3].value,
        EntryValue::InlineMath(math) if math.status == EVMathStatus::Success && math.content == "x"
    ));
    match &entries[4].value {
        EntryValue::Paragraph(keys) => assert_eq!(labels(keys), vec![entries[5].key.0.clone()]),
        other => panic!("a paragraph was expected, not {:?}", other),
    }
    assert!(matches!(
        &entries[5].value,
        EntryValue::DisplayMath(math) if math.status == EVMathStatus::Error && math.content == "y"
    ));
}

#[test]
fn repeated_paragraphs_share_their_label() {
    let (_, entries, _) = entries_of("same\n\nsame");
    assert_eq!(entries.len(), 5);
    assert_eq!(entries[1].key.0, entries[3].key.0);
    assert_eq!(entries[2].key.0, entries[4].key.0);
    match &entries[0].value {
        EntryValue::Paragraphs(keys) => {
            let labels = labels(keys);
            assert_eq!(labels.len(), 2);
            assert_eq!(labels[0], labels[1]);
        }
        other => panic!("paragraphs were expected, not {:?}", other),
    }
}

#[test]
fn too_long_input_is_projected_as_the_error() {
    let input = "a".repeat(MAX_INPUT_LENGTH + 1);
    match parse_paragraphs_to_json(&input) {
        ParseResult::Error(error) => assert_eq!(error.message, "Too long input."),
        ParseResult::Success(_) => panic!("an error was expected"),
    }
}

#[test]
fn the_empty_document_is_projected() {
    let (root, entries, count) = entries_of("");
    assert_eq!(count, 0);
    assert_eq!(entries.len(), 1);
    assert_eq!(root.0, entries[0].key.0);
    assert!(matches!(&entries[0].value, EntryValue::Paragraphs(keys) if keys.keys.is_empty()));
}
