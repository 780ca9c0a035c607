use tex_rsm_parser::key::{Key, KeyCounter};
use tex_rsm_parser::math_expr::MathDisc;
use tex_rsm_parser::node::Node;
use tex_rsm_parser::parser::{
    buffer_to_content_string, parse_inline_command, parse_math_expr, parse_paragraph,
    parse_paragraphs,
};
use tex_rsm_parser::result_map::ResultMap;
use tex_rsm_parser::tex_char::TexChar;
use tex_rsm_parser::tex_chars::TexChars;

fn arena_of(input: &str) -> ResultMap {
    parse_paragraphs(input).unwrap().rmap
}

fn children(arena: &ResultMap, key: Key) -> Vec<Key> {
    match arena.get(&key) {
        Some(Node::ParagraphList(Some(keys))) => keys.clone(),
        Some(Node::Paragraph(Some(keys))) => keys.clone(),
        other => panic!("a node with children was expected, not {:?}", other),
    }
}

fn text_at(arena: &ResultMap, key: Key) -> String {
    match arena.get(&key) {
        Some(Node::RawString(s)) => s.clone(),
        other => panic!("a text node was expected, not {:?}", other),
    }
}

fn command_at(arena: &ResultMap, key: Key) -> String {
    match arena.get(&key) {
        Some(Node::InlineCommand(Some(s))) => s.clone(),
        other => panic!("a command node was expected, not {:?}", other),
    }
}

fn math_at(arena: &ResultMap, key: Key) -> (bool, MathDisc, String) {
    match arena.get(&key) {
        Some(Node::MathExpr(math)) => (math.is_ok(), math.disc(), math.content_ref().clone()),
        other => panic!("a math node was expected, not {:?}", other),
    }
}

fn key(value: u32) -> Key {
    Key { value }
}

#[test]
fn plain_text_is_one_paragraph_with_one_text() {
    let arena = arena_of("abc");
    assert_eq!(arena.root(), key(0));
    assert!(matches!(arena.get(&key(0)), Some(Node::ParagraphList(Some(_)))));
    assert_eq!(children(&arena, key(0)), vec![key(1)]);
    assert!(matches!(arena.get(&key(1)), Some(Node::Paragraph(Some(_)))));
    assert_eq!(children(&arena, key(1)), vec![key(2)]);
    assert_eq!(text_at(&arena, key(2)), "abc");
    assert_eq!(arena.into_entries().len(), 3);
}

#[test]
fn line_break_after_a_comma_becomes_a_space() {
    let arena = arena_of("a,\nb");
    assert_eq!(children(&arena, key(1)), vec![key(2)]);
    assert_eq!(text_at(&arena, key(2)), "a, b");
}

#[test]
fn single_dollar_math_is_inline_and_matched() {
    let arena = arena_of("$x$");
    assert_eq!(children(&arena, key(0)), vec![key(1)]);
    assert_eq!(children(&arena, key(1)), vec![key(2)]);
    assert_eq!(math_at(&arena, key(2)), (true, MathDisc::SingleDollar, "x".to_string()));
    match arena.get(&key(2)) {
        Some(Node::MathExpr(math)) => {
            assert!(math.is_inline());
            assert!(!math.is_display());
        }
        _ => unreachable!(),
    }
    assert_eq!(arena.into_entries().len(), 3);
}

#[test]
fn unterminated_bracket_math_is_display_and_unmatched() {
    let arena = arena_of("\\[x");
    assert_eq!(children(&arena, key(1)), vec![key(2)]);
    assert_eq!(math_at(&arena, key(2)), (false, MathDisc::BsBracket, "x".to_string()));
    match arena.get(&key(2)) {
        Some(Node::MathExpr(math)) => {
            assert!(math.is_display());
            assert!(!math.is_inline());
        }
        _ => unreachable!(),
    }
}

#[test]
fn two_paragraphs_with_one_text_each() {
    let arena = arena_of("a\n\nb");
    assert_eq!(children(&arena, key(0)), vec![key(1), key(3)]);
    assert_eq!(children(&arena, key(1)), vec![key(2)]);
    assert_eq!(children(&arena, key(3)), vec![key(4)]);
    assert_eq!(text_at(&arena, key(2)), "a");
    assert_eq!(text_at(&arena, key(4)), "b");
    assert_eq!(arena.into_entries().len(), 5);
}

#[test]
fn empty_input_is_an_empty_list() {
    for input in ["", "   ", "% nothing", "\n\n\n"] {
        let ok = parse_paragraphs(input).unwrap();
        assert_eq!(ok.rmap.root(), key(0));
        assert_eq!(children(&ok.rmap, key(0)), vec![]);
        assert_eq!(ok.rmap.into_entries().len(), 1);
    }
    assert_eq!(parse_paragraphs("").unwrap().char_count, 0);
    assert_eq!(parse_paragraphs("\n\n\n").unwrap().char_count, 2);
}

#[test]
fn double_dollar_math_is_not_read_as_two_single_dollars() {
    let arena = arena_of("$$x$$");
    assert_eq!(children(&arena, key(1)), vec![key(2)]);
    assert_eq!(math_at(&arena, key(2)), (true, MathDisc::DoubleDollar, "x".to_string()));

    let arena = arena_of("$$a$b$$");
    assert_eq!(children(&arena, key(1)), vec![key(2)]);
    assert_eq!(math_at(&arena, key(2)), (true, MathDisc::DoubleDollar, "a$b".to_string()));
}

#[test]
fn every_style_of_math() {
    let arena = arena_of("\\(a\\)\\[b\\]$$c$$$d$");
    assert_eq!(children(&arena, key(1)), vec![key(2), key(3), key(4), key(5)]);
    assert_eq!(math_at(&arena, key(2)), (true, MathDisc::BsParen, "a".to_string()));
    assert_eq!(math_at(&arena, key(3)), (true, MathDisc::BsBracket, "b".to_string()));
    assert_eq!(math_at(&arena, key(4)), (true, MathDisc::DoubleDollar, "c".to_string()));
    assert_eq!(math_at(&arena, key(5)), (true, MathDisc::SingleDollar, "d".to_string()));
}

#[test]
fn unterminated_math_keeps_all_that_follows() {
    let arena = arena_of("a $b c");
    assert_eq!(children(&arena, key(1)), vec![key(2), key(3)]);
    assert_eq!(text_at(&arena, key(2)), "a");
    assert_eq!(math_at(&arena, key(3)), (false, MathDisc::SingleDollar, "b c".to_string()));

    let arena = arena_of("\\(x\\]");
    assert_eq!(math_at(&arena, key(2)), (false, MathDisc::BsParen, "x\\]".to_string()));

    let arena = arena_of("$$x$");
    assert_eq!(math_at(&arena, key(2)), (false, MathDisc::DoubleDollar, "x$".to_string()));

    let arena = arena_of("$");
    assert_eq!(math_at(&arena, key(2)), (false, MathDisc::SingleDollar, "".to_string()));
}

#[test]
fn math_content_is_normalized() {
    let arena = arena_of("$  x ,\n y  $");
    assert_eq!(math_at(&arena, key(2)), (true, MathDisc::SingleDollar, "x , y".to_string()));
    let arena = arena_of("\\( \\mathscr{V} \\defeq U_x^X \\)");
    assert_eq!(
        math_at(&arena, key(2)),
        (true, MathDisc::BsParen, "\\mathscr{V} \\defeq U_x^X".to_string())
    );
}

#[test]
fn commands_take_their_letters() {
    let arena = arena_of("\\foo");
    assert_eq!(children(&arena, key(1)), vec![key(2)]);
    assert_eq!(command_at(&arena, key(2)), "\\foo");

    let arena = arena_of("\\foo1 x");
    assert_eq!(children(&arena, key(1)), vec![key(2), key(3)]);
    assert_eq!(command_at(&arena, key(2)), "\\foo");
    assert_eq!(text_at(&arena, key(3)), "1 x");

    let arena = arena_of("\\ref{x}");
    assert_eq!(command_at(&arena, key(2)), "\\ref");
    assert_eq!(text_at(&arena, key(3)), "{x}");
}

#[test]
fn command_names_are_alphabetic_in_any_script() {
    let arena = arena_of("\\数式é(");
    assert_eq!(children(&arena, key(1)), vec![key(2), key(3)]);
    assert_eq!(command_at(&arena, key(2)), "\\数式é");
    assert_eq!(text_at(&arena, key(3)), "(");

    let arena = arena_of("\\a_b");
    assert_eq!(command_at(&arena, key(2)), "\\a");
    assert_eq!(text_at(&arena, key(3)), "_b");
}

#[test]
fn a_lone_backslash_is_a_command_without_a_name() {
    let arena = arena_of("\\");
    assert_eq!(children(&arena, key(1)), vec![key(2)]);
    assert_eq!(command_at(&arena, key(2)), "\\");

    let arena = arena_of("a\\ b");
    assert_eq!(children(&arena, key(1)), vec![key(2), key(3), key(4)]);
    assert_eq!(text_at(&arena, key(2)), "a");
    assert_eq!(command_at(&arena, key(3)), "\\");
    assert_eq!(text_at(&arena, key(4)), "b");

    let arena = arena_of("\\)");
    assert_eq!(command_at(&arena, key(2)), "\\");
    assert_eq!(text_at(&arena, key(3)), ")");
}

#[test]
fn text_that_normalizes_to_nothing_gets_no_node() {
    let arena = arena_of("$x$ $y$");
    assert_eq!(children(&arena, key(1)), vec![key(2), key(3)]);
    assert_eq!(math_at(&arena, key(2)).2, "x");
    assert_eq!(math_at(&arena, key(3)).2, "y");
}

#[test]
fn text_before_math_keeps_the_space_of_a_line_break() {
    let arena = arena_of("a\n$x$");
    assert_eq!(children(&arena, key(1)), vec![key(2), key(3)]);
    assert_eq!(text_at(&arena, key(2)), "a ");
}

#[test]
fn units_come_in_textual_order() {
    let arena = arena_of("abc$X$, $X$\n\\( V \\)は\\( X \\)の開被覆である.\\foo");
    let keys = children(&arena, key(1));
    assert_eq!(keys, (2..=10).map(key).collect::<Vec<_>>());
    assert_eq!(text_at(&arena, key(2)), "abc");
    assert_eq!(math_at(&arena, key(3)), (true, MathDisc::SingleDollar, "X".to_string()));
    assert_eq!(text_at(&arena, key(4)), ",");
    assert_eq!(math_at(&arena, key(5)), (true, MathDisc::SingleDollar, "X".to_string()));
    assert_eq!(math_at(&arena, key(6)), (true, MathDisc::BsParen, "V".to_string()));
    assert_eq!(text_at(&arena, key(7)), "は");
    assert_eq!(math_at(&arena, key(8)), (true, MathDisc::BsParen, "X".to_string()));
    assert_eq!(text_at(&arena, key(9)), "の開被覆である.");
    assert_eq!(command_at(&arena, key(10)), "\\foo");
}

#[test]
fn keys_of_a_document_are_drawn_in_order() {
    let arena = arena_of("a$b$\n\n\\c d\n\ne");
    assert_eq!(children(&arena, key(0)), vec![key(1), key(4), key(7)]);
    assert_eq!(children(&arena, key(1)), vec![key(2), key(3)]);
    assert_eq!(children(&arena, key(4)), vec![key(5), key(6)]);
    assert_eq!(children(&arena, key(7)), vec![key(8)]);
    let entries = arena.into_entries();
    let keys: Vec<u32> = entries.iter().map(|(k, _)| k.value).collect();
    assert_eq!(keys, (0..9).collect::<Vec<u32>>());
}

#[test]
fn comments_are_no_part_of_the_document() {
    let arena = arena_of("a % $x$\nb");
    assert_eq!(children(&arena, key(1)), vec![key(2)]);
    assert_eq!(text_at(&arena, key(2)), "a b");
}

#[test]
fn parse_paragraph_draws_from_the_counter_it_is_given() {
    let mut kc = KeyCounter::new();
    kc.count();
    kc.count();
    let arena = parse_paragraph(TexChars::from_text("a$b$"), &mut kc);
    assert_eq!(arena.root(), key(2));
    assert_eq!(children(&arena, key(2)), vec![key(3), key(4)]);
    assert_eq!(kc.count(), key(5));
}

#[test]
fn parse_paragraph_of_nothing() {
    let mut kc = KeyCounter::new();
    let arena = parse_paragraph(TexChars::from_text(""), &mut kc);
    assert_eq!(arena.root(), key(0));
    assert_eq!(children(&arena, key(0)), vec![]);
    assert_eq!(kc.count(), key(1));
}

#[test]
fn parse_math_expr_leaves_what_follows() {
    let mut kc = KeyCounter::new();
    let mut cs = TexChars::from_text("\\(a\\)b");
    let arena = parse_math_expr(&mut cs, &mut kc, MathDisc::BsParen);
    assert_eq!(arena.root(), key(0));
    assert_eq!(math_at(&arena, key(0)), (true, MathDisc::BsParen, "a".to_string()));
    assert_eq!(cs, TexChars::from_text("b"));
    assert_eq!(kc.count(), key(1));
}

#[test]
fn parse_inline_command_leaves_what_follows() {
    let mut kc = KeyCounter::new();
    let mut cs = TexChars::from_text("\\foo bar");
    let arena = parse_inline_command(&mut cs, &mut kc);
    assert_eq!(command_at(&arena, key(0)), "\\foo");
    assert_eq!(cs, TexChars::from_text(" bar"));
    assert_eq!(kc.count(), key(1));
}

#[test]
fn buffer_is_emptied() {
    let mut buffer = vec![TexChar::Whitespace, TexChar::Char('a'), TexChar::Return];
    assert_eq!(buffer_to_content_string(&mut buffer), "a ");
    assert!(buffer.is_empty());
    assert_eq!(buffer_to_content_string(&mut buffer), "");
}
