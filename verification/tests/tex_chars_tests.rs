use std::str::FromStr;
use tex_rsm_parser::tex_char::TexChar;
use tex_rsm_parser::tex_char::TexChar::{
    Backslash, Char, Comma, Dollar, LBracket, LParen, Period, RBracket, RParen, Return, Whitespace,
};
use tex_rsm_parser::tex_chars::TexChars;

fn tokens_of(input: &str) -> Vec<TexChar> {
    let mut cs: TexChars = input.parse().unwrap();
    let mut tokens = Vec::new();
    while let Some(c) = cs.next() {
        tokens.push(c);
    }
    tokens
}

fn content_of(input: &str) -> String {
    let cs: TexChars = input.parse().unwrap();
    cs.into_content_string()
}

#[test]
fn from_str() {
    assert_eq!(tokens_of(""), vec![]);

    assert_eq!(tokens_of("abc"), vec![Char('a'), Char('b'), Char('c'),]);

    assert_eq!(
        tokens_of("いろはに"),
        vec![Char('い'), Char('ろ'), Char('は'), Char('に'),]
    );

    assert_eq!(
        tokens_of(r"数式\(x, y\)など."),
        vec![
            Char('数'),
            Char('式'),
            Backslash,
            LParen,
            Char('x'),
            Comma,
            Whitespace,
            Char('y'),
            Backslash,
            RParen,
            Char('な'),
            Char('ど'),
            Period,
        ]
    );

    assert_eq!(
        tokens_of(
            "改行\n\
            \\[\\xi\\]\n\
            など"
        ),
        vec![
            Char('改'),
            Char('行'),
            Return,
            Backslash,
            LBracket,
            Backslash,
            Char('x'),
            Char('i'),
            Backslash,
            RBracket,
            Return,
            Char('な'),
            Char('ど'),
        ]
    );

    assert_eq!(
        tokens_of(
            "空行\n\
            \n\
            あり"
        ),
        vec![
            Char('空'),
            Char('行'),
            Return,
            Return,
            Char('あ'),
            Char('り'),
        ]
    );
}

#[test]
fn into_content_string() {
    assert_eq!(content_of("foo "), "foo");
    assert_eq!(content_of(" foo"), "foo");
    assert_eq!(content_of("  foo   "), "foo");

    assert_eq!(content_of(""), "");
    assert_eq!(content_of(" "), "");

    assert_eq!(content_of("foo\nbar"), "foo bar");
    assert_eq!(content_of("FOO\nbar"), "FOO bar");
    assert_eq!(content_of("123\n456"), "123 456");
    assert_eq!(content_of("あいう\nえお"), "あいうえお");
    assert_eq!(content_of("あいう\neo"), "あいうeo");
    assert_eq!(content_of("foo,\nbar"), "foo, bar");
    assert_eq!(content_of("foo.\nbar"), "foo. bar");
    assert_eq!(content_of("foo?\nbar"), "foo? bar");
    assert_eq!(content_of("foo!\nbar"), "foo! bar");
    assert_eq!(content_of("foo#\nbar"), "foo#bar");

    assert_eq!(content_of(" X,  Y,   Z, W  "), "X, Y, Z, W");

    assert_eq!(content_of("foo, \nbar"), "foo, bar");
}

#[test]
fn from_str_of_the_trait_agrees_with_from_text() {
    let a = TexChars::from_str("a $x$\n").unwrap();
    let b = TexChars::from_text("a $x$\n");
    assert_eq!(a, b);
}

#[test]
fn from_iter_keeps_the_order() {
    let mut cs = TexChars::from_iter(vec![Dollar, Char('x'), Dollar]);
    assert_eq!(cs.next(), Some(Dollar));
    assert_eq!(cs.next(), Some(Char('x')));
    assert_eq!(cs.next(), Some(Dollar));
    assert_eq!(cs.next(), None);
    assert_eq!(cs.next(), None);
}

#[test]
fn peeking_does_not_consume() {
    let mut cs = TexChars::from_text("$$a");
    assert!(cs.next_is(Dollar));
    assert!(!cs.next_is(Char('a')));
    assert!(cs.next_isis(Dollar, Dollar));
    assert!(!cs.next_isis(Dollar, Char('a')));
    assert_eq!(cs.read_next(), Some(Dollar));
    assert_eq!(cs.read_next(), Some(Dollar));
    assert_eq!(cs.next(), Some(Dollar));
    assert!(cs.next_isis(Dollar, Char('a')));
    assert_eq!(cs.next(), Some(Dollar));
    assert!(cs.next_is(Char('a')));
    assert!(!cs.next_isis(Char('a'), Char('a')));
    assert_eq!(cs.next(), Some(Char('a')));
    assert!(!cs.next_is(Char('a')));
    assert_eq!(cs.read_next(), None);
}

#[test]
fn peeking_at_an_empty_stream() {
    let cs = TexChars::from_text("");
    assert!(!cs.next_is(Whitespace));
    assert!(!cs.next_isis(Whitespace, Whitespace));
    assert_eq!(cs.read_next(), None);
}

#[test]
fn line_break_after_a_promoted_space_is_dropped() {
    assert_eq!(content_of("a\n\nb"), "a b");
    assert_eq!(content_of("a,\n\n\nb"), "a, b");
}

#[test]
fn line_break_at_the_front_is_dropped() {
    assert_eq!(content_of("\nabc"), "abc");
    assert_eq!(content_of("(\nabc"), "(abc");
    assert_eq!(content_of("$\nabc"), "$abc");
}

#[test]
fn line_break_after_a_space_is_dropped() {
    assert_eq!(content_of("a \nb"), "a b");
    assert_eq!(content_of("a  \n  b"), "a b");
}

#[test]
fn only_the_space_token_is_stripped_and_squeezed() {
    assert_eq!(content_of("\ta\t\tb\t"), "\ta\t\tb\t");
}

#[test]
fn line_break_at_the_end_after_a_word_leaves_a_space() {
    assert_eq!(content_of("a\n"), "a ");
    assert_eq!(content_of("a \n"), "a ");
    assert_eq!(content_of("\n a"), " a");
}

#[test]
fn normalizing_again_changes_nothing_without_spaces_at_the_ends() {
    for input in [
        "foo\nbar",
        "  foo   ",
        " X,  Y,   Z, W  ",
        "foo, \nbar",
        "あいう\nえお",
        "\\(x, y\\)",
        "",
        "   ",
        "a.\n\n\nb!\nc",
    ] {
        let once = content_of(input);
        assert!(!once.starts_with(' ') && !once.ends_with(' '));
        let twice = content_of(&once);
        assert_eq!(twice, once);
    }
}

#[test]
fn normalized_text_has_no_line_break_and_no_double_space() {
    for input in ["a\n\n b \n c", "x  \n\n  y", "1,\n2.\n3"] {
        let text = content_of(input);
        assert!(!text.contains('\n'));
        assert!(!text.contains("  "));
    }
}
