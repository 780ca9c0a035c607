use std::str::FromStr;
use tex_rsm_parser::outside::{ParseError, MAX_INPUT_LENGTH};
use tex_rsm_parser::parser::{correct_lines, parse_into_paragraphs, parse_paragraphs};
use tex_rsm_parser::tex_chars::TexChars;

#[test]
fn input_over_the_length_limit_is_too_long_input() {
    let input = "a".repeat(MAX_INPUT_LENGTH + 1);

    assert!(matches!(
        parse_paragraphs(&input),
        Err(ParseError::TooLongInput)
    ));
}

#[test]
fn removed_characters_do_not_count_toward_the_limit() {
    let input = "a".repeat(MAX_INPUT_LENGTH) + " %foo";

    assert!(!matches!(
        parse_paragraphs(&input),
        Err(ParseError::TooLongInput)
    ));
}

#[test]
fn smoke_test() {
    let input = r"
            「イーハトーヴォ」という言葉は、
            私の知識の範囲では特定の意味を持つ言葉ではありません。
            もし「イーハトーヴォ」について具体的な情報や文脈を教えていただければ、
            お手伝いできるかもしれません。
            
            「イーハトーヴォ」という言葉は、
            私の知識の範囲では特定の意味を持つ言葉ではありません。
            もし「イーハトーヴォ」について具体的な情報や文脈を教えていただければ、
            お手伝いできるかもしれません。
            
            「イーハトーヴォ」という言葉は、
            私の知識の範囲では特定の意味を持つ言葉ではありません。
            もし「イーハトーヴォ」について具体的な情報や文脈を教えていただければ、
            お手伝いできるかもしれません。
            ";

    println!("{:#?}", parse_paragraphs(input));
}

#[test]
fn smoke_test2() {
    let input = r"abc
             \( \mathscr{V} \defeq U_x^X \)は\( X \)の開被覆である.\foo
        例えば$Y$は$x \otimes y$である(\ref):
        \[Z \cong \left{A \oplus B\right. .\]
        例えば$Y2$は$$x_2 \otimes y_2$$である.";

    println!("{:#?}", parse_paragraphs(input));
}

#[test]
fn sample1() {
    assert_eq!(
        parse_into_paragraphs("abc\ndef\n\nefg".to_string()),
        vec![
            TexChars::from_str("abc\ndef").unwrap(),
            TexChars::from_str("efg").unwrap()
        ]
    );
}

#[test]
fn consecutive_blank_lines() {
    assert_eq!(
        parse_into_paragraphs("abc\ndef\n\n\n\nefg".to_string()),
        vec![
            TexChars::from_str("abc\ndef").unwrap(),
            TexChars::from_str("efg").unwrap()
        ]
    );
}

fn corrected(input: &str) -> String {
    correct_lines(input.to_string())
}

#[test]
fn correct_lines_of_nothing() {
    assert_eq!(corrected(""), "");
}

#[test]
fn correct_lines_of_a_comment_alone() {
    assert_eq!(corrected("%"), "");
}

#[test]
fn correct_lines_trims_both_ends() {
    assert_eq!(corrected(" a b c "), "a b c");
}

#[test]
fn correct_lines_keeps_a_blank_line() {
    assert_eq!(
        corrected(
            r"abc
                
                def"
        ),
        "abc\n\ndef"
    );
}

#[test]
fn correct_lines_with_math_and_comments() {
    assert_eq!(
        corrected(
            r"数式$x$や % コメント
                \(y\)など %"
        ),
        "数式$x$や\n\\(y\\)など"
    );
}

#[test]
fn correct_lines_final_line_feed_adds_no_line() {
    assert_eq!(corrected("a\n"), "a");
    assert_eq!(corrected("a\n\n"), "a\n");
    assert_eq!(corrected("\n"), "");
    assert_eq!(corrected("\n\n"), "\n");
    assert_eq!(corrected("\na"), "\na");
}

#[test]
fn correct_lines_handles_carriage_returns() {
    assert_eq!(corrected("a\r\nb\r\n"), "a\nb");
    assert_eq!(corrected("a % c\r\nb"), "a\nb");
    assert_eq!(corrected("a\r"), "a");
}

#[test]
fn correct_lines_trims_every_kind_of_white_space() {
    assert_eq!(corrected("\t a \t"), "a");
    assert_eq!(corrected("\u{3000}a\u{3000}"), "a");
    assert_eq!(corrected("\u{a0}a b\u{2003}"), "a b");
    assert_eq!(corrected("\u{b}\u{c}a"), "a");
}

#[test]
fn correct_lines_keeps_what_is_no_white_space() {
    assert_eq!(corrected("\u{200b}a\u{200b}"), "\u{200b}a\u{200b}");
    assert_eq!(corrected("_a_"), "_a_");
}

#[test]
fn correct_lines_cuts_at_the_first_percent() {
    assert_eq!(corrected("a % b % c"), "a");
    assert_eq!(corrected("a%b\nc%d\n%e\nf"), "a\nc\n\nf");
    assert_eq!(corrected("  % only"), "");
}

#[test]
fn correct_lines_agrees_with_the_standard_library() {
    for input in [
        "",
        "\n",
        "a",
        "a\n",
        " a % b \n\n c\t\r\n%\n\nd  ",
        "x\r",
        "\r\n\r\n",
        "日本語 % コメント\n　全角　",
        "%%\n %",
    ] {
        let expected = input
            .lines()
            .map(|s| s.split('%').next().unwrap())
            .map(|s| s.trim())
            .collect::<Vec<_>>()
            .join("\n");
        assert_eq!(corrected(input), expected);
    }
}

fn paragraphs(input: &str) -> Vec<TexChars> {
    parse_into_paragraphs(input.to_string())
}

#[test]
fn paragraphs_of_nothing() {
    assert_eq!(paragraphs(""), vec![]);
    assert_eq!(paragraphs("\n\n"), vec![]);
    assert_eq!(paragraphs("\n\n\n\n"), vec![]);
}

#[test]
fn paragraphs_odd_line_feeds() {
    assert_eq!(
        paragraphs("a\n\n\nb"),
        vec![TexChars::from_text("a"), TexChars::from_text("\nb")]
    );
    assert_eq!(paragraphs("\n\n\n"), vec![TexChars::from_text("\n")]);
    assert_eq!(paragraphs("\n"), vec![TexChars::from_text("\n")]);
}

#[test]
fn paragraphs_at_the_ends() {
    assert_eq!(paragraphs("a\n\n"), vec![TexChars::from_text("a")]);
    assert_eq!(paragraphs("\n\na"), vec![TexChars::from_text("a")]);
    assert_eq!(paragraphs("a\nb"), vec![TexChars::from_text("a\nb")]);
}

#[test]
fn paragraphs_agree_with_the_standard_library() {
    for input in ["", "a", "a\n\nb\n\n\nc\n\n\n\nd\n", "\n\n\n", "x\n\n", "\n\nx", "\n"] {
        let expected: Vec<TexChars> = input
            .split("\n\n")
            .filter(|x| !x.is_empty())
            .map(TexChars::from_text)
            .collect();
        assert_eq!(paragraphs(input), expected);
    }
}

#[test]
fn length_is_counted_in_characters() {
    let input = "あ".repeat(MAX_INPUT_LENGTH);
    let ok = parse_paragraphs(&input).unwrap();
    assert_eq!(ok.char_count, MAX_INPUT_LENGTH);
    let input = "あ".repeat(MAX_INPUT_LENGTH + 1);
    assert!(matches!(parse_paragraphs(&input), Err(ParseError::TooLongInput)));
}

#[test]
fn length_limit_boundary() {
    let input = "a".repeat(MAX_INPUT_LENGTH);
    let ok = parse_paragraphs(&input).unwrap();
    assert_eq!(ok.char_count, 100_000);

    let input = "a".repeat(MAX_INPUT_LENGTH) + "b";
    assert!(matches!(parse_paragraphs(&input), Err(ParseError::TooLongInput)));
}

#[test]
fn length_is_counted_after_cleaning() {
    let input = "  ".to_string() + &"a".repeat(MAX_INPUT_LENGTH) + "   % a long comment";
    let ok = parse_paragraphs(&input).unwrap();
    assert_eq!(ok.char_count, MAX_INPUT_LENGTH);

    let ok = parse_paragraphs(" a % b \n  c  ").unwrap();
    assert_eq!(ok.char_count, 3);
}

#[test]
fn too_long_input_message() {
    assert_eq!(ParseError::TooLongInput.to_string(), "Too long input.");
}
