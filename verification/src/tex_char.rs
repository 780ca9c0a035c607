//! Tokens: the classification of single characters.

use vstd::prelude::*;
use vstd::std_specs::convert::FromSpecImpl;

verus! {

/// One classified character of the input.
#[derive(Debug, PartialEq, Eq, Structural, Clone, Copy)]
pub enum TexChar {
    Backslash,
    Whitespace,
    LParen,
    RParen,
    LBracket,
    RBracket,
    Dollar,
    Return,
    Period,
    Comma,
    Char(char),
}

/// The token of a character. Every character has exactly one, and it
/// depends on nothing but the character.
pub open spec fn classify(c: char) -> TexChar {
    if c == ' ' {
        TexChar::Whitespace
    } else if c == '.' {
        TexChar::Period
    } else if c == ',' {
        TexChar::Comma
    } else if c == '\\' {
        TexChar::Backslash
    } else if c == '(' {
        TexChar::LParen
    } else if c == ')' {
        TexChar::RParen
    } else if c == '[' {
        TexChar::LBracket
    } else if c == ']' {
        TexChar::RBracket
    } else if c == '\n' {
        TexChar::Return
    } else if c == '$' {
        TexChar::Dollar
    } else {
        TexChar::Char(c)
    }
}

impl From<char> for TexChar {
    /// The token of `c`, which is `classify(c)`.
    fn from(c: char) -> (token: TexChar) {
        match c {
            ' ' => TexChar::Whitespace,
            '.' => TexChar::Period,
            ',' => TexChar::Comma,
            '\\' => TexChar::Backslash,
            '(' => TexChar::LParen,
            ')' => TexChar::RParen,
            '[' => TexChar::LBracket,
            ']' => TexChar::RBracket,
            '\n' => TexChar::Return,
            '$' => TexChar::Dollar,
            _ => TexChar::Char(c),
        }
    }
}

impl FromSpecImpl<char> for TexChar {
    open spec fn obeys_from_spec() -> bool {
        true
    }

    open spec fn from_spec(c: char) -> TexChar {
        classify(c)
    }
}

impl TexChar {
    /// The character that the token displays as.
    pub open spec fn glyph(self) -> char {
        match self {
            TexChar::Char(c) => c,
            TexChar::Backslash => '\\',
            TexChar::Whitespace => ' ',
            TexChar::LParen => '(',
            TexChar::RParen => ')',
            TexChar::LBracket => '[',
            TexChar::RBracket => ']',
            TexChar::Return => '\n',
            TexChar::Dollar => '$',
            TexChar::Period => '.',
            TexChar::Comma => ',',
        }
    }

    /// Whether the token is one that classification produces: every
    /// token but a `Char` that carries one of the ten characters with a
    /// token of their own.
    pub open spec fn is_canonical(self) -> bool {
        self matches TexChar::Char(c) ==> classify(c) is Char
    }

    /// The character that the token displays as.
    pub fn to_char(&self) -> (c: char)
        ensures
            c == self.glyph(),
    {
        match self {
            TexChar::Char(c) => *c,
            TexChar::Backslash => '\\',
            TexChar::Whitespace => ' ',
            TexChar::LParen => '(',
            TexChar::RParen => ')',
            TexChar::LBracket => '[',
            TexChar::RBracket => ']',
            TexChar::Return => '\n',
            TexChar::Dollar => '$',
            TexChar::Period => '.',
            TexChar::Comma => ',',
        }
    }

    /// The text that the token displays as: its one character.
    pub fn to_string(&self) -> (text: String)
        ensures
            text@ == seq![self.glyph()],
    {
        let mut text = String::new();
        text.push(self.to_char());
        assert(text@ =~= seq![self.glyph()]);
        text
    }
}

/// Classification yields canonical tokens, and a token displays as the
/// character it was classified from.
pub proof fn lemma_classify_canonical(c: char)
    ensures
        classify(c).is_canonical(),
        classify(c).glyph() == c,
{
}

/// Displaying a canonical token and classifying what is displayed gives
/// the token back. This holds of the line break too.
pub proof fn lemma_display_roundtrip(token: TexChar)
    requires
        token.is_canonical(),
    ensures
        classify(token.glyph()) == token,
{
}

} // verus!
