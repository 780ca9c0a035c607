//! Math regions: the four delimiter styles and what parsing one yields.

use vstd::prelude::*;

use crate::tex_char::TexChar;
use crate::tex_chars::TexChars;

verus! {

/// The delimiter style of a math region.
#[derive(Debug, PartialEq, Eq, Structural, Clone, Copy)]
pub enum MathDisc {
    /// `\(` ... `\)`
    BsParen,
    /// `\[` ... `\]`
    BsBracket,
    /// `$$` ... `$$`
    DoubleDollar,
    /// `$` ... `$`
    SingleDollar,
}

/// Whether `tokens` begins with `marker`.
pub open spec fn starts_with(tokens: Seq<TexChar>, marker: Seq<TexChar>) -> bool {
    marker.len() <= tokens.len() && tokens.take(marker.len() as int) == marker
}

impl MathDisc {
    /// The tokens that open a region of this style.
    pub open spec fn begin_marker(self) -> Seq<TexChar> {
        match self {
            MathDisc::BsParen => seq![TexChar::Backslash, TexChar::LParen],
            MathDisc::BsBracket => seq![TexChar::Backslash, TexChar::LBracket],
            MathDisc::DoubleDollar => seq![TexChar::Dollar, TexChar::Dollar],
            MathDisc::SingleDollar => seq![TexChar::Dollar],
        }
    }

    /// The tokens that close a region of this style.
    pub open spec fn end_marker(self) -> Seq<TexChar> {
        match self {
            MathDisc::BsParen => seq![TexChar::Backslash, TexChar::RParen],
            MathDisc::BsBracket => seq![TexChar::Backslash, TexChar::RBracket],
            MathDisc::DoubleDollar => seq![TexChar::Dollar, TexChar::Dollar],
            MathDisc::SingleDollar => seq![TexChar::Dollar],
        }
    }

    /// How many tokens each of the two markers of this style has.
    pub open spec fn marker_len(self) -> nat {
        match self {
            MathDisc::SingleDollar => 1,
            _ => 2,
        }
    }

    /// Whether `tokens` begins with the opening marker of this style.
    pub open spec fn begins(self, tokens: Seq<TexChar>) -> bool {
        starts_with(tokens, self.begin_marker())
    }

    /// Whether `tokens` begins with the closing marker of this style.
    pub open spec fn ends(self, tokens: Seq<TexChar>) -> bool {
        starts_with(tokens, self.end_marker())
    }

    /// The style whose opening marker `tokens` begins with, if any. The
    /// styles are tried in a fixed order, the double dollar before the
    /// single one, whose marker is a prefix of the other's.
    pub open spec fn begin_of(tokens: Seq<TexChar>) -> Option<MathDisc> {
        if MathDisc::BsParen.begins(tokens) {
            Some(MathDisc::BsParen)
        } else if MathDisc::BsBracket.begins(tokens) {
            Some(MathDisc::BsBracket)
        } else if MathDisc::DoubleDollar.begins(tokens) {
            Some(MathDisc::DoubleDollar)
        } else if MathDisc::SingleDollar.begins(tokens) {
            Some(MathDisc::SingleDollar)
        } else {
            None
        }
    }

    /// Whether a region of this style is set within the line: the
    /// single dollar and the parenthesis.
    pub open spec fn inline(self) -> bool {
        self == MathDisc::SingleDollar || self == MathDisc::BsParen
    }

    /// Whether a region of this style is set on a line of its own: the
    /// double dollar and the bracket.
    pub open spec fn display(self) -> bool {
        self == MathDisc::DoubleDollar || self == MathDisc::BsBracket
    }

    /// Whether a region of this style is set within the line.
    pub fn is_inline(&self) -> (b: bool)
        ensures
            b == self.inline(),
    {
        matches!(self, MathDisc::SingleDollar | MathDisc::BsParen)
    }

    /// Whether a region of this style is set on a line of its own.
    pub fn is_display(&self) -> (b: bool)
        ensures
            b == self.display(),
            b == !self.inline(),
    {
        matches!(self, MathDisc::DoubleDollar | MathDisc::BsBracket)
    }

    /// The style that the stream opens a region of, if any. Nothing is
    /// consumed.
    pub fn match_begin(cs: &TexChars) -> (disc: Option<MathDisc>)
        ensures
            disc == MathDisc::begin_of(cs@),
    {
        proof {
            lemma_marker_prefix(cs@);
        }
        if cs.next_isis(TexChar::Backslash, TexChar::LParen) {
            return Some(MathDisc::BsParen);
        }
        if cs.next_isis(TexChar::Backslash, TexChar::LBracket) {
            return Some(MathDisc::BsBracket);
        }
        if cs.next_isis(TexChar::Dollar, TexChar::Dollar) {
            return Some(MathDisc::DoubleDollar);
        }
        if cs.next_is(TexChar::Dollar) {
            return Some(MathDisc::SingleDollar);
        }
        None
    }

    /// Whether the stream stands at the closing marker of this style.
    pub fn match_end(&self, cs: &TexChars) -> (b: bool)
        ensures
            b == self.ends(cs@),
    {
        proof {
            lemma_marker_prefix(cs@);
        }
        match self {
            MathDisc::BsParen => cs.next_isis(TexChar::Backslash, TexChar::RParen),
            MathDisc::BsBracket => cs.next_isis(TexChar::Backslash, TexChar::RBracket),
            MathDisc::DoubleDollar => cs.next_isis(TexChar::Dollar, TexChar::Dollar),
            MathDisc::SingleDollar => cs.next_is(TexChar::Dollar),
        }
    }

    /// Takes the opening marker of this style out of the stream: as many
    /// tokens as the marker has, whatever they are.
    pub fn consume_begin(&self, cs: &mut TexChars)
        requires
            old(cs)@.len() >= self.marker_len(),
        ensures
            final(cs)@ == old(cs)@.skip(self.marker_len() as int),
    {
        match self {
            MathDisc::BsParen | MathDisc::BsBracket | MathDisc::DoubleDollar => {
                cs.next();
                cs.next();
                assert(cs@ =~= old(cs)@.skip(2));
            },
            MathDisc::SingleDollar => {
                cs.next();
                assert(cs@ =~= old(cs)@.skip(1));
            },
        }
    }

    /// Takes the closing marker of this style out of the stream, which
    /// has the length of the opening one.
    pub fn consume_end(&self, cs: &mut TexChars)
        requires
            old(cs)@.len() >= self.marker_len(),
        ensures
            final(cs)@ == old(cs)@.skip(self.marker_len() as int),
    {
        self.consume_begin(cs);
    }
}

/// Whether the first token of `tokens` is `a`.
pub open spec fn first_is(tokens: Seq<TexChar>, a: TexChar) -> bool {
    tokens.len() > 0 && tokens[0] == a
}

/// Whether the first two tokens of `tokens` are `a` and `b`.
pub open spec fn first_two_are(tokens: Seq<TexChar>, a: TexChar, b: TexChar) -> bool {
    tokens.len() > 1 && tokens[0] == a && tokens[1] == b
}

proof fn lemma_starts_with_one(tokens: Seq<TexChar>, a: TexChar)
    ensures
        starts_with(tokens, seq![a]) <==> first_is(tokens, a),
{
    if tokens.len() > 0 {
        if tokens[0] == a {
            assert(tokens.take(1) =~= seq![a]);
        } else {
            assert(tokens.take(1)[0] == tokens[0]);
        }
    }
}

proof fn lemma_starts_with_two(tokens: Seq<TexChar>, a: TexChar, b: TexChar)
    ensures
        starts_with(tokens, seq![a, b]) <==> first_two_are(tokens, a, b),
{
    if tokens.len() > 1 {
        if tokens[0] == a && tokens[1] == b {
            assert(tokens.take(2) =~= seq![a, b]);
        } else {
            assert(tokens.take(2)[0] == tokens[0]);
            assert(tokens.take(2)[1] == tokens[1]);
        }
    }
}

/// What it means for a sequence to begin with each of the markers, token
/// by token.
pub proof fn lemma_marker_prefix(tokens: Seq<TexChar>)
    ensures
        MathDisc::BsParen.begins(tokens) <==> first_two_are(
            tokens,
            TexChar::Backslash,
            TexChar::LParen,
        ),
        MathDisc::BsBracket.begins(tokens) <==> first_two_are(
            tokens,
            TexChar::Backslash,
            TexChar::LBracket,
        ),
        MathDisc::DoubleDollar.begins(tokens) <==> first_two_are(
            tokens,
            TexChar::Dollar,
            TexChar::Dollar,
        ),
        MathDisc::SingleDollar.begins(tokens) <==> first_is(tokens, TexChar::Dollar),
        MathDisc::BsParen.ends(tokens) <==> first_two_are(
            tokens,
            TexChar::Backslash,
            TexChar::RParen,
        ),
        MathDisc::BsBracket.ends(tokens) <==> first_two_are(
            tokens,
            TexChar::Backslash,
            TexChar::RBracket,
        ),
        MathDisc::DoubleDollar.ends(tokens) <==> first_two_are(
            tokens,
            TexChar::Dollar,
            TexChar::Dollar,
        ),
        MathDisc::SingleDollar.ends(tokens) <==> first_is(tokens, TexChar::Dollar),
{
    lemma_starts_with_two(tokens, TexChar::Backslash, TexChar::LParen);
    lemma_starts_with_two(tokens, TexChar::Backslash, TexChar::LBracket);
    lemma_starts_with_two(tokens, TexChar::Backslash, TexChar::RParen);
    lemma_starts_with_two(tokens, TexChar::Backslash, TexChar::RBracket);
    lemma_starts_with_two(tokens, TexChar::Dollar, TexChar::Dollar);
    lemma_starts_with_one(tokens, TexChar::Dollar);
}

/// Input that begins with two dollars opens a double-dollar region: the
/// single dollar is never chosen for it.
pub proof fn lemma_double_dollar_first(tokens: Seq<TexChar>)
    requires
        tokens.len() >= 2,
        tokens[0] == TexChar::Dollar,
        tokens[1] == TexChar::Dollar,
    ensures
        MathDisc::begin_of(tokens) == Some(MathDisc::DoubleDollar),
{
    lemma_marker_prefix(tokens);
}

/// A math region as parsed: its style and its normalized content.
#[derive(Debug)]
pub struct MathExprInfo {
    disc: MathDisc,
    content: String,
}

/// The outcome of parsing a math region: `Matched` where the closing
/// marker was found, `Unmatched` where the input ended first. Either way
/// the content read so far is kept.
#[derive(Debug)]
pub enum MathExprParseResult {
    Matched(MathExprInfo),
    Unmatched(MathExprInfo),
}

/// A math region as a value: whether it was closed, its delimiter style
/// and its content.
pub struct MathExprView {
    pub matched: bool,
    pub disc: MathDisc,
    pub content: Seq<char>,
}

impl View for MathExprInfo {
    type V = (MathDisc, Seq<char>);

    closed spec fn view(&self) -> (MathDisc, Seq<char>) {
        (self.disc, self.content@)
    }
}

impl View for MathExprParseResult {
    type V = MathExprView;

    open spec fn view(&self) -> MathExprView {
        match self {
            MathExprParseResult::Matched(info) => MathExprView {
                matched: true,
                disc: info@.0,
                content: info@.1,
            },
            MathExprParseResult::Unmatched(info) => MathExprView {
                matched: false,
                disc: info@.0,
                content: info@.1,
            },
        }
    }
}

impl MathExprParseResult {
    /// A region that was closed.
    pub fn ok(content: String, disc: MathDisc) -> (result: MathExprParseResult)
        ensures
            result@ == (MathExprView { matched: true, disc, content: content@ }),
    {
        MathExprParseResult::Matched(MathExprInfo { content, disc })
    }

    /// A region that the end of the input cut short.
    pub fn err(content: String, disc: MathDisc) -> (result: MathExprParseResult)
        ensures
            result@ == (MathExprView { matched: false, disc, content: content@ }),
    {
        MathExprParseResult::Unmatched(MathExprInfo { content, disc })
    }

    /// Whether the region was closed.
    pub fn is_ok(&self) -> (b: bool)
        ensures
            b == self@.matched,
    {
        matches!(self, MathExprParseResult::Matched(_))
    }

    /// Whether the region is set within the line.
    pub fn is_inline(&self) -> (b: bool)
        ensures
            b == self@.disc.inline(),
    {
        match self {
            MathExprParseResult::Matched(info) => info.disc.is_inline(),
            MathExprParseResult::Unmatched(info) => info.disc.is_inline(),
        }
    }

    /// Whether the region is set on a line of its own.
    pub fn is_display(&self) -> (b: bool)
        ensures
            b == self@.disc.display(),
            b == !self@.disc.inline(),
    {
        match self {
            MathExprParseResult::Matched(info) => info.disc.is_display(),
            MathExprParseResult::Unmatched(info) => info.disc.is_display(),
        }
    }

    /// The delimiter style of the region.
    pub fn disc(&self) -> (disc: MathDisc)
        ensures
            disc == self@.disc,
    {
        match self {
            MathExprParseResult::Matched(info) => info.disc,
            MathExprParseResult::Unmatched(info) => info.disc,
        }
    }

    /// The content of the region, closed or not.
    pub fn content(self) -> (content: String)
        ensures
            content@ == self@.content,
    {
        match self {
            MathExprParseResult::Matched(info) => info.content,
            MathExprParseResult::Unmatched(info) => info.content,
        }
    }

    /// The content of the region, closed or not, by reference.
    pub fn content_ref(&self) -> (content: &String)
        ensures
            content@ == self@.content,
    {
        match self {
            MathExprParseResult::Matched(info) => &info.content,
            MathExprParseResult::Unmatched(info) => &info.content,
        }
    }
}

} // verus!
