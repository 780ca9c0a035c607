//! Token streams, and the normalization that turns a run of tokens into
//! the text of a node.

use std::collections::VecDeque;
use std::str::FromStr;
use vstd::prelude::*;

use crate::tex_char::{classify, TexChar};
use crate::text::{ascii_alphanumeric, is_ascii_alphanumeric};

verus! {

/// The tokens of `text`, one for each character.
pub open spec fn tokens_of(text: Seq<char>) -> Seq<TexChar> {
    Seq::new(text.len(), |i: int| classify(text[i]))
}

/// The text that `tokens` display as, one character for each token.
pub open spec fn displayed(tokens: Seq<TexChar>) -> Seq<char> {
    Seq::new(tokens.len(), |i: int| tokens[i].glyph())
}

/// `tokens` without its leading whitespace tokens.
pub open spec fn strip_head(tokens: Seq<TexChar>) -> Seq<TexChar>
    decreases tokens.len(),
{
    if tokens.len() > 0 && tokens[0] == TexChar::Whitespace {
        strip_head(tokens.drop_first())
    } else {
        tokens
    }
}

/// `tokens` without its trailing whitespace tokens.
pub open spec fn strip_tail(tokens: Seq<TexChar>) -> Seq<TexChar>
    decreases tokens.len(),
{
    if tokens.len() > 0 && tokens.last() == TexChar::Whitespace {
        strip_tail(tokens.drop_last())
    } else {
        tokens
    }
}

/// Whether a line break that follows `token` stands for a space: after a
/// comma, a period, an ASCII letter or digit, `?` or `!`.
pub open spec fn ends_word(token: TexChar) -> bool {
    match token {
        TexChar::Comma | TexChar::Period => true,
        TexChar::Char(c) => is_ascii_alphanumeric(c) || c == '?' || c == '!',
        _ => false,
    }
}

/// `tokens` with every line break either turned into one whitespace
/// token, where the token kept just before it ends a word, or dropped.
pub open spec fn fold_breaks(tokens: Seq<TexChar>) -> Seq<TexChar>
    decreases tokens.len(),
{
    if tokens.len() == 0 {
        Seq::empty()
    } else {
        let kept = fold_breaks(tokens.drop_last());
        if tokens.last() != TexChar::Return {
            kept.push(tokens.last())
        } else if kept.len() > 0 && ends_word(kept.last()) {
            kept.push(TexChar::Whitespace)
        } else {
            kept
        }
    }
}

/// `tokens` with every run of whitespace tokens reduced to one.
pub open spec fn squeeze(tokens: Seq<TexChar>) -> Seq<TexChar>
    decreases tokens.len(),
{
    if tokens.len() == 0 {
        Seq::empty()
    } else {
        let kept = squeeze(tokens.drop_last());
        if tokens.last() == TexChar::Whitespace && kept.len() > 0 && kept.last()
            == TexChar::Whitespace {
            kept
        } else {
            kept.push(tokens.last())
        }
    }
}

/// The normalized tokens of a run: surrounding whitespace stripped, line
/// breaks folded, whitespace runs squeezed, in this order.
pub open spec fn content_tokens(tokens: Seq<TexChar>) -> Seq<TexChar> {
    squeeze(fold_breaks(strip_tail(strip_head(tokens))))
}

/// The normalized text of a run of tokens.
pub open spec fn content_text(tokens: Seq<TexChar>) -> Seq<char> {
    displayed(content_tokens(tokens))
}

proof fn lemma_strip_head_skips(tokens: Seq<TexChar>, n: int)
    requires
        0 <= n <= tokens.len(),
        forall|i: int| 0 <= i < n ==> tokens[i] == TexChar::Whitespace,
        n < tokens.len() ==> tokens[n] != TexChar::Whitespace,
    ensures
        strip_head(tokens) == tokens.skip(n),
    decreases n,
{
    if n == 0 {
        assert(tokens.skip(0) =~= tokens);
    } else {
        let rest = tokens.drop_first();
        lemma_strip_head_skips(rest, n - 1);
        assert(rest.skip(n - 1) =~= tokens.skip(n));
    }
}

proof fn lemma_strip_tail_takes(tokens: Seq<TexChar>, n: int)
    requires
        0 <= n <= tokens.len(),
        forall|i: int| n <= i < tokens.len() ==> tokens[i] == TexChar::Whitespace,
        n > 0 ==> tokens[n - 1] != TexChar::Whitespace,
    ensures
        strip_tail(tokens) == tokens.take(n),
    decreases tokens.len() - n,
{
    if n == tokens.len() {
        assert(tokens.take(n) =~= tokens);
    } else {
        let rest = tokens.drop_last();
        lemma_strip_tail_takes(rest, n);
        assert(rest.take(n) =~= tokens.take(n));
    }
}

/// Whether every token of `tokens` is canonical.
pub open spec fn all_canonical(tokens: Seq<TexChar>) -> bool {
    forall|i: int| 0 <= i < tokens.len() ==> (#[trigger] tokens[i]).is_canonical()
}

/// Whether `tokens` holds no line break.
pub open spec fn no_breaks(tokens: Seq<TexChar>) -> bool {
    forall|i: int| 0 <= i < tokens.len() ==> #[trigger] tokens[i] != TexChar::Return
}

/// Whether two whitespace tokens stand at `i` and just before it.
pub open spec fn run_at(tokens: Seq<TexChar>, i: int) -> bool {
    0 < i < tokens.len() && tokens[i - 1] == TexChar::Whitespace && tokens[i]
        == TexChar::Whitespace
}

/// Whether no two whitespace tokens of `tokens` stand in a row.
pub open spec fn no_runs(tokens: Seq<TexChar>) -> bool {
    forall|i: int| !run_at(tokens, i)
}

/// Whether `tokens` has a whitespace token at neither end.
pub open spec fn tight(tokens: Seq<TexChar>) -> bool {
    tokens.len() > 0 ==> tokens[0] != TexChar::Whitespace && tokens.last()
        != TexChar::Whitespace
}

/// The tokens of the text that canonical tokens display as are these
/// tokens again.
pub proof fn lemma_display_roundtrip_all(tokens: Seq<TexChar>)
    requires
        all_canonical(tokens),
    ensures
        tokens_of(displayed(tokens)) == tokens,
{
    assert forall|i: int| 0 <= i < tokens.len() implies classify(tokens[i].glyph())
        == tokens[i] by {
        assert(tokens[i].is_canonical());
    }
    assert(tokens_of(displayed(tokens)) =~= tokens);
}

/// The tokens of a text are canonical.
pub proof fn lemma_tokens_canonical(text: Seq<char>)
    ensures
        all_canonical(tokens_of(text)),
{
}

proof fn lemma_strip_head_keeps(tokens: Seq<TexChar>)
    requires
        all_canonical(tokens),
    ensures
        all_canonical(strip_head(tokens)),
    decreases tokens.len(),
{
    if tokens.len() > 0 && tokens[0] == TexChar::Whitespace {
        let rest = tokens.drop_first();
        assert forall|i: int| 0 <= i < rest.len() implies (#[trigger] rest[i]).is_canonical() by {
            assert(rest[i] == tokens[i + 1]);
        }
        lemma_strip_head_keeps(rest);
    }
}

proof fn lemma_strip_tail_keeps(tokens: Seq<TexChar>)
    requires
        all_canonical(tokens),
    ensures
        all_canonical(strip_tail(tokens)),
    decreases tokens.len(),
{
    if tokens.len() > 0 && tokens.last() == TexChar::Whitespace {
        let rest = tokens.drop_last();
        assert forall|i: int| 0 <= i < rest.len() implies (#[trigger] rest[i]).is_canonical() by {
            assert(rest[i] == tokens[i]);
        }
        lemma_strip_tail_keeps(rest);
    }
}

/// Folding the line breaks leaves none, and keeps canonical tokens
/// canonical.
pub proof fn lemma_fold_breaks_form(tokens: Seq<TexChar>)
    ensures
        no_breaks(fold_breaks(tokens)),
        all_canonical(tokens) ==> all_canonical(fold_breaks(tokens)),
    decreases tokens.len(),
{
    if tokens.len() > 0 {
        let front = tokens.drop_last();
        lemma_fold_breaks_form(front);
        if all_canonical(tokens) {
            assert forall|i: int| 0 <= i < front.len() implies (
            #[trigger] front[i]).is_canonical() by {
                assert(front[i] == tokens[i]);
            }
            assert(tokens[tokens.len() - 1].is_canonical());
        }
    }
}

/// Squeezing leaves no two whitespace tokens in a row, brings in no line
/// break, and keeps canonical tokens canonical.
pub proof fn lemma_squeeze_form(tokens: Seq<TexChar>)
    ensures
        no_runs(squeeze(tokens)),
        no_breaks(tokens) ==> no_breaks(squeeze(tokens)),
        all_canonical(tokens) ==> all_canonical(squeeze(tokens)),
    decreases tokens.len(),
{
    if tokens.len() > 0 {
        let front = tokens.drop_last();
        lemma_squeeze_form(front);
        let kept = squeeze(front);
        let out = squeeze(tokens);
        assert forall|i: int| !run_at(out, i) by {
            if 0 < i < kept.len() {
                assert(!run_at(kept, i));
            }
        }
        if no_breaks(tokens) {
            assert forall|i: int| 0 <= i < front.len() implies #[trigger] front[i]
                != TexChar::Return by {
                assert(front[i] == tokens[i]);
            }
            assert(tokens[tokens.len() - 1] != TexChar::Return);
        }
        if all_canonical(tokens) {
            assert forall|i: int| 0 <= i < front.len() implies (
            #[trigger] front[i]).is_canonical() by {
                assert(front[i] == tokens[i]);
            }
            assert(tokens[tokens.len() - 1].is_canonical());
        }
    }
}

proof fn lemma_fold_breaks_fixed(tokens: Seq<TexChar>)
    requires
        no_breaks(tokens),
    ensures
        fold_breaks(tokens) == tokens,
    decreases tokens.len(),
{
    if tokens.len() > 0 {
        let front = tokens.drop_last();
        assert forall|i: int| 0 <= i < front.len() implies #[trigger] front[i]
            != TexChar::Return by {
            assert(front[i] == tokens[i]);
        }
        lemma_fold_breaks_fixed(front);
        assert(tokens[tokens.len() - 1] != TexChar::Return);
        assert(front.push(tokens.last()) =~= tokens);
    } else {
        assert(fold_breaks(tokens) =~= tokens);
    }
}

proof fn lemma_squeeze_fixed(tokens: Seq<TexChar>)
    requires
        no_runs(tokens),
    ensures
        squeeze(tokens) == tokens,
    decreases tokens.len(),
{
    if tokens.len() > 0 {
        let front = tokens.drop_last();
        assert forall|i: int| !run_at(front, i) by {
            assert(!run_at(tokens, i));
        }
        lemma_squeeze_fixed(front);
        assert(!run_at(tokens, tokens.len() - 1));
        assert(front.push(tokens.last()) =~= tokens);
    } else {
        assert(squeeze(tokens) =~= tokens);
    }
}

/// Normalizing what was normalized changes nothing, where the
/// normalized tokens have whitespace at neither end: the text that a run
/// of canonical tokens is normalized to, read as tokens and normalized
/// once more, is that text. (A line break at an end of the run can leave
/// whitespace there, which a second pass strips.)
pub proof fn lemma_content_fixed_point(tokens: Seq<TexChar>)
    requires
        all_canonical(tokens),
        tight(content_tokens(tokens)),
    ensures
        content_text(tokens_of(content_text(tokens))) == content_text(tokens),
{
    let stripped = strip_tail(strip_head(tokens));
    let folded = fold_breaks(stripped);
    let normal = squeeze(folded);
    lemma_strip_head_keeps(tokens);
    lemma_strip_tail_keeps(strip_head(tokens));
    lemma_fold_breaks_form(stripped);
    lemma_squeeze_form(folded);
    lemma_display_roundtrip_all(normal);
    assert(strip_head(normal) == normal);
    assert(strip_tail(normal) == normal);
    lemma_fold_breaks_fixed(normal);
    lemma_squeeze_fixed(normal);
}

/// An ordered stream of tokens that is consumed from the front.
#[derive(Debug, PartialEq, Eq)]
pub struct TexChars {
    queue: VecDeque<TexChar>,
}

impl View for TexChars {
    type V = Seq<TexChar>;

    /// The tokens not yet consumed, the next one first.
    closed spec fn view(&self) -> Seq<TexChar> {
        self.queue@
    }
}

impl TexChars {
    /// The stream of the tokens of `text`.
    pub fn from_text(text: &str) -> (stream: TexChars)
        ensures
            stream@ == tokens_of(text@),
    {
        let mut queue: VecDeque<TexChar> = VecDeque::new();
        for c in it: text.chars()
            invariant
                it.seq() == text@,
                queue@ == tokens_of(text@.take(it.index() as int)),
        {
            queue.push_back(TexChar::from(c));
            assert(queue@ =~= tokens_of(text@.take(it.index() + 1)));
        }
        assert(text@.take(text@.len() as int) =~= text@);
        TexChars { queue }
    }

    /// The stream of `tokens`, the first of them next.
    pub fn from_iter(tokens: Vec<TexChar>) -> (stream: TexChars)
        ensures
            stream@ == tokens@,
    {
        let mut queue: VecDeque<TexChar> = VecDeque::new();
        let mut i: usize = 0;
        while i < tokens.len()
            invariant
                i <= tokens.len(),
                queue@ == tokens@.take(i as int),
            decreases tokens.len() - i,
        {
            queue.push_back(tokens[i]);
            i = i + 1;
            assert(queue@ =~= tokens@.take(i as int));
        }
        assert(tokens@.take(tokens@.len() as int) =~= tokens@);
        TexChars { queue }
    }

    /// Whether the next token is `c`.
    pub fn next_is(&self, c: TexChar) -> (b: bool)
        ensures
            b == (self@.len() > 0 && self@[0] == c),
    {
        self.queue.len() > 0 && self.queue[0] == c
    }

    /// Whether the next two tokens are `c1` and `c2`, in this order.
    pub fn next_isis(&self, c1: TexChar, c2: TexChar) -> (b: bool)
        ensures
            b == (self@.len() > 1 && self@[0] == c1 && self@[1] == c2),
    {
        self.queue.len() > 1 && self.queue[0] == c1 && self.queue[1] == c2
    }

    /// The next token, which stays in the stream.
    pub fn read_next(&self) -> (front: Option<TexChar>)
        ensures
            front == (if self@.len() > 0 {
                Some(self@[0])
            } else {
                None
            }),
    {
        if self.queue.len() > 0 {
            Some(self.queue[0])
        } else {
            None
        }
    }

    /// Takes the next token out of the stream.
    pub fn next(&mut self) -> (front: Option<TexChar>)
        ensures
            old(self)@.len() == 0 ==> front is None && final(self)@ == old(self)@,
            old(self)@.len() > 0 ==> front == Some(old(self)@[0]) && final(self)@ == old(
                self,
            )@.drop_first(),
    {
        let front = self.queue.pop_front();
        assert(old(self)@.len() > 0 ==> self.queue@ =~= old(self)@.drop_first());
        front
    }

    /// Drains the stream into its normalized text.
    pub fn into_content_string(self) -> (text: String)
        ensures
            text@ == content_text(self@),
    {
        let queue = self.queue;
        let ghost all = queue@;
        let len = queue.len();

        let mut start: usize = 0;
        while start < len && queue[start] == TexChar::Whitespace
            invariant
                start <= len,
                len == queue@.len(),
                forall|i: int| 0 <= i < start ==> queue@[i] == TexChar::Whitespace,
            decreases len - start,
        {
            start = start + 1;
        }
        let mut end: usize = len;
        while end > start && queue[end - 1] == TexChar::Whitespace
            invariant
                start <= end <= len,
                len == queue@.len(),
                forall|i: int| end <= i < len ==> queue@[i] == TexChar::Whitespace,
            decreases end - start,
        {
            end = end - 1;
        }
        let ghost core = all.subrange(start as int, end as int);
        proof {
            lemma_strip_head_skips(all, start as int);
            let headless = all.skip(start as int);
            lemma_strip_tail_takes(headless, end - start);
            assert(headless.take(end - start) =~= core);
        }

        let mut folded: Vec<TexChar> = Vec::new();
        let mut i: usize = start;
        while i < end
            invariant
                start <= i <= end <= len,
                len == queue@.len(),
                core == queue@.subrange(start as int, end as int),
                folded@ == fold_breaks(core.take(i - start)),
            decreases end - i,
        {
            let c = queue[i];
            proof {
                let part = core.take(i - start + 1);
                assert(part.drop_last() =~= core.take(i - start));
                assert(part.last() == c);
            }
            if c == TexChar::Return {
                if folded.len() > 0 {
                    match folded[folded.len() - 1] {
                        TexChar::Comma | TexChar::Period => {
                            folded.push(TexChar::Whitespace);
                        },
                        TexChar::Char(c) => {
                            if ascii_alphanumeric(c) || c == '?' || c == '!' {
                                folded.push(TexChar::Whitespace);
                            }
                        },
                        _ => {},
                    }
                }
            } else {
                folded.push(c);
            }
            i = i + 1;
        }
        assert(core.take(end - start) =~= core);

        let mut squeezed: Vec<TexChar> = Vec::new();
        let mut j: usize = 0;
        while j < folded.len()
            invariant
                j <= folded.len(),
                squeezed@ == squeeze(folded@.take(j as int)),
            decreases folded.len() - j,
        {
            let c = folded[j];
            proof {
                let part = folded@.take(j + 1);
                assert(part.drop_last() =~= folded@.take(j as int));
                assert(part.last() == c);
            }
            if !(c == TexChar::Whitespace && squeezed.len() > 0 && squeezed[squeezed.len() - 1]
                == TexChar::Whitespace) {
                squeezed.push(c);
            }
            j = j + 1;
        }
        assert(folded@.take(folded@.len() as int) =~= folded@);

        let mut text = String::new();
        let mut k: usize = 0;
        while k < squeezed.len()
            invariant
                k <= squeezed.len(),
                text@ == displayed(squeezed@.take(k as int)),
            decreases squeezed.len() - k,
        {
            text.push(squeezed[k].to_char());
            k = k + 1;
            assert(text@ =~= displayed(squeezed@.take(k as int)));
        }
        assert(squeezed@.take(squeezed@.len() as int) =~= squeezed@);
        text
    }
}

impl FromStr for TexChars {
    type Err = ();

    fn from_str(s: &str) -> (stream: Result<Self, Self::Err>)
        ensures
            stream matches Ok(cs) && cs@ == tokens_of(s@),
    {
        Ok(TexChars::from_text(s))
    }
}

} // verus!
