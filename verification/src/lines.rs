//! The text before it is parsed: how its lines are cleaned and where
//! its paragraphs lie.

use vstd::prelude::*;

use crate::text::white_space;

verus! {

/// How many characters of `text` come before the first `mark`: all of
/// them where there is none.
pub open spec fn len_until(text: Seq<char>, mark: char) -> nat
    decreases text.len(),
{
    if text.len() == 0 || text[0] == mark {
        0
    } else {
        1 + len_until(text.drop_first(), mark)
    }
}

/// The lines of `text`: what stands between its line feeds. A line feed
/// at the very end is followed by no further line.
pub open spec fn lines_of(text: Seq<char>) -> Seq<Seq<char>>
    decreases text.len(),
{
    if text.len() == 0 {
        Seq::empty()
    } else {
        let n = len_until(text, '\n');
        if n < text.len() {
            seq![text.take(n as int)] + lines_of(text.skip(n as int + 1))
        } else {
            seq![text]
        }
    }
}

/// `line` without its leading characters of the property White_Space.
pub open spec fn trim_head(line: Seq<char>) -> Seq<char>
    decreases line.len(),
{
    if line.len() > 0 && white_space(line[0]) {
        trim_head(line.drop_first())
    } else {
        line
    }
}

/// `line` without its trailing characters of the property White_Space.
pub open spec fn trim_tail(line: Seq<char>) -> Seq<char>
    decreases line.len(),
{
    if line.len() > 0 && white_space(line.last()) {
        trim_tail(line.drop_last())
    } else {
        line
    }
}

/// A line as the parser reads it: what stands before its first `%`,
/// without the white space around it.
pub open spec fn clean_line(line: Seq<char>) -> Seq<char> {
    trim_tail(trim_head(line.take(len_until(line, '%') as int)))
}

/// `lines` with one line feed between each two of them.
pub open spec fn joined(lines: Seq<Seq<char>>) -> Seq<char>
    decreases lines.len(),
{
    if lines.len() == 0 {
        Seq::empty()
    } else if lines.len() == 1 {
        lines[0]
    } else {
        joined(lines.drop_last()) + seq!['\n'] + lines.last()
    }
}

/// Each line of `lines`, cleaned.
pub open spec fn clean_lines(lines: Seq<Seq<char>>) -> Seq<Seq<char>> {
    Seq::new(lines.len(), |i: int| clean_line(lines[i]))
}

/// The text that is parsed for `text`: its lines, each without its
/// comment and the white space around it, joined again.
pub open spec fn normalized(text: Seq<char>) -> Seq<char> {
    joined(clean_lines(lines_of(text)))
}

/// The first `mark` stands at `n` where none stands before and one
/// stands there, or where `n` is the end and none stands anywhere.
pub proof fn lemma_len_until(text: Seq<char>, mark: char, n: int)
    requires
        0 <= n <= text.len(),
        forall|i: int| 0 <= i < n ==> text[i] != mark,
        n < text.len() ==> text[n] == mark,
    ensures
        len_until(text, mark) == n,
    decreases n,
{
    if n > 0 {
        lemma_len_until(text.drop_first(), mark, n - 1);
    }
}

/// Trimming the head skips the `n` leading characters of white space.
pub proof fn lemma_trim_head(line: Seq<char>, n: int)
    requires
        0 <= n <= line.len(),
        forall|i: int| 0 <= i < n ==> white_space(line[i]),
        n < line.len() ==> !white_space(line[n]),
    ensures
        trim_head(line) == line.skip(n),
    decreases n,
{
    if n == 0 {
        assert(line.skip(0) =~= line);
    } else {
        let rest = line.drop_first();
        lemma_trim_head(rest, n - 1);
        assert(rest.skip(n - 1) =~= line.skip(n));
    }
}

/// Trimming the tail keeps what stands before the trailing characters
/// of white space, which begin at `n`.
pub proof fn lemma_trim_tail(line: Seq<char>, n: int)
    requires
        0 <= n <= line.len(),
        forall|i: int| n <= i < line.len() ==> white_space(line[i]),
        n > 0 ==> !white_space(line[n - 1]),
    ensures
        trim_tail(line) == line.take(n),
    decreases line.len() - n,
{
    if n == line.len() {
        assert(line.take(n) =~= line);
    } else {
        let rest = line.drop_last();
        lemma_trim_tail(rest, n);
        assert(rest.take(n) =~= line.take(n));
    }
}

/// Whether a blank line, two line feeds in a row, begins at `i`.
pub open spec fn blank_at(text: Seq<char>, i: int) -> bool {
    0 <= i && i + 1 < text.len() && text[i] == '\n' && text[i + 1] == '\n'
}

/// How many characters of `text` come before its first blank line: all
/// of them where there is none.
pub open spec fn len_until_blank(text: Seq<char>) -> nat
    decreases text.len(),
{
    if text.len() == 0 || blank_at(text, 0) {
        0
    } else {
        1 + len_until_blank(text.drop_first())
    }
}

/// The paragraphs of `text`: what stands between its blank lines, found
/// from left to right, where that is not empty.
pub open spec fn paragraphs_of(text: Seq<char>) -> Seq<Seq<char>>
    decreases text.len(),
{
    let n = len_until_blank(text);
    let head = if n > 0 {
        seq![text.take(n as int)]
    } else {
        Seq::empty()
    };
    if n + 2 <= text.len() {
        head + paragraphs_of(text.skip(n as int + 2))
    } else {
        head
    }
}

/// The first blank line begins at `n` where none begins before and one
/// begins there, or where `n` is the end and none begins anywhere.
pub proof fn lemma_len_until_blank(text: Seq<char>, n: int)
    requires
        0 <= n <= text.len(),
        forall|i: int| 0 <= i < n ==> !blank_at(text, i),
        n < text.len() ==> blank_at(text, n),
    ensures
        len_until_blank(text) == n,
    decreases n,
{
    if n > 0 {
        let rest = text.drop_first();
        assert forall|i: int| 0 <= i < n - 1 implies !blank_at(rest, i) by {
            assert(!blank_at(text, i + 1));
        }
        lemma_len_until_blank(rest, n - 1);
    }
}

/// How many items the sequences of `parts` have together.
pub open spec fn total_len<T>(parts: Seq<Seq<T>>) -> nat
    decreases parts.len(),
{
    if parts.len() == 0 {
        0
    } else {
        total_len(parts.drop_last()) + parts.last().len()
    }
}

/// The items of two sequences of parts add up.
pub proof fn lemma_total_len_concat<T>(a: Seq<Seq<T>>, b: Seq<Seq<T>>)
    ensures
        total_len(a + b) == total_len(a) + total_len(b),
    decreases b.len(),
{
    if b.len() == 0 {
        assert(a + b =~= a);
    } else {
        lemma_total_len_concat(a, b.drop_last());
        assert((a + b).drop_last() =~= a + b.drop_last());
    }
}

/// Parts of the same lengths have the same number of items together.
pub proof fn lemma_total_len_alike<A, B>(a: Seq<Seq<A>>, b: Seq<Seq<B>>)
    requires
        a.len() == b.len(),
        forall|i: int| 0 <= i < a.len() ==> (#[trigger] a[i]).len() == b[i].len(),
    ensures
        total_len(a) == total_len(b),
    decreases a.len(),
{
    if a.len() > 0 {
        lemma_total_len_alike(a.drop_last(), b.drop_last());
    }
}

/// The paragraphs of a text are not empty, and together they have no
/// more characters than the text.
pub proof fn lemma_paragraphs_fit(text: Seq<char>)
    ensures
        total_len(paragraphs_of(text)) <= text.len(),
        forall|i: int| 0 <= i < paragraphs_of(text).len() ==> (#[trigger] paragraphs_of(text)[i]).len() > 0,
    decreases text.len(),
{
    let n = len_until_blank(text);
    lemma_len_until_blank_bound(text);
    let head = if n > 0 {
        seq![text.take(n as int)]
    } else {
        Seq::<Seq<char>>::empty()
    };
    assert(total_len(head) == n) by {
        if n > 0 {
            assert(head.drop_last() =~= Seq::<Seq<char>>::empty());
            assert(total_len(head.drop_last()) == 0);
            assert(head.last().len() == n);
        }
    }
    if n + 2 <= text.len() {
        let tail = paragraphs_of(text.skip(n as int + 2));
        lemma_paragraphs_fit(text.skip(n as int + 2));
        lemma_total_len_concat(head, tail);
    } else {
        assert(paragraphs_of(text) =~= head);
    }
}

/// The first blank line begins within the text or at its end.
pub proof fn lemma_len_until_blank_bound(text: Seq<char>)
    ensures
        len_until_blank(text) <= text.len(),
    decreases text.len(),
{
    if !(text.len() == 0 || blank_at(text, 0)) {
        lemma_len_until_blank_bound(text.drop_first());
    }
}

} // verus!
