//! The parser: from text to the arena of a document.

use vstd::prelude::*;

use crate::digest::acyclic;
use crate::document::{
    keys_through, lemma_document_acyclic, lemma_key_count_fit, lemma_paragraph_key_step,
    paragraph_entries, paragraph_key, paragraph_roots, paragraph_tokens, parsed,
};
use crate::grammar::{
    command_len, command_node, is_plain, leaf, lemma_math_body_len_bound, lemma_name_len_bound,
    lemma_text_run, math_body_len, math_closed, math_len, math_node, name_len, paragraph_arena,
    text_nodes, unit_keys, unit_nodes, units,
};
use crate::key::{Key, KeyCounter};
use crate::lines::{
    blank_at, clean_line, clean_lines, joined, lemma_len_until, lemma_len_until_blank,
    lemma_trim_head, lemma_trim_tail, lines_of, normalized, paragraphs_of,
};
use crate::math_expr::{lemma_marker_prefix, MathDisc, MathExprParseResult};
use crate::node::{Node, NodeView};
use crate::outside::{ParseError, MAX_INPUT_LENGTH};
use crate::result_map::{
    entries_of, lemma_merged_last_wins, lemma_merged_untouched, ResultMap,
};
use crate::tex_char::TexChar;
use crate::tex_chars::{content_text, tokens_of, TexChars};
use crate::text::{chars_of, string_of, white_space};

verus! {

/// Empties `cs` and returns the normalized text of what it held.
pub fn buffer_to_content_string(cs: &mut Vec<TexChar>) -> (text: String)
    ensures
        text@ == content_text(old(cs)@),
        final(cs)@ == Seq::<TexChar>::empty(),
{
    let mut taken: Vec<TexChar> = Vec::new();
    std::mem::swap(cs, &mut taken);
    TexChars::from_iter(taken).into_content_string()
}

/// Parses the math region of style `disc` whose opening marker stands
/// next in `cs`: the marker is taken out, then the body, up to the
/// closing marker, which is taken out too, or to the end of the stream.
pub fn parse_math_expr(cs: &mut TexChars, kc: &mut KeyCounter, disc: MathDisc) -> (arena:
    ResultMap)
    requires
        old(cs)@.len() >= disc.marker_len(),
        old(kc)@ < u32::MAX,
    ensures
        final(kc)@ == old(kc)@ + 1,
        arena@ == leaf(
            Key::at(old(kc)@),
            math_node(disc, old(cs)@.skip(disc.marker_len() as int)),
        ),
        final(cs)@ == old(cs)@.skip(
            (disc.marker_len() + math_len(disc, old(cs)@.skip(disc.marker_len() as int))) as int,
        ),
{
    disc.consume_begin(cs);
    let ghost inner = cs@;

    let mut buffer: Vec<TexChar> = Vec::new();
    let mut match_end = false;

    loop
        invariant_except_break
            !match_end,
            buffer@.len() <= inner.len(),
            buffer@ == inner.take(buffer@.len() as int),
            cs@ == inner.skip(buffer@.len() as int),
            math_body_len(disc, inner) == buffer@.len() + math_body_len(disc, cs@),
        ensures
            buffer@ == inner.take(math_body_len(disc, inner) as int),
            match_end == math_closed(disc, inner),
            cs@ == inner.skip(math_len(disc, inner) as int),
        decreases cs@.len(),
    {
        if disc.match_end(cs) {
            match_end = true;
            proof {
                lemma_marker_prefix(cs@);
            }
            let ghost at_end = cs@;
            disc.consume_end(cs);
            proof {
                assert(at_end.skip(disc.marker_len() as int) =~= inner.skip(
                    math_len(disc, inner) as int,
                ));
            }
            break ;
        }
        if let Some(c) = cs.next() {
            buffer.push(c);
            proof {
                assert(buffer@ =~= inner.take(buffer@.len() as int));
                assert(cs@ =~= inner.skip(buffer@.len() as int));
            }
        } else {
            proof {
                assert(inner.take(buffer@.len() as int) =~= inner);
            }
            break ;
        }
    }

    proof {
        lemma_math_body_len_bound(disc, inner);
        assert(inner.skip(math_len(disc, inner) as int) =~= old(cs)@.skip(
            (disc.marker_len() + math_len(disc, inner)) as int,
        ));
    }
    let content = buffer_to_content_string(&mut buffer);
    let node = if match_end {
        MathExprParseResult::ok(content, disc)
    } else {
        MathExprParseResult::err(content, disc)
    };

    ResultMap::new(kc.count(), Node::MathExpr(node))
}

/// Parses the command whose first token stands next in `cs`: that token
/// is taken out, then the letters that follow it.
pub fn parse_inline_command(cs: &mut TexChars, kc: &mut KeyCounter) -> (arena: ResultMap)
    requires
        old(cs)@.len() > 0,
        old(kc)@ < u32::MAX,
    ensures
        final(kc)@ == old(kc)@ + 1,
        arena@ == leaf(Key::at(old(kc)@), command_node(old(cs)@)),
        final(cs)@ == old(cs)@.skip(command_len(old(cs)@) as int),
{
    let ghost all = cs@;
    let ghost tail = cs@.drop_first();
    let mut buffer: Vec<TexChar> = Vec::new();

    if let Some(first) = cs.next() {
        buffer.push(first);
    }
    assert(buffer@ =~= all.take(1));
    assert(cs@ =~= tail.skip(0));

    loop
        invariant_except_break
            buffer@.len() >= 1,
            buffer@.len() <= all.len(),
            tail == all.drop_first(),
            buffer@ == all.take(buffer@.len() as int),
            cs@ == all.skip(buffer@.len() as int),
            name_len(tail) == buffer@.len() - 1 + name_len(cs@),
        ensures
            buffer@ == all.take(command_len(all) as int),
            cs@ == all.skip(command_len(all) as int),
        decreases cs@.len(),
    {
        if let Some(TexChar::Char(c)) = cs.read_next() {
            if c.is_alphabetic() {
                buffer.push(TexChar::Char(c));
                cs.next();
                proof {
                    assert(buffer@ =~= all.take(buffer@.len() as int));
                    assert(cs@ =~= all.skip(buffer@.len() as int));
                }
                continue ;
            }
        }
        break ;
    }

    let content = buffer_to_content_string(&mut buffer);

    ResultMap::new(kc.count(), Node::InlineCommand(Some(content)))
}

/// Turns what `buffer` holds into a text node, where its normalized text
/// is not empty, and empties it.
fn push_raw_string(buffer: &mut Vec<TexChar>, maps: &mut Vec<ResultMap>, kc: &mut KeyCounter)
    requires
        content_text(old(buffer)@).len() > 0 ==> old(kc)@ < u32::MAX,
    ensures
        final(buffer)@ == Seq::<TexChar>::empty(),
        final(kc)@ == old(kc)@ + text_nodes(old(buffer)@).len(),
        final(maps)@.len() == old(maps)@.len() + text_nodes(old(buffer)@).len(),
        forall|i: int| 0 <= i < old(maps)@.len() ==> final(maps)@[i] == old(maps)@[i],
        text_nodes(old(buffer)@).len() > 0 ==> final(maps)@[old(maps)@.len() as int]@ == leaf(
            Key::at(old(kc)@),
            text_nodes(old(buffer)@)[0],
        ),
{
    let content = buffer_to_content_string(buffer);
    if !content.as_str().is_empty() {
        let node = Node::RawString(content);
        maps.push(ResultMap::new(kc.count(), node));
    }
}

/// Parses one paragraph: a scan that at each place reads a math region
/// where one opens, else a command where a backslash stands, else one
/// more token of a text run.
pub fn parse_paragraph(cs: TexChars, kc: &mut KeyCounter) -> (arena: ResultMap)
    requires
        old(kc)@ + units(cs@).len() < u32::MAX,
    ensures
        final(kc)@ == old(kc)@ + 1 + units(cs@).len(),
        arena@ == paragraph_arena(cs@, old(kc)@),
{
    let mut cs = cs;
    let ghost all = cs@;
    let ghost first = kc@;
    let key = kc.count();

    let mut maps: Vec<ResultMap> = Vec::new();
    let mut buffer: Vec<TexChar> = Vec::new();
    let ghost mut emitted: Seq<NodeView> = Seq::empty();
    proof {
        assert(buffer@ + cs@ =~= all);
        assert(emitted + units(all) =~= units(all));
    }

    loop
        invariant_except_break
            units(all) == emitted + units(buffer@ + cs@),
            forall|i: int| 0 <= i < buffer@.len() ==> is_plain(#[trigger] buffer@[i]),
        invariant
            first + units(all).len() < u32::MAX,
            emitted.len() == maps@.len(),
            kc@ == first + 1 + maps@.len(),
            emitted.len() <= units(all).len(),
            forall|i: int|
                0 <= i < maps@.len() ==> (#[trigger] maps@[i])@ == leaf(
                    Key::at((first + 1 + i) as nat),
                    emitted[i],
                ),
        ensures
            units(all) == emitted,
        decreases cs@.len(),
    {
        let ghost rest = cs@;
        let ghost run = buffer@;
        if let Some(disc) = MathDisc::match_begin(&cs) {
            proof {
                lemma_marker_prefix(rest);
                lemma_text_run(run, rest);
                lemma_math_body_len_bound(disc, rest.skip(disc.marker_len() as int));
            }
            push_raw_string(&mut buffer, &mut maps, kc);
            let map = parse_math_expr(&mut cs, kc, disc);
            maps.push(map);
            proof {
                emitted = emitted + text_nodes(run) + unit_nodes(rest);
                assert(buffer@ + cs@ =~= cs@);
                assert(units(all) =~= emitted + units(buffer@ + cs@));
            }
            continue ;
        }
        if cs.next_is(TexChar::Backslash) {
            proof {
                lemma_marker_prefix(rest);
                lemma_text_run(run, rest);
                lemma_name_len_bound(rest.drop_first());
            }
            push_raw_string(&mut buffer, &mut maps, kc);
            let map = parse_inline_command(&mut cs, kc);
            maps.push(map);
            proof {
                emitted = emitted + text_nodes(run) + unit_nodes(rest);
                assert(buffer@ + cs@ =~= cs@);
                assert(units(all) =~= emitted + units(buffer@ + cs@));
            }
            continue ;
        }
        if let Some(c) = cs.next() {
            proof {
                lemma_marker_prefix(rest);
            }
            buffer.push(c);
            proof {
                assert(buffer@ + cs@ =~= run + rest);
            }
        } else {
            proof {
                lemma_text_run(run, rest);
                assert(text_nodes(run) + units(rest) =~= text_nodes(run));
            }
            push_raw_string(&mut buffer, &mut maps, kc);
            proof {
                emitted = emitted + text_nodes(run);
            }
            break ;
        }
    }

    let mut roots: Vec<Key> = Vec::new();
    let mut i: usize = 0;
    while i < maps.len()
        invariant
            i <= maps@.len(),
            roots@.len() == i,
            emitted.len() == maps@.len(),
            forall|j: int|
                0 <= j < maps@.len() ==> (#[trigger] maps@[j])@ == leaf(
                    Key::at((first + 1 + j) as nat),
                    emitted[j],
                ),
            forall|j: int| 0 <= j < i ==> roots@[j] == Key::at((first + 1 + j) as nat),
        decreases maps@.len() - i,
    {
        roots.push(maps[i].root());
        i = i + 1;
    }
    proof {
        assert(roots@ =~= unit_keys(first, emitted.len()));
    }

    let ghost leaves = entries_of(maps@);
    let mut map = ResultMap::new(key, Node::Paragraph(Some(roots)));
    let ghost base = map@.entries;
    map.merge(maps);
    proof {
        let target = paragraph_arena(all, first).entries;
        assert forall|k: Key| #[trigger] map@.entries.contains_key(k) == target.contains_key(k)
            && (target.contains_key(k) ==> map@.entries[k] == target[k]) by {
            if first < k.value <= first + emitted.len() {
                let j = k.value - first - 1;
                assert(leaves[j] == maps@[j]@.entries);
                assert(leaves[j].contains_key(k));
                assert forall|l: int| j < l < leaves.len() implies !(#[trigger] leaves[l]).contains_key(k) by {
                    assert(leaves[l] == maps@[l]@.entries);
                }
                lemma_merged_last_wins(base, leaves, k, j);
            } else {
                assert forall|l: int| 0 <= l < leaves.len() implies !(#[trigger] leaves[l]).contains_key(k) by {
                    assert(leaves[l] == maps@[l]@.entries);
                }
                lemma_merged_untouched(base, leaves, k);
            }
        }
        assert(map@.entries =~= target);
    }
    map
}

/// Removes from each line its comment, from the first `%` on, and the
/// white space around what is left, and joins the lines again.
pub fn correct_lines(input: String) -> (output: String)
    ensures
        output@ == normalized(input@),
{
    let chars = chars_of(input.as_str());
    let ghost text = chars@;
    let len = chars.len();
    let mut out: Vec<char> = Vec::new();
    let ghost mut done: Seq<Seq<char>> = Seq::empty();
    let mut i: usize = 0;
    proof {
        assert(text.skip(0) =~= text);
        assert(done + lines_of(text) =~= lines_of(text));
    }
    while i < len
        invariant
            i <= len,
            len == text.len(),
            chars@ == text,
            lines_of(text) == done + lines_of(text.skip(i as int)),
            (i == 0) == (done.len() == 0),
            out@ == joined(clean_lines(done)),
        decreases len - i,
    {
        let ghost rest = text.skip(i as int);
        let mut end: usize = i;
        while end < len && chars[end] != '\n'
            invariant
                i <= end <= len,
                len == text.len(),
                chars@ == text,
                forall|k: int| i <= k < end ==> text[k] != '\n',
            decreases len - end,
        {
            end = end + 1;
        }
        let ghost line = text.subrange(i as int, end as int);
        let mut cut: usize = i;
        while cut < end && chars[cut] != '%'
            invariant
                i <= cut <= end <= len,
                len == text.len(),
                chars@ == text,
                forall|k: int| i <= k < cut ==> text[k] != '%',
            decreases end - cut,
        {
            cut = cut + 1;
        }
        let mut from: usize = i;
        while from < cut && chars[from].is_whitespace()
            invariant
                i <= from <= cut <= len,
                len == text.len(),
                chars@ == text,
                forall|k: int| i <= k < from ==> white_space(text[k]),
            decreases cut - from,
        {
            from = from + 1;
        }
        let mut to: usize = cut;
        while to > from && chars[to - 1].is_whitespace()
            invariant
                from <= to <= cut <= len,
                len == text.len(),
                chars@ == text,
                forall|k: int| to <= k < cut ==> white_space(text[k]),
            decreases to - from,
        {
            to = to - 1;
        }
        proof {
            lemma_len_until(rest, '\n', end - i);
            assert(rest.take(end - i) =~= line);
            lemma_len_until(line, '%', cut - i);
            let code = line.take(cut - i);
            assert(code =~= text.subrange(i as int, cut as int));
            lemma_trim_head(code, from - i);
            let headless = code.skip(from - i);
            lemma_trim_tail(headless, to - from);
            assert(headless.take(to - from) =~= text.subrange(from as int, to as int));
            assert(clean_line(line) == text.subrange(from as int, to as int));
        }
        if i > 0 {
            out.push('\n');
        }
        let ghost mid = out@;
        let mut k: usize = from;
        while k < to
            invariant
                from <= k <= to <= len,
                len == text.len(),
                chars@ == text,
                out@ == mid + text.subrange(from as int, k as int),
            decreases to - k,
        {
            out.push(chars[k]);
            k = k + 1;
            assert(out@ =~= mid + text.subrange(from as int, k as int));
        }
        proof {
            let grown = done.push(line);
            assert(clean_lines(grown).drop_last() =~= clean_lines(done));
            assert(clean_lines(grown).last() == clean_line(line));
            if i == 0 {
                assert(mid + clean_line(line) =~= clean_line(line));
            }
            if end < len {
                assert(rest.skip(end - i + 1) =~= text.skip(end + 1));
                assert(done + (seq![line] + lines_of(text.skip(end + 1))) =~= grown + lines_of(
                    text.skip(end + 1),
                ));
            } else {
                assert(rest =~= line);
                assert(text.skip(len as int) =~= Seq::<char>::empty());
                assert(done + seq![line] =~= grown + lines_of(text.skip(len as int)));
            }
            done = grown;
        }
        if end < len {
            i = end + 1;
        } else {
            i = len;
        }
    }
    proof {
        assert(text.skip(len as int) =~= Seq::<char>::empty());
        assert(done + lines_of(text.skip(len as int)) =~= done);
    }
    string_of(&out)
}

/// Splits `input` at its blank lines and turns each part that is not
/// empty into a token stream.
pub fn parse_into_paragraphs(input: String) -> (streams: Vec<TexChars>)
    ensures
        streams@.len() == paragraphs_of(input@).len(),
        forall|i: int|
            0 <= i < streams@.len() ==> (#[trigger] streams@[i])@ == tokens_of(
                paragraphs_of(input@)[i],
            ),
{
    let chars = chars_of(input.as_str());
    let ghost text = chars@;
    let len = chars.len();
    let mut streams: Vec<TexChars> = Vec::new();
    let ghost mut done: Seq<Seq<char>> = Seq::empty();
    let mut i: usize = 0;
    let mut more = true;
    proof {
        assert(text.skip(0) =~= text);
        assert(done + paragraphs_of(text) =~= paragraphs_of(text));
    }
    while more
        invariant
            i <= len,
            len == text.len(),
            chars@ == text,
            more ==> paragraphs_of(text) == done + paragraphs_of(text.skip(i as int)),
            !more ==> paragraphs_of(text) == done,
            streams@.len() == done.len(),
            forall|j: int| 0 <= j < streams@.len() ==> (#[trigger] streams@[j])@ == tokens_of(done[j]),
        decreases len - i + (if more { 1int } else { 0int }),
    {
        let ghost rest = text.skip(i as int);
        let mut end: usize = i;
        while end < len && !(end + 1 < len && chars[end] == '\n' && chars[end + 1] == '\n')
            invariant
                i <= end <= len,
                len == text.len(),
                chars@ == text,
                forall|k: int| i <= k < end ==> !blank_at(text, k),
            decreases len - end,
        {
            end = end + 1;
        }
        let ghost part = text.subrange(i as int, end as int);
        proof {
            assert forall|k: int| 0 <= k < end - i implies !blank_at(rest, k) by {
                assert(!blank_at(text, i + k));
            }
            lemma_len_until_blank(rest, end - i);
            assert(rest.take(end - i) =~= part);
        }
        if end > i {
            let mut tokens: Vec<TexChar> = Vec::new();
            let mut k: usize = i;
            while k < end
                invariant
                    i <= k <= end <= len,
                    len == text.len(),
                    chars@ == text,
                    tokens@ == tokens_of(text.subrange(i as int, k as int)),
                decreases end - k,
            {
                tokens.push(TexChar::from(chars[k]));
                k = k + 1;
                assert(tokens@ =~= tokens_of(text.subrange(i as int, k as int)));
            }
            streams.push(TexChars::from_iter(tokens));
            proof {
                done = done.push(part);
            }
        }
        proof {
            if end < len {
                assert(rest.skip(end - i + 2) =~= text.skip(end + 2));
                if end > i {
                    assert(done.drop_last() + (seq![part] + paragraphs_of(text.skip(end + 2)))
                        =~= done + paragraphs_of(text.skip(end + 2)));
                } else {
                    assert(Seq::<Seq<char>>::empty() + paragraphs_of(text.skip(end + 2))
                        =~= paragraphs_of(text.skip(end + 2)));
                }
            } else {
                if end > i {
                    assert(done.drop_last() + seq![part] =~= done);
                } else {
                    assert(done + Seq::<Seq<char>>::empty() =~= done);
                }
            }
        }
        if end < len {
            i = end + 2;
        } else {
            i = len;
            more = false;
        }
    }
    streams
}

/// A parsed document.
#[derive(Debug)]
pub struct ParseOk {
    /// The arena of the document.
    pub rmap: ResultMap,
    /// How many characters the text had once its lines were cleaned.
    pub char_count: usize,
}

/// Parses `input`: cleans its lines, refuses what then has more than
/// `MAX_INPUT_LENGTH` characters, and parses each paragraph of the
/// rest into one arena.
pub fn parse_paragraphs(input: &str) -> (result: Result<ParseOk, ParseError>)
    ensures
        match result {
            Ok(ok) => {
                &&& normalized(input@).len() <= MAX_INPUT_LENGTH
                &&& ok.char_count == normalized(input@).len()
                &&& ok.rmap@ == parsed(input@)
                &&& ok.rmap@.wf()
                &&& acyclic(ok.rmap@.entries)
            },
            Err(e) => e == ParseError::TooLongInput && normalized(input@).len()
                > MAX_INPUT_LENGTH,
        },
{
    let input = correct_lines(input.to_owned());
    let ghost text = input@;

    let char_count = input.as_str().unicode_len();
    if char_count > MAX_INPUT_LENGTH {
        return Err(ParseError::TooLongInput);
    }
    let mut kc = KeyCounter::new();
    let key = kc.count();

    let ps = parse_into_paragraphs(input);
    let ghost paras = paragraph_tokens(text);
    proof {
        lemma_key_count_fit(text);
        assert(paras.take(0) =~= Seq::<Seq<TexChar>>::empty());
    }
    let mut arenas: Vec<ResultMap> = Vec::new();
    let mut roots: Vec<Key> = Vec::new();
    for cs in it: ps.into_iter()
        invariant
            it.seq() == ps@,
            ps@.len() == paras.len(),
            forall|i: int| 0 <= i < ps@.len() ==> (#[trigger] ps@[i])@ == paras[i],
            keys_through(paras) <= 1 + 2 * MAX_INPUT_LENGTH,
            kc@ == paragraph_key(paras, it.index()),
            arenas@.len() == it.index(),
            roots@.len() == it.index(),
            forall|i: int|
                0 <= i < it.index() ==> (#[trigger] arenas@[i])@ == paragraph_arena(
                    paras[i],
                    paragraph_key(paras, i),
                ),
            forall|i: int|
                0 <= i < it.index() ==> #[trigger] roots@[i] == Key::at(paragraph_key(paras, i)),
    {
        proof {
            lemma_paragraph_key_step(paras, it.index());
        }
        let arena = parse_paragraph(cs, &mut kc);
        roots.push(arena.root());
        arenas.push(arena);
    }
    proof {
        assert(roots@ =~= paragraph_roots(paras));
        assert(entries_of(arenas@) =~= paragraph_entries(paras));
    }

    let mut rmap = ResultMap::new(key, Node::ParagraphList(Some(roots)));
    rmap.merge(arenas);
    proof {
        lemma_document_acyclic(paras);
    }

    Ok(ParseOk { rmap, char_count })
}

} // verus!
