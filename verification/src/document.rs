//! The arena of a document: which keys it has, what stands under each,
//! and that all of it hangs on the root.

use vstd::prelude::*;

use crate::digest::{acyclic, lemma_reach_child, lemma_reach_self, ranked, reach};
use crate::grammar::{
    lemma_unit_len_bounds, lemma_units_fit, paragraph_arena, unit_len, unit_nodes, units,
};
use crate::key::Key;
use crate::lines::{lemma_paragraphs_fit, lemma_total_len_alike, normalized, paragraphs_of, total_len};
use crate::node::NodeView;
use crate::result_map::{
    lemma_merged_last_wins, lemma_merged_origin, lemma_merged_untouched, merged, ArenaView,
};
use crate::tex_char::TexChar;
use crate::tex_chars::tokens_of;

verus! {

/// The token sequences of the paragraphs of `text`.
pub open spec fn paragraph_tokens(text: Seq<char>) -> Seq<Seq<TexChar>> {
    Seq::new(paragraphs_of(text).len(), |i: int| tokens_of(paragraphs_of(text)[i]))
}

/// The number of the first key that is free once the key of the list and
/// the keys of the paragraphs `paras` are drawn: one for the list, one
/// for each paragraph and one for each of its units.
pub open spec fn keys_through(paras: Seq<Seq<TexChar>>) -> nat
    decreases paras.len(),
{
    if paras.len() == 0 {
        1
    } else {
        keys_through(paras.drop_last()) + 1 + units(paras.last()).len()
    }
}

/// The number of the key of paragraph `i` of `paras`.
pub open spec fn paragraph_key(paras: Seq<Seq<TexChar>>, i: int) -> nat {
    keys_through(paras.take(i))
}

/// The keys of the paragraphs `paras`, in order.
pub open spec fn paragraph_roots(paras: Seq<Seq<TexChar>>) -> Seq<Key> {
    Seq::new(paras.len(), |i: int| Key::at(paragraph_key(paras, i)))
}

/// The entries of the arena of each paragraph of `paras`, in order.
pub open spec fn paragraph_entries(paras: Seq<Seq<TexChar>>) -> Seq<Map<Key, NodeView>> {
    Seq::new(paras.len(), |i: int| paragraph_arena(paras[i], paragraph_key(paras, i)).entries)
}

/// The arena of the document with the paragraphs `paras`: the list of
/// the paragraphs under the zero key, which is the root, and with it the
/// entries of each paragraph.
pub open spec fn document_arena(paras: Seq<Seq<TexChar>>) -> ArenaView {
    ArenaView {
        root: Key::at(0),
        entries: merged(
            Map::<Key, NodeView>::empty().insert(
                Key::at(0),
                NodeView::ParagraphList(Some(paragraph_roots(paras))),
            ),
            paragraph_entries(paras),
        ),
    }
}

/// The arena of the document that `text` is, its lines not yet cleaned.
pub open spec fn parsed(text: Seq<char>) -> ArenaView {
    document_arena(paragraph_tokens(normalized(text)))
}

/// Paragraphs that are not empty need at most one key more than twice
/// as many keys as they have tokens.
pub proof fn lemma_keys_through_fit(paras: Seq<Seq<TexChar>>)
    requires
        forall|i: int| 0 <= i < paras.len() ==> (#[trigger] paras[i]).len() > 0,
    ensures
        keys_through(paras) <= 1 + 2 * total_len(paras),
    decreases paras.len(),
{
    if paras.len() > 0 {
        let front = paras.drop_last();
        assert forall|i: int| 0 <= i < front.len() implies (#[trigger] front[i]).len() > 0 by {
            assert(front[i] == paras[i]);
        }
        lemma_keys_through_fit(front);
        lemma_units_fit(paras.last());
        assert(paras.last() == paras[paras.len() - 1]);
    }
}

/// The keys of the paragraphs grow with their places.
pub proof fn lemma_paragraph_key_step(paras: Seq<Seq<TexChar>>, i: int)
    requires
        0 <= i < paras.len(),
    ensures
        paragraph_key(paras, i + 1) == paragraph_key(paras, i) + 1 + units(paras[i]).len(),
        paragraph_key(paras, i + 1) <= keys_through(paras),
        paragraph_key(paras, 0) == 1,
    decreases paras.len() - i,
{
    assert(paras.take(i + 1).drop_last() =~= paras.take(i));
    assert(paras.take(i + 1).last() == paras[i]);
    assert(paras.take(0) =~= Seq::<Seq<TexChar>>::empty());
    if i + 1 == paras.len() {
        assert(paras.take(i + 1) =~= paras);
    } else {
        lemma_paragraph_key_step(paras, i + 1);
    }
}

/// A text needs at most one key more than twice as many keys as it has
/// characters.
pub proof fn lemma_key_count_fit(text: Seq<char>)
    ensures
        keys_through(paragraph_tokens(text)) <= 1 + 2 * text.len(),
{
    let paras = paragraph_tokens(text);
    lemma_paragraphs_fit(text);
    lemma_total_len_alike(paragraphs_of(text), paras);
    lemma_keys_through_fit(paras);
}


/// The units of a paragraph have no children.
pub proof fn lemma_units_are_leaves(tokens: Seq<TexChar>, j: int)
    requires
        0 <= j < units(tokens).len(),
    ensures
        units(tokens)[j].children().len() == 0,
    decreases tokens.len(),
{
    if tokens.len() > 0 {
        lemma_unit_len_bounds(tokens);
        let head = unit_nodes(tokens);
        if j >= head.len() {
            lemma_units_are_leaves(tokens.skip(unit_len(tokens) as int), j - head.len());
        }
    }
}

/// The keys of the paragraphs grow: each paragraph begins behind the
/// last key of every one before it.
pub proof fn lemma_paragraph_keys_grow(paras: Seq<Seq<TexChar>>, i: int, j: int)
    requires
        0 <= i < j <= paras.len(),
    ensures
        paragraph_key(paras, i) + units(paras[i]).len() < paragraph_key(paras, j),
        1 <= paragraph_key(paras, i),
        paragraph_key(paras, j) <= keys_through(paras),
    decreases j - i,
{
    lemma_paragraph_key_first(paras, i);
    lemma_paragraph_key_last(paras, j);
    if j == i + 1 {
        assert(paras.take(j).drop_last() =~= paras.take(i));
        assert(paras.take(j).last() == paras[i]);
    } else {
        lemma_paragraph_keys_grow(paras, i, j - 1);
        assert(paras.take(j).drop_last() =~= paras.take(j - 1));
    }
}

proof fn lemma_paragraph_key_first(paras: Seq<Seq<TexChar>>, i: int)
    requires
        0 <= i <= paras.len(),
    ensures
        1 <= paragraph_key(paras, i),
    decreases i,
{
    if i > 0 {
        lemma_paragraph_key_first(paras, i - 1);
        assert(paras.take(i).drop_last() =~= paras.take(i - 1));
    } else {
        assert(paras.take(0).len() == 0);
    }
}

proof fn lemma_paragraph_key_last(paras: Seq<Seq<TexChar>>, j: int)
    requires
        0 <= j <= paras.len(),
    ensures
        paragraph_key(paras, j) <= keys_through(paras),
    decreases paras.len() - j,
{
    if j == paras.len() {
        assert(paras.take(j) =~= paras);
    } else {
        lemma_paragraph_key_last(paras, j + 1);
        assert(paras.take(j + 1).drop_last() =~= paras.take(j));
    }
}

/// Every key from the first paragraph key on, up to the last key drawn,
/// belongs to one paragraph: it is the key of the paragraph or of one of
/// its units.
pub proof fn lemma_key_owner(paras: Seq<Seq<TexChar>>, k: nat) -> (i: int)
    requires
        1 <= k < keys_through(paras),
    ensures
        0 <= i < paras.len(),
        paragraph_key(paras, i) <= k <= paragraph_key(paras, i) + units(paras[i]).len(),
    decreases paras.len(),
{
    let front = paras.drop_last();
    let last = paras.len() - 1;
    assert(paras.take(last) =~= front);
    if k >= keys_through(front) {
        last
    } else {
        let i = lemma_key_owner(front, k);
        assert(front.take(i) =~= paras.take(i));
        assert(front[i] == paras[i]);
        i
    }
}

/// The root of a document holds the list of its paragraphs.
pub proof fn lemma_document_root(paras: Seq<Seq<TexChar>>)
    requires
        keys_through(paras) <= u32::MAX,
    ensures
        document_arena(paras).entries.contains_key(Key::at(0)),
        document_arena(paras).entries[Key::at(0)] == NodeView::ParagraphList(
            Some(paragraph_roots(paras)),
        ),
{
    let base = Map::<Key, NodeView>::empty().insert(
        Key::at(0),
        NodeView::ParagraphList(Some(paragraph_roots(paras))),
    );
    let more = paragraph_entries(paras);
    assert forall|j: int| 0 <= j < more.len() implies !(#[trigger] more[j]).contains_key(
        Key::at(0),
    ) by {
        lemma_paragraph_key_first(paras, j);
    }
    lemma_merged_untouched(base, more, Key::at(0));
}

/// A key that belongs to paragraph `i` holds in the document what it
/// holds in the arena of that paragraph.
pub proof fn lemma_document_entry(paras: Seq<Seq<TexChar>>, i: int, key: Key)
    requires
        keys_through(paras) <= u32::MAX,
        0 <= i < paras.len(),
        paragraph_key(paras, i) <= key.value <= paragraph_key(paras, i) + units(paras[i]).len(),
    ensures
        document_arena(paras).entries.contains_key(key),
        document_arena(paras).entries[key] == paragraph_arena(
            paras[i],
            paragraph_key(paras, i),
        ).entries[key],
        key.value < keys_through(paras),
{
    let base = Map::<Key, NodeView>::empty().insert(
        Key::at(0),
        NodeView::ParagraphList(Some(paragraph_roots(paras))),
    );
    let more = paragraph_entries(paras);
    assert forall|j: int| i < j < more.len() implies !(#[trigger] more[j]).contains_key(key) by {
        lemma_paragraph_keys_grow(paras, i, j);
    }
    assert(more[i].contains_key(key));
    lemma_merged_last_wins(base, more, key, i);
    lemma_paragraph_keys_grow(paras, i, i + 1);
}

/// The keys of a document are those below the number of keys drawn.
pub proof fn lemma_document_keys(paras: Seq<Seq<TexChar>>, key: Key)
    requires
        keys_through(paras) <= u32::MAX,
    ensures
        document_arena(paras).entries.contains_key(key) <==> key.value < keys_through(paras),
{
    let base = Map::<Key, NodeView>::empty().insert(
        Key::at(0),
        NodeView::ParagraphList(Some(paragraph_roots(paras))),
    );
    let more = paragraph_entries(paras);
    let entries = document_arena(paras).entries;
    lemma_paragraph_key_last(paras, 0);
    lemma_paragraph_key_first(paras, 0);
    if entries.contains_key(key) {
        lemma_merged_origin(base, more, key);
        if !base.contains_key(key) {
            let i = choose|i: int|
                0 <= i < more.len() && (#[trigger] more[i]).contains_key(key) && merged(
                    base,
                    more,
                )[key] == more[i][key];
            lemma_paragraph_keys_grow(paras, i, i + 1);
        }
    }
    if key.value < keys_through(paras) {
        if key.value == 0 {
            lemma_document_root(paras);
        } else {
            let i = lemma_key_owner(paras, key.value as nat);
            lemma_document_entry(paras, i, key);
        }
    }
}

/// No entry of a document is its own descendant: the key of a child is
/// greater than that of its parent.
pub proof fn lemma_document_acyclic(paras: Seq<Seq<TexChar>>)
    requires
        keys_through(paras) <= u32::MAX,
    ensures
        acyclic(document_arena(paras).entries),
{
    let entries = document_arena(paras).entries;
    let top = keys_through(paras);
    let rank = |key: Key|
        if key.value < top {
            (top - key.value) as nat
        } else {
            0nat
        };
    assert forall|key: Key, c: int|
        #![trigger entries[key].children()[c]]
        entries.contains_key(key) && 0 <= c < entries[key].children().len() implies rank(
        entries[key].children()[c],
    ) < rank(key) by {
        lemma_document_keys(paras, key);
        if key.value == 0 {
            lemma_document_root(paras);
            lemma_paragraph_keys_grow(paras, c, c + 1);
        } else {
            let i = lemma_key_owner(paras, key.value as nat);
            lemma_document_entry(paras, i, key);
            lemma_paragraph_keys_grow(paras, i, i + 1);
            let first = paragraph_key(paras, i);
            if key.value != first {
                lemma_units_are_leaves(paras[i], key.value - first - 1);
            }
        }
    }
    assert(ranked(entries, rank));
}

/// Every key of a document is reached from its root.
pub proof fn lemma_document_reach(paras: Seq<Seq<TexChar>>, key: Key)
    requires
        keys_through(paras) <= u32::MAX,
        key.value < keys_through(paras),
    ensures
        reach(document_arena(paras).entries, Key::at(0)).contains(key),
{
    let entries = document_arena(paras).entries;
    let root = Key::at(0);
    lemma_document_acyclic(paras);
    lemma_document_root(paras);
    if key.value == 0 {
        lemma_reach_self(entries, root);
    } else {
        let i = lemma_key_owner(paras, key.value as nat);
        let first = paragraph_key(paras, i);
        let para = Key::at(first);
        lemma_paragraph_keys_grow(paras, i, i + 1);
        assert(entries[root].children()[i] == para);
        lemma_reach_child(entries, root, i);
        if key.value != first {
            lemma_document_entry(paras, i, para);
            let c = key.value - first - 1;
            assert(entries[para].children()[c] == key);
            lemma_reach_child(entries, para, c);
        }
    }
}

} // verus!
