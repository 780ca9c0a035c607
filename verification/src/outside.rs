//! The surface of the library: parsing text into a result that can be
//! handed on as it is.

use vstd::prelude::*;
use vstd::string::StringExecFns;

use crate::digest::{labels, lemma_reach_child, lemma_reach_transitive, reach};
use crate::document::{
    keys_through, lemma_document_acyclic, lemma_document_keys, lemma_document_reach,
    lemma_key_count_fit, paragraph_tokens, parsed,
};
use crate::key::Key;
use crate::outside::schema::{
    convert_key, convert_to_entry, entry_of, entry_views, labelled, Entry, EntryView,
    ParseResult, ParseResultView,
};
use crate::lines::normalized;
use crate::parser::{parse_paragraphs, ParseOk};

pub mod schema;

verus! {

/// The most characters that a text may have once its lines are cleaned.
pub const MAX_INPUT_LENGTH: usize = 100_000;

/// Why a text was not parsed.
#[derive(Debug, PartialEq, Eq, Structural, Clone, Copy)]
pub enum ParseError {
    /// The text has more than `MAX_INPUT_LENGTH` characters once its
    /// lines are cleaned.
    TooLongInput,
}

impl ParseError {
    /// The message of the error.
    pub open spec fn message(self) -> Seq<char> {
        "Too long input."@
    }

    /// The message of the error.
    pub fn to_string(&self) -> (text: String)
        ensures
            text@ == self.message(),
    {
        String::from_str("Too long input.")
    }
}

/// How many keys the document that `text` is has: they are the keys
/// from zero up to this number.
pub open spec fn key_count(text: Seq<char>) -> nat {
    keys_through(paragraph_tokens(normalized(text)))
}

/// The entries of the document that `text` is: one for each key, in
/// increasing order of the keys, under the label of the key.
pub open spec fn projected_entries(text: Seq<char>) -> Seq<EntryView> {
    let arena = parsed(text);
    let table = labels(arena.entries, arena.root);
    Seq::new(
        key_count(text),
        |i: int| entry_of(Key::at(i as nat), arena.entries[Key::at(i as nat)], table),
    )
}

/// What parsing `text` hands on: the error where `text` is too long
/// once its lines are cleaned, and else the label of the root of its
/// document, its entries and the number of characters parsed.
pub open spec fn projected(text: Seq<char>) -> ParseResultView {
    if normalized(text).len() > MAX_INPUT_LENGTH {
        ParseResultView::Error { message: ParseError::TooLongInput.message() }
    } else {
        let arena = parsed(text);
        ParseResultView::Success {
            root: labels(arena.entries, arena.root)[arena.root],
            entries: projected_entries(text),
            count: normalized(text).len(),
        }
    }
}

/// Keys in increasing order that are exactly those below `count` are
/// the keys zero, one, two and so on.
proof fn lemma_keys_in_a_row(keys: Seq<Key>, count: nat, i: int)
    requires
        forall|a: int, b: int| 0 <= a < b < keys.len() ==> keys[a].value < keys[b].value,
        forall|a: int| 0 <= a < keys.len() ==> (#[trigger] keys[a]).value < count,
        forall|k: Key| k.value < count ==> #[trigger] keys.contains(k),
        0 <= i < keys.len(),
    ensures
        keys[i].value == i,
    decreases i,
{
    assert forall|j: int| 0 <= j < i implies (#[trigger] keys[j]).value == j by {
        lemma_keys_in_a_row(keys, count, j);
    }
    if i > 0 {
        assert(keys[i - 1].value == i - 1);
    }
    assert(keys[i].value >= i);
    let k = Key { value: i as u32 };
    assert(keys.contains(k));
    let a = choose|a: int| 0 <= a < keys.len() && keys[a] == k;
    if a < i {
        assert(keys[a].value == a);
    } else if a > i {
        assert(keys[i].value < keys[a].value);
    }
}

/// The keys of a document of a text that is not too long, listed in
/// increasing order, each once, are the keys zero, one, two and so on,
/// as many as the document has.
pub proof fn lemma_document_listed(text: Seq<char>, keys: Seq<Key>)
    requires
        normalized(text).len() <= MAX_INPUT_LENGTH,
        forall|a: int, b: int| 0 <= a < b < keys.len() ==> keys[a].value < keys[b].value,
        forall|a: int| 0 <= a < keys.len() ==> parsed(text).entries.contains_key(#[trigger] keys[a]),
        forall|k: Key| parsed(text).entries.contains_key(k) ==> #[trigger] keys.contains(k),
    ensures
        keys.len() == key_count(text),
        forall|i: int| 0 <= i < keys.len() ==> #[trigger] keys[i] == Key::at(i as nat),
{
    let paras = paragraph_tokens(normalized(text));
    let count = key_count(text);
    lemma_key_count_fit(normalized(text));
    assert forall|a: int| 0 <= a < keys.len() implies (#[trigger] keys[a]).value < count by {
        lemma_document_keys(paras, keys[a]);
    }
    assert forall|k: Key| k.value < count implies #[trigger] keys.contains(k) by {
        lemma_document_keys(paras, k);
    }
    assert forall|i: int| 0 <= i < keys.len() implies #[trigger] keys[i] == Key::at(i as nat) by {
        lemma_keys_in_a_row(keys, count, i);
    }
    if keys.len() > 0 {
        lemma_keys_in_a_row(keys, count, keys.len() - 1);
    }
    if keys.len() < count {
        let k = Key { value: keys.len() as u32 };
        assert(keys.contains(k));
        let a = choose|a: int| 0 <= a < keys.len() && keys[a] == k;
        lemma_keys_in_a_row(keys, count, a);
    }
}

/// Every key of the document of a text that is not too long has a
/// label, and so has each child of its node.
pub proof fn lemma_document_labelled(text: Seq<char>, key: Key)
    requires
        normalized(text).len() <= MAX_INPUT_LENGTH,
        parsed(text).entries.contains_key(key),
    ensures
        labelled(
            key,
            parsed(text).entries[key],
            labels(parsed(text).entries, parsed(text).root),
        ),
{
    let paras = paragraph_tokens(normalized(text));
    let arena = parsed(text);
    lemma_key_count_fit(normalized(text));
    lemma_document_acyclic(paras);
    lemma_document_keys(paras, key);
    lemma_document_reach(paras, key);
    lemma_reach_transitive(arena.entries, arena.root, key);
    assert forall|c: int| 0 <= c < arena.entries[key].children().len() implies reach(
        arena.entries,
        arena.root,
    ).contains(#[trigger] arena.entries[key].children()[c]) by {
        lemma_reach_child(arena.entries, key, c);
    }
}

/// Parses `input` and hands the document on as a flat list of entries,
/// each under the label of its content.
pub fn parse_paragraphs_to_json(input: &str) -> (result: ParseResult)
    ensures
        result@ == projected(input@),
{
    let result = parse_paragraphs(input);

    match result {
        Err(e) => ParseResult::new_error(e.to_string()),
        Ok(ParseOk { rmap, char_count }) => {
            let ghost arena = rmap@;
            let hash_table = rmap.hash_table();
            let ghost table = hash_table@;
            proof {
                lemma_document_labelled(input@, arena.root);
            }
            let root = convert_key(rmap.root(), &hash_table);
            let pairs = rmap.into_entries();
            let ghost listed = pairs@;
            proof {
                let keys = Seq::new(listed.len(), |i: int| listed[i].0);
                assert forall|k: Key| arena.entries.contains_key(k) implies #[trigger] keys.contains(
                    k,
                ) by {
                    let a = choose|a: int| 0 <= a < listed.len() && listed[a].0 == k;
                    assert(keys[a] == k);
                }
                lemma_document_listed(input@, keys);
                assert forall|i: int| 0 <= i < listed.len() implies labelled(
                    (#[trigger] listed[i]).0,
                    listed[i].1@,
                    table,
                ) by {
                    assert(arena.entries.contains_key(listed[i].0));
                    lemma_document_labelled(input@, listed[i].0);
                }
            }
            let mut entries: Vec<Entry> = Vec::new();
            for pair in it: pairs.into_iter()
                invariant
                    it.seq() == listed,
                    hash_table@ == table,
                    forall|i: int|
                        0 <= i < listed.len() ==> labelled(
                            (#[trigger] listed[i]).0,
                            listed[i].1@,
                            table,
                        ),
                    entries@.len() == it.index(),
                    forall|j: int|
                        0 <= j < it.index() ==> (#[trigger] entries@[j])@ == entry_of(
                            listed[j].0,
                            listed[j].1@,
                            table,
                        ),
            {
                let (key, node) = pair;
                entries.push(convert_to_entry(key, node, &hash_table));
            }
            proof {
                assert forall|i: int| 0 <= i < listed.len() implies listed[i].0 == Key::at(
                    i as nat,
                ) && (#[trigger] listed[i]).1@ == arena.entries[Key::at(i as nat)] by {
                    assert(Seq::new(listed.len(), |i: int| listed[i].0)[i] == listed[i].0);
                    assert(arena.entries.contains_key(listed[i].0));
                }
                assert(entry_views(entries@) =~= projected_entries(input@));
            }
            ParseResult::new_ok(root, entries, char_count)
        },
    }
}

} // verus!
