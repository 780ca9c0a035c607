//! The shape in which a parse is handed on: a flat list of entries, each
//! under the label of its content.

use vstd::prelude::*;
use vstd::string::StringExecFns;

use crate::digest::HashTable;
use crate::key::Key;
use crate::node::{Node, NodeView};

verus! {

/// The outcome of a parse.
#[derive(Debug)]
pub enum ParseResult {
    Success(ParseResultOk),
    Error(ParseResultError),
}

/// A parsed document: the label of its root, its entries and the number
/// of characters that were parsed.
#[derive(Debug)]
pub struct ParseResultOk {
    pub root: EntryKey,
    pub entries: Vec<Entry>,
    pub count: usize,
}

/// Why nothing was parsed.
#[derive(Debug)]
pub struct ParseResultError {
    pub message: String,
}

/// One node under the label of its content.
#[derive(Debug)]
pub struct Entry {
    pub key: EntryKey,
    pub value: EntryValue,
}

/// A label that stands for a node.
#[derive(Debug)]
pub struct EntryKey(pub String);

/// What an entry holds, by the kind of its node.
#[derive(Debug)]
pub enum EntryValue {
    Paragraphs(EVKeys),
    Paragraph(EVKeys),
    Text(EVText),
    InlineCommand(EVInlineCommand),
    InlineMath(EVMath),
    DisplayMath(EVMath),
}

/// The labels of the children of a node, in order.
#[derive(Debug)]
pub struct EVKeys {
    pub keys: Vec<EntryKey>,
}

/// The text of a text run.
#[derive(Debug)]
pub struct EVText {
    pub content: String,
}

/// The text of a command.
#[derive(Debug)]
pub struct EVInlineCommand {
    pub content: String,
}

/// A math region: whether it was closed, and its content.
#[derive(Debug)]
pub struct EVMath {
    pub status: EVMathStatus,
    pub content: String,
}

/// Whether a math region was closed.
#[derive(Debug, PartialEq, Eq, Structural, Clone, Copy)]
pub enum EVMathStatus {
    Success,
    Error,
}

/// What an entry holds, as a value.
pub enum EntryValueView {
    Paragraphs(Seq<Seq<char>>),
    Paragraph(Seq<Seq<char>>),
    Text(Seq<char>),
    InlineCommand(Seq<char>),
    InlineMath(EVMathStatus, Seq<char>),
    DisplayMath(EVMathStatus, Seq<char>),
}

/// An entry as a value.
pub struct EntryView {
    pub key: Seq<char>,
    pub value: EntryValueView,
}

/// The outcome of a parse as a value.
pub enum ParseResultView {
    Success { root: Seq<char>, entries: Seq<EntryView>, count: nat },
    Error { message: Seq<char> },
}

impl View for EntryKey {
    type V = Seq<char>;

    open spec fn view(&self) -> Seq<char> {
        self.0@
    }
}

/// The labels of `keys`, in order.
pub open spec fn key_views(keys: Seq<EntryKey>) -> Seq<Seq<char>> {
    Seq::new(keys.len(), |i: int| keys[i]@)
}

impl View for EVKeys {
    type V = Seq<Seq<char>>;

    open spec fn view(&self) -> Seq<Seq<char>> {
        key_views(self.keys@)
    }
}

impl View for EntryValue {
    type V = EntryValueView;

    open spec fn view(&self) -> EntryValueView {
        match self {
            EntryValue::Paragraphs(keys) => EntryValueView::Paragraphs(keys@),
            EntryValue::Paragraph(keys) => EntryValueView::Paragraph(keys@),
            EntryValue::Text(text) => EntryValueView::Text(text.content@),
            EntryValue::InlineCommand(command) => EntryValueView::InlineCommand(command.content@),
            EntryValue::InlineMath(math) => EntryValueView::InlineMath(
                math.status,
                math.content@,
            ),
            EntryValue::DisplayMath(math) => EntryValueView::DisplayMath(
                math.status,
                math.content@,
            ),
        }
    }
}

impl View for Entry {
    type V = EntryView;

    open spec fn view(&self) -> EntryView {
        EntryView { key: self.key@, value: self.value@ }
    }
}

/// The entries of `entries` as values, in order.
pub open spec fn entry_views(entries: Seq<Entry>) -> Seq<EntryView> {
    Seq::new(entries.len(), |i: int| entries[i]@)
}

impl View for ParseResult {
    type V = ParseResultView;

    open spec fn view(&self) -> ParseResultView {
        match self {
            ParseResult::Success(ok) => ParseResultView::Success {
                root: ok.root@,
                entries: entry_views(ok.entries@),
                count: ok.count as nat,
            },
            ParseResult::Error(error) => ParseResultView::Error { message: error.message@ },
        }
    }
}

impl ParseResult {
    /// The outcome of a parse that went through.
    pub fn new_ok(root: EntryKey, entries: Vec<Entry>, char_count: usize) -> (result: ParseResult)
        ensures
            result@ == (ParseResultView::Success {
                root: root@,
                entries: entry_views(entries@),
                count: char_count as nat,
            }),
    {
        ParseResult::Success(ParseResultOk { root, entries, count: char_count })
    }

    /// The outcome of a parse that was refused, with the reason.
    pub fn new_error(message: String) -> (result: ParseResult)
        ensures
            result@ == (ParseResultView::Error { message: message@ }),
    {
        ParseResult::Error(ParseResultError { message })
    }
}

impl EVKeys {
    /// The labels `keys`, in their order.
    pub fn new(keys: Vec<EntryKey>) -> (value: EVKeys)
        ensures
            value@ == key_views(keys@),
    {
        EVKeys { keys }
    }
}

impl EVText {
    /// The text `content`.
    pub fn new(content: String) -> (value: EVText)
        ensures
            value.content@ == content@,
    {
        EVText { content }
    }
}

impl EVInlineCommand {
    /// The command `content`.
    pub fn new(content: String) -> (value: EVInlineCommand)
        ensures
            value.content@ == content@,
    {
        EVInlineCommand { content }
    }
}

/// The labels that `table` has for `keys`, in order.
pub open spec fn labels_for(keys: Seq<Key>, table: Map<Key, Seq<char>>) -> Seq<Seq<char>> {
    Seq::new(keys.len(), |i: int| table[keys[i]])
}

/// Whether a math region was closed, as a status.
pub open spec fn status_of(matched: bool) -> EVMathStatus {
    if matched {
        EVMathStatus::Success
    } else {
        EVMathStatus::Error
    }
}

/// What the entry of `node` holds, the children named by their labels
/// in `table`. A node without content becomes the text `unknown`.
pub open spec fn entry_value(node: NodeView, table: Map<Key, Seq<char>>) -> EntryValueView {
    match node {
        NodeView::ParagraphList(Some(keys)) => EntryValueView::Paragraphs(
            labels_for(keys, table),
        ),
        NodeView::Paragraph(Some(keys)) => EntryValueView::Paragraph(labels_for(keys, table)),
        NodeView::RawString(text) => EntryValueView::Text(text),
        NodeView::InlineCommand(Some(text)) => EntryValueView::InlineCommand(text),
        NodeView::MathExpr(math) => if math.disc.inline() {
            EntryValueView::InlineMath(status_of(math.matched), math.content)
        } else {
            EntryValueView::DisplayMath(status_of(math.matched), math.content)
        },
        _ => EntryValueView::Text("unknown"@),
    }
}

/// The entry of `node` under `key`, with the labels of `table`.
pub open spec fn entry_of(key: Key, node: NodeView, table: Map<Key, Seq<char>>) -> EntryView {
    EntryView { key: table[key], value: entry_value(node, table) }
}

/// Whether `table` has a label for `key` and for each child of `node`:
/// what it takes to turn `node` under `key` into an entry.
pub open spec fn labelled(key: Key, node: NodeView, table: Map<Key, Seq<char>>) -> bool {
    &&& table.contains_key(key)
    &&& forall|i: int|
        0 <= i < node.children().len() ==> table.contains_key(#[trigger] node.children()[i])
}

/// The label that `hash_table` has for `key`.
pub fn convert_key(key: Key, hash_table: &HashTable) -> (label: EntryKey)
    requires
        hash_table@.contains_key(key),
    ensures
        label@ == hash_table@[key],
{
    match hash_table.get(&key) {
        Some(text) => EntryKey(text.clone()),
        None => EntryKey(String::new()),
    }
}

/// The labels that `hash_table` has for `keys`, in order.
pub fn convert_keys(keys: Vec<Key>, hash_table: &HashTable) -> (labels: Vec<EntryKey>)
    requires
        forall|i: int| 0 <= i < keys@.len() ==> hash_table@.contains_key(#[trigger] keys@[i]),
    ensures
        key_views(labels@) == labels_for(keys@, hash_table@),
{
    let mut labels: Vec<EntryKey> = Vec::new();
    let mut i: usize = 0;
    while i < keys.len()
        invariant
            i <= keys@.len(),
            labels@.len() == i,
            forall|j: int| 0 <= j < keys@.len() ==> hash_table@.contains_key(#[trigger] keys@[j]),
            forall|j: int| 0 <= j < i ==> (#[trigger] labels@[j])@ == hash_table@[keys@[j]],
        decreases keys@.len() - i,
    {
        labels.push(convert_key(keys[i], hash_table));
        i = i + 1;
    }
    assert(key_views(labels@) =~= labels_for(keys@, hash_table@));
    labels
}

/// The entry of `node` under `key`, with the labels of `hash_table`.
pub fn convert_to_entry(key: Key, node: Node, hash_table: &HashTable) -> (entry: Entry)
    requires
        labelled(key, node@, hash_table@),
    ensures
        entry@ == entry_of(key, node@, hash_table@),
{
    let ghost children = node@.children();
    let value = match node {
        Node::ParagraphList(Some(ks)) => {
            proof {
                assert forall|i: int| 0 <= i < ks@.len() implies hash_table@.contains_key(
                    #[trigger] ks@[i],
                ) by {
                    assert(children[i] == ks@[i]);
                }
            }
            EntryValue::Paragraphs(EVKeys::new(convert_keys(ks, hash_table)))
        },
        Node::Paragraph(Some(ks)) => {
            proof {
                assert forall|i: int| 0 <= i < ks@.len() implies hash_table@.contains_key(
                    #[trigger] ks@[i],
                ) by {
                    assert(children[i] == ks@[i]);
                }
            }
            EntryValue::Paragraph(EVKeys::new(convert_keys(ks, hash_table)))
        },
        Node::RawString(s) => EntryValue::Text(EVText::new(s)),
        Node::InlineCommand(Some(s)) => EntryValue::InlineCommand(EVInlineCommand::new(s)),
        Node::MathExpr(v) => {
            let status = if v.is_ok() {
                EVMathStatus::Success
            } else {
                EVMathStatus::Error
            };
            let is_inline = v.is_inline();
            let content = v.content();

            if is_inline {
                EntryValue::InlineMath(EVMath { status, content })
            } else {
                EntryValue::DisplayMath(EVMath { status, content })
            }
        },
        _ => EntryValue::Text(EVText::new(String::from_str("unknown"))),
    };

    Entry { key: convert_key(key, hash_table), value }
}

} // verus!
