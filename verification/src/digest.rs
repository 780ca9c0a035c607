//! Content labels: for each node a text that depends on nothing but its
//! content and the labels of its children.

use std::collections::hash_map::DefaultHasher;
use std::collections::HashMap;
use std::hash::Hasher;
use vstd::prelude::*;
use vstd::std_specs::hash::DefaultHasherAdditionalSpecFns;
use vstd::string::StringSliceAdditionalSpecFns;
use vstd::utf8::encode_utf8;

use crate::key::Key;
use crate::math_expr::{MathDisc, MathExprParseResult, MathExprView};
use crate::node::NodeView;

verus! {

/// The hexadecimal digit of `d`, which is below sixteen.
pub open spec fn hex_digit(d: nat) -> char {
    if d == 0 {
        '0'
    } else if d == 1 {
        '1'
    } else if d == 2 {
        '2'
    } else if d == 3 {
        '3'
    } else if d == 4 {
        '4'
    } else if d == 5 {
        '5'
    } else if d == 6 {
        '6'
    } else if d == 7 {
        '7'
    } else if d == 8 {
        '8'
    } else if d == 9 {
        '9'
    } else if d == 10 {
        'a'
    } else if d == 11 {
        'b'
    } else if d == 12 {
        'c'
    } else if d == 13 {
        'd'
    } else if d == 14 {
        'e'
    } else {
        'f'
    }
}

/// `n` in hexadecimal digits, lower case, without leading zeros.
pub open spec fn hex_text(n: nat) -> Seq<char>
    decreases n,
{
    if n < 16 {
        seq![hex_digit(n)]
    } else {
        hex_text(n / 16).push(hex_digit(n % 16))
    }
}

fn hex_digit_of(d: u64) -> (c: char)
    requires
        d < 16,
    ensures
        c == hex_digit(d as nat),
{
    match d {
        0 => '0',
        1 => '1',
        2 => '2',
        3 => '3',
        4 => '4',
        5 => '5',
        6 => '6',
        7 => '7',
        8 => '8',
        9 => '9',
        10 => 'a',
        11 => 'b',
        12 => 'c',
        13 => 'd',
        14 => 'e',
        _ => 'f',
    }
}

fn push_hex(text: &mut String, n: u64)
    ensures
        final(text)@ == old(text)@ + hex_text(n as nat),
    decreases n,
{
    if n >= 16 {
        push_hex(text, n / 16);
    }
    text.push(hex_digit_of(n % 16));
    assert(text@ =~= old(text)@ + hex_text(n as nat));
}

/// `n` in hexadecimal digits, lower case, without leading zeros.
pub fn hex(n: u64) -> (text: String)
    ensures
        text@ == hex_text(n as nat),
{
    let mut text = String::new();
    push_hex(&mut text, n);
    assert(text@ =~= hex_text(n as nat));
    text
}

/// What a text feeds to a hasher: its UTF-8 bytes, then the byte `0xff`,
/// which stands in no UTF-8 text and so keeps two texts in a row apart.
pub open spec fn text_feed(text: Seq<char>) -> Seq<Seq<u8>> {
    seq![encode_utf8(text), seq![0xffu8]]
}

/// Texts are told apart by what they feed: two texts that feed the same
/// are the same text. (What a hasher makes of its feed is another
/// matter: two feeds may finish in one value.)
pub proof fn lemma_text_feed_tells_apart(a: Seq<char>, b: Seq<char>)
    requires
        text_feed(a) == text_feed(b),
    ensures
        a == b,
{
    vstd::utf8::encode_utf8_decode_utf8(a);
    vstd::utf8::encode_utf8_decode_utf8(b);
    assert(text_feed(a)[0] == encode_utf8(a));
    assert(text_feed(b)[0] == encode_utf8(b));
}

/// The byte that stands for a delimiter style.
pub open spec fn disc_byte(disc: MathDisc) -> u8 {
    match disc {
        MathDisc::BsParen => 0,
        MathDisc::BsBracket => 1,
        MathDisc::DoubleDollar => 2,
        MathDisc::SingleDollar => 3,
    }
}

/// The byte that stands for whether a region was closed.
pub open spec fn status_byte(matched: bool) -> u8 {
    if matched {
        1
    } else {
        0
    }
}

/// What a math region feeds to a hasher: a byte for its style and one
/// for whether it was closed, then its content.
pub open spec fn math_feed(math: MathExprView) -> Seq<Seq<u8>> {
    seq![seq![disc_byte(math.disc), status_byte(math.matched)]] + text_feed(math.content)
}

/// Feeds `text` to `hasher`.
pub fn write_text(hasher: &mut DefaultHasher, text: &str)
    ensures
        final(hasher)@ == old(hasher)@ + text_feed(text@),
{
    hasher.write(text.as_bytes());
    let end: [u8; 1] = [0xff];
    hasher.write(end.as_slice());
    assert(end@ =~= seq![0xffu8]);
    assert(text.spec_bytes() == encode_utf8(text@));
    assert(hasher@ =~= old(hasher)@ + text_feed(text@));
}

/// Feeds `math` to `hasher`.
pub fn write_math(hasher: &mut DefaultHasher, math: &MathExprParseResult)
    ensures
        final(hasher)@ == old(hasher)@ + math_feed(math@),
{
    let style: u8 = match math.disc() {
        MathDisc::BsParen => 0,
        MathDisc::BsBracket => 1,
        MathDisc::DoubleDollar => 2,
        MathDisc::SingleDollar => 3,
    };
    let status: u8 = if math.is_ok() {
        1
    } else {
        0
    };
    let head: [u8; 2] = [style, status];
    hasher.write(head.as_slice());
    write_text(hasher, math.content_ref().as_str());
    assert(head@ =~= seq![style, status]);
    assert(hasher@ =~= old(hasher)@ + math_feed(math@));
}

/// The label of what was fed to a hasher: its finished value in
/// hexadecimal digits.
pub open spec fn label_of_feed(feed: Seq<Seq<u8>>) -> Seq<char> {
    hex_text(DefaultHasher::spec_finish(feed) as nat)
}

/// The label of what was fed to `hasher`.
pub fn finish_label(hasher: &DefaultHasher) -> (label: String)
    ensures
        label@ == label_of_feed(hasher@),
{
    hex(hasher.finish())
}

/// Whether `rank` falls from every entry of `entries` to each of its
/// children.
pub open spec fn ranked(entries: Map<Key, NodeView>, rank: spec_fn(Key) -> nat) -> bool {
    forall|key: Key, i: int|
        #![trigger entries[key].children()[i]]
        entries.contains_key(key) && 0 <= i < entries[key].children().len() ==> rank(
            entries[key].children()[i],
        ) < rank(key)
}

/// Whether no entry of `entries` is its own descendant: some rank falls
/// from every entry to each of its children.
pub open spec fn acyclic(entries: Map<Key, NodeView>) -> bool {
    exists|rank: spec_fn(Key) -> nat| ranked(entries, rank)
}

/// A rank of `key` that falls from every entry to each of its children,
/// where `entries` is acyclic.
pub open spec fn height(entries: Map<Key, NodeView>, key: Key) -> nat {
    (choose|rank: spec_fn(Key) -> nat| ranked(entries, rank))(key)
}

/// The height falls from an entry to each of its children.
pub proof fn lemma_height_falls(entries: Map<Key, NodeView>, key: Key, i: int)
    requires
        acyclic(entries),
        entries.contains_key(key),
        0 <= i < entries[key].children().len(),
    ensures
        height(entries, entries[key].children()[i]) < height(entries, key),
{
    let rank = choose|rank: spec_fn(Key) -> nat| ranked(entries, rank);
    assert(ranked(entries, rank));
    let child = entries[key].children()[i];
    assert(rank(child) < rank(key));
}

/// The label of `key` in `entries`: the label of what its node feeds to
/// a hasher. A paragraph list and a paragraph feed the labels of their
/// children, in order; a text and a command feed their text; a math
/// region feeds its status, its style and its content; a key without an
/// entry, and a node without content, feed nothing.
pub open spec fn label(entries: Map<Key, NodeView>, key: Key) -> Seq<char>
    decreases height(entries, key), 1nat, 0nat,
    when acyclic(entries)
{
    label_of_feed(
        if entries.contains_key(key) {
            match entries[key] {
                NodeView::ParagraphList(Some(keys)) => children_feed(entries, key, keys.len()),
                NodeView::Paragraph(Some(keys)) => children_feed(entries, key, keys.len()),
                NodeView::RawString(text) => text_feed(text),
                NodeView::InlineCommand(Some(text)) => text_feed(text),
                NodeView::MathExpr(math) => math_feed(math),
                _ => Seq::empty(),
            }
        } else {
            Seq::empty()
        },
    )
}

/// What the first `upto` children of `parent` feed to a hasher: their
/// labels, in order.
pub open spec fn children_feed(entries: Map<Key, NodeView>, parent: Key, upto: nat) -> Seq<
    Seq<u8>,
>
    decreases height(entries, parent), 0nat, upto,
    when acyclic(entries) && entries.contains_key(parent) && upto
        <= entries[parent].children().len()
{
    if upto == 0 {
        Seq::empty()
    } else {
        proof {
            lemma_height_falls(entries, parent, upto - 1);
        }
        children_feed(entries, parent, (upto - 1) as nat) + text_feed(
            label(entries, entries[parent].children()[upto - 1]),
        )
    }
}

/// The keys that are reached from `key` in `entries`: the key itself
/// and what is reached from the children of its node.
pub open spec fn reach(entries: Map<Key, NodeView>, key: Key) -> Set<Key>
    decreases height(entries, key), 1nat, 0nat,
    when acyclic(entries)
{
    if entries.contains_key(key) {
        children_reach(entries, key, entries[key].children().len()).insert(key)
    } else {
        set![key]
    }
}

/// The keys that are reached from the first `upto` children of `parent`.
pub open spec fn children_reach(entries: Map<Key, NodeView>, parent: Key, upto: nat) -> Set<Key>
    decreases height(entries, parent), 0nat, upto,
    when acyclic(entries) && entries.contains_key(parent) && upto
        <= entries[parent].children().len()
{
    if upto == 0 {
        Set::empty()
    } else {
        proof {
            lemma_height_falls(entries, parent, upto - 1);
        }
        children_reach(entries, parent, (upto - 1) as nat).union(
            reach(entries, entries[parent].children()[upto - 1]),
        )
    }
}

/// A key is reached from itself.
pub proof fn lemma_reach_self(entries: Map<Key, NodeView>, key: Key)
    requires
        acyclic(entries),
    ensures
        reach(entries, key).contains(key),
{
}

proof fn lemma_children_reach(entries: Map<Key, NodeView>, parent: Key, upto: nat, c: int)
    requires
        acyclic(entries),
        entries.contains_key(parent),
        0 <= c < upto <= entries[parent].children().len(),
    ensures
        reach(entries, entries[parent].children()[c]).subset_of(
            children_reach(entries, parent, upto),
        ),
    decreases upto,
{
    if c < upto - 1 {
        lemma_children_reach(entries, parent, (upto - 1) as nat, c);
    }
}

/// What is reached from a child is reached from its parent.
pub proof fn lemma_reach_child(entries: Map<Key, NodeView>, parent: Key, c: int)
    requires
        acyclic(entries),
        entries.contains_key(parent),
        0 <= c < entries[parent].children().len(),
    ensures
        reach(entries, entries[parent].children()[c]).subset_of(reach(entries, parent)),
        reach(entries, parent).contains(entries[parent].children()[c]),
{
    lemma_children_reach(entries, parent, entries[parent].children().len(), c);
    lemma_reach_self(entries, entries[parent].children()[c]);
}

proof fn lemma_children_reach_origin(
    entries: Map<Key, NodeView>,
    parent: Key,
    upto: nat,
    key: Key,
) -> (c: int)
    requires
        acyclic(entries),
        entries.contains_key(parent),
        upto <= entries[parent].children().len(),
        children_reach(entries, parent, upto).contains(key),
    ensures
        0 <= c < upto,
        reach(entries, entries[parent].children()[c]).contains(key),
    decreases upto,
{
    if reach(entries, entries[parent].children()[upto - 1]).contains(key) {
        upto - 1
    } else {
        lemma_children_reach_origin(entries, parent, (upto - 1) as nat, key)
    }
}

/// What is reached from a key that is reached is reached too.
pub proof fn lemma_reach_transitive(entries: Map<Key, NodeView>, from: Key, by: Key)
    requires
        acyclic(entries),
        reach(entries, from).contains(by),
    ensures
        reach(entries, by).subset_of(reach(entries, from)),
    decreases height(entries, from),
{
    if by != from {
        let c = lemma_children_reach_origin(
            entries,
            from,
            entries[from].children().len(),
            by,
        );
        lemma_height_falls(entries, from, c);
        lemma_reach_transitive(entries, entries[from].children()[c], by);
        lemma_reach_child(entries, from, c);
    }
}

/// The labels of an arena: that of each key reached from `root`.
pub open spec fn labels(entries: Map<Key, NodeView>, root: Key) -> Map<Key, Seq<char>> {
    Map::new(|key: Key| reach(entries, root).contains(key), |key: Key| label(entries, key))
}

/// What a map from key numbers to texts holds, as a map from keys.
pub open spec fn keyed_texts(texts: Map<u32, String>) -> Map<Key, Seq<char>> {
    Map::new(|key: Key| texts.contains_key(key.value), |key: Key| texts[key.value]@)
}

/// A table of labels, by key.
#[derive(Debug)]
pub struct HashTable {
    texts: HashMap<u32, String>,
}

impl View for HashTable {
    type V = Map<Key, Seq<char>>;

    closed spec fn view(&self) -> Map<Key, Seq<char>> {
        keyed_texts(self.texts@)
    }
}

impl HashTable {
    /// The table that holds nothing.
    pub fn new() -> (table: HashTable)
        ensures
            table@ == Map::<Key, Seq<char>>::empty(),
    {
        let table = HashTable { texts: HashMap::new() };
        assert(table@ =~= Map::<Key, Seq<char>>::empty());
        table
    }

    /// The label under `key`, if there is one.
    pub fn get(&self, key: &Key) -> (text: Option<&String>)
        ensures
            match text {
                Some(text) => self@.contains_key(*key) && self@[*key] == text@,
                None => !self@.contains_key(*key),
            },
    {
        self.texts.get(&key.value)
    }

    /// Puts `text` under `key`, in place of what was there.
    pub fn insert(&mut self, key: Key, text: String)
        ensures
            final(self)@ == old(self)@.insert(key, text@),
    {
        self.texts.insert(key.value, text);
        assert(self@ =~= old(self)@.insert(key, text@));
    }

    /// Whether every label of the table is that of its key in `entries`
    /// and stands together with those of all that is reached from it.
    pub open spec fn sound(self, entries: Map<Key, NodeView>) -> bool {
        forall|key: Key| #[trigger]
            self@.contains_key(key) ==> self@[key] == label(entries, key) && reach(
                entries,
                key,
            ).subset_of(self@.dom())
    }
}

/// Each child feeds two pieces: the bytes of its label and the byte
/// that ends them.
proof fn lemma_children_feed_len(entries: Map<Key, NodeView>, parent: Key, upto: nat)
    requires
        acyclic(entries),
        entries.contains_key(parent),
        upto <= entries[parent].children().len(),
    ensures
        children_feed(entries, parent, upto).len() == 2 * upto,
    decreases upto,
{
    if upto > 0 {
        lemma_children_feed_len(entries, parent, (upto - 1) as nat);
    }
}

/// Parents are told apart by what their children feed: where two
/// parents feed the same, child by child the labels are the same. So a
/// label that changes changes what every node above it feeds. (Whether
/// it changes their labels is up to the hasher, which may finish two
/// feeds in one value.)
pub proof fn lemma_children_feed_tells_apart(
    a: Map<Key, NodeView>,
    parent_a: Key,
    b: Map<Key, NodeView>,
    parent_b: Key,
    upto: nat,
    c: int,
)
    requires
        acyclic(a),
        acyclic(b),
        a.contains_key(parent_a),
        b.contains_key(parent_b),
        upto <= a[parent_a].children().len(),
        upto <= b[parent_b].children().len(),
        children_feed(a, parent_a, upto) == children_feed(b, parent_b, upto),
        0 <= c < upto,
    ensures
        label(a, a[parent_a].children()[c]) == label(b, b[parent_b].children()[c]),
    decreases upto,
{
    let before = (upto - 1) as nat;
    let front_a = children_feed(a, parent_a, before);
    let front_b = children_feed(b, parent_b, before);
    let last_a = text_feed(label(a, a[parent_a].children()[upto - 1]));
    let last_b = text_feed(label(b, b[parent_b].children()[upto - 1]));
    lemma_children_feed_len(a, parent_a, before);
    lemma_children_feed_len(b, parent_b, before);
    let whole = children_feed(a, parent_a, upto);
    assert(whole == front_a + last_a);
    assert(whole == front_b + last_b);
    let cut = (2 * before) as int;
    assert(front_a =~= whole.take(cut));
    assert(front_b =~= whole.take(cut));
    assert(last_a =~= whole.skip(cut));
    assert(last_b =~= whole.skip(cut));
    if c == upto - 1 {
        lemma_text_feed_tells_apart(
            label(a, a[parent_a].children()[c]),
            label(b, b[parent_b].children()[c]),
        );
    } else {
        lemma_children_feed_tells_apart(a, parent_a, b, parent_b, before, c);
    }
}

/// What hangs on a key, without the keys themselves: nothing where the
/// key has no entry, and else its node, the keys of the children left
/// out, and what hangs on each child.
pub enum Subtree {
    Missing,
    Entry { node: NodeView, children: Seq<Subtree> },
}

/// `node` with the keys of its children left out.
pub open spec fn without_keys(node: NodeView) -> NodeView {
    match node {
        NodeView::ParagraphList(Some(_)) => NodeView::ParagraphList(Some(Seq::empty())),
        NodeView::Paragraph(Some(_)) => NodeView::Paragraph(Some(Seq::empty())),
        _ => node,
    }
}

/// What hangs on `key` in `entries`.
pub open spec fn subtree(entries: Map<Key, NodeView>, key: Key) -> Subtree
    decreases height(entries, key), 1nat, 0nat,
    when acyclic(entries)
{
    if entries.contains_key(key) {
        Subtree::Entry {
            node: without_keys(entries[key]),
            children: children_subtrees(entries, key, entries[key].children().len()),
        }
    } else {
        Subtree::Missing
    }
}

/// What hangs on each of the first `upto` children of `parent`.
pub open spec fn children_subtrees(entries: Map<Key, NodeView>, parent: Key, upto: nat) -> Seq<
    Subtree,
>
    decreases height(entries, parent), 0nat, upto,
    when acyclic(entries) && entries.contains_key(parent) && upto
        <= entries[parent].children().len()
{
    if upto == 0 {
        Seq::empty()
    } else {
        proof {
            lemma_height_falls(entries, parent, upto - 1);
        }
        children_subtrees(entries, parent, (upto - 1) as nat).push(
            subtree(entries, entries[parent].children()[upto - 1]),
        )
    }
}

proof fn lemma_children_subtrees(entries: Map<Key, NodeView>, parent: Key, upto: nat)
    requires
        acyclic(entries),
        entries.contains_key(parent),
        upto <= entries[parent].children().len(),
    ensures
        children_subtrees(entries, parent, upto).len() == upto,
        forall|c: int|
            0 <= c < upto ==> #[trigger] children_subtrees(entries, parent, upto)[c] == subtree(
                entries,
                entries[parent].children()[c],
            ),
    decreases upto,
{
    if upto > 0 {
        lemma_children_subtrees(entries, parent, (upto - 1) as nat);
    }
}

proof fn lemma_children_feed_alike(
    a: Map<Key, NodeView>,
    key_a: Key,
    b: Map<Key, NodeView>,
    key_b: Key,
    upto: nat,
)
    requires
        acyclic(a),
        acyclic(b),
        a.contains_key(key_a),
        b.contains_key(key_b),
        upto <= a[key_a].children().len(),
        upto <= b[key_b].children().len(),
        forall|c: int|
            0 <= c < upto ==> subtree(a, #[trigger] a[key_a].children()[c]) == subtree(
                b,
                b[key_b].children()[c],
            ),
    ensures
        children_feed(a, key_a, upto) == children_feed(b, key_b, upto),
    decreases height(a, key_a), 0nat, upto,
{
    if upto > 0 {
        lemma_children_feed_alike(a, key_a, b, key_b, (upto - 1) as nat);
        lemma_height_falls(a, key_a, upto - 1);
        let child_a = a[key_a].children()[upto - 1];
        let child_b = b[key_b].children()[upto - 1];
        assert(subtree(a, child_a) == subtree(b, child_b));
        lemma_label_of_subtree(a, child_a, b, child_b);
    }
}

/// The label of a key depends on what hangs on it alone: two keys, of
/// one arena or of two, on which the same hangs have the same label.
pub proof fn lemma_label_of_subtree(
    a: Map<Key, NodeView>,
    key_a: Key,
    b: Map<Key, NodeView>,
    key_b: Key,
)
    requires
        acyclic(a),
        acyclic(b),
        subtree(a, key_a) == subtree(b, key_b),
    ensures
        label(a, key_a) == label(b, key_b),
    decreases height(a, key_a), 1nat, 0nat,
{
    if a.contains_key(key_a) {
        assert(b.contains_key(key_b));
        let count_a = a[key_a].children().len();
        let count_b = b[key_b].children().len();
        lemma_children_subtrees(a, key_a, count_a);
        lemma_children_subtrees(b, key_b, count_b);
        assert(count_a == count_b);
        assert forall|c: int| 0 <= c < count_a implies subtree(
            a,
            #[trigger] a[key_a].children()[c],
        ) == subtree(b, b[key_b].children()[c]) by {
            assert(children_subtrees(a, key_a, count_a)[c] == children_subtrees(
                b,
                key_b,
                count_b,
            )[c]);
        }
        lemma_children_feed_alike(a, key_a, b, key_b, count_a);
    }
}

} // verus!
