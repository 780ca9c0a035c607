//! Arenas: the nodes of a parse, each under its key, with a root.

use std::collections::hash_map::DefaultHasher;
use std::collections::BTreeMap;
use vstd::prelude::*;
use vstd::std_specs::iter::IteratorSpec;

use crate::digest::{
    acyclic, children_feed, children_reach, finish_label, height, label, labels,
    lemma_height_falls, reach, write_math, write_text, HashTable,
};

use crate::key::Key;
use crate::node::{Node, NodeView};

verus! {

/// An arena as a value: the root key and the node under each key.
pub struct ArenaView {
    pub root: Key,
    pub entries: Map<Key, NodeView>,
}

impl ArenaView {
    /// Whether the root key has an entry, as it has in every arena that
    /// `ResultMap::new` made and `ResultMap::merge` grew.
    pub open spec fn wf(self) -> bool {
        self.entries.contains_key(self.root)
    }
}

/// The map `base` after each of `more` was folded in, in order: an entry
/// of a later map replaces one under the same key.
pub open spec fn merged(base: Map<Key, NodeView>, more: Seq<Map<Key, NodeView>>) -> Map<
    Key,
    NodeView,
>
    decreases more.len(),
{
    if more.len() == 0 {
        base
    } else {
        merged(base, more.drop_last()).union_prefer_right(more.last())
    }
}

/// A key that none of the maps folded in holds keeps what it had.
pub proof fn lemma_merged_untouched(
    base: Map<Key, NodeView>,
    more: Seq<Map<Key, NodeView>>,
    key: Key,
)
    requires
        forall|j: int| 0 <= j < more.len() ==> !(#[trigger] more[j]).contains_key(key),
    ensures
        merged(base, more).contains_key(key) == base.contains_key(key),
        base.contains_key(key) ==> merged(base, more)[key] == base[key],
    decreases more.len(),
{
    if more.len() > 0 {
        let front = more.drop_last();
        assert forall|j: int| 0 <= j < front.len() implies !(#[trigger] front[j]).contains_key(
            key,
        ) by {
            assert(front[j] == more[j]);
        }
        lemma_merged_untouched(base, front, key);
        assert(!more[more.len() - 1].contains_key(key));
    }
}

/// A key has what the last of the maps that hold it gives it.
pub proof fn lemma_merged_last_wins(
    base: Map<Key, NodeView>,
    more: Seq<Map<Key, NodeView>>,
    key: Key,
    i: int,
)
    requires
        0 <= i < more.len(),
        more[i].contains_key(key),
        forall|j: int| i < j < more.len() ==> !(#[trigger] more[j]).contains_key(key),
    ensures
        merged(base, more).contains_key(key),
        merged(base, more)[key] == more[i][key],
    decreases more.len(),
{
    let front = more.drop_last();
    if i == more.len() - 1 {
    } else {
        assert(front[i] == more[i]);
        assert forall|j: int| i < j < front.len() implies !(#[trigger] front[j]).contains_key(
            key,
        ) by {
            assert(front[j] == more[j]);
        }
        lemma_merged_last_wins(base, front, key, i);
        assert(!more[more.len() - 1].contains_key(key));
    }
}

/// A merge loses no key: what the base or any of the maps folded in
/// holds a node for, the merged map holds a node for.
pub proof fn lemma_merged_keeps_keys(
    base: Map<Key, NodeView>,
    more: Seq<Map<Key, NodeView>>,
    key: Key,
)
    requires
        base.contains_key(key) || exists|i: int|
            0 <= i < more.len() && (#[trigger] more[i]).contains_key(key),
    ensures
        merged(base, more).contains_key(key),
    decreases more.len(),
{
    if more.len() > 0 {
        let front = more.drop_last();
        if !more.last().contains_key(key) {
            if !base.contains_key(key) {
                let i = choose|i: int|
                    0 <= i < more.len() && (#[trigger] more[i]).contains_key(key);
                assert(front[i] == more[i]);
            }
            lemma_merged_keeps_keys(base, front, key);
        }
    }
}

/// Every key of a merged map is one of the base or of a map folded in.
pub proof fn lemma_merged_origin(
    base: Map<Key, NodeView>,
    more: Seq<Map<Key, NodeView>>,
    key: Key,
)
    requires
        merged(base, more).contains_key(key),
    ensures
        (base.contains_key(key) && merged(base, more)[key] == base[key]) || exists|i: int|
            0 <= i < more.len() && (#[trigger] more[i]).contains_key(key) && merged(
                base,
                more,
            )[key] == more[i][key],
    decreases more.len(),
{
    if more.len() > 0 {
        let front = more.drop_last();
        let last = more.len() - 1;
        if more[last].contains_key(key) {
        } else {
            lemma_merged_origin(base, front, key);
            if !(base.contains_key(key) && merged(base, front)[key] == base[key]) {
                let i = choose|i: int|
                    0 <= i < front.len() && (#[trigger] front[i]).contains_key(key) && merged(
                        base,
                        front,
                    )[key] == front[i][key];
                assert(more[i] == front[i]);
            }
        }
    }
}

/// The entries of each arena of `arenas`, in order.
pub open spec fn entries_of(arenas: Seq<ResultMap>) -> Seq<Map<Key, NodeView>> {
    Seq::new(arenas.len(), |i: int| arenas[i]@.entries)
}

/// What a map from key numbers to nodes holds, as a map from keys to
/// node values.
spec fn keyed(entries: Map<u32, Node>) -> Map<Key, NodeView> {
    Map::new(|key: Key| entries.contains_key(key.value), |key: Key| entries[key.value]@)
}

/// Of two items of a sequence in increasing order the earlier one is
/// the lesser.
proof fn lemma_increasing_pair<K: Ord>(s: Seq<K>, i: int, j: int)
    requires
        vstd::laws_cmp::obeys_cmp::<K>(),
        vstd::std_specs::btree::increasing_seq(s),
        0 <= i < j < s.len(),
    ensures
        vstd::std_specs::cmp::OrdSpec::cmp_spec(&s[i], &s[j]) is Less,
{
    vstd::std_specs::btree::axiom_increasing_seq_meaning(s);
}

/// References to numbers are ordered as the numbers are.
proof fn lemma_number_refs_ordered()
    ensures
        vstd::laws_cmp::obeys_cmp::<&u32>(),
{
    broadcast use vstd::laws_eq::group_laws_eq;

    reveal(vstd::laws_eq::obeys_eq_spec_properties);
    reveal(vstd::laws_cmp::obeys_partial_cmp_spec_properties);
    reveal(vstd::laws_cmp::obeys_cmp_partial_ord);
    reveal(vstd::laws_cmp::obeys_cmp_ord);
}

/// Of two numbers of a sequence in increasing order the earlier one is
/// the lesser.
proof fn lemma_increasing_numbers(s: Seq<&u32>, i: int, j: int)
    requires
        vstd::std_specs::btree::increasing_seq(s),
        0 <= i < j < s.len(),
    ensures
        *s[i] < *s[j],
{
    lemma_number_refs_ordered();
    lemma_increasing_pair::<&u32>(s, i, j);
}

/// A sequence is the whole of itself.
proof fn lemma_take_all<T>(s: Seq<T>)
    ensures
        s.take(s.len() as int) == s,
{
    assert(s.take(s.len() as int) =~= s);
}

/// The keys of `entries`, each once, in increasing order.
fn sorted_keys(entries: &BTreeMap<u32, Node>) -> (keys: Vec<u32>)
    ensures
        forall|k: u32| entries@.contains_key(k) <==> #[trigger] keys@.contains(k),
        forall|i: int, j: int| 0 <= i < j < keys@.len() ==> keys@[i] < keys@[j],
{
    let mut keys: Vec<u32> = Vec::new();
    for k in it: entries.keys()
        invariant
            keys@ == it.seq().take(it.index()).unref(),
            it.seq() == vstd::std_specs::btree::spec_keys_iter(entries).remaining(),
    {
        keys.push(*k);
    }
    proof {
        let all = vstd::std_specs::btree::spec_keys_iter(entries).remaining();
        lemma_take_all(all);
        assert(keys@ == all.unref());
        assert(all.unref().to_set() == entries@.dom());
        assert forall|k: u32| entries@.contains_key(k) <==> #[trigger] keys@.contains(k) by {
            assert(entries@.dom().contains(k) <==> keys@.to_set().contains(k));
        }
        assert forall|i: int, j: int| 0 <= i < j < keys@.len() implies keys@[i] < keys@[j] by {
            lemma_increasing_numbers(all, i, j);
        }
    }
    keys
}

/// The map `base` after each entry of `pairs` was put into it, in order.
spec fn inserted(base: Map<u32, Node>, pairs: Seq<(Key, Node)>) -> Map<u32, Node>
    decreases pairs.len(),
{
    if pairs.len() == 0 {
        base
    } else {
        inserted(base, pairs.drop_last()).insert(pairs.last().0.value, pairs.last().1)
    }
}

/// The keys of a map into which entries were put are its own and
/// theirs, and a key that is none of theirs keeps what it had.
proof fn lemma_inserted_keys(base: Map<u32, Node>, pairs: Seq<(Key, Node)>, k: u32)
    ensures
        inserted(base, pairs).contains_key(k) <==> base.contains_key(k) || exists|i: int|
            0 <= i < pairs.len() && (#[trigger] pairs[i]).0.value == k,
        (forall|i: int| 0 <= i < pairs.len() ==> (#[trigger] pairs[i]).0.value != k)
            && base.contains_key(k) ==> inserted(base, pairs)[k] == base[k],
    decreases pairs.len(),
{
    if pairs.len() > 0 {
        let front = pairs.drop_last();
        lemma_inserted_keys(base, front, k);
        let last = pairs.len() - 1;
        if pairs[last].0.value != k {
            if exists|i: int| 0 <= i < pairs.len() && (#[trigger] pairs[i]).0.value == k {
                let i = choose|i: int| 0 <= i < pairs.len() && (#[trigger] pairs[i]).0.value == k;
                assert(front[i] == pairs[i]);
            }
            if exists|i: int| 0 <= i < front.len() && (#[trigger] front[i]).0.value == k {
                let i = choose|i: int| 0 <= i < front.len() && (#[trigger] front[i]).0.value == k;
                assert(front[i] == pairs[i]);
            }
            if forall|i: int| 0 <= i < pairs.len() ==> (#[trigger] pairs[i]).0.value != k {
                assert forall|i: int| 0 <= i < front.len() implies (#[trigger] front[i]).0.value
                    != k by {
                    assert(front[i] == pairs[i]);
                }
            }
        }
    }
}

/// A key of entries with increasing keys that were put into a map has
/// there what it came with.
proof fn lemma_inserted_value(base: Map<u32, Node>, pairs: Seq<(Key, Node)>, i: int)
    requires
        forall|a: int, b: int| 0 <= a < b < pairs.len() ==> pairs[a].0.value < pairs[b].0.value,
        0 <= i < pairs.len(),
    ensures
        inserted(base, pairs).contains_key(pairs[i].0.value),
        inserted(base, pairs)[pairs[i].0.value] == pairs[i].1,
    decreases pairs.len(),
{
    let front = pairs.drop_last();
    if i < pairs.len() - 1 {
        assert forall|a: int, b: int| 0 <= a < b < front.len() implies front[a].0.value
            < front[b].0.value by {
            assert(front[a] == pairs[a]);
            assert(front[b] == pairs[b]);
        }
        assert(front[i] == pairs[i]);
        lemma_inserted_value(base, front, i);
        assert(pairs[i].0.value < pairs[pairs.len() - 1].0.value);
    }
}

/// Puts each entry of `pairs` into `entries`, in order.
fn insert_all(entries: &mut BTreeMap<u32, Node>, pairs: Vec<(Key, Node)>)
    ensures
        final(entries)@ == inserted(old(entries)@, pairs@),
{
    for pair in it: pairs.into_iter()
        invariant
            it.seq() == pairs@,
            entries@ == inserted(old(entries)@, pairs@.take(it.index())),
    {
        proof {
            let n = it.index();
            assert(pairs@.take(n + 1).drop_last() =~= pairs@.take(n));
            assert(pairs@.take(n + 1).last() == pair);
        }
        let (key, node) = pair;
        entries.insert(key.value, node);
    }
    proof {
        assert(pairs@.take(pairs@.len() as int) =~= pairs@);
    }
}

/// The nodes of one parse or of a part of one, each under its key, and
/// the key of the node at the top. The root key always has an entry.
#[derive(Debug)]
pub struct ResultMap {
    root: Key,
    entries: BTreeMap<u32, Node>,
}

impl View for ResultMap {
    type V = ArenaView;

    closed spec fn view(&self) -> ArenaView {
        ArenaView { root: self.root, entries: keyed(self.entries@) }
    }
}

impl ResultMap {
    /// The arena of the one entry `node` under `key`, which is its root.
    pub fn new(key: Key, node: Node) -> (arena: ResultMap)
        ensures
            arena@.wf(),
            arena@.root == key,
            arena@.entries == Map::<Key, NodeView>::empty().insert(key, node@),
    {
        let mut entries: BTreeMap<u32, Node> = BTreeMap::new();
        entries.insert(key.value, node);
        assert(keyed(entries@) =~= Map::<Key, NodeView>::empty().insert(key, node@));
        ResultMap { root: key, entries }
    }

    /// The root key.
    pub fn root(&self) -> (key: Key)
        ensures
            key == self@.root,
    {
        self.root
    }

    /// The node under `key`, if there is one.
    pub fn get(&self, key: &Key) -> (node: Option<&Node>)
        ensures
            match node {
                Some(node) => self@.entries.contains_key(*key) && self@.entries[*key] == node@,
                None => !self@.entries.contains_key(*key),
            },
    {
        self.entries.get(&key.value)
    }

    /// The entries, each exactly once, in increasing order of their keys.
    pub fn into_entries(self) -> (entries: Vec<(Key, Node)>)
        ensures
            forall|i: int, j: int|
                0 <= i < j < entries@.len() ==> entries@[i].0.value < entries@[j].0.value,
            forall|i: int|
                0 <= i < entries@.len() ==> self@.entries.contains_key(#[trigger] entries@[i].0)
                    && self@.entries[entries@[i].0] == entries@[i].1@,
            forall|key: Key| #[trigger]
                self@.entries.contains_key(key) ==> exists|i: int|
                    0 <= i < entries@.len() && entries@[i].0 == key,
    {
        let ghost all = self.entries@;
        let keys = sorted_keys(&self.entries);
        let mut rest = self.entries;
        let mut entries: Vec<(Key, Node)> = Vec::new();
        let mut n: usize = 0;
        proof {
            assert forall|i: int| 0 <= i < keys@.len() implies all.contains_key(
                #[trigger] keys@[i],
            ) by {
                assert(keys@.contains(keys@[i]));
            }
        }
        while n < keys.len()
            invariant
                n <= keys@.len(),
                entries@.len() == n,
                forall|i: int| 0 <= i < keys@.len() ==> all.contains_key(#[trigger] keys@[i]),
                forall|k: u32| all.contains_key(k) <==> #[trigger] keys@.contains(k),
                forall|i: int, j: int| 0 <= i < j < keys@.len() ==> keys@[i] < keys@[j],
                forall|i: int|
                    n <= i < keys@.len() ==> rest@.contains_key(#[trigger] keys@[i]) && rest@[keys@[i]]
                        == all[keys@[i]],
                forall|i: int|
                    0 <= i < n ==> (#[trigger] entries@[i]).0.value == keys@[i] && entries@[i].1
                        == all[keys@[i]],
            decreases keys@.len() - n,
        {
            let k = keys[n];
            let ghost before = rest@;
            match rest.remove(&k) {
                Some(node) => {
                    entries.push((Key { value: k }, node));
                },
                None => {},
            }
            proof {
                assert forall|i: int| n < i < keys@.len() implies rest@.contains_key(
                    #[trigger] keys@[i],
                ) && rest@[keys@[i]] == all[keys@[i]] by {
                    assert(before.contains_key(keys@[i]));
                    assert(keys@[n as int] < keys@[i]);
                }
            }
            n = n + 1;
        }
        proof {
            assert forall|i: int| 0 <= i < entries@.len() implies self@.entries.contains_key(
                #[trigger] entries@[i].0,
            ) && self@.entries[entries@[i].0] == entries@[i].1@ by {
                assert(keys@.contains(keys@[i]));
            }
            assert forall|key: Key| #[trigger] self@.entries.contains_key(key) implies exists|
                i: int,
            |
                0 <= i < entries@.len() && entries@[i].0 == key by {
                assert(keys@.contains(key.value));
                let i = choose|i: int| 0 <= i < keys@.len() && keys@[i] == key.value;
                assert(entries@[i].0 == key);
            }
        }
        entries
    }

    /// The labels of the arena: for each key that is reached from the
    /// root, a text that depends on the content below it alone.
    pub fn hash_table(&self) -> (table: HashTable)
        requires
            acyclic(self@.entries),
        ensures
            table@ == labels(self@.entries, self@.root),
    {
        let mut table = HashTable::new();
        self.hash_by_value_at(&self.root, &mut table);
        assert(table@ =~= labels(self@.entries, self@.root));
        table
    }

    /// The label of `key`, taken from `table` where it is there, and
    /// else computed from its node and the labels of its children, and
    /// put into `table` together with theirs.
    fn hash_by_value_at(&self, key: &Key, table: &mut HashTable) -> (hash: String)
        requires
            acyclic(self@.entries),
            old(table).sound(self@.entries),
        ensures
            hash@ == label(self@.entries, *key),
            final(table).sound(self@.entries),
            final(table)@.dom() == old(table)@.dom().union(reach(self@.entries, *key)),
        decreases height(self@.entries, *key),
    {
        let ghost entries = self@.entries;
        if let Some(hash) = table.get(key) {
            proof {
                assert(table@.dom().union(reach(entries, *key)) =~= table@.dom());
            }
            return hash.clone();
        }
        let mut hasher = DefaultHasher::new();

        if let Some(node) = self.get(key) {
            match node {
                Node::ParagraphList(Some(ks)) => {
                    let mut i: usize = 0;
                    while i < ks.len()
                        invariant
                            i <= ks@.len(),
                            entries == self@.entries,
                            acyclic(entries),
                            entries.contains_key(*key),
                            ks@ == entries[*key].children(),
                            hasher@ == children_feed(entries, *key, i as nat),
                            table.sound(entries),
                            table@.dom() == old(table)@.dom().union(
                                children_reach(entries, *key, i as nat),
                            ),
                        decreases ks@.len() - i,
                    {
                        proof {
                            lemma_height_falls(entries, *key, i as int);
                        }
                        let hash = self.hash_by_value_at(&ks[i], table);
                        write_text(&mut hasher, hash.as_str());
                        i = i + 1;
                        proof {
                            assert(table@.dom() =~= old(table)@.dom().union(
                                children_reach(entries, *key, i as nat),
                            ));
                        }
                    }
                },
                Node::Paragraph(Some(ks)) => {
                    let mut i: usize = 0;
                    while i < ks.len()
                        invariant
                            i <= ks@.len(),
                            entries == self@.entries,
                            acyclic(entries),
                            entries.contains_key(*key),
                            ks@ == entries[*key].children(),
                            hasher@ == children_feed(entries, *key, i as nat),
                            table.sound(entries),
                            table@.dom() == old(table)@.dom().union(
                                children_reach(entries, *key, i as nat),
                            ),
                        decreases ks@.len() - i,
                    {
                        proof {
                            lemma_height_falls(entries, *key, i as int);
                        }
                        let hash = self.hash_by_value_at(&ks[i], table);
                        write_text(&mut hasher, hash.as_str());
                        i = i + 1;
                        proof {
                            assert(table@.dom() =~= old(table)@.dom().union(
                                children_reach(entries, *key, i as nat),
                            ));
                        }
                    }
                },
                Node::RawString(s) => {
                    write_text(&mut hasher, s.as_str());
                },
                Node::InlineCommand(Some(s)) => {
                    write_text(&mut hasher, s.as_str());
                },
                Node::MathExpr(me) => {
                    write_math(&mut hasher, me);
                },
                _ => {},
            }
        }
        let hash = finish_label(&hasher);
        proof {
            assert(hash@ == label(entries, *key));
        }
        let ghost before = table@;
        table.insert(*key, hash.clone());
        proof {
            assert(table@.dom() =~= old(table)@.dom().union(reach(entries, *key)));
            assert forall|k: Key| #[trigger] table@.contains_key(k) implies table@[k] == label(
                entries,
                k,
            ) && reach(entries, k).subset_of(table@.dom()) by {
                if k != *key {
                    assert(before.contains_key(k));
                }
            }
        }
        hash
    }

    /// Folds the entries of each child into this arena, in order. The
    /// root stays; an entry of a child replaces one under the same key.
    pub fn merge(&mut self, children: Vec<ResultMap>)
        ensures
            final(self)@.root == old(self)@.root,
            final(self)@.entries == merged(old(self)@.entries, entries_of(children@)),
            old(self)@.wf() ==> final(self)@.wf(),
    {
        let ghost all = entries_of(children@);
        for child in it: children.into_iter()
            invariant
                it.seq() == children@,
                all == entries_of(children@),
                self.root == old(self).root,
                old(self)@.wf() ==> self.entries@.contains_key(self.root.value),
                keyed(self.entries@) == merged(old(self)@.entries, all.take(it.index())),
        {
            let ghost before = self.entries@;
            let ghost incoming = child@.entries;
            let pairs = child.into_entries();
            let ghost listed = pairs@;
            insert_all(&mut self.entries, pairs);
            proof {
                let n = it.index();
                assert(all.take(n + 1).drop_last() =~= all.take(n));
                assert(all.take(n + 1).last() == incoming);
                assert forall|key: Key| #[trigger]
                    keyed(self.entries@).contains_key(key) <==> keyed(before).union_prefer_right(
                        incoming,
                    ).contains_key(key) by {
                    lemma_inserted_keys(before, listed, key.value);
                    if incoming.contains_key(key) {
                        let i = choose|i: int| 0 <= i < listed.len() && listed[i].0 == key;
                        assert(listed[i].0.value == key.value);
                    }
                }
                assert forall|key: Key| #[trigger]
                    keyed(self.entries@).contains_key(key) implies keyed(self.entries@)[key]
                    == keyed(before).union_prefer_right(incoming)[key] by {
                    if incoming.contains_key(key) {
                        let i = choose|i: int| 0 <= i < listed.len() && listed[i].0 == key;
                        lemma_inserted_value(before, listed, i);
                    } else {
                        assert forall|i: int| 0 <= i < listed.len() implies (
                        #[trigger] listed[i]).0.value != key.value by {
                            assert(incoming.contains_key(listed[i].0));
                        }
                        lemma_inserted_keys(before, listed, key.value);
                    }
                }
                assert(keyed(self.entries@) =~= keyed(before).union_prefer_right(incoming));
                lemma_inserted_keys(before, listed, self.root.value);
            }
        }
        proof {
            assert(all.take(all.len() as int) =~= all);
        }
    }
}

} // verus!

