//! An unbalanced binary search tree, and a lazy in-order cursor over it.
//!
//! The tree follows its model, a [`TreeShape`]: `insert` does to the nodes
//! what `TreeShape::put` does to the shape, and a cursor's stack moves as
//! `advance` says. Most clients read a tree as the `Map` that its shape holds
//! (`tree@`), and a cursor as the entries that it has yet to yield
//! (`cursor@`).
use crate::order::{
    key_lt, keys_of, lemma_ordered_elements_unique, lemma_ordered_listing_len,
    lemma_ordered_listing_unique, ordered_elements, ordered_listing, strict_total_order, values_of,
};
use crate::shape::TreeShape;
use crate::walk::{
    advance, advance_by, lemma_advance_by, lemma_advance_pending, lemma_start_pending,
    lemma_visited, pending, visited,
};
use std::cmp::Ordering;
use vstd::prelude::*;

verus! {

type Link<K, V> = Option<Box<BTNode<K, V>>>;

/// A key-ordered map from `K` to `V`, held as a binary search tree whose shape
/// follows the order of insertion: nothing ever rebalances it.
#[derive(Debug)]
pub struct BinarySearchTree<K, V>
where
    K: Ord,
{
    root: Link<K, V>,
    size: usize,
}

#[derive(Debug)]
struct BTNode<K, V>
where
    K: Ord,
{
    key: K,
    value: V,
    left: Link<K, V>,
    right: Link<K, V>,
}

/// The shape of the nodes that `link` owns.
spec fn shape_of<K: Ord, V>(link: Link<K, V>) -> TreeShape<K, V>
    decreases link,
{
    match link {
        None => TreeShape::Empty,
        Some(n) => TreeShape::Node {
            left: Box::new(shape_of(n.left)),
            key: n.key,
            value: n.value,
            right: Box::new(shape_of(n.right)),
        },
    }
}

impl<K, V> BTNode<K, V>
where
    K: Ord,
{
    /// The shape of the subtree with this node at its root.
    spec fn shape(self) -> TreeShape<K, V> {
        shape_of(Some(Box::new(self)))
    }

    fn new(key: K, value: V) -> (node: Self)
        ensures
            node.key == key,
            node.value == value,
            node.left is None,
            node.right is None,
    {
        BTNode { key, value, left: None, right: None }
    }
}

/// The map that is left when `pairs` are stored into `m` one after the other,
/// from the first to the last: what a run of insertions makes of a tree whose
/// view is `m`.
pub open spec fn stored<K, V>(m: Map<K, V>, pairs: Seq<(K, V)>) -> Map<K, V>
    decreases pairs.len(),
{
    if pairs.len() == 0 {
        m
    } else {
        stored(m, pairs.drop_last()).insert(pairs.last().0, pairs.last().1)
    }
}

/// Storing a run of pairs into an empty map leaves exactly the keys of the
/// run, however often and in whatever order they came, and under each key the
/// value that came with it last.
pub proof fn lemma_stored<K, V>(pairs: Seq<(K, V)>)
    ensures
        stored(Map::<K, V>::empty(), pairs).dom() == keys_of(pairs).to_set(),
        stored(Map::<K, V>::empty(), pairs).dom().finite(),
        forall|i: int|
            0 <= i < pairs.len() && (forall|j: int| i < j < pairs.len() ==> pairs[j].0 != pairs[i].0)
                ==> stored(Map::<K, V>::empty(), pairs)[(#[trigger] pairs[i]).0] == pairs[i].1,
    decreases pairs.len(),
{
    if pairs.len() > 0 {
        let init = pairs.drop_last();
        let last = pairs.last();
        lemma_stored(init);
        assert(keys_of(pairs) =~= keys_of(init).push(last.0));
        keys_of(init).lemma_push_to_set_commute(last.0);
        assert forall|i: int|
            0 <= i < pairs.len() && (forall|j: int|
                i < j < pairs.len() ==> pairs[j].0 != pairs[i].0) implies stored(
            Map::<K, V>::empty(),
            pairs,
        )[(#[trigger] pairs[i]).0] == pairs[i].1 by {
            // A key that does not come again in `pairs` does not come again
            // in `init`, and is not the key of `last` unless it is `last`.
            if i < pairs.len() - 1 {
                assert(forall|j: int| i < j < init.len() ==> init[j].0 != init[i].0);
            }
        }
    }
}

impl<K, V> BinarySearchTree<K, V>
where
    K: Ord,
{
    /// The shape of the tree: which node hangs where.
    pub closed spec fn shape(&self) -> TreeShape<K, V> {
        shape_of(self.root)
    }

    /// The map from the stored keys to their values.
    pub open spec fn view(&self) -> Map<K, V> {
        self.shape().to_map()
    }

    /// The stored entries in the order in which an in-order walk meets them.
    /// For a well-formed tree this is the listing of `self@` by ascending key
    /// (`lemma_entries`).
    pub open spec fn entries(&self) -> Seq<(K, V)> {
        self.shape().in_order()
    }

    /// The tree is a search tree over a key type whose comparison is a strict
    /// total order, and its element count is the number of its nodes.
    pub closed spec fn wf(&self) -> bool {
        &&& strict_total_order::<K>()
        &&& self.shape().is_search_tree()
        &&& self.size == self.shape().in_order().len()
    }

    /// A well-formed tree is a search tree, and its in-order walk is the
    /// listing of its entries by strictly ascending key: every stored key
    /// occurs once, with its value, and there are as many entries as the map
    /// has keys.
    pub proof fn lemma_entries(&self)
        requires
            self.wf(),
        ensures
            strict_total_order::<K>(),
            self.shape().is_search_tree(),
            ordered_listing(self.entries(), self@),
            self@.dom().finite(),
            self.entries().len() == self@.len(),
            self@.len() <= usize::MAX,
    {
        self.shape().lemma_in_order_is_listing(None, None);
        lemma_ordered_listing_len(self.entries(), self@);
    }

    /// Two well-formed trees that hold the same entries list them alike,
    /// whatever the order in which the entries were inserted.
    pub proof fn lemma_entries_by_view(&self, other: &Self)
        requires
            self.wf(),
            other.wf(),
            self@ == other@,
        ensures
            self.entries() == other.entries(),
    {
        self.lemma_entries();
        other.lemma_entries();
        lemma_ordered_listing_unique(self.entries(), other.entries(), self@);
    }

    /// A tree that was built from empty by inserting `pairs` in turn holds as
    /// many entries as `pairs` has distinct keys, lists exactly those keys in
    /// strictly ascending order, and holds no key that was never inserted.
    pub proof fn lemma_built_from(&self, pairs: Seq<(K, V)>)
        requires
            self.wf(),
            self@ == stored(Map::<K, V>::empty(), pairs),
        ensures
            self@.len() == keys_of(pairs).to_set().len(),
            self.entries().len() == keys_of(pairs).to_set().len(),
            ordered_elements(keys_of(self.entries()), keys_of(pairs).to_set()),
            forall|k: K| !keys_of(pairs).contains(k) ==> !self@.contains_key(k),
    {
        self.lemma_entries();
        lemma_stored(pairs);
    }

    /// Inserting under a key that is already stored replaces its value and
    /// nothing else: the tree keeps its size and its keys, and a search for
    /// the key now meets the new value.
    pub proof fn lemma_insert_stored_key(&self, after: &Self, key: K, value: V)
        requires
            self.wf(),
            after.wf(),
            self@.contains_key(key),
            after@ == self@.insert(key, value),
        ensures
            after@.len() == self@.len(),
            after@.dom() == self@.dom(),
            after@[key] == value,
            forall|k: K| k != key && self@.contains_key(k) ==> after@[k] == self@[k],
            keys_of(after.entries()) == keys_of(self.entries()),
    {
        self.lemma_entries();
        after.lemma_entries();
        assert(after@.dom() =~= self@.dom());
        lemma_ordered_elements_unique(
            keys_of(after.entries()),
            keys_of(self.entries()),
            self@.dom(),
        );
    }

    /// Inserting under a key that is not stored adds that one entry: the tree
    /// grows by one, and every other key keeps its value.
    pub proof fn lemma_insert_new_key(&self, after: &Self, key: K, value: V)
        requires
            self.wf(),
            after.wf(),
            !self@.contains_key(key),
            after@ == self@.insert(key, value),
        ensures
            after@.len() == self@.len() + 1,
            after@.dom() == self@.dom().insert(key),
            after@[key] == value,
            forall|k: K| self@.contains_key(k) ==> after@[k] == self@[k],
            after.entries().len() == self.entries().len() + 1,
    {
        self.lemma_entries();
        after.lemma_entries();
    }

    /// Taking the first `steps` entries off a fresh cursor puts no more nodes
    /// on the cursor's stack than `steps` and the height of the tree, however
    /// many nodes the tree has, and never one node twice. The stack then holds
    /// no more nodes than the tree is high, and the cursor has the rest of the
    /// entries to yield.
    pub proof fn lemma_prefix_walk(&self, steps: nat)
        ensures
            visited(self.shape(), steps) <= steps + self.shape().height(),
            visited(self.shape(), steps) <= self.entries().len(),
            advance_by(self.shape().left_spine(), steps).len() <= self.shape().height(),
            steps <= self.entries().len() ==> pending(
                advance_by(self.shape().left_spine(), steps),
            ) == self.entries().skip(steps as int),
    {
        lemma_advance_by(self.shape(), steps);
        lemma_visited(self.shape(), steps);
    }

    /// What `key` and `value` make of the tree when its shape takes them: a
    /// search tree still, which holds what it held but for `value` under
    /// `key`, with one node more if `key` is new and as many if it is not.
    proof fn lemma_put(&self, key: K, value: V)
        requires
            self.wf(),
        ensures
            self.shape().put(key, value).is_search_tree(),
            self.shape().put(key, value).to_map() == self@.insert(key, value),
            self.shape().put(key, value).in_order().len() == self@.insert(key, value).len(),
            self.entries().len() == self@.len(),
            self@.dom().finite(),
    {
        let grown = self.shape().put(key, value);
        self.lemma_entries();
        self.shape().lemma_put(None, None, key, value);
        grown.lemma_in_order_is_listing(None, None);
        lemma_ordered_listing_len(grown.in_order(), grown.to_map());
    }

    /// An empty tree. The caller vouches for the key type's comparison; every
    /// later guarantee rests on it.
    pub fn new() -> (tree: Self)
        requires
            strict_total_order::<K>(),
        ensures
            tree.wf(),
            tree.shape() == TreeShape::<K, V>::Empty,
            tree@ == Map::<K, V>::empty(),
            tree.entries() == Seq::<(K, V)>::empty(),
    {
        BinarySearchTree { root: None, size: 0 }
    }

    /// Looks `key` up, walking down from the root. A stored key is found with
    /// its value; any other key is reported absent.
    pub fn search(&self, key: &K) -> (found: Option<(&K, &V)>)
        requires
            self.wf(),
        ensures
            match found {
                Some((k, v)) => self@.contains_key(*key) && *k == *key && *v == self@[*key],
                None => !self@.contains_key(*key),
            },
    {
        let mut p = &self.root;
        let ghost mut lo: Option<K> = None;
        let ghost mut hi: Option<K> = None;
        loop
            invariant
                strict_total_order::<K>(),
                shape_of(*p).within(lo, hi),
                shape_of(*p).to_map().contains_key(*key) <==> self@.contains_key(*key),
                self@.contains_key(*key) ==> shape_of(*p).to_map()[*key] == self@[*key],
            decreases *p,
        {
            match p {
                None => {
                    return None;
                },
                Some(node) => {
                    match key.cmp(&node.key) {
                        Ordering::Equal => {
                            return Some((&node.key, &node.value));
                        },
                        Ordering::Less => {
                            proof {
                                shape_of(*p).lemma_descend_left(lo, hi, *key);
                                hi = Some(node.key);
                            }
                            p = &node.left;
                        },
                        Ordering::Greater => {
                            proof {
                                shape_of(*p).lemma_descend_right(lo, hi, *key);
                                lo = Some(node.key);
                            }
                            p = &node.right;
                        },
                    }
                },
            }
        }
    }

    /// Stores `value` under `key`. A key that is already stored keeps its node
    /// and gets the new value; a new key gets a new leaf where the walk down
    /// from the root ends, and the element count grows by one. No other node
    /// moves and no other entry changes.
    ///
    /// The element count is a `usize`: a new key needs room for one more.
    pub fn insert(&mut self, key: K, value: V)
        requires
            old(self).wf(),
            old(self)@.contains_key(key) || old(self)@.len() < usize::MAX,
        ensures
            final(self).wf(),
            final(self).shape() == old(self).shape().put(key, value),
            final(self)@ == old(self)@.insert(key, value),
            final(self)@.len() == old(self)@.len() + if old(self)@.contains_key(key) {
                0nat
            } else {
                1nat
            },
    {
        let ghost mut lo: Option<K> = None;
        let ghost mut hi: Option<K> = None;
        proof {
            self.lemma_put(key, value);
        }
        let mut p = &mut self.root;
        loop
            invariant
                old(self).wf(),
                old(self)@.contains_key(key) || old(self)@.len() < usize::MAX,
                self.size == old(self).size,
                shape_of(*p).within(lo, hi),
                lo matches Some(l) ==> key_lt(l, key),
                hi matches Some(h) ==> key_lt(key, h),
                shape_of(*p).to_map().contains_key(key) <==> old(self)@.contains_key(key),
                // Once the subtree at `p` has taken `key`, the whole tree has.
                shape_of(*final(p)) == shape_of(*p).put(key, value) ==> shape_of(
                    after_borrow(self.root),
                ) == old(self).shape().put(key, value),
            ensures
                *p is None,
            decreases *p,
        {
            let ghost here = shape_of(*p);
            match p {
                None => {
                    break ;
                },
                Some(node) => {
                    match key.cmp(&node.key) {
                        Ordering::Equal => {
                            node.value = value;
                            proof {
                                old(self).lemma_put(key, value);
                            }
                            return ;
                        },
                        Ordering::Less => {
                            proof {
                                here.lemma_descend_left(lo, hi, key);
                                hi = Some(node.key);
                            }
                            p = &mut node.left;
                        },
                        Ordering::Greater => {
                            proof {
                                here.lemma_descend_right(lo, hi, key);
                                lo = Some(node.key);
                            }
                            p = &mut node.right;
                        },
                    }
                },
            }
        }
        *p = Some(Box::new(BTNode::new(key, value)));
        self.size += 1;
    }

    /// The number of stored keys.
    pub fn size(&self) -> (n: usize)
        requires
            self.wf(),
        ensures
            n == self@.len(),
            n == self.entries().len(),
    {
        proof {
            self.lemma_entries();
        }
        self.size
    }

    /// A cursor over the entries by ascending key. Only the path from the root
    /// to the smallest key is walked here; the rest is walked as the cursor is
    /// advanced.
    pub fn iter(&self) -> (cursor: InOrderIter<'_, K, V>)
        requires
            self.wf(),
        ensures
            cursor.stack() == self.shape().left_spine(),
            cursor@ == self.entries(),
            ordered_listing(cursor@, self@),
            cursor@.len() == self@.len(),
    {
        let mut cursor = InOrderIter(Vec::new());
        cursor.push_left(&self.root);
        proof {
            self.lemma_entries();
            lemma_start_pending(self.shape());
        }
        cursor
    }

    /// A cursor over the keys in ascending order.
    pub fn keys(&self) -> (cursor: Keys<'_, K, V>)
        requires
            self.wf(),
        ensures
            cursor.stack() == self.shape().left_spine(),
            cursor@ == keys_of(self.entries()),
            ordered_elements(cursor@, self@.dom()),
            cursor@.len() == self@.len(),
    {
        Keys { iter: self.iter() }
    }

    /// A cursor over the values, by ascending key.
    pub fn values(&self) -> (cursor: Values<'_, K, V>)
        requires
            self.wf(),
        ensures
            cursor.stack() == self.shape().left_spine(),
            cursor@ == values_of(self.entries()),
            cursor@.len() == self@.len(),
    {
        Values { iter: self.iter() }
    }
}

/// A lazy in-order walk: a stack of the nodes whose left subtree has been
/// entered and which have not been yielded yet, the next one on top.
pub struct InOrderIter<'a, K, V>(Vec<&'a BTNode<K, V>>)
where
    K: Ord,
;

impl<'a, K, V> InOrderIter<'a, K, V>
where
    K: Ord,
{
    /// The stack, from the bottom to the top, each node given as the shape of
    /// the subtree below it.
    pub closed spec fn stack(&self) -> Seq<TreeShape<K, V>> {
        self.0@.map_values(|n: &BTNode<K, V>| (*n).shape())
    }

    /// The entries that the cursor has yet to yield, in the order in which it
    /// yields them.
    pub open spec fn view(&self) -> Seq<(K, V)> {
        pending(self.stack())
    }

    /// Pushes `link` and the chain of left children below it.
    fn push_left(&mut self, link: &'a Link<K, V>)
        ensures
            final(self).stack() == old(self).stack() + shape_of(*link).left_spine(),
    {
        let mut cur = link;
        loop
            invariant
                self.stack() + shape_of(*cur).left_spine() == old(self).stack() + shape_of(
                    *link,
                ).left_spine(),
            decreases *cur,
        {
            match cur {
                None => {
                    return ;
                },
                Some(n) => {
                    self.0.push(n);
                    cur = &n.left;
                },
            }
        }
    }
}

impl<'a, K, V> Iterator for InOrderIter<'a, K, V>
where
    K: Ord,
{
    type Item = (&'a K, &'a V);

    /// Takes the top node off the stack, puts the left spine of its right
    /// child there instead, and yields the node's entry: the first pending
    /// entry. Yields `None` when the stack is empty.
    fn next(&mut self) -> (item: Option<Self::Item>)
        ensures
            final(self).stack() == advance(old(self).stack()),
            match item {
                Some((k, v)) => {
                    &&& old(self).stack().len() > 0
                    &&& old(self).stack().last() matches TreeShape::Node { key, value, .. }
                    &&& key == *k && value == *v
                    &&& old(self)@.len() > 0
                    &&& old(self)@[0] == (*k, *v)
                    &&& final(self)@ == old(self)@.drop_first()
                },
                None => {
                    &&& old(self).stack().len() == 0
                    &&& old(self)@.len() == 0
                    &&& final(self)@ == old(self)@
                },
            },
    {
        if let Some(n) = self.0.pop() {
            let item = Some((&n.key, &n.value));
            self.push_left(&n.right);
            proof {
                assert(self.stack() =~= advance(old(self).stack()));
                lemma_advance_pending(old(self).stack());
            }
            item
        } else {
            None
        }
    }
}

impl<'a, K, V> vstd::std_specs::iter::IteratorSpecImpl for InOrderIter<'a, K, V>
where
    K: Ord,
{
    open spec fn obeys_prophetic_iter_laws(&self) -> bool {
        true
    }

    open spec fn remaining(&self) -> Seq<Self::Item> {
        self@.map_values(|e: (K, V)| (&e.0, &e.1))
    }

    open spec fn will_return_none(&self) -> bool {
        true
    }

    open spec fn decrease(&self) -> Option<nat> {
        Some(self@.len())
    }

    open spec fn initial_value_relation(&self, init: &Self) -> bool {
        self@ == init@
    }

    open spec fn peek(&self, index: int) -> Option<Self::Item> {
        if 0 <= index < self@.len() {
            Some((&self@[index].0, &self@[index].1))
        } else {
            None
        }
    }
}

/// A lazy walk over the keys of a tree, in ascending order.
pub struct Keys<'a, K, V>
where
    K: Ord,
{
    iter: InOrderIter<'a, K, V>,
}

impl<'a, K, V> Keys<'a, K, V>
where
    K: Ord,
{
    /// The stack of the in-order walk that the keys are taken from.
    pub closed spec fn stack(&self) -> Seq<TreeShape<K, V>> {
        self.iter.stack()
    }

    /// The keys that the cursor has yet to yield.
    pub open spec fn view(&self) -> Seq<K> {
        keys_of(pending(self.stack()))
    }
}

impl<'a, K, V> Iterator for Keys<'a, K, V>
where
    K: Ord,
{
    type Item = &'a K;

    /// Advances the in-order walk by one step and yields the key of its
    /// entry: the first pending key. Yields `None` when nothing is pending.
    fn next(&mut self) -> (item: Option<Self::Item>)
        ensures
            final(self).stack() == advance(old(self).stack()),
            match item {
                Some(k) => {
                    &&& old(self)@.len() > 0
                    &&& old(self)@[0] == *k
                    &&& final(self)@ == old(self)@.drop_first()
                },
                None => old(self)@.len() == 0 && final(self)@ == old(self)@,
            },
    {
        match self.iter.next() {
            Some((k, _)) => Some(k),
            None => None,
        }
    }
}

impl<'a, K, V> vstd::std_specs::iter::IteratorSpecImpl for Keys<'a, K, V>
where
    K: Ord,
{
    open spec fn obeys_prophetic_iter_laws(&self) -> bool {
        true
    }

    open spec fn remaining(&self) -> Seq<Self::Item> {
        self@.map_values(|k: K| &k)
    }

    open spec fn will_return_none(&self) -> bool {
        true
    }

    open spec fn decrease(&self) -> Option<nat> {
        Some(self@.len())
    }

    open spec fn initial_value_relation(&self, init: &Self) -> bool {
        self@ == init@
    }

    open spec fn peek(&self, index: int) -> Option<Self::Item> {
        if 0 <= index < self@.len() {
            Some(&self@[index])
        } else {
            None
        }
    }
}

/// A lazy walk over the values of a tree, by ascending key.
pub struct Values<'a, K, V>
where
    K: Ord,
{
    iter: InOrderIter<'a, K, V>,
}

impl<'a, K, V> Values<'a, K, V>
where
    K: Ord,
{
    /// The stack of the in-order walk that the values are taken from.
    pub closed spec fn stack(&self) -> Seq<TreeShape<K, V>> {
        self.iter.stack()
    }

    /// The values that the cursor has yet to yield.
    pub open spec fn view(&self) -> Seq<V> {
        values_of(pending(self.stack()))
    }
}

impl<'a, K, V> Iterator for Values<'a, K, V>
where
    K: Ord,
{
    type Item = &'a V;

    /// Advances the in-order walk by one step and yields the value of its
    /// entry: the first pending value. Yields `None` when nothing is pending.
    fn next(&mut self) -> (item: Option<Self::Item>)
        ensures
            final(self).stack() == advance(old(self).stack()),
            match item {
                Some(v) => {
                    &&& old(self)@.len() > 0
                    &&& old(self)@[0] == *v
                    &&& final(self)@ == old(self)@.drop_first()
                },
                None => old(self)@.len() == 0 && final(self)@ == old(self)@,
            },
    {
        match self.iter.next() {
            Some((_, v)) => Some(v),
            None => None,
        }
    }
}

impl<'a, K, V> vstd::std_specs::iter::IteratorSpecImpl for Values<'a, K, V>
where
    K: Ord,
{
    open spec fn obeys_prophetic_iter_laws(&self) -> bool {
        true
    }

    open spec fn remaining(&self) -> Seq<Self::Item> {
        self@.map_values(|v: V| &v)
    }

    open spec fn will_return_none(&self) -> bool {
        true
    }

    open spec fn decrease(&self) -> Option<nat> {
        Some(self@.len())
    }

    open spec fn initial_value_relation(&self, init: &Self) -> bool {
        self@ == init@
    }

    open spec fn peek(&self, index: int) -> Option<Self::Item> {
        if 0 <= index < self@.len() {
            Some(&self@[index])
        } else {
            None
        }
    }
}

} // verus!
