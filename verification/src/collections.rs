//! The two public shapes of the tree: a set of keys, and a map from keys to
//! values. Neither adds behaviour of its own; each states what the tree does
//! in terms of its own view, a `Set` or a `Map`.
use crate::order::{
    keys_of, lemma_ordered_elements_unique, ordered_elements, ordered_listing, strict_total_order,
    values_of,
};
use crate::shape::TreeShape;
use crate::tree::{BinarySearchTree, InOrderIter, Keys, Values};
use vstd::prelude::*;

verus! {

/// A set of keys, iterated in ascending order. It is a tree in which every key
/// carries the marker `true`.
pub struct TreeSet<T>
where
    T: Ord,
{
    tree: BinarySearchTree<T, bool>,
}

impl<T> TreeSet<T>
where
    T: Ord,
{
    /// The shape of the tree that holds the elements.
    pub closed spec fn shape(&self) -> TreeShape<T, bool> {
        self.tree.shape()
    }

    /// The elements, as a mathematical set.
    pub open spec fn view(&self) -> Set<T> {
        self.shape().to_map().dom()
    }

    /// The elements as an in-order walk of the tree meets them. For a
    /// well-formed set that is in ascending order (`lemma_elements`).
    pub open spec fn elements(&self) -> Seq<T> {
        keys_of(self.shape().in_order())
    }

    /// The tree is well formed, and every key in it carries the marker.
    pub closed spec fn wf(&self) -> bool {
        &&& self.tree.wf()
        &&& forall|k: T| #[trigger] self.tree@.contains_key(k) ==> self.tree@[k]
    }

    /// The tree of a well-formed set is a search tree, and `elements()` lists
    /// the set in strictly ascending order, each element once.
    pub proof fn lemma_elements(&self)
        requires
            self.wf(),
        ensures
            strict_total_order::<T>(),
            self.shape().is_search_tree(),
            ordered_elements(self.elements(), self@),
            self@.finite(),
            self.elements().len() == self@.len(),
            self@.len() <= usize::MAX,
    {
        self.tree.lemma_entries();
    }

    /// Adding an element a second time changes nothing: the set that results,
    /// and with it its size, every answer of `contains` and the order of
    /// iteration, is the set after the first time.
    pub proof fn lemma_add_again(&self, once: &Self, twice: &Self, item: T)
        requires
            self.wf(),
            once.wf(),
            twice.wf(),
            once@ == self@.insert(item),
            twice@ == once@.insert(item),
        ensures
            twice@ == once@,
            twice@.len() == once@.len(),
            forall|k: T| twice@.contains(k) == once@.contains(k),
            twice.elements() == once.elements(),
    {
        assert(twice@ =~= once@);
        once.lemma_elements();
        twice.lemma_elements();
        lemma_ordered_elements_unique(twice.elements(), once.elements(), once@);
    }

    /// An empty set. The caller vouches for the comparison of `T`.
    pub fn new() -> (set: Self)
        requires
            strict_total_order::<T>(),
        ensures
            set.wf(),
            set.shape() == TreeShape::<T, bool>::Empty,
            set@ == Set::<T>::empty(),
            set.elements() == Seq::<T>::empty(),
    {
        TreeSet { tree: BinarySearchTree::new() }
    }

    /// Makes `item` an element. Adding an element again changes nothing: the
    /// tree stays as it is, node for node.
    ///
    /// The element count is a `usize`: a new element needs room for one more.
    pub fn add(&mut self, item: T)
        requires
            old(self).wf(),
            old(self)@.contains(item) || old(self)@.len() < usize::MAX,
        ensures
            final(self).wf(),
            final(self).shape() == old(self).shape().put(item, true),
            old(self)@.contains(item) ==> final(self).shape() == old(self).shape(),
            final(self)@ == old(self)@.insert(item),
            final(self)@.len() == old(self)@.len() + if old(self)@.contains(item) {
                0nat
            } else {
                1nat
            },
    {
        proof {
            self.tree.lemma_entries();
            if self@.contains(item) {
                self.shape().lemma_put_again(None, None, item, true);
            }
        }
        self.tree.insert(item, true);
    }

    /// Whether `item` is an element.
    pub fn contains(&self, item: &T) -> (found: bool)
        requires
            self.wf(),
        ensures
            found == self@.contains(*item),
    {
        self.tree.search(item).is_some()
    }

    /// A cursor over the elements in ascending order.
    pub fn iter(&self) -> (cursor: Keys<'_, T, bool>)
        requires
            self.wf(),
        ensures
            cursor.stack() == self.shape().left_spine(),
            cursor@ == self.elements(),
            ordered_elements(cursor@, self@),
            cursor@.len() == self@.len(),
    {
        self.tree.keys()
    }

    /// The number of elements.
    pub fn size(&self) -> (n: usize)
        requires
            self.wf(),
        ensures
            n == self@.len(),
    {
        self.tree.size()
    }
}

/// A map from keys to values, iterated by ascending key.
pub struct TreeMap<K, V>
where
    K: Ord,
{
    tree: BinarySearchTree<K, V>,
}

impl<K, V> TreeMap<K, V>
where
    K: Ord,
{
    /// The shape of the tree that holds the entries.
    pub closed spec fn shape(&self) -> TreeShape<K, V> {
        self.tree.shape()
    }

    /// The entries, as a mathematical map.
    pub open spec fn view(&self) -> Map<K, V> {
        self.shape().to_map()
    }

    /// The entries as an in-order walk of the tree meets them. For a
    /// well-formed map that is by ascending key (`lemma_entries`).
    pub open spec fn entries(&self) -> Seq<(K, V)> {
        self.shape().in_order()
    }

    /// The tree is well formed.
    pub closed spec fn wf(&self) -> bool {
        self.tree.wf()
    }

    /// The tree of a well-formed map is a search tree, and `entries()` lists
    /// the map by strictly ascending key, each key once and with its value.
    pub proof fn lemma_entries(&self)
        requires
            self.wf(),
        ensures
            strict_total_order::<K>(),
            self.shape().is_search_tree(),
            ordered_listing(self.entries(), self@),
            self@.dom().finite(),
            self.entries().len() == self@.len(),
            self@.len() <= usize::MAX,
    {
        self.tree.lemma_entries();
    }

    /// Putting a value under a key that is already stored replaces that value
    /// and nothing else: the map keeps its size and its keys, and `get` now
    /// meets the new value.
    pub proof fn lemma_put_stored_key(&self, after: &Self, key: K, value: V)
        requires
            self.wf(),
            after.wf(),
            self@.contains_key(key),
            after@ == self@.insert(key, value),
        ensures
            after@.len() == self@.len(),
            after@.dom() == self@.dom(),
            after@[key] == value,
            forall|k: K| k != key && self@.contains_key(k) ==> after@[k] == self@[k],
            keys_of(after.entries()) == keys_of(self.entries()),
    {
        self.tree.lemma_insert_stored_key(&after.tree, key, value);
    }

    /// An empty map. The caller vouches for the comparison of `K`.
    pub fn new() -> (map: Self)
        requires
            strict_total_order::<K>(),
        ensures
            map.wf(),
            map.shape() == TreeShape::<K, V>::Empty,
            map@ == Map::<K, V>::empty(),
            map.entries() == Seq::<(K, V)>::empty(),
    {
        TreeMap { tree: BinarySearchTree::new() }
    }

    /// The value stored under `key`, if any.
    pub fn get(&self, key: &K) -> (found: Option<&V>)
        requires
            self.wf(),
        ensures
            match found {
                Some(v) => self@.contains_key(*key) && *v == self@[*key],
                None => !self@.contains_key(*key),
            },
    {
        match self.tree.search(key) {
            Some((_, v)) => Some(v),
            None => None,
        }
    }

    /// Stores `value` under `key`, in place of any value stored there before.
    ///
    /// The element count is a `usize`: a new key needs room for one more.
    pub fn put(&mut self, key: K, value: V)
        requires
            old(self).wf(),
            old(self)@.contains_key(key) || old(self)@.len() < usize::MAX,
        ensures
            final(self).wf(),
            final(self).shape() == old(self).shape().put(key, value),
            final(self)@ == old(self)@.insert(key, value),
            final(self)@.len() == old(self)@.len() + if old(self)@.contains_key(key) {
                0nat
            } else {
                1nat
            },
    {
        self.tree.insert(key, value);
    }

    /// Whether a value is stored under `key`.
    pub fn cotains_key(&self, key: &K) -> (found: bool)
        requires
            self.wf(),
        ensures
            found == self@.contains_key(*key),
    {
        self.tree.search(key).is_some()
    }

    /// A cursor over the entries by ascending key.
    pub fn iter(&self) -> (cursor: InOrderIter<'_, K, V>)
        requires
            self.wf(),
        ensures
            cursor.stack() == self.shape().left_spine(),
            cursor@ == self.entries(),
            ordered_listing(cursor@, self@),
            cursor@.len() == self@.len(),
    {
        self.tree.iter()
    }

    /// A cursor over the keys in ascending order.
    pub fn keys(&self) -> (cursor: Keys<'_, K, V>)
        requires
            self.wf(),
        ensures
            cursor.stack() == self.shape().left_spine(),
            cursor@ == keys_of(self.entries()),
            ordered_elements(cursor@, self@.dom()),
            cursor@.len() == self@.len(),
    {
        self.tree.keys()
    }

    /// A cursor over the values, by ascending key.
    pub fn values(&self) -> (cursor: Values<'_, K, V>)
        requires
            self.wf(),
        ensures
            cursor.stack() == self.shape().left_spine(),
            cursor@ == values_of(self.entries()),
            cursor@.len() == self@.len(),
    {
        self.tree.values()
    }

    /// The number of stored keys.
    pub fn size(&self) -> (n: usize)
        requires
            self.wf(),
        ensures
            n == self@.len(),
    {
        self.tree.size()
    }
}

} // verus!
