//! The mathematical model of the tree: its shape, what the shape holds, and
//! how an insertion changes it.
//!
//! A [`TreeShape`] is a tree as a value, without boxes or borrows. The
//! executable tree is specified as following it step for step, and what
//! clients care about (the map it holds, the ascending listing) is proved of
//! the model here, once.
use crate::order::{
    key_lt, keys_of, lemma_lt_asymmetric, ordered_listing, strict_total_order,
};
use std::cmp::Ordering;
use vstd::prelude::*;
use vstd::std_specs::cmp::OrdSpec;

verus! {

/// The shape of a binary tree that carries an entry at every node.
pub enum TreeShape<K, V> {
    Empty,
    Node { left: Box<TreeShape<K, V>>, key: K, value: V, right: Box<TreeShape<K, V>> },
}

impl<K: Ord, V> TreeShape<K, V> {
    /// A single node without children.
    pub open spec fn leaf(key: K, value: V) -> Self {
        TreeShape::Node {
            left: Box::new(TreeShape::Empty),
            key,
            value,
            right: Box::new(TreeShape::Empty),
        }
    }

    /// The entries at the nodes, as a map from key to value.
    pub open spec fn to_map(self) -> Map<K, V>
        decreases self,
    {
        match self {
            TreeShape::Empty => Map::empty(),
            TreeShape::Node { left, key, value, right } => left.to_map().union_prefer_right(
                right.to_map(),
            ).insert(key, value),
        }
    }

    /// The entries as an in-order walk meets them: left subtree, node, right
    /// subtree.
    pub open spec fn in_order(self) -> Seq<(K, V)>
        decreases self,
    {
        match self {
            TreeShape::Empty => Seq::empty(),
            TreeShape::Node { left, key, value, right } => left.in_order().push((key, value))
                + right.in_order(),
        }
    }

    /// The number of nodes on the longest path from the root down.
    pub open spec fn height(self) -> nat
        decreases self,
    {
        match self {
            TreeShape::Empty => 0,
            TreeShape::Node { left, right, .. } => if left.height() >= right.height() {
                left.height() + 1
            } else {
                right.height() + 1
            },
        }
    }

    /// The search-tree condition, relative to the open interval that is left
    /// for the keys of this subtree: every key lies strictly between `lo` and
    /// `hi` (where present), the left subtree of a node below its key and the
    /// right subtree above it.
    pub open spec fn within(self, lo: Option<K>, hi: Option<K>) -> bool
        decreases self,
    {
        match self {
            TreeShape::Empty => true,
            TreeShape::Node { left, key, right, .. } => {
                &&& lo matches Some(l) ==> key_lt(l, key)
                &&& hi matches Some(h) ==> key_lt(key, h)
                &&& left.within(lo, Some(key))
                &&& right.within(Some(key), hi)
            },
        }
    }

    /// At every node, the keys of the left subtree sort before the node's key
    /// and those of the right subtree after it.
    pub open spec fn is_search_tree(self) -> bool {
        self.within(None, None)
    }

    /// The shape after `value` was stored under `key`: the walk down from the
    /// root turns left where `key` sorts before a node's key and right where it
    /// sorts after it, gives the node that holds `key` the new value, or hangs
    /// a new leaf where it runs out of nodes. Nothing else moves.
    pub open spec fn put(self, key: K, value: V) -> Self
        decreases self,
    {
        match self {
            TreeShape::Empty => Self::leaf(key, value),
            TreeShape::Node { left, key: k, value: v, right } => match key.cmp_spec(&k) {
                Ordering::Equal => TreeShape::Node { left, key: k, value, right },
                Ordering::Less => TreeShape::Node {
                    left: Box::new(left.put(key, value)),
                    key: k,
                    value: v,
                    right,
                },
                Ordering::Greater => TreeShape::Node {
                    left,
                    key: k,
                    value: v,
                    right: Box::new(right.put(key, value)),
                },
            },
        }
    }

    /// The nodes met by going left from the root until there is no left child,
    /// each given as the subtree below it, the root first.
    pub open spec fn left_spine(self) -> Seq<Self>
        decreases self,
    {
        match self {
            TreeShape::Empty => Seq::empty(),
            TreeShape::Node { left, .. } => seq![self] + left.left_spine(),
        }
    }

    /// The keys of a search tree lie in the interval that `within` names.
    pub proof fn lemma_keys_within(self, lo: Option<K>, hi: Option<K>)
        requires
            strict_total_order::<K>(),
            self.within(lo, hi),
        ensures
            forall|k: K| #[trigger]
                self.to_map().contains_key(k) ==> {
                    &&& lo matches Some(l) ==> key_lt(l, k)
                    &&& hi matches Some(h) ==> key_lt(k, h)
                },
        decreases self,
    {
        match self {
            TreeShape::Empty => {},
            TreeShape::Node { left, key, right, .. } => {
                left.lemma_keys_within(lo, Some(key));
                right.lemma_keys_within(Some(key), hi);
                assert forall|k: K| #[trigger] self.to_map().contains_key(k) implies {
                    &&& lo matches Some(l) ==> key_lt(l, k)
                    &&& hi matches Some(h) ==> key_lt(k, h)
                } by {
                    assert(k == key || right.to_map().contains_key(k) || left.to_map().contains_key(
                        k,
                    ));
                }
            },
        }
    }

    /// A key that sorts before the key of the root is held by the tree exactly
    /// when the left subtree holds it, and with the same value.
    pub proof fn lemma_descend_left(self, lo: Option<K>, hi: Option<K>, sought: K)
        requires
            strict_total_order::<K>(),
            self.within(lo, hi),
            self matches TreeShape::Node { key, .. } && key_lt(sought, key),
        ensures
            self.to_map().contains_key(sought) <==> self->left.to_map().contains_key(sought),
            self->left.to_map().contains_key(sought) ==> self.to_map()[sought]
                == self->left.to_map()[sought],
            !self->right.to_map().contains_key(sought),
            sought != self->key,
    {
        // The keys of the right subtree sort after the root, `sought` before.
        self->right.lemma_keys_within(Some(self->key), hi);
        assert(!self->right.to_map().contains_key(sought));
    }

    /// A key that sorts after the key of the root is held by the tree exactly
    /// when the right subtree holds it, and with the same value.
    pub proof fn lemma_descend_right(self, lo: Option<K>, hi: Option<K>, sought: K)
        requires
            strict_total_order::<K>(),
            self.within(lo, hi),
            self matches TreeShape::Node { key, .. } && key_lt(key, sought),
        ensures
            self.to_map().contains_key(sought) <==> self->right.to_map().contains_key(sought),
            self->right.to_map().contains_key(sought) ==> self.to_map()[sought]
                == self->right.to_map()[sought],
            !self->left.to_map().contains_key(sought),
            sought != self->key,
    {
        // The keys of the left subtree sort before the root, `sought` after.
        self->left.lemma_keys_within(lo, Some(self->key));
        assert(!self->left.to_map().contains_key(sought));
    }

    /// Storing into a search tree leaves a search tree that holds what it held
    /// before, but for `value` under `key`.
    pub proof fn lemma_put(self, lo: Option<K>, hi: Option<K>, key: K, value: V)
        requires
            strict_total_order::<K>(),
            self.within(lo, hi),
            lo matches Some(l) ==> key_lt(l, key),
            hi matches Some(h) ==> key_lt(key, h),
        ensures
            self.put(key, value).within(lo, hi),
            self.put(key, value).to_map() == self.to_map().insert(key, value),
        decreases self,
    {
        match self {
            TreeShape::Empty => {
                reveal_with_fuel(TreeShape::within, 2);
            },
            TreeShape::Node { left, key: k, right, .. } => {
                match key.cmp_spec(&k) {
                    Ordering::Equal => {},
                    Ordering::Less => {
                        left.lemma_put(lo, Some(k), key, value);
                        self.lemma_descend_left(lo, hi, key);
                    },
                    Ordering::Greater => {
                        right.lemma_put(Some(k), hi, key, value);
                        self.lemma_descend_right(lo, hi, key);
                    },
                }
            },
        }
    }

    /// Storing what a search tree already holds under a key changes nothing.
    pub proof fn lemma_put_again(self, lo: Option<K>, hi: Option<K>, key: K, value: V)
        requires
            strict_total_order::<K>(),
            self.within(lo, hi),
            self.to_map().contains_pair(key, value),
        ensures
            self.put(key, value) == self,
        decreases self,
    {
        match self {
            TreeShape::Empty => {},
            TreeShape::Node { left, key: k, right, .. } => {
                match key.cmp_spec(&k) {
                    Ordering::Equal => {},
                    Ordering::Less => {
                        self.lemma_descend_left(lo, hi, key);
                        left.lemma_put_again(lo, Some(k), key, value);
                    },
                    Ordering::Greater => {
                        self.lemma_descend_right(lo, hi, key);
                        right.lemma_put_again(Some(k), hi, key, value);
                    },
                }
            },
        }
    }

    /// The in-order walk of a search tree lists its entries by strictly
    /// ascending key, each key once and with its value.
    pub proof fn lemma_in_order_is_listing(self, lo: Option<K>, hi: Option<K>)
        requires
            strict_total_order::<K>(),
            self.within(lo, hi),
        ensures
            ordered_listing(self.in_order(), self.to_map()),
        decreases self,
    {
        let walk = self.in_order();
        let m = self.to_map();
        match self {
            TreeShape::Empty => {
                assert(keys_of(walk).to_set() =~= m.dom());
            },
            TreeShape::Node { left, key, value, right } => {
                let l = left.in_order();
                let r = right.in_order();
                let mid = l.len() as int;
                left.lemma_in_order_is_listing(lo, Some(key));
                right.lemma_in_order_is_listing(Some(key), hi);
                left.lemma_keys_within(lo, Some(key));
                right.lemma_keys_within(Some(key), hi);
                // The walk is the left walk, the entry of the root at `mid`,
                // and the right walk. What comes before `mid` is held by the
                // left subtree and sorts before the root,
                assert(walk[mid] == (key, value));
                assert forall|i: int| 0 <= i < mid implies walk[i] == l[i]
                    && left.to_map().contains_key(#[trigger] walk[i].0) && key_lt(
                    walk[i].0,
                    key,
                ) by {
                    assert(keys_of(l)[i] == l[i].0);
                }
                // and what comes after it is held by the right subtree and
                // sorts after the root.
                assert forall|i: int| mid < i < walk.len() implies walk[i] == r[i - mid - 1]
                    && right.to_map().contains_key(#[trigger] walk[i].0) && key_lt(
                    key,
                    walk[i].0,
                ) by {
                    assert(keys_of(r)[i - mid - 1] == r[i - mid - 1].0);
                }
                let ks = keys_of(walk);
                assert forall|i: int, j: int| 0 <= i < j < ks.len() implies key_lt(
                    #[trigger] ks[i],
                    #[trigger] ks[j],
                ) by {
                    if j < mid {
                        assert(key_lt(keys_of(l)[i], keys_of(l)[j]));
                    } else if i > mid {
                        assert(key_lt(keys_of(r)[i - mid - 1], keys_of(r)[j - mid - 1]));
                    }
                }
                // Every key of the map has its place in the walk.
                assert forall|k: K| m.dom().contains(k) implies ks.contains(k) by {
                    if k == key {
                        assert(ks[mid] == k);
                    } else if right.to_map().contains_key(k) {
                        let x = choose|x: int| 0 <= x < r.len() && keys_of(r)[x] == k;
                        assert(ks[mid + 1 + x] == walk[mid + 1 + x].0);
                    } else {
                        let x = choose|x: int| 0 <= x < l.len() && keys_of(l)[x] == k;
                        assert(ks[x] == walk[x].0);
                    }
                }
                assert forall|k: K| ks.contains(k) implies m.dom().contains(k) by {
                    let i = choose|i: int| 0 <= i < ks.len() && ks[i] == k;
                    assert(walk[i].0 == k);
                }
                assert(ks.to_set() =~= m.dom());
            },
        }
    }
}

} // verus!
