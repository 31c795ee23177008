//! Key-ordered containers: [`TreeMap`] and [`TreeSet`], both kept in one
//! unbalanced [`BinarySearchTree`], with lazy cursors that yield their
//! contents by ascending key.
//!
//! Every container is read as a mathematical value: a tree and a map as the
//! `Map` from their keys to their values, a set as the `Set` of its elements,
//! a cursor as the `Seq` of what it has yet to yield. The contracts say what
//! each operation does to these values, and [`order`] says what it means for a
//! sequence to list a map or a set in ascending order.
//!
//! Below these views lies a model of the tree itself: [`shape`] gives the
//! arrangement of the nodes and what an insertion does to it, [`walk`] the
//! stack of a cursor and what a step does to it. The tree and its cursors are
//! proved to follow that model, so that what holds of the model (an insertion
//! moves no node, a cursor holds no more nodes than the tree is high) holds of
//! them.
//!
//! The containers compare keys with `Ord::cmp`. What they promise rests on
//! that comparison being a strict total order, which the caller of `new`
//! states ([`order::strict_total_order`]).
pub mod collections;
pub mod order;
pub mod shape;
pub mod tree;
pub mod walk;

pub use collections::TreeMap;
pub use collections::TreeSet;
pub use tree::BinarySearchTree;
