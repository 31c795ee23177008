//! The mathematical model of a cursor: a stack of subtrees, what it has yet to
//! yield, and how a step changes it.
//!
//! The stack is written bottom first, so the node that is yielded next is the
//! last. It starts as the left spine of the tree. A step takes the top node
//! off and puts the left spine of that node's right child in its place. What
//! follows from that is proved here: a cursor yields the in-order walk of the
//! tree, it never holds more nodes than the tree is high, and by the time it
//! has yielded `k` entries it has put no more than `k` nodes and the height of
//! the tree on its stack.
use crate::shape::TreeShape;
use vstd::prelude::*;

verus! {

/// What a cursor with this stack has yet to yield: from the top of the stack
/// down, each node and then the in-order walk of its right subtree.
pub open spec fn pending<K: Ord, V>(stack: Seq<TreeShape<K, V>>) -> Seq<(K, V)>
    decreases stack.len(),
{
    if stack.len() == 0 {
        Seq::empty()
    } else {
        (match stack.last() {
            TreeShape::Empty => Seq::empty(),
            TreeShape::Node { key, value, right, .. } => seq![(key, value)] + right.in_order(),
        }) + pending(stack.drop_last())
    }
}

/// The nodes that a step puts on the stack: the left spine of the right child
/// of the node on top. None for an empty stack.
pub open spec fn pushed_by_step<K: Ord, V>(stack: Seq<TreeShape<K, V>>) -> Seq<TreeShape<K, V>> {
    if stack.len() == 0 {
        Seq::empty()
    } else {
        match stack.last() {
            TreeShape::Empty => Seq::empty(),
            TreeShape::Node { right, .. } => right.left_spine(),
        }
    }
}

/// The stack after one step of the cursor: the top node leaves, and the left
/// spine of its right child takes its place. An empty stack stays empty.
pub open spec fn advance<K: Ord, V>(stack: Seq<TreeShape<K, V>>) -> Seq<TreeShape<K, V>> {
    if stack.len() == 0 {
        stack
    } else {
        stack.drop_last() + pushed_by_step(stack)
    }
}

/// The stack after `steps` steps of the cursor.
pub open spec fn advance_by<K: Ord, V>(stack: Seq<TreeShape<K, V>>, steps: nat) -> Seq<
    TreeShape<K, V>,
>
    decreases steps,
{
    if steps == 0 {
        stack
    } else {
        advance(advance_by(stack, (steps - 1) as nat))
    }
}

/// The number of nodes that a cursor over `tree` has put on its stack by the
/// time it has been created and advanced `steps` times.
pub open spec fn visited<K: Ord, V>(tree: TreeShape<K, V>, steps: nat) -> nat
    decreases steps,
{
    if steps == 0 {
        tree.left_spine().len()
    } else {
        visited(tree, (steps - 1) as nat) + pushed_by_step(
            advance_by(tree.left_spine(), (steps - 1) as nat),
        ).len()
    }
}

/// Every entry of the stack is a node, and each is lower than those beneath
/// it: the stack is part of one path down the tree.
spec fn descending<K: Ord, V>(stack: Seq<TreeShape<K, V>>) -> bool {
    &&& forall|i: int| 0 <= i < stack.len() ==> #[trigger] stack[i] is Node
    &&& forall|i: int, j: int|
        0 <= i < j < stack.len() ==> (#[trigger] stack[j]).height() < (#[trigger] stack[i]).height()
}

/// The height of the node at the bottom of the stack, 0 for an empty stack.
spec fn reach<K: Ord, V>(stack: Seq<TreeShape<K, V>>) -> nat {
    if stack.len() == 0 {
        0
    } else {
        stack[0].height()
    }
}

/// Pushing the left spine of `tree` puts the in-order walk of `tree` before
/// everything that was pending.
pub proof fn lemma_spine_pending<K: Ord, V>(tree: TreeShape<K, V>, stack: Seq<TreeShape<K, V>>)
    ensures
        pending(stack + tree.left_spine()) == tree.in_order() + pending(stack),
    decreases tree,
{
    match tree {
        TreeShape::Empty => {},
        TreeShape::Node { left, .. } => {
            let pushed = stack.push(tree);
            lemma_spine_pending(*left, pushed);
            assert(stack + tree.left_spine() =~= pushed + left.left_spine());
            assert(pushed.drop_last() =~= stack);
        },
    }
}

/// A cursor that starts with the left spine of a tree has the in-order walk of
/// the tree to yield.
pub proof fn lemma_start_pending<K: Ord, V>(tree: TreeShape<K, V>)
    ensures
        pending(tree.left_spine()) == tree.in_order(),
{
    lemma_spine_pending(tree, Seq::empty());
}

/// A step yields the entry of the top node and leaves the rest pending.
pub proof fn lemma_advance_pending<K: Ord, V>(stack: Seq<TreeShape<K, V>>)
    requires
        stack.len() > 0,
        stack.last() is Node,
    ensures
        pending(stack).len() > 0,
        pending(stack)[0] == (stack.last()->key, stack.last()->value),
        pending(advance(stack)) == pending(stack).drop_first(),
{
    lemma_spine_pending(*stack.last()->right, stack.drop_last());
}

/// The left spine of a tree is a descending stack with the root at the bottom.
proof fn lemma_spine_descending<K: Ord, V>(tree: TreeShape<K, V>)
    ensures
        descending(tree.left_spine()),
        reach(tree.left_spine()) == tree.height(),
        tree is Node ==> tree.left_spine().len() > 0 && tree.left_spine()[0] == tree,
    decreases tree,
{
    match tree {
        TreeShape::Empty => {},
        TreeShape::Node { left, .. } => {
            lemma_spine_descending(*left);
        },
    }
}

/// In a descending stack the node at position `i` has at least one level of
/// its own, and the bottom node at least `i` more.
proof fn lemma_descending_floor<K: Ord, V>(stack: Seq<TreeShape<K, V>>, i: int)
    requires
        descending(stack),
        0 <= i < stack.len(),
    ensures
        stack[0].height() >= stack[i].height() + i,
        stack[i].height() >= 1,
    decreases i,
{
    if i > 0 {
        lemma_descending_floor(stack, i - 1);
    }
}

/// A step keeps a descending stack descending, and its bottom node no higher.
proof fn lemma_advance_descending<K: Ord, V>(stack: Seq<TreeShape<K, V>>)
    requires
        descending(stack),
    ensures
        descending(advance(stack)),
        reach(advance(stack)) <= reach(stack),
{
    if stack.len() > 0 {
        lemma_spine_descending(*stack.last()->right);
    }
}

/// The stack of a cursor over `tree` stays part of one path down the tree.
proof fn lemma_stays_descending<K: Ord, V>(tree: TreeShape<K, V>, steps: nat)
    ensures
        descending(advance_by(tree.left_spine(), steps)),
        reach(advance_by(tree.left_spine(), steps)) <= tree.height(),
    decreases steps,
{
    if steps == 0 {
        lemma_spine_descending(tree);
    } else {
        lemma_stays_descending(tree, (steps - 1) as nat);
        lemma_advance_descending(advance_by(tree.left_spine(), (steps - 1) as nat));
    }
}

/// A descending stack has at least one entry pending for each of its nodes.
proof fn lemma_pending_covers<K: Ord, V>(stack: Seq<TreeShape<K, V>>)
    requires
        descending(stack),
    ensures
        stack.len() <= pending(stack).len(),
    decreases stack.len(),
{
    if stack.len() > 0 {
        lemma_pending_covers(stack.drop_last());
    }
}

/// However far a cursor over `tree` is advanced, its stack holds no more nodes
/// than the tree is high, and what is pending is the in-order walk without the
/// entries already yielded. Once all are yielded the stack is empty.
pub proof fn lemma_advance_by<K: Ord, V>(tree: TreeShape<K, V>, steps: nat)
    ensures
        advance_by(tree.left_spine(), steps).len() <= tree.height(),
        steps <= tree.in_order().len() ==> pending(advance_by(tree.left_spine(), steps))
            == tree.in_order().skip(steps as int),
        steps < tree.in_order().len() ==> advance_by(tree.left_spine(), steps).len() > 0
            && advance_by(tree.left_spine(), steps).last() is Node,
        steps >= tree.in_order().len() ==> advance_by(tree.left_spine(), steps).len() == 0,
    decreases steps,
{
    let now = advance_by(tree.left_spine(), steps);
    lemma_stays_descending(tree, steps);
    if now.len() > 0 {
        lemma_descending_floor(now, now.len() - 1);
    }
    if steps == 0 {
        lemma_start_pending(tree);
    } else {
        let before = advance_by(tree.left_spine(), (steps - 1) as nat);
        lemma_advance_by(tree, (steps - 1) as nat);
        if steps <= tree.in_order().len() {
            lemma_advance_pending(before);
        }
    }
}

/// Yielding the first `steps` entries costs a walk over at most `steps` nodes
/// and the height of the tree, however many nodes the tree has: every node
/// that was put on the stack has either been yielded or is still on it. No
/// node is put there twice.
pub proof fn lemma_visited<K: Ord, V>(tree: TreeShape<K, V>, steps: nat)
    ensures
        steps <= tree.in_order().len() ==> visited(tree, steps) == steps + advance_by(
            tree.left_spine(),
            steps,
        ).len(),
        steps >= tree.in_order().len() ==> visited(tree, steps) == tree.in_order().len(),
        visited(tree, steps) <= steps + tree.height(),
        visited(tree, steps) <= tree.in_order().len(),
    decreases steps,
{
    lemma_advance_by(tree, steps);
    if steps > 0 {
        lemma_visited(tree, (steps - 1) as nat);
        lemma_advance_by(tree, (steps - 1) as nat);
    }
    if steps <= tree.in_order().len() {
        lemma_stays_descending(tree, steps);
        lemma_pending_covers(advance_by(tree.left_spine(), steps));
    }
}

} // verus!
