//! Folding the flat list that a walk leaves behind into a tree.
//!
//! A walk visits an object, lists its children, and goes on with the child
//! listed last. Each visit appends one entry to a flat list: the object's
//! details, and one childless placeholder per child. Read from its end, that
//! list names every object after all of its descendants, so one pass with a
//! stack puts the tree together: an entry takes as many finished nodes off
//! the stack as it has placeholders.

use vstd::prelude::*;
use crate::snapshot::{
    lemma_preorder_holds_below, lemma_preorder_holds_root, lemma_view_children, model_of, models,
    preorder, NodeModel, TreeNode,
};

verus! {

/// An entry with the finished nodes in place of its placeholders.
pub open spec fn with_children(entry: NodeModel, children: Seq<NodeModel>) -> NodeModel {
    NodeModel {
        destination: entry.destination,
        path: entry.path,
        accessible_id: entry.accessible_id,
        name: entry.name,
        role: entry.role,
        children,
    }
}

/// How many finished nodes an entry takes off a stack of the given height:
/// one per placeholder, and no more than there are.
pub open spec fn taken(entry: NodeModel, height: nat) -> nat {
    if entry.children.len() <= height {
        entry.children.len()
    } else {
        height
    }
}

/// The stack after one entry has been folded in. An entry without
/// placeholders goes on top as it is; any other takes its share of finished
/// nodes off the top, keeps them in their order as its children, and goes on
/// top in their place.
pub open spec fn fold_step(stack: Seq<NodeModel>, entry: NodeModel) -> Seq<NodeModel> {
    if entry.children.len() == 0 {
        stack.push(entry)
    } else {
        let begin = stack.len() - taken(entry, stack.len());
        stack.subrange(0, begin).push(
            with_children(entry, stack.subrange(begin, stack.len() as int)),
        )
    }
}

/// The stack after a whole flat list has been folded onto `base`, its last
/// entry first.
pub open spec fn fold_onto(flat: Seq<NodeModel>, base: Seq<NodeModel>) -> Seq<NodeModel>
    decreases flat.len(),
{
    if flat.len() == 0 {
        base
    } else {
        fold_step(fold_onto(flat.drop_first(), base), flat[0])
    }
}

/// The stack that folding a flat list leaves.
pub open spec fn fold_stack(flat: Seq<NodeModel>) -> Seq<NodeModel> {
    fold_onto(flat, Seq::empty())
}

/// The root that folding a flat list yields: the node on top of the stack,
/// where the stack holds any.
pub open spec fn fold_result(flat: Seq<NodeModel>) -> Option<NodeModel> {
    if fold_stack(flat).len() > 0 {
        Some(fold_stack(flat).last())
    } else {
        None
    }
}

/// Folding never empties a stack: each entry leaves itself on top.
pub proof fn lemma_fold_onto_height(flat: Seq<NodeModel>, base: Seq<NodeModel>)
    ensures
        flat.len() > 0 ==> fold_onto(flat, base).len() > 0,
        flat.len() == 0 ==> fold_onto(flat, base) == base,
{
}

/// Folds a flat list into a tree. The list is read from its end; an entry
/// that asks for more finished nodes than the stack holds takes what is
/// there. The result is the node left on top, and `None` only for an empty
/// list.
pub fn fold(nodes: Vec<TreeNode>) -> (root: Option<TreeNode>)
    ensures
        model_of(root) == fold_result(models(nodes@)),
        root is None <==> nodes@.len() == 0,
{
    let ghost flat = models(nodes@);
    let mut nodes = nodes;
    let mut finished: Vec<TreeNode> = Vec::with_capacity(nodes.len());
    assert(flat.subrange(0, flat.len() as int) =~= flat);
    assert(flat.subrange(flat.len() as int, flat.len() as int) =~= Seq::empty());
    while nodes.len() > 0
        invariant
            nodes@.len() <= flat.len(),
            models(nodes@) == flat.subrange(0, nodes@.len() as int),
            models(finished@) == fold_stack(flat.subrange(nodes@.len() as int, flat.len() as int)),
        decreases nodes@.len(),
    {
        let ghost before = nodes@;
        let ghost stack_before = finished@;
        let ghost rest = flat.subrange(before.len() as int, flat.len() as int);
        let mut node = nodes.pop().unwrap();
        let ghost entry = node@;
        proof {
            assert(entry == models(before)[before.len() - 1]);
            assert(entry == flat[before.len() - 1]);
            let now = flat.subrange(before.len() - 1, flat.len() as int);
            assert(now[0] == entry);
            assert(now.drop_first() =~= rest);
            assert(models(nodes@) =~= flat.subrange(0, nodes@.len() as int));
            lemma_view_children(node);
        }
        if node.children.len() > 0 {
            let wanted = node.children.len();
            let begin = if finished.len() >= wanted {
                finished.len() - wanted
            } else {
                0
            };
            node.children = finished.split_off(begin);
            proof {
                lemma_view_children(node);
                assert(models(node.children@) =~= models(stack_before).subrange(
                    begin as int,
                    stack_before.len() as int,
                ));
                assert(models(finished@) =~= models(stack_before).subrange(0, begin as int));
                assert(node@ == with_children(entry, node@.children));
            }
        }
        let ghost folded = node@;
        let ghost below = finished@;
        finished.push(node);
        proof {
            assert(models(finished@) =~= models(below).push(folded));
        }
    }
    proof {
        assert(flat.subrange(0, flat.len() as int) =~= flat);
    }
    let ghost stack = finished@;
    let root = finished.pop();
    proof {
        lemma_fold_onto_height(flat, Seq::empty());
        if stack.len() > 0 {
            assert(models(stack).last() == stack.last()@);
        }
    }
    root
}

/// A node without its children: what a walk knows of an object before it
/// has visited it.
pub open spec fn placeholder(node: NodeModel) -> NodeModel {
    with_children(node, Seq::empty())
}

/// The entry that a visit of the root of `tree` appends to the flat list: the
/// root's details, and one placeholder per child.
pub open spec fn entry_of(tree: NodeModel) -> NodeModel {
    with_children(tree, Seq::new(tree.children.len(), |i: int| placeholder(tree.children[i])))
}

/// The flat list that a walk of `tree` leaves: the root's entry, then the
/// lists of its children's subtrees, the last child's first.
pub open spec fn discovery(tree: NodeModel) -> Seq<NodeModel>
    decreases tree, 1int,
{
    seq![entry_of(tree)] + discovery_all(tree.children, tree.children.len())
}

/// The flat lists of the first `upto` trees of a run, the last of them first.
pub open spec fn discovery_all(trees: Seq<NodeModel>, upto: nat) -> Seq<NodeModel>
    decreases trees, upto,
{
    if upto == 0 || upto > trees.len() {
        Seq::empty()
    } else {
        discovery(trees[upto - 1]) + discovery_all(trees, (upto - 1) as nat)
    }
}

/// Whether two entries differ at most in what their placeholders hold: the
/// details are equal, and so is the number of placeholders.
pub open spec fn same_entry(a: NodeModel, b: NodeModel) -> bool {
    placeholder(a) == placeholder(b) && a.children.len() == b.children.len()
}

/// Whether two flat lists agree entry by entry, whatever the placeholders
/// hold.
pub open spec fn same_shape(a: Seq<NodeModel>, b: Seq<NodeModel>) -> bool {
    &&& a.len() == b.len()
    &&& forall|i: int| 0 <= i < a.len() ==> same_entry(#[trigger] a[i], b[i])
}

/// Whether `flat` is a flat list of a walk of `tree`: entry by entry it is the
/// list that the walk leaves, whatever the placeholders hold.
pub open spec fn is_discovery_of(flat: Seq<NodeModel>, tree: NodeModel) -> bool {
    same_shape(flat, discovery(tree))
}

/// Whether, in folding `flat` onto `base`, every entry finds as many
/// finished nodes on the stack as it has placeholders.
pub open spec fn fits_onto(flat: Seq<NodeModel>, base: Seq<NodeModel>) -> bool
    decreases flat.len(),
{
    flat.len() == 0 || (fits_onto(flat.drop_first(), base) && flat[0].children.len() <= fold_onto(
        flat.drop_first(),
        base,
    ).len())
}

/// Whether the child counts of a flat list add up: folded from an empty
/// stack, no entry asks for more finished nodes than there are.
pub open spec fn fits(flat: Seq<NodeModel>) -> bool {
    fits_onto(flat, Seq::empty())
}

/// Folding two lists laid end to end folds the second, then the first onto
/// what that left.
pub proof fn lemma_fold_onto_concat(front: Seq<NodeModel>, back: Seq<NodeModel>, base: Seq<NodeModel>)
    ensures
        fold_onto(front + back, base) == fold_onto(front, fold_onto(back, base)),
    decreases front.len(),
{
    if front.len() == 0 {
        assert(front + back =~= back);
    } else {
        assert((front + back)[0] == front[0]);
        assert((front + back).drop_first() =~= front.drop_first() + back);
        lemma_fold_onto_concat(front.drop_first(), back, base);
    }
}

/// Folding the flat list of a walk of `tree` onto a stack puts exactly
/// `tree` on top of it and leaves what was below untouched.
pub proof fn lemma_fold_discovery(tree: NodeModel, base: Seq<NodeModel>)
    ensures
        fold_onto(discovery(tree), base) == base.push(tree),
    decreases tree, 1int,
{
    let below = discovery_all(tree.children, tree.children.len());
    let entry = entry_of(tree);
    lemma_fold_discovery_all(tree.children, tree.children.len(), base);
    assert(tree.children.subrange(0, tree.children.len() as int) =~= tree.children);
    let stack = base + tree.children;
    assert(fold_onto(below, base) == stack);
    assert((seq![entry] + below)[0] == entry);
    assert((seq![entry] + below).drop_first() =~= below);
    assert(fold_onto(discovery(tree), base) == fold_step(stack, entry));
    if tree.children.len() == 0 {
        assert(entry.children =~= tree.children);
        assert(stack =~= base);
    } else {
        assert(stack.subrange(0, base.len() as int) =~= base);
        assert(stack.subrange(base.len() as int, stack.len() as int) =~= tree.children);
    }
}

/// Folding the flat lists of the first `upto` trees of a run onto a stack
/// puts those trees on top of it, in their order.
pub proof fn lemma_fold_discovery_all(trees: Seq<NodeModel>, upto: nat, base: Seq<NodeModel>)
    requires
        upto <= trees.len(),
    ensures
        fold_onto(discovery_all(trees, upto), base) == base + trees.subrange(0, upto as int),
    decreases trees, upto,
{
    if upto == 0 {
        assert(base + trees.subrange(0, 0) =~= base);
    } else {
        let last = trees[upto - 1];
        let before = discovery_all(trees, (upto - 1) as nat);
        lemma_fold_onto_concat(discovery(last), before, base);
        lemma_fold_discovery_all(trees, (upto - 1) as nat, base);
        lemma_fold_discovery(last, base + trees.subrange(0, upto - 1));
        assert((base + trees.subrange(0, upto - 1)).push(last) =~= base + trees.subrange(
            0,
            upto as int,
        ));
    }
}

/// Folding looks at an entry's details and at the number of its
/// placeholders, never at what a placeholder holds.
pub proof fn lemma_fold_ignores_placeholders(a: Seq<NodeModel>, b: Seq<NodeModel>, base: Seq<NodeModel>)
    requires
        same_shape(a, b),
    ensures
        fold_onto(a, base) == fold_onto(b, base),
    decreases a.len(),
{
    if a.len() > 0 {
        assert forall|i: int| 0 <= i < a.drop_first().len() implies same_entry(
            #[trigger] a.drop_first()[i],
            b.drop_first()[i],
        ) by {
            assert(same_entry(a[i + 1], b[i + 1]));
        }
        lemma_fold_ignores_placeholders(a.drop_first(), b.drop_first(), base);
        assert(same_entry(a[0], b[0]));
        let stack = fold_onto(a.drop_first(), base);
        let begin = stack.len() - taken(a[0], stack.len());
        let kept = stack.subrange(begin, stack.len() as int);
        assert(with_children(a[0], kept) == with_children(placeholder(a[0]), kept));
        assert(with_children(b[0], kept) == with_children(placeholder(b[0]), kept));
        if a[0].children.len() == 0 {
            assert(a[0].children =~= b[0].children);
        }
    }
}

/// Folding rebuilds the tree that was walked: from a flat list of a walk of
/// `tree` it leaves exactly one node, the root, in which every node has the
/// children that the walk recorded for it, in their order.
pub proof fn lemma_fold_rebuilds(flat: Seq<NodeModel>, tree: NodeModel)
    requires
        is_discovery_of(flat, tree),
    ensures
        fold_stack(flat) == seq![tree],
        fold_result(flat) == Some(tree),
{
    lemma_fold_ignores_placeholders(flat, discovery(tree), Seq::empty());
    lemma_fold_discovery(tree, Seq::empty());
    assert(Seq::<NodeModel>::empty().push(tree) =~= seq![tree]);
}

/// Whether `node` occurs in one of the trees of a stack.
pub open spec fn stack_holds(stack: Seq<NodeModel>, node: NodeModel) -> bool {
    exists|k: int| 0 <= k < stack.len() && #[trigger] preorder(stack[k]).contains(node)
}

/// Folding one more entry loses no node that the stack held.
pub proof fn lemma_fold_step_keeps(stack: Seq<NodeModel>, entry: NodeModel, node: NodeModel)
    requires
        stack_holds(stack, node),
    ensures
        stack_holds(fold_step(stack, entry), node),
{
    let k = choose|k: int| 0 <= k < stack.len() && #[trigger] preorder(stack[k]).contains(node);
    let after = fold_step(stack, entry);
    if entry.children.len() == 0 {
        assert(after[k] == stack[k]);
    } else {
        let begin = stack.len() - taken(entry, stack.len());
        if k < begin {
            assert(after[k] == stack[k]);
        } else {
            let parent = after[begin];
            assert(parent.children[k - begin] == stack[k]);
            lemma_preorder_holds_below(parent, k - begin, node);
        }
    }
}

/// A childless entry of a flat list is a node of what the list folds into,
/// as it stands in the list: folding neither drops it nor gives it children.
pub proof fn lemma_fold_keeps_leaves(flat: Seq<NodeModel>, base: Seq<NodeModel>, at: int)
    requires
        0 <= at < flat.len(),
        flat[at].children.len() == 0,
    ensures
        stack_holds(fold_onto(flat, base), flat[at]),
    decreases flat.len(),
{
    let below = fold_onto(flat.drop_first(), base);
    if at == 0 {
        let after = fold_step(below, flat[0]);
        lemma_preorder_holds_root(flat[0]);
        assert(after[below.len() as int] == flat[0]);
    } else {
        assert(flat.drop_first()[at - 1] == flat[at]);
        lemma_fold_keeps_leaves(flat.drop_first(), base, at - 1);
        lemma_fold_step_keeps(below, flat[0], flat[at]);
    }
}

/// Where a flat list folds into one tree, each of its childless entries is
/// a node of that tree, and childless there.
pub proof fn lemma_leaf_in_snapshot(flat: Seq<NodeModel>, at: int, root: NodeModel)
    requires
        0 <= at < flat.len(),
        flat[at].children.len() == 0,
        fold_stack(flat) == seq![root],
    ensures
        preorder(root).contains(flat[at]),
{
    lemma_fold_keeps_leaves(flat, Seq::empty(), at);
}

/// The flat lists of the first trees of a run depend on those trees alone.
pub proof fn lemma_discovery_all_prefix(a: Seq<NodeModel>, b: Seq<NodeModel>, upto: nat)
    requires
        upto <= a.len(),
        upto <= b.len(),
        forall|i: int| 0 <= i < upto ==> a[i] == b[i],
    ensures
        discovery_all(a, upto) == discovery_all(b, upto),
    decreases upto,
{
    if upto > 0 {
        lemma_discovery_all_prefix(a, b, (upto - 1) as nat);
    }
}

/// The flat lists of a run of trees are those of its later trees followed
/// by those of its earlier trees.
pub proof fn lemma_discovery_all_split(trees: Seq<NodeModel>, from: nat, upto: nat)
    requires
        from <= upto <= trees.len(),
    ensures
        discovery_all(trees, upto) == discovery_all(
            trees.subrange(from as int, upto as int),
            (upto - from) as nat,
        ) + discovery_all(trees, from),
    decreases upto,
{
    let later = trees.subrange(from as int, upto as int);
    if from == upto {
        assert(discovery_all(later, 0) + discovery_all(trees, from) =~= discovery_all(trees, from));
    } else {
        let shorter = trees.subrange(from as int, upto - 1);
        lemma_discovery_all_split(trees, from, (upto - 1) as nat);
        lemma_discovery_all_prefix(later, shorter, (upto - 1 - from) as nat);
        assert(later[upto - from - 1] == trees[upto - 1]);
        assert(discovery(trees[upto - 1]) + (discovery_all(shorter, (upto - 1 - from) as nat)
            + discovery_all(trees, from)) =~= (discovery(trees[upto - 1]) + discovery_all(
            shorter,
            (upto - 1 - from) as nat,
        )) + discovery_all(trees, from));
    }
}

/// A flat list whose child counts add up is, entry by entry, the list that
/// a walk of the trees it folds into leaves.
pub proof fn lemma_fold_walks_back(flat: Seq<NodeModel>)
    requires
        fits(flat),
    ensures
        same_shape(flat, discovery_all(fold_stack(flat), fold_stack(flat).len())),
    decreases flat.len(),
{
    let stack = fold_stack(flat);
    let walk = discovery_all(stack, stack.len());
    if flat.len() == 0 {
        assert(walk =~= flat);
    } else {
        let entry = flat[0];
        let rest = flat.drop_first();
        let below = fold_stack(rest);
        let walk_below = discovery_all(below, below.len());
        lemma_fold_walks_back(rest);
        let kept = (below.len() - taken(entry, below.len())) as nat;
        let top = stack[stack.len() - 1];
        assert(stack.len() == kept + 1);
        lemma_discovery_all_prefix(stack, below, kept);
        if entry.children.len() == 0 {
            assert(top == entry);
            assert(entry_of(entry).children =~= entry.children);
            assert(discovery_all(entry.children, 0) =~= Seq::<NodeModel>::empty());
            assert(discovery(entry) =~= seq![entry]);
            assert(walk =~= seq![entry] + walk_below);
        } else {
            let children = below.subrange(kept as int, below.len() as int);
            assert(top == with_children(entry, children));
            lemma_discovery_all_split(below, kept, below.len());
            assert(top.children == children);
            assert(children.len() == below.len() - kept);
            assert(walk == discovery(top) + discovery_all(stack, kept));
            assert(discovery(top) == seq![entry_of(top)] + discovery_all(
                children,
                children.len(),
            ));
            assert(walk =~= seq![entry_of(top)] + walk_below);
            assert(placeholder(entry) == placeholder(entry_of(top)));
        }
        assert forall|i: int| 0 <= i < flat.len() implies same_entry(#[trigger] flat[i], walk[i]) by {
            if i > 0 {
                assert(flat[i] == rest[i - 1]);
                assert(same_entry(rest[i - 1], walk_below[i - 1]));
            }
        }
    }
}

/// Folding undoes a walk and a walk undoes folding: where the child counts
/// of a flat list add up and the list folds into one tree, the list is a
/// walk of that tree. Every node of the tree has the details of its entry
/// and as many children as the entry has placeholders, and the children are
/// the nodes whose entries the walk recorded for them, in their order.
pub proof fn lemma_fold_is_walked(flat: Seq<NodeModel>, root: NodeModel)
    requires
        fits(flat),
        fold_stack(flat) == seq![root],
    ensures
        is_discovery_of(flat, root),
{
    lemma_fold_walks_back(flat);
    assert(discovery_all(seq![root], 0) =~= Seq::<NodeModel>::empty());
    assert(discovery_all(seq![root], 1) =~= discovery(root));
}

/// Whether every node of a run is childless.
pub open spec fn all_childless(nodes: Seq<NodeModel>) -> bool {
    forall|i: int| 0 <= i < nodes.len() ==> (#[trigger] nodes[i]).children.len() == 0
}

/// A childless run has a childless first node, and is childless without it.
pub proof fn lemma_childless_rest(nodes: Seq<NodeModel>)
    requires
        all_childless(nodes),
        nodes.len() > 0,
    ensures
        nodes[0].children.len() == 0,
        all_childless(nodes.drop_first()),
{
    assert forall|i: int| 0 <= i < nodes.drop_first().len() implies (
    #[trigger] nodes.drop_first()[i]).children.len() == 0 by {
        assert(nodes[i + 1].children.len() == 0);
    }
}

/// The height of a stack after folding depends on the height before, not on
/// what the stack holds.
pub proof fn lemma_fold_height(flat: Seq<NodeModel>, a: Seq<NodeModel>, b: Seq<NodeModel>)
    requires
        a.len() == b.len(),
    ensures
        fold_onto(flat, a).len() == fold_onto(flat, b).len(),
    decreases flat.len(),
{
    if flat.len() > 0 {
        lemma_fold_height(flat.drop_first(), a, b);
    }
}

/// Folding childless entries onto a stack raises it by one node each.
pub proof fn lemma_fold_childless(flat: Seq<NodeModel>, base: Seq<NodeModel>)
    requires
        all_childless(flat),
    ensures
        fold_onto(flat, base).len() == base.len() + flat.len(),
    decreases flat.len(),
{
    if flat.len() > 0 {
        lemma_childless_rest(flat);
        lemma_fold_childless(flat.drop_first(), base);
    }
}

/// Folding a list folds what follows its first entry, then the first entry.
pub proof fn lemma_fold_first(entry: NodeModel, rest: Seq<NodeModel>, base: Seq<NodeModel>)
    ensures
        fold_onto(seq![entry] + rest, base) == fold_step(fold_onto(rest, base), entry),
{
    assert((seq![entry] + rest)[0] == entry);
    assert((seq![entry] + rest).drop_first() =~= rest);
}

/// Whether the child counts of a list add up depends on the height of the
/// stack it is folded onto, not on what the stack holds.
pub proof fn lemma_fits_height(flat: Seq<NodeModel>, a: Seq<NodeModel>, b: Seq<NodeModel>)
    requires
        a.len() == b.len(),
    ensures
        fits_onto(flat, a) == fits_onto(flat, b),
    decreases flat.len(),
{
    if flat.len() > 0 {
        lemma_fits_height(flat.drop_first(), a, b);
        lemma_fold_height(flat.drop_first(), a, b);
    }
}

/// The child counts of childless entries add up on every stack.
pub proof fn lemma_fits_childless(flat: Seq<NodeModel>, base: Seq<NodeModel>)
    requires
        all_childless(flat),
    ensures
        fits_onto(flat, base),
    decreases flat.len(),
{
    if flat.len() > 0 {
        lemma_childless_rest(flat);
        lemma_fits_childless(flat.drop_first(), base);
    }
}

/// The child counts of a list add up where those of what follows its first
/// entry do and the first entry finds its share.
pub proof fn lemma_fits_first(entry: NodeModel, rest: Seq<NodeModel>, base: Seq<NodeModel>)
    ensures
        fits_onto(seq![entry] + rest, base) == (fits_onto(rest, base) && entry.children.len()
            <= fold_onto(rest, base).len()),
{
    assert((seq![entry] + rest)[0] == entry);
    assert((seq![entry] + rest).drop_first() =~= rest);
}

/// The child counts of two lists laid end to end add up where those of the
/// second do, and those of the first on the stack that the second leaves.
pub proof fn lemma_fits_concat(front: Seq<NodeModel>, back: Seq<NodeModel>, base: Seq<NodeModel>)
    ensures
        fits_onto(front + back, base) == (fits_onto(back, base) && fits_onto(
            front,
            fold_onto(back, base),
        )),
    decreases front.len(),
{
    if front.len() == 0 {
        assert(front + back =~= back);
    } else {
        assert((front + back)[0] == front[0]);
        assert((front + back).drop_first() =~= front.drop_first() + back);
        lemma_fits_concat(front.drop_first(), back, base);
        lemma_fold_onto_concat(front.drop_first(), back, base);
    }
}

} // verus!
