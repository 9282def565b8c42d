//! The walk that turns a remote object graph into a flat list, one decision
//! at a time.
//!
//! The builder owns the work stack and the flat list. Its caller owns the
//! connection: it asks the object on top of the work stack for its child
//! count, lets the builder decide, and where the builder wants the object
//! expanded, fetches the object's details and those of its children and hands
//! them in. The depth of the remote graph costs memory here, never call
//! stack.

use vstd::prelude::*;
use crate::error::TestByATSPIError;
use crate::fold::{
    all_childless, fits, fold, fold_onto, fold_result, fold_stack, fold_step, is_discovery_of,
    lemma_fits_childless, lemma_fits_concat, lemma_fits_first, lemma_fits_height,
    lemma_fold_childless, lemma_fold_first, lemma_fold_height, lemma_fold_is_walked,
    lemma_fold_onto_concat, lemma_leaf_in_snapshot, with_children,
};
use crate::snapshot::{
    lemma_view_children, models, preorder, text_of, NodeModel, RemoteRef, TreeNode,
};

verus! {

/// The largest child count that is still expanded. An object that reports
/// more is kept as a childless node.
pub const MAX_CHILDREN: u64 = 65536;

/// What one remote call tells of an object: where it lives, and its
/// identifier, name and role.
#[derive(Debug, PartialEq, Eq)]
pub struct NodeDetails {
    /// The bus name of the process that owns the object.
    pub destination: String,
    /// The object's path within that process.
    pub path: String,
    /// The stable, machine-visible identifier, where the object has one.
    pub accessible_id: Option<String>,
    /// The human readable name, where the object has one.
    pub name: Option<String>,
    /// The role number of the object.
    pub role: u32,
}

impl View for NodeDetails {
    type V = NodeModel;

    /// The childless node with these details.
    open spec fn view(&self) -> NodeModel {
        NodeModel {
            destination: self.destination@,
            path: self.path@,
            accessible_id: text_of(self.accessible_id),
            name: text_of(self.name),
            role: self.role,
            children: Seq::empty(),
        }
    }
}

/// The childless nodes of a run of details, one for one.
pub open spec fn leaves(details: Seq<NodeDetails>) -> Seq<NodeModel> {
    Seq::new(details.len(), |i: int| details[i]@)
}

impl NodeDetails {
    /// The childless node with these details.
    pub fn into_leaf(self) -> (node: TreeNode)
        ensures
            node@ == self@,
    {
        let node = TreeNode {
            destination: self.destination,
            path: self.path,
            accessible_id: self.accessible_id,
            name: self.name,
            role: self.role,
            children: Vec::new(),
        };
        proof {
            lemma_view_children(node);
            assert(node@.children =~= self@.children);
        }
        node
    }
}

/// A run in reverse.
pub open spec fn reversed(nodes: Seq<NodeModel>) -> Seq<NodeModel> {
    Seq::new(nodes.len(), |i: int| nodes[nodes.len() - 1 - i])
}

/// What the builder wants done with the object on top of the work stack
/// once its child count is known.
#[derive(Copy, Clone, Debug, PartialEq, Eq, Structural)]
pub enum Verdict {
    /// Nothing is waiting to be visited.
    Idle,
    /// The object reports too many children. It has been recorded as a
    /// childless node; nothing more is to be fetched for it.
    Skipped,
    /// The object is to be expanded: fetch its details and those of its
    /// children, and hand them in.
    Expand,
}

/// The state of one walk: the objects that wait to be visited, and the flat
/// list of those that were.
pub struct TreeBuilder {
    stack: Vec<TreeNode>,
    nodes: Vec<TreeNode>,
}

impl TreeBuilder {
    /// The objects that wait to be visited, as childless nodes; the last one
    /// is visited next.
    pub closed spec fn pending(&self) -> Seq<NodeModel> {
        models(self.stack@)
    }

    /// The flat list of the objects visited so far, in the order of the
    /// visits.
    pub closed spec fn completed(&self) -> Seq<NodeModel> {
        models(self.nodes@)
    }

    /// The flat list as it would stand if every waiting object were visited
    /// now and found childless.
    pub open spec fn outline(&self) -> Seq<NodeModel> {
        self.completed() + reversed(self.pending())
    }

    /// What holds of every builder between two calls: the waiting objects are
    /// childless, the child counts of the walk so far add up, and the walk so
    /// far folds into exactly one tree.
    pub open spec fn wf(&self) -> bool {
        &&& all_childless(self.pending())
        &&& fits(self.outline())
        &&& fold_stack(self.outline()).len() == 1
    }

    /// Starts a walk at the object with the given details.
    pub fn new(root: NodeDetails) -> (builder: TreeBuilder)
        ensures
            builder.wf(),
            builder.pending() == seq![root@],
            builder.completed() == Seq::<NodeModel>::empty(),
    {
        let mut stack: Vec<TreeNode> = Vec::new();
        stack.push(root.into_leaf());
        let builder = TreeBuilder { stack, nodes: Vec::new() };
        proof {
            assert(builder.pending() =~= seq![root@]);
            assert(builder.completed() =~= Seq::<NodeModel>::empty());
            assert(builder.outline() =~= seq![root@]);
            lemma_fold_first(root@, Seq::empty(), Seq::empty());
            lemma_fits_first(root@, Seq::empty(), Seq::empty());
            assert(seq![root@] + Seq::<NodeModel>::empty() =~= seq![root@]);
        }
        builder
    }

    /// The object to visit next: the one on top of the work stack. `None`
    /// when the walk is over.
    pub fn next_target(&self) -> (target: Option<RemoteRef>)
        ensures
            target is None <==> self.pending().len() == 0,
            target matches Some(place) ==> place.leads_to(self.pending().last()),
    {
        if self.stack.len() == 0 {
            None
        } else {
            Some(self.stack[self.stack.len() - 1].remote_ref())
        }
    }

    /// Takes the child count that the object on top of the work stack
    /// reported, and decides. An object that reports more than
    /// [`MAX_CHILDREN`] children leaves the work stack and is recorded as it
    /// stands there, childless, whatever children it has; any other stays on
    /// top until [`TreeBuilder::on_expanded`] is called for it.
    pub fn on_child_count(&mut self, count: u64) -> (verdict: Verdict)
        ensures
            old(self).wf() ==> final(self).wf(),
            verdict == if old(self).pending().len() == 0 {
                Verdict::Idle
            } else if count > MAX_CHILDREN {
                Verdict::Skipped
            } else {
                Verdict::Expand
            },
            verdict == Verdict::Skipped ==> {
                &&& final(self).pending() == old(self).pending().drop_last()
                &&& final(self).completed() == old(self).completed().push(
                    old(self).pending().last(),
                )
                &&& old(self).wf() ==> final(self).completed().last().children.len() == 0
            },
            verdict != Verdict::Skipped ==> {
                &&& final(self).pending() == old(self).pending()
                &&& final(self).completed() == old(self).completed()
            },
    {
        if self.stack.len() == 0 {
            return Verdict::Idle;
        }
        if count <= MAX_CHILDREN {
            return Verdict::Expand;
        }
        let ghost before = old(self).outline();
        let ghost waiting = old(self).pending();
        let ghost done = old(self).completed();
        let node = self.stack.pop().unwrap();
        self.nodes.push(node);
        proof {
            assert(self.pending() =~= waiting.drop_last());
            assert(self.completed() =~= done.push(waiting.last()));
            assert(self.outline() =~= before);
        }
        Verdict::Skipped
    }

    /// Takes what was fetched for the object on top of the work stack: its
    /// own details, and those of its children in the order in which the
    /// remote side listed them. The object leaves the work stack; its entry,
    /// the details with one placeholder per child, joins the flat list; the
    /// children join the work stack, the last of them on top. With nothing
    /// waiting, nothing changes.
    pub fn on_expanded(&mut self, details: NodeDetails, children: Vec<NodeDetails>)
        ensures
            old(self).wf() ==> final(self).wf(),
            old(self).pending().len() == 0 ==> {
                &&& final(self).pending() == old(self).pending()
                &&& final(self).completed() == old(self).completed()
            },
            old(self).pending().len() > 0 ==> {
                &&& final(self).pending() == old(self).pending().drop_last() + leaves(children@)
                &&& final(self).completed() == old(self).completed().push(
                    with_children(details@, leaves(children@)),
                )
            },
    {
        if self.stack.len() == 0 {
            return ;
        }
        let ghost waiting = old(self).pending();
        let ghost done = old(self).completed();
        let ghost kids = leaves(children@);
        let ghost entry = with_children(details@, kids);
        let _ = self.stack.pop();
        let placeholders = into_leaves(children);
        let mut i: usize = 0;
        while i < placeholders.len()
            invariant
                i <= placeholders@.len(),
                models(placeholders@) == kids,
                models(self.stack@) == waiting.drop_last() + kids.subrange(0, i as int),
                self.nodes == old(self).nodes,
            decreases placeholders@.len() - i,
        {
            let ghost below = self.stack@;
            let copy = placeholders[i].clone();
            self.stack.push(copy);
            proof {
                assert(models(self.stack@) =~= models(below).push(kids[i as int]));
                assert(models(self.stack@) =~= waiting.drop_last() + kids.subrange(0, i + 1));
            }
            i += 1;
        }
        let mut node = details.into_leaf();
        node.children = placeholders;
        proof {
            lemma_view_children(node);
            assert(node@ == entry);
            assert(kids.subrange(0, kids.len() as int) =~= kids);
        }
        self.nodes.push(node);
        proof {
            assert(self.completed() =~= done.push(entry));
            assert(self.pending() == waiting.drop_last() + kids);
            if old(self).wf() {
                lemma_expansion_keeps_one_tree(done, waiting, entry, kids);
            }
        }
    }

    /// Ends the walk and folds the flat list into the snapshot. Fails, with
    /// the error for a walk that left no node, exactly when nothing was
    /// visited. Once the work stack is empty, the fold leaves one tree and no
    /// more, and that tree is the result.
    pub fn finish(self) -> (outcome: Result<TreeNode, TestByATSPIError>)
        ensures
            outcome is Ok <==> self.completed().len() > 0,
            outcome matches Ok(root) ==> Some(root@) == fold_result(self.completed()),
            outcome matches Err(error) ==> error.is_no_root(),
            outcome matches Ok(root) ==> (self.wf() && self.pending().len() == 0 ==> fold_stack(
                self.completed(),
            ) == seq![root@] && is_discovery_of(self.completed(), root@)),
            outcome matches Ok(root) ==> (self.wf() && self.pending().len() == 0 ==> forall|i: int|
                0 <= i < self.completed().len() && self.completed()[i].children.len() == 0
                    ==> preorder(root@).contains(#[trigger] self.completed()[i])),
    {
        proof {
            if self.wf() && self.pending().len() == 0 {
                assert(self.outline() =~= self.completed());
            }
        }
        match fold(self.nodes) {
            Some(root) => {
                proof {
                    let stack = fold_stack(self.completed());
                    if stack.len() == 1 {
                        assert(stack =~= seq![root@]);
                        if fits(self.completed()) {
                            lemma_fold_is_walked(self.completed(), root@);
                        }
                        assert forall|i: int|
                            0 <= i < self.completed().len() && self.completed()[i].children.len()
                                == 0 implies preorder(root@).contains(
                            #[trigger] self.completed()[i],
                        ) by {
                            lemma_leaf_in_snapshot(self.completed(), i, root@);
                        }
                    }
                }
                Ok(root)
            },
            None => Err(TestByATSPIError::no_root()),
        }
    }
}

/// Turns the details of a run of objects into childless nodes, one for one.
fn into_leaves(details: Vec<NodeDetails>) -> (nodes: Vec<TreeNode>)
    ensures
        models(nodes@) == leaves(details@),
{
    let ghost wanted = leaves(details@);
    let mut rest = details;
    let mut backwards: Vec<TreeNode> = Vec::new();
    while rest.len() > 0
        invariant
            rest@.len() <= wanted.len(),
            leaves(rest@) == wanted.subrange(0, rest@.len() as int),
            backwards@.len() == wanted.len() - rest@.len(),
            forall|k: int|
                0 <= k < backwards@.len() ==> (#[trigger] backwards@[k])@ == wanted[wanted.len()
                    - 1 - k],
        decreases rest@.len(),
    {
        let ghost before = rest@;
        let one = rest.pop().unwrap();
        proof {
            assert(one@ == leaves(before)[before.len() - 1]);
            assert(leaves(rest@) =~= wanted.subrange(0, rest@.len() as int));
        }
        backwards.push(one.into_leaf());
    }
    let mut nodes: Vec<TreeNode> = Vec::new();
    while backwards.len() > 0
        invariant
            backwards@.len() + nodes@.len() == wanted.len(),
            forall|k: int|
                0 <= k < backwards@.len() ==> (#[trigger] backwards@[k])@ == wanted[wanted.len()
                    - 1 - k],
            forall|k: int| 0 <= k < nodes@.len() ==> (#[trigger] nodes@[k])@ == wanted[k],
        decreases backwards@.len(),
    {
        let one = backwards.pop().unwrap();
        nodes.push(one);
    }
    proof {
        assert(models(nodes@) =~= wanted);
    }
    nodes
}

/// Expanding the object on top of the work stack keeps the walk in the shape
/// of one tree: where the outline folded into one tree before, it does so
/// after the object's entry has joined the flat list and its children the
/// work stack.
pub proof fn lemma_expansion_keeps_one_tree(
    done: Seq<NodeModel>,
    waiting: Seq<NodeModel>,
    entry: NodeModel,
    kids: Seq<NodeModel>,
)
    requires
        waiting.len() > 0,
        all_childless(waiting),
        all_childless(kids),
        entry.children.len() == kids.len(),
        fits(done + reversed(waiting)),
        fold_stack(done + reversed(waiting)).len() == 1,
    ensures
        all_childless(waiting.drop_last() + kids),
        fits(done.push(entry) + reversed(waiting.drop_last() + kids)),
        fold_stack(done.push(entry) + reversed(waiting.drop_last() + kids)).len() == 1,
{
    let top = waiting.last();
    let rest = reversed(waiting.drop_last());
    let under = fold_onto(rest, Seq::empty());
    let empty = Seq::<NodeModel>::empty();
    assert(done + reversed(waiting) =~= done + (seq![top] + rest));
    assert(done.push(entry) + reversed(waiting.drop_last() + kids) =~= done + (seq![entry] + (
    reversed(kids) + rest)));
    lemma_fold_onto_concat(done, seq![top] + rest, empty);
    lemma_fold_onto_concat(done, seq![entry] + (reversed(kids) + rest), empty);
    lemma_fold_first(top, rest, empty);
    lemma_fold_first(entry, reversed(kids) + rest, empty);
    lemma_fold_onto_concat(reversed(kids), rest, empty);
    assert(all_childless(reversed(kids)));
    lemma_fold_childless(reversed(kids), under);
    assert(top.children.len() == 0);
    lemma_fold_height(
        done,
        fold_step(under, top),
        fold_step(fold_onto(reversed(kids), under), entry),
    );
    lemma_fits_concat(done, seq![top] + rest, empty);
    lemma_fits_concat(done, seq![entry] + (reversed(kids) + rest), empty);
    lemma_fits_first(top, rest, empty);
    lemma_fits_first(entry, reversed(kids) + rest, empty);
    lemma_fits_concat(reversed(kids), rest, empty);
    lemma_fits_childless(reversed(kids), under);
    lemma_fits_height(
        done,
        fold_step(under, top),
        fold_step(fold_onto(reversed(kids), under), entry),
    );
}

} // verus!
