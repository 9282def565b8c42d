//! The owned snapshot of an accessibility tree, and the search over it.

use vstd::prelude::*;
use crate::api::{By, Query};

verus! {

/// The role number that the accessibility protocol gives to an application.
pub const ROLE_APPLICATION: u32 = 75;

/// One accessible object as it was when the snapshot was taken.
#[derive(Debug, PartialEq, Eq)]
pub struct TreeNode {
    /// The bus name of the process that owns the object.
    pub destination: String,
    /// The object's path within that process.
    pub path: String,
    /// The stable, machine-visible identifier, where the object has one.
    pub accessible_id: Option<String>,
    /// The human readable name, where the object has one.
    pub name: Option<String>,
    /// The role number of the object.
    pub role: u32,
    /// The children, in the order in which the remote side listed them.
    pub children: Vec<TreeNode>,
}

/// A snapshot node as a mathematical value.
pub struct NodeModel {
    pub destination: Seq<char>,
    pub path: Seq<char>,
    pub accessible_id: Option<Seq<char>>,
    pub name: Option<Seq<char>>,
    pub role: u32,
    pub children: Seq<NodeModel>,
}

/// The text of an optional string.
pub open spec fn text_of(s: Option<String>) -> Option<Seq<char>> {
    match s {
        Some(t) => Some(t@),
        None => None,
    }
}

impl TreeNode {
    /// The node as a mathematical value: its fields, and the models of its
    /// children in order.
    pub open spec fn model(self) -> NodeModel
        decreases self,
    {
        NodeModel {
            destination: self.destination@,
            path: self.path@,
            accessible_id: text_of(self.accessible_id),
            name: text_of(self.name),
            role: self.role,
            children: Seq::new(
                self.children.len() as nat,
                |i: int|
                    if 0 <= i < self.children.len() {
                        self.children[i].model()
                    } else {
                        arbitrary()
                    },
            ),
        }
    }
}

impl View for TreeNode {
    type V = NodeModel;

    open spec fn view(&self) -> NodeModel {
        self.model()
    }
}

/// The models of a run of nodes, one for one.
pub open spec fn models(nodes: Seq<TreeNode>) -> Seq<NodeModel> {
    Seq::new(nodes.len(), |i: int| nodes[i]@)
}

/// The model of an optional node.
pub open spec fn model_of(node: Option<TreeNode>) -> Option<NodeModel> {
    match node {
        Some(n) => Some(n@),
        None => None,
    }
}

/// A node's model lists the models of its children.
pub proof fn lemma_view_children(node: TreeNode)
    ensures
        node@.children == models(node.children@),
{
    assert(node@.children.len() == node.children@.len());
    assert forall|i: int| 0 <= i < node.children@.len() implies node@.children[i]
        == node.children@[i]@ by {}
    assert(node@.children =~= models(node.children@));
}

/// Whether a node answers a query: its accessible id, or its name, is the
/// text asked for. A node without the field never answers.
pub open spec fn answers(node: NodeModel, query: Query) -> bool {
    match query {
        Query::Tag(tag) => node.accessible_id == Some(tag),
        Query::Text(text) => node.name == Some(text),
    }
}

/// The nodes of a tree, each before its children, the children in stored order.
pub open spec fn preorder(node: NodeModel) -> Seq<NodeModel>
    decreases node, 1int,
{
    seq![node] + preorder_all(node.children, node.children.len())
}

/// The pre-orders of the first `upto` trees of a run, one after another.
pub open spec fn preorder_all(nodes: Seq<NodeModel>, upto: nat) -> Seq<NodeModel>
    decreases nodes, upto,
{
    if upto == 0 || upto > nodes.len() {
        Seq::empty()
    } else {
        preorder_all(nodes, (upto - 1) as nat) + preorder(nodes[upto - 1])
    }
}

/// The first node of a run that answers the query.
pub open spec fn first_answer(nodes: Seq<NodeModel>, query: Query) -> Option<NodeModel>
    decreases nodes.len(),
{
    if nodes.len() == 0 {
        None
    } else if answers(nodes[0], query) {
        Some(nodes[0])
    } else {
        first_answer(nodes.drop_first(), query)
    }
}

/// What a search of the tree under `root` yields: the first node in
/// pre-order that answers the query.
pub open spec fn search_result(root: NodeModel, query: Query) -> Option<NodeModel> {
    first_answer(preorder(root), query)
}

/// The first answer in two runs laid end to end is the first run's, where
/// it has one, and the second run's otherwise.
pub proof fn lemma_first_answer_concat(front: Seq<NodeModel>, back: Seq<NodeModel>, query: Query)
    ensures
        first_answer(front + back, query) == if first_answer(front, query) is Some {
            first_answer(front, query)
        } else {
            first_answer(back, query)
        },
    decreases front.len(),
{
    if front.len() == 0 {
        assert(front + back =~= back);
    } else {
        assert((front + back)[0] == front[0]);
        assert((front + back).drop_first() =~= front.drop_first() + back);
        lemma_first_answer_concat(front.drop_first(), back, query);
    }
}

/// An answer found among the first `fewer` subtrees of a run is still the
/// first answer when more subtrees are taken into account.
pub proof fn lemma_first_answer_stays(nodes: Seq<NodeModel>, fewer: nat, more: nat, query: Query)
    requires
        fewer <= more <= nodes.len(),
        first_answer(preorder_all(nodes, fewer), query) is Some,
    ensures
        first_answer(preorder_all(nodes, more), query) == first_answer(
            preorder_all(nodes, fewer),
            query,
        ),
    decreases more,
{
    if fewer < more {
        lemma_first_answer_stays(nodes, fewer, (more - 1) as nat, query);
        lemma_first_answer_concat(
            preorder_all(nodes, (more - 1) as nat),
            preorder(nodes[more - 1]),
            query,
        );
    }
}

/// A search tests the root before anything below it, and goes on to the
/// subtrees of its children, in order, only where the root does not answer.
pub proof fn lemma_search_unfold(root: NodeModel, query: Query)
    ensures
        search_result(root, query) == if answers(root, query) {
            Some(root)
        } else {
            first_answer(preorder_all(root.children, root.children.len()), query)
        },
{
    let below = preorder_all(root.children, root.children.len());
    assert((seq![root] + below)[0] == root);
    assert((seq![root] + below).drop_first() =~= below);
}

/// What a search yields is the first hit in pre-order: where it yields a
/// node, that node answers the query and stands in the pre-order before
/// every other node that does; where it yields none, no node of the tree
/// answers.
pub proof fn lemma_search_first_hit(root: NodeModel, query: Query)
    ensures
        search_result(root, query) matches Some(hit) ==> exists|at: int|
            0 <= at < preorder(root).len() && #[trigger] preorder(root)[at] == hit && answers(
                hit,
                query,
            ) && forall|before: int|
                0 <= before < at ==> !answers(#[trigger] preorder(root)[before], query),
        search_result(root, query) is None ==> forall|at: int|
            0 <= at < preorder(root).len() ==> !answers(#[trigger] preorder(root)[at], query),
{
    lemma_first_answer_is_first(preorder(root), query);
}

/// The first answer of a run stands before every other answer of it.
pub proof fn lemma_first_answer_is_first(nodes: Seq<NodeModel>, query: Query)
    ensures
        first_answer(nodes, query) matches Some(hit) ==> exists|at: int|
            0 <= at < nodes.len() && #[trigger] nodes[at] == hit && answers(hit, query)
                && forall|before: int|
                0 <= before < at ==> !answers(#[trigger] nodes[before], query),
        first_answer(nodes, query) is None ==> forall|at: int|
            0 <= at < nodes.len() ==> !answers(#[trigger] nodes[at], query),
    decreases nodes.len(),
{
    if nodes.len() > 0 && !answers(nodes[0], query) {
        let rest = nodes.drop_first();
        lemma_first_answer_is_first(rest, query);
        match first_answer(rest, query) {
            Some(hit) => {
                let at = choose|at: int|
                    0 <= at < rest.len() && #[trigger] rest[at] == hit && answers(hit, query)
                        && forall|before: int|
                        0 <= before < at ==> !answers(#[trigger] rest[before], query);
                assert(nodes[at + 1] == hit);
                assert forall|before: int| 0 <= before < at + 1 implies !answers(
                    #[trigger] nodes[before],
                    query,
                ) by {
                    if before > 0 {
                        assert(nodes[before] == rest[before - 1]);
                    }
                }
            },
            None => {
                assert forall|at: int| 0 <= at < nodes.len() implies !answers(
                    #[trigger] nodes[at],
                    query,
                ) by {
                    if at > 0 {
                        assert(nodes[at] == rest[at - 1]);
                    }
                }
            },
        }
    } else if nodes.len() > 0 {
        assert(nodes[0] == nodes[0]);
    }
}

/// What stands in one of two runs stands in the two laid end to end.
pub proof fn lemma_concat_holds(front: Seq<NodeModel>, back: Seq<NodeModel>, node: NodeModel)
    requires
        front.contains(node) || back.contains(node),
    ensures
        (front + back).contains(node),
{
    if front.contains(node) {
        let at = choose|at: int| 0 <= at < front.len() && front[at] == node;
        assert((front + back)[at] == node);
    } else {
        let at = choose|at: int| 0 <= at < back.len() && back[at] == node;
        assert((front + back)[front.len() + at] == node);
    }
}

/// The pre-order of a run of trees holds every node of each of them.
pub proof fn lemma_preorder_all_holds(nodes: Seq<NodeModel>, upto: nat, which: int, node: NodeModel)
    requires
        0 <= which < upto <= nodes.len(),
        preorder(nodes[which]).contains(node),
    ensures
        preorder_all(nodes, upto).contains(node),
    decreases upto,
{
    if which < upto - 1 {
        lemma_preorder_all_holds(nodes, (upto - 1) as nat, which, node);
    }
    lemma_concat_holds(preorder_all(nodes, (upto - 1) as nat), preorder(nodes[upto - 1]), node);
}

/// The pre-order of a tree starts with its root.
pub proof fn lemma_preorder_holds_root(tree: NodeModel)
    ensures
        preorder(tree).len() > 0,
        preorder(tree)[0] == tree,
        preorder(tree).contains(tree),
{
    assert(preorder(tree)[0] == tree);
}

/// The pre-order of a tree holds every node of each child's subtree.
pub proof fn lemma_preorder_holds_below(tree: NodeModel, which: int, node: NodeModel)
    requires
        0 <= which < tree.children.len(),
        preorder(tree.children[which]).contains(node),
    ensures
        preorder(tree).contains(node),
{
    lemma_preorder_all_holds(tree.children, tree.children.len(), which, node);
    lemma_concat_holds(seq![tree], preorder_all(tree.children, tree.children.len()), node);
}

fn clone_text(text: &Option<String>) -> (copy: Option<String>)
    ensures
        text_of(copy) == text_of(*text),
{
    match text {
        Some(t) => Some(t.clone()),
        None => None,
    }
}

impl Clone for TreeNode {
    /// A copy of the whole subtree, equal to it as a mathematical value.
    fn clone(&self) -> (copy: TreeNode)
        ensures
            copy@ == self@,
        decreases self,
    {
        let mut children: Vec<TreeNode> = Vec::new();
        let mut i: usize = 0;
        while i < self.children.len()
            invariant
                i <= self.children.len(),
                children@.len() == i,
                forall|j: int| 0 <= j < i ==> (#[trigger] children@[j])@ == self.children@[j]@,
            decreases self.children.len() - i,
        {
            let child = self.children[i].clone();
            children.push(child);
            i += 1;
        }
        let copy = TreeNode {
            destination: self.destination.clone(),
            path: self.path.clone(),
            accessible_id: clone_text(&self.accessible_id),
            name: clone_text(&self.name),
            role: self.role,
            children,
        };
        proof {
            lemma_view_children(copy);
            lemma_view_children(*self);
            assert(copy@.children =~= self@.children);
        }
        copy
    }
}

impl TreeNode {
    /// Whether this node itself answers the query.
    pub fn is_answer(&self, by: &By) -> (yes: bool)
        ensures
            yes == answers(self@, by@),
    {
        match by {
            By::Tag(tag) => match &self.accessible_id {
                Some(id) => *id == *tag,
                None => false,
            },
            By::Text(text) => match &self.name {
                Some(name) => *name == *text,
                None => false,
            },
        }
    }

    /// Searches the subtree under this node, this node first, then each
    /// child's subtree in stored order, and returns a copy of the first node
    /// that answers the query.
    pub fn bfs(&self, by: &By) -> (found: Option<TreeNode>)
        ensures
            model_of(found) == search_result(self@, by@),
        decreases self,
    {
        if self.is_answer(by) {
            return Some(self.clone());
        }
        proof {
            lemma_view_children(*self);
        }
        let mut i: usize = 0;
        while i < self.children.len()
            invariant
                i <= self.children.len(),
                self@.children == models(self.children@),
                !answers(self@, by@),
                first_answer(preorder_all(self@.children, i as nat), by@) is None,
            decreases self.children.len() - i,
        {
            let found = self.children[i].bfs(by);
            proof {
                assert(self@.children[i as int] == self.children@[i as int]@);
                assert(preorder_all(self@.children, (i + 1) as nat) == preorder_all(
                    self@.children,
                    i as nat,
                ) + preorder(self@.children[i as int]));
                lemma_first_answer_concat(
                    preorder_all(self@.children, i as nat),
                    preorder(self@.children[i as int]),
                    by@,
                );
            }
            if found.is_some() {
                proof {
                    lemma_first_answer_stays(
                        self@.children,
                        (i + 1) as nat,
                        self@.children.len(),
                        by@,
                    );
                    lemma_search_unfold(self@, by@);
                }
                return found;
            }
            i += 1;
        }
        proof {
            lemma_search_unfold(self@, by@);
        }
        None
    }
}

/// What is needed to reach one remote object again.
#[derive(Debug, PartialEq, Eq)]
pub struct RemoteRef {
    /// The bus name of the process that owns the object.
    pub destination: String,
    /// The object's path within that process.
    pub path: String,
}

impl RemoteRef {
    /// Whether this is the place where `node` lives.
    pub open spec fn leads_to(self, node: NodeModel) -> bool {
        self.destination@ == node.destination && self.path@ == node.path
    }
}

impl TreeNode {
    /// Where the object that this node was taken from lives.
    pub fn remote_ref(&self) -> (place: RemoteRef)
        ensures
            place.leads_to(self@),
    {
        RemoteRef { destination: self.destination.clone(), path: self.path.clone() }
    }

    /// Searches the subtree under this node and says where the first node
    /// that answers the query lives, so that a live handle can be opened on
    /// it again.
    pub fn locate(&self, by: &By) -> (place: Option<RemoteRef>)
        ensures
            place is None <==> search_result(self@, by@) is None,
            place matches Some(p) ==> p.leads_to(search_result(self@, by@).unwrap()),
    {
        match self.bfs(by) {
            Some(node) => Some(node.remote_ref()),
            None => None,
        }
    }
}

} // verus!
