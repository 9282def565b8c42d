//! The vocabulary that every accessibility backend shares.

use vstd::prelude::*;

verus! {

/// Inheritors of this trait are capable of testing by accessibility interfaces.
pub trait TestByA11y: Sized {
    /// The data type needed for initialisation of a connection to this interface.
    type Init;

    /// The error type this interface returns for its processes.
    type Error;

    /// The type that contains a node for this interface.
    type Node;

    /// Create a new connection to this accessibility interface for a program.
    fn connect(init: Self::Init) -> Result<Self, Self::Error>;

    /// Find a node by the specified query.
    fn find(&mut self, by: By) -> Result<Option<Self::Node>, Self::Error>;

    /// Interact with a node.
    fn interact(&mut self, node: &Self::Node, interaction: Interaction) -> Result<(), Self::Error>;

    /// Get the text from a node.
    fn get_text(&mut self, node: &Self::Node) -> Result<String, Self::Error>;
}

/// Ways we can find nodes.
#[derive(Debug, PartialEq, Eq)]
pub enum By {
    /// By a tag that is machine-visible: the accessible id of the node.
    Tag(String),
    /// By the human readable text of the node, which must equal it exactly.
    Text(String),
}

/// What a [`By`] asks for, as a mathematical value.
pub enum Query {
    /// A node whose accessible id is this text.
    Tag(Seq<char>),
    /// A node whose name is this text.
    Text(Seq<char>),
}

impl View for By {
    type V = Query;

    open spec fn view(&self) -> Query {
        match self {
            By::Tag(tag) => Query::Tag(tag@),
            By::Text(text) => Query::Text(text@),
        }
    }
}

impl Clone for By {
    fn clone(&self) -> (copy: By)
        ensures
            copy@ == self@,
    {
        match self {
            By::Tag(tag) => By::Tag(tag.clone()),
            By::Text(text) => By::Text(text.clone()),
        }
    }
}

/// Ways we can interact with nodes.
#[derive(Copy, Clone, Debug, PartialEq, Eq, Structural)]
pub enum Interaction {
    /// Click on the node.
    Click,
}

} // verus!
