use vstd::prelude::*;
use vstd::std_specs::convert::FromSpecImpl;

verus! {

/// The number of a node of the graph.
#[derive(Copy, Clone, Debug, PartialEq, Eq, PartialOrd, Ord, Hash, Structural)]
pub struct NodeId(pub usize);

/// One socket of one node.
#[derive(Copy, Clone, Debug, PartialEq, Eq, Hash, Structural)]
pub struct SocketPos {
    pub node_id: NodeId,
    pub socket_index: usize,
    pub input: bool,
}

impl From<(NodeId, usize, bool)> for SocketPos {
    /// The socket with the given index of the given node, on its input or its output side.
    fn from(parts: (NodeId, usize, bool)) -> (pos: Self) {
        SocketPos { node_id: parts.0, socket_index: parts.1, input: parts.2 }
    }
}

impl FromSpecImpl<(NodeId, usize, bool)> for SocketPos {
    open spec fn obeys_from_spec() -> bool {
        true
    }

    open spec fn from_spec(parts: (NodeId, usize, bool)) -> Self {
        SocketPos { node_id: parts.0, socket_index: parts.1, input: parts.2 }
    }
}

/// A line from one socket to another.
#[derive(Debug)]
pub struct Connection {
    pub src: SocketPos,
    pub dst: SocketPos,
}

impl Connection {
    /// Whether the line starts or ends at `pos`.
    pub fn has_socket(&self, pos: SocketPos) -> (has: bool)
        ensures
            has == (self.src == pos || self.dst == pos),
    {
        self.src == pos || self.dst == pos
    }
}

/// What the pointer is over in the graph.
#[derive(Copy, Clone, Debug, PartialEq, Eq, PartialOrd, Ord)]
pub enum Hover {
    Nothing,
    Node(NodeId),
    NodeSocket { node: NodeId, socket: usize, input: bool },
}

impl Hover {
    /// Whether the pointer is over the node `node` itself.
    pub fn should_highlight_node(&self, node: NodeId) -> (yes: bool)
        ensures
            yes == (*self == Hover::Node(node)),
    {
        match self {
            Hover::Node(id) => *id == node,
            _ => false,
        }
    }

    /// The socket of `node` that the pointer is over, with its side.
    pub fn get_highlight_socket(&self, node: NodeId) -> (found: Option<(usize, bool)>)
        ensures
            found == match *self {
                Hover::NodeSocket { node: id, socket, input } if id == node => Some(
                    (socket, input),
                ),
                _ => None::<(usize, bool)>,
            },
    {
        match self {
            Hover::NodeSocket { node: id, socket, input } => if *id == node {
                Some((*socket, *input))
            } else {
                None
            },
            _ => None,
        }
    }
}

} // verus!
