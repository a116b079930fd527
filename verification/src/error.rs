use vstd::prelude::*;

verus! {

/// Everything that can go wrong while building, compiling or running a graph.
///
/// `E` is the payload a task reports when it fails; `P` is the payload
/// recovered from a task that terminated abnormally. Both are opaque to this
/// library and are carried through unchanged. Graph construction and
/// compilation never produce the two runtime variants, so those operations
/// use `Error<(), ()>`.
#[derive(Debug)]
pub enum Error<E, P> {
    /// An empty node name was supplied.
    InvalidNode { name: String },
    /// The node name is already registered.
    DuplicatedNode { name: String },
    /// An edge references a name that is not registered.
    NodeNotFound { name: String },
    /// An edge endpoint is empty, or the edge is a self-loop.
    InvalidEdge { from_node: String, to_node: String },
    /// The edge already exists.
    DuplicatedEdge { from_node: String, to_node: String },
    /// Compilation found a cycle; `ring` lists, bracketed and comma-joined in
    /// insertion order, every node whose remaining in-degree never reached
    /// zero.
    CyclicGraphFound { ring: String },
    /// A task reported a failure.
    RuntimeFailed { node: String, err: E },
    /// A task terminated abnormally.
    RuntimePanicked { node: String, err: P },
}

impl<E, P> Error<E, P> {
    /// The human-readable description of the error.
    ///
    /// The payloads of the two runtime variants are opaque here, so their
    /// text, when the caller could extract one, is handed in as `payload`: a
    /// reported failure appends it after `failed: `, an abnormal termination
    /// appends it after `panic: ` or falls back to `panic occurred` when no
    /// text was recovered. The other variants ignore `payload`.
    pub fn message(&self, payload: Option<&str>) -> (r: String)
        ensures
            match self {
                Error::InvalidNode { name } => r@ == "invalid node: "@ + name@,
                Error::DuplicatedNode { name } => r@ == "duplicated node: "@ + name@,
                Error::NodeNotFound { name } => r@ == "node not found: "@ + name@,
                Error::InvalidEdge { from_node, to_node } => r@ == "invalid edge: "@ + from_node@
                    + " -> "@ + to_node@,
                Error::DuplicatedEdge { from_node, to_node } => r@ == "duplicated edge: "@
                    + from_node@ + " -> "@ + to_node@,
                Error::CyclicGraphFound { ring } => r@ == "found ring in graph: "@ + ring@,
                Error::RuntimeFailed { node, .. } => match payload {
                    Some(text) => r@ == "run "@ + node@ + " failed: "@ + text@,
                    None => r@ == "run "@ + node@ + " failed"@,
                },
                Error::RuntimePanicked { node, .. } => match payload {
                    Some(text) => r@ == "run "@ + node@ + " panic: "@ + text@,
                    None => r@ == "run "@ + node@ + " panic occurred"@,
                },
            },
    {
        match self {
            Error::InvalidNode { name } => {
                let mut s = String::from_str("invalid node: ");
                s.append(name.as_str());
                s
            },
            Error::DuplicatedNode { name } => {
                let mut s = String::from_str("duplicated node: ");
                s.append(name.as_str());
                s
            },
            Error::NodeNotFound { name } => {
                let mut s = String::from_str("node not found: ");
                s.append(name.as_str());
                s
            },
            Error::InvalidEdge { from_node, to_node } => {
                let mut s = String::from_str("invalid edge: ");
                s.append(from_node.as_str());
                s.append(" -> ");
                s.append(to_node.as_str());
                s
            },
            Error::DuplicatedEdge { from_node, to_node } => {
                let mut s = String::from_str("duplicated edge: ");
                s.append(from_node.as_str());
                s.append(" -> ");
                s.append(to_node.as_str());
                s
            },
            Error::CyclicGraphFound { ring } => {
                let mut s = String::from_str("found ring in graph: ");
                s.append(ring.as_str());
                s
            },
            Error::RuntimeFailed { node, .. } => {
                let mut s = String::from_str("run ");
                s.append(node.as_str());
                match payload {
                    Some(text) => {
                        s.append(" failed: ");
                        s.append(text);
                    },
                    None => {
                        s.append(" failed");
                    },
                }
                s
            },
            Error::RuntimePanicked { node, .. } => {
                let mut s = String::from_str("run ");
                s.append(node.as_str());
                match payload {
                    Some(text) => {
                        s.append(" panic: ");
                        s.append(text);
                    },
                    None => {
                        s.append(" panic occurred");
                    },
                }
                s
            },
        }
    }
}

} // verus!
