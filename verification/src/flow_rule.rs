//! The flow rule: which direct moves between the eight nodes are permitted.
//!
//! A node may always stay where it is. Five edges are whitelisted whatever
//! their parity. Every other edge is permitted exactly when both ends have the
//! same parity; an edge from an even node to an odd one is the forbidden
//! bypass of the virtual centre.

use vstd::prelude::*;

verus! {

/// One of the eight nodes.
#[derive(Debug, Clone, Copy, PartialEq, Eq, Hash, Structural)]
pub enum Node {
    S0,
    S1,
    S2,
    S3,
    S4,
    S5,
    S6,
    S7,
}

/// Why a pair of raw node indices names no edge.
#[derive(Debug, Clone, Copy, PartialEq, Eq, Structural)]
pub enum EdgeError {
    /// The source index is above 7.
    BadSource,
    /// The source index is a node and the destination index is above 7.
    BadDestination,
}

/// The index of a node, 0 to 7.
pub open spec fn spec_index(n: Node) -> u8 {
    match n {
        Node::S0 => 0,
        Node::S1 => 1,
        Node::S2 => 2,
        Node::S3 => 3,
        Node::S4 => 4,
        Node::S5 => 5,
        Node::S6 => 6,
        Node::S7 => 7,
    }
}

/// The node with index `n`, or `None` for an index above 7.
pub open spec fn spec_node_from_u8(n: u8) -> Option<Node> {
    if n == 0 {
        Some(Node::S0)
    } else if n == 1 {
        Some(Node::S1)
    } else if n == 2 {
        Some(Node::S2)
    } else if n == 3 {
        Some(Node::S3)
    } else if n == 4 {
        Some(Node::S4)
    } else if n == 5 {
        Some(Node::S5)
    } else if n == 6 {
        Some(Node::S6)
    } else if n == 7 {
        Some(Node::S7)
    } else {
        None
    }
}

/// Whether a node's index is even.
pub open spec fn spec_is_even(n: Node) -> bool {
    spec_index(n) % 2 == 0
}

/// The five whitelisted edges: work (`S1→S2`, `S5→S6`), heat dump
/// (`S3→S0`, `S7→S4`) and electric dissipation (`S1→S0`).
pub open spec fn spec_allowed_direct(src: Node, dst: Node) -> bool {
    ||| (src == Node::S1 && dst == Node::S2)
    ||| (src == Node::S5 && dst == Node::S6)
    ||| (src == Node::S3 && dst == Node::S0)
    ||| (src == Node::S7 && dst == Node::S4)
    ||| (src == Node::S1 && dst == Node::S0)
}

/// An edge from an even node to an odd node that is not whitelisted.
pub open spec fn spec_forbidden_bypass(src: Node, dst: Node) -> bool {
    spec_is_even(src) && !spec_is_even(dst) && !spec_allowed_direct(src, dst)
}

/// The flow rule, in order of precedence: staying is allowed; a whitelisted
/// edge is allowed; any other edge is allowed exactly when source and
/// destination have the same parity.
pub open spec fn spec_transition_allowed(src: Node, dst: Node) -> bool {
    if src == dst {
        true
    } else if spec_allowed_direct(src, dst) {
        true
    } else {
        spec_is_even(src) == spec_is_even(dst)
    }
}

impl Node {
    /// The index of the node, 0 to 7.
    pub fn index(&self) -> (i: u8)
        ensures
            i == spec_index(*self),
            i <= 7,
            spec_node_from_u8(i) == Some(*self),
    {
        match self {
            Node::S0 => 0,
            Node::S1 => 1,
            Node::S2 => 2,
            Node::S3 => 3,
            Node::S4 => 4,
            Node::S5 => 5,
            Node::S6 => 6,
            Node::S7 => 7,
        }
    }

    /// Whether the node's index is even.
    pub fn is_even(&self) -> (even: bool)
        ensures
            even == spec_is_even(*self),
    {
        self.index() % 2 == 0
    }
}

/// The node with index `n`; `None` exactly when `n` is above 7.
pub fn node_from_u8(n: u8) -> (node: Option<Node>)
    ensures
        node == spec_node_from_u8(n),
        node is Some <==> n <= 7,
        node matches Some(s) ==> spec_index(s) == n,
{
    match n {
        0 => Some(Node::S0),
        1 => Some(Node::S1),
        2 => Some(Node::S2),
        3 => Some(Node::S3),
        4 => Some(Node::S4),
        5 => Some(Node::S5),
        6 => Some(Node::S6),
        7 => Some(Node::S7),
        _ => None,
    }
}

/// Whether the edge is one of the five whitelisted ones.
pub fn allowed_direct(src: Node, dst: Node) -> (allowed: bool)
    ensures
        allowed == spec_allowed_direct(src, dst),
{
    match (src, dst) {
        (Node::S1, Node::S2) => true,
        (Node::S5, Node::S6) => true,
        (Node::S3, Node::S0) => true,
        (Node::S7, Node::S4) => true,
        (Node::S1, Node::S0) => true,
        _ => false,
    }
}

/// Whether the edge runs from an even node to an odd node without being
/// whitelisted.
pub fn forbidden_bypass(src: Node, dst: Node) -> (forbidden: bool)
    ensures
        forbidden == spec_forbidden_bypass(src, dst),
{
    src.is_even() && !dst.is_even() && !allowed_direct(src, dst)
}

/// Decides whether the direct move from `src` to `dst` is permitted.
pub fn transition_allowed(src: Node, dst: Node) -> (allowed: bool)
    ensures
        allowed == spec_transition_allowed(src, dst),
{
    if src == dst {
        return true;
    }
    if forbidden_bypass(src, dst) {
        return false;
    }
    allowed_direct(src, dst) || src.is_even() == dst.is_even()
}

/// Decides each edge of `edges` in turn.
pub fn batch_allowed(edges: &[(Node, Node)]) -> (allowed: Vec<bool>)
    ensures
        allowed@.len() == edges@.len(),
        forall|i: int|
            0 <= i < edges@.len() ==> allowed@[i] == spec_transition_allowed(
                edges@[i].0,
                edges@[i].1,
            ),
{
    let mut allowed: Vec<bool> = Vec::with_capacity(edges.len());
    let mut i: usize = 0;
    while i < edges.len()
        invariant
            i <= edges@.len(),
            allowed@.len() == i,
            forall|j: int|
                0 <= j < i ==> allowed@[j] == spec_transition_allowed(edges@[j].0, edges@[j].1),
        decreases edges@.len() - i,
    {
        let (src, dst) = edges[i];
        allowed.push(transition_allowed(src, dst));
        i += 1;
    }
    allowed
}

/// The verdict on an edge given by raw indices: an error for an index that is
/// no node, the source being looked at first; else the flow rule's answer.
pub open spec fn spec_transition_allowed_u8(src: u8, dst: u8) -> Result<bool, EdgeError> {
    match (spec_node_from_u8(src), spec_node_from_u8(dst)) {
        (None, _) => Err(EdgeError::BadSource),
        (Some(_), None) => Err(EdgeError::BadDestination),
        (Some(s), Some(d)) => Ok(spec_transition_allowed(s, d)),
    }
}

/// Decides an edge given by raw node indices.
pub fn transition_allowed_u8(src: u8, dst: u8) -> (verdict: Result<bool, EdgeError>)
    ensures
        verdict == spec_transition_allowed_u8(src, dst),
        verdict is Ok <==> src <= 7 && dst <= 7,
{
    let s = match node_from_u8(src) {
        Some(s) => s,
        None => {
            return Err(EdgeError::BadSource);
        },
    };
    let d = match node_from_u8(dst) {
        Some(d) => d,
        None => {
            return Err(EdgeError::BadDestination);
        },
    };
    Ok(transition_allowed(s, d))
}

/// The first index at which `edges` holds a pair that names no edge, or the
/// length of `edges` when every pair names one.
pub open spec fn first_bad_edge(edges: Seq<(u8, u8)>) -> int
    decreases edges.len(),
{
    if edges.len() == 0 {
        0
    } else if spec_transition_allowed_u8(edges[0].0, edges[0].1) is Err {
        0
    } else {
        1 + first_bad_edge(edges.drop_first())
    }
}

/// Decides each edge of `edges`, given by raw indices, in turn. The first
/// pair that names no edge fails the whole call with that pair's error.
pub fn batch_allowed_u8(edges: &[(u8, u8)]) -> (verdict: Result<Vec<bool>, EdgeError>)
    ensures
        match verdict {
            Ok(allowed) => {
                &&& first_bad_edge(edges@) == edges@.len()
                &&& allowed@.len() == edges@.len()
                &&& forall|i: int|
                    0 <= i < edges@.len() ==> spec_transition_allowed_u8(edges@[i].0, edges@[i].1)
                        == Ok::<bool, EdgeError>(allowed@[i])
            },
            Err(e) => {
                &&& first_bad_edge(edges@) < edges@.len()
                &&& spec_transition_allowed_u8(
                    edges@[first_bad_edge(edges@)].0,
                    edges@[first_bad_edge(edges@)].1,
                ) == Err::<bool, EdgeError>(e)
            },
        },
{
    let mut allowed: Vec<bool> = Vec::with_capacity(edges.len());
    let mut i: usize = 0;
    proof {
        assert(edges@.skip(0) =~= edges@);
    }
    while i < edges.len()
        invariant
            i <= edges@.len(),
            allowed@.len() == i,
            first_bad_edge(edges@) == i + first_bad_edge(edges@.skip(i as int)),
            forall|j: int|
                0 <= j < i ==> spec_transition_allowed_u8(edges@[j].0, edges@[j].1) == Ok::<
                    bool,
                    EdgeError,
                >(allowed@[j]),
        decreases edges@.len() - i,
    {
        let (src, dst) = edges[i];
        proof {
            let rest = edges@.skip(i as int);
            assert(rest[0] == edges@[i as int]);
            assert(rest.drop_first() =~= edges@.skip(i + 1));
        }
        match transition_allowed_u8(src, dst) {
            Ok(a) => {
                allowed.push(a);
            },
            Err(e) => {
                return Err(e);
            },
        }
        i += 1;
    }
    proof {
        assert(edges@.skip(i as int).len() == 0);
    }
    Ok(allowed)
}

/// Staying at a node is always permitted.
pub proof fn lemma_persistence(n: Node)
    ensures
        spec_transition_allowed(n, n),
{
}

/// Every whitelisted edge is permitted, and an edge from an even node to an
/// odd node is never permitted: no whitelisted edge starts at an even node.
pub proof fn lemma_parity(src: Node, dst: Node)
    ensures
        spec_allowed_direct(src, dst) ==> spec_transition_allowed(src, dst),
        spec_is_even(src) && !spec_is_even(dst) && !spec_allowed_direct(src, dst)
            ==> !spec_transition_allowed(src, dst),
        spec_allowed_direct(src, dst) ==> !spec_is_even(src),
        spec_forbidden_bypass(src, dst) <==> spec_is_even(src) && !spec_is_even(dst),
        spec_forbidden_bypass(src, dst) ==> !spec_transition_allowed(src, dst),
{
}

/// An edge between two different nodes is permitted exactly when it is
/// whitelisted or joins nodes of the same parity.
pub proof fn lemma_transition_classes(src: Node, dst: Node)
    requires
        src != dst,
    ensures
        spec_transition_allowed(src, dst) <==> spec_allowed_direct(src, dst) || spec_is_even(src)
            == spec_is_even(dst),
{
}

} // verus!
