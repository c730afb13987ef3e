//! Identity keys for the linkage graph: a node is a kind (which identifying
//! attribute) together with an already-canonicalized string value. Nodes are
//! immutable value objects; equality is structural over kind and value.

use vstd::prelude::*;

verus! {

/// The fixed enumeration of identifying attributes a node can stand for.
#[derive(Clone, Copy, PartialEq, Eq, Structural, Debug)]
pub enum NodeKind {
    AccountNumber,
    Domain,
    Abn,
    GroupId,
}

/// The mathematical value of a node: its kind with its value's characters.
pub type NodeV = (NodeKind, Seq<char>);

/// An immutable identity key: kind plus canonicalized value.
#[derive(Debug)]
pub struct Node {
    pub kind: NodeKind,
    pub value: String,
}

impl View for Node {
    type V = (NodeKind, Seq<char>);

    open spec fn view(&self) -> (NodeKind, Seq<char>) {
        (self.kind, self.value@)
    }
}

impl Clone for Node {
    fn clone(&self) -> (r: Self)
        ensures
            r@ == self@,
    {
        Node { kind: self.kind, value: self.value.clone() }
    }
}

impl PartialEq for Node {
    fn eq(&self, other: &Self) -> (r: bool) {
        self.kind == other.kind && self.value == other.value
    }
}

impl vstd::std_specs::cmp::PartialEqSpecImpl for Node {
    open spec fn obeys_eq_spec() -> bool {
        true
    }

    open spec fn eq_spec(&self, other: &Node) -> bool {
        self@ == other@
    }
}

/// Compares two string slices character by character.
pub fn str_eq(a: &str, b: &str) -> (r: bool)
    ensures
        r == (a@ == b@),
{
    let a_len = a.unicode_len();
    let b_len = b.unicode_len();
    if a_len != b_len {
        return false;
    }
    let mut i: usize = 0;
    while i < a_len
        invariant
            0 <= i <= a_len,
            a_len == a@.len(),
            a_len == b@.len(),
            forall|j: int| 0 <= j < i ==> a@[j] == b@[j],
        decreases a_len - i,
    {
        if a.get_char(i) != b.get_char(i) {
            return false;
        }
        i += 1;
    }
    proof {
        assert(a@ =~= b@);
    }
    true
}

/// The kind a tag string names, if any.
pub open spec fn kind_of_tag(t: Seq<char>) -> Option<NodeKind> {
    if t == "account_number"@ {
        Some(NodeKind::AccountNumber)
    } else if t == "domain"@ {
        Some(NodeKind::Domain)
    } else if t == "abn"@ {
        Some(NodeKind::Abn)
    } else if t == "group_id"@ {
        Some(NodeKind::GroupId)
    } else {
        None
    }
}

/// The error a node constructor reports for a tag outside the fixed
/// enumeration of kinds.
#[derive(Clone, Copy, PartialEq, Eq, Structural, Debug)]
pub enum NodeError {
    UnknownKind,
}

impl Node {
    /// Builds a node from a kind tag and a value; an unrecognized tag is a
    /// hard construction error.
    pub fn new(kind: &str, value: String) -> (r: Result<Node, NodeError>)
        ensures
            match kind_of_tag(kind@) {
                Some(k) => r matches Ok(n) && n@ == (k, value@),
                None => r == Err::<Node, NodeError>(NodeError::UnknownKind),
            },
    {
        if str_eq(kind, "account_number") {
            Ok(Node { kind: NodeKind::AccountNumber, value })
        } else if str_eq(kind, "domain") {
            Ok(Node { kind: NodeKind::Domain, value })
        } else if str_eq(kind, "abn") {
            Ok(Node { kind: NodeKind::Abn, value })
        } else if str_eq(kind, "group_id") {
            Ok(Node { kind: NodeKind::GroupId, value })
        } else {
            Err(NodeError::UnknownKind)
        }
    }

    /// The node's canonicalized value.
    pub fn value(&self) -> (r: &str)
        ensures
            r@ == self.value@,
    {
        self.value.as_str()
    }
}

} // verus!
