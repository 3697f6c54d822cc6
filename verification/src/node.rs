//! Pointer-linked tree nodes: each node carries a hex-string digest and
//! optional shared references to two children.

use std::rc::Rc;
use vstd::prelude::*;

use crate::hashing::{calculate_hash_hex, keccak256_hex};

verus! {

use vstd::string::StringExecFns;

/// A node of a pointer-linked hash tree: a digest string and optional
/// shared children.
pub struct Node {
    left_child: Option<Rc<Node>>,
    right_child: Option<Rc<Node>>,
    hash: String,
}

/// Relies on `std::rc::Rc::clone`: the returned handle shares the same
/// allocation, so it carries the same node value.
#[verifier::external_body]
fn rc_clone_node(node: &Rc<Node>) -> (cloned: Rc<Node>)
    ensures
        cloned == *node,
{
    Rc::clone(node)
}

impl Node {
    /// The node's digest string.
    pub closed spec fn spec_hash(&self) -> Seq<char> {
        self.hash@
    }

    /// The node's left child.
    pub closed spec fn spec_left_child(&self) -> Option<Rc<Node>> {
        self.left_child
    }

    /// The node's right child.
    pub closed spec fn spec_right_child(&self) -> Option<Rc<Node>> {
        self.right_child
    }

    /// A leaf node: a given digest string and no children.
    pub fn new_with_hash(hash: String) -> (node: Self)
        ensures
            node.spec_hash() == hash@,
            node.spec_left_child() is None,
            node.spec_right_child() is None,
    {
        Self { left_child: None, right_child: None, hash }
    }

    /// A parent node over two children: its digest string is the hex digest
    /// of the children's digest strings concatenated, left first.
    pub fn new_parent(left_child: Rc<Node>, right_child: Rc<Node>) -> (node: Self)
        ensures
            node.spec_hash() == keccak256_hex(
                vstd::utf8::encode_utf8(left_child.spec_hash() + right_child.spec_hash()),
            ),
            node.spec_left_child() == Some(left_child),
            node.spec_right_child() == Some(right_child),
    {
        let combined = left_child.get_hash().concat(right_child.get_hash().as_str());
        let hash = calculate_hash_hex(combined.as_str().as_bytes());
        Self { left_child: Some(left_child), right_child: Some(right_child), hash }
    }

    /// A shared handle to the left child, when there is one.
    pub fn get_left_child(&self) -> (child: Option<Rc<Node>>)
        ensures
            child == self.spec_left_child(),
    {
        if let Some(child) = &self.left_child {
            return Some(rc_clone_node(child));
        }
        None
    }

    /// A shared handle to the right child, when there is one.
    pub fn get_right_child(&self) -> (child: Option<Rc<Node>>)
        ensures
            child == self.spec_right_child(),
    {
        if let Some(child) = &self.right_child {
            return Some(rc_clone_node(child));
        }
        None
    }

    /// A copy of the node's digest string.
    pub fn get_hash(&self) -> (hash: String)
        ensures
            hash@ == self.spec_hash(),
    {
        self.hash.clone()
    }
}

} // verus!
