//! Locating fields inside the Merkle tree of a serialized value.
//!
//! Every serializable shape reports the height of its binary tree and
//! resolves a path of selectors to a node descriptor: its generalized index,
//! its byte span inside a chunk, and whether it is a packed leaf, the root of
//! a nested subtree or the length field of a list.
//!
//! On top of that, `partial` computes which chunks an inclusion proof for
//! some leaves must carry, builds such a proof from a tree's chunks and checks
//! one against an expected root; `ser` writes a proof as bytes and reads it
//! back.
use vstd::prelude::*;

pub mod lemmas;
pub mod merkle_tree_overlay;
pub mod node;
pub mod partial;
pub mod ser;
pub mod tree_arithmetic;

verus! {

/// Generalized index of a node in a merkle tree: the root is 0 and the
/// children of `i` are `2i + 1` and `2i + 2`.
pub type NodeIndex = u64;

/// Number of bytes in one chunk of the tree.
pub const BYTES_PER_CHUNK: u64 = 32;

/// A number fixed by its type.
pub trait Number {
    /// The number.
    spec fn spec_val() -> nat;

    fn val() -> (r: usize)
        ensures
            r as nat == Self::spec_val(),
    ;
}

/// The number two.
#[derive(Clone)]
pub struct U2;

/// The number three.
#[derive(Clone)]
pub struct U3;

/// The number four.
#[derive(Clone)]
pub struct U4;

/// The number five.
#[derive(Clone)]
pub struct U5;

impl Number for U2 {
    open spec fn spec_val() -> nat {
        2
    }

    fn val() -> usize {
        2
    }
}

impl Number for U3 {
    open spec fn spec_val() -> nat {
        3
    }

    fn val() -> usize {
        3
    }
}

impl Number for U4 {
    open spec fn spec_val() -> nat {
        4
    }

    fn val() -> usize {
        4
    }
}

impl Number for U5 {
    open spec fn spec_val() -> nat {
        5
    }

    fn val() -> usize {
        5
    }
}

} // verus!
