//! The emitted method as a value.
//!
//! The method is a `match` on the next byte. Each of its arms takes one byte
//! and goes on with a `match` of its own, one byte further into the token.
//! Every `match` but the first has an arm for the byte that ends a token.
//! Its text is what `emit` prints for this value, and its outcome on an input
//! is what `matcher` states of this value.

use crate::trie::ParseBranch;
use vstd::prelude::*;

verus! {

/// What the arm for the byte that ends a token returns.
#[derive(Debug)]
pub enum Ending {
    /// The value of the literal that ends here.
    Value(String),
    /// The unknown outcome of the bytes read so far.
    Unknown,
}

/// The arms of a `match` that take a byte, in the order in which they are
/// tried.
#[derive(Debug)]
pub enum Arms {
    /// No further arm.
    Done,
    /// The arm that takes `byte` and goes on with the `match` in `then`, and
    /// behind it the `rest` of the arms.
    Arm { byte: u8, then: Box<Switch>, rest: Box<Arms> },
}

/// One `match` on the next byte: the arms that take a byte, and what the arm
/// for the ending byte returns, where the `match` has one. Behind them every
/// `match` has the arm that enters the collecting loop and the arm for no
/// match.
#[derive(Debug)]
pub struct Switch {
    pub arms: Arms,
    pub on_end: Option<Ending>,
}

/// What the arm for the ending byte returns at a node with `result`.
pub open spec fn ending_of(result: Option<String>) -> Ending {
    match result {
        Some(value) => Ending::Value(value),
        None => Ending::Unknown,
    }
}

/// The arms for `nodes` from the match byte at `k` of the node at `i` on:
/// one arm for each match byte of each node, in their order.
pub open spec fn arms_from(nodes: Seq<ParseBranch>, i: int, k: int) -> Arms
    decreases nodes, nodes.len() - i, (if 0 <= i < nodes.len() {
        nodes[i].matches@.len() - k
    } else {
        0
    }),
{
    if i < 0 || i >= nodes.len() {
        Arms::Done
    } else if k < 0 || k >= nodes[i].matches@.len() {
        arms_from(nodes, i + 1, 0)
    } else {
        Arms::Arm {
            byte: nodes[i].matches@[k],
            then: Box::new(switch_of(nodes[i])),
            rest: Box::new(arms_from(nodes, i, k + 1)),
        }
    }
}

/// The `match` that an arm for `node` goes on with.
pub open spec fn switch_of(node: ParseBranch) -> Switch
    decreases node, 0int, 0int,
{
    Switch { arms: arms_from(node.children@, 0, 0), on_end: Some(ending_of(node.result)) }
}

/// The method for the tree with the nodes `branches` at its top.
pub open spec fn method_of(branches: Seq<ParseBranch>) -> Switch {
    Switch { arms: arms_from(branches, 0, 0), on_end: None }
}

fn build_arms(nodes: &[ParseBranch], i: usize, k: usize) -> (arms: Arms)
    requires
        i <= nodes@.len(),
    ensures
        arms == arms_from(nodes@, i as int, k as int),
    decreases nodes@, nodes@.len() - i, (if i < nodes@.len() {
        nodes@[i as int].matches@.len() - k
    } else {
        0
    }),
{
    if i >= nodes.len() {
        return Arms::Done;
    }
    let node = &nodes[i];
    if k >= node.matches.len() {
        return build_arms(nodes, i + 1, 0);
    }
    let then = build_switch(node);
    let rest = build_arms(nodes, i, k + 1);
    Arms::Arm { byte: node.matches[k], then: Box::new(then), rest: Box::new(rest) }
}

fn build_switch(node: &ParseBranch) -> (switch: Switch)
    ensures
        switch == switch_of(*node),
    decreases node, 0int, 0int,
{
    let on_end = match &node.result {
        Some(value) => Ending::Value(value.clone()),
        None => Ending::Unknown,
    };
    Switch { arms: build_arms(node.children.as_slice(), 0, 0), on_end: Some(on_end) }
}

/// The method for the tree with the nodes `branches` at its top.
pub fn build_method(branches: &[ParseBranch]) -> (method: Switch)
    ensures
        method == method_of(branches@),
{
    Switch { arms: build_arms(branches, 0, 0), on_end: None }
}

} // verus!
