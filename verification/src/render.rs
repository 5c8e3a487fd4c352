//! The diagnostic printer: renders the tree structure as ASCII text, one
//! node per line, right subtree above and left subtree below its parent,
//! with the depth as indentation and the color spelled out.  The rendering
//! is for inspection only and carries no correctness obligations beyond
//! producing some output for every node.

use vstd::prelude::*;

use crate::node::{Color, TreeNode};
use crate::rbtree::RBTree;

verus! {

broadcast use vstd::set::group_set_axioms, vstd::seq::group_seq_axioms;

/// Append all bytes of `bytes` to `out`.
fn push_all(out: &mut Vec<u8>, bytes: &Vec<u8>)
    ensures
        final(out)@ == old(out)@ + bytes@,
{
    let mut i: usize = 0;
    while i < bytes.len()
        invariant
            i <= bytes@.len(),
            out@ == old(out)@ + bytes@.subrange(0, i as int),
        decreases bytes@.len() - i,
    {
        out.push(bytes[i]);
        i = i + 1;
        proof {
            assert(out@ =~= old(out)@ + bytes@.subrange(0, i as int));
        }
    }
    proof {
        assert(bytes@.subrange(0, bytes@.len() as int) =~= bytes@);
    }
}

/// Append the decimal digits of `x` to `out`.
fn push_u32(out: &mut Vec<u8>, x: u32)
    ensures
        final(out)@.len() > old(out)@.len(),
{
    if x == 0 {
        // the digit 0
        out.push(48u8);
        return;
    }
    let mut v: u32 = x;
    let mut digits: Vec<u8> = Vec::new();
    while v > 0
        invariant
            v == 0 ==> digits@.len() > 0,
        decreases v,
    {
        let d: u8 = (v % 10) as u8;
        // the digits 0 through 9 are the bytes 48 through 57
        digits.push(48u8 + d);
        v = v / 10;
    }
    let mut i: usize = digits.len();
    while i > 0
        invariant
            i <= digits@.len(),
            digits@.len() > 0 ==> out@.len() + i >= old(out)@.len() + digits@.len(),
        decreases i,
    {
        i = i - 1;
        out.push(digits[i]);
    }
}

/// Render one subtree: right child block, then this node's line, then the
/// left child block, indented by `depth`.
fn render_node(n: &TreeNode, depth: usize, out: &mut Vec<u8>)
    ensures
        final(out)@.len() > old(out)@.len(),
    decreases *n,
{
    let deeper: usize = if depth < usize::MAX {
        depth + 1
    } else {
        depth
    };
    match &n.right {
        Some(rc) => render_node(rc, deeper, out),
        None => {
        },
    }
    let mut j: usize = 0;
    while j < depth
        invariant
            out@.len() >= old(out)@.len(),
        decreases depth - j,
    {
        // four spaces per level
        push_all(out, &vec![32u8, 32u8, 32u8, 32u8]);
        j = j + 1;
    }
    // the marker "+-- "
    push_all(out, &vec![43u8, 45u8, 45u8, 32u8]);
    push_u32(out, n.key);
    if n.color == Color::Red {
        // the label " (Red)" and a newline
        push_all(out, &vec![32u8, 40u8, 82u8, 101u8, 100u8, 41u8, 10u8]);
    } else {
        // the label " (Black)" and a newline
        push_all(out, &vec![32u8, 40u8, 66u8, 108u8, 97u8, 99u8, 107u8, 41u8, 10u8]);
    }
    match &n.left {
        Some(lc) => render_node(lc, deeper, out),
        None => {
        },
    }
}

impl TreeNode {
    /// Render this subtree as ASCII bytes for inspection.
    pub fn print_tree(&self) -> (out: Vec<u8>)
        ensures
            out@.len() > 0,
    {
        let mut out: Vec<u8> = Vec::new();
        render_node(self, 0, &mut out);
        out
    }
}

impl RBTree {
    /// Render the whole tree as ASCII bytes; empty output for an empty
    /// tree.
    pub fn tree_pretty_print(&self) -> (out: Vec<u8>)
        ensures
            self.root is Some ==> out@.len() > 0,
            self.root is None ==> out@.len() == 0,
    {
        match &self.root {
            Some(n) => n.print_tree(),
            None => Vec::new(),
        }
    }
}

} // verus!
