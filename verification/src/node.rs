//! The in-memory model of a directory snapshot.

use vstd::prelude::*;
use crate::order::{lex_le, lemma_lex_le_total, lemma_lex_le_trans, str_lex_le};

verus! {

/// What one entry of a snapshot is.
pub enum NodeKind {
    /// A plain file (or anything that is not a directory).
    File,
    /// A directory together with its children, in the order the filesystem
    /// handed them out (no order is assumed).
    Dir(Vec<Node>),
    /// A directory whose contents could not be listed; carries the
    /// description of the underlying failure.
    Unreadable(String),
}

/// One entry of a directory snapshot: its name (the final path component)
/// and what it is.
pub struct Node {
    pub name: String,
    pub kind: NodeKind,
}

/// A node stands for a directory unless it is a plain file. An unreadable
/// directory is still a directory: it is listed and printed as one, and the
/// failure surfaces only when its contents are needed.
pub open spec fn node_is_dir(n: Node) -> bool {
    !(n.kind is File)
}

/// Executable form of [`node_is_dir`].
pub fn is_dir_node(n: &Node) -> (r: bool)
    ensures
        r == node_is_dir(*n),
{
    match &n.kind {
        NodeKind::File => false,
        NodeKind::Dir(_) => true,
        NodeKind::Unreadable(_) => true,
    }
}

/// A hidden name starts with a dot.
pub open spec fn hidden_name(name: Seq<char>) -> bool {
    name.len() > 0 && name[0] == '.'
}

/// Whether an entry survives the hidden-name filter.
pub open spec fn kept(n: Node, ignore_hidden: bool) -> bool {
    !(ignore_hidden && hidden_name(n.name@))
}

/// Executable form of [`kept`].
pub fn is_kept(n: &Node, ignore_hidden: bool) -> (r: bool)
    ensures
        r == kept(*n, ignore_hidden),
{
    if !ignore_hidden {
        true
    } else if n.name.as_str().is_empty() {
        true
    } else {
        let c = n.name.as_str().get_char(0);
        c != '.'
    }
}

/// The listing order: directories come before files; within each group,
/// names ascend in codepoint-wise lexicographic order.
pub open spec fn node_le(a: Node, b: Node) -> bool {
    if node_is_dir(a) != node_is_dir(b) {
        node_is_dir(a)
    } else {
        lex_le(a.name@, b.name@)
    }
}

/// Executable form of [`node_le`].
pub fn node_le_exec(a: &Node, b: &Node) -> (r: bool)
    ensures
        r == node_le(*a, *b),
{
    let a_dir = is_dir_node(a);
    let b_dir = is_dir_node(b);
    if a_dir != b_dir {
        a_dir
    } else {
        str_lex_le(a.name.as_str(), b.name.as_str())
    }
}

/// The listing order is total.
pub proof fn lemma_node_le_total(a: Node, b: Node)
    ensures
        node_le(a, b) || node_le(b, a),
{
    if node_is_dir(a) == node_is_dir(b) {
        lemma_lex_le_total(a.name@, b.name@);
    }
}

/// The listing order is transitive.
pub proof fn lemma_node_le_trans(a: Node, b: Node, c: Node)
    requires
        node_le(a, b),
        node_le(b, c),
    ensures
        node_le(a, c),
{
    if node_is_dir(a) == node_is_dir(b) && node_is_dir(b) == node_is_dir(c) {
        lemma_lex_le_trans(a.name@, b.name@, c.name@);
    }
}

/// The number of nodes in a subtree, the entry itself included. Children of
/// an unreadable directory are unknown, so it counts as one node.
pub open spec fn node_size(n: Node) -> nat
    decreases n,
{
    match n.kind {
        NodeKind::Dir(children) => 1 + seq_size(children@),
        _ => 1,
    }
}

/// The total number of nodes in a forest.
pub open spec fn seq_size(s: Seq<Node>) -> nat
    decreases s,
{
    if s.len() == 0 {
        0
    } else {
        node_size(s[0]) + seq_size(s.subrange(1, s.len() as int))
    }
}

/// Every subtree holds at least its own entry.
pub proof fn lemma_node_size_pos(n: Node)
    ensures
        node_size(n) >= 1,
{
}

/// Unfolds [`seq_size`] one step from the front.
pub proof fn lemma_seq_size_first(s: Seq<Node>)
    requires
        s.len() > 0,
    ensures
        seq_size(s) == node_size(s[0]) + seq_size(s.subrange(1, s.len() as int)),
{
}

} // verus!
