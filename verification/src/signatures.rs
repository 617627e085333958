//! Syntax errors in the signature of a function, before its body.
use vstd::prelude::*;
use crate::syntax::{parent_of, position, subtree_end, NodeView, SyntaxTree};

verus! {

/// A node that the parser could not make sense of, or had to invent.
pub open spec fn is_issue(node: NodeView) -> bool {
    node.error || node.missing
}

/// Whether node `i` is the type that the parser misses in a default argument `= {}`, before the
/// body `body`.
pub open spec fn is_missing_type(t: Seq<NodeView>, i: int, body: int) -> bool {
    &&& t[i].missing
    &&& t[i].kind == "type_identifier"@
    &&& parent_of(t, i) matches Some(parent) && t[parent].kind == "compound_literal_expression"@
    &&& t[i].end_byte <= t[body].start_byte
}

/// Whether every issue inside node `node` is a missing type of a default argument `= {}`.
pub open spec fn misses_types_only(t: Seq<NodeView>, node: int, body: int) -> bool {
    forall|i: int|
        node <= i < subtree_end(t, node) && is_issue(#[trigger] t[i]) ==> is_missing_type(
            t,
            i,
            body,
        )
}

/// Whether there is some issue inside node `node`.
pub open spec fn has_issue(t: Seq<NodeView>, node: int) -> bool {
    exists|i: int| node <= i < subtree_end(t, node) && is_issue(#[trigger] t[i])
}

/// Whether the errors of node `node` with the body `body` are only missing types of default
/// arguments `= {}`, and the body has none.
pub open spec fn is_recoverable(t: Seq<NodeView>, node: int, body: int) -> bool {
    !t[body].has_error && has_issue(t, node) && misses_types_only(t, node, body)
}

/// The template declaration around node `i`.
pub open spec fn template_of(t: Seq<NodeView>, i: int) -> Option<int> {
    match parent_of(t, i) {
        Some(parent) => if t[parent].kind == "template_declaration"@ {
            Some(parent)
        } else {
            None
        },
        None => None,
    }
}

/// The node where the function definition `i` starts: its template declaration, or itself.
pub open spec fn declaration_of(t: Seq<NodeView>, i: int) -> int {
    match template_of(t, i) {
        Some(template) => template,
        None => i,
    }
}

/// Whether node `i` is an issue.
pub(crate) fn is_broken(tree: &SyntaxTree, i: usize) -> (result: bool)
    requires
        i < tree@.len(),
    ensures
        result == is_issue(tree@[i as int]),
{
    tree.node(i).error || tree.node(i).missing
}

/// Whether node `i` is the type that the parser misses in a default argument `= {}`.
fn misses_type(tree: &SyntaxTree, i: usize, body: usize) -> (result: bool)
    requires
        i < tree@.len(),
        body < tree@.len(),
    ensures
        result == is_missing_type(tree@, i as int, body as int),
{
    let in_literal = match tree.parent(i) {
        Some(parent) => tree.is_kind(parent, "compound_literal_expression"),
        None => false,
    };
    in_literal && tree.node(i).missing && tree.is_kind(i, "type_identifier") && tree.node(
        i,
    ).end_byte <= tree.node(body).start_byte
}

/// Whether the errors of node `node` with the body `body` are only missing types of default
/// arguments `= {}`, and the body has none.
pub fn recoverable_signature(tree: &SyntaxTree, node: usize, body: usize) -> (result: bool)
    requires
        node < tree@.len(),
        body < tree@.len(),
    ensures
        result == is_recoverable(tree@, node as int, body as int),
{
    let ghost t = tree@;
    if tree.node(body).has_error {
        return false;
    }
    let end = tree.end(node);
    let mut seen = false;
    let mut i = node;
    while i < end
        invariant
            t == tree@,
            body < t.len(),
            !t[body as int].has_error,
            end == subtree_end(t, node as int),
            node <= i <= end <= t.len(),
            seen == exists|j: int| node <= j < i && is_issue(#[trigger] t[j]),
            forall|j: int|
                node <= j < i && is_issue(#[trigger] t[j]) ==> is_missing_type(
                    t,
                    j,
                    body as int,
                ),
        decreases end - i,
    {
        if is_broken(tree, i) {
            if !misses_type(tree, i, body) {
                assert(is_issue(t[i as int]));
                return false;
            }
            seen = true;
        }
        i = i + 1;
    }
    seen
}

/// The template declaration around node `i`.
pub(crate) fn template(tree: &SyntaxTree, i: usize) -> (result: Option<usize>)
    requires
        i < tree@.len(),
    ensures
        position(result) == template_of(tree@, i as int),
        result matches Some(p) ==> p < i,
{
    match tree.parent(i) {
        Some(parent) => if tree.is_kind(parent, "template_declaration") {
            Some(parent)
        } else {
            None
        },
        None => None,
    }
}

/// The node where the function definition `i` starts.
pub(crate) fn declaration(tree: &SyntaxTree, i: usize) -> (result: usize)
    requires
        i < tree@.len(),
    ensures
        result == declaration_of(tree@, i as int),
        result <= i,
{
    match template(tree, i) {
        Some(template) => template,
        None => i,
    }
}

} // verus!
