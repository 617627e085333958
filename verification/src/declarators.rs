//! Walks from a declarator to the name, or to the function, that it declares.
use vstd::prelude::*;
use vstd::utf8::encode_utf8;
use crate::syntax::{
    field_of, fits, named_of, node_text, position, positions, NodeView, SyntaxTree,
};
use crate::text::{after_last_separator, ends_with, has_suffix, last_segment};

verus! {

/// The first of `nodes` whose kind is some kind of declarator.
pub open spec fn first_declarator(t: Seq<NodeView>, nodes: Seq<int>) -> Option<int>
    decreases nodes.len(),
{
    if nodes.len() == 0 {
        None
    } else if has_suffix(t[nodes[0]].kind, "declarator"@) {
        Some(nodes[0])
    } else {
        first_declarator(t, nodes.drop_first())
    }
}

/// The node inside declarator `i` that holds its name: down the `declarator` fields, and where a
/// declarator has none, down its first named child that is a declarator.
pub open spec fn naming_node(t: Seq<NodeView>, i: int) -> int
    decreases t.len() - i,
{
    let inner = field_of(t, i, "declarator"@);
    let nested = first_declarator(t, named_of(t, i));
    if inner is Some && i < inner->0 < t.len() {
        naming_node(t, inner->0)
    } else if inner is None && has_suffix(t[i].kind, "declarator"@) && nested is Some && i
        < nested->0 < t.len() {
        naming_node(t, nested->0)
    } else {
        i
    }
}

/// The unqualified name of the declarator `i`.
pub open spec fn declarator_name(t: Seq<NodeView>, i: int, source: Seq<char>) -> Seq<char> {
    last_segment(node_text(t, naming_node(t, i), source))
}

/// The node that declarator `i` binds: down the `declarator` fields and through parentheses.
pub open spec fn bound_node(t: Seq<NodeView>, i: int) -> int
    decreases t.len() - i,
{
    let inner = field_of(t, i, "declarator"@);
    let named = named_of(t, i);
    if inner is Some && i < inner->0 < t.len() {
        bound_node(t, inner->0)
    } else if inner is None && t[i].kind == "parenthesized_declarator"@ && named.len() > 0 && i
        < named[0] < t.len() {
        bound_node(t, named[0])
    } else {
        i
    }
}

/// The name that declarator `i` binds, where it binds a plain identifier.
pub open spec fn bound_name(t: Seq<NodeView>, i: int, source: Seq<char>) -> Option<Seq<char>> {
    let node = bound_node(t, i);
    if t[node].kind == "identifier"@ || t[node].kind == "field_identifier"@ || t[node].kind
        == "type_identifier"@ {
        Some(node_text(t, node, source))
    } else {
        None
    }
}

/// The function declarator inside declarator `i`, down the `declarator` fields.
pub open spec fn function_declarator_of(t: Seq<NodeView>, i: int) -> Option<int>
    decreases t.len() - i,
{
    let inner = field_of(t, i, "declarator"@);
    if t[i].kind == "function_declarator"@ {
        Some(i)
    } else if inner is Some && i < inner->0 < t.len() {
        function_declarator_of(t, inner->0)
    } else {
        None
    }
}

/// The first named child of node `i` whose kind is some kind of declarator.
fn nested_declarator(tree: &SyntaxTree, i: usize) -> (child: Option<usize>)
    requires
        i < tree@.len(),
    ensures
        position(child) == first_declarator(tree@, named_of(tree@, i as int)),
        child matches Some(c) ==> i < c < tree@.len(),
{
    let named = tree.named(i);
    let mut k: usize = 0;
    assert(positions(named@).skip(0) =~= positions(named@));
    while k < named.len()
        invariant
            i < tree@.len(),
            k <= named.len(),
            positions(named@) == named_of(tree@, i as int),
            forall|j: int| 0 <= j < named.len() ==> i < #[trigger] named[j] < tree@.len(),
            first_declarator(tree@, positions(named@).skip(k as int)) == first_declarator(
                tree@,
                named_of(tree@, i as int),
            ),
        decreases named.len() - k,
    {
        let ghost rest = positions(named@).skip(k as int);
        assert(rest[0] == named@[k as int]);
        assert(rest.drop_first() =~= positions(named@).skip(k + 1));
        if ends_with(tree.node(named[k]).kind.as_str(), "declarator") {
            return Some(named[k]);
        }
        k = k + 1;
    }
    None
}

/// The unqualified name of the declarator `node`.
pub fn name_of(tree: &SyntaxTree, node: usize, source: &str) -> (name: String)
    requires
        node < tree@.len(),
        fits(tree@, encode_utf8(source@)),
    ensures
        name@ == declarator_name(tree@, node as int, source@),
{
    let mut at = node;
    loop
        invariant
            node <= at < tree@.len(),
            fits(tree@, encode_utf8(source@)),
            naming_node(tree@, node as int) == naming_node(tree@, at as int),
        decreases tree@.len() - at,
    {
        match tree.field(at, "declarator") {
            Some(child) => {
                at = child;
            },
            None => {
                let nested = if ends_with(tree.node(at).kind.as_str(), "declarator") {
                    nested_declarator(tree, at)
                } else {
                    None
                };
                match nested {
                    Some(child) => {
                        at = child;
                    },
                    None => {
                        return after_last_separator(tree.text(at, source));
                    },
                }
            },
        }
    }
}

/// The node that declarator `node` binds.
pub fn binding_node(tree: &SyntaxTree, node: usize) -> (at: usize)
    requires
        node < tree@.len(),
    ensures
        at == bound_node(tree@, node as int),
        node <= at < tree@.len(),
{
    let mut at = node;
    loop
        invariant
            node <= at < tree@.len(),
            bound_node(tree@, node as int) == bound_node(tree@, at as int),
        decreases tree@.len() - at,
    {
        match tree.field(at, "declarator") {
            Some(child) => {
                at = child;
            },
            None => {
                if !tree.is_kind(at, "parenthesized_declarator") {
                    return at;
                }
                let named = tree.named(at);
                assert(positions(named@).len() == named.len());
                if named.len() == 0 {
                    return at;
                }
                assert(positions(named@)[0] == named@[0]);
                at = named[0];
            },
        }
    }
}

/// The name that declarator `node` binds, where it binds a plain identifier.
pub fn binding_name(tree: &SyntaxTree, node: usize, source: &str) -> (name: Option<String>)
    requires
        node < tree@.len(),
        fits(tree@, encode_utf8(source@)),
    ensures
        match name {
            Some(name) => bound_name(tree@, node as int, source@) == Some(name@),
            None => bound_name(tree@, node as int, source@) is None,
        },
{
    let at = binding_node(tree, node);
    if tree.is_kind(at, "identifier") || tree.is_kind(at, "field_identifier") || tree.is_kind(
        at,
        "type_identifier",
    ) {
        Some(tree.text(at, source).to_owned())
    } else {
        None
    }
}

/// The function declarator inside declarator `node`.
pub fn function_declarator(tree: &SyntaxTree, node: usize) -> (declarator: Option<usize>)
    requires
        node < tree@.len(),
    ensures
        position(declarator) == function_declarator_of(tree@, node as int),
        declarator matches Some(d) ==> node <= d < tree@.len(),
{
    let mut at = node;
    loop
        invariant
            node <= at < tree@.len(),
            function_declarator_of(tree@, node as int) == function_declarator_of(
                tree@,
                at as int,
            ),
        decreases tree@.len() - at,
    {
        if tree.is_kind(at, "function_declarator") {
            return Some(at);
        }
        match tree.field(at, "declarator") {
            Some(child) => {
                at = child;
            },
            None => {
                return None;
            },
        }
    }
}

} // verus!
