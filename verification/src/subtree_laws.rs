//! What holds of a subtree that two trees have in common.
use vstd::prelude::*;
use crate::bodies::{
    all_nodes, binding_sites, binds_identifier, binds_locally, code_nodes, code_roots,
    imports_locally, is_local_import, is_nested_scope, local_names, of_kind, own_nodes, walked,
    walked_all,
};
use crate::declarators::{bound_node, first_declarator, function_declarator_of, naming_node};
use crate::extraction::function_name;
use crate::lookup::ContextView;
use crate::metadata::scope_of;
use crate::references::{
    are_plain_parameters, argument_count, arity_of, call_reference, candidate_of, count_kind,
    default_reference, first_of_kind, initialized_reference, initializer_of, is_plain_parameter,
    literal_reference, parameters_of, reference_between, returned_reference, some_of_kind,
    type_around,
};
use crate::scopes::{declarator_of, written_name, ScopeIndexView};
use crate::syntax::{
    children_of, field_of, fields_of, in_field, lemma_end, lemma_end_is, lemma_nested,
    lemma_parent, lemma_parent_is, lemma_selected_children, lemma_siblings, named_in, named_of,
    node_text, parent_of, preorder, siblings_from, subtree_end, NodeView,
};
use crate::text::has_suffix;
use crate::units::{
    context_of, references_at, references_of, takes_void, unit_of, unit_scope,
};

verus! {

/// Whether the subtree of node `i` in one tree is that of node `j` in another: the same nodes, at
/// the same depth and over the same ranges.
pub open spec fn is_copy(t: Seq<NodeView>, i: int, u: Seq<NodeView>, j: int) -> bool {
    &&& 0 <= i < t.len()
    &&& 0 <= j < u.len()
    &&& subtree_end(u, j) - j == subtree_end(t, i) - i
    &&& forall|k: int| i <= k < subtree_end(t, i) ==> u[k + (j - i)] == #[trigger] t[k]
}

/// The positions `nodes`, moved by `d`.
pub open spec fn moved(nodes: Seq<int>, d: int) -> Seq<int> {
    nodes.map_values(|k: int| k + d)
}

/// An optional position, moved by `d`.
pub open spec fn moved_one(node: Option<int>, d: int) -> Option<int> {
    match node {
        Some(k) => Some(k + d),
        None => None,
    }
}

/// Whether all of `nodes` stand in the subtree of node `i`.
pub open spec fn are_inside(t: Seq<NodeView>, i: int, nodes: Seq<int>) -> bool {
    forall|k: int| 0 <= k < nodes.len() ==> i <= #[trigger] nodes[k] < subtree_end(t, i)
}

proof fn lemma_rest_inside(t: Seq<NodeView>, i: int, nodes: Seq<int>)
    requires
        are_inside(t, i, nodes),
        nodes.len() > 0,
    ensures
        are_inside(t, i, nodes.drop_first()),
        are_inside(t, i, nodes.drop_last()),
        i <= nodes[0] < subtree_end(t, i),
        i <= nodes.last() < subtree_end(t, i),
{
    let rest = nodes.drop_first();
    assert forall|k: int| 0 <= k < rest.len() implies i <= #[trigger] rest[k] < subtree_end(
        t,
        i,
    ) by {
        assert(rest[k] == nodes[k + 1]);
    }
    let some = nodes.drop_last();
    assert forall|k: int| 0 <= k < some.len() implies i <= #[trigger] some[k] < subtree_end(
        t,
        i,
    ) by {
        assert(some[k] == nodes[k]);
    }
}

/// Every subtree inside a copied subtree is copied.
pub proof fn lemma_copied_node(t: Seq<NodeView>, i: int, u: Seq<NodeView>, j: int, k: int)
    requires
        is_copy(t, i, u, j),
        i <= k < subtree_end(t, i),
    ensures
        is_copy(t, k, u, k + (j - i)),
        u[k + (j - i)] == t[k],
        subtree_end(t, k) <= subtree_end(t, i) <= t.len(),
{
    let d = j - i;
    lemma_end(t, i);
    lemma_end(u, j);
    if k > i {
        lemma_nested(t, i, k);
        lemma_end(t, k);
        let e = subtree_end(t, k);
        assert(u[k + d] == t[k]);
        assert(u[j] == t[i]);
        assert forall|m: int| k + d < m < e + d implies (#[trigger] u[m]).depth
            > u[k + d].depth by {
            assert(u[(m - d) + d] == t[m - d]);
        }
        if e + d < u.len() {
            if e < subtree_end(t, i) {
                assert(u[e + d] == t[e]);
            } else {
                assert(t[k].depth > t[i].depth);
            }
        }
        lemma_end_is(u, k + d, e + d);
        assert forall|m: int| k <= m < e implies u[m + d] == #[trigger] t[m] by {}
    }
}

proof fn lemma_copied_siblings(
    t: Seq<NodeView>,
    i: int,
    u: Seq<NodeView>,
    j: int,
    c: int,
    end: int,
)
    requires
        is_copy(t, i, u, j),
        i <= c,
        end <= subtree_end(t, i),
    ensures
        siblings_from(u, c + (j - i), end + (j - i)) == moved(siblings_from(t, c, end), j - i),
    decreases end - c,
{
    let d = j - i;
    if c < end {
        lemma_copied_node(t, i, u, j, c);
        lemma_end(t, c);
        let next = subtree_end(t, c);
        if next <= end {
            lemma_copied_siblings(t, i, u, j, next, end);
        }
    }
    assert(siblings_from(u, c + d, end + d) =~= moved(siblings_from(t, c, end), d));
}

proof fn lemma_copied_in_field(
    t: Seq<NodeView>,
    i: int,
    u: Seq<NodeView>,
    j: int,
    nodes: Seq<int>,
    field: Seq<char>,
)
    requires
        is_copy(t, i, u, j),
        are_inside(t, i, nodes),
    ensures
        in_field(u, moved(nodes, j - i), field) == moved(in_field(t, nodes, field), j - i),
    decreases nodes.len(),
{
    let d = j - i;
    if nodes.len() > 0 {
        let rest = nodes.drop_first();
        lemma_rest_inside(t, i, nodes);
        lemma_copied_in_field(t, i, u, j, rest, field);
        assert(moved(nodes, d).drop_first() =~= moved(rest, d));
        assert(u[nodes[0] + d] == t[nodes[0]]);
    }
    assert(in_field(u, moved(nodes, d), field) =~= moved(in_field(t, nodes, field), d));
}

proof fn lemma_copied_named_in(
    t: Seq<NodeView>,
    i: int,
    u: Seq<NodeView>,
    j: int,
    nodes: Seq<int>,
)
    requires
        is_copy(t, i, u, j),
        are_inside(t, i, nodes),
    ensures
        named_in(u, moved(nodes, j - i)) == moved(named_in(t, nodes), j - i),
    decreases nodes.len(),
{
    let d = j - i;
    if nodes.len() > 0 {
        let rest = nodes.drop_first();
        lemma_rest_inside(t, i, nodes);
        lemma_copied_named_in(t, i, u, j, rest);
        assert(moved(nodes, d).drop_first() =~= moved(rest, d));
        assert(u[nodes[0] + d] == t[nodes[0]]);
    }
    assert(named_in(u, moved(nodes, d)) =~= moved(named_in(t, nodes), d));
}

/// The children of a copied node are those of the node.
pub proof fn lemma_copied_children(
    t: Seq<NodeView>,
    i: int,
    u: Seq<NodeView>,
    j: int,
    k: int,
    field: Seq<char>,
)
    requires
        is_copy(t, i, u, j),
        i <= k < subtree_end(t, i),
    ensures
        is_copy(t, k, u, k + (j - i)),
        u[k + (j - i)] == t[k],
        subtree_end(u, k + (j - i)) == subtree_end(t, k) + (j - i) <= u.len(),
        subtree_end(t, k) <= subtree_end(t, i) <= t.len(),
        children_of(u, k + (j - i)) == moved(children_of(t, k), j - i),
        fields_of(u, k + (j - i), field) == moved(fields_of(t, k, field), j - i),
        named_of(u, k + (j - i)) == moved(named_of(t, k), j - i),
        field_of(u, k + (j - i), field) == moved_one(field_of(t, k, field), j - i),
        are_inside(t, k, children_of(t, k)),
        are_inside(t, k, fields_of(t, k, field)),
        are_inside(t, k, named_of(t, k)),
        field_of(t, k, field) matches Some(c) ==> k < c < subtree_end(t, k),
{
    lemma_copied_node(t, i, u, j, k);
    lemma_end(t, k);
    lemma_end(u, k + (j - i));
    let children = children_of(t, k);
    lemma_copied_siblings(t, k, u, k + (j - i), k + 1, subtree_end(t, k));
    lemma_siblings(t, k + 1, subtree_end(t, k));
    lemma_selected_children(t, k, field);
    assert(are_inside(t, k, children));
    lemma_copied_in_field(t, k, u, k + (j - i), children, field);
    lemma_copied_named_in(t, k, u, k + (j - i), children);
}

// ---------------------------------------------------------------------------------------------
// Declarators

proof fn lemma_copied_first_declarator(
    t: Seq<NodeView>,
    i: int,
    u: Seq<NodeView>,
    j: int,
    nodes: Seq<int>,
)
    requires
        is_copy(t, i, u, j),
        are_inside(t, i, nodes),
    ensures
        first_declarator(u, moved(nodes, j - i)) == moved_one(first_declarator(t, nodes), j - i),
        first_declarator(t, nodes) matches Some(c) ==> nodes.contains(c),
    decreases nodes.len(),
{
    if nodes.len() > 0 {
        let rest = nodes.drop_first();
        lemma_rest_inside(t, i, nodes);
        lemma_copied_first_declarator(t, i, u, j, rest);
        assert(moved(nodes, j - i).drop_first() =~= moved(rest, j - i));
        assert(u[nodes[0] + (j - i)] == t[nodes[0]]);
        match first_declarator(t, rest) {
            Some(c) => {
                let m = choose|m: int| 0 <= m < rest.len() && rest[m] == c;
                assert(nodes[m + 1] == c);
            },
            None => {},
        }
        assert(nodes.contains(nodes[0]));
    }
}

/// A copied declarator has its name in the same node.
pub proof fn lemma_copied_naming_node(t: Seq<NodeView>, i: int, u: Seq<NodeView>, j: int, k: int)
    requires
        is_copy(t, i, u, j),
        i <= k < subtree_end(t, i),
    ensures
        naming_node(u, k + (j - i)) == naming_node(t, k) + (j - i),
        k <= naming_node(t, k) < subtree_end(t, i),
    decreases t.len() - k,
{
    lemma_copied_children(t, i, u, j, k, "declarator"@);
    lemma_copied_first_declarator(t, k, u, k + (j - i), named_of(t, k));
    lemma_selected_children(t, k, "declarator"@);
    let inner = field_of(t, k, "declarator"@);
    let nested = first_declarator(t, named_of(t, k));
    if inner is Some {
        lemma_copied_naming_node(t, i, u, j, inner->0);
    } else if has_suffix(t[k].kind, "declarator"@) && nested is Some {
        let m = choose|m: int|
            0 <= m < named_of(t, k).len() && named_of(t, k)[m] == nested->0;
        assert(k < named_of(t, k)[m] < subtree_end(t, k));
        lemma_copied_naming_node(t, i, u, j, nested->0);
    }
}

/// A copied declarator binds the same node.
pub proof fn lemma_copied_bound_node(t: Seq<NodeView>, i: int, u: Seq<NodeView>, j: int, k: int)
    requires
        is_copy(t, i, u, j),
        i <= k < subtree_end(t, i),
    ensures
        bound_node(u, k + (j - i)) == bound_node(t, k) + (j - i),
        k <= bound_node(t, k) < subtree_end(t, i),
        u[bound_node(u, k + (j - i))] == t[bound_node(t, k)],
    decreases t.len() - k,
{
    lemma_copied_children(t, i, u, j, k, "declarator"@);
    lemma_selected_children(t, k, "declarator"@);
    let inner = field_of(t, k, "declarator"@);
    let named = named_of(t, k);
    if inner is Some {
        lemma_copied_bound_node(t, i, u, j, inner->0);
    } else if t[k].kind == "parenthesized_declarator"@ && named.len() > 0 {
        assert(k < named[0] < subtree_end(t, k));
        lemma_copied_bound_node(t, i, u, j, named[0]);
    }
}

proof fn lemma_copied_function_declarator(
    t: Seq<NodeView>,
    i: int,
    u: Seq<NodeView>,
    j: int,
    k: int,
)
    requires
        is_copy(t, i, u, j),
        i <= k < subtree_end(t, i),
    ensures
        function_declarator_of(u, k + (j - i)) == moved_one(function_declarator_of(t, k), j - i),
        function_declarator_of(t, k) matches Some(d) ==> k <= d < subtree_end(t, i),
    decreases t.len() - k,
{
    lemma_copied_children(t, i, u, j, k, "declarator"@);
    match field_of(t, k, "declarator"@) {
        Some(inner) => lemma_copied_function_declarator(t, i, u, j, inner),
        None => {},
    }
}

/// A copied function has its declarator, its name and its parameters in the same nodes.
pub proof fn lemma_copied_declarator(t: Seq<NodeView>, i: int, u: Seq<NodeView>, j: int)
    requires
        is_copy(t, i, u, j),
    ensures
        declarator_of(u, j) == moved_one(declarator_of(t, i), j - i),
        declarator_of(t, i) matches Some(d) ==> i < d < subtree_end(t, i),
        written_name(u, j) == moved_one(written_name(t, i), j - i),
        written_name(t, i) matches Some(d) ==> i < d < subtree_end(t, i),
        parameters_of(u, declarator_of(u, j)) == moved_one(
            parameters_of(t, declarator_of(t, i)),
            j - i,
        ),
        parameters_of(t, declarator_of(t, i)) matches Some(d) ==> i < d < subtree_end(t, i),
{
    lemma_end(t, i);
    lemma_copied_children(t, i, u, j, i, "declarator"@);
    match field_of(t, i, "declarator"@) {
        Some(declarator) => {
            lemma_copied_function_declarator(t, i, u, j, declarator);
            match function_declarator_of(t, declarator) {
                Some(d) => {
                    lemma_copied_children(t, i, u, j, d, "declarator"@);
                    lemma_copied_children(t, i, u, j, d, "parameters"@);
                },
                None => {},
            }
        },
        None => {},
    }
}

// ---------------------------------------------------------------------------------------------
// Code

proof fn lemma_copied_of_kind(
    t: Seq<NodeView>,
    i: int,
    u: Seq<NodeView>,
    j: int,
    nodes: Seq<int>,
    kind: Seq<char>,
)
    requires
        is_copy(t, i, u, j),
        are_inside(t, i, nodes),
    ensures
        of_kind(u, moved(nodes, j - i), kind) == moved(of_kind(t, nodes, kind), j - i),
        count_kind(u, moved(nodes, j - i), kind) == count_kind(t, nodes, kind),
        forall|k: int|
            0 <= k < of_kind(t, nodes, kind).len() ==> nodes.contains(
                #[trigger] of_kind(t, nodes, kind)[k],
            ),
    decreases nodes.len(),
{
    let d = j - i;
    let all = of_kind(t, nodes, kind);
    if nodes.len() > 0 {
        let some = nodes.drop_last();
        lemma_rest_inside(t, i, nodes);
        lemma_copied_of_kind(t, i, u, j, some, kind);
        assert(moved(nodes, d).drop_last() =~= moved(some, d));
        assert(u[nodes.last() + d] == t[nodes.last()]);
        let before = of_kind(t, some, kind);
        assert forall|k: int| 0 <= k < all.len() implies nodes.contains(#[trigger] all[k]) by {
            if k < before.len() {
                assert(all[k] == before[k]);
                let m = choose|m: int| 0 <= m < some.len() && some[m] == before[k];
                assert(nodes[m] == all[k]);
            } else {
                assert(nodes[nodes.len() - 1] == all[k]);
            }
        }
    }
    assert(of_kind(u, moved(nodes, d), kind) =~= moved(all, d));
}

proof fn lemma_copied_own_nodes(
    t: Seq<NodeView>,
    i: int,
    u: Seq<NodeView>,
    j: int,
    from: int,
    end: int,
)
    requires
        is_copy(t, i, u, j),
        i <= from,
        end <= subtree_end(t, i),
    ensures
        own_nodes(u, from + (j - i), end + (j - i)) == moved(own_nodes(t, from, end), j - i),
        forall|k: int|
            0 <= k < own_nodes(t, from, end).len() ==> from <= #[trigger] own_nodes(
                t,
                from,
                end,
            )[k] < end,
    decreases end - from,
{
    let d = j - i;
    if from < end {
        lemma_copied_node(t, i, u, j, from);
        lemma_end(t, from);
        let next = subtree_end(t, from);
        let all = own_nodes(t, from, end);
        if !is_nested_scope(t[from].kind) {
            lemma_copied_own_nodes(t, i, u, j, from + 1, end);
            let rest = own_nodes(t, from + 1, end);
            assert forall|k: int| 0 <= k < all.len() implies from <= #[trigger] all[k] < end by {
                if k > 0 {
                    assert(all[k] == rest[k - 1]);
                }
            }
        } else if next <= end {
            lemma_copied_own_nodes(t, i, u, j, next, end);
        }
    }
    assert(own_nodes(u, from + d, end + d) =~= moved(own_nodes(t, from, end), d));
}

proof fn lemma_copied_walk(
    t: Seq<NodeView>,
    i: int,
    u: Seq<NodeView>,
    j: int,
    roots: Seq<int>,
)
    requires
        is_copy(t, i, u, j),
        forall|k: int| 0 <= k < roots.len() ==> i < #[trigger] roots[k] < subtree_end(t, i),
    ensures
        walked_all(u, moved(roots, j - i)) == moved(walked_all(t, roots), j - i),
        forall|k: int|
            0 <= k < walked_all(t, roots).len() ==> i < #[trigger] walked_all(t, roots)[k]
                < subtree_end(t, i),
    decreases roots.len(),
{
    let d = j - i;
    let all = walked_all(t, roots);
    if roots.len() > 0 {
        let some = roots.drop_last();
        let root = roots[roots.len() - 1];
        assert forall|k: int| 0 <= k < some.len() implies i < #[trigger] some[k] < subtree_end(
            t,
            i,
        ) by {
            assert(some[k] == roots[k]);
        }
        lemma_copied_walk(t, i, u, j, some);
        lemma_copied_node(t, i, u, j, root);
        lemma_end(t, root);
        lemma_copied_own_nodes(t, i, u, j, root, subtree_end(t, root));
        assert(moved(roots, d).drop_last() =~= moved(some, d));
        let before = walked_all(t, some);
        assert(all == before + walked(t, root));
        assert(walked(u, root + d) == moved(walked(t, root), d));
        assert forall|k: int| 0 <= k < all.len() implies i < #[trigger] all[k] < subtree_end(
            t,
            i,
        ) by {
            if k < before.len() {
                assert(all[k] == before[k]);
            } else {
                assert(all[k] == walked(t, root)[k - before.len()]);
            }
        }
    }
    assert(walked_all(u, moved(roots, d)) =~= moved(all, d));
}

/// The code of a copied function is the same.
pub proof fn lemma_copied_code(t: Seq<NodeView>, i: int, u: Seq<NodeView>, j: int, body: int)
    requires
        is_copy(t, i, u, j),
        field_of(t, i, "body"@) == Some(body),
    ensures
        field_of(u, j, "body"@) == Some(body + (j - i)),
        code_nodes(u, j, body + (j - i)) == moved(code_nodes(t, i, body), j - i),
        forall|k: int|
            0 <= k < code_nodes(t, i, body).len() ==> i < #[trigger] code_nodes(t, i, body)[k]
                < subtree_end(t, i),
{
    let d = j - i;
    let kind = "field_initializer_list"@;
    lemma_end(t, i);
    lemma_copied_children(t, i, u, j, i, "body"@);
    lemma_selected_children(t, i, "body"@);
    let named = named_of(t, i);
    lemma_copied_of_kind(t, i, u, j, named, kind);
    let lists = of_kind(t, named, kind);
    let roots = code_roots(t, i, body);
    assert forall|k: int| 0 <= k < roots.len() implies i < #[trigger] roots[k] < subtree_end(
        t,
        i,
    ) by {
        if k > 0 {
            assert(roots[k] == lists[k - 1]);
            let m = choose|m: int| 0 <= m < named.len() && named[m] == lists[k - 1];
            assert(i < named[m] < subtree_end(t, i));
        }
    }
    assert(code_roots(u, j, body + d) =~= moved(roots, d));
    lemma_copied_walk(t, i, u, j, roots);
}

/// The nodes that may bind a local name of a copied function are the same.
pub proof fn lemma_copied_sites(
    t: Seq<NodeView>,
    i: int,
    u: Seq<NodeView>,
    j: int,
    parameters: Option<int>,
    code: Seq<int>,
)
    requires
        is_copy(t, i, u, j),
        are_inside(t, i, code),
        parameters matches Some(p) ==> i < p < subtree_end(t, i),
    ensures
        binding_sites(u, moved_one(parameters, j - i), moved(code, j - i)) == moved(
            binding_sites(t, parameters, code),
            j - i,
        ),
        are_inside(t, i, binding_sites(t, parameters, code)),
{
    let d = j - i;
    match parameters {
        Some(p) => {
            lemma_copied_node(t, i, u, j, p);
            lemma_end(t, p);
            let inside = all_nodes(p, subtree_end(t, p));
            let sites = binding_sites(t, Some(p), code);
            assert(binding_sites(u, Some(p + d), moved(code, d)) =~= moved(sites, d));
            assert forall|k: int| 0 <= k < sites.len() implies i <= #[trigger] sites[k]
                < subtree_end(t, i) by {
                if k < inside.len() {
                    assert(sites[k] == p + k);
                } else {
                    assert(sites[k] == code[k - inside.len()]);
                }
            }
        },
        None => {},
    }
}

proof fn lemma_copied_binding(
    t: Seq<NodeView>,
    i: int,
    u: Seq<NodeView>,
    j: int,
    k: int,
    source: Seq<char>,
    name: Seq<char>,
)
    requires
        is_copy(t, i, u, j),
        i <= k < subtree_end(t, i),
    ensures
        binds_locally(u, k + (j - i), source, name) == binds_locally(t, k, source, name),
{
    let d = j - i;
    lemma_copied_children(t, i, u, j, k, "declarator"@);
    let nodes = fields_of(t, k, "declarator"@);
    let others = fields_of(u, k + d, "declarator"@);
    assert forall|m: int| 0 <= m < nodes.len() implies bound_node(u, #[trigger] others[m])
        == bound_node(t, nodes[m]) + d && u[bound_node(u, others[m])] == t[bound_node(
        t,
        nodes[m],
    )] by {
        assert(k <= nodes[m] < subtree_end(t, k));
        lemma_copied_bound_node(t, i, u, j, nodes[m]);
    }
    if binds_identifier(t, nodes, source, name) {
        let m = choose|m: int|
            0 <= m < nodes.len() && t[bound_node(t, #[trigger] nodes[m])].kind == "identifier"@
                && node_text(t, bound_node(t, nodes[m]), source) == name;
        assert(u[bound_node(u, others[m])].kind == "identifier"@);
    }
    if binds_identifier(u, others, source, name) {
        let m = choose|m: int|
            0 <= m < others.len() && u[bound_node(u, #[trigger] others[m])].kind
                == "identifier"@ && node_text(u, bound_node(u, others[m]), source) == name;
        assert(t[bound_node(t, nodes[m])].kind == "identifier"@);
    }
}

proof fn lemma_copied_locals(
    t: Seq<NodeView>,
    i: int,
    u: Seq<NodeView>,
    j: int,
    sites: Seq<int>,
    source: Seq<char>,
)
    requires
        is_copy(t, i, u, j),
        are_inside(t, i, sites),
    ensures
        local_names(u, moved(sites, j - i), source) == local_names(t, sites, source),
        imports_locally(u, moved(sites, j - i)) == imports_locally(t, sites),
{
    let d = j - i;
    let others = moved(sites, d);
    assert forall|k: int, name: Seq<char>| 0 <= k < sites.len() implies binds_locally(
        u,
        #[trigger] others[k],
        source,
        name,
    ) == #[trigger] binds_locally(t, sites[k], source, name) by {
        lemma_copied_binding(t, i, u, j, sites[k], source, name);
    }
    assert forall|name: Seq<char>| #[trigger]
        local_names(u, others, source).contains(name) == local_names(t, sites, source).contains(
            name,
        ) by {
        if local_names(t, sites, source).contains(name) {
            let k = choose|k: int|
                0 <= k < sites.len() && binds_locally(t, #[trigger] sites[k], source, name);
            assert(binds_locally(u, others[k], source, name));
        }
        if local_names(u, others, source).contains(name) {
            let k = choose|k: int|
                0 <= k < others.len() && binds_locally(u, #[trigger] others[k], source, name);
            assert(binds_locally(t, sites[k], source, name));
        }
    }
    assert(local_names(u, others, source) =~= local_names(t, sites, source));
    if imports_locally(t, sites) {
        let k = choose|k: int|
            0 <= k < sites.len() && is_local_import(t[#[trigger] sites[k]].kind);
        assert(u[others[k]] == t[sites[k]]);
    }
    if imports_locally(u, others) {
        let k = choose|k: int|
            0 <= k < others.len() && is_local_import(u[#[trigger] others[k]].kind);
        assert(u[sites[k] + d] == t[sites[k]]);
    }
}

// ---------------------------------------------------------------------------------------------
// References

/// The parent of a node inside a copied subtree is the same.
pub proof fn lemma_copied_parent(t: Seq<NodeView>, i: int, u: Seq<NodeView>, j: int, k: int)
    requires
        preorder(t),
        is_copy(t, i, u, j),
        i < k < subtree_end(t, i),
    ensures
        parent_of(t, k) is Some,
        i <= parent_of(t, k)->0 < k,
        parent_of(u, k + (j - i)) == Some(parent_of(t, k)->0 + (j - i)),
{
    let d = j - i;
    lemma_end(t, i);
    lemma_end(u, j);
    lemma_parent(t, k);
    let p = parent_of(t, k)->0;
    lemma_end(t, p);
    if p < i {
        assert(t[i].depth > t[p].depth);
    }
    assert(u[p + d] == t[p] && u[k + d] == t[k]);
    assert forall|m: int| p + d < m < k + d implies (#[trigger] u[m]).depth >= u[k + d].depth by {
        assert(u[(m - d) + d] == t[m - d]);
    }
    lemma_parent_is(u, k + d, p + d);
}

proof fn lemma_copied_first_of_kind(
    t: Seq<NodeView>,
    i: int,
    u: Seq<NodeView>,
    j: int,
    nodes: Seq<int>,
    kind: Seq<char>,
)
    requires
        is_copy(t, i, u, j),
        are_inside(t, i, nodes),
    ensures
        first_of_kind(u, moved(nodes, j - i), kind) == moved_one(
            first_of_kind(t, nodes, kind),
            j - i,
        ),
        first_of_kind(t, nodes, kind) matches Some(c) ==> i <= c < subtree_end(t, i),
        some_of_kind(u, moved(nodes, j - i), kind) == some_of_kind(t, nodes, kind),
        are_plain_parameters(u, moved(nodes, j - i)) == are_plain_parameters(t, nodes),
    decreases nodes.len(),
{
    let d = j - i;
    let others = moved(nodes, d);
    assert forall|k: int| 0 <= k < nodes.len() implies u[#[trigger] others[k]] == t[nodes[k]] by {
        assert(u[nodes[k] + d] == t[nodes[k]]);
    }
    if nodes.len() > 0 {
        lemma_rest_inside(t, i, nodes);
        lemma_copied_first_of_kind(t, i, u, j, nodes.drop_first(), kind);
        assert(others.drop_first() =~= moved(nodes.drop_first(), d));
        assert(u[others[0]] == t[nodes[0]]);
    }
    if some_of_kind(t, nodes, kind) {
        let k = choose|k: int| 0 <= k < nodes.len() && t[#[trigger] nodes[k]].kind == kind;
        assert(u[others[k]].kind == kind);
    }
    if are_plain_parameters(u, others) {
        assert forall|k: int| 0 <= k < nodes.len() implies is_plain_parameter(
            t[#[trigger] nodes[k]].kind,
        ) by {
            assert(is_plain_parameter(u[others[k]].kind));
        }
    }
}

proof fn lemma_copied_reference(
    t: Seq<NodeView>,
    i: int,
    u: Seq<NodeView>,
    j: int,
    name: Option<int>,
    args: Option<int>,
    kind: Seq<char>,
    source: Seq<char>,
)
    requires
        is_copy(t, i, u, j),
        name matches Some(n) ==> i <= n < subtree_end(t, i),
        args matches Some(n) ==> i <= n < subtree_end(t, i),
    ensures
        reference_between(u, moved_one(name, j - i), moved_one(args, j - i), kind, source)
            == reference_between(t, name, args, kind, source),
{
    if name is Some && args is Some {
        let a = args->0;
        lemma_copied_children(t, i, u, j, a, kind);
        lemma_copied_of_kind(t, a, u, a + (j - i), named_of(t, a), "comment"@);
        assert(argument_count(u, a + (j - i)) == argument_count(t, a));
        assert(u[name->0 + (j - i)] == t[name->0]);
        assert(node_text(u, name->0 + (j - i), source) == node_text(t, name->0, source));
    }
}

proof fn lemma_copied_literal(
    t: Seq<NodeView>,
    i: int,
    u: Seq<NodeView>,
    j: int,
    k: int,
    source: Seq<char>,
)
    requires
        is_copy(t, i, u, j),
        i < k < subtree_end(t, i),
    ensures
        literal_reference(u, k + (j - i), source) == literal_reference(t, k, source),
{
    lemma_copied_children(t, i, u, j, k, "type"@);
    lemma_copied_children(t, i, u, j, k, "value"@);
    let named = field_of(t, k, "type"@);
    lemma_copied_reference(t, i, u, j, named, field_of(t, k, "value"@), "construct"@, source);
}

proof fn lemma_copied_initialized(
    t: Seq<NodeView>,
    i: int,
    u: Seq<NodeView>,
    j: int,
    k: int,
    source: Seq<char>,
)
    requires
        preorder(t),
        is_copy(t, i, u, j),
        i < k < subtree_end(t, i),
    ensures
        initialized_reference(u, k + (j - i), source) == initialized_reference(t, k, source),
{
    lemma_copied_parent(t, i, u, j, k);
    lemma_copied_children(t, i, u, j, parent_of(t, k)->0, "type"@);
    lemma_copied_children(t, i, u, j, k, "value"@);
    match field_of(t, k, "value"@) {
        Some(value) => {
            assert(u[value + (j - i)] == t[value]);
        },
        None => {},
    }
    let named = type_around(t, k);
    lemma_copied_reference(t, i, u, j, named, initializer_of(t, k), "construct"@, source);
}

proof fn lemma_copied_default(
    t: Seq<NodeView>,
    i: int,
    u: Seq<NodeView>,
    j: int,
    k: int,
    source: Seq<char>,
)
    requires
        is_copy(t, i, u, j),
        i < k < subtree_end(t, i),
    ensures
        default_reference(u, k + (j - i), source) == default_reference(t, k, source),
{
    lemma_copied_children(t, i, u, j, k, "type"@);
    lemma_copied_children(t, i, u, j, k, "declarator"@);
    let nodes = fields_of(t, k, "declarator"@);
    lemma_copied_first_of_kind(t, k, u, k + (j - i), nodes, "identifier"@);
    let named = field_of(t, k, "type"@);
    lemma_copied_reference(t, i, u, j, named, Some(k), "construct"@, source);
}

proof fn lemma_copied_returned(
    t: Seq<NodeView>,
    i: int,
    u: Seq<NodeView>,
    j: int,
    k: int,
    source: Seq<char>,
)
    requires
        is_copy(t, i, u, j),
        i < k < subtree_end(t, i),
    ensures
        returned_reference(u, j, k + (j - i), source) == returned_reference(t, i, k, source),
{
    lemma_end(t, i);
    lemma_copied_children(t, i, u, j, i, "type"@);
    lemma_copied_children(t, i, u, j, k, "type"@);
    let list = "initializer_list"@;
    lemma_copied_first_of_kind(t, k, u, k + (j - i), named_of(t, k), list);
    let values = first_of_kind(t, named_of(t, k), list);
    lemma_copied_reference(t, i, u, j, field_of(t, i, "type"@), values, "construct"@, source);
}

/// A node in the code of a copied function makes the same reference.
proof fn lemma_copied_candidate(
    t: Seq<NodeView>,
    i: int,
    u: Seq<NodeView>,
    j: int,
    k: int,
    source: Seq<char>,
)
    requires
        preorder(t),
        is_copy(t, i, u, j),
        i < k < subtree_end(t, i),
    ensures
        candidate_of(u, j, k + (j - i), source) == candidate_of(t, i, k, source),
{
    assert(u[k + (j - i)] == t[k]);
    lemma_copied_call(t, i, u, j, k, source);
    lemma_copied_literal(t, i, u, j, k, source);
    lemma_copied_initialized(t, i, u, j, k, source);
    lemma_copied_default(t, i, u, j, k, source);
    lemma_copied_returned(t, i, u, j, k, source);
}

proof fn lemma_copied_call(
    t: Seq<NodeView>,
    i: int,
    u: Seq<NodeView>,
    j: int,
    k: int,
    source: Seq<char>,
)
    requires
        is_copy(t, i, u, j),
        i < k < subtree_end(t, i),
    ensures
        call_reference(u, k + (j - i), source) == call_reference(t, k, source),
{
    let d = j - i;
    lemma_copied_children(t, i, u, j, k, "arguments"@);
    lemma_copied_children(t, i, u, j, k, "function"@);
    let args = field_of(t, k, "arguments"@);
    let call = "call"@;
    match field_of(t, k, "function"@) {
        Some(function) => {
            lemma_copied_children(t, i, u, j, function, "field"@);
            lemma_copied_children(t, i, u, j, function, "argument"@);
            match field_of(t, function, "argument"@) {
                Some(argument) => {
                    assert(u[argument + d] == t[argument]);
                },
                None => {},
            }
            lemma_copied_reference(
                t,
                i,
                u,
                j,
                field_of(t, function, "field"@),
                args,
                call,
                source,
            );
            lemma_copied_reference(t, i, u, j, Some(function), args, call, source);
        },
        None => {},
    }
}

proof fn lemma_copied_references(
    t: Seq<NodeView>,
    i: int,
    u: Seq<NodeView>,
    j: int,
    nodes: Seq<int>,
    source: Seq<char>,
    context: ContextView,
)
    requires
        preorder(t),
        is_copy(t, i, u, j),
        forall|k: int| 0 <= k < nodes.len() ==> i < #[trigger] nodes[k] < subtree_end(t, i),
    ensures
        references_at(u, j, moved(nodes, j - i), source, context) == references_at(
            t,
            i,
            nodes,
            source,
            context,
        ),
    decreases nodes.len(),
{
    if nodes.len() > 0 {
        let some = nodes.drop_last();
        assert forall|k: int| 0 <= k < some.len() implies i < #[trigger] some[k] < subtree_end(
            t,
            i,
        ) by {
            assert(some[k] == nodes[k]);
        }
        lemma_copied_references(t, i, u, j, some, source, context);
        assert(moved(nodes, j - i).drop_last() =~= moved(some, j - i));
        assert(i < nodes[nodes.len() - 1] < subtree_end(t, i));
        lemma_copied_candidate(t, i, u, j, nodes.last(), source);
    }
}

/// A copied function in the same scope has the same scope of its own and the same numbers of
/// arguments.
proof fn lemma_copied_signature(
    t: Seq<NodeView>,
    i: int,
    u: Seq<NodeView>,
    j: int,
    source: Seq<char>,
    kinds: Map<Seq<char>, Seq<char>>,
)
    requires
        is_copy(t, i, u, j),
        scope_of(u, j, source) == scope_of(t, i, source),
    ensures
        unit_scope(u, j, source, kinds) == unit_scope(t, i, source, kinds),
        takes_void(u, j, source) == takes_void(t, i, source),
        arity_of(u, declarator_of(u, j)) == arity_of(t, declarator_of(t, i)),
{
    let d = j - i;
    lemma_end(t, i);
    assert(u[j] == t[i]);
    lemma_copied_declarator(t, i, u, j);
    match written_name(t, i) {
        Some(at) => {
            assert(u[at + d] == t[at]);
            assert(node_text(u, at + d, source) == node_text(t, at, source));
        },
        None => {},
    }
    match parameters_of(t, declarator_of(t, i)) {
        Some(p) => {
            assert(u[p + d] == t[p]);
            assert(node_text(u, p + d, source) == node_text(t, p, source));
            lemma_copied_children(t, i, u, j, p, "type"@);
            let nodes = children_of(t, p);
            lemma_copied_of_kind(t, p, u, p + d, nodes, "parameter_declaration"@);
            lemma_copied_of_kind(t, p, u, p + d, nodes, "optional_parameter_declaration"@);
            lemma_copied_first_of_kind(t, p, u, p + d, nodes, "comment"@);
        },
        None => {},
    }
}

proof fn lemma_copied_name(
    t: Seq<NodeView>,
    i: int,
    u: Seq<NodeView>,
    j: int,
    source: Seq<char>,
)
    requires
        is_copy(t, i, u, j),
    ensures
        function_name(u, j, source) == function_name(t, i, source),
        field_of(u, j, "type"@) is None == field_of(t, i, "type"@) is None,
{
    let d = j - i;
    lemma_end(t, i);
    lemma_copied_children(t, i, u, j, i, "type"@);
    lemma_copied_children(t, i, u, j, i, "declarator"@);
    match field_of(t, i, "declarator"@) {
        Some(declarator) => {
            lemma_copied_naming_node(t, i, u, j, declarator);
            let at = naming_node(t, declarator);
            assert(u[at + d] == t[at]);
            assert(node_text(u, at + d, source) == node_text(t, at, source));
        },
        None => {},
    }
}

/// A copied function in the same scope makes the same references.
proof fn lemma_copied_references_of(
    t: Seq<NodeView>,
    i: int,
    u: Seq<NodeView>,
    j: int,
    source: Seq<char>,
    index: ScopeIndexView,
)
    requires
        preorder(t),
        is_copy(t, i, u, j),
        scope_of(u, j, source) == scope_of(t, i, source),
    ensures
        references_of(u, j, source, index) == references_of(t, i, source, index),
{
    let d = j - i;
    lemma_end(t, i);
    lemma_copied_declarator(t, i, u, j);
    lemma_copied_signature(t, i, u, j, source, index.kinds);
    lemma_copied_children(t, i, u, j, i, "body"@);
    match field_of(t, i, "body"@) {
        Some(body) => {
            lemma_copied_code(t, i, u, j, body);
            let code = code_nodes(t, i, body);
            let parameters = parameters_of(t, declarator_of(t, i));
            lemma_copied_sites(t, i, u, j, parameters, code);
            lemma_copied_locals(t, i, u, j, binding_sites(t, parameters, code), source);
            let context = context_of(t, i, body, source, index);
            assert(context_of(u, j, body + d, source, index) == context);
            lemma_copied_references(t, i, u, j, code, source, context);
        },
        None => {},
    }
}

/// A function whose subtree two trees have in common, and which stands in the same scope in both,
/// has the same unit in both.
pub proof fn law_copied_functions_have_one_unit(
    t: Seq<NodeView>,
    i: int,
    u: Seq<NodeView>,
    j: int,
    source: Seq<char>,
    index: ScopeIndexView,
    name: Seq<char>,
    line: int,
    end: int,
)
    requires
        preorder(t),
        is_copy(t, i, u, j),
        scope_of(u, j, source) == scope_of(t, i, source),
    ensures
        unit_of(u, j, source, index, name, line, end) == unit_of(
            t,
            i,
            source,
            index,
            name,
            line,
            end,
        ),
        function_name(u, j, source) == function_name(t, i, source),
{
    lemma_copied_signature(t, i, u, j, source, index.kinds);
    lemma_copied_name(t, i, u, j, source);
    lemma_copied_references_of(t, i, u, j, source, index);
}

} // verus!
