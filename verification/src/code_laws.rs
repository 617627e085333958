//! Which nodes are a function's own code, which names they bind and which references they make,
//! said of the kinds and the fields of nodes.
use vstd::prelude::*;
use crate::bodies::{
    all_nodes, binding_sites, binds_identifier, binds_locally, code_nodes, code_roots,
    is_local_import, is_nested_scope, of_kind, walked, walked_all,
};
use crate::declarators::bound_node;
use crate::laws::{is_own_node, law_distinct, law_walks};
use crate::lookup::ContextView;
use crate::metadata::ReferenceView;
use crate::name_laws::law_parts_join;
use crate::references::{
    call_reference, candidate_of, count_kind, default_reference, first_of_kind, initializer_of,
    parameters_of, reference_between, returned_reference, some_of_kind, type_around,
};
use crate::scopes::{declarator_of, ScopeIndexView};
use crate::syntax::{
    field_of, fields_of, lemma_selected_children, named_of, node_text, parent_of, preorder,
    subtree_end, NodeView,
};
use crate::text::{
    is_identifier, is_white_space, joined, name_parts, separator_at, trimmed_start, unprefixed,
};
use crate::text_laws::{
    has_colons_at, law_identifiers, law_trimmed_start, law_unprefixed,
};
use crate::tree_laws::{is_child, is_inside, law_fields, law_subtrees};
use crate::unit_laws::{lemma_prefixed, lemma_starts};
use crate::units::{context_of, distinct, references_at, references_of, unit_scope};

verus! {

// ---------------------------------------------------------------------------------------------
// Code

/// Whether node `k` is node `root` or inside of it.
pub open spec fn is_at(t: Seq<NodeView>, root: int, k: int) -> bool {
    k == root && 0 <= root < t.len() || is_inside(t, root, k)
}

/// A lambda, a function or a type.
pub open spec fn ends_a_walk(kind: Seq<char>) -> bool {
    kind == "lambda_expression"@ || kind == "function_definition"@ || kind == "class_specifier"@
        || kind == "struct_specifier"@ || kind == "union_specifier"@
}

/// Whether node `k` is at or in `root`, and no node from `root` down to `k` is a lambda, a function
/// or a type.
pub open spec fn is_reached(t: Seq<NodeView>, root: int, k: int) -> bool {
    &&& is_at(t, root, k)
    &&& forall|j: int| #[trigger]
        is_at(t, root, j) && is_at(t, j, k) ==> !ends_a_walk(t[j].kind)
}

/// Whether node `k` is of the own code of the function `i` with the body `body`: reached from the
/// body or from a named child that is a list of initializers.
pub open spec fn is_own_code(t: Seq<NodeView>, i: int, body: int, k: int) -> bool {
    ||| is_reached(t, body, k)
    ||| exists|root: int| #[trigger]
        is_child(t, i, root) && t[root].named && t[root].kind == "field_initializer_list"@
            && is_reached(t, root, k)
}

/// What is walked from a node is what is reached from it.
pub proof fn law_walks_reach(t: Seq<NodeView>, root: int, k: int)
    requires
        preorder(t),
        0 <= root < t.len(),
    ensures
        walked(t, root).contains(k) <==> is_reached(t, root, k),
{
    law_walks(t, root);
    law_subtrees(t, root, k);
    if is_own_node(t, root, k) {
        assert forall|j: int| #[trigger] is_at(t, root, j) && is_at(t, j, k) implies !ends_a_walk(
            t[j].kind,
        ) by {
            law_subtrees(t, j, k);
            if ends_a_walk(t[j].kind) {
                assert(is_nested_scope(t[j].kind));
            }
        }
    }
    if is_reached(t, root, k) {
        assert forall|j: int|
            root <= j <= k && is_nested_scope((#[trigger] t[j]).kind) implies subtree_end(t, j)
            <= k by {
            law_subtrees(t, root, j);
            law_subtrees(t, j, k);
            if subtree_end(t, j) > k {
                assert(is_at(t, root, j) && is_at(t, j, k));
            }
        }
    }
}

proof fn lemma_of_kind(t: Seq<NodeView>, nodes: Seq<int>, kind: Seq<char>, c: int)
    ensures
        of_kind(t, nodes, kind).contains(c) <==> nodes.contains(c) && t[c].kind == kind,
    decreases nodes.len(),
{
    if nodes.len() > 0 {
        let some = nodes.drop_last();
        lemma_of_kind(t, some, kind, c);
        lemma_appended(some, nodes.last(), c);
        assert(some.push(nodes.last()) =~= nodes);
        lemma_appended(of_kind(t, some, kind), nodes.last(), c);
    }
}

proof fn lemma_appended(nodes: Seq<int>, last: int, c: int)
    ensures
        nodes.push(last).contains(c) <==> c == last || nodes.contains(c),
{
    let all = nodes.push(last);
    assert(all[nodes.len() as int] == last);
    if nodes.contains(c) {
        let m = choose|m: int| 0 <= m < nodes.len() && nodes[m] == c;
        assert(all[m] == c);
    }
    if all.contains(c) && c != last {
        let m = choose|m: int| 0 <= m < all.len() && all[m] == c;
        assert(nodes[m] == c);
    }
}

proof fn lemma_walked_all(t: Seq<NodeView>, roots: Seq<int>, k: int)
    ensures
        walked_all(t, roots).contains(k) <==> exists|m: int|
            0 <= m < roots.len() && walked(t, #[trigger] roots[m]).contains(k),
    decreases roots.len(),
{
    let all = walked_all(t, roots);
    if roots.len() > 0 {
        let some = roots.drop_last();
        let last = roots[roots.len() - 1];
        lemma_walked_all(t, some, k);
        let before = walked_all(t, some);
        let more = walked(t, last);
        assert(all == before + more);
        if before.contains(k) {
            let a = choose|a: int| 0 <= a < before.len() && before[a] == k;
            assert(all[a] == k);
            let m = choose|m: int| 0 <= m < some.len() && walked(t, #[trigger] some[m]).contains(k);
            assert(roots[m] == some[m]);
        }
        if more.contains(k) {
            let a = choose|a: int| 0 <= a < more.len() && more[a] == k;
            assert(all[before.len() + a] == k);
            assert(walked(t, roots[roots.len() - 1]).contains(k));
        }
        if all.contains(k) {
            let a = choose|a: int| 0 <= a < all.len() && all[a] == k;
            if a < before.len() {
                assert(before[a] == k);
            } else {
                assert(more[a - before.len()] == k);
            }
        }
        if exists|m: int| 0 <= m < roots.len() && walked(t, #[trigger] roots[m]).contains(k) {
            let m = choose|m: int|
                0 <= m < roots.len() && walked(t, #[trigger] roots[m]).contains(k);
            if m < some.len() {
                assert(some[m] == roots[m]);
            }
        }
    }
}

/// Whether the code of a function is walked from node `root`.
spec fn is_code_root(t: Seq<NodeView>, i: int, body: int, root: int) -> bool {
    root == body || is_child(t, i, root) && t[root].named && t[root].kind
        == "field_initializer_list"@
}

proof fn lemma_code_roots(t: Seq<NodeView>, i: int, body: int, root: int)
    requires
        preorder(t),
        0 <= i < t.len(),
    ensures
        code_roots(t, i, body).contains(root) <==> is_code_root(t, i, body, root),
        code_roots(t, i, body)[0] == body,
{
    let kind = "field_initializer_list"@;
    let lists = of_kind(t, named_of(t, i), kind);
    let roots = code_roots(t, i, body);
    lemma_of_kind(t, named_of(t, i), kind, root);
    law_fields(t, i, kind, root);
    assert(roots[0] == body);
    if lists.contains(root) {
        let m = choose|m: int| 0 <= m < lists.len() && lists[m] == root;
        assert(roots[m + 1] == root);
    }
    if roots.contains(root) && root != body {
        let m = choose|m: int| 0 <= m < roots.len() && roots[m] == root;
        assert(lists[m - 1] == root);
    }
}

proof fn lemma_code(t: Seq<NodeView>, i: int, body: int, k: int)
    requires
        preorder(t),
        0 <= i < t.len(),
        0 <= body < t.len(),
    ensures
        code_nodes(t, i, body).contains(k) ==> is_own_code(t, i, body, k),
{
    let roots = code_roots(t, i, body);
    lemma_walked_all(t, roots, k);
    if code_nodes(t, i, body).contains(k) {
        let m = choose|m: int| 0 <= m < roots.len() && walked(t, #[trigger] roots[m]).contains(k);
        let root = roots[m];
        assert(roots.contains(root));
        lemma_code_roots(t, i, body, root);
        law_walks_reach(t, root, k);
    }
}

proof fn lemma_own_code(t: Seq<NodeView>, i: int, body: int, k: int, root: int)
    requires
        preorder(t),
        0 <= i < t.len(),
        0 <= root < t.len(),
        is_code_root(t, i, body, root),
        is_reached(t, root, k),
    ensures
        code_nodes(t, i, body).contains(k),
{
    let roots = code_roots(t, i, body);
    lemma_walked_all(t, roots, k);
    lemma_code_roots(t, i, body, root);
    law_walks_reach(t, root, k);
    let m = choose|m: int| 0 <= m < roots.len() && roots[m] == root;
    assert(walked(t, roots[m]).contains(k));
}

/// The code of a function is its own code. What its body holds comes first.
pub proof fn law_code(t: Seq<NodeView>, i: int, body: int, k: int)
    requires
        preorder(t),
        0 <= i < t.len(),
        0 <= body < t.len(),
    ensures
        code_nodes(t, i, body).contains(k) <==> is_own_code(t, i, body, k),
        code_nodes(t, i, body).len() >= walked(t, body).len(),
        code_nodes(t, i, body).take(walked(t, body).len() as int) == walked(t, body),
{
    lemma_code(t, i, body, k);
    lemma_code_roots(t, i, body, body);
    lemma_starts_with(t, code_roots(t, i, body));
    if is_reached(t, body, k) {
        lemma_own_code(t, i, body, k, body);
    } else if is_own_code(t, i, body, k) {
        let root = choose|root: int| #[trigger]
            is_child(t, i, root) && t[root].named && t[root].kind == "field_initializer_list"@
                && is_reached(t, root, k);
        lemma_own_code(t, i, body, k, root);
    }
}

proof fn lemma_starts_with(t: Seq<NodeView>, roots: Seq<int>)
    requires
        roots.len() > 0,
    ensures
        walked_all(t, roots).len() >= walked(t, roots[0]).len(),
        walked_all(t, roots).take(walked(t, roots[0]).len() as int) == walked(t, roots[0]),
    decreases roots.len(),
{
    let n = walked(t, roots[0]).len() as int;
    let all = walked_all(t, roots);
    if roots.len() == 1 {
        assert(roots.drop_last() =~= Seq::<int>::empty());
        assert(walked_all(t, roots.drop_last()) == Seq::<int>::empty());
        assert(all == walked_all(t, roots.drop_last()) + walked(t, roots.last()));
        assert(all =~= walked(t, roots[0]));
        assert(all.take(n) =~= walked(t, roots[0]));
    } else {
        let some = roots.drop_last();
        assert(some[0] == roots[0]);
        lemma_starts_with(t, some);
        assert(all.take(n) =~= walked_all(t, some).take(n));
    }
}

// ---------------------------------------------------------------------------------------------
// Local names

/// Whether node `k` may bind a local name of the function `i`: it is of its own code, or at or in
/// its list of parameters.
pub open spec fn may_bind(t: Seq<NodeView>, i: int, body: int, k: int) -> bool {
    ||| is_own_code(t, i, body, k)
    ||| parameters_of(t, declarator_of(t, i)) matches Some(p) && is_at(t, p, k)
}

/// Whether node `k` declares `name` by a declarator that binds an identifier of that text.
pub open spec fn declares_locally(
    t: Seq<NodeView>,
    k: int,
    source: Seq<char>,
    name: Seq<char>,
) -> bool {
    &&& t[k].kind == "parameter_declaration"@ || t[k].kind == "optional_parameter_declaration"@
        || t[k].kind == "init_declarator"@ || t[k].kind == "declaration"@
    &&& exists|d: int| #[trigger]
        is_child(t, k, d) && t[d].field == Some("declarator"@) && t[bound_node(t, d)].kind
            == "identifier"@ && node_text(t, bound_node(t, d), source) == name
}

/// The local names of a function are those that its parameters and its own code declare, and it
/// imports names where one of these nodes is a using declaration, an alias or a type definition.
/// Its references are looked up in its own scope and in the index.
pub proof fn law_local_names(
    t: Seq<NodeView>,
    i: int,
    body: int,
    source: Seq<char>,
    index: ScopeIndexView,
    name: Seq<char>,
)
    requires
        preorder(t),
        0 <= i < t.len(),
        0 <= body < t.len(),
        parameters_of(t, declarator_of(t, i)) matches Some(p) ==> 0 <= p < t.len(),
    ensures
        context_of(t, i, body, source, index).scope == unit_scope(t, i, source, index.kinds),
        context_of(t, i, body, source, index).index == index,
        context_of(t, i, body, source, index).locals.contains(name) <==> exists|k: int|
            #![trigger may_bind(t, i, body, k)]
            may_bind(t, i, body, k) && declares_locally(t, k, source, name),
        context_of(t, i, body, source, index).imports <==> exists|k: int| #[trigger]
            may_bind(t, i, body, k) && (t[k].kind == "using_declaration"@ || t[k].kind
                == "alias_declaration"@ || t[k].kind == "type_definition"@),
{
    let parameters = parameters_of(t, declarator_of(t, i));
    let code = code_nodes(t, i, body);
    let sites = binding_sites(t, parameters, code);
    let context = context_of(t, i, body, source, index);
    assert forall|k: int| #[trigger] sites.contains(k) <==> may_bind(t, i, body, k) by {
        lemma_sites(t, i, body, k);
    }
    if context.locals.contains(name) {
        let m = choose|m: int|
            0 <= m < sites.len() && binds_locally(t, #[trigger] sites[m], source, name);
        let k = sites[m];
        assert(sites.contains(k));
        lemma_may_bind(t, i, body, k);
        lemma_declares(t, k, source, name);
        assert(may_bind(t, i, body, k) && declares_locally(t, k, source, name));
    }
    if exists|k: int|
        #![trigger may_bind(t, i, body, k)]
        may_bind(t, i, body, k) && declares_locally(t, k, source, name) {
        let k = choose|k: int|
            #![trigger may_bind(t, i, body, k)]
            may_bind(t, i, body, k) && declares_locally(t, k, source, name);
        lemma_may_bind(t, i, body, k);
        lemma_declares(t, k, source, name);
        assert(sites.contains(k));
        let m = choose|m: int| 0 <= m < sites.len() && sites[m] == k;
        assert(binds_locally(t, sites[m], source, name));
    }
    if context.imports {
        let m = choose|m: int|
            0 <= m < sites.len() && is_local_import(t[#[trigger] sites[m]].kind);
        assert(sites.contains(sites[m]));
        assert(may_bind(t, i, body, sites[m]));
    }
    if exists|k: int| #[trigger]
        may_bind(t, i, body, k) && (t[k].kind == "using_declaration"@ || t[k].kind
            == "alias_declaration"@ || t[k].kind == "type_definition"@) {
        let k = choose|k: int| #[trigger]
            may_bind(t, i, body, k) && (t[k].kind == "using_declaration"@ || t[k].kind
                == "alias_declaration"@ || t[k].kind == "type_definition"@);
        assert(sites.contains(k));
        let m = choose|m: int| 0 <= m < sites.len() && sites[m] == k;
        assert(is_local_import(t[sites[m]].kind));
    }
}

proof fn lemma_may_bind(t: Seq<NodeView>, i: int, body: int, k: int)
    requires
        may_bind(t, i, body, k),
    ensures
        0 <= k < t.len(),
{
    if is_own_code(t, i, body, k) && !is_reached(t, body, k) {
        let root = choose|root: int| #[trigger]
            is_child(t, i, root) && t[root].named && t[root].kind == "field_initializer_list"@
                && is_reached(t, root, k);
        assert(is_at(t, root, k));
    }
}

proof fn lemma_sites(t: Seq<NodeView>, i: int, body: int, k: int)
    requires
        preorder(t),
        0 <= i < t.len(),
        0 <= body < t.len(),
        parameters_of(t, declarator_of(t, i)) matches Some(p) ==> 0 <= p < t.len(),
    ensures
        binding_sites(
            t,
            parameters_of(t, declarator_of(t, i)),
            code_nodes(t, i, body),
        ).contains(k) <==> may_bind(t, i, body, k),
{
    law_code(t, i, body, k);
    let code = code_nodes(t, i, body);
    match parameters_of(t, declarator_of(t, i)) {
        Some(p) => {
            law_subtrees(t, p, k);
            let inside = all_nodes(p, subtree_end(t, p));
            let sites = inside + code;
            if is_at(t, p, k) {
                assert(sites[k - p] == k);
            }
            if code.contains(k) {
                let m = choose|m: int| 0 <= m < code.len() && code[m] == k;
                assert(sites[inside.len() + m] == k);
            }
            if sites.contains(k) {
                let m = choose|m: int| 0 <= m < sites.len() && sites[m] == k;
                if m < inside.len() {
                    assert(k == p + m);
                } else {
                    assert(code[m - inside.len()] == k);
                }
            }
        },
        None => {},
    }
}

proof fn lemma_declares(t: Seq<NodeView>, k: int, source: Seq<char>, name: Seq<char>)
    requires
        preorder(t),
        0 <= k < t.len(),
    ensures
        binds_locally(t, k, source, name) <==> declares_locally(t, k, source, name),
{
    let nodes = fields_of(t, k, "declarator"@);
    if binds_identifier(t, nodes, source, name) {
        let m = choose|m: int|
            0 <= m < nodes.len() && t[bound_node(t, #[trigger] nodes[m])].kind == "identifier"@
                && node_text(t, bound_node(t, nodes[m]), source) == name;
        law_fields(t, k, "declarator"@, nodes[m]);
        assert(nodes.contains(nodes[m]));
        assert(is_child(t, k, nodes[m]));
    }
    if declares_locally(t, k, source, name) {
        let d = choose|d: int| #[trigger]
            is_child(t, k, d) && t[d].field == Some("declarator"@) && t[bound_node(t, d)].kind
                == "identifier"@ && node_text(t, bound_node(t, d), source) == name;
        law_fields(t, k, "declarator"@, d);
        let m = choose|m: int| 0 <= m < nodes.len() && nodes[m] == d;
        assert(t[bound_node(t, nodes[m])].kind == "identifier"@);
    }
}

// ---------------------------------------------------------------------------------------------
// References

/// The number of arguments in the list `i`: its children that are named and no comments.
pub open spec fn argument_nodes(t: Seq<NodeView>, i: int) -> nat {
    named_of(t, i).filter(|c: int| t[c].kind != "comment"@).len()
}

proof fn lemma_arguments(t: Seq<NodeView>, nodes: Seq<int>)
    ensures
        nodes.len() - count_kind(t, nodes, "comment"@) == nodes.filter(
            |c: int| t[c].kind != "comment"@,
        ).len(),
    decreases nodes.len(),
{
    reveal(Seq::filter);
    if nodes.len() > 0 {
        lemma_arguments(t, nodes.drop_last());
    }
}

/// Whether `r` refers to what the text `written` names: its last part, under the parts before it. A
/// name that starts with `::` has an empty part before all others.
pub open spec fn refers_to(r: ReferenceView, written: Seq<char>) -> bool {
    &&& name_parts(unprefixed(written)) matches Some(names) && names.len() > 0 && r.name
        == names[names.len() - 1] && r.qualifier == if has_colons_at(trimmed_start(written), 0) {
        seq![Seq::<char>::empty()] + names.take(names.len() - 1)
    } else {
        names.take(names.len() - 1)
    }
}

/// Whether `r` says whether its name is qualified.
pub open spec fn tells_qualifier(r: ReferenceView) -> bool {
    &&& r.qualifier.len() == 0 ==> r.qualification == "unqualified"@
    &&& r.qualifier.len() > 0 ==> r.qualification == "qualified"@
}

/// Whether the call `k` makes the reference `r`: to the function that is called, or to the member
/// that is called, which is known only on `this`.
pub open spec fn calls(t: Seq<NodeView>, k: int, source: Seq<char>, r: ReferenceView) -> bool {
    &&& field_of(t, k, "function"@) is Some && field_of(t, k, "arguments"@) is Some
    &&& r.kind == "call"@
    &&& r.arguments == argument_nodes(t, field_of(t, k, "arguments"@)->0)
    &&& {
        let f = field_of(t, k, "function"@)->0;
        if t[f].kind == "field_expression"@ {
            &&& field_of(t, f, "field"@) matches Some(m) && refers_to(r, node_text(t, m, source))
            &&& if field_of(t, f, "argument"@) matches Some(a) && t[a].kind == "this"@ {
                r.qualification == "this"@
            } else {
                r.qualification == "unknown"@
            }
        } else {
            refers_to(r, node_text(t, f, source)) && tells_qualifier(r)
        }
    }
}

/// Whether `r` constructs the type that node `named` names, with `count` arguments.
pub open spec fn constructs(
    t: Seq<NodeView>,
    named: Option<int>,
    count: int,
    source: Seq<char>,
    r: ReferenceView,
) -> bool {
    &&& named is Some && refers_to(r, node_text(t, named->0, source))
    &&& r.kind == "construct"@
    &&& r.arguments == count
    &&& tells_qualifier(r)
}

/// Whether node `c` is the first named child of node `k` that is a list of initializers.
pub open spec fn is_first_list(t: Seq<NodeView>, k: int, c: int) -> bool {
    &&& is_child(t, k, c) && t[c].named && t[c].kind == "initializer_list"@
    &&& forall|b: int|
        b < c && #[trigger] is_child(t, k, b) && t[b].named ==> t[b].kind != "initializer_list"@
}

/// Whether node `k` in the code of `function` makes the reference `r`: a call; a type with a braced
/// list of values; a declarator with a list of values, of the type of its declaration; a
/// declaration of a plain name, of its type; or the return of a braced list, of the type of the
/// function.
pub open spec fn makes(
    t: Seq<NodeView>,
    function: int,
    k: int,
    source: Seq<char>,
    r: ReferenceView,
) -> bool {
    ||| t[k].kind == "call_expression"@ && calls(t, k, source, r)
    ||| {
        &&& t[k].kind == "compound_literal_expression"@
        &&& field_of(t, k, "value"@) matches Some(values) && constructs(
            t,
            field_of(t, k, "type"@),
            argument_nodes(t, values) as int,
            source,
            r,
        )
    }
    ||| {
        &&& t[k].kind == "init_declarator"@
        &&& field_of(t, k, "value"@) matches Some(values) && (t[values].kind
            == "initializer_list"@ || t[values].kind == "argument_list"@) && (parent_of(t, k)
            matches Some(p) && constructs(
            t,
            field_of(t, p, "type"@),
            argument_nodes(t, values) as int,
            source,
            r,
        ))
    }
    ||| {
        &&& t[k].kind == "declaration"@
        &&& exists|d: int| #[trigger]
            is_child(t, k, d) && t[d].field == Some("declarator"@) && t[d].kind == "identifier"@
        &&& constructs(t, field_of(t, k, "type"@), 0, source, r)
    }
    ||| {
        &&& t[k].kind == "return_statement"@
        &&& exists|c: int| #[trigger]
            is_first_list(t, k, c) && constructs(
                t,
                field_of(t, function, "type"@),
                argument_nodes(t, c) as int,
                source,
                r,
            )
    }
}

proof fn lemma_reference_between(
    t: Seq<NodeView>,
    name: Option<int>,
    args: Option<int>,
    kind: Seq<char>,
    source: Seq<char>,
    r: ReferenceView,
)
    ensures
        reference_between(t, name, args, kind, source) == Some(r) <==> {
            &&& name is Some && args is Some
            &&& refers_to(r, node_text(t, name->0, source))
            &&& r.kind == kind
            &&& r.arguments == argument_nodes(t, args->0)
            &&& tells_qualifier(r)
        },
        reference_between(t, name, args, kind, source) matches Some(found) ==> refers_to(
            found,
            node_text(t, name->0, source),
        ),
{
    if name is Some && args is Some {
        let written = node_text(t, name->0, source);
        lemma_arguments(t, named_of(t, args->0));
        lemma_parts(unprefixed(written));
        match name_parts(unprefixed(written)) {
            Some(names) => {
                assert(names.drop_last() =~= names.take(names.len() - 1));
                assert(separator_at(trimmed_start(written), 0) == has_colons_at(
                    trimmed_start(written),
                    0,
                ));
            },
            None => {},
        }
    }
}

/// A name that has parts has some.
proof fn lemma_parts(s: Seq<char>)
    ensures
        name_parts(s) matches Some(names) ==> names.len() > 0,
{
    if name_parts(s) is Some {
        law_parts_join(s);
    }
}

proof fn lemma_calls(t: Seq<NodeView>, k: int, source: Seq<char>, r: ReferenceView)
    ensures
        call_reference(t, k, source) == Some(r) <==> calls(t, k, source, r),
{
    let args = field_of(t, k, "arguments"@);
    match field_of(t, k, "function"@) {
        Some(f) => {
            let call = "call"@;
            lemma_reference_between(t, Some(f), args, call, source, r);
            let member = field_of(t, f, "field"@);
            let plain = ReferenceView {
                qualification: if r.qualifier.len() == 0 {
                    "unqualified"@
                } else {
                    "qualified"@
                },
                ..r
            };
            lemma_reference_between(t, member, args, call, source, plain);
            if t[f].kind == "field_expression"@ {
                match reference_between(t, member, args, call, source) {
                    Some(found) => {
                        lemma_reference_between(t, member, args, call, source, found);
                    },
                    None => {},
                }
            }
        },
        None => {},
    }
}

proof fn lemma_first_list(t: Seq<NodeView>, nodes: Seq<int>, kind: Seq<char>)
    requires
        forall|a: int, b: int|
            0 <= a < b < nodes.len() ==> (#[trigger] nodes[a]) < #[trigger] nodes[b],
    ensures
        first_of_kind(t, nodes, kind) matches Some(c) ==> nodes.contains(c) && t[c].kind == kind,
        forall|c: int| #[trigger]
            nodes.contains(c) && t[c].kind == kind ==> (first_of_kind(t, nodes, kind) matches Some(
                first,
            ) && first <= c),
    decreases nodes.len(),
{
    if nodes.len() > 0 {
        let rest = nodes.drop_first();
        assert forall|a: int, b: int| 0 <= a < b < rest.len() implies (#[trigger] rest[a])
            < #[trigger] rest[b] by {
            assert(nodes[a + 1] < nodes[b + 1]);
        }
        lemma_first_list(t, rest, kind);
        assert(nodes.contains(nodes[0]));
        match first_of_kind(t, rest, kind) {
            Some(c) => {
                let m = choose|m: int| 0 <= m < rest.len() && rest[m] == c;
                assert(nodes[m + 1] == c);
            },
            None => {},
        }
        assert forall|c: int| #[trigger] nodes.contains(c) && t[c].kind == kind implies (
        first_of_kind(t, nodes, kind) matches Some(first) && first <= c) by {
            let m = choose|m: int| 0 <= m < nodes.len() && nodes[m] == c;
            if m > 0 {
                assert(rest[m - 1] == c);
                assert(rest.contains(c));
                assert(nodes[0] < nodes[m]);
            }
        }
    }
}

proof fn lemma_returned(
    t: Seq<NodeView>,
    function: int,
    k: int,
    source: Seq<char>,
    r: ReferenceView,
)
    requires
        preorder(t),
        0 <= k < t.len(),
    ensures
        returned_reference(t, function, k, source) == Some(r) <==> exists|c: int| #[trigger]
            is_first_list(t, k, c) && constructs(
                t,
                field_of(t, function, "type"@),
                argument_nodes(t, c) as int,
                source,
                r,
            ),
{
    let list = "initializer_list"@;
    let named = named_of(t, k);
    law_fields(t, k, list, k);
    lemma_first_list(t, named, list);
    let first = first_of_kind(t, named, list);
    let made = field_of(t, function, "type"@);
    lemma_reference_between(t, made, first, "construct"@, source, r);
    match first {
        Some(c) => {
            law_fields(t, k, list, c);
            assert forall|b: int| b < c && #[trigger] is_child(t, k, b) && t[b].named implies
                t[b].kind != list by {
                law_fields(t, k, list, b);
            }
            assert(is_first_list(t, k, c));
        },
        None => {},
    }
    assert forall|c: int| #[trigger] is_first_list(t, k, c) implies first == Some(c) by {
        law_fields(t, k, list, c);
        assert(named.contains(c));
        let f = first->0;
        law_fields(t, k, list, f);
        assert(is_child(t, k, f));
    }
}

proof fn lemma_default(t: Seq<NodeView>, k: int, source: Seq<char>, r: ReferenceView)
    requires
        preorder(t),
        0 <= k < t.len(),
    ensures
        default_reference(t, k, source) == Some(r) <==> (exists|d: int| #[trigger]
            is_child(t, k, d) && t[d].field == Some("declarator"@) && t[d].kind == "identifier"@)
            && constructs(t, field_of(t, k, "type"@), 0, source, r),
{
    let nodes = fields_of(t, k, "declarator"@);
    let kind = "identifier"@;
    if some_of_kind(t, nodes, kind) {
        let m = choose|m: int| 0 <= m < nodes.len() && t[#[trigger] nodes[m]].kind == kind;
        law_fields(t, k, "declarator"@, nodes[m]);
        assert(nodes.contains(nodes[m]));
        assert(is_child(t, k, nodes[m]));
    }
    if exists|d: int| #[trigger]
        is_child(t, k, d) && t[d].field == Some("declarator"@) && t[d].kind == "identifier"@ {
        let d = choose|d: int| #[trigger]
            is_child(t, k, d) && t[d].field == Some("declarator"@) && t[d].kind == "identifier"@;
        law_fields(t, k, "declarator"@, d);
        let m = choose|m: int| 0 <= m < nodes.len() && nodes[m] == d;
        assert(t[nodes[m]].kind == kind);
    }
    let made = field_of(t, k, "type"@);
    let full = ReferenceView { arguments: argument_nodes(t, k) as int, ..r };
    lemma_reference_between(t, made, Some(k), "construct"@, source, full);
    match reference_between(t, made, Some(k), "construct"@, source) {
        Some(found) => {
            lemma_reference_between(t, made, Some(k), "construct"@, source, found);
        },
        None => {},
    }
}

/// The reference that a node makes is the one that its kind and its fields say.
pub proof fn law_references_of_nodes(
    t: Seq<NodeView>,
    function: int,
    k: int,
    source: Seq<char>,
    r: ReferenceView,
)
    requires
        preorder(t),
        0 <= k < t.len(),
    ensures
        candidate_of(t, function, k, source) == Some(r) <==> makes(t, function, k, source, r),
{
    reveal_strlit("call_expression");
    reveal_strlit("compound_literal_expression");
    reveal_strlit("init_declarator");
    reveal_strlit("declaration");
    reveal_strlit("return_statement");
    assert("call_expression"@.len() == 15 && "compound_literal_expression"@.len() == 27);
    assert("init_declarator"@.len() == 15 && "declaration"@.len() == 11);
    assert("return_statement"@.len() == 16);
    assert("call_expression"@[0] == 'c' && "init_declarator"@[0] == 'i');
    lemma_calls(t, k, source, r);
    lemma_returned(t, function, k, source, r);
    lemma_default(t, k, source, r);
    let made = "construct"@;
    lemma_reference_between(t, field_of(t, k, "type"@), field_of(t, k, "value"@), made, source, r);
    lemma_reference_between(t, type_around(t, k), initializer_of(t, k), made, source, r);
}

/// The references at more nodes are those at some and what one more node makes, resolved; and of
/// equal ones only the first is listed.
pub proof fn law_references_in_order(
    t: Seq<NodeView>,
    function: int,
    nodes: Seq<int>,
    k: int,
    source: Seq<char>,
    context: ContextView,
    all: Seq<ReferenceView>,
    r: ReferenceView,
)
    requires
        preorder(t),
        0 <= k < t.len(),
    ensures
        references_at(t, function, Seq::empty(), source, context) == Seq::<ReferenceView>::empty(),
        makes(t, function, k, source, r) ==> references_at(
            t,
            function,
            nodes.push(k),
            source,
            context,
        ) == references_at(t, function, nodes, source, context).push(context.resolved(r)),
        (forall|other: ReferenceView| !#[trigger] makes(t, function, k, source, other))
            ==> references_at(t, function, nodes.push(k), source, context) == references_at(
            t,
            function,
            nodes,
            source,
            context,
        ),
        distinct(Seq::empty()) == Seq::<ReferenceView>::empty(),
        all.contains(r) ==> distinct(all.push(r)) == distinct(all),
        !all.contains(r) ==> distinct(all.push(r)) == distinct(all).push(r),
{
    law_references_of_nodes(t, function, k, source, r);
    assert(nodes.push(k).drop_last() =~= nodes);
    if forall|other: ReferenceView| !#[trigger] makes(t, function, k, source, other) {
        match candidate_of(t, function, k, source) {
            Some(found) => {
                law_references_of_nodes(t, function, k, source, found);
            },
            None => {},
        }
    }
    law_distinct(all);
    assert(all.push(r).drop_last() =~= all);
}

proof fn lemma_made(
    t: Seq<NodeView>,
    function: int,
    nodes: Seq<int>,
    source: Seq<char>,
    context: ContextView,
    r: ReferenceView,
)
    requires
        preorder(t),
        forall|m: int| 0 <= m < nodes.len() ==> 0 <= #[trigger] nodes[m] < t.len(),
    ensures
        references_at(t, function, nodes, source, context).contains(r) <==> exists|
            k: int,
            found: ReferenceView,
        |
            nodes.contains(k) && #[trigger] makes(t, function, k, source, found) && r
                == context.resolved(found),
    decreases nodes.len(),
{
    let all = references_at(t, function, nodes, source, context);
    if nodes.len() > 0 {
        let some = nodes.drop_last();
        let last = nodes[nodes.len() - 1];
        assert forall|m: int| 0 <= m < some.len() implies 0 <= #[trigger] some[m] < t.len() by {
            assert(some[m] == nodes[m]);
        }
        lemma_made(t, function, some, source, context, r);
        let before = references_at(t, function, some, source, context);
        assert forall|k: int| #[trigger] nodes.contains(k) <==> k == last || some.contains(k) by {
            lemma_appended(some, last, k);
            assert(some.push(last) =~= nodes);
        }
        assert forall|found: ReferenceView| #[trigger]
            makes(t, function, last, source, found) <==> candidate_of(t, function, last, source)
                == Some(found) by {
            law_references_of_nodes(t, function, last, source, found);
        }
        match candidate_of(t, function, last, source) {
            Some(found) => {
                assert(all == before.push(context.resolved(found)));
                assert(makes(t, function, last, source, found));
                assert(all.contains(r) <==> r == context.resolved(found) || before.contains(r))
                    by {
                    assert(all[before.len() as int] == context.resolved(found));
                    if before.contains(r) {
                        let m = choose|m: int| 0 <= m < before.len() && before[m] == r;
                        assert(all[m] == r);
                    }
                    if all.contains(r) {
                        let m = choose|m: int| 0 <= m < all.len() && all[m] == r;
                        if m < before.len() {
                            assert(before[m] == r);
                        }
                    }
                }
            },
            None => {
                assert(all == before);
            },
        }
    } else {
        assert(all == Seq::<ReferenceView>::empty());
    }
}

/// The references of a function are exactly those that its own code makes, resolved in its context,
/// each once and in the order of the code.
pub proof fn law_references_are_complete(
    t: Seq<NodeView>,
    i: int,
    source: Seq<char>,
    index: ScopeIndexView,
    body: int,
    r: ReferenceView,
)
    requires
        preorder(t),
        0 <= i < t.len(),
        field_of(t, i, "body"@) == Some(body),
    ensures
        references_of(t, i, source, index).contains(r) <==> exists|k: int, found: ReferenceView|
            is_own_code(t, i, body, k) && #[trigger] makes(t, i, k, source, found) && r
                == context_of(t, i, body, source, index).resolved(found),
        references_of(t, i, source, index).no_duplicates(),
        references_of(t, i, source, index) == distinct(
            references_at(
                t,
                i,
                code_nodes(t, i, body),
                source,
                context_of(t, i, body, source, index),
            ),
        ),
{
    lemma_selected_children(t, i, "body"@);
    let code = code_nodes(t, i, body);
    let context = context_of(t, i, body, source, index);
    assert forall|k: int| #[trigger] code.contains(k) <==> is_own_code(t, i, body, k) by {
        law_code(t, i, body, k);
    }
    assert forall|m: int| 0 <= m < code.len() implies 0 <= #[trigger] code[m] < t.len() by {
        assert(code.contains(code[m]));
        assert(may_bind(t, i, body, code[m]));
        lemma_may_bind(t, i, body, code[m]);
    }
    lemma_made(t, i, code, source, context, r);
    law_distinct(references_at(t, i, code, source, context));
    if exists|k: int, found: ReferenceView|
        code.contains(k) && #[trigger] makes(t, i, k, source, found) && r == context.resolved(
            found,
        ) {
        let (k, found) = choose|k: int, found: ReferenceView|
            code.contains(k) && #[trigger] makes(t, i, k, source, found) && r
                == context.resolved(found);
        assert(is_own_code(t, i, body, k) && makes(t, i, k, source, found));
    }
    if exists|k: int, found: ReferenceView|
        is_own_code(t, i, body, k) && #[trigger] makes(t, i, k, source, found) && r
            == context.resolved(found) {
        let (k, found) = choose|k: int, found: ReferenceView|
            is_own_code(t, i, body, k) && #[trigger] makes(t, i, k, source, found) && r
                == context.resolved(found);
        assert(code.contains(k) && makes(t, i, k, source, found));
    }
}

/// A function without a body makes no references.
pub proof fn law_no_body_no_references(
    t: Seq<NodeView>,
    i: int,
    source: Seq<char>,
    index: ScopeIndexView,
)
    requires
        field_of(t, i, "body"@) is None,
    ensures
        references_of(t, i, source, index).len() == 0,
{
}

/// Every call of a plain name in the own code of a function, whatever stands around it, is among
/// the references of its unit, with the name and the number of arguments.
pub proof fn law_plain_calls_are_references(
    t: Seq<NodeView>,
    i: int,
    source: Seq<char>,
    index: ScopeIndexView,
    body: int,
    k: int,
    f: int,
    arguments: int,
    names: Seq<Seq<char>>,
)
    requires
        preorder(t),
        0 <= i < t.len(),
        field_of(t, i, "body"@) == Some(body),
        is_at(t, body, k),
        forall|j: int| #[trigger]
            is_at(t, body, j) && is_at(t, j, k) ==> t[j].kind != "lambda_expression"@ && t[j].kind
                != "function_definition"@ && t[j].kind != "class_specifier"@ && t[j].kind
                != "struct_specifier"@ && t[j].kind != "union_specifier"@,
        t[k].kind == "call_expression"@,
        field_of(t, k, "function"@) == Some(f),
        t[f].kind != "field_expression"@,
        field_of(t, k, "arguments"@) == Some(arguments),
        names.len() > 0,
        forall|m: int| 0 <= m < names.len() ==> is_identifier(#[trigger] names[m]),
        node_text(t, f, source) == joined(names),
    ensures
        exists|r: ReferenceView| #[trigger]
            references_of(t, i, source, index).contains(r) && r.kind == "call"@ && r.name
                == names[names.len() - 1] && r.qualifier == names.take(names.len() - 1)
                && r.arguments == argument_nodes(t, arguments) && (r.qualification == "unknown"@
                || r.qualification == if names.len() == 1 {
                "unqualified"@
            } else {
                "qualified"@
            }),
{
    let written = joined(names);
    lemma_prefixed(names);
    law_unprefixed(written);
    law_trimmed_start(written);
    let outer = names.take(names.len() - 1);
    let found = ReferenceView {
        kind: "call"@,
        name: names[names.len() - 1],
        qualification: if names.len() == 1 {
            "unqualified"@
        } else {
            "qualified"@
        },
        qualifier: outer,
        arguments: argument_nodes(t, arguments) as int,
    };
    assert(!has_colons_at(trimmed_start(written), 0)) by {
        assert(is_identifier(names[0]));
        lemma_starts(names);
        law_identifiers(names[0]);
        let from = written.len() - trimmed_start(written).len();
        if from > 0 {
            assert(is_white_space(written[0]));
            assert(!is_white_space(names[0][0]));
        }
        assert(written.skip(0) =~= written);
    }
    assert(refers_to(found, written));
    assert(calls(t, k, source, found));
    assert(makes(t, i, k, source, found));
    assert(is_reached(t, body, k));
    let r = context_of(t, i, body, source, index).resolved(found);
    law_references_are_complete(t, i, source, index, body, r);
    assert(references_of(t, i, source, index).contains(r));
}

} // verus!
