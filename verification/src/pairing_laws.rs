//! What holds of two trees that differ only in the signatures of some functions.
use vstd::prelude::*;
use crate::declarators::{bound_name, bound_node};
use crate::extraction::{is_accepted, is_function};
use crate::laws::functions_before;
use crate::metadata::{container_kind, declared_parts, opened_scopes, scope_of};
use crate::scopes::{
    binds, blocked_before, declares, declares_in, has_declarators, imports_in, in_callable,
    index_of, is_alias, kinds_before, uncertain_before,
};
use crate::subtree_laws::is_copy;
use crate::syntax::{
    children_of, field_of, fields_of, in_field, lemma_children, lemma_end, lemma_in_field,
    lemma_named_in, lemma_parent_is, named_in, named_of, node_text, parent_of, preorder,
    siblings_from, subtree_end, NodeView,
};

verus! {

/// A node that holds a name: it fills the field of a name or is some identifier.
pub open spec fn is_name(node: NodeView) -> bool {
    node.field == Some("name"@) || node.kind == "identifier"@ || node.kind == "field_identifier"@
        || node.kind == "type_identifier"@
}

/// A node that opens a scope, or a template declaration.
pub open spec fn is_head(node: NodeView) -> bool {
    container_kind(node.kind) is Some || node.kind == "template_declaration"@
}

/// Whether node `i` is inside a function and is neither a function nor opens a scope.
pub open spec fn is_detail(t: Seq<NodeView>, i: int) -> bool {
    in_callable(t, i) && !is_function(t, i) && container_kind(t[i].kind) is None
}

/// The partners of the nodes `nodes`.
pub open spec fn partners(pairs: Map<int, int>, nodes: Seq<int>) -> Seq<int> {
    nodes.map_values(|i: int| pairs[i])
}

/// The partner of an optional node.
pub open spec fn partner(pairs: Map<int, int>, node: Option<int>) -> Option<int> {
    match node {
        Some(i) => Some(pairs[i]),
        None => None,
    }
}

/// Whether all of `nodes` have a partner.
pub open spec fn have_partners(pairs: Map<int, int>, nodes: Seq<int>) -> bool {
    forall|k: int| 0 <= k < nodes.len() ==> pairs.contains_key(#[trigger] nodes[k])
}

/// Whether node `i` and its partner are alike: they have the same kind and fill the same field of
/// partners; unless they are functions their children are partners; names, scopes and template
/// declarations stand at the same place; and functions end at the same place. A function that is
/// accepted as it stands has the same subtree as its partner, and no function is a declarator.
pub open spec fn is_pair(
    t: Seq<NodeView>,
    u: Seq<NodeView>,
    pairs: Map<int, int>,
    i: int,
) -> bool {
    let j = pairs[i];
    &&& 0 <= i < t.len()
    &&& 0 <= j < u.len()
    &&& t[i].kind == u[j].kind
    &&& t[i].field == u[j].field
    &&& t[i].named == u[j].named
    &&& i > 0 ==> (parent_of(t, i) matches Some(p) && 0 <= p < i && pairs.contains_key(p)
        && parent_of(u, j) == Some(pairs[p]))
    &&& !is_function(t, i) ==> have_partners(pairs, children_of(t, i)) && children_of(u, j)
        == partners(pairs, children_of(t, i))
    &&& is_name(t[i]) ==> t[i].start_byte == u[j].start_byte && t[i].end_byte == u[j].end_byte
    &&& is_head(t[i]) ==> t[i].start_byte == u[j].start_byte
    &&& is_function(t, i) ==> {
        &&& t[i].end_byte == u[j].end_byte
        &&& t[i].field is None
        &&& parent_of(t, i) matches Some(p) ==> t[p].kind != "parenthesized_declarator"@
        &&& is_accepted(t, i) ==> is_copy(t, i, u, j)
    }
}

/// Whether node `j` is the partner of some node.
pub open spec fn is_partner(pairs: Map<int, int>, j: int) -> bool {
    exists|i: int| #[trigger] pairs.contains_key(i) && pairs[i] == j
}

/// Whether `pairs` pairs the nodes of two trees, in order and from the root on, so that the trees
/// differ only inside of functions: what has no partner is neither a function nor a scope.
pub open spec fn is_pairing(t: Seq<NodeView>, u: Seq<NodeView>, pairs: Map<int, int>) -> bool {
    &&& preorder(t)
    &&& pairs.contains_key(0) && pairs[0] == 0
    &&& forall|i: int| #[trigger] pairs.contains_key(i) ==> is_pair(t, u, pairs, i)
    &&& forall|i: int, k: int| #[trigger]
        pairs.contains_key(i) && #[trigger] pairs.contains_key(k) && i < k ==> pairs[i] < pairs[k]
    &&& forall|i: int|
        0 <= i < t.len() && !#[trigger] pairs.contains_key(i) ==> is_detail(t, i)
    &&& forall|j: int| 0 <= j < u.len() && !#[trigger] is_partner(pairs, j) ==> is_detail(u, j)
}

// ---------------------------------------------------------------------------------------------
// Children

proof fn lemma_partners_in_field(
    t: Seq<NodeView>,
    u: Seq<NodeView>,
    pairs: Map<int, int>,
    nodes: Seq<int>,
    field: Seq<char>,
)
    requires
        is_pairing(t, u, pairs),
        have_partners(pairs, nodes),
    ensures
        in_field(u, partners(pairs, nodes), field) == partners(pairs, in_field(t, nodes, field)),
        named_in(u, partners(pairs, nodes)) == partners(pairs, named_in(t, nodes)),
    decreases nodes.len(),
{
    let others = partners(pairs, nodes);
    if nodes.len() > 0 {
        let rest = nodes.drop_first();
        assert forall|k: int| 0 <= k < rest.len() implies pairs.contains_key(
            #[trigger] rest[k],
        ) by {
            assert(rest[k] == nodes[k + 1]);
        }
        lemma_partners_in_field(t, u, pairs, rest, field);
        assert(others.drop_first() =~= partners(pairs, rest));
        assert(pairs.contains_key(nodes[0]));
        assert(is_pair(t, u, pairs, nodes[0]));
    }
    assert(in_field(u, others, field) =~= partners(pairs, in_field(t, nodes, field)));
    assert(named_in(u, others) =~= partners(pairs, named_in(t, nodes)));
}

/// The children of partners that are no functions, and those that fill a field, are partners.
proof fn lemma_paired_children(
    t: Seq<NodeView>,
    u: Seq<NodeView>,
    pairs: Map<int, int>,
    i: int,
    field: Seq<char>,
)
    requires
        is_pairing(t, u, pairs),
        pairs.contains_key(i),
        !is_function(t, i),
    ensures
        fields_of(u, pairs[i], field) == partners(pairs, fields_of(t, i, field)),
        have_partners(pairs, fields_of(t, i, field)),
        field_of(u, pairs[i], field) == partner(pairs, field_of(t, i, field)),
        field_of(t, i, field) matches Some(c) ==> i < c < t.len() && pairs.contains_key(c)
            && t[c].field == Some(field),
        named_of(u, pairs[i]) == partners(pairs, named_of(t, i)),
        have_partners(pairs, named_of(t, i)),
        forall|k: int|
            0 <= k < fields_of(t, i, field).len() ==> i < #[trigger] fields_of(t, i, field)[k]
                < t.len() && t[fields_of(t, i, field)[k]].field == Some(field),
        forall|k: int|
            0 <= k < named_of(t, i).len() ==> i < #[trigger] named_of(t, i)[k] < t.len(),
{
    assert(is_pair(t, u, pairs, i));
    let children = children_of(t, i);
    lemma_partners_in_field(t, u, pairs, children, field);
    lemma_children(t, i);
    lemma_in_field(t, children, field);
    lemma_named_in(t, children);
    let all = fields_of(t, i, field);
    assert forall|k: int| 0 <= k < all.len() implies i < #[trigger] all[k] < t.len()
        && pairs.contains_key(all[k]) && t[all[k]].field == Some(field) by {
        let m = choose|m: int| 0 <= m < children.len() && children[m] == all[k];
        assert(i < children[m] < t.len() && pairs.contains_key(children[m]));
    }
    let named = named_of(t, i);
    assert forall|k: int| 0 <= k < named.len() implies i < #[trigger] named[k] < t.len()
        && pairs.contains_key(named[k]) by {
        let m = choose|m: int| 0 <= m < children.len() && children[m] == named[k];
        assert(i < children[m] < t.len() && pairs.contains_key(children[m]));
    }
    if all.len() > 0 {
        assert(partners(pairs, all)[0] == pairs[all[0]]);
    }
}

// ---------------------------------------------------------------------------------------------
// Scopes and names

/// The parent of a child is the node whose child it is.
proof fn lemma_named_child(t: Seq<NodeView>, i: int, c: int)
    requires
        preorder(t),
        0 <= i < t.len(),
        named_of(t, i).contains(c),
    ensures
        parent_of(t, c) == Some(i),
{
    lemma_named_in(t, children_of(t, i));
    lemma_end(t, i);
    lemma_siblings_have_a_parent(t, i, i + 1, c);
}

proof fn lemma_siblings_have_a_parent(t: Seq<NodeView>, i: int, from: int, c: int)
    requires
        preorder(t),
        0 <= i < from <= subtree_end(t, i) <= t.len(),
        from < subtree_end(t, i) ==> t[from].depth == t[i].depth + 1,
        forall|k: int| i < k < subtree_end(t, i) ==> (#[trigger] t[k]).depth > t[i].depth,
        siblings_from(t, from, subtree_end(t, i)).contains(c),
    ensures
        parent_of(t, c) == Some(i),
    decreases subtree_end(t, i) - from,
{
    let end = subtree_end(t, i);
    let all = siblings_from(t, from, end);
    let m = choose|m: int| 0 <= m < all.len() && all[m] == c;
    assert(from < end);
    lemma_end(t, from);
    let next = subtree_end(t, from);
    if m == 0 {
        lemma_parent_is(t, c, i);
    } else {
        let rest = siblings_from(t, next, end);
        assert(next <= end);
        assert(all[m] == rest[m - 1]);
        assert(rest.contains(c));
        if next < end {
            assert(t[next].depth > t[i].depth);
        }
        lemma_siblings_have_a_parent(t, i, next, c);
    }
}

/// Partners that are declarators bind the same name.
proof fn lemma_paired_bound_name(
    t: Seq<NodeView>,
    u: Seq<NodeView>,
    pairs: Map<int, int>,
    i: int,
    source: Seq<char>,
)
    requires
        is_pairing(t, u, pairs),
        pairs.contains_key(i),
        !is_function(t, i),
    ensures
        bound_name(u, pairs[i], source) == bound_name(t, i, source),
    decreases t.len() - i,
{
    assert(is_pair(t, u, pairs, i));
    lemma_paired_children(t, u, pairs, i, "declarator"@);
    let inner = field_of(t, i, "declarator"@);
    let named = named_of(t, i);
    if inner is Some {
        let c = inner->0;
        assert(is_pair(t, u, pairs, c));
        assert(pairs[i] < pairs[c]);
        assert(bound_node(t, i) == bound_node(t, c));
        assert(bound_node(u, pairs[i]) == bound_node(u, pairs[c]));
        lemma_paired_bound_name(t, u, pairs, c, source);
    } else if t[i].kind == "parenthesized_declarator"@ && named.len() > 0 {
        let c = named[0];
        assert(i < c < t.len() && pairs.contains_key(c));
        assert(is_pair(t, u, pairs, c));
        assert(pairs[i] < pairs[c]);
        assert(named_of(u, pairs[i])[0] == pairs[c]);
        assert(bound_node(t, i) == bound_node(t, c));
        assert(bound_node(u, pairs[i]) == bound_node(u, pairs[c]));
        assert(!is_function(t, c)) by {
            lemma_named_child(t, i, c);
        }
        lemma_paired_bound_name(t, u, pairs, c, source);
    } else {
        assert(bound_node(t, i) == i);
        assert(bound_node(u, pairs[i]) == pairs[i]);
    }
}

/// Partners declare the same name.
proof fn lemma_paired_parts(
    t: Seq<NodeView>,
    u: Seq<NodeView>,
    pairs: Map<int, int>,
    i: int,
    source: Seq<char>,
)
    requires
        is_pairing(t, u, pairs),
        pairs.contains_key(i),
        !is_function(t, i),
    ensures
        declared_parts(u, pairs[i], source) == declared_parts(t, i, source),
{
    lemma_paired_children(t, u, pairs, i, "name"@);
    match field_of(t, i, "name"@) {
        Some(name) => {
            assert(is_pair(t, u, pairs, name));
            assert(node_text(u, pairs[name], source) == node_text(t, name, source));
        },
        None => {},
    }
}

/// A function opens no scope and declares nothing in the way that a declaration does.
proof fn lemma_function_kind()
    ensures
        container_kind("function_definition"@) is None,
        !has_declarators("function_definition"@),
        !is_alias("function_definition"@),
{
    reveal_strlit("function_definition");
    reveal_strlit("namespace_definition");
    reveal_strlit("class_specifier");
    reveal_strlit("struct_specifier");
    reveal_strlit("union_specifier");
    reveal_strlit("declaration");
    reveal_strlit("field_declaration");
    reveal_strlit("type_definition");
    reveal_strlit("alias_declaration");
    reveal_strlit("namespace_alias_definition");
    assert("function_definition"@.len() == 19);
    assert("namespace_definition"@.len() == 20);
    assert("class_specifier"@.len() == 15);
    assert("struct_specifier"@.len() == 16);
    assert("union_specifier"@.len() == 15);
    assert("declaration"@.len() == 11);
    assert("field_declaration"@.len() == 17);
    assert("type_definition"@.len() == 15);
    assert("alias_declaration"@.len() == 17);
    assert("namespace_alias_definition"@.len() == 26);
}

/// Partners stand in the same scope, and are both inside a function or both outside.
pub proof fn lemma_paired_scope(
    t: Seq<NodeView>,
    u: Seq<NodeView>,
    pairs: Map<int, int>,
    i: int,
    source: Seq<char>,
)
    requires
        is_pairing(t, u, pairs),
        pairs.contains_key(i),
    ensures
        scope_of(u, pairs[i], source) == scope_of(t, i, source),
        in_callable(u, pairs[i]) == in_callable(t, i),
    decreases i,
{
    assert(is_pair(t, u, pairs, i));
    if i > 0 {
        let p = parent_of(t, i)->0;
        assert(is_pair(t, u, pairs, p));
        assert(pairs[p] < pairs[i]);
        lemma_paired_scope(t, u, pairs, p, source);
        if is_function(t, p) {
            lemma_function_kind();
        } else {
            lemma_paired_parts(t, u, pairs, p, source);
        }
        assert(opened_scopes(u, pairs[p], source) == opened_scopes(t, p, source));
    }
}

/// Partners declare the same names.
proof fn lemma_paired_declares(
    t: Seq<NodeView>,
    u: Seq<NodeView>,
    pairs: Map<int, int>,
    i: int,
    source: Seq<char>,
    name: Seq<char>,
)
    requires
        is_pairing(t, u, pairs),
        pairs.contains_key(i),
    ensures
        declares(u, pairs[i], source, name) == declares(t, i, source, name),
{
    assert(is_pair(t, u, pairs, i));
    if is_function(t, i) {
        lemma_function_kind();
    } else {
        lemma_paired_children(t, u, pairs, i, "name"@);
        lemma_paired_children(t, u, pairs, i, "declarator"@);
        match field_of(t, i, "name"@) {
            Some(alias) => {
                assert(is_pair(t, u, pairs, alias));
                assert(node_text(u, pairs[alias], source) == node_text(t, alias, source));
            },
            None => {},
        }
        let nodes = fields_of(t, i, "declarator"@);
        let others = partners(pairs, nodes);
        assert forall|k: int| 0 <= k < nodes.len() implies bound_name(
            u,
            #[trigger] others[k],
            source,
        ) == bound_name(t, nodes[k], source) by {
            assert(pairs.contains_key(nodes[k]));
            assert(is_pair(t, u, pairs, nodes[k]));
            lemma_paired_bound_name(t, u, pairs, nodes[k], source);
        }
        if binds(t, nodes, source, name) {
            let k = choose|k: int|
                0 <= k < nodes.len() && bound_name(t, #[trigger] nodes[k], source) == Some(name);
            assert(bound_name(u, others[k], source) == Some(name));
        }
        if binds(u, others, source, name) {
            let k = choose|k: int|
                0 <= k < others.len() && bound_name(u, #[trigger] others[k], source) == Some(name);
            assert(bound_name(t, nodes[k], source) == Some(name));
        }
    }
}

/// Trees that are paired declare the same names in the same scopes, and bring names from elsewhere
/// into the same scopes.
proof fn lemma_paired_declarations(
    t: Seq<NodeView>,
    u: Seq<NodeView>,
    pairs: Map<int, int>,
    source: Seq<char>,
)
    requires
        is_pairing(t, u, pairs),
    ensures
        blocked_before(u, source, u.len() as int) == blocked_before(t, source, t.len() as int),
        uncertain_before(u, source, u.len() as int) == uncertain_before(
            t,
            source,
            t.len() as int,
        ),
{
    let n = t.len() as int;
    let m = u.len() as int;
    assert forall|i: int, path: Seq<char>, name: Seq<char>| #[trigger]
        declares_in(t, i, source, path, name) && 0 <= i < n implies exists|j: int|
        0 <= j < m && #[trigger] declares_in(u, j, source, path, name) by {
        assert(pairs.contains_key(i));
        assert(is_pair(t, u, pairs, i));
        lemma_paired_scope(t, u, pairs, i, source);
        lemma_paired_declares(t, u, pairs, i, source, name);
        assert(declares_in(u, pairs[i], source, path, name));
    }
    assert forall|j: int, path: Seq<char>, name: Seq<char>| #[trigger]
        declares_in(u, j, source, path, name) && 0 <= j < m implies exists|i: int|
        0 <= i < n && #[trigger] declares_in(t, i, source, path, name) by {
        assert(is_partner(pairs, j));
        let i = choose|i: int| #[trigger] pairs.contains_key(i) && pairs[i] == j;
        assert(is_pair(t, u, pairs, i));
        lemma_paired_scope(t, u, pairs, i, source);
        lemma_paired_declares(t, u, pairs, i, source, name);
        assert(declares_in(t, i, source, path, name));
    }
    assert(blocked_before(u, source, m) =~= blocked_before(t, source, n));
    assert forall|i: int, path: Seq<char>| #[trigger]
        imports_in(t, i, source, path) && 0 <= i < n implies exists|j: int|
        0 <= j < m && #[trigger] imports_in(u, j, source, path) by {
        assert(pairs.contains_key(i));
        assert(is_pair(t, u, pairs, i));
        lemma_paired_scope(t, u, pairs, i, source);
        assert(imports_in(u, pairs[i], source, path));
    }
    assert forall|j: int, path: Seq<char>| #[trigger]
        imports_in(u, j, source, path) && 0 <= j < m implies exists|i: int|
        0 <= i < n && #[trigger] imports_in(t, i, source, path) by {
        assert(is_partner(pairs, j));
        let i = choose|i: int| #[trigger] pairs.contains_key(i) && pairs[i] == j;
        assert(is_pair(t, u, pairs, i));
        lemma_paired_scope(t, u, pairs, i, source);
        assert(imports_in(t, i, source, path));
    }
    assert(uncertain_before(u, source, m) =~= uncertain_before(t, source, n));
}

// ---------------------------------------------------------------------------------------------
// Kinds of scopes, and functions, in order

/// The position past the partners of the first `n` nodes.
spec fn past(pairs: Map<int, int>, n: int) -> int
    decreases n,
{
    if n <= 0 {
        0
    } else if pairs.contains_key(n - 1) {
        pairs[n - 1] + 1
    } else {
        past(pairs, n - 1)
    }
}

proof fn lemma_past(t: Seq<NodeView>, u: Seq<NodeView>, pairs: Map<int, int>, n: int)
    requires
        is_pairing(t, u, pairs),
        0 <= n <= t.len(),
    ensures
        0 <= past(pairs, n) <= u.len(),
        forall|i: int| #[trigger]
            pairs.contains_key(i) ==> (i < n <==> pairs[i] < past(pairs, n)),
    decreases n,
{
    if n > 0 {
        lemma_past(t, u, pairs, n - 1);
        if pairs.contains_key(n - 1) {
            assert(is_pair(t, u, pairs, n - 1));
        }
    } else {
        assert forall|i: int| #[trigger] pairs.contains_key(i) implies !(pairs[i] < 0) && !(i
            < 0) by {
            assert(is_pair(t, u, pairs, i));
        }
    }
}

/// Nodes that are neither functions nor scopes add nothing.
proof fn lemma_details(u: Seq<NodeView>, source: Seq<char>, a: int, b: int)
    requires
        0 <= a <= b,
        forall|j: int| a <= j < b ==> #[trigger] is_detail(u, j),
    ensures
        kinds_before(u, source, b) == kinds_before(u, source, a),
        functions_before(u, b) == functions_before(u, a),
    decreases b - a,
{
    if a < b {
        lemma_details(u, source, a, b - 1);
        assert(is_detail(u, b - 1));
    }
}

/// Trees that are paired open the same scopes, and their functions are partners.
proof fn lemma_paired_order(
    t: Seq<NodeView>,
    u: Seq<NodeView>,
    pairs: Map<int, int>,
    source: Seq<char>,
    n: int,
)
    requires
        is_pairing(t, u, pairs),
        0 <= n <= t.len(),
    ensures
        kinds_before(u, source, past(pairs, n)) == kinds_before(t, source, n),
        functions_before(u, past(pairs, n)) == partners(pairs, functions_before(t, n)),
        have_partners(pairs, functions_before(t, n)),
    decreases n,
{
    let functions = functions_before(t, n);
    if n > 0 {
        let i = n - 1;
        lemma_paired_order(t, u, pairs, source, i);
        lemma_past(t, u, pairs, i);
        if pairs.contains_key(i) {
            let j = pairs[i];
            assert(is_pair(t, u, pairs, i));
            assert forall|k: int| past(pairs, i) <= k < j implies #[trigger] is_detail(u, k) by {
                if is_partner(pairs, k) {
                    let m = choose|m: int| #[trigger] pairs.contains_key(m) && pairs[m] == k;
                    assert(m >= i);
                }
            }
            lemma_details(u, source, past(pairs, i), j);
            lemma_paired_scope(t, u, pairs, i, source);
            if is_function(t, i) {
                lemma_function_kind();
            } else {
                lemma_paired_parts(t, u, pairs, i, source);
            }
        } else {
            assert(is_detail(t, i));
        }
    }
    assert(functions_before(u, past(pairs, n)) =~= partners(pairs, functions));
    assert forall|k: int| 0 <= k < functions.len() implies pairs.contains_key(
        #[trigger] functions[k],
    ) by {
        let before = functions_before(t, n - 1);
        if k < before.len() {
            assert(functions[k] == before[k]);
        }
    }
}

/// Trees that differ only inside of functions have the same scopes and the same declarations, and
/// their functions are partners.
pub proof fn lemma_paired_trees(
    t: Seq<NodeView>,
    u: Seq<NodeView>,
    pairs: Map<int, int>,
    source: Seq<char>,
)
    requires
        is_pairing(t, u, pairs),
    ensures
        index_of(u, source).kinds == index_of(t, source).kinds,
        index_of(u, source).blocked == index_of(t, source).blocked,
        index_of(u, source).uncertain == index_of(t, source).uncertain,
        functions_before(u, u.len() as int) == partners(
            pairs,
            functions_before(t, t.len() as int),
        ),
        have_partners(pairs, functions_before(t, t.len() as int)),
{
    let n = t.len() as int;
    lemma_paired_declarations(t, u, pairs, source);
    lemma_paired_order(t, u, pairs, source, n);
    lemma_past(t, u, pairs, n);
    assert forall|k: int| past(pairs, n) <= k < u.len() implies #[trigger] is_detail(u, k) by {
        if is_partner(pairs, k) {
            let m = choose|m: int| #[trigger] pairs.contains_key(m) && pairs[m] == k;
            assert(is_pair(t, u, pairs, m));
        }
    }
    lemma_details(u, source, past(pairs, n), u.len() as int);
}

} // verus!
