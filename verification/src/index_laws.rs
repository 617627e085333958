//! In which scope a node stands and what the index holds, said of the kinds and the fields of
//! nodes.
use vstd::prelude::*;
use crate::declarators::bound_name;
use crate::metadata::{opened_scopes, path_of, scope_names, scope_of, ScopeView};
use crate::scopes::{
    binds, blocked_before, declares, declares_in, defines_member, imports_in, in_callable, index_of,
    kinds_before, members_before, with_kinds, written_name,
};
use crate::syntax::{
    field_of, fields_of, lemma_parent, node_text, parent_of, preorder, NodeView,
};
use crate::text::{decimal, joined, name_parts};
use crate::tree_laws::{is_child, is_inside, law_fields, law_parents};

verus! {

// ---------------------------------------------------------------------------------------------
// Scopes

/// The kind of scope that a node opens: a namespace, or a type; nothing else opens one.
pub open spec fn opened_kind(kind: Seq<char>) -> Option<Seq<char>> {
    if kind == "namespace_definition"@ {
        Some("namespace"@)
    } else if kind == "class_specifier"@ || kind == "struct_specifier"@ || kind
        == "union_specifier"@ {
        Some("type"@)
    } else {
        None
    }
}

/// The parts of the name that node `i` has.
pub open spec fn parts_of_name(t: Seq<NodeView>, i: int, source: Seq<char>) -> Option<
    Seq<Seq<char>>,
> {
    match field_of(t, i, "name"@) {
        Some(n) => name_parts(node_text(t, n, source)),
        None => None,
    }
}

/// A child stands in the scopes of its parent and in those that the parent opens: one for each part
/// of its name, or one without a name, known by its offset. The root stands in none.
pub proof fn law_scopes(t: Seq<NodeView>, p: int, c: int, source: Seq<char>, k: int)
    requires
        preorder(t),
        is_child(t, p, c),
    ensures
        scope_of(t, 0, source).len() == 0,
        opened_kind(t[p].kind) is None ==> scope_of(t, c, source) == scope_of(t, p, source),
        opened_kind(t[p].kind) is Some ==> ({
            let around = scope_of(t, p, source);
            let scope = scope_of(t, c, source);
            &&& forall|m: int| 0 <= m < around.len() ==> #[trigger] scope[m] == around[m]
            &&& match parts_of_name(t, p, source) {
                Some(names) => scope.len() == around.len() + names.len() && (0 <= k < names.len()
                    ==> scope[around.len() + k].name == names[k] && scope[around.len() + k].kind
                    == opened_kind(t[p].kind)->0),
                None => scope == around.push(
                    ScopeView {
                        kind: opened_kind(t[p].kind)->0,
                        name: "(anonymous@"@ + decimal(t[p].start_byte as nat) + seq![')'],
                    },
                ),
            }
        }),
{
    law_parents(t, p, c);
    let around = scope_of(t, p, source);
    let scope = scope_of(t, c, source);
    let more = opened_scopes(t, p, source);
    assert(scope == around + more);
    if opened_kind(t[p].kind) is None {
        assert(scope =~= around);
    } else if parts_of_name(t, p, source) is None {
        assert(more.len() == 1);
        assert(scope =~= around.push(more[0]));
    }
}

/// A node is inside of a callable where a function or a lambda is around it.
pub proof fn law_callables(t: Seq<NodeView>, i: int)
    requires
        preorder(t),
        0 <= i < t.len(),
    ensures
        in_callable(t, i) <==> exists|a: int| #[trigger]
            is_inside(t, a, i) && (t[a].kind == "function_definition"@ || t[a].kind
                == "lambda_expression"@),
    decreases i,
{
    if i > 0 {
        lemma_parent(t, i);
        let p = parent_of(t, i)->0;
        law_parents(t, p, i);
        law_callables(t, p);
        if in_callable(t, p) {
            let a = choose|a: int| #[trigger]
                is_inside(t, a, p) && (t[a].kind == "function_definition"@ || t[a].kind
                    == "lambda_expression"@);
            lemma_inside(t, a, p, i);
        }
        assert forall|a: int| #[trigger] is_inside(t, a, i) implies a == p || is_inside(
            t,
            a,
            p,
        ) by {
            if a > p {
                assert(t[a].depth > t[p].depth);
                assert(t[i].depth > t[a].depth);
            }
        }
    }
}

proof fn lemma_inside(t: Seq<NodeView>, a: int, p: int, i: int)
    requires
        is_inside(t, a, p),
        is_child(t, p, i),
    ensures
        is_inside(t, a, i),
{
    assert forall|m: int| a < m <= i implies (#[trigger] t[m]).depth > t[a].depth by {
        if m > p {
            assert(t[m].depth > t[p].depth);
            assert(t[p].depth > t[a].depth);
        }
    }
}

/// Whether no function and no lambda is around node `i`.
pub open spec fn is_outside(t: Seq<NodeView>, i: int) -> bool {
    forall|a: int| #[trigger]
        is_inside(t, a, i) ==> t[a].kind != "function_definition"@ && t[a].kind
            != "lambda_expression"@
}

/// The path of the scopes around node `i`.
pub open spec fn path_around(t: Seq<NodeView>, i: int, source: Seq<char>) -> Seq<char> {
    let scope = scope_of(t, i, source);
    joined(Seq::new(scope.len(), |k: int| scope[k].name))
}

proof fn lemma_path_around(t: Seq<NodeView>, i: int, source: Seq<char>)
    ensures
        path_of(scope_of(t, i, source)) == path_around(t, i, source),
{
    let scope = scope_of(t, i, source);
    assert(scope_names(scope) =~= Seq::new(scope.len(), |k: int| scope[k].name));
}

// ---------------------------------------------------------------------------------------------
// Declarations

/// Whether node `i` declares `name` without a definition: it is a declaration with a declarator
/// that binds it, or another name for a type or a namespace.
pub open spec fn only_declares(
    t: Seq<NodeView>,
    i: int,
    source: Seq<char>,
    name: Seq<char>,
) -> bool {
    ||| (t[i].kind == "declaration"@ || t[i].kind == "field_declaration"@ || t[i].kind
        == "type_definition"@) && exists|d: int| #[trigger]
        is_child(t, i, d) && t[d].field == Some("declarator"@) && bound_name(t, d, source) == Some(
            name,
        )
    ||| (t[i].kind == "alias_declaration"@ || t[i].kind == "namespace_alias_definition"@) && (
    field_of(t, i, "name"@) matches Some(n) && node_text(t, n, source) == name)
}

/// Whether some node outside of functions declares `name`, without a definition, in the scope with
/// the path `path`.
pub open spec fn is_declared(
    t: Seq<NodeView>,
    source: Seq<char>,
    path: Seq<char>,
    name: Seq<char>,
) -> bool {
    exists|i: int|
        0 <= i < t.len() && #[trigger] is_outside(t, i) && path_around(t, i, source) == path
            && only_declares(t, i, source, name)
}

proof fn lemma_declares(t: Seq<NodeView>, i: int, source: Seq<char>, name: Seq<char>)
    requires
        preorder(t),
        0 <= i < t.len(),
    ensures
        declares(t, i, source, name) <==> only_declares(t, i, source, name),
{
    let nodes = fields_of(t, i, "declarator"@);
    if binds(t, nodes, source, name) {
        let m = choose|m: int|
            0 <= m < nodes.len() && bound_name(t, #[trigger] nodes[m], source) == Some(name);
        law_fields(t, i, "declarator"@, nodes[m]);
        assert(nodes.contains(nodes[m]));
        assert(is_child(t, i, nodes[m]));
    }
    if exists|d: int| #[trigger]
        is_child(t, i, d) && t[d].field == Some("declarator"@) && bound_name(t, d, source) == Some(
            name,
        ) {
        let d = choose|d: int| #[trigger]
            is_child(t, i, d) && t[d].field == Some("declarator"@) && bound_name(t, d, source)
                == Some(name);
        law_fields(t, i, "declarator"@, d);
        let m = choose|m: int| 0 <= m < nodes.len() && nodes[m] == d;
        assert(bound_name(t, nodes[m], source) == Some(name));
    }
}

proof fn lemma_entries(t: Seq<NodeView>, source: Seq<char>, path: Seq<char>, name: Seq<char>)
    ensures
        index_of(t, source).blocked.contains((path, name)) == exists|i: int|
            0 <= i < t.len() && #[trigger] declares_in(t, i, source, path, name),
        index_of(t, source).members.contains((path, name)) == exists|i: int|
            0 <= i < t.len() && #[trigger] defines_member(t, i, source, path, name),
{
    let n = t.len() as int;
    let entry = (path, name);
    let blocked = blocked_before(t, source, n);
    let members = members_before(t, source, n);
    assert(blocked.contains(entry) == exists|i: int|
        0 <= i < n && #[trigger] declares_in(t, i, source, entry.0, entry.1));
    assert(members.contains(entry) == exists|i: int|
        0 <= i < n && #[trigger] defines_member(t, i, source, entry.0, entry.1));
    assert(index_of(t, source).blocked == blocked && index_of(t, source).members == members);
    assert(entry.0 == path && entry.1 == name);
    if members.contains(entry) {
        let i = choose|i: int|
            0 <= i < n && #[trigger] defines_member(t, i, source, entry.0, entry.1);
        assert(0 <= i < t.len() && defines_member(t, i, source, path, name));
    }
    if exists|i: int| 0 <= i < t.len() && #[trigger] defines_member(t, i, source, path, name) {
        let i = choose|i: int|
            0 <= i < t.len() && #[trigger] defines_member(t, i, source, path, name);
        assert(0 <= i < n && defines_member(t, i, source, entry.0, entry.1));
    }
}

proof fn lemma_outside(t: Seq<NodeView>, i: int)
    requires
        preorder(t),
        0 <= i < t.len(),
    ensures
        is_outside(t, i) <==> !in_callable(t, i),
{
    law_callables(t, i);
}

proof fn lemma_declares_in(
    t: Seq<NodeView>,
    i: int,
    source: Seq<char>,
    path: Seq<char>,
    name: Seq<char>,
)
    requires
        preorder(t),
        0 <= i < t.len(),
    ensures
        declares_in(t, i, source, path, name) <==> is_outside(t, i) && path_around(t, i, source)
            == path && only_declares(t, i, source, name),
{
    lemma_outside(t, i);
    lemma_path_around(t, i, source);
    lemma_declares(t, i, source, name);
}

/// The index blocks exactly the names that are declared without a definition, each in its scope.
pub proof fn law_blocked_names(
    t: Seq<NodeView>,
    source: Seq<char>,
    path: Seq<char>,
    name: Seq<char>,
)
    requires
        preorder(t),
    ensures
        index_of(t, source).blocked.contains((path, name)) <==> is_declared(
            t,
            source,
            path,
            name,
        ),
{
    lemma_entries(t, source, path, name);
    if index_of(t, source).blocked.contains((path, name)) {
        let i = choose|i: int|
            0 <= i < t.len() && #[trigger] declares_in(t, i, source, path, name);
        lemma_declares_in(t, i, source, path, name);
        assert(is_outside(t, i));
    }
    if is_declared(t, source, path, name) {
        let i = choose|i: int|
            0 <= i < t.len() && #[trigger] is_outside(t, i) && path_around(t, i, source) == path
                && only_declares(t, i, source, name);
        lemma_declares_in(t, i, source, path, name);
        assert(declares_in(t, i, source, path, name));
    }
}

/// The index holds for uncertain exactly the scopes in which, outside of functions, there is a
/// using declaration or a clause of base classes.
pub proof fn law_uncertain_scopes(t: Seq<NodeView>, source: Seq<char>, path: Seq<char>)
    requires
        preorder(t),
    ensures
        index_of(t, source).uncertain.contains(path) <==> exists|i: int|
            0 <= i < t.len() && #[trigger] is_outside(t, i) && path_around(t, i, source) == path
                && (t[i].kind == "using_declaration"@ || t[i].kind == "base_class_clause"@),
{
    assert forall|i: int| 0 <= i < t.len() implies #[trigger] imports_in(t, i, source, path) == (
    is_outside(t, i) && path_around(t, i, source) == path && (t[i].kind == "using_declaration"@
        || t[i].kind == "base_class_clause"@)) by {
        law_callables(t, i);
        lemma_path_around(t, i, source);
    }
    if exists|i: int|
        0 <= i < t.len() && #[trigger] is_outside(t, i) && path_around(t, i, source) == path && (
        t[i].kind == "using_declaration"@ || t[i].kind == "base_class_clause"@) {
        let i = choose|i: int|
            0 <= i < t.len() && #[trigger] is_outside(t, i) && path_around(t, i, source) == path
                && (t[i].kind == "using_declaration"@ || t[i].kind == "base_class_clause"@);
        assert(imports_in(t, i, source, path));
    }
}

/// Whether the function `i` stands directly in a type with the path `path` and is written there
/// with the plain name `name`.
pub open spec fn is_member_of(
    t: Seq<NodeView>,
    i: int,
    source: Seq<char>,
    path: Seq<char>,
    name: Seq<char>,
) -> bool {
    let scope = scope_of(t, i, source);
    &&& t[i].kind == "function_definition"@
    &&& scope.len() > 0 && scope[scope.len() - 1].kind == "type"@
    &&& path_around(t, i, source) == path
    &&& written_name(t, i) matches Some(at) && (name_parts(node_text(t, at, source)) matches Some(
        names,
    ) && names.len() == 1 && names[0] == name)
}

/// The index holds for members exactly the functions that a type defines in its body.
pub proof fn law_members(t: Seq<NodeView>, source: Seq<char>, path: Seq<char>, name: Seq<char>)
    ensures
        index_of(t, source).members.contains((path, name)) <==> exists|i: int|
            0 <= i < t.len() && #[trigger] is_member_of(t, i, source, path, name),
{
    assert forall|i: int| 0 <= i < t.len() implies #[trigger] defines_member(
        t,
        i,
        source,
        path,
        name,
    ) == is_member_of(t, i, source, path, name) by {
        lemma_path_around(t, i, source);
        match written_name(t, i) {
            Some(at) => {
                match name_parts(node_text(t, at, source)) {
                    Some(names) => {
                        if names.len() == 1 && names[0] == name {
                            assert(names =~= seq![name]);
                        }
                    },
                    None => {},
                }
            },
            None => {},
        }
    }
    lemma_entries(t, source, path, name);
    if index_of(t, source).members.contains((path, name)) {
        let i = choose|i: int|
            0 <= i < t.len() && #[trigger] defines_member(t, i, source, path, name);
        assert(is_member_of(t, i, source, path, name));
    }
    if exists|i: int| 0 <= i < t.len() && #[trigger] is_member_of(t, i, source, path, name) {
        let i = choose|i: int|
            0 <= i < t.len() && #[trigger] is_member_of(t, i, source, path, name);
        assert(defines_member(t, i, source, path, name));
    }
}

// ---------------------------------------------------------------------------------------------
// Kinds of scopes

/// Whether node `i` opens a named scope with the path `path`: the path of the scopes around it,
/// followed by some of the parts of its name.
pub open spec fn opens(t: Seq<NodeView>, i: int, source: Seq<char>, path: Seq<char>) -> bool {
    &&& opened_kind(t[i].kind) is Some
    &&& parts_of_name(t, i, source) matches Some(names) && exists|k: int|
        0 < k <= names.len() && path == joined(
            scope_names(scope_of(t, i, source)) + #[trigger] names.take(k),
        )
}

proof fn lemma_with_kinds(
    kinds: Map<Seq<char>, Seq<char>>,
    outer: Seq<Seq<char>>,
    names: Seq<Seq<char>>,
    kind: Seq<char>,
    path: Seq<char>,
)
    ensures
        ({
            let now = with_kinds(kinds, outer, names, kind);
            let here = exists|k: int|
                0 < k <= names.len() && path == joined(outer + #[trigger] names.take(k));
            &&& now.contains_key(path) <==> kinds.contains_key(path) || here
            &&& here ==> now[path] == kind
            &&& !here && kinds.contains_key(path) ==> now[path] == kinds[path]
        }),
    decreases names.len(),
{
    if names.len() > 0 {
        let inner = outer.push(names[0]);
        let rest = names.drop_first();
        let more = kinds.insert(joined(inner), kind);
        lemma_with_kinds(more, inner, rest, kind, path);
        assert(outer + names.take(1) =~= inner);
        assert forall|k: int| 0 < k <= rest.len() implies inner + #[trigger] rest.take(k) == outer
            + names.take(k + 1) by {
            assert(inner + rest.take(k) =~= outer + names.take(k + 1));
        }
        if exists|k: int|
            0 < k <= names.len() && path == joined(outer + #[trigger] names.take(k)) {
            let k = choose|k: int|
                0 < k <= names.len() && path == joined(outer + #[trigger] names.take(k));
            if k > 1 {
                assert(inner + rest.take(k - 1) == outer + names.take(k));
                assert(path == joined(inner + rest.take(k - 1)));
            } else {
                assert(path == joined(inner));
            }
        }
        if exists|k: int| 0 < k <= rest.len() && path == joined(inner + #[trigger] rest.take(k)) {
            let k = choose|k: int|
                0 < k <= rest.len() && path == joined(inner + #[trigger] rest.take(k));
            assert(path == joined(outer + names.take(k + 1)));
        }
        if path == joined(inner) {
            assert(path == joined(outer + names.take(1)));
        }
    }
}

proof fn lemma_kinds(t: Seq<NodeView>, source: Seq<char>, n: int, path: Seq<char>)
    requires
        0 <= n,
    ensures
        kinds_before(t, source, n).contains_key(path) <==> exists|i: int|
            0 <= i < n && #[trigger] opens(t, i, source, path),
        forall|i: int|
            0 <= i < n && #[trigger] opens(t, i, source, path) && (forall|j: int|
                i < j < n ==> !#[trigger] opens(t, j, source, path)) ==> kinds_before(
                t,
                source,
                n,
            )[path] == opened_kind(t[i].kind)->0,
    decreases n,
{
    if n > 0 {
        let last = n - 1;
        lemma_kinds(t, source, last, path);
        let before = kinds_before(t, source, last);
        if opened_kind(t[last].kind) is Some && parts_of_name(t, last, source) is Some {
            lemma_with_kinds(
                before,
                scope_names(scope_of(t, last, source)),
                parts_of_name(t, last, source)->0,
                opened_kind(t[last].kind)->0,
                path,
            );
        }
        if opens(t, last, source, path) {
            assert(kinds_before(t, source, n).contains_key(path));
        }
        if before.contains_key(path) {
            let i = choose|i: int| 0 <= i < last && #[trigger] opens(t, i, source, path);
            assert(0 <= i < n && opens(t, i, source, path));
        }
        assert forall|i: int|
            0 <= i < n && #[trigger] opens(t, i, source, path) && (forall|j: int|
                i < j < n ==> !#[trigger] opens(t, j, source, path)) implies kinds_before(
            t,
            source,
            n,
        )[path] == opened_kind(t[i].kind)->0 by {
            if i < last {
                assert(!opens(t, last, source, path));
            }
        }
    }
}

/// The index knows the kinds of exactly the named scopes that the file opens, and of two with one
/// path the kind of the later.
pub proof fn law_kinds_of_scopes(t: Seq<NodeView>, source: Seq<char>, path: Seq<char>, i: int)
    ensures
        index_of(t, source).kinds.contains_key(path) <==> exists|j: int|
            0 <= j < t.len() && #[trigger] opens(t, j, source, path),
        0 <= i < t.len() && opens(t, i, source, path) && (forall|j: int|
            i < j < t.len() ==> !#[trigger] opens(t, j, source, path)) ==> index_of(
            t,
            source,
        ).kinds[path] == opened_kind(t[i].kind)->0,
{
    lemma_kinds(t, source, t.len() as int, path);
}

} // verus!
