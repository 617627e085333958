//! How a function is named, in which scope it stands and how many arguments it takes, said of the
//! nodes of its tree and of the text.
use vstd::prelude::*;
use crate::declarators::{
    bound_name, bound_node, declarator_name, first_declarator, function_declarator_of, naming_node,
};
use crate::extraction::{function_name, function_unit};
use crate::metadata::{scope_names, scope_of, ScopeView};
use crate::name_laws::law_paths_split_into_their_names;
use crate::references::{are_plain_parameters, arity_of, count_kind, parameters_of};
use crate::scopes::{declarator_of, written_name, ScopeIndexView};
use crate::syntax::{
    children_of, field_of, lemma_selected_children, named_of, node_text, preorder, NodeView,
};
use crate::text::{
    decimal, has_suffix, is_identifier, joined, name_parts, trimmed, unprefixed,
};
use crate::text_laws::{has_colons_at, law_last_segment, law_unprefixed};
use crate::tree_laws::{is_child, law_fields};
use crate::units::{extended_scope, references_of, takes_void, unit_of, unit_scope};

verus! {

// ---------------------------------------------------------------------------------------------
// Names

/// The name of a declarator is that of the declarator that it holds; of one without a declarator
/// field, but of some kind of declarator, that of its first named child that is one; and else what
/// follows the last `::` of its text, character for character.
pub proof fn law_declarator_names(t: Seq<NodeView>, i: int, source: Seq<char>, c: int)
    requires
        preorder(t),
        0 <= i < t.len(),
    ensures
        field_of(t, i, "declarator"@) == Some(c) ==> declarator_name(t, i, source)
            == declarator_name(t, c, source),
        ({
            &&& field_of(t, i, "declarator"@) is None
            &&& has_suffix(t[i].kind, "declarator"@)
            &&& is_child(t, i, c) && t[c].named && has_suffix(t[c].kind, "declarator"@)
            &&& forall|b: int|
                b < c && #[trigger] is_child(t, i, b) && t[b].named ==> !has_suffix(
                    t[b].kind,
                    "declarator"@,
                )
        }) ==> declarator_name(t, i, source) == declarator_name(t, c, source),
        ({
            &&& field_of(t, i, "declarator"@) is None
            &&& has_suffix(t[i].kind, "declarator"@) ==> forall|b: int| #[trigger]
                is_child(t, i, b) && t[b].named ==> !has_suffix(t[b].kind, "declarator"@)
        }) ==> ({
            let text = node_text(t, i, source);
            let name = declarator_name(t, i, source);
            let from = text.len() - name.len();
            &&& from >= 0
            &&& text.skip(from) == name
            &&& forall|k: int| !#[trigger] has_colons_at(name, k)
            &&& from == 0 || has_colons_at(text, from - 2)
            &&& (forall|k: int| !#[trigger] has_colons_at(text, k)) ==> name == text
        }),
{
    law_fields(t, i, "declarator"@, c);
    lemma_selected_children(t, i, "declarator"@);
    let named = named_of(t, i);
    lemma_first_declarator(t, named);
    let nested = first_declarator(t, named);
    match nested {
        Some(n) => {
            law_fields(t, i, "declarator"@, n);
            assert(named.contains(n));
        },
        None => {},
    }
    if field_of(t, i, "declarator"@) == Some(c) {
        assert(naming_node(t, i) == naming_node(t, c));
    } else if field_of(t, i, "declarator"@) is None {
        if has_suffix(t[i].kind, "declarator"@) && is_child(t, i, c) && t[c].named && has_suffix(
            t[c].kind,
            "declarator"@,
        ) && (forall|b: int|
            b < c && #[trigger] is_child(t, i, b) && t[b].named ==> !has_suffix(
                t[b].kind,
                "declarator"@,
            )) {
            assert(named.contains(c));
            assert(nested is Some && nested->0 <= c);
            assert(is_child(t, i, nested->0));
            assert(nested == Some(c));
            assert(naming_node(t, i) == naming_node(t, c));
        }
        if has_suffix(t[i].kind, "declarator"@) ==> forall|b: int| #[trigger]
            is_child(t, i, b) && t[b].named ==> !has_suffix(t[b].kind, "declarator"@) {
            if has_suffix(t[i].kind, "declarator"@) && nested is Some {
                assert(is_child(t, i, nested->0));
            }
            assert(naming_node(t, i) == i);
            law_last_segment(node_text(t, i, source));
        }
    }
}

/// The first declarator of a list is in it, and before it there is none.
proof fn lemma_first_declarator(t: Seq<NodeView>, nodes: Seq<int>)
    requires
        forall|a: int, b: int|
            0 <= a < b < nodes.len() ==> (#[trigger] nodes[a]) < #[trigger] nodes[b],
    ensures
        first_declarator(t, nodes) matches Some(c) ==> nodes.contains(c) && has_suffix(
            t[c].kind,
            "declarator"@,
        ),
        forall|c: int| #[trigger]
            nodes.contains(c) && has_suffix(t[c].kind, "declarator"@) ==> (first_declarator(
                t,
                nodes,
            ) matches Some(first) && first <= c),
    decreases nodes.len(),
{
    if nodes.len() > 0 {
        let rest = nodes.drop_first();
        assert forall|a: int, b: int| 0 <= a < b < rest.len() implies (#[trigger] rest[a])
            < #[trigger] rest[b] by {
            assert(nodes[a + 1] < nodes[b + 1]);
        }
        lemma_first_declarator(t, rest);
        assert(nodes.contains(nodes[0]));
        match first_declarator(t, rest) {
            Some(c) => {
                let m = choose|m: int| 0 <= m < rest.len() && rest[m] == c;
                assert(nodes[m + 1] == c);
            },
            None => {},
        }
        assert forall|c: int| #[trigger]
            nodes.contains(c) && has_suffix(t[c].kind, "declarator"@) implies (first_declarator(
            t,
            nodes,
        ) matches Some(first) && first <= c) by {
            let m = choose|m: int| 0 <= m < nodes.len() && nodes[m] == c;
            if m > 0 {
                assert(rest[m - 1] == c);
                assert(rest.contains(c));
                assert(nodes[0] < nodes[m]);
            }
        }
    }
}

/// A function has the name of its declarator; without one it is anonymous. Its unit has its name.
pub proof fn law_function_names(
    t: Seq<NodeView>,
    i: int,
    source: Seq<char>,
    index: ScopeIndexView,
    c: int,
)
    ensures
        field_of(t, i, "declarator"@) == Some(c) ==> function_unit(t, i, source, index).name
            == declarator_name(t, c, source),
        field_of(t, i, "declarator"@) is None ==> function_unit(t, i, source, index).name
            == "anonymous"@,
        function_name(t, i, source) == function_unit(t, i, source, index).name,
{
}

/// A declarator binds what the declarator that it holds binds; a parenthesized one without such a
/// field what its first named child binds; and else its own text, where it is an identifier.
pub proof fn law_bound_names(t: Seq<NodeView>, i: int, source: Seq<char>, c: int)
    requires
        preorder(t),
        0 <= i < t.len(),
    ensures
        field_of(t, i, "declarator"@) == Some(c) ==> bound_name(t, i, source) == bound_name(
            t,
            c,
            source,
        ) && bound_node(t, i) == bound_node(t, c),
        field_of(t, i, "declarator"@) is None && t[i].kind == "parenthesized_declarator"@
            && is_child(t, i, c) && t[c].named && (forall|b: int|
            b < c && #[trigger] is_child(t, i, b) ==> !t[b].named) ==> bound_name(t, i, source)
            == bound_name(t, c, source) && bound_node(t, i) == bound_node(t, c),
        field_of(t, i, "declarator"@) is None && t[i].kind != "parenthesized_declarator"@ ==> {
            &&& bound_node(t, i) == i
            &&& bound_name(t, i, source) == if t[i].kind == "identifier"@ || t[i].kind
                == "field_identifier"@ || t[i].kind == "type_identifier"@ {
                Some(node_text(t, i, source))
            } else {
                None
            }
        },
{
    law_fields(t, i, "declarator"@, c);
    lemma_selected_children(t, i, "declarator"@);
    let named = named_of(t, i);
    if named.len() > 0 {
        law_fields(t, i, "declarator"@, named[0]);
        assert(named.contains(named[0]));
    }
    if named.contains(c) {
        let m = choose|m: int| 0 <= m < named.len() && named[m] == c;
        if m > 0 {
            assert(named[0] < named[m]);
            assert(is_child(t, i, named[0]));
        }
    }
}

/// The function declarator of a declarator is itself, or that of the declarator that it holds.
pub proof fn law_function_declarators(t: Seq<NodeView>, i: int, c: int)
    requires
        preorder(t),
        0 <= i < t.len(),
    ensures
        t[i].kind == "function_declarator"@ ==> function_declarator_of(t, i) == Some(i),
        t[i].kind != "function_declarator"@ && field_of(t, i, "declarator"@) == Some(c)
            ==> function_declarator_of(t, i) == function_declarator_of(t, c),
        t[i].kind != "function_declarator"@ && field_of(t, i, "declarator"@) is None
            ==> function_declarator_of(t, i) is None,
{
    lemma_selected_children(t, i, "declarator"@);
}

/// The declarator, the name as it is written and the parameters of a function.
pub proof fn law_signatures(t: Seq<NodeView>, i: int, d: int, f: int)
    ensures
        field_of(t, i, "declarator"@) is None ==> declarator_of(t, i) is None,
        field_of(t, i, "declarator"@) == Some(d) ==> declarator_of(t, i)
            == function_declarator_of(t, d),
        declarator_of(t, i) == Some(f) ==> written_name(t, i) == field_of(t, f, "declarator"@)
            && parameters_of(t, declarator_of(t, i)) == field_of(t, f, "parameters"@),
        declarator_of(t, i) is None ==> written_name(t, i) is None && parameters_of(
            t,
            declarator_of(t, i),
        ) is None,
{
}

// ---------------------------------------------------------------------------------------------
// Scopes

/// The scopes that `names` add to `base`, each with the kind that the index gives to its path.
pub open spec fn is_extended_by(
    scope: Seq<ScopeView>,
    base: Seq<ScopeView>,
    names: Seq<Seq<char>>,
    kinds: Map<Seq<char>, Seq<char>>,
) -> bool {
    &&& scope.len() == base.len() + names.len()
    &&& forall|k: int| 0 <= k < base.len() ==> #[trigger] scope[k] == base[k]
    &&& forall|k: int|
        base.len() <= k < scope.len() ==> (#[trigger] scope[k]).name == names[k - base.len()]
            && scope[k].kind == {
            let path = joined(Seq::new((k + 1) as nat, |m: int| scope[m].name));
            if kinds.contains_key(path) {
                kinds[path]
            } else {
                "unknown"@
            }
        }
}

proof fn lemma_extended_scope(
    base: Seq<ScopeView>,
    names: Seq<Seq<char>>,
    kinds: Map<Seq<char>, Seq<char>>,
)
    ensures
        is_extended_by(extended_scope(base, names, kinds), base, names, kinds),
    decreases names.len(),
{
    if names.len() > 0 {
        lemma_extended_scope(base, names.drop_last(), kinds);
        let outer = extended_scope(base, names.drop_last(), kinds);
        let scope = extended_scope(base, names, kinds);
        assert forall|k: int| base.len() <= k < scope.len() implies (#[trigger] scope[k]).name
            == names[k - base.len()] && scope[k].kind == {
            let path = joined(Seq::new((k + 1) as nat, |m: int| scope[m].name));
            if kinds.contains_key(path) {
                kinds[path]
            } else {
                "unknown"@
            }
        } by {
            let all = Seq::new((k + 1) as nat, |m: int| scope[m].name);
            if k < outer.len() {
                assert(scope[k] == outer[k]);
                assert(all =~= Seq::new((k + 1) as nat, |m: int| outer[m].name));
            } else {
                assert(all =~= scope_names(outer).push(names.last()));
            }
        }
    }
}

/// A path of identifiers has these for its parts, and does not start with `::`.
pub proof fn lemma_prefixed(names: Seq<Seq<char>>)
    requires
        names.len() > 0,
        forall|k: int| 0 <= k < names.len() ==> is_identifier(#[trigger] names[k]),
    ensures
        name_parts(joined(names)) == Some(names),
        !has_colons_at(joined(names), 0),
    decreases names.len(),
{
    law_paths_split_into_their_names(names);
    let first = names[0];
    assert(is_identifier(first));
    assert(joined(names).len() > 0 && joined(names)[0] == first[0]) by {
        lemma_starts(names);
    }
}

/// A path starts with its first name.
pub proof fn lemma_starts(names: Seq<Seq<char>>)
    requires
        names.len() > 0,
        names[0].len() > 0,
    ensures
        joined(names).len() > 0,
        joined(names)[0] == names[0][0],
    decreases names.len(),
{
    if names.len() > 1 {
        lemma_starts(names.drop_last());
    }
}

/// A function whose name is written with a qualifier of plain names stands in the scopes of the
/// qualifier, below the scopes around it, or below none where the name starts with `::`. One whose
/// name is written alone stands in the scopes around it.
pub proof fn law_scopes_of_functions(
    t: Seq<NodeView>,
    node: int,
    source: Seq<char>,
    kinds: Map<Seq<char>, Seq<char>>,
    at: int,
    names: Seq<Seq<char>>,
)
    requires
        written_name(t, node) == Some(at),
        names.len() > 0,
        forall|k: int| 0 <= k < names.len() ==> is_identifier(#[trigger] names[k]),
    ensures
        node_text(t, at, source) == joined(names) ==> is_extended_by(
            unit_scope(t, node, source, kinds),
            scope_of(t, node, source),
            names.drop_last(),
            kinds,
        ),
        node_text(t, at, source) == seq![':', ':'] + joined(names) ==> is_extended_by(
            unit_scope(t, node, source, kinds),
            Seq::empty(),
            names.drop_last(),
            kinds,
        ),
{
    lemma_prefixed(names);
    let path = joined(names);
    law_unprefixed(path);
    lemma_extended_scope(scope_of(t, node, source), names.drop_last(), kinds);
    lemma_extended_scope(Seq::empty(), names.drop_last(), kinds);
    let absolute = seq![':', ':'] + path;
    law_unprefixed(absolute);
    assert(absolute.skip(2) =~= path);
    assert(has_colons_at(absolute, 0));
}

/// A function without a written name stands in the scopes around it. So does one whose written name
/// has no plain parts, but where it is a qualified one a scope that is not known is added.
pub proof fn law_scopes_without_plain_names(
    t: Seq<NodeView>,
    node: int,
    source: Seq<char>,
    kinds: Map<Seq<char>, Seq<char>>,
    at: int,
)
    ensures
        written_name(t, node) is None ==> unit_scope(t, node, source, kinds) == scope_of(
            t,
            node,
            source,
        ),
        written_name(t, node) == Some(at) && name_parts(unprefixed(node_text(t, at, source)))
            is None && t[at].kind != "qualified_identifier"@ ==> unit_scope(t, node, source, kinds)
            == scope_of(t, node, source),
        written_name(t, node) == Some(at) && name_parts(unprefixed(node_text(t, at, source)))
            is None && t[at].kind == "qualified_identifier"@ ==> unit_scope(t, node, source, kinds)
            == scope_of(t, node, source).push(
            ScopeView {
                kind: "unknown"@,
                name: "(unresolved@"@ + decimal(t[node].start_byte as nat) + seq![')'],
            },
        ),
{
}

/// The qualified name of a unit is the names of its scopes and its own, joined by `::`. It is a
/// constructor where it has the name of the type that it stands in and returns nothing, and else a
/// function. Its name and its lines are those that are given, and its references its own.
pub proof fn law_units_are_named(
    t: Seq<NodeView>,
    node: int,
    source: Seq<char>,
    index: ScopeIndexView,
    name: Seq<char>,
    line: int,
    end: int,
)
    ensures
        ({
            let unit = unit_of(t, node, source, index, name, line, end);
            let scope = unit.scope;
            let in_own_type = field_of(t, node, "type"@) is None && scope.len() > 0
                && scope.last().kind == "type"@ && scope.last().name == name;
            &&& scope == unit_scope(t, node, source, index.kinds)
            &&& unit.name == name && unit.line == line && unit.end == end
            &&& unit.references == references_of(t, node, source, index)
            &&& unit.qualified_name == joined(
                Seq::new(scope.len(), |k: int| scope[k].name).push(name),
            )
            &&& in_own_type ==> unit.kind == "constructor"@
            &&& !in_own_type ==> unit.kind == "function"@
        }),
{
    let scope = unit_of(t, node, source, index, name, line, end).scope;
    assert(scope_names(scope) =~= Seq::new(scope.len(), |k: int| scope[k].name));
}

// ---------------------------------------------------------------------------------------------
// Arguments

/// The number of children of node `p` of the kind `kind`.
pub open spec fn children_of_kind(t: Seq<NodeView>, p: int, kind: Seq<char>) -> nat {
    children_of(t, p).filter(|c: int| t[c].kind == kind).len()
}

proof fn lemma_count(t: Seq<NodeView>, nodes: Seq<int>, kind: Seq<char>)
    ensures
        count_kind(t, nodes, kind) == nodes.filter(|c: int| t[c].kind == kind).len(),
    decreases nodes.len(),
{
    reveal(Seq::filter);
    if nodes.len() > 0 {
        lemma_count(t, nodes.drop_last(), kind);
    }
}

/// Whether a kind is one that a plain list of parameters holds.
pub open spec fn stands_in_parameters(kind: Seq<char>) -> bool {
    kind == "("@ || kind == ")"@ || kind == ","@ || kind == "comment"@ || kind
        == "parameter_declaration"@ || kind == "optional_parameter_declaration"@
}

/// A function takes as many arguments as it has parameters, those with a default at the most. The
/// list `(void)`, in exactly these characters, takes none. Where the list holds anything but
/// parentheses, commas, comments and such parameters, or where there is none, the numbers are not
/// known.
pub proof fn law_numbers_of_arguments(
    t: Seq<NodeView>,
    node: int,
    source: Seq<char>,
    index: ScopeIndexView,
    name: Seq<char>,
    line: int,
    end: int,
)
    requires
        preorder(t),
    ensures
        ({
            let unit = unit_of(t, node, source, index, name, line, end);
            match parameters_of(t, declarator_of(t, node)) {
                Some(p) => {
                    let void = trimmed(node_text(t, p, source)) == seq![
                        '(',
                        'v',
                        'o',
                        'i',
                        'd',
                        ')',
                    ];
                    let plain = forall|k: int|
                        0 <= k < children_of(t, p).len() ==> stands_in_parameters(
                            t[#[trigger] children_of(t, p)[k]].kind,
                        );
                    let least = children_of_kind(t, p, "parameter_declaration"@) as int;
                    let more = children_of_kind(t, p, "optional_parameter_declaration"@) as int;
                    &&& void ==> unit.min_args == Some(0int) && unit.max_args == Some(0int)
                    &&& !void && plain ==> unit.min_args == Some(least) && unit.max_args == Some(
                        least + more,
                    )
                    &&& !void && !plain ==> unit.min_args is None && unit.max_args is None
                },
                None => unit.min_args is None && unit.max_args is None,
            }
        }),
{
    reveal_strlit("(void)");
    assert("(void)"@ =~= seq!['(', 'v', 'o', 'i', 'd', ')']);
    match parameters_of(t, declarator_of(t, node)) {
        Some(p) => {
            let nodes = children_of(t, p);
            lemma_count(t, nodes, "parameter_declaration"@);
            lemma_count(t, nodes, "optional_parameter_declaration"@);
            assert(are_plain_parameters(t, nodes) == forall|k: int|
                0 <= k < nodes.len() ==> stands_in_parameters(t[#[trigger] nodes[k]].kind));
            assert(takes_void(t, node, source) == (trimmed(node_text(t, p, source)) == "(void)"@));
            assert(arity_of(t, declarator_of(t, node)).0 is Some == are_plain_parameters(t, nodes));
        },
        None => {},
    }
}

} // verus!
