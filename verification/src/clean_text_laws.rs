//! What an annotated text and the text without its annotations have in common.
use vstd::prelude::*;
use vstd::utf8::encode_utf8;
use crate::blanks::lemma_blanked_lines;
use crate::bodies::code_nodes;
use crate::cpp::cpp_syntax;
use crate::declarators::{bound_name, bound_node};
use crate::extraction::{
    extraction_of, extraction_with, function_name, function_unit, is_accepted, is_function,
    is_omitted, range_of,
};
use crate::laws::{
    functions_before, kept, law_functions_in_preorder, law_units_and_omissions, unit_given,
};
use crate::lookup::{is_absolute, ContextView};
use crate::metadata::{declared_parts, ReferenceView};
use crate::pairing_laws::{
    is_pair, is_pairing, lemma_paired_scope, lemma_paired_trees, partners,
};
use crate::recovery::{
    annotated_units, candidates_of, lemma_candidates, lemma_normalized, normalized,
};
use crate::recovery_laws::{
    annotations_stand_apart, is_read, is_unit_but_for_the_line,
    law_restored_units_match_the_clean_text, law_texts_that_read_alike, lemma_bound_node,
    lemma_declarator, lemma_field, lemma_normalized_reads_alike, lemma_restoring_node, lemma_scope,
    reads_alike,
};
use crate::references::candidate_of as reference_at;
use crate::scopes::{
    binds, blocked_before, declares, declares_in, defines_member, imports_in, index_of,
    kinds_before, members_before, uncertain_before, written_name, ScopeIndexView,
};
use crate::signatures::{
    declaration_of, has_issue, is_issue, is_missing_type, is_recoverable, template_of,
};
use crate::subtree_laws::{
    is_copy, law_copied_functions_have_one_unit, lemma_copied_children, lemma_copied_parent,
};
use crate::syntax::{
    describes, field_of, fields_of, lemma_end, node_text, parent_of, preorder, rows_count,
    span_fits, subtree_end, NodeView,
};
use crate::units::{context_of, references_at, references_of, unit_of, UnitView};

verus! {

// ---------------------------------------------------------------------------------------------
// Indexes

/// Texts that read alike bind the same name in a declarator.
proof fn lemma_bound_name(t: Seq<NodeView>, i: int, source: Seq<char>, other: Seq<char>)
    requires
        reads_alike(t, source, other),
        0 <= i < t.len(),
    ensures
        bound_name(t, i, source) == bound_name(t, i, other),
{
    lemma_bound_node(t, i);
    let at = bound_node(t, i);
    if t[at].kind == "identifier"@ || t[at].kind == "field_identifier"@ || t[at].kind
        == "type_identifier"@ {
        assert(is_read(t, at));
        assert(node_text(t, at, source) == node_text(t, at, other));
    }
}

proof fn lemma_parts(t: Seq<NodeView>, i: int, source: Seq<char>, other: Seq<char>)
    requires
        reads_alike(t, source, other),
        0 <= i < t.len(),
    ensures
        declared_parts(t, i, source) == declared_parts(t, i, other),
{
    lemma_field(t, i, "name"@);
    match field_of(t, i, "name"@) {
        Some(name) => {
            assert(is_read(t, name));
            assert(node_text(t, name, source) == node_text(t, name, other));
        },
        None => {},
    }
}

proof fn lemma_declares(
    t: Seq<NodeView>,
    i: int,
    source: Seq<char>,
    other: Seq<char>,
    name: Seq<char>,
)
    requires
        reads_alike(t, source, other),
        0 <= i < t.len(),
    ensures
        declares(t, i, source, name) == declares(t, i, other, name),
{
    lemma_field(t, i, "name"@);
    match field_of(t, i, "name"@) {
        Some(alias) => {
            assert(is_read(t, alias));
            assert(node_text(t, alias, source) == node_text(t, alias, other));
        },
        None => {},
    }
    lemma_field(t, i, "declarator"@);
    let nodes = fields_of(t, i, "declarator"@);
    assert forall|k: int| 0 <= k < nodes.len() implies bound_name(t, #[trigger] nodes[k], source)
        == bound_name(t, nodes[k], other) by {
        lemma_bound_name(t, nodes[k], source, other);
    }
    if binds(t, nodes, source, name) {
        let k = choose|k: int|
            0 <= k < nodes.len() && bound_name(t, #[trigger] nodes[k], source) == Some(name);
        assert(bound_name(t, nodes[k], other) == Some(name));
    }
    if binds(t, nodes, other, name) {
        let k = choose|k: int|
            0 <= k < nodes.len() && bound_name(t, #[trigger] nodes[k], other) == Some(name);
        assert(bound_name(t, nodes[k], source) == Some(name));
    }
}

proof fn lemma_member(
    t: Seq<NodeView>,
    i: int,
    source: Seq<char>,
    other: Seq<char>,
    path: Seq<char>,
    name: Seq<char>,
)
    requires
        reads_alike(t, source, other),
        0 <= i < t.len(),
    ensures
        defines_member(t, i, source, path, name) == defines_member(t, i, other, path, name),
{
    lemma_scope(t, i, source, other);
    lemma_declarator(t, i);
    match written_name(t, i) {
        Some(at) => {
            assert(node_text(t, at, source) == node_text(t, at, other));
        },
        None => {},
    }
}

proof fn lemma_kinds(t: Seq<NodeView>, source: Seq<char>, other: Seq<char>, n: int)
    requires
        reads_alike(t, source, other),
        n <= t.len(),
    ensures
        kinds_before(t, source, n) == kinds_before(t, other, n),
    decreases n,
{
    if n > 0 {
        lemma_kinds(t, source, other, n - 1);
        lemma_parts(t, n - 1, source, other);
        lemma_scope(t, n - 1, source, other);
    }
}

/// Texts that read alike have the same index.
pub proof fn law_texts_that_read_alike_have_one_index(
    t: Seq<NodeView>,
    source: Seq<char>,
    other: Seq<char>,
)
    requires
        reads_alike(t, source, other),
    ensures
        index_of(t, source) == index_of(t, other),
{
    let n = t.len() as int;
    lemma_kinds(t, source, other, n);
    assert forall|i: int, path: Seq<char>, name: Seq<char>|
        #![trigger declares_in(t, i, source, path, name)]
        #![trigger declares_in(t, i, other, path, name)]
        0 <= i < n implies declares_in(t, i, source, path, name) == declares_in(
        t,
        i,
        other,
        path,
        name,
    ) by {
        lemma_scope(t, i, source, other);
        lemma_declares(t, i, source, other, name);
    }
    assert(blocked_before(t, source, n) =~= blocked_before(t, other, n));
    assert forall|i: int, path: Seq<char>|
        #![trigger imports_in(t, i, source, path)]
        #![trigger imports_in(t, i, other, path)]
        0 <= i < n implies imports_in(t, i, source, path) == imports_in(t, i, other, path) by {
        lemma_scope(t, i, source, other);
    }
    assert(uncertain_before(t, source, n) =~= uncertain_before(t, other, n));
    assert forall|i: int, path: Seq<char>, name: Seq<char>|
        #![trigger defines_member(t, i, source, path, name)]
        #![trigger defines_member(t, i, other, path, name)]
        0 <= i < n implies defines_member(t, i, source, path, name) == defines_member(
        t,
        i,
        other,
        path,
        name,
    ) by {
        lemma_member(t, i, source, other, path, name);
    }
    assert(members_before(t, source, n) =~= members_before(t, other, n));
}

/// Whether two indexes tell the same of every reference: they hold the same scopes, declarations
/// and imports, and the same members unless there are no imports at all.
pub open spec fn resolve_alike(a: ScopeIndexView, b: ScopeIndexView) -> bool {
    &&& a.kinds == b.kinds
    &&& a.blocked == b.blocked
    &&& a.uncertain == b.uncertain
    &&& a.members == b.members || a.uncertain == Set::<Seq<char>>::empty()
}

/// What one context knows of names, the other knows too.
proof fn lemma_known(context: ContextView, other: ContextView, r: ReferenceView)
    requires
        other == (ContextView { index: other.index, ..context }),
        resolve_alike(context.index, other.index),
    ensures
        context.has_unknown_scope() ==> other.has_unknown_scope(),
        context.is_uncertain() ==> other.is_uncertain(),
        forall|name: Seq<char>| #[trigger] context.shadows(name) ==> other.shadows(name),
        context.declares_constructor(r.name) ==> other.declares_constructor(r.name),
        context.hides_qualified(r.qualifier, r.name) ==> other.hides_qualified(
            r.qualifier,
            r.name,
        ),
{
    let scope = context.scope;
    assert(other.scope == scope);
    if context.has_unknown_scope() {
        let i = choose|i: int| 0 <= i < scope.len() && (#[trigger] scope[i]).kind == "unknown"@;
        assert(other.scope[i].kind == "unknown"@);
    }
    if context.is_uncertain() && !context.has_unknown_scope() {
        let i = choose|i: int|
            0 <= i <= scope.len() && context.index.uncertain.contains(
                #[trigger] context.prefix(i),
            );
        assert(other.index.uncertain.contains(other.prefix(i)));
    }
    assert forall|name: Seq<char>| #[trigger] context.shadows(name) implies other.shadows(
        name,
    ) by {
        if !context.locals.contains(name) {
            let i = choose|i: int|
                0 <= i <= scope.len() && context.index.blocked.contains(
                    (#[trigger] context.prefix(i), name),
                );
            assert(other.index.blocked.contains((other.prefix(i), name)));
        }
    }
    if context.hides_qualified(r.qualifier, r.name) {
        let absolute = is_absolute(r.qualifier);
        let most = if absolute {
            0
        } else {
            scope.len() as int
        };
        if absolute || r.qualifier.len() == 0 || !context.shadows(r.qualifier[0]) {
            let i = choose|i: int|
                0 <= i <= most && context.hides(
                    #[trigger] context.qualified_path(i, r.qualifier),
                    r.name,
                );
            assert(other.hides(other.qualified_path(i, r.qualifier), r.name));
        }
    }
}

proof fn lemma_resolved(context: ContextView, index: ScopeIndexView, r: ReferenceView)
    requires
        resolve_alike(context.index, index),
    ensures
        (ContextView { index, ..context }).resolved(r) == context.resolved(r),
{
    let other = ContextView { index, ..context };
    lemma_known(context, other, r);
    lemma_known(other, context, r);
    assert(other.shadows(r.name) == context.shadows(r.name));
    assert(context.is_uncertain() ==> other.is_known_member(r.name) == context.is_known_member(
        r.name,
    ));
}

proof fn lemma_resolved_all(
    t: Seq<NodeView>,
    function: int,
    nodes: Seq<int>,
    source: Seq<char>,
    context: ContextView,
    index: ScopeIndexView,
)
    requires
        resolve_alike(context.index, index),
    ensures
        references_at(t, function, nodes, source, ContextView { index, ..context })
            == references_at(t, function, nodes, source, context),
    decreases nodes.len(),
{
    if nodes.len() > 0 {
        lemma_resolved_all(t, function, nodes.drop_last(), source, context, index);
        match reference_at(t, function, nodes.last(), source) {
            Some(reference) => lemma_resolved(context, index, reference),
            None => {},
        }
    }
}

/// A function has the same unit under two indexes that tell the same of every reference.
pub proof fn law_indexes_that_resolve_alike(
    t: Seq<NodeView>,
    i: int,
    source: Seq<char>,
    a: ScopeIndexView,
    b: ScopeIndexView,
    name: Seq<char>,
    line: int,
    end: int,
)
    requires
        resolve_alike(a, b),
    ensures
        unit_of(t, i, source, a, name, line, end) == unit_of(t, i, source, b, name, line, end),
{
    match field_of(t, i, "body"@) {
        Some(body) => {
            let context = context_of(t, i, body, source, a);
            assert(context_of(t, i, body, source, b) == (ContextView { index: b, ..context }));
            lemma_resolved_all(
                t,
                i,
                code_nodes(t, i, body),
                source,
                context,
                b,
            );
        },
        None => {},
    }
    assert(references_of(t, i, source, a) == references_of(t, i, source, b));
}

// ---------------------------------------------------------------------------------------------
// Whole texts

/// Whether `clean`, with the tree `u`, is the text `source`, with the tree `t`, without its
/// annotations, which stand apart from what is read.
pub open spec fn is_clean_text_of(
    t: Seq<NodeView>,
    u: Seq<NodeView>,
    source: Seq<char>,
    clean: Seq<char>,
) -> bool {
    let candidates = candidates_of(t, encode_utf8(source));
    &&& describes(t, encode_utf8(source))
    &&& describes(u, encode_utf8(clean))
    &&& encode_utf8(clean) == normalized(encode_utf8(source), candidates)
    &&& annotations_stand_apart(u, candidates)
}

/// Whether no two functions of a tree end at the same place.
pub open spec fn functions_end_apart(u: Seq<NodeView>) -> bool {
    forall|a: int, b: int|
        0 <= a < b < u.len() && #[trigger] is_function(u, a) && #[trigger] is_function(u, b)
            ==> u[a].end_byte != u[b].end_byte
}

/// Whether every function with an error holds a node that is in error or missing.
pub open spec fn errors_show(u: Seq<NodeView>) -> bool {
    forall|i: int|
        0 <= i < u.len() && #[trigger] is_function(u, i) && u[i].has_error ==> has_issue(u, i)
}

/// Whether the tree `t` of the text `source` and the tree `u` of the text `clean` differ only in
/// the signatures of functions, so that the texts declare the same.
pub open spec fn differ_in_signatures(
    t: Seq<NodeView>,
    u: Seq<NodeView>,
    pairs: Map<int, int>,
    source: Seq<char>,
    clean: Seq<char>,
) -> bool {
    &&& is_pairing(t, u, pairs)
    &&& functions_end_apart(u)
    &&& errors_show(u)
    &&& index_of(t, source).uncertain == Set::<Seq<char>>::empty() || index_of(t, source).members
        == index_of(u, clean).members
}

/// A node that is missing in a function is missing in the copy of the function.
proof fn lemma_copied_missing_type(
    t: Seq<NodeView>,
    i: int,
    u: Seq<NodeView>,
    j: int,
    body: int,
    k: int,
)
    requires
        preorder(t),
        is_copy(t, i, u, j),
        is_function(t, i),
        i < body < subtree_end(t, i),
        i <= k < subtree_end(t, i),
        is_missing_type(t, k, body),
    ensures
        is_missing_type(u, k + (j - i), body + (j - i)),
{
    let d = j - i;
    assert(u[k + d] == t[k] && u[body + d] == t[body]);
    if k == i {
        reveal_strlit("function_definition");
        reveal_strlit("type_identifier");
        assert("function_definition"@.len() == 19 && "type_identifier"@.len() == 15);
    } else {
        lemma_copied_parent(t, i, u, j, k);
        let p = parent_of(t, k)->0;
        assert(u[p + d] == t[p]);
    }
}

/// The errors that can be recovered in a function can be recovered in its copy.
proof fn lemma_copied_issues(t: Seq<NodeView>, i: int, u: Seq<NodeView>, j: int, body: int)
    requires
        preorder(t),
        is_copy(t, i, u, j),
        is_function(t, i),
        i < body < subtree_end(t, i),
        is_recoverable(t, i, body),
    ensures
        is_recoverable(u, j, body + (j - i)),
{
    let d = j - i;
    assert(u[body + d] == t[body]);
    let k = choose|k: int| i <= k < subtree_end(t, i) && is_issue(#[trigger] t[k]);
    assert(u[k + d] == t[k]);
    assert(is_issue(u[k + d]));
    assert forall|m: int|
        j <= m < subtree_end(u, j) && is_issue(#[trigger] u[m]) implies is_missing_type(
        u,
        m,
        body + d,
    ) by {
        assert(u[(m - d) + d] == t[m - d]);
        assert(is_issue(t[m - d]));
        lemma_copied_missing_type(t, i, u, j, body, m - d);
    }
}

/// A function whose subtree two trees have in common is accepted in both.
proof fn lemma_copied_acceptance(t: Seq<NodeView>, i: int, u: Seq<NodeView>, j: int)
    requires
        preorder(t),
        is_copy(t, i, u, j),
        is_function(t, i),
        is_accepted(t, i),
    ensures
        is_accepted(u, j),
{
    lemma_end(t, i);
    lemma_copied_children(t, i, u, j, i, "body"@);
    let body = field_of(t, i, "body"@)->0;
    assert(u[j] == t[i]);
    if t[i].has_error {
        lemma_copied_issues(t, i, u, j, body);
    }
}

/// A function that is accepted as it stands starts on the same row in both texts.
proof fn lemma_first_rows(
    t: Seq<NodeView>,
    u: Seq<NodeView>,
    pairs: Map<int, int>,
    source: Seq<char>,
    clean: Seq<char>,
    i: int,
)
    requires
        is_clean_text_of(t, u, source, clean),
        is_pairing(t, u, pairs),
        pairs.contains_key(i),
        is_function(t, i),
        is_accepted(t, i),
    ensures
        t[declaration_of(t, i)].start_row == u[declaration_of(u, pairs[i])].start_row,
        t[i].end_row == u[pairs[i]].end_row,
{
    let j = pairs[i];
    let a = encode_utf8(source);
    let b = encode_utf8(clean);
    assert(is_pair(t, u, pairs, i));
    lemma_end(t, i);
    assert(u[j] == t[i]);
    if i > 0 {
        let p = parent_of(t, i)->0;
        assert(is_pair(t, u, pairs, p));
        if template_of(t, i) is Some {
            lemma_candidates(t, a, t.len() as int);
            lemma_normalized(a, candidates_of(t, a));
            assert(span_fits(a, t[p]) && span_fits(b, u[pairs[p]]));
            assert(rows_count(a, t[p]) && rows_count(b, u[pairs[p]]));
            lemma_blanked_lines(a, b, t[p].start_byte);
        }
    } else {
        assert(parent_of(u, j) is None);
    }
}

/// The indexes of the two texts tell the same of every reference.
proof fn lemma_indexes(
    t: Seq<NodeView>,
    u: Seq<NodeView>,
    pairs: Map<int, int>,
    source: Seq<char>,
    clean: Seq<char>,
)
    requires
        is_clean_text_of(t, u, source, clean),
        differ_in_signatures(t, u, pairs, source, clean),
    ensures
        resolve_alike(index_of(t, source), index_of(u, clean)),
        reads_alike(u, source, clean),
{
    lemma_normalized_reads_alike(u, source, clean, candidates_of(t, encode_utf8(source)));
    law_texts_that_read_alike_have_one_index(u, source, clean);
    lemma_paired_trees(t, u, pairs, source);
}

/// A function that an annotated text keeps is accepted as it stands in the text without the
/// annotations, and has the unit that it has there, with its scope, its numbers of arguments and
/// its references. Only the first line can differ, where an annotation stands on a line before.
pub proof fn law_kept_functions_have_their_clean_unit(
    t: Seq<NodeView>,
    u: Seq<NodeView>,
    pairs: Map<int, int>,
    source: Seq<char>,
    clean: Seq<char>,
    i: int,
)
    requires
        is_clean_text_of(t, u, source, clean),
        differ_in_signatures(t, u, pairs, source, clean),
        0 <= i < t.len(),
        is_function(t, i),
        !is_omitted(t, i, annotated_units(t, u, source, index_of(t, source))),
    ensures
        ({
            let index = index_of(t, source);
            let unit = unit_given(t, i, source, index, annotated_units(t, u, source, index));
            let j = pairs[i];
            let clean_index = index_of(u, clean);
            &&& pairs.contains_key(i)
            &&& is_function(u, j)
            &&& is_accepted(u, j)
            &&& is_unit_but_for_the_line(u, j, clean, clean_index, unit)
            &&& unit.line == t[declaration_of(t, i)].start_row + 1
            &&& t[declaration_of(t, i)].start_row == u[declaration_of(u, j)].start_row ==> unit
                == function_unit(u, j, clean, clean_index)
        }),
{
    let index = index_of(t, source);
    let clean_index = index_of(u, clean);
    let annotated = annotated_units(t, u, source, index);
    let unit = unit_given(t, i, source, index, annotated);
    let j = pairs[i];
    assert(pairs.contains_key(i));
    assert(is_pair(t, u, pairs, i));
    lemma_indexes(t, u, pairs, source, clean);
    lemma_paired_scope(t, u, pairs, i, source);
    let name = function_name(t, i, source);
    if is_accepted(t, i) {
        lemma_copied_acceptance(t, i, u, j);
        lemma_first_rows(t, u, pairs, source, clean, i);
        law_copied_functions_have_one_unit(
            t,
            i,
            u,
            j,
            source,
            index,
            name,
            unit.line,
            unit.end,
        );
        law_texts_that_read_alike(u, j, source, clean, index, name, unit.line, unit.end);
        law_indexes_that_resolve_alike(
            u,
            j,
            clean,
            index,
            clean_index,
            name,
            unit.line,
            unit.end,
        );
    } else {
        let candidates = candidates_of(t, encode_utf8(source));
        let k = lemma_restoring_node(
            u,
            source,
            index,
            candidates,
            u.len() as int,
            range_of(t, i),
        );
        assert(is_function(u, k) && is_function(u, j));
        assert(k == j);
        law_restored_units_match_the_clean_text(t, u, source, clean, index, j);
        let own = function_unit(u, j, clean, index);
        law_indexes_that_resolve_alike(
            u,
            j,
            clean,
            index,
            clean_index,
            own.name,
            own.line,
            own.end,
        );
    }
}

/// Those of `nodes` that an annotated text keeps are the partners of those that the other keeps.
proof fn lemma_kept_partners(
    t: Seq<NodeView>,
    u: Seq<NodeView>,
    pairs: Map<int, int>,
    nodes: Seq<int>,
    annotated: Map<(int, int), UnitView>,
    others: Map<(int, int), UnitView>,
)
    requires
        forall|k: int|
            0 <= k < nodes.len() ==> is_omitted(t, #[trigger] nodes[k], annotated) == is_omitted(
                u,
                pairs[nodes[k]],
                others,
            ),
    ensures
        kept(u, partners(pairs, nodes), others) == partners(pairs, kept(t, nodes, annotated)),
        forall|k: int|
            0 <= k < kept(t, nodes, annotated).len() ==> nodes.contains(
                #[trigger] kept(t, nodes, annotated)[k],
            ) && !is_omitted(t, kept(t, nodes, annotated)[k], annotated),
    decreases nodes.len(),
{
    let all = kept(t, nodes, annotated);
    if nodes.len() > 0 {
        let some = nodes.drop_last();
        assert forall|k: int| 0 <= k < some.len() implies is_omitted(
            t,
            #[trigger] some[k],
            annotated,
        ) == is_omitted(u, pairs[some[k]], others) by {
            assert(some[k] == nodes[k]);
        }
        lemma_kept_partners(t, u, pairs, some, annotated, others);
        assert(partners(pairs, nodes).drop_last() =~= partners(pairs, some));
        assert(nodes[nodes.len() - 1] == nodes.last());
        let before = kept(t, some, annotated);
        assert forall|k: int| 0 <= k < all.len() implies nodes.contains(#[trigger] all[k])
            && !is_omitted(t, all[k], annotated) by {
            if k < before.len() {
                assert(all[k] == before[k]);
                let m = choose|m: int| 0 <= m < some.len() && some[m] == before[k];
                assert(nodes[m] == all[k]);
            } else {
                assert(nodes[nodes.len() - 1] == all[k]);
            }
        }
    }
    assert(kept(u, partners(pairs, nodes), others) =~= partners(pairs, all));
}

/// Whether the text without annotations leaves out every function that the annotated text leaves
/// out, so that an annotation is all that is wrong with the others.
pub open spec fn leaves_out_the_same(
    t: Seq<NodeView>,
    u: Seq<NodeView>,
    pairs: Map<int, int>,
    annotated: Map<(int, int), UnitView>,
    others: Map<(int, int), UnitView>,
) -> bool {
    forall|i: int|
        0 <= i < t.len() && #[trigger] is_function(t, i) && is_omitted(t, i, annotated)
            ==> is_omitted(u, pairs[i], others)
}

/// Whether no function starts on an earlier row in the annotated text, as with an annotation on a
/// line of its own.
pub open spec fn start_on_the_same_rows(
    t: Seq<NodeView>,
    u: Seq<NodeView>,
    pairs: Map<int, int>,
) -> bool {
    forall|i: int|
        0 <= i < t.len() && #[trigger] is_function(t, i) ==> t[declaration_of(t, i)].start_row
            == u[declaration_of(u, pairs[i])].start_row
}

/// Whether two lists of units are the same but for first lines, which are no later in the first.
pub open spec fn are_units_but_for_the_line(units: Seq<UnitView>, others: Seq<UnitView>) -> bool {
    &&& units.len() == others.len()
    &&& forall|k: int|
        0 <= k < units.len() ==> (#[trigger] units[k]) == (UnitView {
            line: units[k].line,
            ..others[k]
        }) && units[k].line <= others[k].line
}

/// An annotated text has the units of the text without its annotations, in the same order: names,
/// scopes, numbers of arguments and references are the same, and so are the lines, unless an
/// annotation stands on a line before its function. This holds where the trees of the two texts
/// differ only in the signatures of functions and the same functions are left out. `second` is any
/// tree by which functions of the text without annotations may be restored in turn.
pub proof fn law_annotated_texts_have_the_units_of_the_clean_text(
    t: Seq<NodeView>,
    u: Seq<NodeView>,
    second: Seq<NodeView>,
    pairs: Map<int, int>,
    source: Seq<char>,
    clean: Seq<char>,
)
    requires
        is_clean_text_of(t, u, source, clean),
        differ_in_signatures(t, u, pairs, source, clean),
        leaves_out_the_same(
            t,
            u,
            pairs,
            annotated_units(t, u, source, index_of(t, source)),
            annotated_units(u, second, clean, index_of(u, clean)),
        ),
    ensures
        are_units_but_for_the_line(
            extraction_with(t, u, source).units,
            extraction_with(u, second, clean).units,
        ),
        start_on_the_same_rows(t, u, pairs) ==> extraction_with(t, u, source).units
            == extraction_with(u, second, clean).units,
{
    let index = index_of(t, source);
    let clean_index = index_of(u, clean);
    let annotated = annotated_units(t, u, source, index);
    let others = annotated_units(u, second, clean, clean_index);
    let functions = functions_before(t, t.len() as int);
    law_units_and_omissions(t, source, index, annotated);
    law_units_and_omissions(u, clean, clean_index, others);
    lemma_paired_trees(t, u, pairs, source);
    law_functions_in_preorder(t, t.len() as int);
    assert forall|k: int| 0 <= k < functions.len() implies is_omitted(
        t,
        #[trigger] functions[k],
        annotated,
    ) == is_omitted(u, pairs[functions[k]], others) by {
        let i = functions[k];
        assert(functions.contains(i));
        if !is_omitted(t, i, annotated) {
            law_kept_functions_have_their_clean_unit(t, u, pairs, source, clean, i);
        }
    }
    lemma_kept_partners(t, u, pairs, functions, annotated, others);
    let stays = kept(t, functions, annotated);
    let units = extraction_with(t, u, source).units;
    let clean_units = extraction_with(u, second, clean).units;
    assert forall|k: int| 0 <= k < units.len() implies (#[trigger] units[k]) == (UnitView {
        line: units[k].line,
        ..clean_units[k]
    }) && units[k].line <= clean_units[k].line && (start_on_the_same_rows(t, u, pairs) ==> units[k]
        == clean_units[k]) by {
        let i = stays[k];
        assert(functions.contains(i));
        assert(partners(pairs, stays)[k] == pairs[i]);
        law_kept_functions_have_their_clean_unit(t, u, pairs, source, clean, i);
        assert(units[k] == unit_given(t, i, source, index, annotated));
        assert(clean_units[k] == function_unit(u, pairs[i], clean, clean_index));
    }
    if start_on_the_same_rows(t, u, pairs) {
        assert(units =~= clean_units);
    }
}

/// An annotated text with plain raw strings has the units of the text without its annotations,
/// where the trees of the two texts differ only in the signatures of functions, the same functions
/// are left out, and no function starts on an earlier row for its annotation.
pub proof fn law_plain_annotated_texts_have_the_units_of_the_clean_text(
    pairs: Map<int, int>,
    source: Seq<char>,
    clean: Seq<char>,
)
    requires
        ({
            let t = cpp_syntax(encode_utf8(source));
            let u = cpp_syntax(encode_utf8(clean));
            let again = cpp_syntax(
                normalized(encode_utf8(clean), candidates_of(u, encode_utf8(clean))),
            );
            &&& is_clean_text_of(t, u, source, clean)
            &&& differ_in_signatures(t, u, pairs, source, clean)
            &&& leaves_out_the_same(
                t,
                u,
                pairs,
                annotated_units(t, u, source, index_of(t, source)),
                annotated_units(u, again, clean, index_of(u, clean)),
            )
            &&& start_on_the_same_rows(t, u, pairs)
        }),
    ensures
        extraction_of(source).units == extraction_of(clean).units,
{
    let t = cpp_syntax(encode_utf8(source));
    let u = cpp_syntax(encode_utf8(clean));
    let again = cpp_syntax(normalized(encode_utf8(clean), candidates_of(u, encode_utf8(clean))));
    law_annotated_texts_have_the_units_of_the_clean_text(t, u, again, pairs, source, clean);
}

} // verus!
