//! What holds of every function that is restored from an annotated text.
use vstd::prelude::*;
use vstd::utf8::encode_utf8;
use crate::bodies::{
    binding_sites, binds_identifier, binds_locally, code_nodes, local_names,
};
use crate::declarators::{
    bound_node, declarator_name, first_declarator, function_declarator_of, naming_node,
};
use crate::blanks::lemma_blanked_lines;
use crate::extraction::{function_name, function_unit, is_accepted, is_function};
use crate::laws::{is_nominated, law_ancestors, lemma_nominated};
use crate::lookup::ContextView;
use crate::metadata::{declared_parts, opened_scopes, scope_of};
use crate::recovery::{
    annotated_units, candidate_of, candidates_of, is_covered, lemma_candidates, lemma_normalized,
    normalized, restored_at, restored_before, CandidateView,
};
use crate::references::{
    call_reference, candidate_of as reference_at, first_of_kind, initializer_of, parameters_of,
    reference_between, type_around,
};
use crate::scopes::{declarator_of, in_callable, written_name, ScopeIndexView};
use crate::signatures::{declaration_of, has_issue, is_recoverable, template_of};
use crate::subtree_laws::{
    is_copy, lemma_copied_code, lemma_copied_declarator, lemma_copied_sites,
};
use crate::syntax::{
    children_of, describes, field_of, fields_of, lemma_end, lemma_in_field, lemma_line_feeds,
    lemma_nested, lemma_parent, lemma_selected_children, named_of, node_text, parent_of, preorder,
    rows_count, span_fits, subtree_end, NodeView,
};
use crate::text::has_suffix;
use crate::units::{
    context_of, references_at, references_of, takes_void, unit_of, unit_scope,
    UnitView,
};

verus! {

/// A field whose node's text is read.
pub open spec fn is_read_field(field: Seq<char>) -> bool {
    field == "name"@ || field == "declarator"@ || field == "parameters"@ || field == "function"@
        || field == "field"@
}

/// Whether the text of node `k` is read for the unit of some function: it is a name, a declarator,
/// a list of parameters or, inside of a function, a type.
pub open spec fn is_read(t: Seq<NodeView>, k: int) -> bool {
    ||| t[k].field matches Some(field) && is_read_field(field)
    ||| t[k].field == Some("type"@) && in_callable(t, k)
    ||| t[k].kind == "identifier"@
    ||| t[k].kind == "field_identifier"@
    ||| t[k].kind == "type_identifier"@
    ||| has_suffix(t[k].kind, "declarator"@)
}

/// Whether everything that is read for units is the same in two texts.
pub open spec fn reads_alike(t: Seq<NodeView>, source: Seq<char>, other: Seq<char>) -> bool {
    forall|k: int|
        0 <= k < t.len() && is_read(t, k) ==> #[trigger] node_text(t, k, source) == node_text(
            t,
            k,
            other,
        )
}

/// A child that fills a field has it, and is a node of the tree.
pub proof fn lemma_field(t: Seq<NodeView>, i: int, field: Seq<char>)
    requires
        0 <= i < t.len(),
    ensures
        field_of(t, i, field) matches Some(c) ==> i < c < t.len() && t[c].field == Some(field),
        forall|k: int|
            0 <= k < fields_of(t, i, field).len() ==> i < #[trigger] fields_of(t, i, field)[k]
                < t.len() && t[fields_of(t, i, field)[k]].field == Some(field),
{
    lemma_selected_children(t, i, field);
    lemma_in_field(t, children_of(t, i), field);
}

proof fn lemma_first_declarator(t: Seq<NodeView>, nodes: Seq<int>)
    ensures
        first_declarator(t, nodes) matches Some(c) ==> has_suffix(t[c].kind, "declarator"@),
    decreases nodes.len(),
{
    if nodes.len() > 0 {
        lemma_first_declarator(t, nodes.drop_first());
    }
}

/// The node that holds the name of a declarator is read where the declarator is.
proof fn lemma_naming_node(t: Seq<NodeView>, i: int)
    requires
        0 <= i < t.len(),
        is_read(t, i),
    ensures
        0 <= naming_node(t, i) < t.len(),
        is_read(t, naming_node(t, i)),
    decreases t.len() - i,
{
    let inner = field_of(t, i, "declarator"@);
    let nested = first_declarator(t, named_of(t, i));
    lemma_field(t, i, "declarator"@);
    lemma_first_declarator(t, named_of(t, i));
    if inner is Some && i < inner->0 < t.len() {
        lemma_naming_node(t, inner->0);
    } else if inner is None && has_suffix(t[i].kind, "declarator"@) && nested is Some && i
        < nested->0 < t.len() {
        lemma_naming_node(t, nested->0);
    }
}

/// The node that a declarator binds is a node of the tree.
pub proof fn lemma_bound_node(t: Seq<NodeView>, i: int)
    requires
        0 <= i < t.len(),
    ensures
        0 <= bound_node(t, i) < t.len(),
    decreases t.len() - i,
{
    let inner = field_of(t, i, "declarator"@);
    let named = named_of(t, i);
    if inner is Some && i < inner->0 < t.len() {
        lemma_bound_node(t, inner->0);
    } else if inner is None && t[i].kind == "parenthesized_declarator"@ && named.len() > 0 && i
        < named[0] < t.len() {
        lemma_bound_node(t, named[0]);
    }
}

proof fn lemma_function_declarator(t: Seq<NodeView>, i: int)
    requires
        0 <= i < t.len(),
    ensures
        function_declarator_of(t, i) matches Some(d) ==> 0 <= d < t.len(),
    decreases t.len() - i,
{
    let inner = field_of(t, i, "declarator"@);
    if inner is Some && i < inner->0 < t.len() {
        lemma_function_declarator(t, inner->0);
    }
}

/// The declarator, the name and the parameters of a function are nodes of the tree, and its name
/// and its parameters are read.
pub proof fn lemma_declarator(t: Seq<NodeView>, i: int)
    requires
        0 <= i < t.len(),
    ensures
        declarator_of(t, i) matches Some(d) ==> 0 <= d < t.len(),
        written_name(t, i) matches Some(c) ==> 0 <= c < t.len() && is_read(t, c),
        parameters_of(t, declarator_of(t, i)) matches Some(c) ==> 0 <= c < t.len() && is_read(t, c),
{
    lemma_field(t, i, "declarator"@);
    match field_of(t, i, "declarator"@) {
        Some(d) => lemma_function_declarator(t, d),
        None => {},
    }
    match declarator_of(t, i) {
        Some(d) => {
            lemma_field(t, d, "declarator"@);
            lemma_field(t, d, "parameters"@);
        },
        None => {},
    }
}

/// Texts that read alike give the same scopes around a node.
pub proof fn lemma_scope(t: Seq<NodeView>, i: int, source: Seq<char>, other: Seq<char>)
    requires
        reads_alike(t, source, other),
        0 <= i < t.len(),
    ensures
        scope_of(t, i, source) == scope_of(t, i, other),
    decreases i,
{
    let parent = parent_of(t, i);
    if parent is Some && 0 <= parent->0 < i {
        let p = parent->0;
        lemma_scope(t, p, source, other);
        lemma_field(t, p, "name"@);
        assert(declared_parts(t, p, source) == declared_parts(t, p, other));
        assert(opened_scopes(t, p, source) == opened_scopes(t, p, other));
    }
}

proof fn lemma_unit_scope(
    t: Seq<NodeView>,
    i: int,
    source: Seq<char>,
    other: Seq<char>,
    kinds: Map<Seq<char>, Seq<char>>,
)
    requires
        reads_alike(t, source, other),
        0 <= i < t.len(),
    ensures
        unit_scope(t, i, source, kinds) == unit_scope(t, i, other, kinds),
        takes_void(t, i, source) == takes_void(t, i, other),
{
    lemma_scope(t, i, source, other);
    lemma_declarator(t, i);
    match written_name(t, i) {
        Some(at) => {
            assert(node_text(t, at, source) == node_text(t, at, other));
        },
        None => {},
    }
    match parameters_of(t, declarator_of(t, i)) {
        Some(at) => {
            assert(node_text(t, at, source) == node_text(t, at, other));
        },
        None => {},
    }
}

/// The code of a function stands inside of it, and so do the nodes that may bind its local names.
proof fn lemma_code(t: Seq<NodeView>, i: int, body: int)
    requires
        preorder(t),
        0 <= i < t.len(),
        field_of(t, i, "body"@) == Some(body),
    ensures
        ({
            let code = code_nodes(t, i, body);
            let sites = binding_sites(t, parameters_of(t, declarator_of(t, i)), code);
            &&& are_within(t, i, code)
            &&& forall|k: int| 0 <= k < sites.len() ==> 0 <= #[trigger] sites[k] < t.len()
        }),
{
    lemma_end(t, i);
    assert(is_copy(t, i, t, i));
    lemma_copied_declarator(t, i, t, i);
    lemma_copied_code(t, i, t, i, body);
    let code = code_nodes(t, i, body);
    let parameters = parameters_of(t, declarator_of(t, i));
    lemma_copied_sites(t, i, t, i, parameters, code);
    let sites = binding_sites(t, parameters, code);
    assert forall|k: int| 0 <= k < sites.len() implies 0 <= #[trigger] sites[k] < t.len() by {
        assert(i <= sites[k] < subtree_end(t, i));
    }
}

/// Whether all of `nodes` stand inside of node `i`.
pub open spec fn are_within(t: Seq<NodeView>, i: int, nodes: Seq<int>) -> bool {
    forall|k: int| 0 <= k < nodes.len() ==> i < #[trigger] nodes[k] < subtree_end(t, i)
}

/// What stands inside of a function is inside of a function.
proof fn lemma_in_function(t: Seq<NodeView>, function: int, k: int)
    requires
        preorder(t),
        0 <= function < k < subtree_end(t, function),
        is_function(t, function),
        function < t.len(),
    ensures
        in_callable(t, k),
        parent_of(t, k) is Some,
        function <= parent_of(t, k)->0 < k,
    decreases k,
{
    lemma_end(t, function);
    lemma_parent(t, k);
    let p = parent_of(t, k)->0;
    lemma_end(t, p);
    if p < function {
        assert(t[function].depth > t[p].depth);
    } else if p > function {
        lemma_in_function(t, function, p);
    }
}

/// The type that a node inside of a function has is read.
proof fn lemma_type(t: Seq<NodeView>, function: int, i: int)
    requires
        preorder(t),
        0 <= function <= i < subtree_end(t, function),
        is_function(t, function),
        function < t.len(),
    ensures
        field_of(t, i, "type"@) matches Some(c) ==> i < c < t.len() && is_read(t, c),
{
    lemma_end(t, function);
    lemma_field(t, i, "type"@);
    lemma_selected_children(t, i, "type"@);
    match field_of(t, i, "type"@) {
        Some(c) => {
            if i > function {
                lemma_nested(t, function, i);
            }
            lemma_in_function(t, function, c);
        },
        None => {},
    }
}

/// Texts that read alike bind the same local names.
proof fn lemma_local_names(t: Seq<NodeView>, sites: Seq<int>, source: Seq<char>, other: Seq<char>)
    requires
        reads_alike(t, source, other),
        forall|k: int| 0 <= k < sites.len() ==> 0 <= #[trigger] sites[k] < t.len(),
    ensures
        local_names(t, sites, source) == local_names(t, sites, other),
{
    assert forall|k: int, name: Seq<char>| 0 <= k < sites.len() implies #[trigger] binds_locally(
        t,
        sites[k],
        source,
        name,
    ) == binds_locally(t, sites[k], other, name) by {
        lemma_binds(t, sites[k], source, other, name);
        lemma_binds(t, sites[k], other, source, name);
    }
    assert forall|name: Seq<char>| #[trigger]
        local_names(t, sites, source).contains(name) == local_names(t, sites, other).contains(
            name,
        ) by {
        if local_names(t, sites, source).contains(name) {
            let k = choose|k: int|
                0 <= k < sites.len() && binds_locally(t, #[trigger] sites[k], source, name);
            assert(binds_locally(t, sites[k], other, name));
        }
        if local_names(t, sites, other).contains(name) {
            let k = choose|k: int|
                0 <= k < sites.len() && binds_locally(t, #[trigger] sites[k], other, name);
            assert(binds_locally(t, sites[k], source, name));
        }
    }
    assert(local_names(t, sites, source) =~= local_names(t, sites, other));
}

proof fn lemma_binds(
    t: Seq<NodeView>,
    i: int,
    source: Seq<char>,
    other: Seq<char>,
    name: Seq<char>,
)
    requires
        reads_alike(t, source, other) || reads_alike(t, other, source),
        0 <= i < t.len(),
    ensures
        binds_locally(t, i, source, name) ==> binds_locally(t, i, other, name),
{
    let nodes = fields_of(t, i, "declarator"@);
    lemma_field(t, i, "declarator"@);
    if binds_identifier(t, nodes, source, name) {
        let k = choose|k: int|
            0 <= k < nodes.len() && t[bound_node(t, #[trigger] nodes[k])].kind == "identifier"@
                && node_text(t, bound_node(t, nodes[k]), source) == name;
        lemma_bound_node(t, nodes[k]);
        let at = bound_node(t, nodes[k]);
        assert(is_read(t, at));
        assert(node_text(t, at, source) == node_text(t, at, other));
    }
}

proof fn lemma_reference(
    t: Seq<NodeView>,
    name: Option<int>,
    args: Option<int>,
    kind: Seq<char>,
    source: Seq<char>,
    other: Seq<char>,
)
    requires
        reads_alike(t, source, other),
        name matches Some(n) ==> 0 <= n < t.len() && is_read(t, n),
    ensures
        reference_between(t, name, args, kind, source) == reference_between(
            t,
            name,
            args,
            kind,
            other,
        ),
{
    match name {
        Some(n) => {
            assert(node_text(t, n, source) == node_text(t, n, other));
        },
        None => {},
    }
}

/// Texts that read alike make the same references.
proof fn lemma_reference_at(
    t: Seq<NodeView>,
    function: int,
    i: int,
    source: Seq<char>,
    other: Seq<char>,
)
    requires
        preorder(t),
        reads_alike(t, source, other),
        0 <= function < t.len(),
        is_function(t, function),
        function < i < subtree_end(t, function),
    ensures
        reference_at(t, function, i, source) == reference_at(t, function, i, other),
{
    lemma_end(t, function);
    lemma_field(t, i, "function"@);
    lemma_type(t, function, i);
    lemma_type(t, function, function);
    lemma_in_function(t, function, i);
    lemma_type(t, function, parent_of(t, i)->0);
    let own = field_of(t, i, "type"@);
    let returned = field_of(t, function, "type"@);
    let called = field_of(t, i, "function"@);
    let around = type_around(t, i);
    let arguments = field_of(t, i, "arguments"@);
    let made = "construct"@;
    let list = first_of_kind(t, named_of(t, i), "initializer_list"@);
    lemma_reference(t, own, field_of(t, i, "value"@), made, source, other);
    lemma_reference(t, own, Some(i), made, source, other);
    lemma_reference(
        t,
        around,
        initializer_of(t, i),
        made,
        source,
        other,
    );
    lemma_reference(t, returned, list, made, source, other);
    lemma_reference(t, called, arguments, "call"@, source, other);
    match called {
        Some(f) => {
            lemma_field(t, f, "field"@);
            lemma_reference(t, field_of(t, f, "field"@), arguments, "call"@, source, other);
        },
        None => {},
    }
    assert(call_reference(t, i, source) == call_reference(t, i, other));
}

proof fn lemma_references_at(
    t: Seq<NodeView>,
    function: int,
    nodes: Seq<int>,
    source: Seq<char>,
    other: Seq<char>,
    context: ContextView,
)
    requires
        preorder(t),
        reads_alike(t, source, other),
        0 <= function < t.len(),
        is_function(t, function),
        are_within(t, function, nodes),
    ensures
        references_at(t, function, nodes, source, context) == references_at(
            t,
            function,
            nodes,
            other,
            context,
        ),
    decreases nodes.len(),
{
    if nodes.len() > 0 {
        let some = nodes.drop_last();
        assert forall|k: int| 0 <= k < some.len() implies function < #[trigger] some[k]
            < subtree_end(t, function) by {
            assert(some[k] == nodes[k]);
        }
        lemma_references_at(t, function, some, source, other, context);
        assert(function < nodes[nodes.len() - 1] < subtree_end(t, function));
        lemma_reference_at(t, function, nodes.last(), source, other);
    }
}

/// Texts that read alike give a function the same unit.
pub proof fn law_texts_that_read_alike(
    t: Seq<NodeView>,
    i: int,
    source: Seq<char>,
    other: Seq<char>,
    index: ScopeIndexView,
    name: Seq<char>,
    line: int,
    end: int,
)
    requires
        preorder(t),
        reads_alike(t, source, other),
        0 <= i < t.len(),
        is_function(t, i),
    ensures
        unit_of(t, i, source, index, name, line, end) == unit_of(
            t,
            i,
            other,
            index,
            name,
            line,
            end,
        ),
        function_name(t, i, source) == function_name(t, i, other),
{
    lemma_unit_scope(t, i, source, other, index.kinds);
    lemma_field(t, i, "body"@);
    lemma_field(t, i, "declarator"@);
    match field_of(t, i, "declarator"@) {
        Some(d) => {
            lemma_naming_node(t, d);
            assert(node_text(t, naming_node(t, d), source) == node_text(
                t,
                naming_node(t, d),
                other,
            ));
            assert(declarator_name(t, d, source) == declarator_name(t, d, other));
        },
        None => {},
    }
    match field_of(t, i, "body"@) {
        Some(body) => {
            lemma_code(t, i, body);
            let code = code_nodes(t, i, body);
            let sites = binding_sites(t, parameters_of(t, declarator_of(t, i)), code);
            lemma_local_names(t, sites, source, other);
            let context = context_of(t, i, body, source, index);
            assert(context == context_of(t, i, body, other, index));
            lemma_references_at(t, i, code, source, other, context);
            assert(references_of(t, i, source, index) == references_of(t, i, other, index));
        },
        None => {},
    }
}

/// Whether the annotations of candidates stand outside of every name, declarator, list of
/// parameters and type.
pub open spec fn annotations_stand_apart(
    t: Seq<NodeView>,
    candidates: Map<(int, int), CandidateView>,
) -> bool {
    forall|k: int, at: int|
        0 <= k < t.len() && is_read(t, k) ==> !#[trigger] covers_in(t, k, candidates, at)
}

/// Whether some candidate's annotation covers the offset `at` in node `k`.
pub open spec fn covers_in(
    t: Seq<NodeView>,
    k: int,
    candidates: Map<(int, int), CandidateView>,
    at: int,
) -> bool {
    t[k].start_byte <= at < t[k].end_byte && is_covered(candidates, at)
}

/// A text and the text without its annotations read alike where the annotations stand apart.
pub proof fn lemma_normalized_reads_alike(
    t: Seq<NodeView>,
    source: Seq<char>,
    clean: Seq<char>,
    candidates: Map<(int, int), CandidateView>,
)
    requires
        encode_utf8(clean) == normalized(encode_utf8(source), candidates),
        describes(t, encode_utf8(clean)),
        annotations_stand_apart(t, candidates),
    ensures
        reads_alike(t, source, clean),
{
    let a = encode_utf8(source);
    let b = encode_utf8(clean);
    assert forall|k: int| 0 <= k < t.len() && is_read(t, k) implies #[trigger] node_text(
        t,
        k,
        source,
    ) == node_text(t, k, clean) by {
        assert(span_fits(b, t[k]));
        let from = t[k].start_byte;
        let to = t[k].end_byte;
        assert forall|at: int| from <= at < to implies a[at] == #[trigger] b[at] by {
            assert(!covers_in(t, k, candidates, at));
        }
        assert(a.subrange(from, to) =~= b.subrange(from, to));
    }
}

/// Whether `unit` is that of the function definition `i` but for its first line, which is no later,
/// and the same where the function starts with a template declaration.
pub open spec fn is_unit_but_for_the_line(
    t: Seq<NodeView>,
    i: int,
    source: Seq<char>,
    index: ScopeIndexView,
    unit: UnitView,
) -> bool {
    let own = function_unit(t, i, source, index);
    &&& unit == (UnitView { line: unit.line, ..own })
    &&& unit.line <= own.line
    &&& template_of(t, i) is Some && is_accepted(t, i) ==> unit.line == own.line
}

/// A restored function has the unit that the text without its annotations gives it, with the same
/// index and where the annotations stand apart from what is read. Only the first line can differ:
/// it is that of the annotated function, no later than the other, and the same where both start
/// with a template declaration. The text without annotations accepts the function too.
pub proof fn law_restored_units_match_the_clean_text(
    t: Seq<NodeView>,
    normal: Seq<NodeView>,
    source: Seq<char>,
    clean: Seq<char>,
    index: ScopeIndexView,
    i: int,
)
    requires
        describes(t, encode_utf8(source)),
        describes(normal, encode_utf8(clean)),
        encode_utf8(clean) == normalized(
            encode_utf8(source),
            candidates_of(t, encode_utf8(source)),
        ),
        annotations_stand_apart(normal, candidates_of(t, encode_utf8(source))),
        0 <= i < normal.len(),
        restored_at(
            normal,
            i,
            source,
            index,
            candidates_of(t, encode_utf8(source)),
        ) is Some,
    ensures
        ({
            let candidates = candidates_of(t, encode_utf8(source));
            let restored = (restored_at(normal, i, source, index, candidates)->0).1;
            &&& is_unit_but_for_the_line(normal, i, clean, index, restored)
            &&& !normal[i].has_error || has_issue(normal, i) ==> is_accepted(normal, i)
        }),
{
    let a = encode_utf8(source);
    let b = encode_utf8(clean);
    let candidates = candidates_of(t, a);
    let own = function_unit(normal, i, clean, index);
    let body = field_of(normal, i, "body"@)->0;
    let range = (normal[body].start_byte, normal[body].end_byte);
    let candidate = candidates[range];
    let restored = (restored_at(normal, i, source, index, candidates)->0).1;
    lemma_normalized_reads_alike(normal, source, clean, candidates);
    law_texts_that_read_alike(
        normal,
        i,
        source,
        clean,
        index,
        own.name,
        restored.line,
        restored.end,
    );
    lemma_candidates(t, a, t.len() as int);
    lemma_normalized(a, candidates);
    lemma_nominated(t, a, t.len() as int);
    assert(is_nominated(t, a, range, candidate));
    let j = choose|j: int|
        0 <= j < t.len() && #[trigger] candidate_of(t, j, a) == Some(
            (range, candidate),
        );
    let d = declaration_of(t, j);
    let e = declaration_of(normal, i);
    if d != j {
        lemma_parent(t, j);
        law_ancestors(t, a, d, j);
    }
    if e != i {
        lemma_parent(normal, i);
        law_ancestors(normal, b, e, i);
    }
    assert(span_fits(a, t[j]) && span_fits(a, t[d]));
    assert(span_fits(b, normal[i]) && span_fits(b, normal[e]));
    assert(rows_count(a, t[j]) && rows_count(a, t[d]));
    assert(rows_count(b, normal[i]) && rows_count(b, normal[e]));
    lemma_blanked_lines(a, b, normal[i].end_byte);
    lemma_blanked_lines(a, b, normal[i].start_byte);
    lemma_blanked_lines(a, b, normal[e].start_byte);
    lemma_line_feeds(a, t[d].start_byte, normal[i].start_byte);
    assert(restored.end == own.end);
    if normal[i].has_error && has_issue(normal, i) {
        lemma_selected_children(normal, i, "body"@);
        lemma_end(normal, i);
        if e != i {
            lemma_nested(normal, e, i);
        }
        assert(is_recoverable(normal, e, body));
        assert(is_recoverable(normal, i, body));
    }
}

/// A unit that is restored for a function is restored by some node.
pub proof fn lemma_restoring_node(
    normal: Seq<NodeView>,
    source: Seq<char>,
    index: ScopeIndexView,
    candidates: Map<(int, int), CandidateView>,
    n: int,
    function: (int, int),
) -> (i: int)
    requires
        restored_before(normal, source, index, candidates, n).contains_key(function),
    ensures
        0 <= i < n,
        restored_at(normal, i, source, index, candidates) == Some(
            (function, restored_before(normal, source, index, candidates, n)[function]),
        ),
    decreases n,
{
    match restored_at(normal, n - 1, source, index, candidates) {
        Some(found) => {
            if found.0 == function {
                n - 1
            } else {
                lemma_restoring_node(normal, source, index, candidates, n - 1, function)
            }
        },
        None => lemma_restoring_node(normal, source, index, candidates, n - 1, function),
    }
}

/// Every unit that is recovered from an annotated text is, but for its first line, the unit of a
/// function of the text without the annotations, with the same index and where the annotations
/// stand apart from what is read.
pub proof fn law_annotated_units_match_the_clean_text(
    t: Seq<NodeView>,
    normal: Seq<NodeView>,
    source: Seq<char>,
    clean: Seq<char>,
    index: ScopeIndexView,
)
    requires
        describes(t, encode_utf8(source)),
        describes(normal, encode_utf8(clean)),
        encode_utf8(clean) == normalized(
            encode_utf8(source),
            candidates_of(t, encode_utf8(source)),
        ),
        annotations_stand_apart(normal, candidates_of(t, encode_utf8(source))),
    ensures
        forall|function: (int, int)| #[trigger]
            annotated_units(t, normal, source, index).contains_key(function) ==> exists|i: int|
                0 <= i < normal.len() && is_function(normal, i) && normal[i].end_byte == function.1
                    && #[trigger] is_unit_but_for_the_line(
                    normal,
                    i,
                    clean,
                    index,
                    annotated_units(t, normal, source, index)[function],
                ),
{
    let candidates = candidates_of(t, encode_utf8(source));
    let units = annotated_units(t, normal, source, index);
    assert forall|function: (int, int)| #[trigger] units.contains_key(function) implies exists|
        i: int,
    |
        0 <= i < normal.len() && is_function(normal, i) && normal[i].end_byte == function.1
            && #[trigger] is_unit_but_for_the_line(
            normal,
            i,
            clean,
            index,
            units[function],
        ) by {
        let i = lemma_restoring_node(
            normal,
            source,
            index,
            candidates,
            normal.len() as int,
            function,
        );
        law_restored_units_match_the_clean_text(t, normal, source, clean, index, i);
        assert(is_unit_but_for_the_line(normal, i, clean, index, units[function]));
    }
}

} // verus!
