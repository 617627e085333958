//! Which functions are units, which are repaired and which are left out, said of the kinds, the
//! fields, the errors and the ranges of nodes.
use vstd::prelude::*;
use vstd::utf8::encode_utf8;
use crate::blanks::{is_annotation, is_annotation_byte, is_capital};
use crate::code_laws::is_at;
use crate::cpp::is_tree_of;
use crate::declarators::declarator_name;
use crate::extraction::{
    extracted, extracted_before, extraction_with, function_unit, is_accepted, is_defaulted,
    is_extraction_of, is_function, is_omitted, is_restorable, omission, range_of, DiagnosticView,
    ExtractionView,
};
use crate::laws::{
    functions_before, is_nominated, kept, law_ancestors, law_complete_functions_are_units,
    law_functions_in_preorder, law_later_nodes_follow, law_root_error, law_units_and_omissions,
    lemma_nominated, lemma_partition, unit_given,
};
use crate::recovery::{
    annotated_units, candidate_of, candidates_before, candidates_of, covers, in_signature,
    is_covered, is_parsed_again, issues_in_signature, normalized, restored_at, restored_before,
    start_of, CandidateView,
};
use crate::recovery_laws::lemma_restoring_node;
use crate::scopes::{index_of, ScopeIndexView};
use crate::signatures::{
    declaration_of, has_issue, is_issue, is_missing_type, is_recoverable, misses_types_only,
    template_of,
};
use crate::syntax::{
    describes, field_of, lemma_end, lemma_parent, lemma_selected_children, parent_of,
    preorder, span_fits, subtree_end, NodeView,
};
use crate::tree_laws::{is_child, is_inside, law_fields, law_parents, law_subtrees};
use crate::units::{unit_of, UnitView};

verus! {

// ---------------------------------------------------------------------------------------------
// Functions that are accepted as they stand

/// Whether node `m` is in error, or was put in by the parser.
pub open spec fn is_faulty(t: Seq<NodeView>, m: int) -> bool {
    t[m].error || t[m].missing
}

/// Whether there is something faulty at or in node `i`, and all of it is a missing type of a
/// default argument `= {}` before the body `body`, which has no error.
pub open spec fn only_misses_types(t: Seq<NodeView>, i: int, body: int) -> bool {
    &&& !t[body].has_error
    &&& exists|m: int| #[trigger] is_at(t, i, m) && is_faulty(t, m)
    &&& forall|m: int| #[trigger]
        is_at(t, i, m) && is_faulty(t, m) ==> t[m].missing && t[m].kind == "type_identifier"@
            && t[m].end_byte <= t[body].start_byte && (parent_of(t, m) matches Some(p) && t[p].kind
            == "compound_literal_expression"@)
}

proof fn lemma_recoverable(t: Seq<NodeView>, i: int, body: int)
    requires
        0 <= i < t.len(),
    ensures
        is_recoverable(t, i, body) <==> only_misses_types(t, i, body),
{
    assert forall|m: int| #[trigger] is_at(t, i, m) <==> i <= m < subtree_end(t, i) by {
        law_subtrees(t, i, m);
    }
    if has_issue(t, i) {
        let m = choose|m: int| i <= m < subtree_end(t, i) && is_issue(#[trigger] t[m]);
        assert(is_at(t, i, m) && is_faulty(t, m));
    }
    if exists|m: int| #[trigger] is_at(t, i, m) && is_faulty(t, m) {
        let m = choose|m: int| #[trigger] is_at(t, i, m) && is_faulty(t, m);
        assert(is_issue(t[m]));
    }
    if misses_types_only(t, i, body) {
        assert forall|m: int| #[trigger] is_at(t, i, m) && is_faulty(t, m) implies t[m].missing
            && t[m].kind == "type_identifier"@ && t[m].end_byte <= t[body].start_byte && (
        parent_of(t, m) matches Some(p) && t[p].kind == "compound_literal_expression"@) by {
            assert(is_issue(t[m]));
            assert(is_missing_type(t, m, body));
        }
    }
    if only_misses_types(t, i, body) {
        assert forall|m: int|
            i <= m < subtree_end(t, i) && is_issue(#[trigger] t[m]) implies is_missing_type(
            t,
            m,
            body,
        ) by {
            assert(is_at(t, i, m) && is_faulty(t, m));
        }
    }
}

/// Whether the function `i` is complete: it has a body, and no error, or only missing types of
/// default arguments `= {}`.
pub open spec fn is_complete(t: Seq<NodeView>, i: int) -> bool {
    field_of(t, i, "body"@) matches Some(body) && (!t[i].has_error || only_misses_types(
        t,
        i,
        body,
    ))
}

/// Exactly the complete functions are accepted as they stand.
pub proof fn law_complete_functions_are_accepted(t: Seq<NodeView>, i: int)
    requires
        0 <= i < t.len(),
    ensures
        is_accepted(t, i) <==> is_complete(t, i),
        is_function(t, i) <==> t[i].kind == "function_definition"@,
        is_defaulted(t, i) <==> is_complete(t, i) && t[i].has_error,
{
    match field_of(t, i, "body"@) {
        Some(body) => {
            lemma_recoverable(t, i, body);
        },
        None => {},
    }
}

/// The row on which the function `i` starts: that of its template declaration, where it has one.
pub open spec fn first_row(t: Seq<NodeView>, i: int) -> int {
    match parent_of(t, i) {
        Some(p) => if t[p].kind == "template_declaration"@ {
            t[p].start_row
        } else {
            t[i].start_row
        },
        None => t[i].start_row,
    }
}

/// The lines of a function: a complete one starts with its template declaration, any other with
/// itself. A function that is left out has an error or no body, and that is the reason.
pub proof fn law_lines_and_reasons(
    t: Seq<NodeView>,
    i: int,
    source: Seq<char>,
    index: ScopeIndexView,
)
    requires
        0 <= i < t.len(),
    ensures
        is_complete(t, i) ==> function_unit(t, i, source, index).line == first_row(t, i) + 1,
        !is_complete(t, i) ==> function_unit(t, i, source, index).line == t[i].start_row + 1,
        function_unit(t, i, source, index).end == t[i].end_row + 1,
        t[i].has_error ==> omission(t, i) == "parse_error"@,
        !t[i].has_error ==> omission(t, i) == "no_body"@,
{
    law_complete_functions_are_accepted(t, i);
}

// ---------------------------------------------------------------------------------------------
// Functions that are repaired

/// Whether the bytes from `from` up to `to` are three or more capitals, digits and underscores,
/// with a capital among them.
pub open spec fn is_in_capitals(bytes: Seq<u8>, from: int, to: int) -> bool {
    &&& to - from >= 3
    &&& forall|k: int|
        from <= k < to ==> 0x41 <= #[trigger] bytes[k] <= 0x5a || 0x30 <= bytes[k] <= 0x39
            || bytes[k] == 0x5f
    &&& exists|k: int| from <= k < to && 0x41 <= #[trigger] bytes[k] <= 0x5a
}

/// Whether the function `i`, with the body `b` and the type `p`, is broken only between `p`, which
/// is a name in capitals, and its body, which has no error.
pub open spec fn is_broken_after_a_prefix(
    t: Seq<NodeView>,
    bytes: Seq<u8>,
    i: int,
    b: int,
    p: int,
) -> bool {
    &&& t[i].kind == "function_definition"@
    &&& t[i].has_error
    &&& field_of(t, i, "body"@) == Some(b)
    &&& field_of(t, i, "type"@) == Some(p)
    &&& field_of(t, i, "declarator"@) matches Some(d) && t[p].end_byte <= t[d].start_byte
    &&& !t[b].has_error && t[b].kind == "compound_statement"@
    &&& t[p].kind == "type_identifier"@
    &&& is_in_capitals(bytes, t[p].start_byte, t[p].end_byte)
    &&& exists|m: int| #[trigger] is_at(t, i, m) && is_faulty(t, m)
    &&& forall|m: int| #[trigger]
        is_at(t, i, m) && is_faulty(t, m) ==> t[p].end_byte <= t[m].start_byte && t[m].end_byte
            <= t[b].start_byte
}

/// Where the template declaration of node `i` starts.
pub open spec fn template_start_of(t: Seq<NodeView>, i: int) -> Option<int> {
    match parent_of(t, i) {
        Some(q) => if t[q].kind == "template_declaration"@ {
            Some(t[q].start_byte)
        } else {
            None
        },
        None => None,
    }
}

/// Whether the function `j` of the text without prefixes, with the declarator `e`, is the function
/// `i` without its prefix `p`: it has the same body, the same end and the same template declaration
/// or none, its type and its declarator stand after the prefix and before the body, and it has no
/// error but missing types of default arguments `= {}`.
pub open spec fn is_mended(
    t: Seq<NodeView>,
    i: int,
    b: int,
    p: int,
    u: Seq<NodeView>,
    j: int,
    e: int,
) -> bool {
    &&& u[j].kind == "function_definition"@
    &&& field_of(u, j, "declarator"@) == Some(e)
    &&& field_of(u, j, "body"@) matches Some(c) && {
        &&& u[c].start_byte == t[b].start_byte && u[c].end_byte == t[b].end_byte
        &&& t[i].start_byte <= u[j].start_byte < u[c].start_byte
        &&& u[j].end_byte == t[i].end_byte
        &&& template_start_of(u, j) == template_start_of(t, i)
        &&& t[p].end_byte <= u[e].start_byte && u[e].end_byte <= t[b].start_byte
        &&& field_of(u, j, "type"@) matches Some(y) && t[p].end_byte <= u[y].start_byte
            && u[y].end_byte <= t[b].start_byte
        &&& {
            let head = match parent_of(u, j) {
                Some(q) => if u[q].kind == "template_declaration"@ {
                    q
                } else {
                    j
                },
                None => j,
            };
            !u[head].has_error || only_misses_types(u, head, c)
        }
    }
}

proof fn lemma_capitals(bytes: Seq<u8>, from: int, to: int)
    requires
        0 <= from <= to <= bytes.len(),
    ensures
        is_annotation(bytes.subrange(from, to)) <==> is_in_capitals(bytes, from, to),
{
    let name = bytes.subrange(from, to);
    assert forall|k: int| from <= k < to implies #[trigger] bytes[k] == name[k - from] by {}
    if is_annotation(name) {
        let k = choose|k: int|
            0 <= k < name.len() && is_capital(#[trigger] name[k]);
        assert(0x41 <= bytes[from + k] <= 0x5a);
    }
    if is_in_capitals(bytes, from, to) {
        let k = choose|k: int| from <= k < to && 0x41 <= #[trigger] bytes[k] <= 0x5a;
        assert(is_capital(name[k - from]));
        assert forall|m: int| 0 <= m < name.len() implies is_annotation_byte(
            #[trigger] name[m],
        ) by {
            assert(name[m] == bytes[from + m]);
        }
    }
}

/// The candidates of a tree are the functions that are broken after a prefix.
pub proof fn law_candidates(
    t: Seq<NodeView>,
    bytes: Seq<u8>,
    i: int,
    b: int,
    p: int,
)
    requires
        describes(t, bytes),
        0 <= i < t.len(),
    ensures
        is_broken_after_a_prefix(t, bytes, i, b, p) ==> candidate_of(t, i, bytes) == Some(
            (
                (t[b].start_byte, t[b].end_byte),
                CandidateView {
                    function: (t[i].start_byte, t[i].end_byte),
                    template_start: template_start_of(t, i),
                    line: first_row(t, i) + 1,
                    end: t[i].end_row + 1,
                    prefix: (t[p].start_byte, t[p].end_byte),
                },
            ),
        ),
        candidate_of(t, i, bytes) is Some ==> field_of(t, i, "body"@) is Some && field_of(
            t,
            i,
            "type"@,
        ) is Some && is_broken_after_a_prefix(
            t,
            bytes,
            i,
            field_of(t, i, "body"@)->0,
            field_of(t, i, "type"@)->0,
        ),
{
    assert forall|m: int| #[trigger] is_at(t, i, m) <==> i <= m < subtree_end(t, i) by {
        law_subtrees(t, i, m);
    }
    lemma_selected_children(t, i, "type"@);
    match field_of(t, i, "type"@) {
        Some(q) => {
            assert(span_fits(bytes, t[q]));
            lemma_capitals(bytes, t[q].start_byte, t[q].end_byte);
        },
        None => {},
    }
    if has_issue(t, i) {
        let m = choose|m: int| i <= m < subtree_end(t, i) && is_issue(#[trigger] t[m]);
        assert(is_at(t, i, m) && is_faulty(t, m));
    }
    if is_broken_after_a_prefix(t, bytes, i, b, p) {
        let m = choose|m: int| #[trigger] is_at(t, i, m) && is_faulty(t, m);
        assert(is_issue(t[m]));
        assert forall|m: int|
            i <= m < subtree_end(t, i) && is_issue(
                #[trigger] t[m],
            ) implies in_signature(t[m], t[p], t[b]) by {
            assert(is_at(t, i, m) && is_faulty(t, m));
        }
        assert(issues_in_signature(t, i, p, b));
    }
    if candidate_of(t, i, bytes) is Some {
        let q = field_of(t, i, "type"@)->0;
        let c = field_of(t, i, "body"@)->0;
        assert(issues_in_signature(t, i, q, c));
        assert forall|m: int| #[trigger] is_at(t, i, m) && is_faulty(t, m) implies t[q].end_byte
            <= t[m].start_byte && t[m].end_byte <= t[c].start_byte by {
            assert(is_issue(t[m]));
        }
    }
}

/// Whether no compound statement is empty: each has its braces.
pub open spec fn statements_have_braces(t: Seq<NodeView>) -> bool {
    forall|b: int|
        0 <= b < t.len() && (#[trigger] t[b]).kind == "compound_statement"@ ==> t[b].start_byte
            < t[b].end_byte
}

/// The prefix of a broken function stands in it and is not empty, and its body comes after.
proof fn lemma_broken(t: Seq<NodeView>, bytes: Seq<u8>, i: int, b: int, p: int)
    requires
        describes(t, bytes),
        statements_have_braces(t),
        0 <= i < t.len(),
        is_broken_after_a_prefix(t, bytes, i, b, p),
    ensures
        is_child(t, i, b) && is_child(t, i, p),
        t[i].start_byte <= t[p].start_byte < t[p].end_byte <= t[b].start_byte < t[b].end_byte
            <= t[i].end_byte,
{
    law_fields(t, i, "body"@, b);
    law_fields(t, i, "type"@, p);
    law_subtrees(t, i, b);
    law_subtrees(t, i, p);
    law_ancestors(t, bytes, i, b);
    law_ancestors(t, bytes, i, p);
    let m = choose|m: int| #[trigger] is_at(t, i, m) && is_faulty(t, m);
    assert(span_fits(bytes, t[m]));
    assert(t[b].start_byte < t[b].end_byte);
}

/// Nodes with the same range, which is not empty, are inside of each other.
proof fn lemma_same_range(t: Seq<NodeView>, bytes: Seq<u8>, a: int, c: int)
    requires
        describes(t, bytes),
        0 <= a < c < t.len(),
        t[a].start_byte == t[c].start_byte < t[a].end_byte == t[c].end_byte,
    ensures
        is_inside(t, a, c),
{
    law_subtrees(t, a, c);
    if c >= subtree_end(t, a) {
        law_later_nodes_follow(t, bytes, a, c);
    }
}

/// A function whose body has the range of a node around it starts before that node.
proof fn lemma_body_inside(t: Seq<NodeView>, bytes: Seq<u8>, outer: int, k: int, c: int)
    requires
        describes(t, bytes),
        is_inside(t, outer, c),
        is_child(t, k, c),
        t[outer].start_byte == t[c].start_byte,
    ensures
        k == outer || is_inside(t, outer, k),
        t[k].start_byte == t[c].start_byte || k < outer,
{
    law_subtrees(t, outer, k);
    law_subtrees(t, outer, c);
    law_subtrees(t, k, c);
    law_ancestors(t, bytes, k, c);
    if k < outer {
        assert(t[outer].depth > t[k].depth);
        assert(t[c].depth > t[outer].depth);
    } else if k > outer {
        assert(t[k].depth > t[outer].depth);
        assert(is_inside(t, outer, k)) by {
            assert forall|m: int| outer < m <= k implies (#[trigger] t[m]).depth
                > t[outer].depth by {}
        }
        law_ancestors(t, bytes, outer, k);
    }
}

proof fn lemma_one_body(
    t: Seq<NodeView>,
    bytes: Seq<u8>,
    i: int,
    b: int,
    p: int,
    k: int,
    c: int,
    q: int,
)
    requires
        describes(t, bytes),
        statements_have_braces(t),
        0 <= i < t.len(),
        0 <= k < t.len(),
        is_broken_after_a_prefix(t, bytes, i, b, p),
        is_broken_after_a_prefix(t, bytes, k, c, q),
        t[b].start_byte == t[c].start_byte,
        t[b].end_byte == t[c].end_byte,
        b <= c,
    ensures
        b == c,
{
    lemma_broken(t, bytes, i, b, p);
    lemma_broken(t, bytes, k, c, q);
    if b < c {
        lemma_same_range(t, bytes, b, c);
        lemma_body_inside(t, bytes, b, k, c);
        law_subtrees(t, b, k);
        if k != b {
            law_ancestors(t, bytes, b, k);
        }
    }
}

/// Two broken functions with bodies of the same range are one.
proof fn lemma_same_body(
    t: Seq<NodeView>,
    bytes: Seq<u8>,
    i: int,
    b: int,
    p: int,
    k: int,
    c: int,
    q: int,
)
    requires
        describes(t, bytes),
        statements_have_braces(t),
        0 <= i < t.len(),
        0 <= k < t.len(),
        is_broken_after_a_prefix(t, bytes, i, b, p),
        is_broken_after_a_prefix(t, bytes, k, c, q),
        t[b].start_byte == t[c].start_byte,
        t[b].end_byte == t[c].end_byte,
    ensures
        i == k,
{
    if b <= c {
        lemma_one_body(t, bytes, i, b, p, k, c, q);
    } else {
        lemma_one_body(t, bytes, k, c, q, i, b, p);
    }
    lemma_broken(t, bytes, i, b, p);
    lemma_broken(t, bytes, k, c, q);
    law_parents(t, i, b);
    law_parents(t, k, b);
}

proof fn lemma_one_function(
    t: Seq<NodeView>,
    bytes: Seq<u8>,
    i: int,
    b: int,
    p: int,
    k: int,
    c: int,
    q: int,
)
    requires
        describes(t, bytes),
        statements_have_braces(t),
        0 <= i <= k < t.len(),
        is_broken_after_a_prefix(t, bytes, i, b, p),
        is_broken_after_a_prefix(t, bytes, k, c, q),
        range_of(t, i) == range_of(t, k),
    ensures
        i == k,
{
    if i < k {
        lemma_broken(t, bytes, i, b, p);
        lemma_broken(t, bytes, k, c, q);
        lemma_same_range(t, bytes, i, k);
        law_subtrees(t, i, k);
        law_subtrees(t, i, p);
        if p == k {
            reveal_strlit("function_definition");
            reveal_strlit("type_identifier");
            assert("function_definition"@.len() == 19 && "type_identifier"@.len() == 15);
        } else if p < k {
            lemma_end(t, p);
            if k < subtree_end(t, p) {
                law_ancestors(t, bytes, p, k);
            } else {
                law_later_nodes_follow(t, bytes, p, k);
            }
        } else {
            lemma_end(t, k);
            if p < subtree_end(t, k) {
                assert(t[p].depth > t[k].depth);
                assert(t[k].depth > t[i].depth);
            } else {
                law_later_nodes_follow(t, bytes, k, p);
            }
        }
    }
}

/// What stands for a broken function among the candidates is that function.
proof fn lemma_candidate_stays(
    t: Seq<NodeView>,
    bytes: Seq<u8>,
    i: int,
    b: int,
    p: int,
    n: int,
)
    requires
        describes(t, bytes),
        statements_have_braces(t),
        0 <= i < n <= t.len(),
        is_broken_after_a_prefix(t, bytes, i, b, p),
    ensures
        ({
            let key = (t[b].start_byte, t[b].end_byte);
            &&& candidates_before(t, bytes, n).contains_key(key)
            &&& candidate_of(t, i, bytes) == Some((key, candidates_before(t, bytes, n)[key]))
        }),
    decreases n,
{
    law_candidates(t, bytes, i, b, p);
    let k = n - 1;
    if i < k {
        lemma_candidate_stays(t, bytes, i, b, p, k);
        match candidate_of(t, k, bytes) {
            Some(found) => {
                if found.0 == (t[b].start_byte, t[b].end_byte) {
                    law_candidates(t, bytes, k, b, p);
                    let c = field_of(t, k, "body"@)->0;
                    let q = field_of(t, k, "type"@)->0;
                    lemma_same_body(t, bytes, i, b, p, k, c, q);
                }
            },
            None => {},
        }
    }
}

/// Of the functions of the text without prefixes one at most has a given body and starts before it.
proof fn lemma_one_mended(u: Seq<NodeView>, bytes: Seq<u8>, j: int, c: int, k: int, d: int)
    requires
        describes(u, bytes),
        is_child(u, j, c),
        is_child(u, k, d),
        u[c].start_byte == u[d].start_byte < u[c].end_byte == u[d].end_byte,
        u[j].start_byte < u[c].start_byte,
        u[k].start_byte < u[d].start_byte,
    ensures
        j == k,
{
    if c < d {
        lemma_same_range(u, bytes, c, d);
        lemma_body_inside(u, bytes, c, k, d);
    } else if d < c {
        lemma_same_range(u, bytes, d, c);
        lemma_body_inside(u, bytes, d, j, c);
    } else {
        law_parents(u, j, c);
        law_parents(u, k, c);
    }
}

/// Whether `entry` says that the function `i` is repaired: one that is complete in spite of an
/// error under its own unit, and one without its prefix under the unit that it has without it.
pub open spec fn is_repair_of(
    t: Seq<NodeView>,
    i: int,
    source: Seq<char>,
    index: ScopeIndexView,
    annotated: Map<(int, int), UnitView>,
    entry: DiagnosticView,
) -> bool {
    &&& t[i].kind == "function_definition"@
    &&& is_complete(t, i) ==> t[i].has_error && entry.unit == function_unit(t, i, source, index)
        && entry.reason == "default_brace_signature_missing_type"@
    &&& !is_complete(t, i) ==> !is_omitted(t, i, annotated) && annotated.contains_key(
        (t[i].start_byte, t[i].end_byte),
    ) && entry.unit == annotated[(t[i].start_byte, t[i].end_byte)] && entry.reason
        == "annotation_prefix_signature"@
}

proof fn lemma_recovered(
    t: Seq<NodeView>,
    source: Seq<char>,
    index: ScopeIndexView,
    annotated: Map<(int, int), UnitView>,
    n: int,
    entry: DiagnosticView,
)
    requires
        0 <= n <= t.len(),
    ensures
        extracted_before(t, source, index, annotated, n).recovered.contains(entry) <==> exists|
            i: int,
        |
            0 <= i < n && #[trigger] is_repair_of(t, i, source, index, annotated, entry),
    decreases n,
{
    let now = extracted_before(t, source, index, annotated, n).recovered;
    if n > 0 {
        let last = n - 1;
        lemma_recovered(t, source, index, annotated, last, entry);
        law_complete_functions_are_accepted(t, last);
        let before = extracted_before(t, source, index, annotated, last).recovered;
        if now.len() > before.len() {
            assert(now.drop_last() =~= before);
            assert(now[before.len() as int] == now.last());
            assert(is_repair_of(t, last, source, index, annotated, entry) <==> entry
                == now.last());
            if before.contains(entry) {
                let m = choose|m: int| 0 <= m < before.len() && before[m] == entry;
                assert(now[m] == entry);
            }
            if now.contains(entry) && entry != now.last() {
                let m = choose|m: int| 0 <= m < now.len() && now[m] == entry;
                assert(before[m] == entry);
            }
        } else {
            assert(now == before);
            assert(!is_repair_of(t, last, source, index, annotated, entry));
        }
    } else {
        assert(now.len() == 0);
    }
}

/// The repaired functions that are listed are those with an error that are complete, and those that
/// have a unit without their prefix.
pub proof fn law_repaired_functions_are_listed(
    t: Seq<NodeView>,
    source: Seq<char>,
    index: ScopeIndexView,
    annotated: Map<(int, int), UnitView>,
    entry: DiagnosticView,
)
    ensures
        extracted(t, source, index, annotated).recovered.contains(entry) <==> exists|i: int|
            0 <= i < t.len() && #[trigger] is_repair_of(t, i, source, index, annotated, entry),
{
    lemma_recovered(t, source, index, annotated, t.len() as int, entry);
}

/// The node of a function or of its template declaration.
spec fn head_of(u: Seq<NodeView>, j: int) -> int {
    match parent_of(u, j) {
        Some(q) => if u[q].kind == "template_declaration"@ {
            q
        } else {
            j
        },
        None => j,
    }
}

proof fn lemma_mended(
    t: Seq<NodeView>,
    bytes: Seq<u8>,
    i: int,
    b: int,
    p: int,
    u: Seq<NodeView>,
    j: int,
    source: Seq<char>,
    index: ScopeIndexView,
)
    requires
        describes(t, bytes),
        statements_have_braces(t),
        0 <= i < t.len(),
        is_broken_after_a_prefix(t, bytes, i, b, p),
        preorder(u),
        0 <= j < u.len(),
    ensures
        ({
            let candidates = candidates_of(t, bytes);
            let found = restored_at(u, j, source, index, candidates);
            let d = field_of(u, j, "declarator"@);
            &&& d is Some && is_mended(t, i, b, p, u, j, d->0) ==> found == Some(
                (
                    (t[i].start_byte, t[i].end_byte),
                    unit_of(
                        u,
                        j,
                        source,
                        index,
                        declarator_name(u, d->0, source),
                        first_row(t, i) + 1,
                        t[i].end_row + 1,
                    ),
                ),
            )
            &&& found is Some && (field_of(u, j, "body"@) matches Some(c) && u[c].start_byte
                == t[b].start_byte && u[c].end_byte == t[b].end_byte) ==> d is Some && is_mended(
                t,
                i,
                b,
                p,
                u,
                j,
                d->0,
            )
        }),
{
    lemma_candidate_stays(t, bytes, i, b, p, t.len() as int);
    law_candidates(t, bytes, i, b, p);
    if j > 0 {
        lemma_parent(u, j);
    }
    let head = head_of(u, j);
    assert(head == declaration_of(u, j));
    assert(start_of(u, template_of(u, j)) == template_start_of(u, j));
    match field_of(u, j, "body"@) {
        Some(c) => {
            lemma_recoverable(u, head, c);
        },
        None => {},
    }
}

proof fn lemma_restored_stays(
    u: Seq<NodeView>,
    source: Seq<char>,
    index: ScopeIndexView,
    candidates: Map<(int, int), CandidateView>,
    j: int,
    n: int,
)
    requires
        0 <= j < n,
        restored_at(u, j, source, index, candidates) is Some,
        forall|k: int|
            0 <= k < n && (#[trigger] restored_at(u, k, source, index, candidates) matches Some(
                found,
            ) && found.0 == (restored_at(u, j, source, index, candidates)->0).0) ==> k == j,
    ensures
        restored_before(u, source, index, candidates, n).contains_key(
            (restored_at(u, j, source, index, candidates)->0).0,
        ),
        restored_before(
            u,
            source,
            index,
            candidates,
            n,
        )[(restored_at(u, j, source, index, candidates)->0).0] == (restored_at(
            u,
            j,
            source,
            index,
            candidates,
        )->0).1,
    decreases n,
{
    if j < n - 1 {
        lemma_restored_stays(u, source, index, candidates, j, n - 1);
        match restored_at(u, n - 1, source, index, candidates) {
            Some(found) => {},
            None => {},
        }
    }
}

/// A node that restores the range of a broken function has its body.
proof fn lemma_restores_it(
    t: Seq<NodeView>,
    bytes: Seq<u8>,
    i: int,
    b: int,
    p: int,
    u: Seq<NodeView>,
    k: int,
    source: Seq<char>,
    index: ScopeIndexView,
)
    requires
        describes(t, bytes),
        statements_have_braces(t),
        0 <= i < t.len(),
        is_broken_after_a_prefix(t, bytes, i, b, p),
        restored_at(u, k, source, index, candidates_of(t, bytes)) matches Some(found) && found.0
            == range_of(t, i),
    ensures
        field_of(u, k, "body"@) matches Some(c) && u[c].start_byte == t[b].start_byte
            && u[c].end_byte == t[b].end_byte,
{
    let candidates = candidates_of(t, bytes);
    let c = field_of(u, k, "body"@)->0;
    let key = (u[c].start_byte, u[c].end_byte);
    lemma_nominated(t, bytes, t.len() as int);
    assert(candidates.contains_key(key));
    assert(is_nominated(t, bytes, key, candidates[key]));
    let m = choose|m: int|
        0 <= m < t.len() && #[trigger] candidate_of(t, m, bytes) == Some((key, candidates[key]));
    law_candidates(t, bytes, m, b, p);
    let d = field_of(t, m, "body"@)->0;
    let q = field_of(t, m, "type"@)->0;
    law_candidates(t, bytes, m, d, q);
    assert(range_of(t, m) == range_of(t, i));
    if m <= i {
        lemma_one_function(t, bytes, m, d, q, i, b, p);
    } else {
        lemma_one_function(t, bytes, i, b, p, m, d, q);
    }
}

/// A function that is broken only between a prefix in capitals and its body is repaired where the
/// text without prefixes has, with the same body, a function without an error, with the same end,
/// the same template declaration or none, and a type and a declarator after the prefix and before
/// the body. It then has the unit of that function, under its own lines. Nothing else matters:
/// neither rows nor the white space in between.
pub proof fn law_broken_functions_are_repaired(
    t: Seq<NodeView>,
    u: Seq<NodeView>,
    bytes_without_prefixes: Seq<u8>,
    source: Seq<char>,
    i: int,
    b: int,
    p: int,
    j: int,
    e: int,
)
    requires
        describes(t, encode_utf8(source)),
        statements_have_braces(t),
        describes(u, bytes_without_prefixes),
        0 <= i < t.len(),
        is_broken_after_a_prefix(t, encode_utf8(source), i, b, p),
        0 <= j < u.len(),
        is_mended(t, i, b, p, u, j, e),
    ensures
        ({
            let index = index_of(t, source);
            let extraction = extraction_with(t, u, source);
            let unit = unit_of(
                u,
                j,
                source,
                index,
                declarator_name(u, e, source),
                first_row(t, i) + 1,
                t[i].end_row + 1,
            );
            &&& !is_omitted(t, i, annotated_units(t, u, source, index))
            &&& is_complete(t, i) ==> extraction.units.contains(
                function_unit(t, i, source, index),
            )
            &&& !is_complete(t, i) ==> extraction.units.contains(unit)
                && extraction.recovered.contains(
                DiagnosticView { unit, reason: "annotation_prefix_signature"@ },
            )
        }),
{
    let bytes = encode_utf8(source);
    let index = index_of(t, source);
    let candidates = candidates_of(t, bytes);
    let annotated = annotated_units(t, u, source, index);
    let range = range_of(t, i);
    lemma_broken(t, bytes, i, b, p);
    lemma_candidate_stays(t, bytes, i, b, p, t.len() as int);
    lemma_mended(t, bytes, i, b, p, u, j, source, index);
    law_root_error(t, bytes, i);
    let c = field_of(u, j, "body"@)->0;
    law_fields(u, j, "body"@, c);
    assert forall|k: int|
        0 <= k < u.len() && (#[trigger] restored_at(u, k, source, index, candidates) matches Some(
            found,
        ) && found.0 == range) implies k == j by {
        lemma_restores_it(t, bytes, i, b, p, u, k, source, index);
        let d = field_of(u, k, "body"@)->0;
        law_fields(u, k, "body"@, d);
        lemma_mended(t, bytes, i, b, p, u, k, source, index);
        lemma_one_mended(u, bytes_without_prefixes, j, c, k, d);
    }
    lemma_restored_stays(u, source, index, candidates, j, u.len() as int);
    law_complete_functions_are_accepted(t, i);
    let unit = (restored_at(u, j, source, index, candidates)->0).1;
    assert(annotated[range] == unit);
    if i > 0 {
        lemma_parent(t, i);
    }
    assert(t[declaration_of(t, i)].start_row == first_row(t, i));
    assert(is_restorable(t, i, annotated));
    law_complete_functions_are_units(t, source, index, annotated, i);
    if !is_complete(t, i) {
        lemma_kept_unit(t, source, index, annotated, i);
        let entry = DiagnosticView { unit, reason: "annotation_prefix_signature"@ };
        law_repaired_functions_are_listed(t, source, index, annotated, entry);
        assert(is_repair_of(t, i, source, index, annotated, entry));
    }
}

/// The unit of a function that is not left out is listed.
proof fn lemma_kept_unit(
    t: Seq<NodeView>,
    source: Seq<char>,
    index: ScopeIndexView,
    annotated: Map<(int, int), UnitView>,
    i: int,
)
    requires
        0 <= i < t.len(),
        is_function(t, i),
        !is_omitted(t, i, annotated),
    ensures
        extracted(t, source, index, annotated).units.contains(
            unit_given(t, i, source, index, annotated),
        ),
{
    let nodes = functions_before(t, t.len() as int);
    law_functions_in_preorder(t, t.len() as int);
    law_units_and_omissions(t, source, index, annotated);
    lemma_partition(t, nodes, annotated);
    let stays = kept(t, nodes, annotated);
    let k = choose|k: int| 0 <= k < stays.len() && stays[k] == i;
    assert(extracted(t, source, index, annotated).units[k] == unit_given(
        t,
        i,
        source,
        index,
        annotated,
    ));
}

/// A function that is neither complete nor left out has the range of one that is broken only after
/// a prefix, and the text without prefixes has the function that it is without it.
pub proof fn law_only_broken_functions_are_repaired(
    t: Seq<NodeView>,
    u: Seq<NodeView>,
    source: Seq<char>,
    i: int,
)
    requires
        describes(t, encode_utf8(source)),
        statements_have_braces(t),
        preorder(u),
        0 <= i < t.len(),
        is_function(t, i),
        !is_complete(t, i),
        !is_omitted(t, i, annotated_units(t, u, source, index_of(t, source))),
    ensures
        field_of(t, i, "body"@) matches Some(body) && !t[body].has_error,
        exists|k: int, b: int, p: int, j: int, e: int|
            0 <= k < t.len() && range_of(t, k) == range_of(t, i) && 0 <= j < u.len()
                && #[trigger] is_broken_after_a_prefix(t, encode_utf8(source), k, b, p)
                && #[trigger] is_mended(t, k, b, p, u, j, e),
{
    let bytes = encode_utf8(source);
    let index = index_of(t, source);
    let candidates = candidates_of(t, bytes);
    law_complete_functions_are_accepted(t, i);
    let j = lemma_restoring_node(u, source, index, candidates, u.len() as int, range_of(t, i));
    let c = field_of(u, j, "body"@)->0;
    let key = (u[c].start_byte, u[c].end_byte);
    lemma_nominated(t, bytes, t.len() as int);
    assert(is_nominated(t, bytes, key, candidates[key]));
    let k = choose|k: int|
        0 <= k < t.len() && #[trigger] candidate_of(t, k, bytes) == Some((key, candidates[key]));
    let b = field_of(t, k, "body"@)->0;
    let p = field_of(t, k, "type"@)->0;
    law_candidates(t, bytes, k, b, p);
    lemma_mended(t, bytes, k, b, p, u, j, source, index);
    let e = field_of(u, j, "declarator"@)->0;
    assert(is_broken_after_a_prefix(t, bytes, k, b, p) && is_mended(t, k, b, p, u, j, e));
}

/// A function that is not complete, and whose range is not that of a broken function that the text
/// without prefixes mends, is left out, under its own unit and for a parse error or for its missing
/// body.
pub proof fn law_other_functions_are_left_out(
    t: Seq<NodeView>,
    u: Seq<NodeView>,
    source: Seq<char>,
    i: int,
)
    requires
        describes(t, encode_utf8(source)),
        statements_have_braces(t),
        preorder(u),
        0 <= i < t.len(),
        t[i].kind == "function_definition"@,
        !is_complete(t, i),
        forall|k: int, b: int, p: int, j: int, e: int|
            0 <= k < t.len() && range_of(t, k) == range_of(t, i) && 0 <= j < u.len()
                && #[trigger] is_broken_after_a_prefix(t, encode_utf8(source), k, b, p)
                ==> !#[trigger] is_mended(t, k, b, p, u, j, e),
    ensures
        extraction_with(t, u, source).omitted.contains(
            DiagnosticView {
                unit: function_unit(t, i, source, index_of(t, source)),
                reason: if t[i].has_error {
                    "parse_error"@
                } else {
                    "no_body"@
                },
            },
        ),
{
    let index = index_of(t, source);
    let annotated = annotated_units(t, u, source, index);
    if !is_omitted(t, i, annotated) {
        law_only_broken_functions_are_repaired(t, u, source, i);
    }
    law_complete_functions_are_units(t, source, index, annotated, i);
}

/// The text without prefixes is the text with every byte of the prefix of a broken function made
/// blank, and all others as they are. It is parsed where the tree has an error and some function is
/// broken after a prefix.
pub proof fn law_text_without_prefixes(t: Seq<NodeView>, bytes: Seq<u8>, k: int)
    requires
        describes(t, bytes),
        statements_have_braces(t),
    ensures
        normalized(bytes, candidates_of(t, bytes)).len() == bytes.len(),
        0 <= k < bytes.len() ==> ({
            let covered = exists|i: int, b: int, p: int|
                0 <= i < t.len() && #[trigger] is_broken_after_a_prefix(t, bytes, i, b, p)
                    && t[p].start_byte <= k < t[p].end_byte;
            normalized(bytes, candidates_of(t, bytes))[k] == if covered {
                0x20
            } else {
                bytes[k]
            }
        }),
        is_parsed_again(t, bytes) <==> t[0].has_error && exists|i: int, b: int, p: int|
            0 <= i < t.len() && #[trigger] is_broken_after_a_prefix(t, bytes, i, b, p),
{
    let candidates = candidates_of(t, bytes);
    lemma_nominated(t, bytes, t.len() as int);
    assert forall|key: (int, int)| #[trigger] candidates.contains_key(key) implies exists|
        i: int,
        b: int,
        p: int,
    |
        0 <= i < t.len() && #[trigger] is_broken_after_a_prefix(t, bytes, i, b, p)
            && candidates[key].prefix == (t[p].start_byte, t[p].end_byte) by {
        assert(is_nominated(t, bytes, key, candidates[key]));
        let i = choose|i: int|
            0 <= i < t.len() && #[trigger] candidate_of(t, i, bytes) == Some(
                (key, candidates[key]),
            );
        law_candidates(t, bytes, i, 0, 0);
        let b = field_of(t, i, "body"@)->0;
        let p = field_of(t, i, "type"@)->0;
        law_candidates(t, bytes, i, b, p);
        assert(is_broken_after_a_prefix(t, bytes, i, b, p));
    }
    assert forall|i: int, b: int, p: int|
        0 <= i < t.len() && #[trigger] is_broken_after_a_prefix(
            t,
            bytes,
            i,
            b,
            p,
        ) implies candidates.contains_key((t[b].start_byte, t[b].end_byte)) && candidates[(
        t[b].start_byte,
        t[b].end_byte,
    )].prefix == (t[p].start_byte, t[p].end_byte) by {
        lemma_candidate_stays(t, bytes, i, b, p, t.len() as int);
        law_candidates(t, bytes, i, b, p);
    }
    if is_covered(candidates, k) {
        let key = choose|key: (int, int)|
            candidates.contains_key(key) && covers(#[trigger] candidates[key], k);
        assert(candidates.contains_key(key));
    }
    if exists|i: int, b: int, p: int|
        0 <= i < t.len() && #[trigger] is_broken_after_a_prefix(t, bytes, i, b, p)
            && t[p].start_byte <= k < t[p].end_byte {
        let (i, b, p) = choose|i: int, b: int, p: int|
            0 <= i < t.len() && #[trigger] is_broken_after_a_prefix(t, bytes, i, b, p)
                && t[p].start_byte <= k < t[p].end_byte;
        assert(covers(candidates[(t[b].start_byte, t[b].end_byte)], k));
    }
    let none = Map::<(int, int), CandidateView>::empty();
    if candidates != none {
        if forall|key: (int, int)| !#[trigger] candidates.contains_key(key) {
            assert(candidates =~= none);
        }
    }
}

/// An extraction of a text is made from a tree that is read from the text and, where the text is
/// parsed again, a tree that is read from the text without prefixes: with the index of the first
/// tree, and with the units that the second restores.
pub proof fn law_extractions_come_from_trees(extraction: ExtractionView, source: Seq<char>)
    requires
        is_extraction_of(extraction, source),
    ensures
        exists|t: Seq<NodeView>, u: Seq<NodeView>|
            {
                &&& is_tree_of(t, encode_utf8(source))
                &&& is_parsed_again(t, encode_utf8(source)) ==> is_tree_of(
                    u,
                    normalized(
                        encode_utf8(source),
                        candidates_of(t, encode_utf8(source)),
                    ),
                )
                &&& extraction == #[trigger] extraction_with(t, u, source)
                &&& extraction == extracted(
                    t,
                    source,
                    index_of(t, source),
                    annotated_units(t, u, source, index_of(t, source)),
                )
            },
{
    reveal(is_extraction_of);
}

} // verus!
