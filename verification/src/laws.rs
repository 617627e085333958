//! What holds of every extraction and of every batch.
use vstd::prelude::*;
use vstd::utf8::{encode_utf8, encode_utf8_valid_utf8, is_char_boundary, valid_utf8};
use crate::batch::{
    are_results, batch_threads, byte_length, file_error, file_views, is_answer, is_parallel,
    is_processed, is_result, needed_threads, planned_threads, refusal_of, total_bytes,
    works_in_parallel, Extractor, FileResultView, InputFileView, Request, ResponseView,
    MAX_PATH_BYTES, PARALLEL_MIN_BYTES,
};
use crate::blanks::{
    is_blanked, lemma_blanked_boundary, lemma_blanked_lines, lemma_blanked_utf8,
};
use crate::bodies::{code_nodes, is_nested_scope, own_nodes, walked};
use crate::cpp::{has_plain_raw_strings, is_ascii_at, is_tree_of, starts_raw_string};
use crate::extraction::{
    extracted, extracted_before, extraction_of, extraction_with, function_unit, is_accepted,
    is_extraction_of, is_function, is_omitted, omission, range_of, DiagnosticView, ExtractionView,
};
use crate::lookup::ContextView;
use crate::metadata::{path_of, scope_names, ReferenceView};
use crate::recovery::{
    annotated_units, candidate_of, candidates_before, candidates_of, is_second_tree,
    lemma_candidates, lemma_normalized, normalized, restored_at, restored_before, CandidateView,
};
use crate::references::{count_kind, parameters_of};
use crate::scopes::{declarator_of, index_of, ScopeIndexView};
use crate::signatures::{declaration_of, is_issue, is_missing_type};
use crate::syntax::{
    children_of, describes, field_of, last_above, lemma_end, lemma_line_feeds, lemma_nested,
    lemma_parent, lemma_selected_children, line_feeds, parent_of, preorder, rows_count, span_fits,
    subtree_end, NodeView,
};
use crate::text::{lemma_joined_push, separator};
use crate::units::{
    context_of, distinct, references_at, references_of, takes_void, unit_of, UnitView,
};

verus! {

// ---------------------------------------------------------------------------------------------
// Batches

/// There is a result for each file, in the order of the files and under their paths, and each
/// holds either an extraction or an error.
pub proof fn law_results_follow_files(results: Seq<FileResultView>, files: Seq<InputFileView>)
    requires
        are_results(results, files),
    ensures
        results.len() == files.len(),
        forall|i: int| 0 <= i < files.len() ==> (#[trigger] results[i]).path == files[i].path,
        forall|i: int|
            0 <= i < files.len() ==> ((#[trigger] results[i]).extraction is Some
                <==> results[i].error is None),
{
}

/// Whether two batches have the same sources, with plain raw strings, under paths that are not too
/// long.
pub open spec fn have_equal_sources(
    files: Seq<InputFileView>,
    other_files: Seq<InputFileView>,
) -> bool {
    &&& files.len() == other_files.len()
    &&& forall|i: int|
        0 <= i < files.len() ==> {
            &&& (#[trigger] files[i]).source == other_files[i].source
            &&& has_plain_raw_strings(encode_utf8(files[i].source))
            &&& byte_length(files[i].path) <= MAX_PATH_BYTES
            &&& byte_length(other_files[i].path) <= MAX_PATH_BYTES
        }
}

/// Equal sources give equal extractions and equal errors.
pub proof fn law_equal_sources_give_equal_results(
    results: Seq<FileResultView>,
    files: Seq<InputFileView>,
    other_results: Seq<FileResultView>,
    other_files: Seq<InputFileView>,
)
    requires
        are_results(results, files),
        are_results(other_results, other_files),
        have_equal_sources(files, other_files),
    ensures
        results.len() == other_results.len(),
        forall|i: int|
            0 <= i < results.len() ==> (#[trigger] results[i]).extraction
                == other_results[i].extraction && results[i].error == other_results[i].error,
{
    assert forall|i: int| 0 <= i < results.len() implies (#[trigger] results[i]).extraction
        == other_results[i].extraction && results[i].error == other_results[i].error by {
        assert(is_result(results[i], files[i]));
        assert(is_result(other_results[i], other_files[i]));
        assert(files[i].source == other_files[i].source);
        if file_error(files[i]) is None {
            let source = files[i].source;
            law_plain_texts_have_one_extraction(results[i].extraction->0, source);
            law_plain_texts_have_one_extraction(other_results[i].extraction->0, source);
        }
    }
}

/// No more threads work than there are files, and no more than are allowed; some thread works
/// where there is a file; and several work exactly where the batch is parallel.
pub proof fn law_worker_threads(threads: int, files: int, bytes: int)
    requires
        threads > 0,
        files >= 0,
    ensures
        0 <= planned_threads(threads, files, bytes) <= files,
        planned_threads(threads, files, bytes) <= threads,
        files > 0 ==> planned_threads(threads, files, bytes) > 0,
        works_in_parallel(threads, files, bytes) <==> planned_threads(threads, files, bytes) > 1,
{
}

/// One thread does all the work on a single file, and on files that are small together.
pub proof fn law_small_batches_are_serial(threads: int, files: Seq<InputFileView>)
    requires
        files.len() <= 1 || total_bytes(files) < PARALLEL_MIN_BYTES,
    ensures
        !is_parallel(threads, files),
        batch_threads(threads, files) <= 1,
        needed_threads(threads, files) is None,
{
}

/// A response has the id of its request. It holds all results and no error, or an error and no
/// results.
pub proof fn law_responses(
    before: Extractor,
    request: Request,
    after: Extractor,
    response: ResponseView,
)
    requires
        is_processed(before, request, after, response),
    ensures
        response.id == Some(request.id),
        response.error is None ==> are_results(response.results, file_views(request.files@)),
        response.error is Some ==> response.results.len() == 0 && !response.parallel
            && response.worker_threads == 0,
{
}

/// Two extractors that answer requests for the same sources give the same extractions and errors,
/// however many threads they use, whatever they did before and whatever the paths are.
pub proof fn law_equal_batches_give_equal_results(
    before: Extractor,
    request: Request,
    after: Extractor,
    response: ResponseView,
    other_before: Extractor,
    other_request: Request,
    other_after: Extractor,
    other_response: ResponseView,
)
    requires
        is_processed(before, request, after, response),
        is_processed(other_before, other_request, other_after, other_response),
        have_equal_sources(file_views(request.files@), file_views(other_request.files@)),
        response.error is None,
        other_response.error is None,
    ensures
        response.results.len() == other_response.results.len(),
        forall|i: int|
            0 <= i < response.results.len() ==> (#[trigger] response.results[i]).extraction
                == other_response.results[i].extraction && response.results[i].error
                == other_response.results[i].error,
{
    law_equal_sources_give_equal_results(
        response.results,
        file_views(request.files@),
        other_response.results,
        file_views(other_request.files@),
    );
}

/// The threads that are kept after a batch are those that worked on it: several, but no more than
/// it has files, and no more than are allowed. None are kept after a batch that one thread did, or
/// that was refused.
pub proof fn law_kept_threads(
    before: Extractor,
    request: Request,
    after: Extractor,
    response: ResponseView,
)
    requires
        before.threads() > 0,
        is_processed(before, request, after, response),
    ensures
        after.pool() is Some <==> response.parallel,
        after.pool() matches Some(n) ==> n == response.worker_threads && 1 < n
            <= request.files@.len() && n <= before.threads(),
{
    assert(file_views(request.files@).len() == request.files@.len());
}

/// A batch that is not too large, and that needs no threads or as many as are kept, is answered.
pub proof fn law_matching_threads_suffice(
    before: Extractor,
    request: Request,
    after: Extractor,
    response: ResponseView,
)
    requires
        is_processed(before, request, after, response),
        refusal_of(file_views(request.files@)) is None,
        ({
            let needed = needed_threads(before.threads(), file_views(request.files@));
            needed is None || before.pool() == needed
        }),
    ensures
        is_answer(response, before.threads(), request.id, file_views(request.files@)),
{
}

// ---------------------------------------------------------------------------------------------
// What becomes of each function

/// The function definitions among the first `n` nodes, in preorder.
pub open spec fn functions_before(t: Seq<NodeView>, n: int) -> Seq<int>
    decreases n,
{
    if n <= 0 {
        Seq::empty()
    } else if is_function(t, n - 1) {
        functions_before(t, n - 1).push(n - 1)
    } else {
        functions_before(t, n - 1)
    }
}

/// Those of `nodes` that are left out.
pub open spec fn left_out(
    t: Seq<NodeView>,
    nodes: Seq<int>,
    annotated: Map<(int, int), UnitView>,
) -> Seq<int>
    decreases nodes.len(),
{
    if nodes.len() == 0 {
        Seq::empty()
    } else if is_omitted(t, nodes.last(), annotated) {
        left_out(t, nodes.drop_last(), annotated).push(nodes.last())
    } else {
        left_out(t, nodes.drop_last(), annotated)
    }
}

/// Those of `nodes` that are not left out.
pub open spec fn kept(
    t: Seq<NodeView>,
    nodes: Seq<int>,
    annotated: Map<(int, int), UnitView>,
) -> Seq<int>
    decreases nodes.len(),
{
    if nodes.len() == 0 {
        Seq::empty()
    } else if is_omitted(t, nodes.last(), annotated) {
        kept(t, nodes.drop_last(), annotated)
    } else {
        kept(t, nodes.drop_last(), annotated).push(nodes.last())
    }
}

/// The unit that the function definition `i` gives where it is not left out.
pub open spec fn unit_given(
    t: Seq<NodeView>,
    i: int,
    source: Seq<char>,
    index: ScopeIndexView,
    annotated: Map<(int, int), UnitView>,
) -> UnitView {
    if is_accepted(t, i) {
        function_unit(t, i, source, index)
    } else {
        annotated[range_of(t, i)]
    }
}

/// The units are those of the function definitions that are kept, and the omissions those of the
/// function definitions that are left out, both in preorder.
pub proof fn law_units_and_omissions(
    t: Seq<NodeView>,
    source: Seq<char>,
    index: ScopeIndexView,
    annotated: Map<(int, int), UnitView>,
)
    ensures
        extracted(t, source, index, annotated).units == kept(
            t,
            functions_before(t, t.len() as int),
            annotated,
        ).map_values(|i: int| unit_given(t, i, source, index, annotated)),
        extracted(t, source, index, annotated).omitted == left_out(
            t,
            functions_before(t, t.len() as int),
            annotated,
        ).map_values(
            |i: int|
                DiagnosticView {
                    unit: function_unit(t, i, source, index),
                    reason: omission(t, i),
                },
        ),
{
    lemma_units_and_omissions(t, source, index, annotated, t.len() as int);
}

proof fn lemma_units_and_omissions(
    t: Seq<NodeView>,
    source: Seq<char>,
    index: ScopeIndexView,
    annotated: Map<(int, int), UnitView>,
    n: int,
)
    ensures
        extracted_before(t, source, index, annotated, n).units == kept(
            t,
            functions_before(t, n),
            annotated,
        ).map_values(|i: int| unit_given(t, i, source, index, annotated)),
        extracted_before(t, source, index, annotated, n).omitted == left_out(
            t,
            functions_before(t, n),
            annotated,
        ).map_values(
            |i: int|
                DiagnosticView {
                    unit: function_unit(t, i, source, index),
                    reason: omission(t, i),
                },
        ),
    decreases n,
{
    let given = |i: int| unit_given(t, i, source, index, annotated);
    let dropped = |i: int|
        DiagnosticView { unit: function_unit(t, i, source, index), reason: omission(t, i) };
    let now = extracted_before(t, source, index, annotated, n);
    let nodes = functions_before(t, n);
    if n <= 0 {
        assert(now.units =~= kept(t, nodes, annotated).map_values(given));
        assert(now.omitted =~= left_out(t, nodes, annotated).map_values(dropped));
    } else {
        lemma_units_and_omissions(t, source, index, annotated, n - 1);
        let before = functions_before(t, n - 1);
        if is_function(t, n - 1) {
            assert(nodes.drop_last() =~= before);
            assert(nodes.last() == n - 1);
        }
        assert(now.units =~= kept(t, nodes, annotated).map_values(given));
        assert(now.omitted =~= left_out(t, nodes, annotated).map_values(dropped));
    }
}

/// Every function definition is either among the units or among the omissions, once.
pub proof fn law_every_function_counts_once(
    t: Seq<NodeView>,
    source: Seq<char>,
    index: ScopeIndexView,
    annotated: Map<(int, int), UnitView>,
)
    ensures
        extracted(t, source, index, annotated).units.len() + extracted(
            t,
            source,
            index,
            annotated,
        ).omitted.len() == functions_before(t, t.len() as int).len(),
{
    law_units_and_omissions(t, source, index, annotated);
    lemma_partition(t, functions_before(t, t.len() as int), annotated);
}

/// Of some functions each is kept or left out.
pub proof fn lemma_partition(
    t: Seq<NodeView>,
    nodes: Seq<int>,
    annotated: Map<(int, int), UnitView>,
)
    ensures
        kept(t, nodes, annotated).len() + left_out(t, nodes, annotated).len() == nodes.len(),
        forall|i: int| #[trigger]
            nodes.contains(i) ==> if is_omitted(t, i, annotated) {
                left_out(t, nodes, annotated).contains(i)
            } else {
                kept(t, nodes, annotated).contains(i)
            },
    decreases nodes.len(),
{
    if nodes.len() > 0 {
        let some = nodes.drop_last();
        lemma_partition(t, some, annotated);
        assert forall|i: int| #[trigger] nodes.contains(i) implies if is_omitted(
            t,
            i,
            annotated,
        ) {
            left_out(t, nodes, annotated).contains(i)
        } else {
            kept(t, nodes, annotated).contains(i)
        } by {
            let k = choose|k: int| 0 <= k < nodes.len() && nodes[k] == i;
            if k < some.len() {
                assert(some[k] == i);
                assert(some.contains(i));
                if is_omitted(t, i, annotated) {
                    let m = choose|m: int|
                        0 <= m < left_out(t, some, annotated).len() && left_out(
                            t,
                            some,
                            annotated,
                        )[m] == i;
                    assert(left_out(t, nodes, annotated)[m] == i);
                } else {
                    let m = choose|m: int|
                        0 <= m < kept(t, some, annotated).len() && kept(t, some, annotated)[m]
                            == i;
                    assert(kept(t, nodes, annotated)[m] == i);
                }
            } else if is_omitted(t, i, annotated) {
                assert(left_out(t, nodes, annotated).last() == i);
            } else {
                assert(kept(t, nodes, annotated).last() == i);
            }
        }
    }
}

/// Function definitions are visited in preorder, each once.
pub proof fn law_functions_in_preorder(t: Seq<NodeView>, n: int)
    requires
        n <= t.len(),
    ensures
        forall|j: int, k: int|
            0 <= j < k < functions_before(t, n).len() ==> (#[trigger] functions_before(t, n)[j])
                < #[trigger] functions_before(t, n)[k],
        forall|i: int|
            0 <= i < n && #[trigger] is_function(t, i) ==> functions_before(t, n).contains(i),
        forall|k: int|
            0 <= k < functions_before(t, n).len() ==> 0 <= #[trigger] functions_before(t, n)[k] < n
                && is_function(t, functions_before(t, n)[k]),
    decreases n,
{
    if n > 0 {
        law_functions_in_preorder(t, n - 1);
        let before = functions_before(t, n - 1);
        let now = functions_before(t, n);
        assert forall|i: int| 0 <= i < n && #[trigger] is_function(t, i) implies now.contains(
            i,
        ) by {
            if i < n - 1 {
                let k = choose|k: int| 0 <= k < before.len() && before[k] == i;
                assert(now[k] == i);
            } else {
                assert(now.last() == i);
            }
        }
    }
}

/// A function definition with a body and without an error is accepted. What is accepted is among
/// the units, and what is left out is among the omissions, with the reason.
pub proof fn law_complete_functions_are_units(
    t: Seq<NodeView>,
    source: Seq<char>,
    index: ScopeIndexView,
    annotated: Map<(int, int), UnitView>,
    i: int,
)
    requires
        0 <= i < t.len(),
        is_function(t, i),
    ensures
        field_of(t, i, "body"@) is Some && !t[i].has_error ==> is_accepted(t, i),
        is_accepted(t, i) ==> extracted(t, source, index, annotated).units.contains(
            function_unit(t, i, source, index),
        ),
        is_omitted(t, i, annotated) ==> extracted(t, source, index, annotated).omitted.contains(
            DiagnosticView { unit: function_unit(t, i, source, index), reason: omission(t, i) },
        ),
{
    let nodes = functions_before(t, t.len() as int);
    law_functions_in_preorder(t, t.len() as int);
    law_units_and_omissions(t, source, index, annotated);
    lemma_partition(t, nodes, annotated);
    let now = extracted(t, source, index, annotated);
    if is_omitted(t, i, annotated) {
        let out = left_out(t, nodes, annotated);
        let k = choose|k: int| 0 <= k < out.len() && out[k] == i;
        assert(now.omitted[k] == DiagnosticView {
            unit: function_unit(t, i, source, index),
            reason: omission(t, i),
        });
    } else {
        let stays = kept(t, nodes, annotated);
        let k = choose|k: int| 0 <= k < stays.len() && stays[k] == i;
        assert(now.units[k] == unit_given(t, i, source, index, annotated));
    }
}

// ---------------------------------------------------------------------------------------------
// Errors

/// A node with an error gives one to every node around it, and stands within it.
pub proof fn law_ancestors(t: Seq<NodeView>, bytes: Seq<u8>, i: int, j: int)
    requires
        describes(t, bytes),
        0 <= i < j < subtree_end(t, i),
    ensures
        j < t.len(),
        t[j].has_error ==> t[i].has_error,
        t[i].start_byte <= t[j].start_byte,
        t[j].end_byte <= t[i].end_byte,
    decreases j,
{
    lemma_end(t, i);
    lemma_parent(t, j);
    let p = parent_of(t, j)->0;
    assert(t[j].depth > t[i].depth);
    lemma_last_above_from(t, j - 1, t[j].depth, i);
    assert(t[j].has_error ==> t[p].has_error);
    if p > i {
        law_ancestors(t, bytes, i, p);
    }
}

/// The last node above a depth is no earlier than any node above that depth.
proof fn lemma_last_above_from(t: Seq<NodeView>, j: int, d: int, i: int)
    requires
        0 <= i <= j < t.len(),
        t[i].depth < d,
    ensures
        last_above(t, j, d) >= i,
    decreases j,
{
    if t[j].depth >= d {
        lemma_last_above_from(t, j - 1, d, i);
    }
}

/// The root has an error where any node has one.
pub proof fn law_root_error(t: Seq<NodeView>, bytes: Seq<u8>, i: int)
    requires
        describes(t, bytes),
        0 <= i < t.len(),
        t[i].has_error,
    ensures
        t[0].has_error,
{
    if i > 0 {
        lemma_end(t, 0);
        law_ancestors(t, bytes, 0, i);
    }
}

/// Whether a candidate is that of a node of the tree.
pub open spec fn is_nominated(
    t: Seq<NodeView>,
    bytes: Seq<u8>,
    body: (int, int),
    candidate: CandidateView,
) -> bool {
    exists|j: int|
        0 <= j < t.len() && #[trigger] candidate_of(t, j, bytes) == Some((body, candidate))
}

/// The candidates of a tree are those of its nodes.
pub proof fn lemma_nominated(t: Seq<NodeView>, bytes: Seq<u8>, n: int)
    requires
        n <= t.len(),
    ensures
        forall|body: (int, int)| #[trigger]
            candidates_before(t, bytes, n).contains_key(body) ==> is_nominated(
                t,
                bytes,
                body,
                candidates_before(t, bytes, n)[body],
            ),
    decreases n,
{
    if n > 0 {
        lemma_nominated(t, bytes, n - 1);
        let before = candidates_before(t, bytes, n - 1);
        let now = candidates_before(t, bytes, n);
        assert forall|body: (int, int)| #[trigger] now.contains_key(body) implies is_nominated(
            t,
            bytes,
            body,
            now[body],
        ) by {
            match candidate_of(t, n - 1, bytes) {
                Some(found) => {
                    if body == found.0 {
                        assert(candidate_of(t, n - 1, bytes) == Some((body, now[body])));
                    } else {
                        assert(before.contains_key(body));
                    }
                },
                None => {},
            }
        }
    }
}

/// Whether a unit is the restored form of a candidate: it stands for its function and has its
/// lines.
pub open spec fn is_restored_from(
    candidates: Map<(int, int), CandidateView>,
    function: (int, int),
    unit: UnitView,
) -> bool {
    exists|body: (int, int)|
        candidates.contains_key(body) && (#[trigger] candidates[body]).function == function
            && candidates[body].line == unit.line && candidates[body].end == unit.end
}

proof fn lemma_restored(
    t: Seq<NodeView>,
    source: Seq<char>,
    index: ScopeIndexView,
    candidates: Map<(int, int), CandidateView>,
    n: int,
)
    ensures
        forall|function: (int, int)| #[trigger]
            restored_before(t, source, index, candidates, n).contains_key(function)
                ==> is_restored_from(
                candidates,
                function,
                restored_before(t, source, index, candidates, n)[function],
            ),
    decreases n,
{
    if n > 0 {
        lemma_restored(t, source, index, candidates, n - 1);
        let before = restored_before(t, source, index, candidates, n - 1);
        let now = restored_before(t, source, index, candidates, n);
        assert forall|function: (int, int)| #[trigger]
            now.contains_key(function) implies is_restored_from(
            candidates,
            function,
            now[function],
        ) by {
            match restored_at(t, n - 1, source, index, candidates) {
                Some(found) => {
                    if function == found.0 {
                        let body = field_of(t, n - 1, "body"@)->0;
                        let range = (t[body].start_byte, t[body].end_byte);
                        assert(candidates[range].function == function);
                    } else {
                        assert(before.contains_key(function));
                    }
                },
                None => {},
            }
        }
    }
}

/// Whether the function definition `j` has the range `function`, an error, a body without one, and
/// the lines of `unit`.
pub open spec fn is_broken_function(
    t: Seq<NodeView>,
    j: int,
    function: (int, int),
    unit: UnitView,
) -> bool {
    &&& is_function(t, j)
    &&& range_of(t, j) == function
    &&& t[j].has_error
    &&& field_of(t, j, "body"@) matches Some(body) && !t[body].has_error
    &&& unit.line == t[declaration_of(t, j)].start_row + 1
    &&& unit.end == t[j].end_row + 1
}

/// The units that are recovered from annotations stand for function definitions that have an error,
/// but none in their body, and have their lines.
pub proof fn law_annotated_units(
    t: Seq<NodeView>,
    normal: Seq<NodeView>,
    source: Seq<char>,
    index: ScopeIndexView,
    function: (int, int),
)
    requires
        annotated_units(t, normal, source, index).contains_key(function),
    ensures
        t[0].has_error,
        exists|j: int|
            0 <= j < t.len() && #[trigger] is_broken_function(
                t,
                j,
                function,
                annotated_units(t, normal, source, index)[function],
            ),
{
    let bytes = encode_utf8(source);
    let candidates = candidates_of(t, bytes);
    let units = annotated_units(t, normal, source, index);
    lemma_nominated(t, bytes, t.len() as int);
    lemma_restored(normal, source, index, candidates, normal.len() as int);
    assert(is_restored_from(candidates, function, units[function]));
    let body = choose|body: (int, int)|
        candidates.contains_key(body) && (#[trigger] candidates[body]).function == function
            && candidates[body].line == units[function].line && candidates[body].end
            == units[function].end;
    assert(is_nominated(t, bytes, body, candidates[body]));
    let j = choose|j: int|
        0 <= j < t.len() && #[trigger] candidate_of(t, j, bytes) == Some((body, candidates[body]));
    assert(is_broken_function(t, j, function, units[function]));
}

/// A function with an error in its body is left out for a parse error, whatever was restored.
pub proof fn law_erroneous_bodies(
    t: Seq<NodeView>,
    bytes: Seq<u8>,
    annotated: Map<(int, int), UnitView>,
    i: int,
    body: int,
)
    requires
        describes(t, bytes),
        0 <= i < t.len(),
        is_function(t, i),
        field_of(t, i, "body"@) == Some(body),
        t[body].has_error,
    ensures
        is_omitted(t, i, annotated),
        omission(t, i) == "parse_error"@,
{
    lemma_selected_children(t, i, "body"@);
    law_ancestors(t, bytes, i, body);
}

/// A function without a body is left out, whatever was restored.
pub proof fn law_functions_without_a_body(
    t: Seq<NodeView>,
    annotated: Map<(int, int), UnitView>,
    i: int,
)
    requires
        0 <= i < t.len(),
        is_function(t, i),
        field_of(t, i, "body"@) is None,
    ensures
        is_omitted(t, i, annotated),
        !t[i].has_error ==> omission(t, i) == "no_body"@,
{
}

/// A function with an error is accepted as it stands only where its body has none, and every error
/// is a missing type of a default argument `= {}` before the body.
pub proof fn law_accepted_errors(t: Seq<NodeView>, i: int, j: int)
    requires
        is_accepted(t, i),
        t[i].has_error,
    ensures
        !t[field_of(t, i, "body"@)->0].has_error,
        i <= j < subtree_end(t, i) && is_issue(t[j]) ==> is_missing_type(
            t,
            j,
            field_of(t, i, "body"@)->0,
        ),
{
}

/// Whether `a` is `b` with some elements left out.
pub open spec fn is_subsequence(a: Seq<UnitView>, b: Seq<UnitView>) -> bool
    decreases b.len(),
{
    if b.len() == 0 {
        a.len() == 0
    } else {
        ||| is_subsequence(a, b.drop_last())
        ||| a.len() > 0 && a.last() == b.last() && is_subsequence(a.drop_last(), b.drop_last())
    }
}

/// The units of diagnostics.
pub open spec fn units_in(diagnostics: Seq<DiagnosticView>) -> Seq<UnitView> {
    diagnostics.map_values(|d: DiagnosticView| d.unit)
}

/// The repaired functions are some of the units, in their order, and each has one of two reasons.
pub proof fn law_recovered_are_units(
    t: Seq<NodeView>,
    source: Seq<char>,
    index: ScopeIndexView,
    annotated: Map<(int, int), UnitView>,
)
    ensures
        is_subsequence(
            units_in(extracted(t, source, index, annotated).recovered),
            extracted(t, source, index, annotated).units,
        ),
        forall|k: int|
            0 <= k < extracted(t, source, index, annotated).recovered.len() ==> is_repair(
                (#[trigger] extracted(t, source, index, annotated).recovered[k]).reason,
            ),
{
    lemma_recovered_are_units(t, source, index, annotated, t.len() as int);
}

proof fn lemma_recovered_are_units(
    t: Seq<NodeView>,
    source: Seq<char>,
    index: ScopeIndexView,
    annotated: Map<(int, int), UnitView>,
    n: int,
)
    ensures
        is_subsequence(
            units_in(extracted_before(t, source, index, annotated, n).recovered),
            extracted_before(t, source, index, annotated, n).units,
        ),
        forall|k: int|
            0 <= k < extracted_before(t, source, index, annotated, n).recovered.len()
                ==> is_repair((#[trigger] extracted_before(
                t,
                source,
                index,
                annotated,
                n,
            ).recovered[k]).reason),
    decreases n,
{
    let now = extracted_before(t, source, index, annotated, n);
    if n > 0 {
        lemma_recovered_are_units(t, source, index, annotated, n - 1);
        let before = extracted_before(t, source, index, annotated, n - 1);
        if now.units.len() > before.units.len() {
            assert(now.units.drop_last() =~= before.units);
            if now.recovered.len() > before.recovered.len() {
                assert(units_in(now.recovered).drop_last() =~= units_in(before.recovered));
                assert(units_in(now.recovered).last() == now.units.last());
            }
        }
    } else {
        assert(units_in(now.recovered).len() == 0);
    }
}

/// A reason that a repaired function is given.
pub open spec fn is_repair(reason: Seq<char>) -> bool {
    reason == "default_brace_signature_missing_type"@ || reason == "annotation_prefix_signature"@
}

/// An extraction tells whether the text has any error, whatever was repaired. In a text without
/// errors nothing is repaired, and only functions without a body are left out.
pub proof fn law_texts_without_errors(
    t: Seq<NodeView>,
    normal: Seq<NodeView>,
    source: Seq<char>,
)
    requires
        describes(t, encode_utf8(source)),
    ensures
        extraction_with(t, normal, source).parse_has_error == t[0].has_error,
        !t[0].has_error ==> extraction_with(t, normal, source).recovered.len() == 0,
        !t[0].has_error ==> forall|k: int|
            0 <= k < extraction_with(t, normal, source).omitted.len() ==> (
            #[trigger] extraction_with(t, normal, source).omitted[k]).reason == "no_body"@,
{
    let index = index_of(t, source);
    lemma_texts_without_errors(
        t,
        source,
        index,
        annotated_units(t, normal, source, index),
        t.len() as int,
    );
}

proof fn lemma_texts_without_errors(
    t: Seq<NodeView>,
    source: Seq<char>,
    index: ScopeIndexView,
    annotated: Map<(int, int), UnitView>,
    n: int,
)
    requires
        describes(t, encode_utf8(source)),
        n <= t.len(),
        !t[0].has_error ==> annotated == Map::<(int, int), UnitView>::empty(),
    ensures
        extracted_before(t, source, index, annotated, n).parse_has_error == t[0].has_error,
        !t[0].has_error ==> extracted_before(t, source, index, annotated, n).recovered.len() == 0,
        !t[0].has_error ==> forall|k: int|
            0 <= k < extracted_before(t, source, index, annotated, n).omitted.len() ==> (
            #[trigger] extracted_before(t, source, index, annotated, n).omitted[k]).reason
                == "no_body"@,
    decreases n,
{
    if n > 0 {
        lemma_texts_without_errors(t, source, index, annotated, n - 1);
        if t[n - 1].has_error {
            law_root_error(t, encode_utf8(source), n - 1);
        }
    }
}

// ---------------------------------------------------------------------------------------------
// Lines

/// Whether the lines of a unit are lines of the text, counted from one, the first not after the
/// last.
pub open spec fn has_lines(unit: UnitView, bytes: Seq<u8>) -> bool {
    1 <= unit.line <= unit.end <= line_feeds(bytes, bytes.len() as int) + 1
}

/// The lines of a function definition, counted from where its template declaration starts.
proof fn lemma_lines_of(t: Seq<NodeView>, bytes: Seq<u8>, i: int, start: int)
    requires
        describes(t, bytes),
        0 <= i < t.len(),
        start == i || start == declaration_of(t, i),
    ensures
        0 <= t[start].start_row <= t[i].end_row <= line_feeds(bytes, bytes.len() as int),
        t[start].start_row == line_feeds(bytes, t[start].start_byte),
        t[i].end_row == line_feeds(bytes, t[i].end_byte),
{
    if start != i {
        lemma_parent(t, i);
        law_ancestors(t, bytes, start, i);
    }
    assert(span_fits(bytes, t[i]) && span_fits(bytes, t[start]));
    assert(rows_count(bytes, t[i]) && rows_count(bytes, t[start]));
    lemma_line_feeds(bytes, 0, t[start].start_byte);
    lemma_line_feeds(bytes, t[start].start_byte, t[i].end_byte);
    lemma_line_feeds(bytes, t[i].end_byte, bytes.len() as int);
}

/// The lines of a unit are the lines on which its function starts, with its template declaration,
/// and ends: one more than the line feeds before.
pub proof fn law_lines_of_functions(
    t: Seq<NodeView>,
    source: Seq<char>,
    index: ScopeIndexView,
    i: int,
)
    requires
        describes(t, encode_utf8(source)),
        0 <= i < t.len(),
    ensures
        has_lines(function_unit(t, i, source, index), encode_utf8(source)),
        is_accepted(t, i) ==> function_unit(t, i, source, index).line == line_feeds(
            encode_utf8(source),
            t[declaration_of(t, i)].start_byte,
        ) + 1,
        function_unit(t, i, source, index).end == line_feeds(
            encode_utf8(source),
            t[i].end_byte,
        ) + 1,
{
    let start = if is_accepted(t, i) {
        declaration_of(t, i)
    } else {
        i
    };
    lemma_lines_of(t, encode_utf8(source), i, start);
}

/// Whether every unit of an extraction has lines of the text.
pub open spec fn all_have_lines(extraction: ExtractionView, bytes: Seq<u8>) -> bool {
    &&& forall|k: int|
        0 <= k < extraction.units.len() ==> has_lines(#[trigger] extraction.units[k], bytes)
    &&& forall|k: int|
        0 <= k < extraction.omitted.len() ==> has_lines(
            (#[trigger] extraction.omitted[k]).unit,
            bytes,
        )
    &&& forall|k: int|
        0 <= k < extraction.recovered.len() ==> has_lines(
            (#[trigger] extraction.recovered[k]).unit,
            bytes,
        )
}

/// The lines of all units, omissions and repaired functions are lines of the text.
pub proof fn law_lines(t: Seq<NodeView>, normal: Seq<NodeView>, source: Seq<char>)
    requires
        describes(t, encode_utf8(source)),
    ensures
        all_have_lines(extraction_with(t, normal, source), encode_utf8(source)),
{
    let index = index_of(t, source);
    let annotated = annotated_units(t, normal, source, index);
    let bytes = encode_utf8(source);
    assert forall|function: (int, int)| #[trigger]
        annotated.contains_key(function) implies has_lines(annotated[function], bytes) by {
        law_annotated_units(t, normal, source, index, function);
        let j = choose|j: int|
            0 <= j < t.len() && #[trigger] is_broken_function(t, j, function, annotated[function]);
        lemma_lines_of(t, bytes, j, declaration_of(t, j));
    }
    lemma_lines(t, source, index, annotated, t.len() as int);
}

proof fn lemma_lines(
    t: Seq<NodeView>,
    source: Seq<char>,
    index: ScopeIndexView,
    annotated: Map<(int, int), UnitView>,
    n: int,
)
    requires
        describes(t, encode_utf8(source)),
        n <= t.len(),
        forall|function: (int, int)| #[trigger]
            annotated.contains_key(function) ==> has_lines(
                annotated[function],
                encode_utf8(source),
            ),
    ensures
        all_have_lines(
            extracted_before(t, source, index, annotated, n),
            encode_utf8(source),
        ),
    decreases n,
{
    if n > 0 {
        lemma_lines(t, source, index, annotated, n - 1);
        law_lines_of_functions(t, source, index, n - 1);
    }
}

/// A node past the subtree of a node starts at or after its end.
pub proof fn law_later_nodes_follow(t: Seq<NodeView>, bytes: Seq<u8>, i: int, j: int)
    requires
        describes(t, bytes),
        0 <= i,
        subtree_end(t, i) <= j < t.len(),
        i < j,
    ensures
        t[i].end_byte <= t[j].start_byte,
    decreases t[i].depth, j - i,
{
    lemma_end(t, i);
    let e = subtree_end(t, i);
    if i == 0 {
        assert(t[e].depth > 0);
    } else if t[e].depth == t[i].depth {
        assert(span_fits(bytes, t[e]));
        if j > e {
            lemma_end(t, e);
            if j < subtree_end(t, e) {
                law_ancestors(t, bytes, e, j);
            } else {
                law_later_nodes_follow(t, bytes, e, j);
            }
        }
    } else {
        lemma_parent(t, i);
        let p = parent_of(t, i)->0;
        lemma_end(t, p);
        law_ancestors(t, bytes, p, i);
        law_later_nodes_follow(t, bytes, p, j);
    }
}

/// Whether no function definition stands before another one in the template declaration of the
/// other, as in a list of template parameters.
pub open spec fn templates_hold_one_function(t: Seq<NodeView>) -> bool {
    forall|a: int, b: int|
        0 <= a < b < t.len() && #[trigger] is_function(t, a) && #[trigger] is_function(t, b)
            ==> declaration_of(t, b) == b || a < declaration_of(t, b)
}

/// Whether that holds of every tree that is read from a text.
pub open spec fn has_plain_templates(text: Seq<u8>) -> bool {
    forall|t: Seq<NodeView>| #[trigger] is_tree_of(t, text) ==> templates_hold_one_function(t)
}

/// Whether units come in the order of their lines, each inside the one before or after it.
pub open spec fn in_line_order(units: Seq<UnitView>) -> bool {
    forall|a: int, b: int|
        0 <= a < b < units.len() ==> {
            &&& (#[trigger] units[a]).line <= (#[trigger] units[b]).line
            &&& units[b].line >= units[a].end || units[b].end <= units[a].end
        }
}

/// The lines of two functions, one before the other in preorder.
proof fn lemma_line_order(t: Seq<NodeView>, bytes: Seq<u8>, a: int, b: int)
    requires
        describes(t, bytes),
        templates_hold_one_function(t),
        0 <= a < b < t.len(),
        is_function(t, a),
        is_function(t, b),
    ensures
        t[declaration_of(t, a)].start_row <= t[declaration_of(t, b)].start_row,
        t[a].end_row <= t[declaration_of(t, b)].start_row || t[b].end_row <= t[a].end_row,
{
    let d = declaration_of(t, a);
    let e = declaration_of(t, b);
    if d != a {
        lemma_parent(t, a);
        law_ancestors(t, bytes, d, a);
    }
    if e != b {
        lemma_parent(t, b);
    }
    lemma_end(t, a);
    assert(span_fits(bytes, t[a]) && span_fits(bytes, t[b]));
    assert(span_fits(bytes, t[d]) && span_fits(bytes, t[e]));
    assert(rows_count(bytes, t[a]) && rows_count(bytes, t[b]));
    assert(rows_count(bytes, t[d]) && rows_count(bytes, t[e]));
    if e < subtree_end(t, a) {
        law_ancestors(t, bytes, a, e);
        if b >= subtree_end(t, a) {
            lemma_nested(t, a, e);
        }
        law_ancestors(t, bytes, a, b);
        lemma_line_feeds(bytes, t[d].start_byte, t[e].start_byte);
        lemma_line_feeds(bytes, t[b].end_byte, t[a].end_byte);
    } else {
        law_later_nodes_follow(t, bytes, a, e);
        lemma_line_feeds(bytes, t[d].start_byte, t[e].start_byte);
        lemma_line_feeds(bytes, t[a].end_byte, t[e].start_byte);
    }
}

/// The units of a text come in the order of their lines, each nested in the one before or following
/// it.
pub proof fn law_units_in_line_order(
    t: Seq<NodeView>,
    normal: Seq<NodeView>,
    source: Seq<char>,
)
    requires
        describes(t, encode_utf8(source)),
        templates_hold_one_function(t),
    ensures
        in_line_order(extraction_with(t, normal, source).units),
{
    let bytes = encode_utf8(source);
    let index = index_of(t, source);
    let annotated = annotated_units(t, normal, source, index);
    let functions = functions_before(t, t.len() as int);
    let stays = kept(t, functions, annotated);
    let units = extraction_with(t, normal, source).units;
    law_functions_in_preorder(t, t.len() as int);
    law_units_and_omissions(t, source, index, annotated);
    lemma_kept(t, functions, annotated);
    assert forall|a: int, b: int| 0 <= a < b < units.len() implies {
        &&& (#[trigger] units[a]).line <= (#[trigger] units[b]).line
        &&& units[b].line >= units[a].end || units[b].end <= units[a].end
    } by {
        let i = stays[a];
        let j = stays[b];
        assert(i < j);
        lemma_given_lines(t, normal, source, i);
        lemma_given_lines(t, normal, source, j);
        lemma_line_order(t, bytes, i, j);
    }
}

/// The functions that are kept are not left out, and come in the order of `nodes`.
proof fn lemma_kept(t: Seq<NodeView>, nodes: Seq<int>, annotated: Map<(int, int), UnitView>)
    requires
        forall|j: int, k: int|
            0 <= j < k < nodes.len() ==> #[trigger] nodes[j] < #[trigger] nodes[k],
    ensures
        forall|k: int|
            0 <= k < kept(t, nodes, annotated).len() ==> nodes.contains(
                #[trigger] kept(t, nodes, annotated)[k],
            ) && !is_omitted(t, kept(t, nodes, annotated)[k], annotated),
        forall|j: int, k: int|
            0 <= j < k < kept(t, nodes, annotated).len() ==> (#[trigger] kept(
                t,
                nodes,
                annotated,
            )[j]) < #[trigger] kept(t, nodes, annotated)[k],
    decreases nodes.len(),
{
    if nodes.len() > 0 {
        let some = nodes.drop_last();
        let before = kept(t, some, annotated);
        let now = kept(t, nodes, annotated);
        assert forall|j: int, k: int| 0 <= j < k < some.len() implies #[trigger] some[j]
            < #[trigger] some[k] by {
            assert(nodes[j] < nodes[k]);
        }
        lemma_kept(t, some, annotated);
        assert forall|k: int| 0 <= k < now.len() implies nodes.contains(#[trigger] now[k])
            && !is_omitted(t, now[k], annotated) by {
            if k < before.len() {
                assert(now[k] == before[k]);
                let m = choose|m: int| 0 <= m < some.len() && some[m] == before[k];
                assert(nodes[m] == now[k]);
            } else {
                assert(nodes[nodes.len() - 1] == now[k]);
            }
        }
        assert forall|j: int, k: int| 0 <= j < k < now.len() implies (#[trigger] now[j])
            < #[trigger] now[k] by {
            assert(now[j] == before[j]);
            if k < before.len() {
                assert(now[k] == before[k]);
            } else {
                let m = choose|m: int| 0 <= m < some.len() && some[m] == before[j];
                assert(nodes[m] < nodes[nodes.len() - 1]);
            }
        }
    }
}

/// The lines of the unit that a kept function gives are its own.
proof fn lemma_given_lines(t: Seq<NodeView>, normal: Seq<NodeView>, source: Seq<char>, i: int)
    requires
        describes(t, encode_utf8(source)),
        0 <= i < t.len(),
        is_function(t, i),
        !is_omitted(t, i, annotated_units(t, normal, source, index_of(t, source))),
    ensures
        ({
            let index = index_of(t, source);
            let annotated = annotated_units(t, normal, source, index);
            let unit = unit_given(t, i, source, index, annotated);
            unit.line == t[declaration_of(t, i)].start_row + 1 && unit.end == t[i].end_row + 1
        }),
{
    let bytes = encode_utf8(source);
    let index = index_of(t, source);
    let annotated = annotated_units(t, normal, source, index);
    if !is_accepted(t, i) {
        let function = range_of(t, i);
        law_annotated_units(t, normal, source, index, function);
        let j = choose|j: int|
            0 <= j < t.len() && #[trigger] is_broken_function(t, j, function, annotated[function]);
        assert(rows_count(bytes, t[i]) && rows_count(bytes, t[j]));
    }
}

// ---------------------------------------------------------------------------------------------
// References

/// A list in which nothing comes twice has the same elements as the list that it was made of.
pub proof fn law_distinct(s: Seq<ReferenceView>)
    ensures
        distinct(s).no_duplicates(),
        forall|r: ReferenceView| #[trigger] distinct(s).contains(r) <==> s.contains(r),
    decreases s.len(),
{
    if s.len() > 0 {
        let some = s.drop_last();
        let before = distinct(some);
        let now = distinct(s);
        law_distinct(some);
        assert(s.contains(s.last()));
        assert forall|r: ReferenceView| #[trigger] now.contains(r) implies s.contains(r) by {
            if before.contains(r) {
                assert(some.contains(r));
                let k = choose|k: int| 0 <= k < some.len() && some[k] == r;
                assert(s[k] == r);
            } else {
                let k = choose|k: int| 0 <= k < now.len() && now[k] == r;
                if k < before.len() {
                    assert(before[k] == r);
                }
            }
        }
        assert forall|r: ReferenceView| s.contains(r) implies #[trigger] now.contains(r) by {
            let k = choose|k: int| 0 <= k < s.len() && s[k] == r;
            if k < some.len() {
                assert(some[k] == r);
                assert(some.contains(r));
                assert(before.contains(r));
                let m = choose|m: int| 0 <= m < before.len() && before[m] == r;
                assert(now[m] == r);
            } else if before.contains(r) {
                assert(now == before);
            } else {
                assert(now.last() == r);
            }
        }
    }
}

/// No reference of a function comes twice.
pub proof fn law_references_are_distinct(
    t: Seq<NodeView>,
    node: int,
    source: Seq<char>,
    index: ScopeIndexView,
)
    ensures
        references_of(t, node, source, index).no_duplicates(),
{
    match field_of(t, node, "body"@) {
        Some(body) => {
            law_distinct(
                references_at(
                    t,
                    node,
                    code_nodes(t, node, body),
                    source,
                    context_of(t, node, body, source, index),
                ),
            );
        },
        None => {},
    }
}

/// Resolving a reference changes nothing but its qualification, and nothing the second time.
pub proof fn law_resolution_changes_the_qualification(context: ContextView, r: ReferenceView)
    ensures
        context.resolved(r) == (ReferenceView {
            qualification: context.resolved(r).qualification,
            ..r
        }),
        context.resolved(r).qualification == r.qualification || context.resolved(r).qualification
            == "unknown"@,
        context.resolved(context.resolved(r)) == context.resolved(r),
{
}

/// A reference is not taken for what it names where a local binding, a declaration around the
/// function, an import inside it or an owner that is not known may give the name another meaning.
pub proof fn law_unsafe_references_are_unknown(context: ContextView, r: ReferenceView)
    ensures
        context.imports ==> context.resolved(r).qualification == "unknown"@,
        context.has_unknown_scope() ==> context.resolved(r).qualification == "unknown"@,
        (r.qualification == "unqualified"@ || r.qualification == "this"@) && context.shadows(r.name)
            ==> context.resolved(r).qualification == "unknown"@,
        (r.qualification == "unqualified"@ || r.qualification == "this"@)
            && context.declares_constructor(r.name) ==> context.resolved(r).qualification
            == "unknown"@,
        r.qualification == "qualified"@ && context.hides_qualified(r.qualifier, r.name)
            ==> context.resolved(r).qualification == "unknown"@,
        r.qualification == "unknown"@ ==> context.resolved(r) == r,
{
}

/// A member that the type of the function defines is known, in spite of imports outside the type,
/// unless something in the function or around it shadows its name.
pub proof fn law_known_members_stay_known(context: ContextView, r: ReferenceView)
    requires
        r.qualification == "unqualified"@ || r.qualification == "this"@,
        context.is_known_member(r.name),
        !context.imports,
        !context.shadows(r.name),
        !context.declares_constructor(r.name),
    ensures
        context.resolved(r) == r,
{
    reveal_strlit("unqualified");
    reveal_strlit("this");
    reveal_strlit("qualified");
    assert("unqualified"@.len() == 11 && "this"@.len() == 4 && "qualified"@.len() == 9);
}

/// Whether node `k` is in the subtree of `root`, and neither it nor a node around it, up to and
/// including `root`, starts a nested scope.
pub open spec fn is_own_node(t: Seq<NodeView>, root: int, k: int) -> bool {
    &&& root <= k < subtree_end(t, root)
    &&& forall|j: int|
        root <= j <= k && is_nested_scope((#[trigger] t[j]).kind) ==> subtree_end(t, j) <= k
}

/// What is walked from a body, or from an initializer, is every node of its subtree but the nested
/// functions, local classes and lambdas and what is inside of them, in preorder and each once.
pub proof fn law_walks(t: Seq<NodeView>, root: int)
    requires
        preorder(t),
        0 <= root < t.len(),
    ensures
        forall|k: int| #[trigger] walked(t, root).contains(k) <==> is_own_node(t, root, k),
        forall|a: int, b: int|
            0 <= a < b < walked(t, root).len() ==> (#[trigger] walked(t, root)[a])
                < #[trigger] walked(t, root)[b],
{
    lemma_end(t, root);
    let end = subtree_end(t, root);
    let all = walked(t, root);
    lemma_own_nodes(t, root, end);
    assert forall|k: int| #[trigger] all.contains(k) implies is_own_node(t, root, k) by {
        let at = choose|at: int| 0 <= at < all.len() && all[at] == k;
        assert forall|j: int|
            root <= j <= k && is_nested_scope((#[trigger] t[j]).kind) implies subtree_end(t, j)
            <= k by {
            if j > root {
                lemma_nested(t, root, j);
            }
            lemma_nested_scopes(t, root, end, at, j);
        }
    }
    assert forall|k: int| is_own_node(t, root, k) implies #[trigger] all.contains(k) by {
        lemma_own_node_is_walked(t, root, end, k);
    }
}

/// A node that no nested scope holds is walked.
proof fn lemma_own_node_is_walked(t: Seq<NodeView>, i: int, end: int, k: int)
    requires
        preorder(t),
        0 <= i <= k < end <= t.len(),
        forall|j: int|
            i <= j <= k && is_nested_scope((#[trigger] t[j]).kind) ==> subtree_end(t, j) <= k,
    ensures
        own_nodes(t, i, end).contains(k),
    decreases end - i,
{
    let all = own_nodes(t, i, end);
    let next = subtree_end(t, i);
    lemma_end(t, i);
    if is_nested_scope(t[i].kind) {
        lemma_own_node_is_walked(t, next, end, k);
    } else if i == k {
        assert(all[0] == k);
    } else {
        let rest = own_nodes(t, i + 1, end);
        lemma_own_node_is_walked(t, i + 1, end, k);
        let at = choose|at: int| 0 <= at < rest.len() && rest[at] == k;
        assert(all[at + 1] == k);
    }
}

/// A walk holds nothing of the nested scopes in its range.
proof fn lemma_nested_scopes(t: Seq<NodeView>, i: int, end: int, k: int, j: int)
    requires
        preorder(t),
        0 <= i,
        end <= t.len(),
        i <= j < end,
        is_nested_scope(t[j].kind),
        subtree_end(t, j) <= end,
        0 <= k < own_nodes(t, i, end).len(),
    ensures
        !(j <= own_nodes(t, i, end)[k] < subtree_end(t, j)),
    decreases end - i,
{
    lemma_own_nodes(t, i, end);
    let next = subtree_end(t, i);
    lemma_end(t, i);
    lemma_end(t, j);
    if !is_nested_scope(t[i].kind) {
        let rest = own_nodes(t, i + 1, end);
        assert(own_nodes(t, i, end) == seq![i] + rest);
        if k > 0 {
            assert(own_nodes(t, i, end)[k] == rest[k - 1]);
            lemma_nested_scopes(t, i + 1, end, k - 1, j);
        }
    } else if next <= end {
        let rest = own_nodes(t, next, end);
        assert(own_nodes(t, i, end) == rest);
        lemma_own_nodes(t, next, end);
        if j >= next {
            lemma_nested_scopes(t, next, end, k, j);
        } else {
            if j > i {
                lemma_nested(t, i, j);
            }
            assert(rest[k] >= next);
        }
    } else {
        assert(own_nodes(t, i, end) == Seq::<int>::empty());
    }
}

/// The nodes of a walk lie in its range, in order.
pub proof fn lemma_own_nodes(t: Seq<NodeView>, i: int, end: int)
    requires
        preorder(t),
        0 <= i,
        end <= t.len(),
    ensures
        forall|k: int|
            0 <= k < own_nodes(t, i, end).len() ==> i <= #[trigger] own_nodes(t, i, end)[k] < end,
        forall|a: int, b: int|
            0 <= a < b < own_nodes(t, i, end).len() ==> (#[trigger] own_nodes(t, i, end)[a])
                < #[trigger] own_nodes(t, i, end)[b],
    decreases end - i,
{
    if i < end {
        let next = subtree_end(t, i);
        let all = own_nodes(t, i, end);
        if !is_nested_scope(t[i].kind) {
            lemma_own_nodes(t, i + 1, end);
            let rest = own_nodes(t, i + 1, end);
            assert(all == seq![i] + rest);
            assert forall|k: int| 0 <= k < all.len() implies i <= #[trigger] all[k] < end by {
                if k > 0 {
                    assert(all[k] == rest[k - 1]);
                }
            }
            assert forall|a: int, b: int| 0 <= a < b < all.len() implies (#[trigger] all[a])
                < #[trigger] all[b] by {
                assert(all[b] == rest[b - 1]);
                if a > 0 {
                    assert(all[a] == rest[a - 1]);
                }
            }
        } else if i < next <= end {
            lemma_own_nodes(t, next, end);
            assert(all == own_nodes(t, next, end));
        } else {
            assert(all == Seq::<int>::empty());
        }
    } else {
        assert(own_nodes(t, i, end) == Seq::<int>::empty());
    }
}

/// The least and the greatest number of arguments are known together, and the least is no greater
/// than the greatest. A function that is written with `(void)` takes no arguments.
pub proof fn law_arity(
    t: Seq<NodeView>,
    node: int,
    source: Seq<char>,
    index: ScopeIndexView,
    name: Seq<char>,
    line: int,
    end: int,
)
    ensures
        unit_of(t, node, source, index, name, line, end).min_args is Some <==> unit_of(
            t,
            node,
            source,
            index,
            name,
            line,
            end,
        ).max_args is Some,
        unit_of(t, node, source, index, name, line, end).min_args matches Some(least) ==> 0
            <= least <= unit_of(t, node, source, index, name, line, end).max_args->0,
        takes_void(t, node, source) ==> unit_of(
            t,
            node,
            source,
            index,
            name,
            line,
            end,
        ).max_args == Some(0int),
{
    let declarator = declarator_of(t, node);
    match parameters_of(t, declarator) {
        Some(parameters) => {
            let nodes = children_of(t, parameters);
            lemma_count_kind(t, nodes, "parameter_declaration"@);
            lemma_count_kind(t, nodes, "optional_parameter_declaration"@);
        },
        None => {},
    }
}

proof fn lemma_count_kind(t: Seq<NodeView>, nodes: Seq<int>, kind: Seq<char>)
    ensures
        0 <= count_kind(t, nodes, kind) <= nodes.len(),
    decreases nodes.len(),
{
    if nodes.len() > 0 {
        lemma_count_kind(t, nodes.drop_last(), kind);
    }
}

// ---------------------------------------------------------------------------------------------
// Texts without their annotations

/// Taking away the annotations of a text makes some of their bytes blank and changes nothing else:
/// the text stays valid, and every offset, every line and every boundary between characters stays
/// where it is.
pub proof fn law_normalized_text(t: Seq<NodeView>, source: Seq<char>)
    requires
        describes(t, encode_utf8(source)),
    ensures
        ({
            let bytes = encode_utf8(source);
            let normal = normalized(bytes, candidates_of(t, bytes));
            &&& is_blanked(bytes, normal)
            &&& valid_utf8(normal)
            &&& forall|n: int|
                0 <= n <= bytes.len() ==> #[trigger] line_feeds(normal, n) == line_feeds(bytes, n)
            &&& forall|n: int|
                0 <= n <= bytes.len() ==> #[trigger] is_char_boundary(normal, n)
                    == is_char_boundary(bytes, n)
        }),
{
    let bytes = encode_utf8(source);
    let normal = normalized(bytes, candidates_of(t, bytes));
    lemma_candidates(t, bytes, t.len() as int);
    lemma_normalized(bytes, candidates_of(t, bytes));
    encode_utf8_valid_utf8(source);
    lemma_blanked_utf8(bytes, normal);
    assert forall|n: int| 0 <= n <= bytes.len() implies #[trigger] line_feeds(normal, n)
        == line_feeds(bytes, n) by {
        lemma_blanked_lines(bytes, normal, n);
    }
    assert forall|n: int| 0 <= n <= bytes.len() implies #[trigger] is_char_boundary(normal, n)
        == is_char_boundary(bytes, n) by {
        lemma_blanked_boundary(bytes, normal, n);
    }
}

/// A text with plain raw strings has one extraction.
pub proof fn law_plain_texts_have_one_extraction(extraction: ExtractionView, source: Seq<char>)
    requires
        is_extraction_of(extraction, source),
        has_plain_raw_strings(encode_utf8(source)),
    ensures
        extraction == extraction_of(source),
{
    reveal(is_extraction_of);
    let bytes = encode_utf8(source);
    let (t, normal) = choose|t: Seq<NodeView>, normal: Seq<NodeView>|
        is_tree_of(t, bytes) && is_second_tree(t, normal, bytes) && extraction
            == #[trigger] extraction_with(t, normal, source);
    let candidates = candidates_of(t, bytes);
    let text = normalized(bytes, candidates);
    lemma_candidates(t, bytes, t.len() as int);
    lemma_normalized(bytes, candidates);
    assert(has_plain_raw_strings(text)) by {
        assert forall|j: int, k: int| #[trigger]
            starts_raw_string(text, j) && j < k < text.len() implies #[trigger] is_ascii_at(
            text,
            k,
        ) by {
            assert(text[j] == bytes[j] && text[j + 1] == bytes[j + 1]);
            assert(starts_raw_string(bytes, j));
            assert(is_ascii_at(bytes, k));
        }
    }
}

// ---------------------------------------------------------------------------------------------
// Names

/// The qualified name of a unit is its name behind the path of its scope. A constructor has the
/// name of the innermost scope.
pub proof fn law_qualified_names(
    t: Seq<NodeView>,
    node: int,
    source: Seq<char>,
    index: ScopeIndexView,
    name: Seq<char>,
    line: int,
    end: int,
)
    ensures
        ({
            let unit = unit_of(t, node, source, index, name, line, end);
            &&& unit.name == name
            &&& unit.qualified_name == if unit.scope.len() == 0 {
                name
            } else {
                path_of(unit.scope) + separator() + name
            }
            &&& unit.kind == "constructor"@ ==> unit.scope.len() > 0 && unit.scope.last().name
                == name && unit.scope.last().kind == "type"@
        }),
{
    let unit = unit_of(t, node, source, index, name, line, end);
    lemma_joined_push(scope_names(unit.scope), name);
    assert(Seq::<char>::empty() + name =~= name);
    reveal_strlit("constructor");
    reveal_strlit("function");
    assert("constructor"@.len() == 11 && "function"@.len() == 8);
}

} // verus!
