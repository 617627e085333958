//! Narrow recovery of functions whose signature starts with an annotation that the parser takes
//! for a type. The spelling in capitals is a heuristic, no evidence of a macro.
use vstd::prelude::*;
use vstd::utf8::{encode_utf8, encode_utf8_valid_utf8};
use crate::blanks::{
    is_annotation, is_annotation_byte, is_blanked, lemma_blanked_fits, lemma_blanked_utf8,
    spells_annotation,
};
use crate::cpp::{is_tree_of, CppParser};
use crate::declarators::{declarator_name, name_of};
use crate::extraction::MAX_SOURCE_BYTES;
use crate::ranges::{is_range, RangeMap};
use crate::scopes::{ScopeIndex, ScopeIndexView};
use crate::signatures::{
    declaration, declaration_of, has_issue, is_broken, is_issue, is_recoverable,
    recoverable_signature, template, template_of,
};
use crate::syntax::{
    describes, field_of, fits, lemma_line_feeds, lemma_selected_children, position, rows_count,
    span_fits, subtree_end, NodeView, SyntaxTree,
};
use crate::units::{unit, unit_of, Unit, UnitView};

verus! {

/// What a candidate is, mathematically.
pub struct CandidateView {
    pub function: (int, int),
    pub template_start: Option<int>,
    pub line: int,
    pub end: int,
    pub prefix: (int, int),
}

/// A function that an annotation may have broken.
pub struct Candidate {
    /// The range of the function definition.
    pub function: (usize, usize),
    /// Where the template declaration around it starts.
    pub template_start: Option<usize>,
    /// Its first line.
    pub line: usize,
    /// Its last line.
    pub end: usize,
    /// The range of the annotation.
    pub prefix: (usize, usize),
}

impl View for Candidate {
    type V = CandidateView;

    open spec fn view(&self) -> CandidateView {
        CandidateView {
            function: (self.function.0 as int, self.function.1 as int),
            template_start: position(self.template_start),
            line: self.line as int,
            end: self.end as int,
            prefix: (self.prefix.0 as int, self.prefix.1 as int),
        }
    }
}

/// The mathematical values of the candidates of a map.
pub open spec fn candidate_views(candidates: Map<(int, int), Candidate>) -> Map<
    (int, int),
    CandidateView,
> {
    candidates.map_values(|c: Candidate| c@)
}

/// Whether an issue stands in a signature, between the annotation `prefix` and the body `body`.
pub open spec fn in_signature(issue: NodeView, prefix: NodeView, body: NodeView) -> bool {
    issue.start_byte >= prefix.end_byte && issue.end_byte <= body.start_byte
}

/// Whether every issue inside node `i` stands in its signature.
pub open spec fn issues_in_signature(t: Seq<NodeView>, i: int, prefix: int, body: int) -> bool {
    forall|j: int|
        i <= j < subtree_end(t, i) && is_issue(#[trigger] t[j]) ==> in_signature(
            t[j],
            t[prefix],
            t[body],
        )
}

/// Whether the function definition `i` with the given body, declarator and type is a candidate.
pub open spec fn is_candidate(
    t: Seq<NodeView>,
    i: int,
    body: int,
    declarator: int,
    prefix: int,
    bytes: Seq<u8>,
) -> bool {
    &&& !t[body].has_error
    &&& t[body].kind == "compound_statement"@
    &&& t[prefix].kind == "type_identifier"@
    &&& is_annotation(bytes.subrange(t[prefix].start_byte, t[prefix].end_byte))
    &&& t[prefix].end_byte <= t[declarator].start_byte
    &&& has_issue(t, i)
    &&& issues_in_signature(t, i, prefix, body)
}

/// The offset at which an optional node starts.
pub open spec fn start_of(t: Seq<NodeView>, node: Option<int>) -> Option<int> {
    match node {
        Some(node) => Some(t[node].start_byte),
        None => None,
    }
}

/// The candidate that node `i` is, with the range of its body.
pub open spec fn candidate_of(t: Seq<NodeView>, i: int, bytes: Seq<u8>) -> Option<
    ((int, int), CandidateView),
> {
    let body = field_of(t, i, "body"@);
    let declarator = field_of(t, i, "declarator"@);
    let prefix = field_of(t, i, "type"@);
    if t[i].kind == "function_definition"@ && t[i].has_error && body is Some && declarator is Some
        && prefix is Some && is_candidate(t, i, body->0, declarator->0, prefix->0, bytes) {
        Some(
            (
                (t[body->0].start_byte, t[body->0].end_byte),
                CandidateView {
                    function: (t[i].start_byte, t[i].end_byte),
                    template_start: start_of(t, template_of(t, i)),
                    line: t[declaration_of(t, i)].start_row + 1,
                    end: t[i].end_row + 1,
                    prefix: (t[prefix->0].start_byte, t[prefix->0].end_byte),
                },
            ),
        )
    } else {
        None
    }
}

/// The candidates among the first `n` nodes, by the range of their body; where two have the same
/// body, the later.
pub open spec fn candidates_before(t: Seq<NodeView>, bytes: Seq<u8>, n: int) -> Map<
    (int, int),
    CandidateView,
>
    decreases n,
{
    if n <= 0 {
        Map::empty()
    } else {
        let before = candidates_before(t, bytes, n - 1);
        match candidate_of(t, n - 1, bytes) {
            Some(found) => before.insert(found.0, found.1),
            None => before,
        }
    }
}

/// All candidates of a tree.
pub open spec fn candidates_of(t: Seq<NodeView>, bytes: Seq<u8>) -> Map<(int, int), CandidateView> {
    candidates_before(t, bytes, t.len() as int)
}

/// Whether the annotation of `candidate` covers the offset `k`.
pub open spec fn covers(candidate: CandidateView, k: int) -> bool {
    candidate.prefix.0 <= k < candidate.prefix.1
}

/// Whether some candidate's annotation covers the offset `k`.
pub open spec fn is_covered(candidates: Map<(int, int), CandidateView>, k: int) -> bool {
    exists|range: (int, int)|
        candidates.contains_key(range) && covers(#[trigger] candidates[range], k)
}

/// The text with the annotations of the candidates made blank.
pub open spec fn normalized(bytes: Seq<u8>, candidates: Map<(int, int), CandidateView>) -> Seq<u8> {
    Seq::new(
        bytes.len(),
        |k: int|
            if is_covered(candidates, k) {
                0x20
            } else {
                bytes[k]
            },
    )
}

/// Whether the annotation of a candidate is one of the text `bytes`.
pub open spec fn is_annotated(bytes: Seq<u8>, candidate: CandidateView) -> bool {
    &&& 0 <= candidate.prefix.0 <= candidate.prefix.1 <= bytes.len()
    &&& is_annotation(bytes.subrange(candidate.prefix.0, candidate.prefix.1))
}

/// Whether the annotations of all candidates are ones of the text `bytes`.
pub open spec fn are_annotated(bytes: Seq<u8>, candidates: Map<(int, int), CandidateView>) -> bool {
    forall|range: (int, int)|
        candidates.contains_key(range) ==> is_annotated(bytes, #[trigger] candidates[range])
}

/// The candidates of a tree that fits a text have their annotations in that text.
pub proof fn lemma_candidates(t: Seq<NodeView>, bytes: Seq<u8>, n: int)
    requires
        describes(t, bytes),
        n <= t.len(),
    ensures
        are_annotated(bytes, candidates_before(t, bytes, n)),
    decreases n,
{
    if n > 0 {
        lemma_candidates(t, bytes, n - 1);
        let prefix = field_of(t, n - 1, "type"@);
        lemma_selected_children(t, n - 1, "type"@);
        if prefix is Some {
            assert(span_fits(bytes, t[prefix->0]));
        }
    }
}

/// Only bytes of annotations are made blank.
pub proof fn lemma_normalized(bytes: Seq<u8>, candidates: Map<(int, int), CandidateView>)
    requires
        are_annotated(bytes, candidates),
    ensures
        is_blanked(bytes, normalized(bytes, candidates)),
{
    let blank = normalized(bytes, candidates);
    assert forall|k: int| 0 <= k < bytes.len() implies #[trigger] blank[k] == bytes[k] || blank[k]
        == 0x20 && is_annotation_byte(bytes[k]) by {
        if is_covered(candidates, k) {
            let range = choose|range: (int, int)|
                candidates.contains_key(range) && covers(#[trigger] candidates[range], k);
            let prefix = candidates[range].prefix;
            assert(is_annotated(bytes, candidates[range]));
            let name = bytes.subrange(prefix.0, prefix.1);
            assert(is_annotation_byte(name[k - prefix.0]));
        }
    }
}

/// Whether every issue inside node `i`, of which there is some, stands in its signature.
fn breaks_signature_only(tree: &SyntaxTree, i: usize, prefix: usize, body: usize) -> (result: bool)
    requires
        i < tree@.len(),
        prefix < tree@.len(),
        body < tree@.len(),
    ensures
        result == (has_issue(tree@, i as int) && issues_in_signature(
            tree@,
            i as int,
            prefix as int,
            body as int,
        )),
{
    let ghost t = tree@;
    let from = tree.node(prefix).end_byte;
    let to = tree.node(body).start_byte;
    let end = tree.end(i);
    let mut seen = false;
    let mut j = i;
    while j < end
        invariant
            t == tree@,
            prefix < t.len(),
            body < t.len(),
            from == t[prefix as int].end_byte,
            to == t[body as int].start_byte,
            end == subtree_end(t, i as int),
            i <= j <= end <= t.len(),
            seen == exists|k: int| i <= k < j && is_issue(#[trigger] t[k]),
            forall|k: int|
                i <= k < j && is_issue(#[trigger] t[k]) ==> in_signature(
                    t[k],
                    t[prefix as int],
                    t[body as int],
                ),
        decreases end - j,
    {
        if is_broken(tree, j) {
            if tree.node(j).start_byte < from || tree.node(j).end_byte > to {
                assert(is_issue(t[j as int]));
                return false;
            }
            seen = true;
        }
        j = j + 1;
    }
    seen
}

/// The candidate that node `i` is, with the range of its body.
fn candidate(tree: &SyntaxTree, i: usize, source: &str) -> (result: Option<
    ((usize, usize), Candidate),
>)
    requires
        i < tree@.len(),
        describes(tree@, encode_utf8(source@)),
        encode_utf8(source@).len() <= MAX_SOURCE_BYTES,
    ensures
        match result {
            Some(found) => candidate_of(tree@, i as int, encode_utf8(source@)) == Some(
                ((found.0.0 as int, found.0.1 as int), found.1@),
            ),
            None => candidate_of(tree@, i as int, encode_utf8(source@)) is None,
        },
        result matches Some(found) ==> is_range((found.0.0 as int, found.0.1 as int)),
{
    let ghost bytes = encode_utf8(source@);
    if !tree.is_kind(i, "function_definition") || !tree.node(i).has_error {
        return None;
    }
    let body = match tree.field(i, "body") {
        Some(body) => body,
        None => {
            return None;
        },
    };
    let declarator = match tree.field(i, "declarator") {
        Some(declarator) => declarator,
        None => {
            return None;
        },
    };
    let prefix = match tree.field(i, "type") {
        Some(prefix) => prefix,
        None => {
            return None;
        },
    };
    let from = tree.node(prefix).start_byte;
    let to = tree.node(prefix).end_byte;
    assert(span_fits(bytes, tree@[prefix as int]));
    if tree.node(body).has_error || !tree.is_kind(body, "compound_statement") || !tree.is_kind(
        prefix,
        "type_identifier",
    ) || !spells_annotation(source.as_bytes(), from, to) || to > tree.node(declarator).start_byte
        || !breaks_signature_only(tree, i, prefix, body) {
        return None;
    }
    let template_start = match template(tree, i) {
        Some(template) => Some(tree.node(template).start_byte),
        None => None,
    };
    let start = declaration(tree, i);
    proof {
        assert(span_fits(bytes, tree@[body as int]));
        assert(span_fits(bytes, tree@[i as int]));
        assert(span_fits(bytes, tree@[start as int]));
        assert(rows_count(bytes, tree@[i as int]));
        assert(rows_count(bytes, tree@[start as int]));
        lemma_line_feeds(bytes, 0, tree@[start as int].start_byte);
        lemma_line_feeds(bytes, 0, tree@[i as int].end_byte);
    }
    let found = Candidate {
        function: (tree.node(i).start_byte, tree.node(i).end_byte),
        template_start,
        line: tree.node(start).start_row + 1,
        end: tree.node(i).end_row + 1,
        prefix: (from, to),
    };
    Some(((tree.node(body).start_byte, tree.node(body).end_byte), found))
}

/// All candidates of a tree, by the range of their body.
pub fn candidates(tree: &SyntaxTree, source: &str) -> (result: RangeMap<Candidate>)
    requires
        describes(tree@, encode_utf8(source@)),
        encode_utf8(source@).len() <= MAX_SOURCE_BYTES,
    ensures
        result.wf(),
        candidate_views(result@) == candidates_of(tree@, encode_utf8(source@)),
{
    let ghost bytes = encode_utf8(source@);
    let mut found: RangeMap<Candidate> = RangeMap::new();
    let n = tree.len();
    let mut i: usize = 0;
    assert(candidate_views(found@) =~= Map::<(int, int), CandidateView>::empty());
    while i < n
        invariant
            n == tree@.len(),
            i <= n,
            bytes == encode_utf8(source@),
            describes(tree@, bytes),
            bytes.len() <= MAX_SOURCE_BYTES,
            found.wf(),
            candidate_views(found@) == candidates_before(tree@, bytes, i as int),
        decreases n - i,
    {
        let ghost was = candidate_views(found@);
        match candidate(tree, i, source) {
            Some((body, candidate)) => {
                found.insert(body.0, body.1, candidate);
                assert(candidate_views(found@) =~= was.insert(
                    (body.0 as int, body.1 as int),
                    candidate@,
                ));
            },
            None => {},
        }
        i = i + 1;
    }
    found
}

/// Whether one of the first `n` values of a map covers the offset `k`.
spec fn covered_by(values: Seq<Candidate>, n: int, k: int) -> bool {
    exists|j: int| 0 <= j < n && covers((#[trigger] values[j])@, k)
}

/// The text with the annotations of the candidates made blank.
pub fn normalize(source: &str, candidates: &RangeMap<Candidate>) -> (text: Vec<u8>)
    requires
        candidates.wf(),
        are_annotated(encode_utf8(source@), candidate_views(candidates@)),
    ensures
        text@ == normalized(encode_utf8(source@), candidate_views(candidates@)),
{
    let bytes = source.as_bytes();
    let ghost all = candidate_views(candidates@);
    let ghost values = candidates.values();
    let mut text: Vec<u8> = Vec::new();
    let mut k: usize = 0;
    while k < bytes.len()
        invariant
            k <= bytes.len(),
            text@ == bytes@.take(k as int),
        decreases bytes.len() - k,
    {
        text.push(bytes[k]);
        k = k + 1;
        assert(bytes@.take(k as int) =~= bytes@.take(k - 1).push(bytes@[k - 1]));
    }
    assert(text@ =~= bytes@);
    let n = candidates.len();
    proof {
        candidates.lemma_values();
    }
    let mut j: usize = 0;
    while j < n
        invariant
            bytes@ == encode_utf8(source@),
            candidates.wf(),
            values == candidates.values(),
            all == candidate_views(candidates@),
            are_annotated(bytes@, all),
            forall|m: int| 0 <= m < values.len() ==> candidates.holds(#[trigger] values[m]),
            j <= n == values.len(),
            text.len() == bytes@.len(),
            forall|k: int|
                0 <= k < text.len() ==> #[trigger] text@[k] == if covered_by(values, j as int, k) {
                    0x20
                } else {
                    bytes@[k]
                },
        decreases n - j,
    {
        let candidate = candidates.value(j);
        let (from, to) = candidate.prefix;
        assert(is_annotated(bytes@, candidate@)) by {
            assert(candidates.holds(values[j as int]));
            let range = choose|range: (int, int)|
                candidates@.contains_key(range) && #[trigger] candidates@[range]
                    == values[j as int];
            assert(all.contains_key(range) && all[range] == candidate@);
        }
        let ghost before = text@;
        let mut k: usize = from;
        while k < to
            invariant
                from <= k <= to <= before.len(),
                text.len() == before.len(),
                forall|m: int|
                    0 <= m < text.len() ==> #[trigger] text@[m] == if from <= m < k {
                        0x20
                    } else {
                        before[m]
                    },
            decreases to - k,
        {
            text.set(k, 0x20);
            k = k + 1;
        }
        assert forall|k: int| 0 <= k < text.len() implies #[trigger] text@[k] == if covered_by(
            values,
            j + 1,
            k,
        ) {
            0x20
        } else {
            bytes@[k]
        } by {
            assert(covers(values[j as int]@, k) == (from <= k < to));
            if covered_by(values, j as int, k) {
                let m = choose|m: int| 0 <= m < j && covers((#[trigger] values[m])@, k);
                assert(covers(values[m]@, k));
            }
            assert(before[k] == if covered_by(values, j as int, k) {
                0x20
            } else {
                bytes@[k]
            });
        }
        j = j + 1;
    }
    proof {
        assert forall|k: int| 0 <= k < text.len() implies covered_by(values, n as int, k)
            == is_covered(all, k) by {
            if covered_by(values, n as int, k) {
                let m = choose|m: int| 0 <= m < n && covers((#[trigger] values[m])@, k);
                assert(candidates.holds(values[m]));
                let range = choose|range: (int, int)|
                    candidates@.contains_key(range) && #[trigger] candidates@[range] == values[m];
                assert(all.contains_key(range) && covers(all[range], k));
            }
            if is_covered(all, k) {
                let range = choose|range: (int, int)|
                    all.contains_key(range) && covers(#[trigger] all[range], k);
                assert(candidates@.contains_key(range));
                let value = candidates@[range];
                assert(candidates.holds(value));
                let m = choose|m: int| 0 <= m < values.len() && values[m] == value;
                assert(covers(values[m]@, k));
            }
        }
        assert(text@ =~= normalized(bytes@, all));
    }
    text
}

// ---------------------------------------------------------------------------------------------
// Functions of the normalized text

/// Whether a node stands between the offsets `from` and `to`.
pub open spec fn lies_between(node: NodeView, from: int, to: int) -> bool {
    from <= node.start_byte && node.end_byte <= to
}

/// Whether a signature has no error, or only missing types of default arguments `= {}`.
pub open spec fn is_clean(t: Seq<NodeView>, signature: int, body: int) -> bool {
    !t[signature].has_error || is_recoverable(t, signature, body)
}

/// Whether the function definition `i` of the normalized text is the complete function that
/// `candidate` was, with a return type and a declarator after the annotation.
pub open spec fn is_restored(
    t: Seq<NodeView>,
    i: int,
    body: int,
    declarator: int,
    return_type: int,
    candidate: CandidateView,
) -> bool {
    &&& candidate.function.0 <= t[i].start_byte < t[body].start_byte
    &&& t[i].end_byte == candidate.function.1
    &&& start_of(t, template_of(t, i)) == candidate.template_start
    &&& lies_between(t[return_type], candidate.prefix.1, t[body].start_byte)
    &&& lies_between(t[declarator], candidate.prefix.1, t[body].start_byte)
    &&& is_clean(t, declaration_of(t, i), body)
}

/// The unit that node `i` of the normalized text restores, with the range of the function that it
/// stands for.
pub open spec fn restored_at(
    t: Seq<NodeView>,
    i: int,
    source: Seq<char>,
    index: ScopeIndexView,
    candidates: Map<(int, int), CandidateView>,
) -> Option<((int, int), UnitView)> {
    let body = field_of(t, i, "body"@);
    let declarator = field_of(t, i, "declarator"@);
    let return_type = field_of(t, i, "type"@);
    if t[i].kind == "function_definition"@ && body is Some && declarator is Some && return_type
        is Some {
        let range = (t[body->0].start_byte, t[body->0].end_byte);
        let candidate = candidates[range];
        if candidates.contains_key(range) && is_restored(
            t,
            i,
            body->0,
            declarator->0,
            return_type->0,
            candidate,
        ) {
            let name = declarator_name(t, declarator->0, source);
            Some(
                (
                    candidate.function,
                    unit_of(t, i, source, index, name, candidate.line, candidate.end),
                ),
            )
        } else {
            None
        }
    } else {
        None
    }
}

/// The units that the first `n` nodes of the normalized text restore, by the range of the
/// function that they stand for; where two stand for the same, the later.
pub open spec fn restored_before(
    t: Seq<NodeView>,
    source: Seq<char>,
    index: ScopeIndexView,
    candidates: Map<(int, int), CandidateView>,
    n: int,
) -> Map<(int, int), UnitView>
    decreases n,
{
    if n <= 0 {
        Map::empty()
    } else {
        let before = restored_before(t, source, index, candidates, n - 1);
        match restored_at(t, n - 1, source, index, candidates) {
            Some(found) => before.insert(found.0, found.1),
            None => before,
        }
    }
}

/// The units that a normalized text restores; `t` is its tree.
pub open spec fn restored_of(
    t: Seq<NodeView>,
    source: Seq<char>,
    index: ScopeIndexView,
    candidates: Map<(int, int), CandidateView>,
) -> Map<(int, int), UnitView> {
    restored_before(t, source, index, candidates, t.len() as int)
}

/// Whether a text with the tree `t` is parsed a second time, without its annotations.
pub open spec fn is_parsed_again(t: Seq<NodeView>, bytes: Seq<u8>) -> bool {
    t[0].has_error && candidates_of(t, bytes) != Map::<(int, int), CandidateView>::empty()
}

/// Whether `normal` is a tree of the text with the tree `t`, without its annotations, where that is
/// parsed.
pub open spec fn is_second_tree(t: Seq<NodeView>, normal: Seq<NodeView>, bytes: Seq<u8>) -> bool {
    is_parsed_again(t, bytes) ==> is_tree_of(normal, normalized(bytes, candidates_of(t, bytes)))
}

/// The units recovered from a text with the tree `t`: the tree `normal` of the text without its
/// annotations restores them.
pub open spec fn annotated_units(
    t: Seq<NodeView>,
    normal: Seq<NodeView>,
    source: Seq<char>,
    index: ScopeIndexView,
) -> Map<(int, int), UnitView> {
    let bytes = encode_utf8(source);
    if is_parsed_again(t, bytes) {
        restored_of(normal, source, index, candidates_of(t, bytes))
    } else {
        Map::empty()
    }
}

/// The mathematical values of the units of a map.
pub open spec fn unit_views(units: Map<(int, int), Unit>) -> Map<(int, int), UnitView> {
    units.map_values(|u: Unit| u@)
}

/// Whether a node stands between the offsets `from` and `to`.
fn stands_between(tree: &SyntaxTree, i: usize, from: usize, to: usize) -> (result: bool)
    requires
        i < tree@.len(),
    ensures
        result == lies_between(tree@[i as int], from as int, to as int),
{
    from <= tree.node(i).start_byte && tree.node(i).end_byte <= to
}

/// Whether the function definition `i` of the normalized text is the complete function that
/// `candidate` was.
fn restores(
    tree: &SyntaxTree,
    i: usize,
    body: usize,
    declarator: usize,
    return_type: usize,
    candidate: &Candidate,
) -> (result: bool)
    requires
        i < tree@.len(),
        body < tree@.len(),
        declarator < tree@.len(),
        return_type < tree@.len(),
    ensures
        result == is_restored(
            tree@,
            i as int,
            body as int,
            declarator as int,
            return_type as int,
            candidate@,
        ),
{
    let start = tree.node(i).start_byte;
    let limit = tree.node(body).start_byte;
    if start < candidate.function.0 || start >= limit || tree.node(i).end_byte
        != candidate.function.1 {
        return false;
    }
    let same_template = match (template(tree, i), candidate.template_start) {
        (Some(template), Some(offset)) => tree.node(template).start_byte == offset,
        (None, None) => true,
        _ => false,
    };
    if !same_template {
        return false;
    }
    let after = candidate.prefix.1;
    if !stands_between(tree, return_type, after, limit) || !stands_between(
        tree,
        declarator,
        after,
        limit,
    ) {
        return false;
    }
    let signature = declaration(tree, i);
    !tree.node(signature).has_error || recoverable_signature(tree, signature, body)
}

/// The unit that node `i` of the normalized text restores.
fn restored(
    tree: &SyntaxTree,
    i: usize,
    source: &str,
    index: &ScopeIndex,
    candidates: &RangeMap<Candidate>,
) -> (result: Option<((usize, usize), Unit)>)
    requires
        i < tree@.len(),
        fits(tree@, encode_utf8(source@)),
        index.wf(),
        candidates.wf(),
    ensures
        match result {
            Some(found) => restored_at(
                tree@,
                i as int,
                source@,
                index@,
                candidate_views(candidates@),
            ) == Some(((found.0.0 as int, found.0.1 as int), found.1@)),
            None => restored_at(
                tree@,
                i as int,
                source@,
                index@,
                candidate_views(candidates@),
            ) is None,
        },
{
    if !tree.is_kind(i, "function_definition") {
        return None;
    }
    let fields = (tree.field(i, "body"), tree.field(i, "declarator"), tree.field(i, "type"));
    match fields {
        (Some(body), Some(declarator), Some(return_type)) => {
            match candidates.get(tree.node(body).start_byte, tree.node(body).end_byte) {
                Some(candidate) => {
                    if !restores(tree, i, body, declarator, return_type, candidate) {
                        return None;
                    }
                    let name = name_of(tree, declarator, source);
                    let unit = unit(tree, i, source, index, name, candidate.line, candidate.end);
                    Some((candidate.function, unit))
                },
                None => None,
            }
        },
        _ => None,
    }
}

/// The units that a normalized text restores; `tree` is its tree, and offsets in it are offsets
/// in the text `source`.
pub fn restored_units(
    tree: &SyntaxTree,
    source: &str,
    index: &ScopeIndex,
    candidates: &RangeMap<Candidate>,
) -> (result: RangeMap<Unit>)
    requires
        fits(tree@, encode_utf8(source@)),
        index.wf(),
        candidates.wf(),
        forall|range: (int, int)| #[trigger]
            candidates@.contains_key(range) ==> is_range(candidates@[range]@.function),
    ensures
        result.wf(),
        unit_views(result@) == restored_of(
            tree@,
            source@,
            index@,
            candidate_views(candidates@),
        ),
{
    let ghost all = candidate_views(candidates@);
    let mut units: RangeMap<Unit> = RangeMap::new();
    let n = tree.len();
    let mut i: usize = 0;
    assert(unit_views(units@) =~= Map::<(int, int), UnitView>::empty());
    while i < n
        invariant
            n == tree@.len(),
            i <= n,
            fits(tree@, encode_utf8(source@)),
            index.wf(),
            candidates.wf(),
            all == candidate_views(candidates@),
            forall|range: (int, int)| #[trigger]
                candidates@.contains_key(range) ==> is_range(candidates@[range]@.function),
            units.wf(),
            unit_views(units@) == restored_before(tree@, source@, index@, all, i as int),
        decreases n - i,
    {
        let ghost was = unit_views(units@);
        match restored(tree, i, source, index, candidates) {
            Some((function, unit)) => {
                proof {
                    let body = field_of(tree@, i as int, "body"@)->0;
                    let range = (tree@[body].start_byte, tree@[body].end_byte);
                    assert(candidates@.contains_key(range));
                }
                units.insert(function.0, function.1, unit);
                assert(unit_views(units@) =~= was.insert(
                    (function.0 as int, function.1 as int),
                    unit@,
                ));
            },
            None => {},
        }
        i = i + 1;
    }
    units
}

/// The functions of the candidates of a tree that fits a text have ranges in that text.
proof fn lemma_candidate_functions(t: Seq<NodeView>, bytes: Seq<u8>, n: int)
    requires
        describes(t, bytes),
        bytes.len() <= MAX_SOURCE_BYTES,
        n <= t.len(),
    ensures
        forall|range: (int, int)| #[trigger]
            candidates_before(t, bytes, n).contains_key(range) ==> is_range(
                candidates_before(t, bytes, n)[range].function,
            ),
    decreases n,
{
    if n > 0 {
        lemma_candidate_functions(t, bytes, n - 1);
        assert(span_fits(bytes, t[n - 1]));
    }
}

/// The units recovered from a text with the tree `tree`, by the range of their function. There is
/// one more parse for a text that has candidates, none for another.
pub fn annotation_prefixes(
    parser: &mut CppParser,
    tree: &SyntaxTree,
    source: &str,
    index: &ScopeIndex,
) -> (result: Result<RangeMap<Unit>, String>)
    requires
        old(parser).ready(),
        describes(tree@, encode_utf8(source@)),
        encode_utf8(source@).len() <= MAX_SOURCE_BYTES,
        index.wf(),
    ensures
        final(parser).ready(),
        result matches Ok(units) && units.wf() && exists|normal: Seq<NodeView>|
            is_second_tree(tree@, normal, encode_utf8(source@)) && unit_views(units@)
                == #[trigger] annotated_units(tree@, normal, source@, index@),
{
    let ghost bytes = encode_utf8(source@);
    let n = tree.len();
    let none: RangeMap<Unit> = RangeMap::new();
    assert(unit_views(none@) =~= Map::<(int, int), UnitView>::empty());
    assert(!is_parsed_again(tree@, bytes) ==> annotated_units(tree@, tree@, source@, index@)
        == Map::<(int, int), UnitView>::empty());
    if !tree.node(0).has_error {
        return Ok(none);
    }
    let candidates = candidates(tree, source);
    let ghost all = candidate_views(candidates@);
    if candidates.len() == 0 {
        assert(all =~= Map::<(int, int), CandidateView>::empty());
        return Ok(none);
    }
    proof {
        assert(all != Map::<(int, int), CandidateView>::empty()) by {
            if all == Map::<(int, int), CandidateView>::empty() {
                assert(candidates@.dom() =~= all.dom());
                assert(candidates@ =~= Map::<(int, int), Candidate>::empty());
            }
        }
        lemma_candidates(tree@, bytes, n as int);
        lemma_normalized(bytes, all);
        encode_utf8_valid_utf8(source@);
    }
    let text = normalize(source, &candidates);
    proof {
        lemma_blanked_utf8(bytes, text@);
        lemma_candidate_functions(tree@, bytes, n as int);
        assert forall|range: (int, int)| #[trigger]
            candidates@.contains_key(range) implies is_range(candidates@[range]@.function) by {
            assert(all.contains_key(range));
        }
    }
    match parser.parse(text.as_slice()) {
        Some(normal) => {
            proof {
                lemma_blanked_fits(normal@, bytes, text@);
            }
            let units = restored_units(&normal, source, index, &candidates);
            assert(unit_views(units@) == annotated_units(tree@, normal@, source@, index@));
            Ok(units)
        },
        None => Err("parse cancelled".to_owned()),
    }
}

} // verus!
