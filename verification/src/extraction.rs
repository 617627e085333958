//! The functions of a C++ text.
use vstd::prelude::*;
use vstd::utf8::{encode_utf8, encode_utf8_valid_utf8};
use crate::cpp::{cpp_syntax, has_plain_raw_strings, is_tree_of, CppParser};
use crate::declarators::{declarator_name, name_of};
use crate::laws::{
    all_have_lines, has_plain_templates, in_line_order, law_lines,
    law_plain_texts_have_one_extraction, law_texts_without_errors, law_units_in_line_order,
    templates_hold_one_function,
};
use crate::ranges::RangeMap;
use crate::recovery::{
    annotated_units, annotation_prefixes, candidates_of, is_second_tree, normalized, unit_views,
};
use crate::scopes::{index_of, scope_index, ScopeIndex, ScopeIndexView};
use crate::signatures::{declaration, declaration_of, is_recoverable, recoverable_signature};
use crate::syntax::{
    describes, field_of, lemma_line_feeds, lemma_parent, rows_count, span_fits, NodeView,
    SyntaxTree,
};
use crate::units::{unit, unit_of, Unit, UnitView};

verus! {

/// The largest source, in bytes, that is parsed.
pub const MAX_SOURCE_BYTES: usize = 4 * 1024 * 1024;

/// What a diagnostic is, mathematically.
pub struct DiagnosticView {
    pub unit: UnitView,
    pub reason: Seq<char>,
}

/// A unit together with the reason why it was left out, or how it was recovered.
#[derive(Debug, PartialEq, Eq)]
pub struct Diagnostic {
    pub unit: Unit,
    pub reason: String,
}

impl View for Diagnostic {
    type V = DiagnosticView;

    open spec fn view(&self) -> DiagnosticView {
        DiagnosticView { unit: self.unit@, reason: self.reason@ }
    }
}

impl Clone for Diagnostic {
    fn clone(&self) -> (copy: Self)
        ensures
            copy@ == self@,
    {
        Diagnostic { unit: self.unit.clone(), reason: self.reason.clone() }
    }
}

/// What an extraction is, mathematically.
pub struct ExtractionView {
    pub units: Seq<UnitView>,
    pub parse_has_error: bool,
    pub omitted: Seq<DiagnosticView>,
    pub recovered: Seq<DiagnosticView>,
}

/// The units of a text, in preorder, and what the parser could not read.
#[derive(Debug, PartialEq, Eq)]
pub struct Extraction {
    /// The functions that have a complete body.
    pub units: Vec<Unit>,
    /// Whether the parser found any error in the text.
    pub parse_has_error: bool,
    /// The functions that are left out.
    pub omitted: Vec<Diagnostic>,
    /// Those of the units whose signature was repaired.
    pub recovered: Vec<Diagnostic>,
}

/// The mathematical values of a list of units.
pub open spec fn unit_list(units: Seq<Unit>) -> Seq<UnitView> {
    units.map_values(|u: Unit| u@)
}

/// The mathematical values of a list of diagnostics.
pub open spec fn diagnostic_list(diagnostics: Seq<Diagnostic>) -> Seq<DiagnosticView> {
    diagnostics.map_values(|d: Diagnostic| d@)
}

impl View for Extraction {
    type V = ExtractionView;

    open spec fn view(&self) -> ExtractionView {
        ExtractionView {
            units: unit_list(self.units@),
            parse_has_error: self.parse_has_error,
            omitted: diagnostic_list(self.omitted@),
            recovered: diagnostic_list(self.recovered@),
        }
    }
}

impl Clone for Extraction {
    fn clone(&self) -> (copy: Self)
        ensures
            copy@ == self@,
    {
        let units = self.units.clone();
        let omitted = self.omitted.clone();
        let recovered = self.recovered.clone();
        assert(unit_list(units@) =~= unit_list(self.units@));
        assert(diagnostic_list(omitted@) =~= diagnostic_list(self.omitted@));
        assert(diagnostic_list(recovered@) =~= diagnostic_list(self.recovered@));
        Extraction { units, parse_has_error: self.parse_has_error, omitted, recovered }
    }
}

// ---------------------------------------------------------------------------------------------
// What becomes of a function

/// Whether node `i` is a function definition.
pub open spec fn is_function(t: Seq<NodeView>, i: int) -> bool {
    t[i].kind == "function_definition"@
}

/// Whether the only errors of the function definition `i` are missing types of default arguments
/// `= {}`.
pub open spec fn is_defaulted(t: Seq<NodeView>, i: int) -> bool {
    &&& t[i].has_error
    &&& field_of(t, i, "body"@) matches Some(body) && is_recoverable(t, i, body)
}

/// Whether the function definition `i` has a body and no errors but those of default arguments.
pub open spec fn is_accepted(t: Seq<NodeView>, i: int) -> bool {
    field_of(t, i, "body"@) is Some && (!t[i].has_error || is_defaulted(t, i))
}

/// The range of node `i`.
pub open spec fn range_of(t: Seq<NodeView>, i: int) -> (int, int) {
    (t[i].start_byte, t[i].end_byte)
}

/// Whether the function definition `i` has a body without an error and, once an annotation is taken
/// away, a unit that starts where it does.
pub open spec fn is_restorable(
    t: Seq<NodeView>,
    i: int,
    annotated: Map<(int, int), UnitView>,
) -> bool {
    &&& field_of(t, i, "body"@) matches Some(body) && !t[body].has_error
    &&& annotated.contains_key(range_of(t, i))
    &&& annotated[range_of(t, i)].line == t[declaration_of(t, i)].start_row + 1
}

/// Whether the function definition `i` is left out.
pub open spec fn is_omitted(
    t: Seq<NodeView>,
    i: int,
    annotated: Map<(int, int), UnitView>,
) -> bool {
    !is_accepted(t, i) && !is_restorable(t, i, annotated)
}

/// The name of the function definition `i`.
pub open spec fn function_name(t: Seq<NodeView>, i: int, source: Seq<char>) -> Seq<char> {
    match field_of(t, i, "declarator"@) {
        Some(declarator) => declarator_name(t, declarator, source),
        None => "anonymous"@,
    }
}

/// The unit of the function definition `i`, which starts with its template declaration where it
/// is accepted.
pub open spec fn function_unit(
    t: Seq<NodeView>,
    i: int,
    source: Seq<char>,
    index: ScopeIndexView,
) -> UnitView {
    let start = if is_accepted(t, i) {
        declaration_of(t, i)
    } else {
        i
    };
    unit_of(
        t,
        i,
        source,
        index,
        function_name(t, i, source),
        t[start].start_row + 1,
        t[i].end_row + 1,
    )
}

/// Why the function definition `i` is left out.
pub open spec fn omission(t: Seq<NodeView>, i: int) -> Seq<char> {
    if t[i].has_error {
        "parse_error"@
    } else {
        "no_body"@
    }
}

/// What `before` becomes with node `i`.
pub open spec fn with_node(
    before: ExtractionView,
    t: Seq<NodeView>,
    i: int,
    source: Seq<char>,
    index: ScopeIndexView,
    annotated: Map<(int, int), UnitView>,
) -> ExtractionView {
    let own = function_unit(t, i, source, index);
    if !is_function(t, i) {
        before
    } else if is_defaulted(t, i) {
        let reason = "default_brace_signature_missing_type"@;
        ExtractionView {
            units: before.units.push(own),
            recovered: before.recovered.push(DiagnosticView { unit: own, reason }),
            ..before
        }
    } else if is_accepted(t, i) {
        ExtractionView { units: before.units.push(own), ..before }
    } else if is_restorable(t, i, annotated) {
        let unit = annotated[range_of(t, i)];
        let reason = "annotation_prefix_signature"@;
        ExtractionView {
            units: before.units.push(unit),
            recovered: before.recovered.push(DiagnosticView { unit, reason }),
            ..before
        }
    } else {
        let reason = omission(t, i);
        ExtractionView {
            omitted: before.omitted.push(DiagnosticView { unit: own, reason }),
            ..before
        }
    }
}

/// What the first `n` nodes of a tree give.
pub open spec fn extracted_before(
    t: Seq<NodeView>,
    source: Seq<char>,
    index: ScopeIndexView,
    annotated: Map<(int, int), UnitView>,
    n: int,
) -> ExtractionView
    decreases n,
{
    if n <= 0 {
        ExtractionView {
            units: Seq::empty(),
            parse_has_error: t[0].has_error,
            omitted: Seq::empty(),
            recovered: Seq::empty(),
        }
    } else {
        with_node(
            extracted_before(t, source, index, annotated, n - 1),
            t,
            n - 1,
            source,
            index,
            annotated,
        )
    }
}

/// What a tree gives, with the units that were recovered from annotations.
pub open spec fn extracted(
    t: Seq<NodeView>,
    source: Seq<char>,
    index: ScopeIndexView,
    annotated: Map<(int, int), UnitView>,
) -> ExtractionView {
    extracted_before(t, source, index, annotated, t.len() as int)
}

/// The extraction of the text `source` with the tree `t`, and with the tree `normal` where the text
/// is parsed again without its annotations.
pub open spec fn extraction_with(
    t: Seq<NodeView>,
    normal: Seq<NodeView>,
    source: Seq<char>,
) -> ExtractionView {
    let index = index_of(t, source);
    extracted(t, source, index, annotated_units(t, normal, source, index))
}

/// Whether `extraction` is that of the text `source`, by trees of the text.
#[verifier::opaque]
pub open spec fn is_extraction_of(extraction: ExtractionView, source: Seq<char>) -> bool {
    exists|t: Seq<NodeView>, normal: Seq<NodeView>|
        is_tree_of(t, encode_utf8(source)) && is_second_tree(t, normal, encode_utf8(source))
            && extraction == #[trigger] extraction_with(t, normal, source)
}

/// The extraction of the text `source`, which has plain raw strings.
pub open spec fn extraction_of(source: Seq<char>) -> ExtractionView {
    let bytes = encode_utf8(source);
    let t = cpp_syntax(bytes);
    extraction_with(t, cpp_syntax(normalized(bytes, candidates_of(t, bytes))), source)
}

/// The unit of the function definition `i`, which starts with the node `start`.
fn own_unit(tree: &SyntaxTree, i: usize, start: usize, source: &str, index: &ScopeIndex) -> (result:
    Unit)
    requires
        i < tree@.len(),
        start < tree@.len(),
        describes(tree@, encode_utf8(source@)),
        encode_utf8(source@).len() <= MAX_SOURCE_BYTES,
        index.wf(),
    ensures
        result@ == unit_of(
            tree@,
            i as int,
            source@,
            index@,
            function_name(tree@, i as int, source@),
            tree@[start as int].start_row + 1,
            tree@[i as int].end_row + 1,
        ),
{
    let name = match tree.field(i, "declarator") {
        Some(declarator) => name_of(tree, declarator, source),
        None => "anonymous".to_owned(),
    };
    proof {
        let bytes = encode_utf8(source@);
        assert(span_fits(bytes, tree@[i as int]) && span_fits(bytes, tree@[start as int]));
        assert(rows_count(bytes, tree@[i as int]) && rows_count(bytes, tree@[start as int]));
        lemma_line_feeds(bytes, 0, tree@[start as int].start_byte);
        lemma_line_feeds(bytes, 0, tree@[i as int].end_byte);
    }
    let line = tree.node(start).start_row + 1;
    let end = tree.node(i).end_row + 1;
    unit(tree, i, source, index, name, line, end)
}

/// The unit of the function definition `i` once an annotation is taken away.
fn restorable_unit<'a>(
    tree: &SyntaxTree,
    i: usize,
    annotated: &'a RangeMap<Unit>,
) -> (result: Option<&'a Unit>)
    requires
        i < tree@.len(),
        tree@[declaration_of(tree@, i as int)].start_row < usize::MAX,
        annotated.wf(),
    ensures
        match result {
            Some(unit) => is_restorable(tree@, i as int, unit_views(annotated@)) && unit@
                == unit_views(annotated@)[range_of(tree@, i as int)],
            None => !is_restorable(tree@, i as int, unit_views(annotated@)),
        },
{
    let clean = match tree.field(i, "body") {
        Some(body) => !tree.node(body).has_error,
        None => false,
    };
    if !clean {
        return None;
    }
    match annotated.get(tree.node(i).start_byte, tree.node(i).end_byte) {
        Some(unit) => {
            assert(unit_views(annotated@)[range_of(tree@, i as int)] == unit@);
            if unit.line == tree.node(declaration(tree, i)).start_row + 1 {
                Some(unit)
            } else {
                None
            }
        },
        None => None,
    }
}

impl Extraction {
    /// Adds what the function definition `i` gives.
    fn add_function(
        &mut self,
        tree: &SyntaxTree,
        i: usize,
        source: &str,
        index: &ScopeIndex,
        annotated: &RangeMap<Unit>,
    )
        requires
            i < tree@.len(),
            is_function(tree@, i as int),
            describes(tree@, encode_utf8(source@)),
            encode_utf8(source@).len() <= MAX_SOURCE_BYTES,
            index.wf(),
            annotated.wf(),
        ensures
            final(self)@ == with_node(
                old(self)@,
                tree@,
                i as int,
                source@,
                index@,
                unit_views(annotated@),
            ),
    {
        let ghost before = self@;
        proof {
            let bytes = encode_utf8(source@);
            let start = declaration_of(tree@, i as int);
            if start != i {
                lemma_parent(tree@, i as int);
            }
            assert(span_fits(bytes, tree@[start]) && rows_count(bytes, tree@[start]));
            lemma_line_feeds(bytes, 0, tree@[start].start_byte);
        }
        let has_error = tree.node(i).has_error;
        let body = tree.field(i, "body");
        let defaulted = match body {
            Some(body) => has_error && recoverable_signature(tree, i, body),
            None => false,
        };
        if body.is_some() && (!has_error || defaulted) {
            let unit = own_unit(tree, i, declaration(tree, i), source, index);
            if defaulted {
                let reason = "default_brace_signature_missing_type".to_owned();
                self.recovered.push(Diagnostic { unit: unit.clone(), reason });
            }
            self.units.push(unit);
        } else {
            match restorable_unit(tree, i, annotated) {
                Some(found) => {
                    let unit = found.clone();
                    let reason = "annotation_prefix_signature".to_owned();
                    self.recovered.push(Diagnostic { unit: unit.clone(), reason });
                    self.units.push(unit);
                },
                None => {
                    let unit = own_unit(tree, i, i, source, index);
                    let reason = if has_error {
                        "parse_error".to_owned()
                    } else {
                        "no_body".to_owned()
                    };
                    self.omitted.push(Diagnostic { unit, reason });
                },
            }
        }
        proof {
            let after = with_node(
                before,
                tree@,
                i as int,
                source@,
                index@,
                unit_views(annotated@),
            );
            assert(self@.units =~= after.units);
            assert(self@.omitted =~= after.omitted);
            assert(self@.recovered =~= after.recovered);
        }
    }
}

/// What the tree `tree` of the text `source` gives, with the units that were recovered from
/// annotations.
pub fn assemble(
    tree: &SyntaxTree,
    source: &str,
    index: &ScopeIndex,
    annotated: &RangeMap<Unit>,
) -> (result: Extraction)
    requires
        describes(tree@, encode_utf8(source@)),
        encode_utf8(source@).len() <= MAX_SOURCE_BYTES,
        index.wf(),
        annotated.wf(),
    ensures
        result@ == extracted(tree@, source@, index@, unit_views(annotated@)),
{
    let n = tree.len();
    let mut output = Extraction {
        units: Vec::new(),
        parse_has_error: tree.node(0).has_error,
        omitted: Vec::new(),
        recovered: Vec::new(),
    };
    let ghost recovered = unit_views(annotated@);
    assert(output@ == extracted_before(tree@, source@, index@, recovered, 0)) by {
        assert(output@.units =~= Seq::<UnitView>::empty());
        assert(output@.omitted =~= Seq::<DiagnosticView>::empty());
        assert(output@.recovered =~= Seq::<DiagnosticView>::empty());
    }
    let mut i: usize = 0;
    while i < n
        invariant
            n == tree@.len(),
            i <= n,
            describes(tree@, encode_utf8(source@)),
            encode_utf8(source@).len() <= MAX_SOURCE_BYTES,
            index.wf(),
            annotated.wf(),
            recovered == unit_views(annotated@),
            output@ == extracted_before(tree@, source@, index@, recovered, i as int),
        decreases n - i,
    {
        if tree.is_kind(i, "function_definition") {
            output.add_function(tree, i, source, index, annotated);
        }
        i = i + 1;
    }
    output
}

/// What a tree of a text gives, with the units that a second tree restores, is an extraction of the
/// text.
proof fn lemma_extraction(
    t: Seq<NodeView>,
    annotated: Map<(int, int), UnitView>,
    source: Seq<char>,
)
    requires
        is_tree_of(t, encode_utf8(source)),
        exists|normal: Seq<NodeView>|
            is_second_tree(t, normal, encode_utf8(source)) && annotated
                == #[trigger] annotated_units(t, normal, source, index_of(t, source)),
    ensures
        ({
            let extraction = extracted(t, source, index_of(t, source), annotated);
            let plain = has_plain_raw_strings(encode_utf8(source));
            &&& is_extraction_of(extraction, source)
            &&& plain ==> extraction == extraction_of(source)
            &&& all_have_lines(extraction, encode_utf8(source))
            &&& has_plain_templates(encode_utf8(source)) ==> in_line_order(extraction.units)
            &&& !extraction.parse_has_error ==> extraction.recovered.len() == 0
        }),
{
    let normal = choose|normal: Seq<NodeView>|
        is_second_tree(t, normal, encode_utf8(source)) && annotated == #[trigger] annotated_units(
            t,
            normal,
            source,
            index_of(t, source),
        );
    let extraction = extraction_with(t, normal, source);
    assert(is_extraction_of(extraction, source)) by {
        reveal(is_extraction_of);
    }
    law_lines(t, normal, source);
    law_texts_without_errors(t, normal, source);
    if has_plain_templates(encode_utf8(source)) {
        assert(templates_hold_one_function(t));
        law_units_in_line_order(t, normal, source);
    }
    if has_plain_raw_strings(encode_utf8(source)) {
        law_plain_texts_have_one_extraction(extraction, source);
    }
}

/// The functions of the text `source`. A source of more than 4 MiB is refused. The lines of all
/// units are lines of the text. Units come in the order of their lines, unless a function stands
/// before another one in the template declaration of the other. Without an error in the text
/// nothing is repaired.
pub fn extract(parser: &mut CppParser, source: &str) -> (result: Result<Extraction, String>)
    requires
        old(parser).ready(),
    ensures
        final(parser).ready(),
        match result {
            Ok(extraction) => {
                &&& encode_utf8(source@).len() <= MAX_SOURCE_BYTES
                &&& is_extraction_of(extraction@, source@)
                &&& has_plain_raw_strings(encode_utf8(source@)) ==> extraction@ == extraction_of(
                    source@,
                )
                &&& all_have_lines(extraction@, encode_utf8(source@))
                &&& has_plain_templates(encode_utf8(source@)) ==> in_line_order(extraction@.units)
                &&& !extraction@.parse_has_error ==> extraction@.recovered.len() == 0
            },
            Err(message) => encode_utf8(source@).len() > MAX_SOURCE_BYTES && message@
                == "source exceeds 4 MiB"@,
        },
{
    let text = source.as_bytes();
    if text.len() > MAX_SOURCE_BYTES {
        return Err("source exceeds 4 MiB".to_owned());
    }
    proof {
        encode_utf8_valid_utf8(source@);
    }
    let tree = match parser.parse(text) {
        Some(tree) => tree,
        None => {
            return Err("parse cancelled".to_owned());
        },
    };
    let index = scope_index(&tree, source);
    match annotation_prefixes(parser, &tree, source, &index) {
        Ok(annotated) => {
            let extraction = assemble(&tree, source, &index, &annotated);
            proof {
                lemma_extraction(tree@, unit_views(annotated@), source@);
            }
            Ok(extraction)
        },
        Err(message) => Err(message),
    }
}

} // verus!
