//! The description of one function.
use vstd::prelude::*;
use vstd::hash_map::StringHashMap;
use vstd::utf8::encode_utf8;
use crate::bodies::{
    binding_sites, code_nodes, code_of, imports_locally, local_names, LocalNames,
};
use crate::lookup::{Context, ContextView};
use crate::metadata::{
    lexical_scope, placeholder, placeholder_name, reference_views, scope_names, scope_of,
    scope_path, scope_views, Reference, ReferenceView, Scope, ScopeView,
};
use crate::references::{arity, arity_of, candidate, candidate_of, parameters_of};
use crate::scopes::{
    declarator_of, definition_declarator, name_as_written, written_name, ScopeIndex,
    ScopeIndexView,
};
use crate::syntax::{field_of, fits, node_text, position, positions, NodeView, SyntaxTree};
use crate::text::{
    join_next, joined, lemma_joined_push, name_parts, parts, same_text, segments_from,
    separator_at, starts_with_separator, strip_separators, texts, trim, trimmed,
    trimmed_segments, unprefixed,
};

verus! {

/// What a unit is, mathematically.
pub struct UnitView {
    pub name: Seq<char>,
    pub line: int,
    pub end: int,
    pub scope: Seq<ScopeView>,
    pub qualified_name: Seq<char>,
    pub kind: Seq<char>,
    pub min_args: Option<int>,
    pub max_args: Option<int>,
    pub references: Seq<ReferenceView>,
}

/// A function, constructor or operator of a file, with its one-based inclusive lines.
#[derive(Debug, PartialEq, Eq)]
pub struct Unit {
    pub name: String,
    pub line: usize,
    pub end: usize,
    pub scope: Vec<Scope>,
    pub qualified_name: String,
    pub kind: String,
    pub min_args: Option<usize>,
    pub max_args: Option<usize>,
    pub references: Vec<Reference>,
}

impl View for Unit {
    type V = UnitView;

    open spec fn view(&self) -> UnitView {
        UnitView {
            name: self.name@,
            line: self.line as int,
            end: self.end as int,
            scope: scope_views(self.scope@),
            qualified_name: self.qualified_name@,
            kind: self.kind@,
            min_args: position(self.min_args),
            max_args: position(self.max_args),
            references: reference_views(self.references@),
        }
    }
}

impl Clone for Unit {
    fn clone(&self) -> (copy: Self)
        ensures
            copy@ == self@,
    {
        let scope = self.scope.clone();
        let references = self.references.clone();
        assert(scope_views(scope@) =~= scope_views(self.scope@));
        assert(reference_views(references@) =~= reference_views(self.references@));
        Unit {
            name: self.name.clone(),
            line: self.line,
            end: self.end,
            scope,
            qualified_name: self.qualified_name.clone(),
            kind: self.kind.clone(),
            min_args: self.min_args,
            max_args: self.max_args,
            references,
        }
    }
}

// ---------------------------------------------------------------------------------------------
// Lists of references

/// The elements of `s`, each only where it comes first.
pub open spec fn distinct(s: Seq<ReferenceView>) -> Seq<ReferenceView>
    decreases s.len(),
{
    if s.len() == 0 {
        s
    } else {
        let before = distinct(s.drop_last());
        if before.contains(s.last()) {
            before
        } else {
            before.push(s.last())
        }
    }
}

/// Whether two references are the same.
fn same_reference(a: &Reference, b: &Reference) -> (same: bool)
    ensures
        same == (a@ == b@),
{
    let ghost p = texts(a.qualifier@);
    let ghost q = texts(b.qualifier@);
    if a.arguments != b.arguments || !same_text(a.name.as_str(), b.name.as_str()) || !same_text(
        a.kind.as_str(),
        b.kind.as_str(),
    ) || !same_text(a.qualification.as_str(), b.qualification.as_str()) {
        return false;
    }
    if a.qualifier.len() != b.qualifier.len() {
        assert(p.len() != q.len());
        return false;
    }
    let mut k: usize = 0;
    while k < a.qualifier.len()
        invariant
            p == texts(a.qualifier@),
            q == texts(b.qualifier@),
            a.qualifier.len() == b.qualifier.len(),
            k <= a.qualifier.len(),
            forall|j: int| 0 <= j < k ==> #[trigger] p[j] == q[j],
        decreases a.qualifier.len() - k,
    {
        assert(p[k as int] == a.qualifier@[k as int]@ && q[k as int] == b.qualifier@[k as int]@);
        if !same_text(a.qualifier[k].as_str(), b.qualifier[k].as_str()) {
            return false;
        }
        k = k + 1;
    }
    assert(p =~= q);
    true
}

/// A list of references in which none comes twice.
struct ReferenceList {
    items: Vec<Reference>,
    slots: StringHashMap<usize>,
    buckets: Vec<Vec<usize>>,
}

impl ReferenceList {
    /// Every item stands in the bucket of its name.
    spec fn wf(self) -> bool {
        &&& forall|name: Seq<char>| #[trigger]
            self.slots@.contains_key(name) ==> self.slots@[name] < self.buckets.len()
        &&& forall|b: int, m: int|
            0 <= b < self.buckets.len() && 0 <= m < self.buckets[b].len()
                ==> #[trigger] self.buckets@[b]@[m] < self.items.len()
        &&& forall|j: int| 0 <= j < self.items.len() ==> self.is_listed(j)
    }

    /// Whether item `j` stands in the bucket of its name.
    spec fn is_listed(self, j: int) -> bool {
        let name = self.items@[j].name@;
        self.slots@.contains_key(name) && self.buckets@[self.slots@[name] as int]@.contains(
            j as usize,
        )
    }

    fn new() -> (list: ReferenceList)
        ensures
            list.wf(),
            reference_views(list.items@) == Seq::<ReferenceView>::empty(),
    {
        let list = ReferenceList {
            items: Vec::new(),
            slots: StringHashMap::new(),
            buckets: Vec::new(),
        };
        assert(reference_views(list.items@) =~= Seq::<ReferenceView>::empty());
        list
    }

    /// Whether the list holds `reference`, which then stands in the bucket `slot`.
    fn holds(&self, slot: usize, reference: &Reference) -> (result: bool)
        requires
            self.wf(),
            self.slots@.contains_key(reference.name@),
            slot == self.slots@[reference.name@],
        ensures
            result == reference_views(self.items@).contains(reference@),
    {
        let ghost all = reference_views(self.items@);
        let bucket = &self.buckets[slot];
        let mut m: usize = 0;
        while m < bucket.len()
            invariant
                self.wf(),
                slot < self.buckets.len(),
                bucket@ == self.buckets@[slot as int]@,
                all == reference_views(self.items@),
                m <= bucket.len(),
                forall|k: int| 0 <= k < m ==> all[#[trigger] bucket@[k] as int] != reference@,
            decreases bucket.len() - m,
        {
            assert(self.buckets@[slot as int]@[m as int] < self.items.len());
            let j = bucket[m];
            assert(all[j as int] == self.items@[j as int]@);
            if same_reference(&self.items[j], reference) {
                return true;
            }
            m = m + 1;
        }
        proof {
            if all.contains(reference@) {
                let j = choose|j: int| 0 <= j < all.len() && all[j] == reference@;
                assert(self.items@[j]@ == reference@);
                assert(self.is_listed(j));
                let k = choose|k: int| 0 <= k < bucket@.len() && bucket@[k] == j as usize;
                assert(all[bucket@[k] as int] == reference@);
            }
        }
        false
    }

    /// Appends `reference` unless the list already holds it.
    fn insert(&mut self, reference: Reference)
        requires
            old(self).wf(),
        ensures
            final(self).wf(),
            reference_views(final(self).items@) == if reference_views(old(self).items@).contains(
                reference@,
            ) {
                reference_views(old(self).items@)
            } else {
                reference_views(old(self).items@).push(reference@)
            },
    {
        let ghost was = *self;
        let ghost all = reference_views(self.items@);
        let found: Option<usize> = match self.slots.get(reference.name.as_str()) {
            Some(slot) => Some(*slot),
            None => None,
        };
        let slot = match found {
            Some(slot) => {
                if self.holds(slot, &reference) {
                    return ;
                }
                slot
            },
            None => {
                proof {
                    if all.contains(reference@) {
                        let j = choose|j: int| 0 <= j < all.len() && all[j] == reference@;
                        assert(self.items@[j]@ == reference@);
                        assert(self.is_listed(j));
                    }
                }
                let slot = self.buckets.len();
                self.buckets.push(Vec::new());
                self.slots.insert(reference.name.clone(), slot);
                slot
            },
        };
        let ghost mid = *self;
        let position = self.items.len();
        let bucket = &mut self.buckets[slot];
        bucket.push(position);
        self.items.push(reference);
        proof {
            assert(self.buckets@[slot as int]@ == mid.buckets@[slot as int]@.push(position));
            assert(self.buckets@[slot as int]@[mid.buckets@[slot as int]@.len() as int]
                == position);
            assert forall|j: int| 0 <= j < self.items.len() implies self.is_listed(j) by {
                if j < position {
                    assert(was.is_listed(j));
                    let name = self.items@[j].name@;
                    let b = was.slots@[name] as int;
                    let m = choose|m: int|
                        0 <= m < was.buckets@[b]@.len() && was.buckets@[b]@[m] == j as usize;
                    assert(self.buckets@[b]@[m] == j as usize);
                }
            }
            assert forall|b: int, m: int|
                0 <= b < self.buckets.len() && 0 <= m < self.buckets[b].len()
                    implies #[trigger] self.buckets@[b]@[m] < self.items.len() by {
                if b < was.buckets.len() && m < was.buckets@[b]@.len() {
                    assert(was.buckets@[b]@[m] < was.items.len());
                }
            }
            assert(reference_views(self.items@) =~= all.push(reference@));
        }
    }
}

// ---------------------------------------------------------------------------------------------
// The scope of a function

/// The kind that the index gives to the scope with the path `path`.
pub open spec fn kind_at(kinds: Map<Seq<char>, Seq<char>>, path: Seq<char>) -> Seq<char> {
    if kinds.contains_key(path) {
        kinds[path]
    } else {
        "unknown"@
    }
}

/// The scope `base` followed by a scope for each of `names`.
pub open spec fn extended_scope(
    base: Seq<ScopeView>,
    names: Seq<Seq<char>>,
    kinds: Map<Seq<char>, Seq<char>>,
) -> Seq<ScopeView>
    decreases names.len(),
{
    if names.len() == 0 {
        base
    } else {
        let outer = extended_scope(base, names.drop_last(), kinds);
        let path = joined(scope_names(outer).push(names.last()));
        outer.push(ScopeView { kind: kind_at(kinds, path), name: names.last() })
    }
}

/// The scope of the function definition `node`: the scopes around it, or none where its name
/// starts with the separator, followed by the scopes that its name is qualified with. A
/// qualification that is no plain name gives a scope with a placeholder.
pub open spec fn unit_scope(
    t: Seq<NodeView>,
    node: int,
    source: Seq<char>,
    kinds: Map<Seq<char>, Seq<char>>,
) -> Seq<ScopeView> {
    let around = scope_of(t, node, source);
    match written_name(t, node) {
        Some(at) => {
            let written = node_text(t, at, source);
            let base = if separator_at(written, 0) {
                Seq::empty()
            } else {
                around
            };
            match name_parts(unprefixed(written)) {
                Some(names) => extended_scope(base, names.drop_last(), kinds),
                None => if t[at].kind == "qualified_identifier"@ {
                    around.push(unresolved_scope(t[node].start_byte))
                } else {
                    around
                },
            }
        },
        None => around,
    }
}

/// The scope that stands for a qualification that is no plain name.
pub open spec fn unresolved_scope(offset: int) -> ScopeView {
    ScopeView { kind: "unknown"@, name: placeholder("(unresolved@"@, offset) }
}

/// Appends a scope for each of `names` but the last.
fn extend_scope(scope: &mut Vec<Scope>, names: &Vec<String>, index: &ScopeIndex)
    requires
        names.len() > 0,
    ensures
        scope_views(final(scope)@) == extended_scope(
            scope_views(old(scope)@),
            texts(names@).drop_last(),
            index@.kinds,
        ),
{
    let ghost base = scope_views(scope@);
    let ghost outer = texts(names@).drop_last();
    let mut k: usize = 0;
    assert(outer.take(0) =~= Seq::<Seq<char>>::empty());
    while k < names.len() - 1
        invariant
            names.len() > 0,
            outer == texts(names@).drop_last(),
            k <= names.len() - 1,
            scope_views(scope@) == extended_scope(base, outer.take(k as int), index@.kinds),
        decreases names.len() - k,
    {
        let ghost was = scope_views(scope@);
        let name = names[k].as_str();
        let mut path = scope_path(scope.as_slice());
        join_next(&mut path, scope.len() == 0, name);
        let kind = match index.kind(path.as_str()) {
            Some(kind) => kind,
            None => "unknown".to_owned(),
        };
        proof {
            lemma_joined_push(scope_names(was), name@);
            assert(outer.take(k + 1).drop_last() =~= outer.take(k as int));
            assert(outer.take(k + 1).last() == names@[k as int]@);
        }
        scope.push(Scope { kind, name: name.to_owned() });
        assert(scope_views(scope@) =~= was.push(scope@.last()@));
        k = k + 1;
    }
    assert(outer.take(names.len() - 1) =~= outer);
}

/// The scope of the function definition `node`.
fn scope_of_unit(tree: &SyntaxTree, node: usize, source: &str, index: &ScopeIndex) -> (scope: Vec<
    Scope,
>)
    requires
        node < tree@.len(),
        fits(tree@, encode_utf8(source@)),
    ensures
        scope_views(scope@) == unit_scope(tree@, node as int, source@, index@.kinds),
{
    let mut scope = lexical_scope(tree, node, source);
    match name_as_written(tree, node) {
        Some(at) => {
            let written = tree.text(at, source);
            let plain = strip_separators(written);
            match parts(plain.as_str()) {
                Some(names) => {
                    assert(trimmed_segments(plain@).len() == segments_from(plain@, 0).len());
                    assert(texts(names@).len() == names.len());
                    if starts_with_separator(written) {
                        scope = Vec::new();
                        assert(scope_views(scope@) =~= Seq::<ScopeView>::empty());
                    }
                    extend_scope(&mut scope, &names, index);
                },
                None => {
                    if tree.is_kind(at, "qualified_identifier") {
                        let ghost around = scope_views(scope@);
                        let offset = tree.node(node).start_byte;
                        scope.push(
                            Scope {
                                kind: "unknown".to_owned(),
                                name: placeholder_name("(unresolved@", offset),
                            },
                        );
                        assert(scope_views(scope@) =~= around.push(
                            unresolved_scope(offset as int),
                        ));
                    }
                },
            }
        },
        None => {},
    }
    scope
}

// ---------------------------------------------------------------------------------------------
// The unit of a function

/// What surrounds the code of the function definition `node` with the body `body`.
pub open spec fn context_of(
    t: Seq<NodeView>,
    node: int,
    body: int,
    source: Seq<char>,
    index: ScopeIndexView,
) -> ContextView {
    let parameters = parameters_of(t, declarator_of(t, node));
    let sites = binding_sites(t, parameters, code_nodes(t, node, body));
    ContextView {
        scope: unit_scope(t, node, source, index.kinds),
        index,
        locals: local_names(t, sites, source),
        imports: imports_locally(t, sites),
    }
}

/// The references that the nodes `nodes` of the function `function` make, in order.
pub open spec fn references_at(
    t: Seq<NodeView>,
    function: int,
    nodes: Seq<int>,
    source: Seq<char>,
    context: ContextView,
) -> Seq<ReferenceView>
    decreases nodes.len(),
{
    if nodes.len() == 0 {
        Seq::empty()
    } else {
        let before = references_at(t, function, nodes.drop_last(), source, context);
        match candidate_of(t, function, nodes.last(), source) {
            Some(reference) => before.push(context.resolved(reference)),
            None => before,
        }
    }
}

/// The references of the function definition `node`, each once.
pub open spec fn references_of(
    t: Seq<NodeView>,
    node: int,
    source: Seq<char>,
    index: ScopeIndexView,
) -> Seq<ReferenceView> {
    match field_of(t, node, "body"@) {
        Some(body) => distinct(
            references_at(
                t,
                node,
                code_nodes(t, node, body),
                source,
                context_of(t, node, body, source, index),
            ),
        ),
        None => Seq::empty(),
    }
}

/// Whether the parameters of the function definition `node` are written as `(void)`.
pub open spec fn takes_void(t: Seq<NodeView>, node: int, source: Seq<char>) -> bool {
    match parameters_of(t, declarator_of(t, node)) {
        Some(parameters) => trimmed(node_text(t, parameters, source)) == "(void)"@,
        None => false,
    }
}

/// Whether the function definition `node`, of the name `name` in the scope `scope`, is a
/// constructor: it returns no type and has the name of its type.
pub open spec fn is_constructor(
    t: Seq<NodeView>,
    node: int,
    scope: Seq<ScopeView>,
    name: Seq<char>,
) -> bool {
    &&& field_of(t, node, "type"@) is None
    &&& scope.len() > 0
    &&& scope.last().kind == "type"@
    &&& scope.last().name == name
}

/// The unit of the function definition `node`, under the name `name` and with the lines `line` to
/// `end`.
pub open spec fn unit_of(
    t: Seq<NodeView>,
    node: int,
    source: Seq<char>,
    index: ScopeIndexView,
    name: Seq<char>,
    line: int,
    end: int,
) -> UnitView {
    let scope = unit_scope(t, node, source, index.kinds);
    let counts = if takes_void(t, node, source) {
        (Some(0int), Some(0int))
    } else {
        arity_of(t, declarator_of(t, node))
    };
    UnitView {
        name,
        line,
        end,
        scope,
        qualified_name: joined(scope_names(scope).push(name)),
        kind: if is_constructor(t, node, scope, name) {
            "constructor"@
        } else {
            "function"@
        },
        min_args: counts.0,
        max_args: counts.1,
        references: references_of(t, node, source, index),
    }
}

/// The references of the function definition `node` with the body `body`.
fn unit_references(
    tree: &SyntaxTree,
    node: usize,
    body: usize,
    source: &str,
    scope: &Vec<Scope>,
    index: &ScopeIndex,
) -> (references: Vec<Reference>)
    requires
        node < tree@.len(),
        body < tree@.len(),
        fits(tree@, encode_utf8(source@)),
        index.wf(),
        scope_views(scope@) == unit_scope(tree@, node as int, source@, index@.kinds),
    ensures
        reference_views(references@) == distinct(
            references_at(
                tree@,
                node as int,
                code_nodes(tree@, node as int, body as int),
                source@,
                context_of(tree@, node as int, body as int, source@, index@),
            ),
        ),
{
    let ghost t = tree@;
    let code = code_of(tree, node, body);
    let parameters = match definition_declarator(tree, node) {
        Some(declarator) => tree.field(declarator, "parameters"),
        None => None,
    };
    let locals = LocalNames::collect(tree, parameters, &code, source);
    let context = Context { scope, index, locals };
    let ghost nodes = positions(code@);
    let ghost view = context@;
    assert(view == context_of(t, node as int, body as int, source@, index@));
    let mut list = ReferenceList::new();
    let mut k: usize = 0;
    assert(nodes.take(0) =~= Seq::<int>::empty());
    while k < code.len()
        invariant
            t == tree@,
            node < t.len(),
            fits(t, encode_utf8(source@)),
            nodes == positions(code@),
            view == context@,
            context.wf(),
            forall|j: int| 0 <= j < code.len() ==> #[trigger] code[j] < t.len(),
            k <= code.len(),
            list.wf(),
            reference_views(list.items@) == distinct(
                references_at(t, node as int, nodes.take(k as int), source@, view),
            ),
        decreases code.len() - k,
    {
        proof {
            assert(nodes.take(k + 1).drop_last() =~= nodes.take(k as int));
            assert(nodes.take(k + 1).last() == code@[k as int]);
        }
        let ghost before = references_at(t, node as int, nodes.take(k as int), source@, view);
        match candidate(tree, node, code[k], source) {
            Some(found) => {
                let resolved = context.resolve(found);
                proof {
                    let after = before.push(resolved@);
                    assert(after.drop_last() =~= before);
                    assert(after.last() == resolved@);
                }
                list.insert(resolved);
            },
            None => {},
        }
        k = k + 1;
    }
    assert(nodes.take(code.len() as int) =~= nodes);
    list.items
}

/// The unit of the function definition `node`.
pub fn unit(
    tree: &SyntaxTree,
    node: usize,
    source: &str,
    index: &ScopeIndex,
    name: String,
    line: usize,
    end: usize,
) -> (result: Unit)
    requires
        node < tree@.len(),
        fits(tree@, encode_utf8(source@)),
        index.wf(),
    ensures
        result@ == unit_of(
            tree@,
            node as int,
            source@,
            index@,
            name@,
            line as int,
            end as int,
        ),
{
    let declarator = definition_declarator(tree, node);
    let scope = scope_of_unit(tree, node, source, index);
    let ghost view = scope_views(scope@);
    let mut qualified_name = scope_path(scope.as_slice());
    join_next(&mut qualified_name, scope.len() == 0, name.as_str());
    proof {
        lemma_joined_push(scope_names(view), name@);
    }
    let untyped = tree.field(node, "type").is_none();
    let depth = scope.len();
    assert(depth > 0 ==> view.last() == scope@[depth - 1]@);
    let constructor = untyped && depth > 0 && same_text(scope[depth - 1].kind.as_str(), "type")
        && same_text(scope[depth - 1].name.as_str(), name.as_str());
    let kind = if constructor {
        "constructor".to_owned()
    } else {
        "function".to_owned()
    };
    let parameters = match declarator {
        Some(declarator) => tree.field(declarator, "parameters"),
        None => None,
    };
    let void = match parameters {
        Some(parameters) => same_text(trim(tree.text(parameters, source)).as_str(), "(void)"),
        None => false,
    };
    let (min_args, max_args) = if void {
        (Some(0), Some(0))
    } else {
        arity(tree, declarator)
    };
    let references = match tree.field(node, "body") {
        Some(body) => unit_references(tree, node, body, source, &scope, index),
        None => Vec::new(),
    };
    assert(field_of(tree@, node as int, "body"@) is None ==> reference_views(references@)
        =~= Seq::<ReferenceView>::empty());
    Unit { name, line, end, scope, qualified_name, kind, min_args, max_args, references }
}

} // verus!
