//! Calls and constructions in the body of a function.
use vstd::prelude::*;
use vstd::utf8::encode_utf8;
use crate::metadata::{Reference, ReferenceView};
use crate::syntax::{
    children_of, field_of, fields_of, fits, named_of, node_text, parent_of, position, positions,
    NodeView, SyntaxTree,
};
use crate::text::{
    name_parts, parts, segments_from, separator_at, starts_absolute, strip_separators, texts,
    trimmed_segments, trimmed_start, unprefixed,
};

verus! {

// ---------------------------------------------------------------------------------------------
// Parameters and arguments

/// The number of `nodes` of the kind `kind`.
pub open spec fn count_kind(t: Seq<NodeView>, nodes: Seq<int>, kind: Seq<char>) -> int
    decreases nodes.len(),
{
    if nodes.len() == 0 {
        0
    } else {
        count_kind(t, nodes.drop_last(), kind) + if t[nodes.last()].kind == kind {
            1int
        } else {
            0int
        }
    }
}

/// A node that a list of parameters with a known number of arguments may hold.
pub open spec fn is_plain_parameter(kind: Seq<char>) -> bool {
    kind == "("@ || kind == ")"@ || kind == ","@ || kind == "comment"@ || kind
        == "parameter_declaration"@ || kind == "optional_parameter_declaration"@
}

/// Whether `nodes` are what a list of parameters with a known number of arguments may hold.
pub open spec fn are_plain_parameters(t: Seq<NodeView>, nodes: Seq<int>) -> bool {
    forall|k: int| 0 <= k < nodes.len() ==> is_plain_parameter(t[#[trigger] nodes[k]].kind)
}

/// The list of parameters of a function with the declarator `declarator`.
pub open spec fn parameters_of(t: Seq<NodeView>, declarator: Option<int>) -> Option<int> {
    match declarator {
        Some(declarator) => field_of(t, declarator, "parameters"@),
        None => None,
    }
}

/// The least and the greatest number of arguments of a function with the declarator
/// `declarator`, where its parameters tell.
pub open spec fn arity_of(t: Seq<NodeView>, declarator: Option<int>) -> (
    Option<int>,
    Option<int>,
) {
    match parameters_of(t, declarator) {
        Some(parameters) => {
            let nodes = children_of(t, parameters);
            let required = count_kind(t, nodes, "parameter_declaration"@);
            let optional = count_kind(t, nodes, "optional_parameter_declaration"@);
            if are_plain_parameters(t, nodes) {
                (Some(required), Some(required + optional))
            } else {
                (None, None)
            }
        },
        None => (None, None),
    }
}

/// The number of arguments in the list `i`: its named children that are no comments.
pub open spec fn argument_count(t: Seq<NodeView>, i: int) -> int {
    named_of(t, i).len() - count_kind(t, named_of(t, i), "comment"@)
}

/// The least and the greatest number of arguments.
pub fn arity(tree: &SyntaxTree, declarator: Option<usize>) -> (result: (
    Option<usize>,
    Option<usize>,
))
    requires
        declarator matches Some(d) ==> d < tree@.len(),
    ensures
        position(result.0) == arity_of(tree@, position(declarator)).0,
        position(result.1) == arity_of(tree@, position(declarator)).1,
{
    let ghost t = tree@;
    let parameters = match declarator {
        Some(declarator) => tree.field(declarator, "parameters"),
        None => None,
    };
    let parameters = match parameters {
        Some(parameters) => parameters,
        None => {
            return (None, None);
        },
    };
    let children = tree.children(parameters);
    let ghost nodes = positions(children@);
    let mut min: usize = 0;
    let mut max: usize = 0;
    let mut k: usize = 0;
    assert(nodes.take(0) =~= Seq::<int>::empty());
    proof {
        reveal_strlit("(");
        reveal_strlit(")");
        reveal_strlit(",");
        reveal_strlit("comment");
        reveal_strlit("parameter_declaration");
        reveal_strlit("optional_parameter_declaration");
    }
    assert("("@.len() == 1 && ")"@.len() == 1 && ","@.len() == 1 && "comment"@.len() == 7);
    assert("parameter_declaration"@.len() == 21);
    assert("optional_parameter_declaration"@.len() == 30);
    while k < children.len()
        invariant
            t == tree@,
            parameters_of(t, position(declarator)) == Some(parameters as int),
            nodes == positions(children@),
            nodes == children_of(t, parameters as int),
            forall|j: int| 0 <= j < children.len() ==> #[trigger] children[j] < t.len(),
            k <= children.len(),
            "("@.len() == 1 && ")"@.len() == 1 && ","@.len() == 1 && "comment"@.len() == 7,
            "parameter_declaration"@.len() == 21,
            "optional_parameter_declaration"@.len() == 30,
            min == count_kind(t, nodes.take(k as int), "parameter_declaration"@),
            max == min + count_kind(
                t,
                nodes.take(k as int),
                "optional_parameter_declaration"@,
            ),
            min <= max <= k,
            forall|j: int| 0 <= j < k ==> is_plain_parameter(t[#[trigger] nodes[j]].kind),
        decreases children.len() - k,
    {
        let child = children[k];
        assert(nodes[k as int] == child);
        assert(nodes.take(k + 1).drop_last() =~= nodes.take(k as int));
        if tree.is_kind(child, "parameter_declaration") {
            min = min + 1;
            max = max + 1;
        } else if tree.is_kind(child, "optional_parameter_declaration") {
            max = max + 1;
        } else if !(tree.is_kind(child, "(") || tree.is_kind(child, ")") || tree.is_kind(child, ",")
            || tree.is_kind(child, "comment")) {
            assert(!is_plain_parameter(t[nodes[k as int]].kind));
            return (None, None);
        }
        k = k + 1;
    }
    assert(nodes.take(children.len() as int) =~= nodes);
    (Some(min), Some(max))
}

/// The number of arguments in the list `node`.
pub fn arguments(tree: &SyntaxTree, node: usize) -> (count: usize)
    requires
        node < tree@.len(),
    ensures
        count == argument_count(tree@, node as int),
{
    let ghost t = tree@;
    let named = tree.named(node);
    let ghost nodes = positions(named@);
    let mut count: usize = 0;
    let mut k: usize = 0;
    assert(nodes.take(0) =~= Seq::<int>::empty());
    while k < named.len()
        invariant
            t == tree@,
            nodes == positions(named@),
            forall|j: int| 0 <= j < named.len() ==> #[trigger] named[j] < t.len(),
            k <= named.len(),
            count <= k,
            count == k - count_kind(t, nodes.take(k as int), "comment"@),
        decreases named.len() - k,
    {
        assert(nodes.take(k + 1).drop_last() =~= nodes.take(k as int));
        assert(nodes.take(k + 1).last() == named@[k as int]);
        if !tree.is_kind(named[k], "comment") {
            count = count + 1;
        }
        k = k + 1;
    }
    assert(nodes.take(named.len() as int) =~= nodes);
    count
}

// ---------------------------------------------------------------------------------------------
// One reference

/// The reference of kind `kind` to what node `name` names, with the arguments of node `args`;
/// nothing where the name is no plain qualified name.
pub open spec fn reference_to(
    t: Seq<NodeView>,
    name: int,
    args: int,
    kind: Seq<char>,
    source: Seq<char>,
) -> Option<ReferenceView> {
    let written = node_text(t, name, source);
    let absolute = separator_at(trimmed_start(written), 0);
    match name_parts(unprefixed(written)) {
        Some(names) => {
            let outer = names.drop_last();
            let qualifier = if absolute {
                seq![Seq::<char>::empty()] + outer
            } else {
                outer
            };
            Some(
                ReferenceView {
                    kind,
                    name: names.last(),
                    qualification: if qualifier.len() == 0 {
                        "unqualified"@
                    } else {
                        "qualified"@
                    },
                    qualifier,
                    arguments: argument_count(t, args),
                },
            )
        },
        None => None,
    }
}

/// The mathematical value of an optional reference.
pub open spec fn reference_view(reference: Option<Reference>) -> Option<ReferenceView> {
    match reference {
        Some(reference) => Some(reference@),
        None => None,
    }
}

/// The reference to what node `name` names.
pub fn reference(
    tree: &SyntaxTree,
    name: usize,
    args: usize,
    kind: &str,
    source: &str,
) -> (result: Option<Reference>)
    requires
        name < tree@.len(),
        args < tree@.len(),
        fits(tree@, encode_utf8(source@)),
    ensures
        reference_view(result) == reference_to(
            tree@,
            name as int,
            args as int,
            kind@,
            source@,
        ),
{
    let written = tree.text(name, source);
    let absolute = starts_absolute(written);
    let plain = strip_separators(written);
    match parts(plain.as_str()) {
        Some(mut names) => {
            let ghost all = texts(names@);
            assert(trimmed_segments(plain@).len() == segments_from(plain@, 0).len());
            assert(names.len() == all.len());
            let last = names.pop().unwrap();
            assert(texts(names@) =~= all.drop_last());
            if absolute {
                let ghost outer = texts(names@);
                names.insert(0, String::new());
                assert(texts(names@) =~= seq![Seq::<char>::empty()] + outer);
            }
            let qualification = if names.len() == 0 {
                "unqualified".to_owned()
            } else {
                "qualified".to_owned()
            };
            let arguments = arguments(tree, args);
            Some(
                Reference {
                    kind: kind.to_owned(),
                    name: last,
                    qualification,
                    qualifier: names,
                    arguments,
                },
            )
        },
        None => None,
    }
}

// ---------------------------------------------------------------------------------------------
// The reference that a node makes

/// The reference of kind `kind` where there are both a name and arguments.
pub open spec fn reference_between(
    t: Seq<NodeView>,
    name: Option<int>,
    args: Option<int>,
    kind: Seq<char>,
    source: Seq<char>,
) -> Option<ReferenceView> {
    if name is Some && args is Some {
        reference_to(t, name->0, args->0, kind, source)
    } else {
        None
    }
}

/// Whether the member access `i` has the receiver `this`.
pub open spec fn receiver_is_this(t: Seq<NodeView>, i: int) -> bool {
    match field_of(t, i, "argument"@) {
        Some(argument) => t[argument].kind == "this"@,
        None => false,
    }
}

/// The reference that the call `i` makes. What a call of a member names is known only where the
/// receiver is `this`.
pub open spec fn call_reference(t: Seq<NodeView>, i: int, source: Seq<char>) -> Option<
    ReferenceView,
> {
    let args = field_of(t, i, "arguments"@);
    match field_of(t, i, "function"@) {
        Some(function) => if t[function].kind == "field_expression"@ {
            let member = field_of(t, function, "field"@);
            match reference_between(t, member, args, "call"@, source) {
                Some(reference) => Some(
                    ReferenceView {
                        qualification: if receiver_is_this(t, function) {
                            "this"@
                        } else {
                            "unknown"@
                        },
                        ..reference
                    },
                ),
                None => None,
            }
        } else {
            reference_between(t, Some(function), args, "call"@, source)
        },
        None => None,
    }
}

/// The reference that the braced construction `i` makes.
pub open spec fn literal_reference(t: Seq<NodeView>, i: int, source: Seq<char>) -> Option<
    ReferenceView,
> {
    reference_between(t, field_of(t, i, "type"@), field_of(t, i, "value"@), "construct"@, source)
}

/// The list of values that initializes the declarator `i`.
pub open spec fn initializer_of(t: Seq<NodeView>, i: int) -> Option<int> {
    match field_of(t, i, "value"@) {
        Some(value) => if t[value].kind == "initializer_list"@ || t[value].kind
            == "argument_list"@ {
            Some(value)
        } else {
            None
        },
        None => None,
    }
}

/// The type of the declaration around the declarator `i`.
pub open spec fn type_around(t: Seq<NodeView>, i: int) -> Option<int> {
    match parent_of(t, i) {
        Some(parent) => field_of(t, parent, "type"@),
        None => None,
    }
}

/// The reference that the initialized declarator `i` makes.
pub open spec fn initialized_reference(t: Seq<NodeView>, i: int, source: Seq<char>) -> Option<
    ReferenceView,
> {
    reference_between(t, type_around(t, i), initializer_of(t, i), "construct"@, source)
}

/// Whether one of `nodes` is of the kind `kind`.
pub open spec fn some_of_kind(t: Seq<NodeView>, nodes: Seq<int>, kind: Seq<char>) -> bool {
    exists|k: int| 0 <= k < nodes.len() && t[#[trigger] nodes[k]].kind == kind
}

/// The reference that the declaration `i` makes: where it declares some plain value, its type is
/// constructed without arguments.
pub open spec fn default_reference(t: Seq<NodeView>, i: int, source: Seq<char>) -> Option<
    ReferenceView,
> {
    if some_of_kind(t, fields_of(t, i, "declarator"@), "identifier"@) {
        match reference_between(t, field_of(t, i, "type"@), Some(i), "construct"@, source) {
            Some(reference) => Some(ReferenceView { arguments: 0, ..reference }),
            None => None,
        }
    } else {
        None
    }
}

/// The first of `nodes` that is of the kind `kind`.
pub open spec fn first_of_kind(t: Seq<NodeView>, nodes: Seq<int>, kind: Seq<char>) -> Option<int>
    decreases nodes.len(),
{
    if nodes.len() == 0 {
        None
    } else if t[nodes[0]].kind == kind {
        Some(nodes[0])
    } else {
        first_of_kind(t, nodes.drop_first(), kind)
    }
}

/// The reference that the return statement `i` of the function `function` makes: a braced list
/// constructs the type that the function returns.
pub open spec fn returned_reference(
    t: Seq<NodeView>,
    function: int,
    i: int,
    source: Seq<char>,
) -> Option<ReferenceView> {
    reference_between(
        t,
        field_of(t, function, "type"@),
        first_of_kind(t, named_of(t, i), "initializer_list"@),
        "construct"@,
        source,
    )
}

/// The reference that node `i` in the code of the function `function` makes, as it is written.
pub open spec fn candidate_of(
    t: Seq<NodeView>,
    function: int,
    i: int,
    source: Seq<char>,
) -> Option<ReferenceView> {
    let kind = t[i].kind;
    if kind == "call_expression"@ {
        call_reference(t, i, source)
    } else if kind == "compound_literal_expression"@ {
        literal_reference(t, i, source)
    } else if kind == "init_declarator"@ {
        initialized_reference(t, i, source)
    } else if kind == "declaration"@ {
        default_reference(t, i, source)
    } else if kind == "return_statement"@ {
        returned_reference(t, function, i, source)
    } else {
        None
    }
}

/// The reference where there are both a name and arguments.
fn optional_reference(
    tree: &SyntaxTree,
    name: Option<usize>,
    args: Option<usize>,
    kind: &str,
    source: &str,
) -> (result: Option<Reference>)
    requires
        name matches Some(n) ==> n < tree@.len(),
        args matches Some(a) ==> a < tree@.len(),
        fits(tree@, encode_utf8(source@)),
    ensures
        reference_view(result) == reference_between(
            tree@,
            position(name),
            position(args),
            kind@,
            source@,
        ),
{
    match (name, args) {
        (Some(name), Some(args)) => reference(tree, name, args, kind, source),
        _ => None,
    }
}

/// The reference that the call `i` makes.
fn called(tree: &SyntaxTree, i: usize, source: &str) -> (result: Option<Reference>)
    requires
        i < tree@.len(),
        fits(tree@, encode_utf8(source@)),
    ensures
        reference_view(result) == call_reference(tree@, i as int, source@),
{
    let args = tree.field(i, "arguments");
    let function = match tree.field(i, "function") {
        Some(function) => function,
        None => {
            return None;
        },
    };
    if !tree.is_kind(function, "field_expression") {
        return optional_reference(tree, Some(function), args, "call", source);
    }
    let member = tree.field(function, "field");
    match optional_reference(tree, member, args, "call", source) {
        Some(mut reference) => {
            let on_this = match tree.field(function, "argument") {
                Some(argument) => tree.is_kind(argument, "this"),
                None => false,
            };
            reference.qualification = if on_this {
                "this".to_owned()
            } else {
                "unknown".to_owned()
            };
            Some(reference)
        },
        None => None,
    }
}

/// The reference that the initialized declarator `i` makes.
fn initialized(tree: &SyntaxTree, i: usize, source: &str) -> (result: Option<Reference>)
    requires
        i < tree@.len(),
        fits(tree@, encode_utf8(source@)),
    ensures
        reference_view(result) == initialized_reference(tree@, i as int, source@),
{
    let args = match tree.field(i, "value") {
        Some(value) => if tree.is_kind(value, "initializer_list") || tree.is_kind(
            value,
            "argument_list",
        ) {
            Some(value)
        } else {
            None
        },
        None => None,
    };
    let constructed = match tree.parent(i) {
        Some(parent) => tree.field(parent, "type"),
        None => None,
    };
    optional_reference(tree, constructed, args, "construct", source)
}

/// Whether node `i` declares some plain value.
fn declares_value(tree: &SyntaxTree, i: usize) -> (result: bool)
    requires
        i < tree@.len(),
    ensures
        result == some_of_kind(tree@, fields_of(tree@, i as int, "declarator"@), "identifier"@),
{
    let declarators = tree.fields(i, "declarator");
    let ghost nodes = positions(declarators@);
    let mut k: usize = 0;
    while k < declarators.len()
        invariant
            nodes == positions(declarators@),
            nodes == fields_of(tree@, i as int, "declarator"@),
            forall|j: int| 0 <= j < declarators.len() ==> #[trigger] declarators[j] < tree@.len(),
            k <= declarators.len(),
            forall|j: int| 0 <= j < k ==> tree@[#[trigger] nodes[j]].kind != "identifier"@,
        decreases declarators.len() - k,
    {
        assert(nodes[k as int] == declarators@[k as int]);
        if tree.is_kind(declarators[k], "identifier") {
            return true;
        }
        k = k + 1;
    }
    false
}

/// The reference that the declaration `i` makes.
fn default_constructed(tree: &SyntaxTree, i: usize, source: &str) -> (result: Option<Reference>)
    requires
        i < tree@.len(),
        fits(tree@, encode_utf8(source@)),
    ensures
        reference_view(result) == default_reference(tree@, i as int, source@),
{
    if !declares_value(tree, i) {
        return None;
    }
    match optional_reference(tree, tree.field(i, "type"), Some(i), "construct", source) {
        Some(mut reference) => {
            reference.arguments = 0;
            Some(reference)
        },
        None => None,
    }
}

/// The first named child of node `i` that is of the kind `kind`.
fn find_named(tree: &SyntaxTree, i: usize, kind: &str) -> (child: Option<usize>)
    requires
        i < tree@.len(),
    ensures
        position(child) == first_of_kind(tree@, named_of(tree@, i as int), kind@),
        child matches Some(c) ==> c < tree@.len(),
{
    let named = tree.named(i);
    let ghost nodes = positions(named@);
    let mut k: usize = 0;
    assert(nodes.skip(0) =~= nodes);
    while k < named.len()
        invariant
            nodes == positions(named@),
            nodes == named_of(tree@, i as int),
            forall|j: int| 0 <= j < named.len() ==> #[trigger] named[j] < tree@.len(),
            k <= named.len(),
            first_of_kind(tree@, nodes.skip(k as int), kind@) == first_of_kind(
                tree@,
                nodes,
                kind@,
            ),
        decreases named.len() - k,
    {
        assert(nodes.skip(k as int)[0] == named@[k as int]);
        assert(nodes.skip(k as int).drop_first() =~= nodes.skip(k + 1));
        if tree.is_kind(named[k], kind) {
            return Some(named[k]);
        }
        k = k + 1;
    }
    None
}

/// The reference that node `i` in the code of the function `function` makes, as it is written.
pub fn candidate(tree: &SyntaxTree, function: usize, i: usize, source: &str) -> (result: Option<
    Reference,
>)
    requires
        function < tree@.len(),
        i < tree@.len(),
        fits(tree@, encode_utf8(source@)),
    ensures
        reference_view(result) == candidate_of(tree@, function as int, i as int, source@),
{
    if tree.is_kind(i, "call_expression") {
        called(tree, i, source)
    } else if tree.is_kind(i, "compound_literal_expression") {
        let constructed = tree.field(i, "type");
        optional_reference(tree, constructed, tree.field(i, "value"), "construct", source)
    } else if tree.is_kind(i, "init_declarator") {
        initialized(tree, i, source)
    } else if tree.is_kind(i, "declaration") {
        default_constructed(tree, i, source)
    } else if tree.is_kind(i, "return_statement") {
        let args = find_named(tree, i, "initializer_list");
        optional_reference(tree, tree.field(function, "type"), args, "construct", source)
    } else {
        None
    }
}

} // verus!
