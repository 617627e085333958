//! Conservative syntax metadata, not C++ name lookup or type inference.
use vstd::prelude::*;
use vstd::utf8::encode_utf8;
use crate::syntax::{
    field_of, fits, node_text, parent_of, position, NodeView, SyntaxTree,
};
use crate::text::{
    decimal, join_next, joined, lemma_joined_push, name_parts, parts, push_decimal, texts,
};

verus! {

/// What a scope is, mathematically.
pub struct ScopeView {
    pub kind: Seq<char>,
    pub name: Seq<char>,
}

/// A namespace or a type around a declaration.
#[derive(Debug, PartialEq, Eq)]
pub struct Scope {
    pub kind: String,
    pub name: String,
}

impl View for Scope {
    type V = ScopeView;

    open spec fn view(&self) -> ScopeView {
        ScopeView { kind: self.kind@, name: self.name@ }
    }
}

impl Clone for Scope {
    fn clone(&self) -> (copy: Self)
        ensures
            copy@ == self@,
    {
        Scope { kind: self.kind.clone(), name: self.name.clone() }
    }
}

/// The mathematical values of a list of scopes.
pub open spec fn scope_views(scope: Seq<Scope>) -> Seq<ScopeView> {
    scope.map_values(|s: Scope| s@)
}

/// What a reference is, mathematically.
pub struct ReferenceView {
    pub kind: Seq<char>,
    pub name: Seq<char>,
    pub qualification: Seq<char>,
    pub qualifier: Seq<Seq<char>>,
    pub arguments: int,
}

/// A call or a construction in the body of a function.
#[derive(Debug, PartialEq, Eq, Hash)]
pub struct Reference {
    pub kind: String,
    pub name: String,
    pub qualification: String,
    pub qualifier: Vec<String>,
    pub arguments: usize,
}

impl View for Reference {
    type V = ReferenceView;

    open spec fn view(&self) -> ReferenceView {
        ReferenceView {
            kind: self.kind@,
            name: self.name@,
            qualification: self.qualification@,
            qualifier: texts(self.qualifier@),
            arguments: self.arguments as int,
        }
    }
}

impl Clone for Reference {
    fn clone(&self) -> (copy: Self)
        ensures
            copy@ == self@,
    {
        let qualifier = self.qualifier.clone();
        assert(texts(qualifier@) =~= texts(self.qualifier@));
        Reference {
            kind: self.kind.clone(),
            name: self.name.clone(),
            qualification: self.qualification.clone(),
            qualifier,
            arguments: self.arguments,
        }
    }
}

/// The mathematical values of a list of references.
pub open spec fn reference_views(references: Seq<Reference>) -> Seq<ReferenceView> {
    references.map_values(|r: Reference| r@)
}

// ---------------------------------------------------------------------------------------------
// Scopes

/// The names of a scope, outermost first.
pub open spec fn scope_names(scope: Seq<ScopeView>) -> Seq<Seq<char>> {
    scope.map_values(|s: ScopeView| s.name)
}

/// The path of a scope: its names joined by the separator.
pub open spec fn path_of(scope: Seq<ScopeView>) -> Seq<char> {
    joined(scope_names(scope))
}

/// The kind of scope that a node of kind `kind` opens.
pub open spec fn container_kind(kind: Seq<char>) -> Option<Seq<char>> {
    if kind == "namespace_definition"@ {
        Some("namespace"@)
    } else if kind == "class_specifier"@ || kind == "struct_specifier"@ || kind
        == "union_specifier"@ {
        Some("type"@)
    } else {
        None
    }
}

/// A name that no identifier has, made of a label and an offset.
pub open spec fn placeholder(label: Seq<char>, offset: int) -> Seq<char> {
    label + decimal(offset as nat) + seq![')']
}

/// The identifiers of the name that node `i` declares.
pub open spec fn declared_parts(t: Seq<NodeView>, i: int, source: Seq<char>) -> Option<
    Seq<Seq<char>>,
> {
    match field_of(t, i, "name"@) {
        Some(name) => name_parts(node_text(t, name, source)),
        None => None,
    }
}

/// The scopes that node `i` opens: one for each identifier of its name, or one with a placeholder
/// where its name is missing or no plain name.
pub open spec fn opened_scopes(t: Seq<NodeView>, i: int, source: Seq<char>) -> Seq<ScopeView> {
    match container_kind(t[i].kind) {
        Some(kind) => {
            let names = match declared_parts(t, i, source) {
                Some(names) => names,
                None => seq![placeholder("(anonymous@"@, t[i].start_byte)],
            };
            names.map_values(|name: Seq<char>| ScopeView { kind, name })
        },
        None => Seq::empty(),
    }
}

/// The scopes around node `i`, outermost first.
pub open spec fn scope_of(t: Seq<NodeView>, i: int, source: Seq<char>) -> Seq<ScopeView>
    decreases i,
{
    let parent = parent_of(t, i);
    if parent is Some && 0 <= parent->0 < i {
        scope_of(t, parent->0, source) + opened_scopes(t, parent->0, source)
    } else {
        Seq::empty()
    }
}

/// The kind of scope that node `i` opens.
pub(crate) fn container(tree: &SyntaxTree, i: usize) -> (kind: Option<&'static str>)
    requires
        i < tree@.len(),
    ensures
        match kind {
            Some(kind) => container_kind(tree@[i as int].kind) == Some(kind@),
            None => container_kind(tree@[i as int].kind) is None,
        },
{
    if tree.is_kind(i, "namespace_definition") {
        Some("namespace")
    } else if tree.is_kind(i, "class_specifier") || tree.is_kind(i, "struct_specifier")
        || tree.is_kind(i, "union_specifier") {
        Some("type")
    } else {
        None
    }
}

/// A placeholder name.
pub(crate) fn placeholder_name(label: &str, offset: usize) -> (name: String)
    ensures
        name@ == placeholder(label@, offset as int),
{
    let mut name = label.to_owned();
    push_decimal(&mut name, offset);
    name.push(')');
    assert(name@ =~= placeholder(label@, offset as int));
    name
}

/// The identifiers of the name that node `i` declares.
pub(crate) fn declared_name(tree: &SyntaxTree, i: usize, source: &str) -> (names: Option<
    Vec<String>,
>)
    requires
        i < tree@.len(),
        fits(tree@, encode_utf8(source@)),
    ensures
        match names {
            Some(names) => declared_parts(tree@, i as int, source@) == Some(texts(names@)),
            None => declared_parts(tree@, i as int, source@) is None,
        },
{
    match tree.field(i, "name") {
        Some(name) => parts(tree.text(name, source)),
        None => None,
    }
}

/// Appends the scopes that node `i` opens.
fn push_opened(tree: &SyntaxTree, i: usize, source: &str, scope: &mut Vec<Scope>)
    requires
        i < tree@.len(),
        fits(tree@, encode_utf8(source@)),
    ensures
        scope_views(final(scope)@) == scope_views(old(scope)@) + opened_scopes(
            tree@,
            i as int,
            source@,
        ),
{
    let ghost before = scope_views(scope@);
    match container(tree, i) {
        Some(kind) => {
            let names = match declared_name(tree, i, source) {
                Some(names) => names,
                None => {
                    let mut names: Vec<String> = Vec::new();
                    names.push(placeholder_name("(anonymous@", tree.node(i).start_byte));
                    assert(texts(names@) =~= seq![
                        placeholder("(anonymous@"@, tree@[i as int].start_byte),
                    ]);
                    names
                },
            };
            let ghost opened = opened_scopes(tree@, i as int, source@);
            assert(opened == texts(names@).map_values(
                |name: Seq<char>| ScopeView { kind: kind@, name },
            ));
            let mut k: usize = 0;
            assert(scope_views(scope@) =~= before + opened.take(0));
            while k < names.len()
                invariant
                    k <= names.len(),
                    opened == texts(names@).map_values(
                        |name: Seq<char>| ScopeView { kind: kind@, name },
                    ),
                    scope_views(scope@) == before + opened.take(k as int),
                decreases names.len() - k,
            {
                let ghost was = scope_views(scope@);
                scope.push(Scope { kind: kind.to_owned(), name: names[k].clone() });
                assert(scope_views(scope@) =~= was.push(opened[k as int]));
                assert(opened.take(k + 1) =~= opened.take(k as int).push(opened[k as int]));
                assert(scope_views(scope@) =~= before + opened.take(k + 1));
                k = k + 1;
            }
            assert(opened.take(names.len() as int) =~= opened);
        },
        None => {
            assert(scope_views(scope@) =~= before + Seq::<ScopeView>::empty());
        },
    }
}

/// The scopes opened by `nodes`, the last of them first.
spec fn opened_by(t: Seq<NodeView>, nodes: Seq<usize>, source: Seq<char>) -> Seq<ScopeView>
    decreases nodes.len(),
{
    if nodes.len() == 0 {
        Seq::empty()
    } else {
        opened_scopes(t, nodes.last() as int, source) + opened_by(t, nodes.drop_last(), source)
    }
}

/// The scopes around node `node`, outermost first.
pub fn lexical_scope(tree: &SyntaxTree, node: usize, source: &str) -> (scope: Vec<Scope>)
    requires
        node < tree@.len(),
        fits(tree@, encode_utf8(source@)),
    ensures
        scope_views(scope@) == scope_of(tree@, node as int, source@),
{
    let ghost t = tree@;
    let mut ancestors: Vec<usize> = Vec::new();
    let mut parent = tree.parent(node);
    let mut at = node;
    assert(scope_of(t, node as int, source@) =~= scope_of(t, at as int, source@) + opened_by(
        t,
        ancestors@,
        source@,
    ));
    while parent.is_some()
        invariant
            t == tree@,
            node < t.len(),
            at < t.len(),
            position(parent) == parent_of(t, at as int),
            parent matches Some(p) ==> p < at,
            forall|k: int| 0 <= k < ancestors.len() ==> #[trigger] ancestors[k] < t.len(),
            scope_of(t, node as int, source@) == scope_of(t, at as int, source@) + opened_by(
                t,
                ancestors@,
                source@,
            ),
        decreases at,
    {
        let p = parent.unwrap();
        let ghost was = ancestors@;
        ancestors.push(p);
        proof {
            assert(ancestors@.drop_last() =~= was);
            assert(scope_of(t, at as int, source@) + opened_by(t, was, source@) =~= scope_of(
                t,
                p as int,
                source@,
            ) + opened_by(t, ancestors@, source@));
        }
        at = p;
        parent = tree.parent(p);
    }
    let mut scope: Vec<Scope> = Vec::new();
    assert(scope_views(scope@) + opened_by(t, ancestors@, source@) =~= scope_of(
        t,
        node as int,
        source@,
    ));
    while ancestors.len() > 0
        invariant
            t == tree@,
            node < t.len(),
            fits(t, encode_utf8(source@)),
            forall|k: int| 0 <= k < ancestors.len() ==> #[trigger] ancestors[k] < t.len(),
            scope_views(scope@) + opened_by(t, ancestors@, source@) == scope_of(
                t,
                node as int,
                source@,
            ),
        decreases ancestors.len(),
    {
        let ghost was = ancestors@;
        let ghost before = scope_views(scope@);
        let ancestor = ancestors.pop().unwrap();
        push_opened(tree, ancestor, source, &mut scope);
        proof {
            assert(was.drop_last() =~= ancestors@);
            assert(before + opened_by(t, was, source@) =~= scope_views(scope@) + opened_by(
                t,
                ancestors@,
                source@,
            ));
        }
    }
    assert(scope_views(scope@) =~= scope_of(t, node as int, source@));
    scope
}

/// The path of the first `n` scopes.
pub(crate) fn prefix_path(scope: &[Scope], n: usize) -> (path: String)
    requires
        n <= scope@.len(),
    ensures
        path@ == path_of(scope_views(scope@).take(n as int)),
{
    let mut path = String::new();
    let ghost names = scope_names(scope_views(scope@));
    let mut i: usize = 0;
    assert(names.take(0) =~= Seq::<Seq<char>>::empty());
    while i < n
        invariant
            names == scope_names(scope_views(scope@)),
            i <= n <= scope@.len(),
            path@ == joined(names.take(i as int)),
        decreases n - i,
    {
        join_next(&mut path, i == 0, scope[i].name.as_str());
        proof {
            lemma_joined_push(names.take(i as int), names[i as int]);
            assert(names.take(i + 1) =~= names.take(i as int).push(names[i as int]));
        }
        i = i + 1;
    }
    assert(scope_names(scope_views(scope@).take(n as int)) =~= names.take(n as int));
    path
}

/// The path of a scope: its names joined by `::`.
pub fn scope_path(scope: &[Scope]) -> (path: String)
    ensures
        path@ == path_of(scope_views(scope@)),
{
    assert(scope_views(scope@).take(scope@.len() as int) =~= scope_views(scope@));
    prefix_path(scope, scope.len())
}

} // verus!
