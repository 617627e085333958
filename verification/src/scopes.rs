//! An index of what each scope of a file declares.
use vstd::prelude::*;
use vstd::hash_map::StringHashMap;
use vstd::hash_set::StringHashSet;
use vstd::utf8::encode_utf8;
use crate::declarators::{
    binding_name, bound_name, function_declarator, function_declarator_of,
};
use crate::metadata::{
    container, container_kind, declared_name, declared_parts, lexical_scope, path_of, scope_names,
    scope_of, scope_path, scope_views,
};
use crate::names::NameTable;
use crate::syntax::{
    field_of, fields_of, fits, node_text, parent_of, position, positions, NodeView, SyntaxTree,
};
use crate::text::{join, joined, name_parts, parts, same_text, texts};

verus! {

/// What a scope index is, mathematically. Scopes are known by their paths.
#[verifier::ext_equal]
pub struct ScopeIndexView {
    /// The kind of each named scope.
    pub kinds: Map<Seq<char>, Seq<char>>,
    /// Names that a scope declares without a definition that could be reported.
    pub blocked: Set<(Seq<char>, Seq<char>)>,
    /// Scopes that see names from elsewhere.
    pub uncertain: Set<Seq<char>>,
    /// Member functions that a type defines in its body.
    pub members: Set<(Seq<char>, Seq<char>)>,
}

/// An index of what each scope of a file declares.
pub struct ScopeIndex {
    kinds: StringHashMap<String>,
    blocked: NameTable,
    uncertain: StringHashSet,
    members: NameTable,
}

impl View for ScopeIndex {
    type V = ScopeIndexView;

    closed spec fn view(&self) -> ScopeIndexView {
        ScopeIndexView {
            kinds: self.kinds@.map_values(|kind: String| kind@),
            blocked: self.blocked@,
            uncertain: self.uncertain@,
            members: self.members@,
        }
    }
}

// ---------------------------------------------------------------------------------------------
// What a node declares

/// Whether node `i` lies inside a function or a lambda.
pub open spec fn in_callable(t: Seq<NodeView>, i: int) -> bool
    decreases i,
{
    let parent = parent_of(t, i);
    parent is Some && 0 <= parent->0 < i && (t[parent->0].kind == "function_definition"@
        || t[parent->0].kind == "lambda_expression"@ || in_callable(t, parent->0))
}

/// A declaration with declarators.
pub open spec fn has_declarators(kind: Seq<char>) -> bool {
    kind == "declaration"@ || kind == "field_declaration"@ || kind == "type_definition"@
}

/// A declaration of another name for a type or a namespace.
pub open spec fn is_alias(kind: Seq<char>) -> bool {
    kind == "alias_declaration"@ || kind == "namespace_alias_definition"@
}

/// A declaration that brings in names from elsewhere.
pub open spec fn is_import(kind: Seq<char>) -> bool {
    kind == "using_declaration"@ || kind == "base_class_clause"@
}

/// Whether one of the declarators `nodes` binds `name`.
pub open spec fn binds(
    t: Seq<NodeView>,
    nodes: Seq<int>,
    source: Seq<char>,
    name: Seq<char>,
) -> bool {
    exists|k: int|
        0 <= k < nodes.len() && bound_name(t, #[trigger] nodes[k], source) == Some(name)
}

/// Whether node `i` declares `name`.
pub open spec fn declares(t: Seq<NodeView>, i: int, source: Seq<char>, name: Seq<char>) -> bool {
    let alias = field_of(t, i, "name"@);
    ||| has_declarators(t[i].kind) && binds(t, fields_of(t, i, "declarator"@), source, name)
    ||| is_alias(t[i].kind) && alias is Some && node_text(t, alias->0, source) == name
}

/// Whether node `i` declares `name` in the scope with the path `path`.
pub open spec fn declares_in(
    t: Seq<NodeView>,
    i: int,
    source: Seq<char>,
    path: Seq<char>,
    name: Seq<char>,
) -> bool {
    !in_callable(t, i) && path_of(scope_of(t, i, source)) == path && declares(t, i, source, name)
}

/// Whether node `i` brings names from elsewhere into the scope with the path `path`.
pub open spec fn imports_in(t: Seq<NodeView>, i: int, source: Seq<char>, path: Seq<char>) -> bool {
    !in_callable(t, i) && path_of(scope_of(t, i, source)) == path && is_import(t[i].kind)
}

/// The function declarator of the function definition `i`.
pub open spec fn declarator_of(t: Seq<NodeView>, i: int) -> Option<int> {
    match field_of(t, i, "declarator"@) {
        Some(declarator) => function_declarator_of(t, declarator),
        None => None,
    }
}

/// The node of the name, as it is written, of the function definition `i`.
pub open spec fn written_name(t: Seq<NodeView>, i: int) -> Option<int> {
    match declarator_of(t, i) {
        Some(declarator) => field_of(t, declarator, "declarator"@),
        None => None,
    }
}

/// Whether the innermost scope around node `i` is a type.
pub open spec fn in_type(t: Seq<NodeView>, i: int, source: Seq<char>) -> bool {
    let scope = scope_of(t, i, source);
    scope.len() > 0 && scope.last().kind == "type"@
}

/// Whether node `i` defines, in the body of the type with the path `path`, the member `name`.
pub open spec fn defines_member(
    t: Seq<NodeView>,
    i: int,
    source: Seq<char>,
    path: Seq<char>,
    name: Seq<char>,
) -> bool {
    let written = written_name(t, i);
    &&& t[i].kind == "function_definition"@
    &&& in_type(t, i, source)
    &&& path_of(scope_of(t, i, source)) == path
    &&& written is Some
    &&& name_parts(node_text(t, written->0, source)) == Some(seq![name])
}

// ---------------------------------------------------------------------------------------------
// What a file declares

/// The names that the first `n` nodes declare, each under the path of its scope.
pub open spec fn blocked_before(t: Seq<NodeView>, source: Seq<char>, n: int) -> Set<
    (Seq<char>, Seq<char>),
> {
    Set::new(
        |entry: (Seq<char>, Seq<char>)|
            exists|i: int| 0 <= i < n && declares_in(t, i, source, entry.0, entry.1),
    )
}

/// The scopes into which the first `n` nodes bring names from elsewhere.
pub open spec fn uncertain_before(t: Seq<NodeView>, source: Seq<char>, n: int) -> Set<Seq<char>> {
    Set::new(|path: Seq<char>| exists|i: int| 0 <= i < n && imports_in(t, i, source, path))
}

/// The members that the first `n` nodes define in the body of their type.
pub open spec fn members_before(t: Seq<NodeView>, source: Seq<char>, n: int) -> Set<
    (Seq<char>, Seq<char>),
> {
    Set::new(
        |entry: (Seq<char>, Seq<char>)|
            exists|i: int| 0 <= i < n && defines_member(t, i, source, entry.0, entry.1),
    )
}

/// `kinds` with the kind `kind` for the scopes that `names` open one inside the other, below the
/// scope with the names `path`.
pub open spec fn with_kinds(
    kinds: Map<Seq<char>, Seq<char>>,
    path: Seq<Seq<char>>,
    names: Seq<Seq<char>>,
    kind: Seq<char>,
) -> Map<Seq<char>, Seq<char>>
    decreases names.len(),
{
    if names.len() == 0 {
        kinds
    } else {
        let inner = path.push(names[0]);
        with_kinds(kinds.insert(joined(inner), kind), inner, names.drop_first(), kind)
    }
}

/// The kinds of the named scopes that the first `n` nodes open. Of two scopes with one path the
/// later gives the kind.
pub open spec fn kinds_before(t: Seq<NodeView>, source: Seq<char>, n: int) -> Map<
    Seq<char>,
    Seq<char>,
>
    decreases n,
{
    if n <= 0 {
        Map::empty()
    } else {
        let kinds = kinds_before(t, source, n - 1);
        match (container_kind(t[n - 1].kind), declared_parts(t, n - 1, source)) {
            (Some(kind), Some(names)) => with_kinds(
                kinds,
                scope_names(scope_of(t, n - 1, source)),
                names,
                kind,
            ),
            _ => kinds,
        }
    }
}

/// The index of a file.
pub open spec fn index_of(t: Seq<NodeView>, source: Seq<char>) -> ScopeIndexView {
    ScopeIndexView {
        kinds: kinds_before(t, source, t.len() as int),
        blocked: blocked_before(t, source, t.len() as int),
        uncertain: uncertain_before(t, source, t.len() as int),
        members: members_before(t, source, t.len() as int),
    }
}

// ---------------------------------------------------------------------------------------------
// Building the index

/// Whether node `node` lies inside a function or a lambda.
fn inside_callable(tree: &SyntaxTree, node: usize) -> (result: bool)
    requires
        node < tree@.len(),
    ensures
        result == in_callable(tree@, node as int),
{
    let mut at = node;
    loop
        invariant
            at < tree@.len(),
            in_callable(tree@, node as int) == in_callable(tree@, at as int),
        decreases at,
    {
        match tree.parent(at) {
            Some(parent) => {
                if tree.is_kind(parent, "function_definition") || tree.is_kind(
                    parent,
                    "lambda_expression",
                ) {
                    return true;
                }
                at = parent;
            },
            None => {
                return false;
            },
        }
    }
}

/// Adds to `table`, under the path `path`, the names that the declarators of node `node` bind.
fn block_declarators(
    tree: &SyntaxTree,
    node: usize,
    source: &str,
    path: &String,
    table: &mut NameTable,
)
    requires
        node < tree@.len(),
        fits(tree@, encode_utf8(source@)),
        old(table).wf(),
    ensures
        final(table).wf(),
        forall|p: Seq<char>, name: Seq<char>| #[trigger]
            final(table)@.contains((p, name)) <==> old(table)@.contains((p, name)) || (p == path@
                && binds(tree@, fields_of(tree@, node as int, "declarator"@), source@, name)),
{
    let ghost before = table@;
    let declarators = tree.fields(node, "declarator");
    let ghost nodes = positions(declarators@);
    let mut k: usize = 0;
    while k < declarators.len()
        invariant
            node < tree@.len(),
            fits(tree@, encode_utf8(source@)),
            nodes == positions(declarators@),
            forall|j: int| 0 <= j < declarators.len() ==> #[trigger] declarators[j] < tree@.len(),
            k <= declarators.len(),
            table.wf(),
            forall|p: Seq<char>, name: Seq<char>| #[trigger]
                table@.contains((p, name)) <==> before.contains((p, name)) || (p == path@ && binds(
                    tree@,
                    nodes.take(k as int),
                    source@,
                    name,
                )),
        decreases declarators.len() - k,
    {
        let ghost was = table@;
        let bound = binding_name(tree, declarators[k], source);
        let ghost here = bound_name(tree@, declarators@[k as int] as int, source@);
        match bound {
            Some(name) => {
                table.insert(path.clone(), name);
            },
            None => {},
        }
        proof {
            let some = nodes.take(k as int);
            let more = nodes.take(k + 1);
            assert(more =~= some.push(declarators@[k as int] as int));
            assert forall|p: Seq<char>, name: Seq<char>| #[trigger]
                table@.contains((p, name)) <==> before.contains((p, name)) || (p == path@ && binds(
                    tree@,
                    more,
                    source@,
                    name,
                )) by {
                if binds(tree@, some, source@, name) {
                    let j = choose|j: int|
                        0 <= j < some.len() && bound_name(tree@, #[trigger] some[j], source@)
                            == Some(name);
                    assert(more[j] == some[j]);
                }
                if here == Some(name) {
                    assert(bound_name(tree@, more[k as int], source@) == Some(name));
                }
                if binds(tree@, more, source@, name) {
                    let j = choose|j: int|
                        0 <= j < more.len() && bound_name(tree@, #[trigger] more[j], source@)
                            == Some(name);
                    if j < k {
                        assert(some[j] == more[j]);
                    }
                }
                assert(was.contains((p, name)) <==> before.contains((p, name)) || (p == path@
                    && binds(tree@, some, source@, name)));
            }
        }
        k = k + 1;
    }
    assert(nodes.take(declarators.len() as int) =~= nodes);
}

/// The names that each scope declares, and the scopes that see names from elsewhere.
fn index_declarations(tree: &SyntaxTree, source: &str) -> (result: (NameTable, StringHashSet))
    requires
        fits(tree@, encode_utf8(source@)),
    ensures
        result.0.wf(),
        result.0@ == blocked_before(tree@, source@, tree@.len() as int),
        result.1@ == uncertain_before(tree@, source@, tree@.len() as int),
{
    let ghost t = tree@;
    let mut blocked = NameTable::new();
    let mut uncertain = StringHashSet::new();
    let n = tree.len();
    let mut i: usize = 0;
    assert(blocked@ =~= blocked_before(t, source@, 0));
    assert(uncertain@ =~= uncertain_before(t, source@, 0));
    while i < n
        invariant
            t == tree@,
            n == t.len(),
            i <= n,
            fits(t, encode_utf8(source@)),
            blocked.wf(),
            blocked@ == blocked_before(t, source@, i as int),
            uncertain@ == uncertain_before(t, source@, i as int),
        decreases n - i,
    {
        let ghost was = blocked@;
        let ghost seen = uncertain@;
        let declarators = tree.is_kind(i, "declaration") || tree.is_kind(i, "field_declaration")
            || tree.is_kind(i, "type_definition");
        let alias = tree.is_kind(i, "alias_declaration") || tree.is_kind(
            i,
            "namespace_alias_definition",
        );
        let import = tree.is_kind(i, "using_declaration") || tree.is_kind(i, "base_class_clause");
        let ghost path = path_of(scope_of(t, i as int, source@));
        let ghost apart = has_declarators(t[i as int].kind) ==> !is_alias(t[i as int].kind);
        proof {
            reveal_strlit("declaration");
            reveal_strlit("field_declaration");
            reveal_strlit("type_definition");
            reveal_strlit("alias_declaration");
            reveal_strlit("namespace_alias_definition");
            assert("declaration"@.len() == 11);
            assert("field_declaration"@.len() == 17);
            assert("type_definition"@.len() == 15);
            assert("alias_declaration"@.len() == 17);
            assert("namespace_alias_definition"@.len() == 26);
            assert("field_declaration"@[0] != "alias_declaration"@[0]);
            assert(apart);
        }
        if (declarators || alias || import) && !inside_callable(tree, i) {
            let scope = lexical_scope(tree, i, source);
            let path = scope_path(scope.as_slice());
            if declarators {
                block_declarators(tree, i, source, &path, &mut blocked);
            } else if alias {
                match tree.field(i, "name") {
                    Some(name) => {
                        blocked.insert(path.clone(), tree.text(name, source).to_owned());
                    },
                    None => {},
                }
            }
            if import {
                uncertain.insert(path);
            }
        }
        proof {
            assert forall|entry: (Seq<char>, Seq<char>)| #[trigger]
                blocked@.contains(entry) <==> was.contains(entry) || declares_in(
                    t,
                    i as int,
                    source@,
                    entry.0,
                    entry.1,
                ) by {
                let (p, name) = entry;
                assert(blocked@.contains((p, name)) == blocked@.contains(entry));
                assert(was.contains((p, name)) == was.contains(entry));
            }
            assert forall|p: Seq<char>| #[trigger]
                uncertain@.contains(p) <==> seen.contains(p) || imports_in(
                    t,
                    i as int,
                    source@,
                    p,
                ) by {}
            assert(blocked@ =~= blocked_before(t, source@, i + 1)) by {
                assert forall|entry: (Seq<char>, Seq<char>)| #[trigger]
                    blocked@.contains(entry) <==> blocked_before(t, source@, i + 1).contains(
                        entry,
                    ) by {
                    if was.contains(entry) {
                        let j = choose|j: int|
                            0 <= j < i && declares_in(t, j, source@, entry.0, entry.1);
                        assert(declares_in(t, j, source@, entry.0, entry.1));
                    }
                }
            }
            assert(uncertain@ =~= uncertain_before(t, source@, i + 1)) by {
                assert forall|p: Seq<char>| #[trigger]
                    uncertain@.contains(p) <==> uncertain_before(t, source@, i + 1).contains(p) by {
                    if seen.contains(p) {
                        let j = choose|j: int| 0 <= j < i && imports_in(t, j, source@, p);
                        assert(imports_in(t, j, source@, p));
                    }
                }
            }
        }
        i = i + 1;
    }
    (blocked, uncertain)
}

/// The texts of the values of a map.
spec fn kind_texts(kinds: Map<Seq<char>, String>) -> Map<Seq<char>, Seq<char>> {
    kinds.map_values(|kind: String| kind@)
}

/// The names of the scopes around node `node`.
fn scope_name_list(tree: &SyntaxTree, node: usize, source: &str) -> (names: Vec<String>)
    requires
        node < tree@.len(),
        fits(tree@, encode_utf8(source@)),
    ensures
        texts(names@) == scope_names(scope_of(tree@, node as int, source@)),
{
    let scope = lexical_scope(tree, node, source);
    let mut names: Vec<String> = Vec::new();
    let ghost all = scope_names(scope_views(scope@));
    let mut k: usize = 0;
    assert(texts(names@) =~= all.take(0));
    while k < scope.len()
        invariant
            k <= scope.len(),
            all == scope_names(scope_views(scope@)),
            texts(names@) == all.take(k as int),
        decreases scope.len() - k,
    {
        let ghost was = texts(names@);
        names.push(scope[k].name.clone());
        assert(all[k as int] == scope@[k as int]@.name);
        assert(texts(names@) =~= was.push(all[k as int]));
        assert(all.take(k + 1) =~= all.take(k as int).push(all[k as int]));
        k = k + 1;
    }
    assert(all.take(scope.len() as int) =~= all);
    names
}

/// The kinds of the named scopes.
fn index_kinds(tree: &SyntaxTree, source: &str) -> (kinds: StringHashMap<String>)
    requires
        fits(tree@, encode_utf8(source@)),
    ensures
        kind_texts(kinds@) == kinds_before(tree@, source@, tree@.len() as int),
{
    let ghost t = tree@;
    let mut kinds: StringHashMap<String> = StringHashMap::new();
    let n = tree.len();
    let mut i: usize = 0;
    assert(kind_texts(kinds@) =~= Map::<Seq<char>, Seq<char>>::empty());
    while i < n
        invariant
            t == tree@,
            n == t.len(),
            i <= n,
            fits(t, encode_utf8(source@)),
            kind_texts(kinds@) == kinds_before(t, source@, i as int),
        decreases n - i,
    {
        let kind = container(tree, i);
        let names = declared_name(tree, i, source);
        match (kind, names) {
            (Some(kind), Some(names)) => {
                let ghost all = texts(names@);
                let ghost target = with_kinds(
                    kind_texts(kinds@),
                    scope_names(scope_of(t, i as int, source@)),
                    all,
                    kind@,
                );
                let mut path = scope_name_list(tree, i, source);
                let mut k: usize = 0;
                assert(all.skip(0) =~= all);
                while k < names.len()
                    invariant
                        k <= names.len(),
                        all == texts(names@),
                        target == with_kinds(
                            kind_texts(kinds@),
                            texts(path@),
                            all.skip(k as int),
                            kind@,
                        ),
                    decreases names.len() - k,
                {
                    let ghost was = kinds@;
                    let ghost outer = texts(path@);
                    path.push(names[k].clone());
                    let key = join(&path);
                    let value = kind.to_owned();
                    proof {
                        assert(texts(path@) =~= outer.push(all[k as int]));
                        assert(all.skip(k as int)[0] == all[k as int]);
                        assert(all.skip(k as int).drop_first() =~= all.skip(k + 1));
                        assert(kind_texts(was.insert(key@, value)) =~= kind_texts(was).insert(
                            key@,
                            kind@,
                        ));
                    }
                    kinds.insert(key, value);
                    k = k + 1;
                }
            },
            _ => {},
        }
        i = i + 1;
    }
    kinds
}

/// The member functions that each type defines in its body.
fn index_members(tree: &SyntaxTree, source: &str) -> (members: NameTable)
    requires
        fits(tree@, encode_utf8(source@)),
    ensures
        members.wf(),
        members@ == members_before(tree@, source@, tree@.len() as int),
{
    let ghost t = tree@;
    let mut members = NameTable::new();
    let n = tree.len();
    let mut i: usize = 0;
    assert(members@ =~= members_before(t, source@, 0));
    while i < n
        invariant
            t == tree@,
            n == t.len(),
            i <= n,
            fits(t, encode_utf8(source@)),
            members.wf(),
            members@ == members_before(t, source@, i as int),
        decreases n - i,
    {
        let ghost was = members@;
        if tree.is_kind(i, "function_definition") {
            let scope = lexical_scope(tree, i, source);
            if scope.len() > 0 && same_text(scope[scope.len() - 1].kind.as_str(), "type") {
                match name_as_written(tree, i) {
                    Some(written) => {
                        match parts(tree.text(written, source)) {
                            Some(names) => {
                                if names.len() == 1 {
                                    assert(texts(names@) =~= seq![names@[0]@]);
                                    members.insert(scope_path(scope.as_slice()), names[0].clone());
                                }
                            },
                            None => {},
                        }
                    },
                    None => {},
                }
            }
        }
        proof {
            assert forall|entry: (Seq<char>, Seq<char>)| #[trigger]
                members@.contains(entry) <==> was.contains(entry) || defines_member(
                    t,
                    i as int,
                    source@,
                    entry.0,
                    entry.1,
                ) by {
                let (p, name) = entry;
                assert(members@.contains((p, name)) == members@.contains(entry));
                assert(was.contains((p, name)) == was.contains(entry));
                let scope = scope_of(t, i as int, source@);
                if defines_member(t, i as int, source@, p, name) {
                    assert(seq![name][0] == name);
                    assert(seq![name].len() == 1);
                }
            }
            assert(members@ =~= members_before(t, source@, i + 1)) by {
                assert forall|entry: (Seq<char>, Seq<char>)| #[trigger]
                    members@.contains(entry) <==> members_before(t, source@, i + 1).contains(
                        entry,
                    ) by {
                    if was.contains(entry) {
                        let j = choose|j: int|
                            0 <= j < i && defines_member(t, j, source@, entry.0, entry.1);
                        assert(defines_member(t, j, source@, entry.0, entry.1));
                    }
                }
            }
        }
        i = i + 1;
    }
    members
}

/// The node of the name, as it is written, of the function definition `node`.
pub(crate) fn name_as_written(tree: &SyntaxTree, node: usize) -> (name: Option<usize>)
    requires
        node < tree@.len(),
    ensures
        position(name) == written_name(tree@, node as int),
        name matches Some(at) ==> node < at < tree@.len(),
{
    match definition_declarator(tree, node) {
        Some(declarator) => tree.field(declarator, "declarator"),
        None => None,
    }
}

/// The function declarator of the function definition `node`.
pub(crate) fn definition_declarator(tree: &SyntaxTree, node: usize) -> (declarator: Option<usize>)
    requires
        node < tree@.len(),
    ensures
        position(declarator) == declarator_of(tree@, node as int),
        declarator matches Some(at) ==> node < at < tree@.len(),
{
    match tree.field(node, "declarator") {
        Some(declarator) => function_declarator(tree, declarator),
        None => None,
    }
}

/// The index of what each scope of a file declares.
pub fn scope_index(tree: &SyntaxTree, source: &str) -> (index: ScopeIndex)
    requires
        fits(tree@, encode_utf8(source@)),
    ensures
        index.wf(),
        index@ == index_of(tree@, source@),
{
    let (blocked, uncertain) = index_declarations(tree, source);
    let kinds = index_kinds(tree, source);
    let members = index_members(tree, source);
    ScopeIndex { kinds, blocked, uncertain, members }
}

impl ScopeIndex {
    /// Whether the tables of the index are well formed.
    pub closed spec fn wf(self) -> bool {
        self.blocked.wf() && self.members.wf()
    }

    /// The kind of the scope with the path `path`.
    pub fn kind(&self, path: &str) -> (kind: Option<String>)
        ensures
            match kind {
                Some(kind) => self@.kinds.contains_key(path@) && self@.kinds[path@] == kind@,
                None => !self@.kinds.contains_key(path@),
            },
    {
        match self.kinds.get(path) {
            Some(kind) => Some(kind.clone()),
            None => None,
        }
    }

    /// Whether the scope with the path `path` declares `name`.
    pub fn blocks(&self, path: &str, name: &str) -> (result: bool)
        requires
            self.wf(),
        ensures
            result == self@.blocked.contains((path@, name@)),
    {
        self.blocked.contains(path, name)
    }

    /// Whether the scope with the path `path` sees names from elsewhere.
    pub fn is_uncertain(&self, path: &str) -> (result: bool)
        ensures
            result == self@.uncertain.contains(path@),
    {
        self.uncertain.contains(path)
    }

    /// Whether the type with the path `path` defines the member `name` in its body.
    pub fn defines(&self, path: &str, name: &str) -> (result: bool)
        requires
            self.wf(),
        ensures
            result == self@.members.contains((path@, name@)),
    {
        self.members.contains(path, name)
    }
}

} // verus!
