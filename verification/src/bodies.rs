//! The nodes that belong to a function's own body, and the names that they bind.
use vstd::prelude::*;
use vstd::hash_set::StringHashSet;
use vstd::utf8::encode_utf8;
use crate::declarators::{binding_node, bound_node};
use crate::syntax::{
    fields_of, fits, lemma_nested, named_of, node_text, position, positions, subtree_end, NodeView,
    SyntaxTree,
};

verus! {

/// A node whose inside belongs to a function, a type or a lambda of its own.
pub open spec fn is_nested_scope(kind: Seq<char>) -> bool {
    kind == "lambda_expression"@ || kind == "function_definition"@ || kind == "class_specifier"@
        || kind == "struct_specifier"@ || kind == "union_specifier"@
}

/// The nodes from `i` up to `end` in preorder, without the subtrees of nested scopes.
pub open spec fn own_nodes(t: Seq<NodeView>, i: int, end: int) -> Seq<int>
    decreases end - i,
{
    if 0 <= i < end {
        let next = subtree_end(t, i);
        if !is_nested_scope(t[i].kind) {
            seq![i] + own_nodes(t, i + 1, end)
        } else if i < next <= end {
            own_nodes(t, next, end)
        } else {
            Seq::empty()
        }
    } else {
        Seq::empty()
    }
}

/// The nodes of the subtree of `root` that do not belong to a nested scope, in preorder.
pub open spec fn walked(t: Seq<NodeView>, root: int) -> Seq<int> {
    own_nodes(t, root, subtree_end(t, root))
}

/// The nodes walked from each of `roots`, one root after the other.
pub open spec fn walked_all(t: Seq<NodeView>, roots: Seq<int>) -> Seq<int>
    decreases roots.len(),
{
    if roots.len() == 0 {
        Seq::empty()
    } else {
        walked_all(t, roots.drop_last()) + walked(t, roots.last())
    }
}

/// Those of `nodes` that are of the kind `kind`.
pub open spec fn of_kind(t: Seq<NodeView>, nodes: Seq<int>, kind: Seq<char>) -> Seq<int>
    decreases nodes.len(),
{
    if nodes.len() == 0 {
        Seq::empty()
    } else if t[nodes.last()].kind == kind {
        of_kind(t, nodes.drop_last(), kind).push(nodes.last())
    } else {
        of_kind(t, nodes.drop_last(), kind)
    }
}

/// Where the code of the function definition `node` with the body `body` stands: its body, and
/// its initializers.
pub open spec fn code_roots(t: Seq<NodeView>, node: int, body: int) -> Seq<int> {
    seq![body] + of_kind(t, named_of(t, node), "field_initializer_list"@)
}

/// The nodes of a function's own code, in the order in which they are visited.
pub open spec fn code_nodes(t: Seq<NodeView>, node: int, body: int) -> Seq<int> {
    walked_all(t, code_roots(t, node, body))
}

/// All positions from `i` up to `end`.
pub open spec fn all_nodes(i: int, end: int) -> Seq<int> {
    Seq::new((end - i) as nat, |k: int| i + k)
}

/// The nodes that may bind a local name: those of the parameters and those of the code.
pub open spec fn binding_sites(
    t: Seq<NodeView>,
    parameters: Option<int>,
    code: Seq<int>,
) -> Seq<int> {
    match parameters {
        Some(parameters) => all_nodes(parameters, subtree_end(t, parameters)) + code,
        None => code,
    }
}

/// A declaration that makes local names mean something else.
pub open spec fn is_local_import(kind: Seq<char>) -> bool {
    kind == "using_declaration"@ || kind == "alias_declaration"@ || kind == "type_definition"@
}

/// A declaration that binds local names.
pub open spec fn is_local_declaration(kind: Seq<char>) -> bool {
    kind == "parameter_declaration"@ || kind == "optional_parameter_declaration"@ || kind
        == "init_declarator"@ || kind == "declaration"@
}

/// Whether one of the nodes `sites` makes local names mean something else.
pub open spec fn imports_locally(t: Seq<NodeView>, sites: Seq<int>) -> bool {
    exists|k: int| 0 <= k < sites.len() && is_local_import(t[#[trigger] sites[k]].kind)
}

/// Whether one of the declarators `nodes` binds the identifier `name`.
pub open spec fn binds_identifier(
    t: Seq<NodeView>,
    nodes: Seq<int>,
    source: Seq<char>,
    name: Seq<char>,
) -> bool {
    exists|k: int|
        0 <= k < nodes.len() && t[bound_node(t, #[trigger] nodes[k])].kind == "identifier"@
            && node_text(t, bound_node(t, nodes[k]), source) == name
}

/// Whether node `i` binds the local name `name`.
pub open spec fn binds_locally(
    t: Seq<NodeView>,
    i: int,
    source: Seq<char>,
    name: Seq<char>,
) -> bool {
    is_local_declaration(t[i].kind) && binds_identifier(
        t,
        fields_of(t, i, "declarator"@),
        source,
        name,
    )
}

/// The names that the nodes `sites` bind.
pub open spec fn local_names(t: Seq<NodeView>, sites: Seq<int>, source: Seq<char>) -> Set<
    Seq<char>,
> {
    Set::new(
        |name: Seq<char>|
            exists|k: int|
                0 <= k < sites.len() && binds_locally(t, #[trigger] sites[k], source, name),
    )
}

/// Whether node `i` starts a nested scope.
fn starts_nested_scope(tree: &SyntaxTree, i: usize) -> (result: bool)
    requires
        i < tree@.len(),
    ensures
        result == is_nested_scope(tree@[i as int].kind),
{
    tree.is_kind(i, "lambda_expression") || tree.is_kind(i, "function_definition") || tree.is_kind(
        i,
        "class_specifier",
    ) || tree.is_kind(i, "struct_specifier") || tree.is_kind(i, "union_specifier")
}

/// Appends the nodes of the subtree of `root`, without those of nested functions, local classes
/// and lambdas.
fn body_visit(tree: &SyntaxTree, root: usize, nodes: &mut Vec<usize>)
    requires
        root < tree@.len(),
        forall|k: int| 0 <= k < old(nodes).len() ==> #[trigger] old(nodes)[k] < tree@.len(),
    ensures
        positions(final(nodes)@) == positions(old(nodes)@) + walked(tree@, root as int),
        forall|k: int| 0 <= k < final(nodes).len() ==> #[trigger] final(nodes)[k] < tree@.len(),
{
    let ghost t = tree@;
    let ghost all = positions(nodes@) + walked(t, root as int);
    let end = tree.end(root);
    let mut i = root;
    while i < end
        invariant
            t == tree@,
            root < t.len(),
            end == subtree_end(t, root as int),
            root <= i <= end <= t.len(),
            forall|k: int| 0 <= k < nodes.len() ==> #[trigger] nodes[k] < t.len(),
            all == positions(nodes@) + own_nodes(t, i as int, end as int),
        decreases end - i,
    {
        let ghost was = positions(nodes@);
        if starts_nested_scope(tree, i) {
            let next = tree.end(i);
            proof {
                if i > root {
                    lemma_nested(t, root as int, i as int);
                }
            }
            i = next;
        } else {
            nodes.push(i);
            assert(positions(nodes@) =~= was.push(i as int));
            assert(was + own_nodes(t, i as int, end as int) =~= positions(nodes@) + own_nodes(
                t,
                i + 1,
                end as int,
            ));
            i = i + 1;
        }
    }
    assert(all =~= positions(nodes@));
}

/// The nodes of a function's own code.
pub fn code_of(tree: &SyntaxTree, node: usize, body: usize) -> (code: Vec<usize>)
    requires
        node < tree@.len(),
        body < tree@.len(),
    ensures
        positions(code@) == code_nodes(tree@, node as int, body as int),
        forall|k: int| 0 <= k < code.len() ==> #[trigger] code[k] < tree@.len(),
{
    let ghost t = tree@;
    let mut code: Vec<usize> = Vec::new();
    body_visit(tree, body, &mut code);
    let named = tree.named(node);
    let ghost nodes = positions(named@);
    let ghost first = seq![body as int];
    let mut k: usize = 0;
    proof {
        let some = of_kind(t, nodes.take(0), "field_initializer_list"@);
        assert(nodes.take(0) =~= Seq::<int>::empty());
        assert((first + some).drop_last() =~= Seq::<int>::empty());
        assert((first + some).last() == body);
        assert(walked_all(t, Seq::<int>::empty()) =~= Seq::<int>::empty());
        assert(positions(code@) =~= walked_all(t, first + some));
    }
    while k < named.len()
        invariant
            t == tree@,
            nodes == positions(named@),
            first == seq![body as int],
            forall|j: int| 0 <= j < named.len() ==> #[trigger] named[j] < t.len(),
            forall|j: int| 0 <= j < code.len() ==> #[trigger] code[j] < t.len(),
            k <= named.len(),
            positions(code@) == walked_all(
                t,
                first + of_kind(t, nodes.take(k as int), "field_initializer_list"@),
            ),
        decreases named.len() - k,
    {
        proof {
            let some = of_kind(t, nodes.take(k as int), "field_initializer_list"@);
            assert(nodes.take(k + 1).drop_last() =~= nodes.take(k as int));
            assert(nodes.take(k + 1).last() == named@[k as int]);
            let more = first + some.push(named@[k as int] as int);
            assert(more.drop_last() =~= first + some);
            assert(more.last() == named@[k as int]);
        }
        if tree.is_kind(named[k], "field_initializer_list") {
            body_visit(tree, named[k], &mut code);
        }
        k = k + 1;
    }
    assert(nodes.take(named.len() as int) =~= nodes);
    code
}

/// What the nodes of a function bind.
pub struct LocalNames {
    names: StringHashSet,
    imports: bool,
}

impl LocalNames {
    /// The names that are bound.
    pub closed spec fn names(self) -> Set<Seq<char>> {
        self.names@
    }

    /// Whether local names are made to mean something else.
    pub closed spec fn imports(self) -> bool {
        self.imports
    }

    /// Whether `name` is bound.
    pub fn binds(&self, name: &str) -> (result: bool)
        ensures
            result == self.names().contains(name@),
    {
        self.names.contains(name)
    }

    /// Whether local names are made to mean something else.
    pub fn has_imports(&self) -> (result: bool)
        ensures
            result == self.imports(),
    {
        self.imports
    }

    /// Records what node `i` binds.
    fn record(&mut self, tree: &SyntaxTree, i: usize, source: &str)
        requires
            i < tree@.len(),
            fits(tree@, encode_utf8(source@)),
        ensures
            final(self).imports() == (old(self).imports() || is_local_import(
                tree@[i as int].kind,
            )),
            forall|name: Seq<char>| #[trigger]
                final(self).names().contains(name) <==> old(self).names().contains(name)
                    || binds_locally(tree@, i as int, source@, name),
    {
        let ghost t = tree@;
        let ghost before = self.names@;
        if tree.is_kind(i, "using_declaration") || tree.is_kind(i, "alias_declaration")
            || tree.is_kind(i, "type_definition") {
            self.imports = true;
        }
        if tree.is_kind(i, "parameter_declaration") || tree.is_kind(
            i,
            "optional_parameter_declaration",
        ) || tree.is_kind(i, "init_declarator") || tree.is_kind(i, "declaration") {
            let declarators = tree.fields(i, "declarator");
            let ghost nodes = positions(declarators@);
            let ghost imports = self.imports;
            let mut k: usize = 0;
            while k < declarators.len()
                invariant
                    t == tree@,
                    fits(t, encode_utf8(source@)),
                    nodes == positions(declarators@),
                    forall|j: int|
                        0 <= j < declarators.len() ==> #[trigger] declarators[j] < t.len(),
                    k <= declarators.len(),
                    self.imports == imports,
                    forall|name: Seq<char>| #[trigger]
                        self.names@.contains(name) <==> before.contains(name)
                            || binds_identifier(t, nodes.take(k as int), source@, name),
                decreases declarators.len() - k,
            {
                let ghost was = self.names@;
                let at = binding_node(tree, declarators[k]);
                if tree.is_kind(at, "identifier") {
                    self.names.insert(tree.text(at, source).to_owned());
                }
                proof {
                    let some = nodes.take(k as int);
                    let more = nodes.take(k + 1);
                    assert(more[k as int] == declarators@[k as int]);
                    assert forall|name: Seq<char>| #[trigger]
                        self.names@.contains(name) <==> before.contains(name)
                            || binds_identifier(t, more, source@, name) by {
                        assert(was.contains(name) <==> before.contains(name) || binds_identifier(
                            t,
                            some,
                            source@,
                            name,
                        ));
                        if binds_identifier(t, some, source@, name) {
                            let j = choose|j: int|
                                0 <= j < some.len() && t[bound_node(t, #[trigger] some[j])].kind
                                    == "identifier"@ && node_text(
                                    t,
                                    bound_node(t, some[j]),
                                    source@,
                                ) == name;
                            assert(more[j] == some[j]);
                        }
                        if binds_identifier(t, more, source@, name) {
                            let j = choose|j: int|
                                0 <= j < more.len() && t[bound_node(t, #[trigger] more[j])].kind
                                    == "identifier"@ && node_text(
                                    t,
                                    bound_node(t, more[j]),
                                    source@,
                                ) == name;
                            if j < k {
                                assert(some[j] == more[j]);
                            }
                        }
                        if t[at as int].kind == "identifier"@ && node_text(t, at as int, source@)
                            == name {
                            assert(t[bound_node(t, more[k as int])].kind == "identifier"@);
                        }
                    }
                }
                k = k + 1;
            }
            assert(nodes.take(declarators.len() as int) =~= nodes);
        }
    }

    /// What the parameters `parameters` and the code `code` of a function bind.
    pub fn collect(
        tree: &SyntaxTree,
        parameters: Option<usize>,
        code: &Vec<usize>,
        source: &str,
    ) -> (locals: LocalNames)
        requires
            parameters matches Some(p) ==> p < tree@.len(),
            forall|k: int| 0 <= k < code.len() ==> #[trigger] code[k] < tree@.len(),
            fits(tree@, encode_utf8(source@)),
        ensures
            locals.names() == local_names(
                tree@,
                binding_sites(tree@, position(parameters), positions(code@)),
                source@,
            ),
            locals.imports() == imports_locally(
                tree@,
                binding_sites(tree@, position(parameters), positions(code@)),
            ),
    {
        let ghost t = tree@;
        let ghost sites = binding_sites(t, position(parameters), positions(code@));
        let mut locals = LocalNames { names: StringHashSet::new(), imports: false };
        let ghost mut done: int = 0;
        assert(locals.names() =~= local_names(t, sites.take(0), source@));
        match parameters {
            Some(parameters) => {
                let end = tree.end(parameters);
                let mut i = parameters;
                while i < end
                    invariant
                        t == tree@,
                        fits(t, encode_utf8(source@)),
                        parameters < t.len(),
                        end == subtree_end(t, parameters as int),
                        parameters <= i <= end <= t.len(),
                        done == i - parameters,
                        sites == all_nodes(parameters as int, end as int) + positions(code@),
                        locals.names() == local_names(t, sites.take(done), source@),
                        locals.imports() == imports_locally(t, sites.take(done)),
                    decreases end - i,
                {
                    let ghost was = locals;
                    locals.record(tree, i, source);
                    proof {
                        assert(sites[done] == i);
                        lemma_recorded(t, sites, done, source@, was, locals);
                        done = done + 1;
                    }
                    i = i + 1;
                }
            },
            None => {},
        }
        let ghost offset = done;
        let mut k: usize = 0;
        while k < code.len()
            invariant
                t == tree@,
                fits(t, encode_utf8(source@)),
                forall|j: int| 0 <= j < code.len() ==> #[trigger] code[j] < t.len(),
                k <= code.len(),
                0 <= offset,
                sites.len() == offset + code.len(),
                forall|j: int|
                    0 <= j < code.len() ==> sites[offset + j] == #[trigger] code[j],
                locals.names() == local_names(t, sites.take(offset + k), source@),
                locals.imports() == imports_locally(t, sites.take(offset + k)),
            decreases code.len() - k,
        {
            let ghost was = locals;
            locals.record(tree, code[k], source);
            proof {
                assert(sites[offset + k] == code@[k as int]);
                lemma_recorded(t, sites, offset + k, source@, was, locals);
            }
            k = k + 1;
        }
        assert(sites.take(offset + code.len()) =~= sites);
        locals
    }
}

/// Recording one more site adds what it binds.
proof fn lemma_recorded(
    t: Seq<NodeView>,
    sites: Seq<int>,
    k: int,
    source: Seq<char>,
    before: LocalNames,
    after: LocalNames,
)
    requires
        0 <= k < sites.len(),
        before.names() == local_names(t, sites.take(k), source),
        before.imports() == imports_locally(t, sites.take(k)),
        after.imports() == (before.imports() || is_local_import(t[sites[k]].kind)),
        forall|name: Seq<char>| #[trigger]
            after.names().contains(name) <==> before.names().contains(name) || binds_locally(
                t,
                sites[k],
                source,
                name,
            ),
    ensures
        after.names() == local_names(t, sites.take(k + 1), source),
        after.imports() == imports_locally(t, sites.take(k + 1)),
{
    let some = sites.take(k);
    let more = sites.take(k + 1);
    assert(more[k] == sites[k]);
    assert forall|j: int| 0 <= j < k implies #[trigger] more[j] == some[j] by {}
    if imports_locally(t, some) {
        let j = choose|j: int| 0 <= j < some.len() && is_local_import(t[#[trigger] some[j]].kind);
        assert(is_local_import(t[more[j]].kind));
    }
    if is_local_import(t[sites[k]].kind) {
        assert(is_local_import(t[more[k]].kind));
    }
    if imports_locally(t, more) {
        let j = choose|j: int| 0 <= j < more.len() && is_local_import(t[#[trigger] more[j]].kind);
        if j < k {
            assert(is_local_import(t[some[j]].kind));
        }
    }
    assert forall|name: Seq<char>| #[trigger]
        after.names().contains(name) <==> local_names(t, more, source).contains(name) by {
        if before.names().contains(name) {
            let j = choose|j: int|
                0 <= j < some.len() && binds_locally(t, #[trigger] some[j], source, name);
            assert(binds_locally(t, more[j], source, name));
        }
        if binds_locally(t, sites[k], source, name) {
            assert(binds_locally(t, more[k], source, name));
        }
        if local_names(t, more, source).contains(name) {
            let j = choose|j: int|
                0 <= j < more.len() && binds_locally(t, #[trigger] more[j], source, name);
            if j < k {
                assert(binds_locally(t, some[j], source, name));
            }
        }
    }
    assert(after.names() =~= local_names(t, more, source));
}

} // verus!
