//! Which references are taken for what they name, said of the index, the scope and the local names.
use vstd::prelude::*;
use crate::lookup::{member_path, nonempty, ContextView};
use crate::metadata::{path_of, scope_names, ReferenceView, ScopeView};
use crate::scopes::ScopeIndexView;
use crate::text::joined;

verus! {

/// The names of the `i` outermost scopes.
pub open spec fn outer_names(scope: Seq<ScopeView>, i: int) -> Seq<Seq<char>> {
    Seq::new(i as nat, |k: int| scope[k].name)
}

proof fn lemma_outer_names(scope: Seq<ScopeView>, i: int)
    requires
        0 <= i <= scope.len(),
    ensures
        scope_names(scope.take(i)) == outer_names(scope, i),
        path_of(scope.take(i)) == joined(outer_names(scope, i)),
        i == scope.len() ==> path_of(scope) == joined(outer_names(scope, i)),
{
    assert(scope_names(scope.take(i)) =~= outer_names(scope, i));
    if i == scope.len() {
        assert(scope.take(i) =~= scope);
    }
}

/// A name that is bound in the function, or that a scope around it, the outermost and its own among
/// them, declares without a definition, is unknown. So is a name whose qualifier starts with such a
/// name, unless the qualifier starts at the global namespace.
pub proof fn law_declared_names_are_unknown(context: ContextView, r: ReferenceView, i: int)
    requires
        0 <= i <= context.scope.len(),
    ensures
        (r.qualification == "unqualified"@ || r.qualification == "this"@) && (
        context.locals.contains(r.name) || context.index.blocked.contains(
            (joined(outer_names(context.scope, i)), r.name),
        )) ==> context.resolved(r).qualification == "unknown"@,
        r.qualification == "qualified"@ && r.qualifier.len() > 0 && r.qualifier[0].len() > 0 && (
        context.locals.contains(r.qualifier[0]) || context.index.blocked.contains(
            (joined(outer_names(context.scope, i)), r.qualifier[0]),
        )) ==> context.resolved(r).qualification == "unknown"@,
{
    lemma_outer_names(context.scope, i);
    let path = context.prefix(i);
    assert(path == joined(outer_names(context.scope, i)));
    if context.index.blocked.contains((path, r.name)) {
        assert(context.shadows(r.name));
    }
    if r.qualifier.len() > 0 && context.index.blocked.contains((path, r.qualifier[0])) {
        assert(context.shadows(r.qualifier[0]));
    }
}

/// An import in the function, an owner that is not known, or a scope around the function that sees
/// names from elsewhere makes every reference unknown, but for a name that the type of the function
/// defines as its member.
pub proof fn law_imports_make_names_unknown(context: ContextView, r: ReferenceView, i: int)
    ensures
        context.imports ==> context.resolved(r).qualification == "unknown"@,
        0 <= i < context.scope.len() && context.scope[i].kind == "unknown"@ ==> context.resolved(
            r,
        ).qualification == "unknown"@,
        ({
            let own = (joined(outer_names(context.scope, context.scope.len() as int)), r.name);
            &&& 0 <= i <= context.scope.len()
            &&& context.index.uncertain.contains(joined(outer_names(context.scope, i)))
            &&& !context.index.members.contains(own) || (r.qualification != "unqualified"@
                && r.qualification != "this"@) || i == context.scope.len()
        }) ==> context.resolved(r).qualification == "unknown"@,
        ({
            &&& 0 <= i <= context.scope.len()
            &&& context.index.uncertain.contains(joined(outer_names(context.scope, i)))
            &&& context.scope.len() == 0 || context.scope.last().kind != "type"@
        }) ==> context.resolved(r).qualification == "unknown"@,
{
    if 0 <= i < context.scope.len() && context.scope[i].kind == "unknown"@ {
        assert(context.has_unknown_scope());
    }
    lemma_outer_names(context.scope, context.scope.len() as int);
    if 0 <= i <= context.scope.len() {
        lemma_outer_names(context.scope, i);
        if context.index.uncertain.contains(context.prefix(i)) {
            assert(context.is_uncertain());
        }
    }
}

/// A construction, or a call, of a name is unknown where a type of that name around the function
/// declares, without a definition, something of that name: a constructor.
pub proof fn law_declared_constructors_are_unknown(context: ContextView, r: ReferenceView, i: int)
    requires
        r.qualification == "unqualified"@ || r.qualification == "this"@,
        0 <= i <= context.scope.len(),
        context.index.blocked.contains(
            (joined(outer_names(context.scope, i).push(r.name)), r.name),
        ),
    ensures
        context.resolved(r).qualification == "unknown"@,
{
    lemma_outer_names(context.scope, i);
    assert(context.index.blocked.contains(
        (joined(scope_names(context.scope.take(i)).push(r.name)), r.name),
    ));
    assert(context.declares_constructor(r.name));
}

proof fn lemma_nonempty(names: Seq<Seq<char>>)
    ensures
        (forall|k: int| 0 <= k < names.len() ==> (#[trigger] names[k]).len() > 0) ==> nonempty(
            names,
        ) == names,
        names.len() > 0 && names[0].len() == 0 && (forall|k: int|
            0 < k < names.len() ==> (#[trigger] names[k]).len() > 0) ==> nonempty(names)
            == names.drop_first(),
    decreases names.len(),
{
    if names.len() > 0 {
        let some = names.drop_last();
        lemma_nonempty(some);
        if forall|k: int| 0 <= k < names.len() ==> (#[trigger] names[k]).len() > 0 {
            assert forall|k: int| 0 <= k < some.len() implies (#[trigger] some[k]).len() > 0 by {
                assert(some[k] == names[k]);
            }
            assert(names[names.len() - 1].len() > 0);
            assert(nonempty(names) =~= names);
        }
        if names[0].len() == 0 && (forall|k: int|
            0 < k < names.len() ==> (#[trigger] names[k]).len() > 0) {
            if names.len() > 1 {
                assert(some[0] == names[0]);
                assert forall|k: int| 0 < k < some.len() implies (#[trigger] some[k]).len() > 0 by {
                    assert(some[k] == names[k]);
                }
                assert(names[names.len() - 1].len() > 0);
            } else {
                assert(some =~= Seq::<Seq<char>>::empty());
            }
            assert(nonempty(names) =~= names.drop_first());
        }
    } else {
        assert(nonempty(names) =~= names);
    }
}

/// The names of a qualifier without the empty name that stands for the global namespace.
pub open spec fn plain_names(qualifier: Seq<Seq<char>>) -> Seq<Seq<char>> {
    if qualifier.len() > 0 && qualifier[0].len() == 0 {
        qualifier.drop_first()
    } else {
        qualifier
    }
}

/// A qualified name is unknown where the scope that its qualifier names, looked up in any scope
/// around the function, or only at the top where it starts there, sees names from elsewhere,
/// declares the name without a definition, or has a type of that name that declares a constructor.
pub proof fn law_declared_qualified_names_are_unknown(
    context: ContextView,
    r: ReferenceView,
    i: int,
)
    requires
        r.qualification == "qualified"@,
        r.qualifier.len() > 0,
        forall|k: int| 0 < k < r.qualifier.len() ==> (#[trigger] r.qualifier[k]).len() > 0,
        0 <= i <= context.scope.len(),
        r.qualifier[0].len() == 0 ==> i == 0,
        ({
            let names = outer_names(context.scope, i) + plain_names(r.qualifier);
            ||| context.index.uncertain.contains(joined(names))
            ||| context.index.blocked.contains((joined(names), r.name))
            ||| joined(names).len() > 0 && context.index.blocked.contains(
                (joined(names) + seq![':', ':'] + r.name, r.name),
            )
            ||| names.len() == 0 && context.index.blocked.contains((r.name, r.name))
        }),
    ensures
        context.resolved(r).qualification == "unknown"@,
{
    lemma_outer_names(context.scope, i);
    lemma_nonempty(r.qualifier);
    assert(nonempty(r.qualifier) == plain_names(r.qualifier)) by {
        if r.qualifier[0].len() > 0 {
            assert forall|k: int| 0 <= k < r.qualifier.len() implies (
            #[trigger] r.qualifier[k]).len() > 0 by {}
        }
    }
    let names = outer_names(context.scope, i) + plain_names(r.qualifier);
    let path = context.qualified_path(i, r.qualifier);
    assert(path == joined(names));
    assert(context.hides(path, r.name));
    assert(context.hides_qualified(r.qualifier, r.name));
}

/// Whether something may give a reference another meaning than what it names.
pub open spec fn is_in_doubt(
    scope: Seq<ScopeView>,
    index: ScopeIndexView,
    locals: Set<Seq<char>>,
    imports: bool,
    r: ReferenceView,
) -> bool {
    let by_name = r.qualification == "unqualified"@ || r.qualification == "this"@;
    let own = joined(outer_names(scope, scope.len() as int));
    let known = by_name && scope.len() > 0 && scope.last().kind == "type"@
        && !index.uncertain.contains(own) && index.members.contains((own, r.name));
    ||| imports
    ||| exists|i: int| 0 <= i < scope.len() && (#[trigger] scope[i]).kind == "unknown"@
    ||| exists|i: int|
        0 <= i <= scope.len() && {
            let names = #[trigger] outer_names(scope, i);
            ||| !known && index.uncertain.contains(joined(names))
            ||| by_name && (locals.contains(r.name) || index.blocked.contains(
                (joined(names), r.name),
            ) || index.blocked.contains((joined(names.push(r.name)), r.name)))
            ||| r.qualification == "qualified"@ && r.qualifier.len() > 0 && r.qualifier[0].len()
                > 0 && (locals.contains(r.qualifier[0]) || index.blocked.contains(
                (joined(names), r.qualifier[0]),
            ))
            ||| r.qualification == "qualified"@ && (i == 0 || r.qualifier.len() == 0
                || r.qualifier[0].len() > 0) && {
                let path = joined(names + plain_names(r.qualifier));
                ||| index.uncertain.contains(path)
                ||| index.blocked.contains((path, r.name))
                ||| path.len() > 0 && index.blocked.contains(
                    (path + seq![':', ':'] + r.name, r.name),
                )
                ||| path.len() == 0 && index.blocked.contains((r.name, r.name))
            }
        }
}

/// A reference of which nothing is in doubt is taken for what it names.
pub proof fn law_clear_references_stay(context: ContextView, r: ReferenceView)
    requires
        forall|k: int| 0 < k < r.qualifier.len() ==> (#[trigger] r.qualifier[k]).len() > 0,
        !is_in_doubt(context.scope, context.index, context.locals, context.imports, r),
    ensures
        context.resolved(r) == r,
{
    let scope = context.scope;
    let n = scope.len() as int;
    lemma_outer_names(scope, n);
    lemma_nonempty(r.qualifier);
    assert(nonempty(r.qualifier) == plain_names(r.qualifier)) by {
        if r.qualifier.len() > 0 && r.qualifier[0].len() > 0 {
            assert forall|k: int| 0 <= k < r.qualifier.len() implies (
            #[trigger] r.qualifier[k]).len() > 0 by {}
        }
        if r.qualifier.len() == 0 {
            assert(nonempty(r.qualifier) =~= r.qualifier);
        }
    }
    assert(!context.has_unknown_scope());
    assert forall|i: int| 0 <= i <= n implies #[trigger] context.prefix(i) == joined(
        outer_names(scope, i),
    ) by {
        lemma_outer_names(scope, i);
    }
    let by_name = r.qualification == "unqualified"@ || r.qualification == "this"@;
    if context.is_blocked(r) {
        if by_name && context.shadows(r.name) {
            if context.locals.contains(r.name) {
                let names = outer_names(scope, 0);
                assert(false);
            }
            let i = choose|i: int|
                0 <= i <= n && context.index.blocked.contains(
                    (#[trigger] context.prefix(i), r.name),
                );
            let names = outer_names(scope, i);
            assert(false);
        }
        if by_name && context.declares_constructor(r.name) {
            let i = choose|i: int|
                0 <= i <= n && context.index.blocked.contains(
                    (#[trigger] joined(scope_names(scope.take(i)).push(r.name)), r.name),
                );
            lemma_outer_names(scope, i);
            let names = outer_names(scope, i);
            assert(false);
        }
        if context.is_uncertain() && !(by_name && context.is_known_member(r.name)) {
            let i = choose|i: int|
                0 <= i <= n && context.index.uncertain.contains(#[trigger] context.prefix(i));
            let names = outer_names(scope, i);
            assert(false);
        }
        assert(r.qualification == "qualified"@ && context.hides_qualified(r.qualifier, r.name));
        let absolute = r.qualifier.len() > 0 && r.qualifier[0].len() == 0;
        if !absolute && r.qualifier.len() > 0 && context.shadows(r.qualifier[0]) {
            if context.locals.contains(r.qualifier[0]) {
                let names = outer_names(scope, 0);
                assert(false);
            }
            let i = choose|i: int|
                0 <= i <= n && context.index.blocked.contains(
                    (#[trigger] context.prefix(i), r.qualifier[0]),
                );
            let names = outer_names(scope, i);
            assert(false);
        }
        let most = if absolute {
            0
        } else {
            n
        };
        let i = choose|i: int|
            0 <= i <= most && context.hides(
                #[trigger] context.qualified_path(i, r.qualifier),
                r.name,
            );
        lemma_outer_names(scope, i);
        let names = outer_names(scope, i);
        assert(context.qualified_path(i, r.qualifier) == joined(
            names + plain_names(r.qualifier),
        ));
        assert(member_path(joined(names + plain_names(r.qualifier)), r.name) == if joined(
            names + plain_names(r.qualifier),
        ).len() == 0 {
            r.name
        } else {
            joined(names + plain_names(r.qualifier)) + seq![':', ':'] + r.name
        });
        assert(false);
    }
}

} // verus!
