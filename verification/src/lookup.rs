//! Which references are known to mean what is written, and which may mean something else.
use vstd::prelude::*;
use crate::bodies::LocalNames;
use crate::metadata::{
    path_of, prefix_path, scope_names, scope_path, scope_views, Reference, ReferenceView, Scope,
    ScopeView,
};
use crate::scopes::{ScopeIndex, ScopeIndexView};
use crate::text::{join_next, joined, lemma_joined_push, same_text, separator, texts};

verus! {

/// What surrounds the code of a function, mathematically.
pub struct ContextView {
    /// The scope of the function, outermost first.
    pub scope: Seq<ScopeView>,
    /// What each scope of the file declares.
    pub index: ScopeIndexView,
    /// The names that the function binds.
    pub locals: Set<Seq<char>>,
    /// Whether the function makes local names mean something else.
    pub imports: bool,
}

/// What surrounds the code of a function.
pub struct Context<'a> {
    pub scope: &'a Vec<Scope>,
    pub index: &'a ScopeIndex,
    pub locals: LocalNames,
}

impl<'a> View for Context<'a> {
    type V = ContextView;

    open spec fn view(&self) -> ContextView {
        ContextView {
            scope: scope_views(self.scope@),
            index: self.index@,
            locals: self.locals.names(),
            imports: self.locals.imports(),
        }
    }
}

impl ContextView {
    /// The path of the `i` outermost scopes.
    pub open spec fn prefix(self, i: int) -> Seq<char> {
        path_of(self.scope.take(i))
    }

    /// Whether some scope around the function is not known.
    pub open spec fn has_unknown_scope(self) -> bool {
        exists|i: int| 0 <= i < self.scope.len() && (#[trigger] self.scope[i]).kind == "unknown"@
    }

    /// Whether some scope around the function may hold names that the file does not show.
    pub open spec fn is_uncertain(self) -> bool {
        ||| self.has_unknown_scope()
        ||| exists|i: int|
            0 <= i <= self.scope.len() && self.index.uncertain.contains(#[trigger] self.prefix(i))
    }

    /// Whether `name` is bound locally or declared, without a definition, around the function.
    pub open spec fn shadows(self, name: Seq<char>) -> bool {
        ||| self.locals.contains(name)
        ||| exists|i: int|
            0 <= i <= self.scope.len() && self.index.blocked.contains(
                (#[trigger] self.prefix(i), name),
            )
    }

    /// Whether `name` is a member that the type of the function defines, so that it hides every
    /// name from outside the type.
    pub open spec fn is_known_member(self, name: Seq<char>) -> bool {
        &&& self.scope.len() > 0
        &&& self.scope.last().kind == "type"@
        &&& !self.has_unknown_scope()
        &&& !self.index.uncertain.contains(path_of(self.scope))
        &&& self.index.members.contains((path_of(self.scope), name))
    }

    /// Whether a type named `name`, in a scope around the function, declares a constructor.
    pub open spec fn declares_constructor(self, name: Seq<char>) -> bool {
        exists|i: int|
            0 <= i <= self.scope.len() && self.index.blocked.contains(
                (#[trigger] joined(scope_names(self.scope.take(i)).push(name)), name),
            )
    }

    /// The path that `qualifier` has where it is looked up in the `i` outermost scopes.
    pub open spec fn qualified_path(self, i: int, qualifier: Seq<Seq<char>>) -> Seq<char> {
        joined(scope_names(self.scope.take(i)) + nonempty(qualifier))
    }

    /// Whether `name` in the scope with the path `path` may be something that the file does not
    /// define.
    pub open spec fn hides(self, path: Seq<char>, name: Seq<char>) -> bool {
        ||| self.index.uncertain.contains(path)
        ||| self.index.blocked.contains((path, name))
        ||| self.index.blocked.contains((member_path(path, name), name))
    }

    /// Whether the qualified name of `qualifier` and `name` may mean something that the file does
    /// not define. A qualifier that starts with the empty name is looked up at the top only.
    pub open spec fn hides_qualified(self, qualifier: Seq<Seq<char>>, name: Seq<char>) -> bool {
        let absolute = is_absolute(qualifier);
        let most = if absolute {
            0
        } else {
            self.scope.len() as int
        };
        ||| !absolute && qualifier.len() > 0 && self.shadows(qualifier[0])
        ||| exists|i: int|
            0 <= i <= most && self.hides(#[trigger] self.qualified_path(i, qualifier), name)
    }

    /// Whether the reference `r` may mean something else than what it names.
    pub open spec fn is_blocked(self, r: ReferenceView) -> bool {
        let by_name = r.qualification == "unqualified"@ || r.qualification == "this"@;
        let known_member = by_name && self.is_known_member(r.name);
        ||| r.qualification != "unknown"@ && (self.imports || self.is_uncertain() && !known_member)
        ||| by_name && (self.shadows(r.name) || self.declares_constructor(r.name))
        ||| r.qualification == "qualified"@ && self.hides_qualified(r.qualifier, r.name)
    }

    /// The reference `r` with the qualification that is known of it.
    pub open spec fn resolved(self, r: ReferenceView) -> ReferenceView {
        if self.is_blocked(r) {
            ReferenceView { qualification: "unknown"@, ..r }
        } else {
            r
        }
    }
}

/// A qualifier that starts at the global namespace.
pub open spec fn is_absolute(qualifier: Seq<Seq<char>>) -> bool {
    qualifier.len() > 0 && qualifier[0].len() == 0
}

/// The names that are not empty.
pub open spec fn nonempty(names: Seq<Seq<char>>) -> Seq<Seq<char>>
    decreases names.len(),
{
    if names.len() == 0 {
        Seq::empty()
    } else if names.last().len() > 0 {
        nonempty(names.drop_last()).push(names.last())
    } else {
        nonempty(names.drop_last())
    }
}

/// The path of `name` in the scope with the path `path`.
pub open spec fn member_path(path: Seq<char>, name: Seq<char>) -> Seq<char> {
    if path.len() == 0 {
        name
    } else {
        path + separator() + name
    }
}

/// Whether a text is empty.
fn is_empty(text: &str) -> (result: bool)
    ensures
        result == (text@.len() == 0),
{
    proof {
        reveal_strlit("");
        assert(""@ =~= Seq::<char>::empty());
    }
    let result = same_text(text, "");
    assert(text@.len() == 0 ==> text@ =~= Seq::<char>::empty());
    result
}

/// The path of the `n` outermost scopes followed by the names of `qualifier` that are not empty.
fn extended_path(scope: &Vec<Scope>, n: usize, qualifier: &Vec<String>) -> (path: String)
    requires
        n <= scope.len(),
    ensures
        path@ == joined(
            scope_names(scope_views(scope@).take(n as int)) + nonempty(texts(qualifier@)),
        ),
{
    let mut path = prefix_path(scope.as_slice(), n);
    let ghost outer = scope_names(scope_views(scope@).take(n as int));
    let ghost names = texts(qualifier@);
    let mut first = n == 0;
    let mut k: usize = 0;
    assert(names.take(0) =~= Seq::<Seq<char>>::empty());
    assert(outer + nonempty(names.take(0)) =~= outer);
    while k < qualifier.len()
        invariant
            names == texts(qualifier@),
            k <= qualifier.len(),
            path@ == joined(outer + nonempty(names.take(k as int))),
            first == ((outer + nonempty(names.take(k as int))).len() == 0),
        decreases qualifier.len() - k,
    {
        let ghost some = names.take(k as int);
        let ghost more = names.take(k + 1);
        assert(more.drop_last() =~= some);
        assert(more.last() == names[k as int]);
        if !is_empty(qualifier[k].as_str()) {
            join_next(&mut path, first, qualifier[k].as_str());
            first = false;
            proof {
                lemma_joined_push(outer + nonempty(some), names[k as int]);
                assert(outer + nonempty(more) =~= (outer + nonempty(some)).push(
                    names[k as int],
                ));
            }
        }
        k = k + 1;
    }
    assert(names.take(qualifier.len() as int) =~= names);
    path
}

impl<'a> Context<'a> {
    /// Whether the tables behind the context are well formed.
    pub open spec fn wf(self) -> bool {
        self.index.wf()
    }

    /// The path of the `n` outermost scopes.
    fn prefix(&self, n: usize) -> (path: String)
        requires
            n <= self.scope.len(),
        ensures
            path@ == self@.prefix(n as int),
    {
        prefix_path(self.scope.as_slice(), n)
    }

    /// Whether some scope around the function is not known.
    fn has_unknown_scope(&self) -> (result: bool)
        ensures
            result == self@.has_unknown_scope(),
    {
        let mut i: usize = 0;
        while i < self.scope.len()
            invariant
                i <= self.scope.len(),
                forall|j: int| 0 <= j < i ==> (#[trigger] self@.scope[j]).kind != "unknown"@,
            decreases self.scope.len() - i,
        {
            assert(self@.scope[i as int] == self.scope@[i as int]@);
            if same_text(self.scope[i].kind.as_str(), "unknown") {
                return true;
            }
            i = i + 1;
        }
        false
    }

    /// Whether some scope around the function may hold names that the file does not show.
    fn is_uncertain(&self) -> (result: bool)
        ensures
            result == self@.is_uncertain(),
    {
        if self.has_unknown_scope() {
            return true;
        }
        let n = self.scope.len();
        let mut i: usize = n;
        loop
            invariant
                !self@.has_unknown_scope(),
                n == self.scope.len(),
                i <= n,
                forall|j: int|
                    i < j <= n ==> !self@.index.uncertain.contains(#[trigger] self@.prefix(j)),
            decreases i,
        {
            if self.index.is_uncertain(self.prefix(i).as_str()) {
                return true;
            }
            if i == 0 {
                return false;
            }
            i = i - 1;
        }
    }

    /// Whether `name` is bound locally or declared around the function.
    fn shadows(&self, name: &str) -> (result: bool)
        requires
            self.wf(),
        ensures
            result == self@.shadows(name@),
    {
        if self.locals.binds(name) {
            return true;
        }
        let n = self.scope.len();
        let mut i: usize = n;
        loop
            invariant
                self.wf(),
                !self@.locals.contains(name@),
                n == self.scope.len(),
                i <= n,
                forall|j: int|
                    i < j <= n ==> !self@.index.blocked.contains(
                        (#[trigger] self@.prefix(j), name@),
                    ),
            decreases i,
        {
            if self.index.blocks(self.prefix(i).as_str(), name) {
                return true;
            }
            if i == 0 {
                return false;
            }
            i = i - 1;
        }
    }

    /// Whether `name` is a member that the type of the function defines.
    fn is_known_member(&self, name: &str) -> (result: bool)
        requires
            self.wf(),
        ensures
            result == self@.is_known_member(name@),
    {
        let n = self.scope.len();
        if n == 0 {
            return false;
        }
        assert(self@.scope.last() == self.scope@[n - 1]@);
        if !same_text(self.scope[n - 1].kind.as_str(), "type") || self.has_unknown_scope() {
            return false;
        }
        let own = scope_path(self.scope.as_slice());
        !self.index.is_uncertain(own.as_str()) && self.index.defines(own.as_str(), name)
    }

    /// Whether a type named `name`, in a scope around the function, declares a constructor.
    fn declares_constructor(&self, name: &str) -> (result: bool)
        requires
            self.wf(),
        ensures
            result == self@.declares_constructor(name@),
    {
        let n = self.scope.len();
        let mut i: usize = n;
        loop
            invariant
                self.wf(),
                n == self.scope.len(),
                i <= n,
                forall|j: int|
                    i < j <= n ==> !self@.index.blocked.contains(
                        (#[trigger] joined(scope_names(self@.scope.take(j)).push(name@)), name@),
                    ),
            decreases i,
        {
            let mut path = self.prefix(i);
            join_next(&mut path, i == 0, name);
            proof {
                lemma_joined_push(scope_names(self@.scope.take(i as int)), name@);
            }
            if self.index.blocks(path.as_str(), name) {
                return true;
            }
            if i == 0 {
                return false;
            }
            i = i - 1;
        }
    }

    /// Whether `name` in the scope with the path `path` may be something else.
    fn hides(&self, path: &str, name: &str) -> (result: bool)
        requires
            self.wf(),
        ensures
            result == self@.hides(path@, name@),
    {
        if self.index.is_uncertain(path) || self.index.blocks(path, name) {
            return true;
        }
        let mut member = path.to_owned();
        let first = is_empty(path);
        join_next(&mut member, first, name);
        assert(member@ =~= member_path(path@, name@));
        self.index.blocks(member.as_str(), name)
    }

    /// Whether the qualified name of `qualifier` and `name` may mean something else.
    fn hides_qualified(&self, qualifier: &Vec<String>, name: &str) -> (result: bool)
        requires
            self.wf(),
        ensures
            result == self@.hides_qualified(texts(qualifier@), name@),
    {
        let ghost names = texts(qualifier@);
        assert(qualifier.len() > 0 ==> names[0] == qualifier@[0]@);
        let absolute = qualifier.len() > 0 && is_empty(qualifier[0].as_str());
        if !absolute && qualifier.len() > 0 && self.shadows(qualifier[0].as_str()) {
            return true;
        }
        let most = if absolute {
            0
        } else {
            self.scope.len()
        };
        let mut i: usize = most;
        loop
            invariant
                self.wf(),
                names == texts(qualifier@),
                absolute == is_absolute(names),
                most == if absolute {
                    0
                } else {
                    self.scope.len()
                },
                i <= most,
                !absolute && names.len() > 0 ==> !self@.shadows(names[0]),
                forall|j: int|
                    i < j <= most ==> !self@.hides(
                        #[trigger] self@.qualified_path(j, names),
                        name@,
                    ),
            decreases i,
        {
            let path = extended_path(self.scope, i, qualifier);
            assert(path@ == self@.qualified_path(i as int, names));
            if self.hides(path.as_str(), name) {
                return true;
            }
            if i == 0 {
                return false;
            }
            i = i - 1;
        }
    }

    /// Whether the reference `r` may mean something else than what it names.
    pub fn is_blocked(&self, r: &Reference) -> (result: bool)
        requires
            self.wf(),
        ensures
            result == self@.is_blocked(r@),
    {
        let name = r.name.as_str();
        let unqualified = same_text(r.qualification.as_str(), "unqualified");
        let by_name = unqualified || same_text(r.qualification.as_str(), "this");
        if !same_text(r.qualification.as_str(), "unknown") {
            if self.locals.has_imports() {
                return true;
            }
            let known_member = by_name && self.is_known_member(name);
            if !known_member && self.is_uncertain() {
                return true;
            }
        }
        if by_name {
            proof {
                reveal_strlit("unqualified");
                reveal_strlit("this");
                reveal_strlit("qualified");
                assert("unqualified"@.len() == 11 && "this"@.len() == 4 && "qualified"@.len() == 9);
            }
            self.shadows(name) || self.declares_constructor(name)
        } else if same_text(r.qualification.as_str(), "qualified") {
            self.hides_qualified(&r.qualifier, name)
        } else {
            false
        }
    }

    /// The reference `r` with the qualification that is known of it.
    pub fn resolve(&self, r: Reference) -> (result: Reference)
        requires
            self.wf(),
        ensures
            result@ == self@.resolved(r@),
    {
        let mut result = r;
        if self.is_blocked(&result) {
            result.qualification = "unknown".to_owned();
        }
        result
    }
}

} // verus!
