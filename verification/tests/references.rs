use pi_source_extractor::bodies::{code_of, LocalNames};
use pi_source_extractor::lookup::Context;
use pi_source_extractor::syntax::SyntaxTree;
use pi_source_extractor::{
    cpp_parser, extract, scope_index, unit, Extraction, Reference, Scope, Unit,
};

fn parse(source: &str) -> SyntaxTree {
    cpp_parser().unwrap().parse(source.as_bytes()).unwrap()
}

fn extraction(source: &str) -> Extraction {
    extract(&mut cpp_parser().unwrap(), source).unwrap()
}

fn find<'a>(extraction: &'a Extraction, name: &str) -> &'a Unit {
    extraction.units.iter().find(|u| u.name == name).unwrap()
}

fn qualifications(unit: &Unit) -> Vec<(&str, &str)> {
    unit.references.iter().map(|r| (r.name.as_str(), r.qualification.as_str())).collect()
}

fn named(name: &str, qualification: &str, qualifier: &[&str]) -> Reference {
    Reference {
        kind: "call".into(),
        name: name.into(),
        qualification: qualification.into(),
        qualifier: qualifier.iter().map(|s| s.to_string()).collect(),
        arguments: 0,
    }
}

#[test]
fn the_index_of_a_file() {
    let source = r#"
namespace N {
struct A : Base { void declared(); void defined() {} int field; };
using std::string;
typedef int number;
namespace M = Other::Deep;
void f() { int local; using X::y; }
}
union U {};
int global;
"#;
    let index = scope_index(&parse(source), source);
    assert_eq!(index.kind("N").as_deref(), Some("namespace"));
    assert_eq!(index.kind("N::A").as_deref(), Some("type"));
    assert_eq!(index.kind("U").as_deref(), Some("type"));
    assert_eq!(index.kind("A"), None);
    assert!(index.blocks("N::A", "declared"));
    assert!(index.blocks("N::A", "field"));
    assert!(!index.blocks("N::A", "defined"));
    assert!(index.blocks("N", "number"));
    assert!(index.blocks("N", "M"));
    assert!(index.blocks("", "global"));
    assert!(!index.blocks("N", "local"));
    assert!(index.is_uncertain("N"));
    assert!(!index.is_uncertain(""));
    assert!(index.is_uncertain("N::A"));
    assert!(index.defines("N::A", "defined"));
    assert!(!index.defines("N::A", "declared"));
    assert!(!index.defines("N", "f"));
}

#[test]
fn local_names_of_a_function() {
    let source = "void f(int a, int b = 1) { int c = 2, *d; auto g = [](int inner) { int e; }; }";
    let tree = parse(source);
    let body = tree.field(1, "body").unwrap();
    let code = code_of(&tree, 1, body);
    let declarator = tree.field(1, "declarator").unwrap();
    let parameters = tree.field(declarator, "parameters");
    let locals = LocalNames::collect(&tree, parameters, &code, source);
    for name in ["a", "b", "c", "d", "g"] {
        assert!(locals.binds(name), "{name}");
    }
    for name in ["f", "e", "inner"] {
        assert!(!locals.binds(name), "{name}");
    }
    assert!(!locals.has_imports());
    assert!(code.iter().all(|&i| tree.node(i).kind != "lambda_expression"));
    let without = LocalNames::collect(&tree, None, &code, source);
    assert!(!without.binds("a"));
    assert!(without.binds("c"));
}

#[test]
fn nested_functions_classes_and_lambdas_keep_their_references() {
    let source = r#"
void outer() {
    first();
    struct Local { void inner() { second(); } };
    auto run = [] { third(); };
    fourth();
}
"#;
    let out = extraction(source);
    assert_eq!(
        qualifications(find(&out, "outer")),
        [("first", "unqualified"), ("fourth", "unqualified")]
    );
    assert_eq!(qualifications(find(&out, "inner")), [("second", "unqualified")]);
    assert_eq!(find(&out, "inner").qualified_name, "Local::inner");
}

#[test]
fn a_reference_comes_once() {
    let out = extraction("void f() { g(1); g(2); g(1, 2); ::g(1); g(3); }");
    let found: Vec<_> = out.units[0]
        .references
        .iter()
        .map(|r| (r.qualification.as_str(), r.qualifier.len(), r.arguments))
        .collect();
    assert_eq!(found, [("unqualified", 0, 1), ("unqualified", 0, 2), ("qualified", 1, 1)]);
}

#[test]
fn resolving_makes_unsafe_references_unknown() {
    let source = "struct T { void declared(); void defined() {} }; namespace N { void g(); }";
    let tree = parse(source);
    let index = scope_index(&tree, source);
    let scope = vec![Scope { kind: "type".into(), name: "T".into() }];
    let locals = LocalNames::collect(&tree, None, &vec![], source);
    let context = Context { scope: &scope, index: &index, locals };
    assert!(context.is_blocked(&named("declared", "unqualified", &[])));
    assert!(context.is_blocked(&named("declared", "this", &[])));
    assert!(!context.is_blocked(&named("defined", "unqualified", &[])));
    assert!(!context.is_blocked(&named("other", "unqualified", &[])));
    assert!(context.is_blocked(&named("g", "qualified", &["N"])));
    assert!(context.is_blocked(&named("g", "qualified", &["", "N"])));
    assert!(!context.is_blocked(&named("h", "qualified", &["N"])));
    assert!(context.is_blocked(&named("declared", "qualified", &["T"])));
    assert!(!context.is_blocked(&named("declared", "unknown", &[])));
    let unknown = context.resolve(named("declared", "this", &[]));
    assert_eq!(unknown, named("declared", "unknown", &[]));
    assert_eq!(context.resolve(unknown), named("declared", "unknown", &[]));
    let known = named("defined", "this", &[]);
    assert_eq!(context.resolve(known.clone()), known);
}

#[test]
fn an_owner_that_is_not_known_blocks_every_reference() {
    let source = "void helper() {}";
    let tree = parse(source);
    let index = scope_index(&tree, source);
    let scope = vec![Scope { kind: "unknown".into(), name: "Owner".into() }];
    let locals = LocalNames::collect(&tree, None, &vec![], source);
    let context = Context { scope: &scope, index: &index, locals };
    for (qualification, qualifier) in [("unqualified", vec![]), ("qualified", vec!["N"])] {
        assert!(context.is_blocked(&named("helper", qualification, &qualifier)));
    }
}

#[test]
fn a_defined_member_hides_imports_outside_its_type() {
    let source = r#"
using namespace std;
struct Box {
    void clear() {}
    void work() { clear(); this->clear(); swap(); }
};
void free_function() { clear(); }
"#;
    let out = extraction(source);
    assert_eq!(
        qualifications(find(&out, "work")),
        [("clear", "unqualified"), ("clear", "this"), ("swap", "unknown")]
    );
    assert_eq!(qualifications(find(&out, "free_function")), [("clear", "unknown")]);
}

#[test]
fn an_import_in_the_body_blocks_every_reference() {
    let out = extraction("struct A { void m() {} void f() { using B::m; m(); this->m(); } };");
    let f = find(&out, "f");
    assert_eq!(qualifications(f), [("m", "unknown")]);
}

#[test]
fn base_classes_make_a_type_uncertain() {
    let out = extraction("struct A : B { void m() {} void f() { m(); C::g(); } };");
    assert!(find(&out, "f").references.iter().all(|r| r.qualification == "unknown"));
}

#[test]
fn written_qualifications_extend_the_scope() {
    let source = r#"
namespace N { struct T { T(); void m(); }; }
N::T::T() {}
namespace N { void T::m() {} void ::N::T::odd() {} }
void Gone::f() {}
template <class X> void List<X>::g() {}
"#;
    let out = extraction(source);
    let scope = |name: &str| {
        let unit = out.units.iter().find(|u| u.name == name).unwrap();
        let names: Vec<_> =
            unit.scope.iter().map(|s| (s.kind.clone(), s.name.clone())).collect();
        (names, unit.qualified_name.clone(), unit.kind.clone())
    };
    let pair = |kind: &str, name: &str| (kind.to_string(), name.to_string());
    let inside = vec![pair("namespace", "N"), pair("type", "T")];
    assert_eq!(scope("T"), (inside.clone(), "N::T::T".into(), "constructor".into()));
    assert_eq!(scope("m"), (inside.clone(), "N::T::m".into(), "function".into()));
    assert_eq!(scope("odd"), (inside, "N::T::odd".into(), "function".into()));
    assert_eq!(scope("f").0, [pair("unknown", "Gone")]);
    let (g, qualified, _) = scope("g");
    assert_eq!(g.len(), 1);
    assert_eq!(g[0].0, "unknown");
    assert!(g[0].1.starts_with("(unresolved@"));
    assert_eq!(qualified, format!("{}::g", g[0].1));
}

#[test]
fn void_parameters_are_none() {
    let out = extraction("int f(void) { return 1; } int g( void ) { return 1; }");
    assert_eq!((out.units[0].min_args, out.units[0].max_args), (Some(0), Some(0)));
    assert_eq!((out.units[1].min_args, out.units[1].max_args), (Some(1), Some(1)));
}

#[test]
fn constructions_in_a_body() {
    let source = "T f() { A{1, 2}; B b(1); C c{}; D d; E* e; G h, *i; return {1}; }";
    let out = extraction(source);
    let found: Vec<_> = out.units[0]
        .references
        .iter()
        .map(|r| (r.kind.as_str(), r.name.as_str(), r.arguments))
        .collect();
    assert_eq!(
        found,
        [
            ("construct", "A", 2),
            ("construct", "B", 1),
            ("construct", "C", 0),
            ("construct", "D", 0),
            ("construct", "G", 0),
            ("construct", "T", 1)
        ]
    );
}

#[test]
fn a_unit_takes_the_name_and_the_lines_that_it_is_given() {
    let source = "struct S { S() { go(); } };";
    let tree = parse(source);
    let node = (0..tree.len()).find(|&i| tree.node(i).kind == "function_definition").unwrap();
    let index = scope_index(&tree, source);
    let own = unit(&tree, node, source, &index, "S".to_string(), 4, 9);
    assert_eq!((own.line, own.end), (4, 9));
    assert_eq!((own.kind.as_str(), own.qualified_name.as_str()), ("constructor", "S::S"));
    let other = unit(&tree, node, source, &index, "R".to_string(), 1, 1);
    assert_eq!((other.kind.as_str(), other.qualified_name.as_str()), ("function", "S::R"));
    assert_eq!(own.references, other.references);
    assert_eq!(own.clone(), own);
}

#[test]
fn a_walk_visits_every_node_outside_nested_scopes_once() {
    let source = "void f() { a(); { auto g = [] { b(); }; struct S { int c; }; } d(1); }";
    let tree = parse(source);
    let body = tree.field(1, "body").unwrap();
    let nested = ["lambda_expression", "function_definition", "struct_specifier"];
    let expected: Vec<_> = (body..tree.end(body))
        .filter(|&k| {
            (body..=k).all(|j| !nested.contains(&tree.node(j).kind.as_str()) || tree.end(j) <= k)
        })
        .collect();
    assert_eq!(code_of(&tree, 1, body), expected);
    assert!(expected.len() < tree.end(body) - body);
}
