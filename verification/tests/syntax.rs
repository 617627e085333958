use pi_source_extractor::cpp_parser;
use pi_source_extractor::declarators::{binding_name, binding_node, function_declarator, name_of};
use pi_source_extractor::metadata::lexical_scope;
use pi_source_extractor::references::{arguments, arity, candidate, reference};
use pi_source_extractor::signatures::recoverable_signature;
use pi_source_extractor::syntax::{SyntaxNode, SyntaxTree};

fn parse(source: &str) -> SyntaxTree {
    cpp_parser().unwrap().parse(source.as_bytes()).unwrap()
}

fn find(tree: &SyntaxTree, kind: &str) -> usize {
    (0..tree.len()).find(|&i| tree.node(i).kind == kind).unwrap()
}

fn node(kind: &str, field: Option<&str>, depth: usize, range: (usize, usize)) -> SyntaxNode {
    SyntaxNode {
        kind: kind.into(),
        field: field.map(str::to_string),
        named: true,
        error: false,
        missing: false,
        has_error: false,
        start_byte: range.0,
        end_byte: range.1,
        start_row: 0,
        end_row: 0,
        depth,
    }
}

/// A function `T f(P) {}` with one node of the given kind in its parameters.
fn signature(kind: &str, around: &str, missing: bool, error: bool) -> Vec<SyntaxNode> {
    let mut issue = node(kind, None, 4, (6, 6));
    issue.missing = missing;
    issue.error = error;
    issue.has_error = missing || error;
    vec![
        node("function_definition", None, 0, (0, 10)),
        node("type_identifier", Some("type"), 1, (0, 1)),
        node("function_declarator", Some("declarator"), 1, (2, 7)),
        node("parameter_list", Some("parameters"), 2, (3, 7)),
        node(around, None, 3, (5, 6)),
        issue,
        node("compound_statement", Some("body"), 1, (8, 10)),
    ]
}

#[test]
fn depths_decide_whether_nodes_make_a_tree() {
    assert!(SyntaxTree::new(vec![]).is_none());
    assert!(SyntaxTree::new(vec![node("a", None, 1, (0, 0))]).is_none());
    let two_roots = vec![node("a", None, 0, (0, 0)), node("b", None, 0, (0, 0))];
    assert!(SyntaxTree::new(two_roots).is_none());
    let jump = vec![node("a", None, 0, (0, 0)), node("b", None, 2, (0, 0))];
    assert!(SyntaxTree::new(jump).is_none());
    assert!(SyntaxTree::new(vec![node("a", None, 0, (0, 0))]).is_some());
}

#[test]
fn relatives_of_a_node() {
    let mut comment = node("comment", None, 1, (3, 4));
    comment.named = false;
    let tree = SyntaxTree::new(vec![
        node("root", None, 0, (0, 6)),
        node("left", Some("side"), 1, (0, 3)),
        node("leaf", None, 2, (1, 3)),
        comment,
        node("right", Some("side"), 1, (4, 6)),
    ])
    .unwrap();
    assert_eq!(tree.len(), 5);
    assert_eq!(tree.children(0), [1, 3, 4]);
    assert_eq!(tree.named(0), [1, 4]);
    assert_eq!(tree.fields(0, "side"), [1, 4]);
    assert_eq!(tree.field(0, "side"), Some(1));
    assert_eq!(tree.field(0, "other"), None);
    assert_eq!(tree.parent(0), None);
    assert_eq!(tree.parent(2), Some(1));
    assert_eq!(tree.parent(3), Some(0));
    assert_eq!((tree.end(0), tree.end(1), tree.end(4)), (5, 3, 5));
    assert!(tree.children(2).is_empty());
    assert!(tree.is_kind(4, "right"));
    assert!(!tree.is_kind(4, "left"));
    assert!(tree.fills(1, "side"));
    assert!(!tree.fills(2, "side"));
    assert_eq!(tree.text(2, "aéb123"), "é");
}

#[test]
fn a_parsed_tree_has_ranges_rows_and_fields() {
    let source = "// π\nint f() {\n}\n";
    let tree = parse(source);
    let function = find(&tree, "function_definition");
    assert_eq!(tree.node(0).kind, "translation_unit");
    assert_eq!(tree.node(0).depth, 0);
    assert_eq!(tree.text(function, source), "int f() {\n}");
    assert_eq!((tree.node(function).start_row, tree.node(function).end_row), (1, 2));
    assert_eq!((tree.node(function).start_byte, tree.node(function).end_byte), (6, 17));
    let body = tree.field(function, "body").unwrap();
    assert_eq!(tree.node(body).kind, "compound_statement");
    assert!(tree.node(body).named);
    assert!(!tree.node(0).has_error);
    assert_eq!(tree.parent(body), Some(function));
}

#[test]
fn a_parser_reads_text_after_text() {
    let mut parser = cpp_parser().unwrap();
    for (source, kind) in [("int x;", "declaration"), ("struct A {};", "struct_specifier")] {
        let tree = parser.parse(source.as_bytes()).unwrap();
        assert_eq!(tree.node(1).kind, kind);
        assert_eq!(tree.text(0, source), source);
    }
    assert_eq!(parser.parse(b"").unwrap().len(), 1);
}

#[test]
fn errors_and_missing_nodes_are_marked() {
    let tree = parse("int f() { return +; }");
    assert!(tree.node(0).has_error);
    assert!((0..tree.len()).any(|i| tree.node(i).error || tree.node(i).missing));
    for i in 1..tree.len() {
        let parent = tree.parent(i).unwrap();
        assert!(!tree.node(i).has_error || tree.node(parent).has_error);
        assert!(tree.node(parent).start_byte <= tree.node(i).start_byte);
        assert!(tree.node(i).end_byte <= tree.node(parent).end_byte);
    }
}

#[test]
fn declarators_lead_to_their_names() {
    let source = "int *(*pointer)(int); int N::f() {} int value = 1;";
    let tree = parse(source);
    let first = tree.field(1, "declarator").unwrap();
    assert_eq!(binding_name(&tree, first, source), Some("pointer".to_string()));
    assert_eq!(tree.text(binding_node(&tree, first), source), "pointer");
    let function = find(&tree, "function_definition");
    let declarator = tree.field(function, "declarator").unwrap();
    assert_eq!(name_of(&tree, declarator, source), "f");
    assert_eq!(binding_name(&tree, declarator, source), None);
    assert_eq!(function_declarator(&tree, declarator), Some(declarator));
    let value = find(&tree, "init_declarator");
    assert_eq!(binding_name(&tree, value, source), Some("value".to_string()));
    assert_eq!(function_declarator(&tree, value), None);
}

#[test]
fn scopes_around_a_node() {
    let source = "namespace A::B { class C { struct { void f() {} }; }; }";
    let tree = parse(source);
    let function = find(&tree, "function_definition");
    let scope = lexical_scope(&tree, function, source);
    let found: Vec<_> = scope.iter().map(|s| (s.kind.as_str(), s.name.as_str())).collect();
    assert_eq!(
        found,
        [
            ("namespace", "A"),
            ("namespace", "B"),
            ("type", "C"),
            ("type", "(anonymous@27)")
        ]
    );
    assert!(lexical_scope(&tree, 0, source).is_empty());
}

#[test]
fn arities_count_required_and_optional_parameters() {
    for (source, expected) in [
        ("void f() {}", (Some(0), Some(0))),
        ("void f(int a, /* b */ int b) {}", (Some(2), Some(2))),
        ("void f(int a, int b = 1) {}", (Some(1), Some(2))),
        ("void f(int a, ...) {}", (None, None)),
        ("template <class... T> void f(T... a) {}", (None, None)),
    ] {
        let tree = parse(source);
        let declarator = find(&tree, "function_declarator");
        assert_eq!(arity(&tree, Some(declarator)), expected, "{source}");
    }
    assert_eq!(arity(&parse(""), None), (None, None));
}

#[test]
fn one_reference() {
    let source = "void f() { ::N::g(1, /* two */ 2); x.h(); List<T>(); }";
    let tree = parse(source);
    let call = find(&tree, "call_expression");
    let name = tree.field(call, "function").unwrap();
    let args = tree.field(call, "arguments").unwrap();
    assert_eq!(arguments(&tree, args), 2);
    let found = reference(&tree, name, args, "call", source).unwrap();
    assert_eq!((found.kind.as_str(), found.name.as_str()), ("call", "g"));
    assert_eq!(found.qualification, "qualified");
    assert_eq!(found.qualifier, ["", "N"]);
    assert_eq!(found.arguments, 2);
    let calls: Vec<_> = (0..tree.len())
        .filter(|&i| tree.node(i).kind == "call_expression")
        .map(|i| candidate(&tree, 1, i, source).map(|r| (r.name, r.qualification)))
        .collect();
    assert_eq!(
        calls,
        [
            Some(("g".to_string(), "qualified".to_string())),
            Some(("h".to_string(), "unknown".to_string())),
            None
        ]
    );
    assert!(candidate(&tree, 1, 0, source).is_none());
}

#[test]
fn only_missing_types_of_default_braces_are_recoverable() {
    let literal = "compound_literal_expression";
    let recoverable = |nodes: Vec<SyntaxNode>| {
        let tree = SyntaxTree::new(nodes).unwrap();
        let body = find(&tree, "compound_statement");
        recoverable_signature(&tree, 0, body)
    };
    assert!(recoverable(signature("type_identifier", literal, true, false)));
    assert!(!recoverable(signature("type_identifier", literal, false, false)));
    assert!(!recoverable(signature("type_identifier", literal, false, true)));
    assert!(!recoverable(signature("identifier", literal, true, false)));
    assert!(!recoverable(signature("type_identifier", "call_expression", true, false)));
    let mut broken_body = signature("type_identifier", literal, true, false);
    broken_body[6].has_error = true;
    assert!(!recoverable(broken_body));
    let mut after_body = signature("type_identifier", literal, true, false);
    after_body[5].end_byte = 9;
    assert!(!recoverable(after_body));
    let mut second_error = signature("type_identifier", literal, true, false);
    second_error[1].error = true;
    assert!(!recoverable(second_error));
}
