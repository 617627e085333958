use pi_source_extractor::blanks::spells_annotation;
use pi_source_extractor::extraction::assemble;
use pi_source_extractor::ranges::RangeMap;
use pi_source_extractor::recovery::{
    annotation_prefixes, candidates, normalize, restored_units,
};
use pi_source_extractor::syntax::SyntaxTree;
use pi_source_extractor::{cpp_parser, extract, scope_index, Extraction};

fn parse(source: &str) -> SyntaxTree {
    cpp_parser().unwrap().parse(source.as_bytes()).unwrap()
}

fn extraction(source: &str) -> Extraction {
    extract(&mut cpp_parser().unwrap(), source).unwrap()
}

fn names(extraction: &Extraction) -> Vec<&str> {
    extraction.units.iter().map(|u| u.name.as_str()).collect()
}

#[test]
fn annotations_are_spelled_in_capitals() {
    let spelled = |name: &str| spells_annotation(name.as_bytes(), 0, name.len());
    assert!(spelled("EXPORT"));
    assert!(spelled("A_1"));
    assert!(spelled("__X"));
    assert!(!spelled("XX"));
    assert!(!spelled("___"));
    assert!(!spelled("123"));
    assert!(!spelled("Export"));
    assert!(!spelled("ÀAA"));
    assert!(!spelled(""));
    assert!(spells_annotation(b"int FAST f", 4, 8));
    assert!(!spells_annotation(b"int FAST f", 4, 9));
}

#[test]
fn normalizing_keeps_every_other_byte() {
    let source = "// π\nEXPORT_HINT int f() { return 1; }\nint g() { return 2; }\n";
    let tree = parse(source);
    let found = candidates(&tree, source);
    assert_eq!(found.len(), 1);
    let candidate = found.value(0);
    assert_eq!(candidate.prefix, (6, 17));
    assert_eq!((candidate.line, candidate.end), (2, 2));
    assert_eq!(candidate.template_start, None);
    let text = String::from_utf8(normalize(source, &found)).unwrap();
    assert_eq!(text, source.replace("EXPORT_HINT", "           "));
    assert_eq!(text.len(), source.len());
    for (i, (a, b)) in source.bytes().zip(text.bytes()).enumerate() {
        assert_eq!(a == b'\n', b == b'\n');
        assert_eq!(source.is_char_boundary(i), text.is_char_boundary(i));
    }
}

#[test]
fn units_are_restored_from_a_second_tree() {
    let source = "FAST int f(int a) { return g(a); }\n";
    let tree = parse(source);
    let index = scope_index(&tree, source);
    let found = candidates(&tree, source);
    let blank = source.replace("FAST", "    ");
    let units = restored_units(&parse(&blank), source, &index, &found);
    assert_eq!(units.len(), 1);
    let unit = units.value(0);
    assert_eq!((unit.name.as_str(), unit.min_args), ("f", Some(1)));
    assert_eq!(unit.references[0].name, "g");
    let none = restored_units(&parse(""), source, &index, &found);
    assert_eq!(none.len(), 0);
    let mut parser = cpp_parser().unwrap();
    let annotated = annotation_prefixes(&mut parser, &tree, source, &index).unwrap();
    assert_eq!(annotated.len(), 1);
    let with = assemble(&tree, source, &index, &annotated);
    assert_eq!(with, extraction(source));
    assert_eq!(with.recovered[0].reason, "annotation_prefix_signature");
    let without = assemble(&tree, source, &index, &RangeMap::new());
    assert!(without.units.is_empty());
    assert_eq!(without.omitted[0].reason, "parse_error");
    assert_eq!(without.omitted[0].unit.line, 1);
    assert!(without.parse_has_error);
}

#[test]
fn a_text_without_errors_has_no_candidates_and_nothing_to_repair() {
    let source = "EXPORT f() { return 1; } struct X { X() = default; void g() {} };";
    let tree = parse(source);
    assert_eq!(candidates(&tree, source).len(), 0);
    let out = extraction(source);
    assert!(!out.parse_has_error);
    assert!(out.recovered.is_empty());
    assert!(out.omitted.iter().all(|d| d.reason == "no_body"));
    assert_eq!(names(&out), ["f", "g"]);
}

#[test]
fn every_function_is_a_unit_or_left_out() {
    let source = r#"
int a() { return 1; }
int b() { return +; }
struct S { S() = default; S(const S&) = delete; void m() { struct I { void n() {} }; } };
FAST int c() { return 3; }
int d(S s = {}) { return 4; }
"#;
    let tree = parse(source);
    let functions = (0..tree.len())
        .filter(|&i| tree.node(i).kind == "function_definition")
        .count();
    let out = extraction(source);
    assert_eq!(out.units.len() + out.omitted.len(), functions);
    assert_eq!(names(&out), ["a", "m", "n", "c", "d"]);
    let omitted: Vec<_> =
        out.omitted.iter().map(|d| (d.unit.name.as_str(), d.reason.as_str())).collect();
    assert_eq!(omitted, [("b", "parse_error"), ("S", "no_body"), ("S", "no_body")]);
    let recovered: Vec<_> =
        out.recovered.iter().map(|d| (d.unit.name.as_str(), d.reason.as_str())).collect();
    assert_eq!(
        recovered,
        [
            ("c", "annotation_prefix_signature"),
            ("d", "default_brace_signature_missing_type")
        ]
    );
    for repaired in &out.recovered {
        assert!(out.units.contains(&repaired.unit));
    }
    let lines = source.matches('\n').count() + 1;
    let all = out.units.iter().chain(out.omitted.iter().map(|d| &d.unit));
    for unit in all {
        assert!(1 <= unit.line && unit.line <= unit.end && unit.end <= lines);
        assert!(unit.min_args.is_some() == unit.max_args.is_some());
        assert!(unit.min_args <= unit.max_args);
    }
    assert_eq!(out.clone(), out);
}

#[test]
fn a_template_starts_its_unit_only_where_it_is_accepted() {
    let out = extraction("template <class T>\nT f(T t) {\n return t;\n}\n");
    assert_eq!((out.units[0].line, out.units[0].end), (1, 4));
    let broken = extraction("template <class T>\nT f(T t) {\n return +;\n}\n");
    assert_eq!(broken.omitted[0].unit.name, "f");
    assert_eq!((broken.omitted[0].unit.line, broken.omitted[0].unit.end), (2, 4));
}

#[test]
fn a_return_type_in_capitals_is_no_annotation() {
    let out = extraction("struct L {}; FILE open(L l = {}) { return 1; }");
    assert_eq!(names(&out), ["open"]);
    assert_eq!(out.recovered.len(), 1);
    assert_eq!(out.recovered[0].reason, "default_brace_signature_missing_type");
}

#[test]
fn units_come_in_the_order_of_their_lines() {
    let source = r#"
namespace N {
struct S {
    void a() {
        struct Inner {
            void b() {}
        };
    }
    FAST int c() {
        return 1;
    }
};
template <class T>
T d(T t) { return t; } int e() { return 2; }
}
"#;
    let out = extraction(source);
    assert_eq!(names(&out), ["a", "b", "c", "d", "e"]);
    for (i, one) in out.units.iter().enumerate() {
        for other in &out.units[i + 1..] {
            assert!(one.line <= other.line);
            assert!(other.line >= one.end || other.end <= one.end);
        }
    }
}

#[test]
fn repaired_units_keep_the_order_of_the_units() {
    let source = "FAST int a() { return 1; } int b() { return 2; }\n\
        int c(L l = {}) { return 3; } FAST int d() { return 4; }\n";
    let out = extraction(source);
    assert_eq!(names(&out), ["a", "b", "c", "d"]);
    let mut rest = out.units.iter();
    for repaired in &out.recovered {
        assert!(rest.any(|unit| *unit == repaired.unit));
    }
    assert_eq!(out.recovered.len(), 3);
}

#[test]
fn an_annotation_on_a_line_of_its_own_changes_only_the_first_line() {
    let source = "ANNOTATION\nint f(int n) { return g(n); }\n";
    let out = extraction(source);
    let clean = extraction(&source.replace("ANNOTATION", "          "));
    assert_eq!((out.units[0].line, clean.units[0].line), (1, 2));
    let mut moved = out.units[0].clone();
    moved.line = 2;
    assert_eq!(moved, clean.units[0]);
}

#[test]
fn raw_strings_with_plain_delimiters_are_parsed() {
    let source = "// é\nconst char* f() { return R\"mark(int g() {})mark\"; }\n";
    let out = extraction(source);
    assert!(!out.parse_has_error);
    assert_eq!(names(&out), ["f"]);
}

#[test]
fn functions_after_a_raw_string_and_other_scripts_are_found() {
    let source = "namespace N {\n\
        const char* f() { return R\"mark(int g() {})mark\"; }\n\
        // é π\n\
        int café(int n) { return h(n); }\n\
        FAST int i() { return 1; }\n\
        int j() { return +; }\n\
        struct S { S() = default; };\n}\n";
    let out = extraction(source);
    assert!(out.parse_has_error);
    assert_eq!(names(&out), ["f", "café", "i"]);
    let lines: Vec<_> = out.units.iter().map(|u| (u.line, u.end)).collect();
    assert_eq!(lines, [(2, 2), (4, 4), (5, 5)]);
    assert_eq!(out.units[1].qualified_name, "N::café");
    assert_eq!((out.units[1].min_args, out.units[1].max_args), (Some(1), Some(1)));
    assert_eq!(out.units[1].references[0].name, "h");
    let recovered: Vec<_> =
        out.recovered.iter().map(|d| (d.unit.name.as_str(), d.reason.as_str())).collect();
    assert_eq!(recovered, [("i", "annotation_prefix_signature")]);
    let omitted: Vec<_> =
        out.omitted.iter().map(|d| (d.unit.name.as_str(), d.reason.as_str())).collect();
    assert_eq!(omitted, [("j", "parse_error"), ("S", "no_body")]);
}

#[test]
fn functions_after_a_raw_string_with_a_delimiter_in_another_script_are_found() {
    let source = "const char* f() { return R\"é(x)é\"; }\nint g() { return 1; }\n";
    let out = extraction(source);
    assert_eq!(names(&out), ["f", "g"]);
    assert_eq!((out.units[1].line, out.units[1].end), (2, 2));
}

fn opens_scope(kind: &str) -> bool {
    matches!(
        kind,
        "namespace_definition" | "class_specifier" | "struct_specifier" | "union_specifier"
    )
}

/// Pairs the nodes of two trees from the root on; of functions with an error only the bodies.
fn pair(a: &SyntaxTree, b: &SyntaxTree, i: usize, j: usize, pairs: &mut Vec<(usize, usize)>) {
    let (p, q) = (a.node(i), b.node(j));
    assert_eq!((&p.kind, &p.field, p.named), (&q.kind, &q.field, q.named));
    pairs.push((i, j));
    if p.kind == "function_definition" {
        assert_eq!((p.end_byte, &p.field), (q.end_byte, &None));
        if p.has_error {
            match (a.field(i, "body"), b.field(j, "body")) {
                (Some(k), Some(m)) => pair(a, b, k, m, pairs),
                (k, m) => assert!(k.is_none() && m.is_none()),
            }
            return;
        }
        assert_eq!(a.end(i) - i, b.end(j) - j);
        assert_eq!(p.start_byte, q.start_byte);
    }
    if p.kind.ends_with("identifier") || p.field.as_deref() == Some("name") {
        assert_eq!((p.start_byte, p.end_byte), (q.start_byte, q.end_byte));
    }
    if p.kind == "template_declaration" || opens_scope(&p.kind) {
        assert_eq!(p.start_byte, q.start_byte);
    }
    let (x, y) = (a.children(i), b.children(j));
    assert_eq!(x.len(), y.len());
    for (k, m) in x.into_iter().zip(y) {
        pair(a, b, k, m, pairs);
    }
}

fn have_the_same_units(source: &str, annotations: &[&str]) {
    let mut clean = source.to_string();
    for annotation in annotations {
        clean = clean.replace(annotation, &" ".repeat(annotation.len()));
    }
    let (a, b) = (parse(source), parse(&clean));
    assert!(a.node(0).has_error);
    let mut pairs = Vec::new();
    pair(&a, &b, 0, 0, &mut pairs);
    for (tree, paired) in [
        (&a, pairs.iter().map(|p| p.0).collect::<Vec<_>>()),
        (&b, pairs.iter().map(|p| p.1).collect::<Vec<_>>()),
    ] {
        assert!(paired.windows(2).all(|w| w[0] < w[1]));
        for i in 0..tree.len() {
            if !paired.contains(&i) {
                let kind = tree.node(i).kind.as_str();
                assert!(kind != "function_definition" && !opens_scope(kind));
                let mut at = i;
                while tree.node(at).kind != "function_definition" {
                    at = tree.parent(at).unwrap();
                }
            }
        }
    }
    assert_eq!(extraction(source).units, extraction(&clean).units);
}

#[test]
fn annotated_texts_have_the_units_of_the_clean_text() {
    have_the_same_units(
        "namespace N { struct S { FAST int a(int n) { return b(n); } int b(int n) { return n; } }; }",
        &["FAST"],
    );
    have_the_same_units(
        "struct S { template <class T>\nFAST L::List<T> a(T t) { return c(t); } };\nint c(int n) { return n; }",
        &["FAST"],
    );
    have_the_same_units(
        "using namespace M; struct S { FAST S* a() { return b(); } void b() { struct I { void d() {} }; } } s;",
        &["FAST"],
    );
    have_the_same_units(
        "FAST int a(int ???) { return 1; } FAST L::I b() { return {}; } int e(X x = {}) { return 2; }",
        &["FAST"],
    );
}

#[test]
fn trees_of_annotated_texts_differ_in_signatures_only() {
    have_the_same_units(
        r#"namespace Demo {
int helper(int value) { return value; }
struct Item {};
struct Box {
    EXPORT_HINT void set(int value) { helper(value); }
    template<class T>
    [[nodiscard]] PROJECT_FAST_INLINE Result convert(T value) { return helper(value); }
    EXPORT_HINT const Item& reference() { return item; }
    EXPORT_HINT Item* pointer() { return &item; }
    static EXPORT_HINT int number(int value = 1) { return helper(value); }
    Item item;
};
}
"#,
        &["EXPORT_HINT", "PROJECT_FAST_INLINE"],
    );
    have_the_same_units(
        r#"namespace Library { struct Item { Item() {} }; }
struct Result { Result() {} };
namespace Demo {
    ANNOTATION Library::Item value(int n, int extra = 0) { helper(n); return {}; }
    template<class T>
    ANNOTATION Library::List<T> values(T n) { return make(n); }
    ANNOTATION Result empty() { return {}; }
    ANNOTATION Library::Item broken(int ???) { return {}; }
    struct Box { ANNOTATION Library::Item member() { return make(); } };
}
"#,
        &["ANNOTATION"],
    );
}

#[test]
fn an_annotated_function_inside_another_one_keeps_the_outer_one_out() {
    let source = "void f() { struct I { FAST int g() { return 1; } }; }";
    let out = extraction(source);
    assert_eq!(names(&out), ["g"]);
    assert_eq!(out.omitted[0].unit.name, "f");
    assert_eq!(names(&extraction(&source.replace("FAST", "    "))), ["f", "g"]);
}
