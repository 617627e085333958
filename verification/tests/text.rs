use pi_source_extractor::metadata::{scope_path, Scope};
use pi_source_extractor::names::NameTable;
use pi_source_extractor::ranges::RangeMap;
use pi_source_extractor::text::{
    after_last_separator, characters, ends_with, join, join_next, parts, push_decimal, same_text,
    starts_absolute, starts_with_separator, string_of, strip_separators, trim,
};

fn strings(values: &[&str]) -> Vec<String> {
    values.iter().map(|s| s.to_string()).collect()
}

#[test]
fn equal_texts_have_equal_bytes() {
    assert!(same_text("", ""));
    assert!(same_text("café", "café"));
    assert!(!same_text("café", "cafe"));
    assert!(!same_text("ab", "abc"));
    assert!(!same_text("abc", "abd"));
}

#[test]
fn characters_and_strings_are_inverse() {
    let chars = characters("aπ𝒞");
    assert_eq!(chars, ['a', 'π', '𝒞']);
    assert_eq!(string_of(&chars, 0, 3), "aπ𝒞");
    assert_eq!(string_of(&chars, 1, 2), "π");
    assert_eq!(string_of(&chars, 2, 2), "");
}

#[test]
fn qualified_names_are_split_into_identifiers() {
    assert_eq!(parts("Two::Box::work"), Some(strings(&["Two", "Box", "work"])));
    assert_eq!(parts(" a ::\tb_1 "), Some(strings(&["a", "b_1"])));
    assert_eq!(parts("café"), Some(strings(&["café"])));
    assert_eq!(parts("_"), Some(strings(&["_"])));
    assert_eq!(parts(""), None);
    assert_eq!(parts("::a"), None);
    assert_eq!(parts("a::"), None);
    assert_eq!(parts("a:b"), None);
    assert_eq!(parts("a:::b"), None);
    assert_eq!(parts("List<T>"), None);
    assert_eq!(parts("operator=="), None);
    assert_eq!(parts("a b"), None);
}

#[test]
fn identifiers_may_hold_letters_and_digits_of_any_script() {
    assert_eq!(parts("Ж٣"), Some(strings(&["Ж٣"])));
    assert_eq!(parts("a-b"), None);
    assert_eq!(parts("\u{a0}x\u{2003}"), Some(strings(&["x"])));
}

#[test]
fn separators_at_the_start() {
    assert_eq!(strip_separators("::::a::b"), "a::b");
    assert_eq!(strip_separators(":a"), ":a");
    assert_eq!(strip_separators(":::a"), ":a");
    assert_eq!(strip_separators("::"), "");
    assert!(starts_with_separator("::a"));
    assert!(!starts_with_separator(" ::a"));
    assert!(!starts_with_separator(":"));
    assert!(starts_absolute(" ::a"));
    assert!(starts_absolute("::"));
    assert!(!starts_absolute("a::b"));
}

#[test]
fn the_last_segment_of_a_name() {
    assert_eq!(after_last_separator("Two::Box::work"), "work");
    assert_eq!(after_last_separator("work"), "work");
    assert_eq!(after_last_separator("a::"), "");
    assert_eq!(after_last_separator(""), "");
    assert_eq!(after_last_separator("a:::b"), "b");
}

#[test]
fn trimming_and_suffixes() {
    assert_eq!(trim(" \r\n(void)\t"), "(void)");
    assert_eq!(trim("  "), "");
    assert_eq!(trim("a b"), "a b");
    assert!(ends_with("function_declarator", "declarator"));
    assert!(ends_with("declarator", "declarator"));
    assert!(ends_with("x", ""));
    assert!(!ends_with("clarator", "declarator"));
    assert!(!ends_with("declarators", "declarator"));
}

#[test]
fn joining_is_by_the_separator() {
    assert_eq!(join(&strings(&["a", "b", "c"])), "a::b::c");
    assert_eq!(join(&strings(&["a"])), "a");
    assert_eq!(join(&Vec::new()), "");
    assert_eq!(join(&strings(&["", "a"])), "::a");
    let mut path = String::new();
    join_next(&mut path, true, "x");
    join_next(&mut path, false, "y");
    assert_eq!(path, "x::y");
    assert_eq!(parts(&join(&strings(&["a", "b"]))), Some(strings(&["a", "b"])));
}

#[test]
fn numbers_are_written_in_decimal() {
    let mut text = "(anonymous@".to_string();
    push_decimal(&mut text, 0);
    push_decimal(&mut text, 40960);
    push_decimal(&mut text, 7);
    assert_eq!(text, "(anonymous@0409607");
    let mut large = String::new();
    push_decimal(&mut large, usize::MAX);
    assert_eq!(large, usize::MAX.to_string());
}

#[test]
fn the_path_of_a_scope() {
    let scope = |name: &str| Scope { kind: "namespace".into(), name: name.into() };
    assert_eq!(scope_path(&[scope("A"), scope("B")]), "A::B");
    assert_eq!(scope_path(&[]), "");
}

#[test]
fn different_names_have_different_paths() {
    let lists = [vec![], vec!["a"], vec!["ab"], vec!["a", "b"], vec!["b", "a"], vec!["b"]];
    for (i, one) in lists.iter().enumerate() {
        for (j, other) in lists.iter().enumerate() {
            assert_eq!(join(&strings(one)) == join(&strings(other)), i == j);
        }
    }
}

#[test]
fn names_are_kept_by_path() {
    let mut table = NameTable::new();
    assert!(!table.contains("", "a"));
    table.insert("".into(), "a".into());
    table.insert("N".into(), "b".into());
    table.insert("N".into(), "c".into());
    assert!(table.contains("", "a"));
    assert!(table.contains("N", "b"));
    assert!(table.contains("N", "c"));
    assert!(!table.contains("N", "a"));
    assert!(!table.contains("", "b"));
}

#[test]
fn ranges_keep_their_last_value() {
    let mut map = RangeMap::new();
    assert_eq!(map.len(), 0);
    map.insert(1, 2, 'a');
    map.insert(2, 1, 'b');
    map.insert(1, 2, 'c');
    assert_eq!(map.len(), 2);
    assert_eq!(map.get(1, 2), Some(&'c'));
    assert_eq!(map.get(2, 1), Some(&'b'));
    assert_eq!(map.get(1, 1), None);
    assert_eq!(map.get(1 << 33, 0), None);
    assert_eq!((*map.value(0), *map.value(1)), ('c', 'b'));
}

#[test]
fn joined_parts_are_the_name_without_white_space() {
    for value in ["a", " a ::\tb_1 ", "\u{a0}x\u{2003}::é :: _ ", "N::Box::work"] {
        let found = parts(value).unwrap();
        let path = join(&found);
        assert!(!found.is_empty());
        assert_eq!(path, value.chars().filter(|c| !c.is_whitespace()).collect::<String>());
        assert_eq!(parts(&path), Some(found));
    }
    let white = "\t\n\u{b}\u{c}\r \u{85}\u{a0}\u{1680}\u{2000}\u{200a}\u{2028}\u{2029}\u{202f}\u{205f}\u{3000}";
    assert_eq!(trim(&format!("{white}x{white}")), "x");
    assert_eq!(trim("\u{200b}x\u{180e}"), "\u{200b}x\u{180e}");
}

#[test]
fn the_path_of_a_scope_of_identifiers_splits_into_its_names() {
    let scope: Vec<_> = ["Outer", "é2", "_"]
        .iter()
        .map(|name| Scope { kind: "type".into(), name: name.to_string() })
        .collect();
    assert_eq!(parts(&scope_path(&scope)), Some(strings(&["Outer", "é2", "_"])));
}
