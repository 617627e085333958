//! C++ syntax trees, read from tree-sitter into plain values.
use vstd::prelude::*;
use vstd::utf8::valid_utf8;
use crate::extraction::MAX_SOURCE_BYTES;
use crate::syntax::{
    describes, lemma_end, lemma_end_is, lemma_parent, parent_of, preorder, subtree_end, views,
    NodeView, SyntaxNode, SyntaxTree,
};

verus! {

/// The type of parsers.
#[verifier::external_type_specification]
#[verifier::external_body]
pub struct ExParser(tree_sitter::Parser);

/// The type of grammars.
#[verifier::external_type_specification]
#[verifier::external_body]
pub struct ExLanguage(tree_sitter::Language);

/// The type of the reasons why a parser cannot use a grammar.
#[verifier::external_type_specification]
#[verifier::external_body]
pub struct ExLanguageError(tree_sitter::LanguageError);

/// The type of syntax trees.
#[verifier::external_type_specification]
#[verifier::external_body]
pub struct ExTree(tree_sitter::Tree);

/// The type of cursors that walk a syntax tree.
#[verifier::external_type_specification]
#[verifier::external_body]
pub struct ExTreeCursor<'tree>(tree_sitter::TreeCursor<'tree>);

/// Whether a parser is as `Parser::new` makes it: no language and no unfinished parse.
pub uninterp spec fn is_fresh(parser: tree_sitter::Parser) -> bool;

/// Whether a parser has the C++ language, parses whole texts and has no unfinished parse.
pub uninterp spec fn parses_cpp(parser: tree_sitter::Parser) -> bool;

/// Whether a language is the C++ grammar of `tree_sitter_cpp`.
pub uninterp spec fn is_cpp(language: tree_sitter::Language) -> bool;

/// Whether a parser can be given the language: its ABI version is one that tree-sitter supports
/// and it has a lexer.
pub uninterp spec fn is_usable(language: tree_sitter::Language) -> bool;

/// The syntax tree of a C++ text with plain raw strings: its visible nodes in preorder.
pub uninterp spec fn cpp_syntax(text: Seq<u8>) -> Seq<NodeView>;

/// Whether `t` holds the nodes of a tree that the C++ grammar reads from the text `text` in some
/// locale of the C library.
pub uninterp spec fn is_read_from(t: Seq<NodeView>, text: Seq<u8>) -> bool;

/// Whether nothing but ASCII follows the first start of a raw string, `R"`. Of any other character
/// the C library, in its locale, decides whether it is a space and so cannot stand in the
/// delimiter of a raw string.
pub open spec fn has_plain_raw_strings(text: Seq<u8>) -> bool {
    forall|j: int, k: int|
        #[trigger] starts_raw_string(text, j) && j < k < text.len() ==> #[trigger] is_ascii_at(
            text,
            k,
        )
}

/// Whether `R"` stands at position `j`.
pub open spec fn starts_raw_string(text: Seq<u8>, j: int) -> bool {
    0 <= j && j + 1 < text.len() && text[j] == 0x52 && text[j + 1] == 0x22
}

/// Whether the byte at position `k` is one of ASCII.
pub open spec fn is_ascii_at(text: Seq<u8>, k: int) -> bool {
    text[k] < 0x80
}

/// Whether `t` is a syntax tree of the text `text`, read from it and describing it: the only one
/// where the text has plain raw strings.
pub open spec fn is_tree_of(t: Seq<NodeView>, text: Seq<u8>) -> bool {
    &&& describes(t, text)
    &&& is_read_from(t, text)
    &&& has_plain_raw_strings(text) ==> t == cpp_syntax(text)
}

/// The visible nodes of a tree in preorder.
pub uninterp spec fn tree_nodes(tree: tree_sitter::Tree) -> Seq<NodeView>;

/// The nodes that a cursor walks, in preorder.
pub uninterp spec fn cursor_nodes(cursor: tree_sitter::TreeCursor<'_>) -> Seq<NodeView>;

/// The position in preorder of the node that a cursor stands on.
pub uninterp spec fn cursor_at(cursor: tree_sitter::TreeCursor<'_>) -> int;

/// `tree_sitter::Parser::new`: a parser without a language.
#[verifier::external_body]
fn new_parser() -> (parser: tree_sitter::Parser)
    ensures
        is_fresh(parser),
{
    tree_sitter::Parser::new()
}

/// `tree_sitter::Language::new` on `tree_sitter_cpp::LANGUAGE`: the C++ grammar, generated for
/// ABI version 14 with a lexer of its own, both of which tree-sitter supports.
#[verifier::external_body]
fn cpp_language() -> (language: tree_sitter::Language)
    ensures
        is_cpp(language),
        is_usable(language),
{
    tree_sitter::Language::new(tree_sitter_cpp::LANGUAGE)
}

/// `tree_sitter::Parser::set_language`: succeeds on exactly the usable languages, and the parser
/// then parses that language.
#[verifier::external_body]
fn set_language(
    parser: &mut tree_sitter::Parser,
    language: &tree_sitter::Language,
) -> (result: Result<(), tree_sitter::LanguageError>)
    requires
        is_fresh(*old(parser)),
    ensures
        result is Ok <==> is_usable(*language),
        result is Ok && is_cpp(*language) ==> parses_cpp(*final(parser)),
{
    parser.set_language(language)
}

/// The `Display` text of `tree_sitter::LanguageError`; nothing is claimed of it.
#[verifier::external_body]
fn language_error_message(error: &tree_sitter::LanguageError) -> (message: String) {
    error.to_string()
}

/// `tree_sitter::Parser::parse` without an older tree, on a parser that has the C++ language.
///
/// It returns a tree that is read from the text, and the parser can parse again. The tree depends
/// on the text alone where the text has plain raw strings: only in the delimiter of a raw string
/// does the scanner ask the C library, by `iswspace`, about a character. Which of the trees it is
/// elsewhere, the locale decides. The lexer steps over a UTF-8 text by whole
/// characters and counts a row at each line feed, so every node of the tree starts and ends
/// between characters, and its rows count the line feeds before it. A node covers its children,
/// which follow each other, and has an error where one of them has. The parser adds up the cost
/// of errors in 32 bits, hence the bound on the length.
#[verifier::external_body]
fn parse_text(parser: &mut tree_sitter::Parser, text: &[u8]) -> (tree: Option<tree_sitter::Tree>)
    requires
        parses_cpp(*old(parser)),
        text@.len() <= MAX_SOURCE_BYTES,
    ensures
        parses_cpp(*final(parser)),
        tree matches Some(tree) && is_read_from(tree_nodes(tree), text@),
        tree matches Some(tree) && (has_plain_raw_strings(text@) ==> tree_nodes(tree) == cpp_syntax(
            text@,
        )),
        tree matches Some(tree) && preorder(tree_nodes(tree)),
        tree matches Some(tree) && (valid_utf8(text@) ==> describes(tree_nodes(tree), text@)),
{
    parser.parse(text, None)
}

/// `tree_sitter::Tree::walk`: a cursor on the root of the tree.
#[verifier::external_body]
fn walk<'a>(tree: &'a tree_sitter::Tree) -> (cursor: tree_sitter::TreeCursor<'a>)
    ensures
        cursor_nodes(cursor) == tree_nodes(*tree),
        cursor_at(cursor) == 0,
{
    tree.walk()
}

/// `tree_sitter::TreeCursor::node` and `field_name`, and the accessors of the node: the node that
/// the cursor stands on, as plain values, with the depth that is given.
#[verifier::external_body]
fn current_node(cursor: &tree_sitter::TreeCursor<'_>, depth: usize) -> (node: SyntaxNode)
    ensures
        node@ == (NodeView {
            depth: depth as int,
            ..cursor_nodes(*cursor)[cursor_at(*cursor)]
        }),
{
    let node = cursor.node();
    SyntaxNode {
        kind: node.kind().to_string(),
        field: cursor.field_name().map(str::to_string),
        named: node.is_named(),
        error: node.is_error(),
        missing: node.is_missing(),
        has_error: node.has_error(),
        start_byte: node.start_byte(),
        end_byte: node.end_byte(),
        start_row: node.start_position().row,
        end_row: node.end_position().row,
        depth,
    }
}

/// `tree_sitter::TreeCursor::goto_first_child`: moves to the first child, which follows its
/// parent in preorder, and tells whether there was one.
#[verifier::external_body]
fn goto_first_child(cursor: &mut tree_sitter::TreeCursor<'_>) -> (moved: bool)
    ensures
        cursor_nodes(*final(cursor)) == cursor_nodes(*old(cursor)),
        moved == (cursor_at(*old(cursor)) + 1 < subtree_end(
            cursor_nodes(*old(cursor)),
            cursor_at(*old(cursor)),
        )),
        cursor_at(*final(cursor)) == cursor_at(*old(cursor)) + if moved {
            1int
        } else {
            0int
        },
{
    cursor.goto_first_child()
}

/// `tree_sitter::TreeCursor::goto_next_sibling`: moves to the node past the subtree where that
/// node has the same depth, and tells whether it did.
#[verifier::external_body]
fn goto_next_sibling(cursor: &mut tree_sitter::TreeCursor<'_>) -> (moved: bool)
    ensures
        cursor_nodes(*final(cursor)) == cursor_nodes(*old(cursor)),
        ({
            let t = cursor_nodes(*old(cursor));
            let i = cursor_at(*old(cursor));
            let next = subtree_end(t, i);
            &&& moved == (next < t.len() && t[next].depth == t[i].depth)
            &&& cursor_at(*final(cursor)) == if moved {
                next
            } else {
                i
            }
        }),
{
    cursor.goto_next_sibling()
}

/// `tree_sitter::TreeCursor::goto_parent`: moves to the parent, and tells whether there was one.
#[verifier::external_body]
fn goto_parent(cursor: &mut tree_sitter::TreeCursor<'_>) -> (moved: bool)
    ensures
        cursor_nodes(*final(cursor)) == cursor_nodes(*old(cursor)),
        match parent_of(cursor_nodes(*old(cursor)), cursor_at(*old(cursor))) {
            Some(parent) => moved && cursor_at(*final(cursor)) == parent,
            None => !moved && cursor_at(*final(cursor)) == cursor_at(*old(cursor)),
        },
{
    cursor.goto_parent()
}

/// Reads a whole tree, node by node in preorder. The walk is iterative: deeply nested input does
/// not recurse.
fn read_tree(tree: &tree_sitter::Tree) -> (result: SyntaxTree)
    requires
        preorder(tree_nodes(*tree)),
    ensures
        result@ == tree_nodes(*tree),
{
    let ghost t = tree_nodes(*tree);
    let mut cursor = walk(tree);
    let mut nodes: Vec<SyntaxNode> = Vec::new();
    let mut depth: usize = 0;
    let mut done = false;
    while !done
        invariant
            t == tree_nodes(*tree),
            preorder(t),
            cursor_nodes(cursor) == t,
            !done ==> nodes.len() < t.len() && cursor_at(cursor) == nodes.len(),
            !done ==> depth == t[nodes.len() as int].depth,
            depth <= nodes.len(),
            done ==> nodes.len() == t.len(),
            views(nodes@) == t.take(nodes.len() as int),
        decreases t.len() - nodes.len() + if done {
            0int
        } else {
            1int
        },
    {
        let ghost i = nodes.len() as int;
        nodes.push(current_node(&cursor, depth));
        assert(views(nodes@) =~= t.take(i + 1));
        proof {
            lemma_end(t, i);
        }
        if goto_first_child(&mut cursor) {
            assert(t[i + 1].depth == t[i].depth + 1);
            depth = depth + 1;
        } else {
            let mut climbing = true;
            while climbing
                invariant
                    preorder(t),
                    cursor_nodes(cursor) == t,
                    nodes.len() == i + 1 <= t.len(),
                    climbing ==> 0 <= cursor_at(cursor) <= i && subtree_end(t, cursor_at(cursor))
                        == nodes.len(),
                    !climbing && !done ==> nodes.len() < t.len() && cursor_at(cursor)
                        == nodes.len(),
                    !done ==> depth == t[cursor_at(cursor)].depth,
                    depth <= i,
                    done ==> !climbing && nodes.len() == t.len(),
                decreases
                        cursor_at(cursor) + if climbing {
                            1int
                        } else {
                            -cursor_at(cursor)
                        },
            {
                let ghost at = cursor_at(cursor);
                proof {
                    lemma_end(t, at);
                }
                if goto_next_sibling(&mut cursor) {
                    climbing = false;
                } else {
                    if goto_parent(&mut cursor) {
                        proof {
                            lemma_parent(t, at);
                        }
                        depth = depth - 1;
                        proof {
                            let parent = cursor_at(cursor);
                            lemma_end(t, parent);
                            assert forall|k: int| parent < k < nodes.len() implies (
                            #[trigger] t[k]).depth > t[parent].depth by {
                                if k > at {
                                    assert(t[k].depth > t[at].depth);
                                }
                            }
                            lemma_end_is(t, parent, nodes.len() as int);
                        }
                    } else {
                        assert(at == 0);
                        climbing = false;
                        done = true;
                    }
                }
            }
        }
    }
    assert(t.take(t.len() as int) =~= t);
    SyntaxTree::new(nodes).unwrap()
}

/// A parser for C++, ready to parse any number of texts.
pub struct CppParser {
    parser: tree_sitter::Parser,
}

impl CppParser {
    /// Whether the parser has the C++ language and no unfinished parse.
    pub closed spec fn ready(self) -> bool {
        parses_cpp(self.parser)
    }

    /// The syntax tree of a C++ text.
    pub fn parse(&mut self, text: &[u8]) -> (tree: Option<SyntaxTree>)
        requires
            old(self).ready(),
            text@.len() <= MAX_SOURCE_BYTES,
        ensures
            final(self).ready(),
            tree matches Some(tree) && preorder(tree@),
            tree matches Some(tree) && is_read_from(tree@, text@),
            tree matches Some(tree) && (has_plain_raw_strings(text@) ==> tree@ == cpp_syntax(
                text@,
            )),
            tree matches Some(tree) && (valid_utf8(text@) ==> is_tree_of(tree@, text@)),
    {
        match parse_text(&mut self.parser, text) {
            Some(tree) => Some(read_tree(&tree)),
            None => None,
        }
    }
}

/// A parser for C++.
pub fn cpp_parser() -> (result: Result<CppParser, String>)
    ensures
        result matches Ok(parser) && parser.ready(),
{
    let mut parser = new_parser();
    let language = cpp_language();
    match set_language(&mut parser, &language) {
        Ok(()) => Ok(CppParser { parser }),
        Err(error) => Err(language_error_message(&error)),
    }
}

} // verus!
