//! A syntax tree as plain values: its nodes in preorder, each with its depth.
use vstd::prelude::*;
use vstd::utf8::{
    decode_utf8, encode_utf8, encode_utf8_decode_utf8, encode_utf8_valid_utf8, is_char_boundary,
    is_char_boundary_iff_not_is_continuation_byte, is_char_boundary_start_end_of_seq, valid_utf8,
    valid_utf8_split,
};
use crate::text::same_text;

verus! {

/// What a node of a syntax tree is, mathematically.
pub struct NodeView {
    pub kind: Seq<char>,
    pub field: Option<Seq<char>>,
    pub named: bool,
    pub error: bool,
    pub missing: bool,
    pub has_error: bool,
    pub start_byte: int,
    pub end_byte: int,
    pub start_row: int,
    pub end_row: int,
    pub depth: int,
}

/// One node of a syntax tree.
#[derive(Debug)]
pub struct SyntaxNode {
    /// The grammar's name for the node.
    pub kind: String,
    /// The field of its parent that the node fills.
    pub field: Option<String>,
    /// Whether the node stands for a named rule of the grammar.
    pub named: bool,
    /// Whether the node is text that no rule covers.
    pub error: bool,
    /// Whether the parser put the node in where the text lacks it.
    pub missing: bool,
    /// Whether the node is or holds an error.
    pub has_error: bool,
    /// Offset of its first byte.
    pub start_byte: usize,
    /// Offset past its last byte.
    pub end_byte: usize,
    /// Row of its first byte, counted from zero.
    pub start_row: usize,
    /// Row of its end, counted from zero.
    pub end_row: usize,
    /// Number of its ancestors.
    pub depth: usize,
}

/// The text of an optional string.
pub open spec fn optional_text(s: Option<String>) -> Option<Seq<char>> {
    match s {
        Some(text) => Some(text@),
        None => None,
    }
}

impl View for SyntaxNode {
    type V = NodeView;

    open spec fn view(&self) -> NodeView {
        NodeView {
            kind: self.kind@,
            field: optional_text(self.field),
            named: self.named,
            error: self.error,
            missing: self.missing,
            has_error: self.has_error,
            start_byte: self.start_byte as int,
            end_byte: self.end_byte as int,
            start_row: self.start_row as int,
            end_row: self.end_row as int,
            depth: self.depth as int,
        }
    }
}

// ---------------------------------------------------------------------------------------------
// Shape

/// Whether the depths are those of a tree listed in preorder.
pub open spec fn preorder(t: Seq<NodeView>) -> bool {
    &&& t.len() > 0
    &&& t[0].depth == 0
    &&& forall|i: int| 0 < i < t.len() ==> 0 < #[trigger] t[i].depth <= t[i - 1].depth + 1
}

/// The last position at or before `j` whose depth is less than `d`, or a negative number.
pub open spec fn last_above(t: Seq<NodeView>, j: int, d: int) -> int
    decreases j + 1,
{
    if j < 0 || t[j].depth < d {
        j
    } else {
        last_above(t, j - 1, d)
    }
}

/// The parent of node `i`.
pub open spec fn parent_of(t: Seq<NodeView>, i: int) -> Option<int> {
    if 0 < i < t.len() {
        Some(last_above(t, i - 1, t[i].depth))
    } else {
        None
    }
}

/// The first position at or after `j` whose depth is at most `d`, or the length.
pub open spec fn next_at_most(t: Seq<NodeView>, j: int, d: int) -> int
    decreases t.len() - j,
{
    if j >= t.len() || t[j].depth <= d {
        j
    } else {
        next_at_most(t, j + 1, d)
    }
}

/// The position past the last descendant of node `i`: its subtree is `i..subtree_end(t, i)`.
pub open spec fn subtree_end(t: Seq<NodeView>, i: int) -> int {
    next_at_most(t, i + 1, t[i].depth)
}

/// Node `c` and the siblings that follow it before position `end`.
pub open spec fn siblings_from(t: Seq<NodeView>, c: int, end: int) -> Seq<int>
    decreases end - c,
{
    if 0 <= c < end {
        let next = subtree_end(t, c);
        seq![c] + if c < next <= end {
            siblings_from(t, next, end)
        } else {
            Seq::empty()
        }
    } else {
        Seq::empty()
    }
}

/// The children of node `i`, in order.
pub open spec fn children_of(t: Seq<NodeView>, i: int) -> Seq<int> {
    siblings_from(t, i + 1, subtree_end(t, i))
}

/// The nodes of `nodes` that fill the field `field`.
pub open spec fn in_field(t: Seq<NodeView>, nodes: Seq<int>, field: Seq<char>) -> Seq<int>
    decreases nodes.len(),
{
    if nodes.len() == 0 {
        Seq::empty()
    } else if t[nodes[0]].field == Some(field) {
        seq![nodes[0]] + in_field(t, nodes.drop_first(), field)
    } else {
        in_field(t, nodes.drop_first(), field)
    }
}

/// The named nodes of `nodes`.
pub open spec fn named_in(t: Seq<NodeView>, nodes: Seq<int>) -> Seq<int>
    decreases nodes.len(),
{
    if nodes.len() == 0 {
        Seq::empty()
    } else if t[nodes[0]].named {
        seq![nodes[0]] + named_in(t, nodes.drop_first())
    } else {
        named_in(t, nodes.drop_first())
    }
}

/// The children of node `i` that fill the field `field`, in order.
pub open spec fn fields_of(t: Seq<NodeView>, i: int, field: Seq<char>) -> Seq<int> {
    in_field(t, children_of(t, i), field)
}

/// The named children of node `i`, in order.
pub open spec fn named_of(t: Seq<NodeView>, i: int) -> Seq<int> {
    named_in(t, children_of(t, i))
}

/// The first child of node `i` that fills the field `field`.
pub open spec fn field_of(t: Seq<NodeView>, i: int, field: Seq<char>) -> Option<int> {
    let all = fields_of(t, i, field);
    if all.len() > 0 {
        Some(all[0])
    } else {
        None
    }
}

/// The position past node `i`'s subtree is where the depth first falls back to its own.
pub proof fn lemma_end_is(t: Seq<NodeView>, i: int, e: int)
    requires
        0 <= i < e <= t.len(),
        forall|k: int| i < k < e ==> #[trigger] t[k].depth > t[i].depth,
        e < t.len() ==> t[e].depth <= t[i].depth,
    ensures
        subtree_end(t, i) == e,
{
    lemma_next_is(t, i + 1, t[i].depth, e);
}

proof fn lemma_next_is(t: Seq<NodeView>, j: int, d: int, e: int)
    requires
        0 <= j <= e <= t.len(),
        forall|k: int| j <= k < e ==> #[trigger] t[k].depth > d,
        e < t.len() ==> t[e].depth <= d,
    ensures
        next_at_most(t, j, d) == e,
    decreases e - j,
{
    if j < e {
        lemma_next_is(t, j + 1, d, e);
    }
}

proof fn lemma_next(t: Seq<NodeView>, j: int, d: int)
    requires
        0 <= j <= t.len(),
    ensures
        j <= next_at_most(t, j, d) <= t.len(),
        forall|k: int| j <= k < next_at_most(t, j, d) ==> #[trigger] t[k].depth > d,
        next_at_most(t, j, d) < t.len() ==> t[next_at_most(t, j, d)].depth <= d,
    decreases t.len() - j,
{
    if j < t.len() && t[j].depth > d {
        lemma_next(t, j + 1, d);
    }
}

/// A subtree is a nonempty run of nodes: its root, then nodes deeper than the root.
pub proof fn lemma_end(t: Seq<NodeView>, i: int)
    requires
        0 <= i < t.len(),
    ensures
        i < subtree_end(t, i) <= t.len(),
        forall|k: int| i < k < subtree_end(t, i) ==> #[trigger] t[k].depth > t[i].depth,
        subtree_end(t, i) < t.len() ==> t[subtree_end(t, i)].depth <= t[i].depth,
{
    lemma_next(t, i + 1, t[i].depth);
}

/// A node's subtree lies within the subtree of each of its ancestors.
pub proof fn lemma_nested(t: Seq<NodeView>, i: int, c: int)
    requires
        0 <= i < c < subtree_end(t, i),
        i < t.len(),
    ensures
        c < t.len(),
        subtree_end(t, c) <= subtree_end(t, i),
{
    lemma_end(t, i);
    lemma_end(t, c);
}

/// The parent is the nearest node before with a smaller depth.
pub proof fn lemma_parent_is(t: Seq<NodeView>, i: int, p: int)
    requires
        0 <= p < i < t.len(),
        t[p].depth < t[i].depth,
        forall|k: int| p < k < i ==> #[trigger] t[k].depth >= t[i].depth,
    ensures
        parent_of(t, i) == Some(p),
{
    lemma_last_above_is(t, i - 1, t[i].depth, p);
}

proof fn lemma_last_above_is(t: Seq<NodeView>, j: int, d: int, p: int)
    requires
        0 <= p <= j < t.len(),
        t[p].depth < d,
        forall|k: int| p < k <= j ==> #[trigger] t[k].depth >= d,
    ensures
        last_above(t, j, d) == p,
    decreases j,
{
    if p < j {
        lemma_last_above_is(t, j - 1, d, p);
    }
}

proof fn lemma_last_above(t: Seq<NodeView>, j: int, d: int)
    requires
        0 <= j < t.len(),
        t[0].depth < d,
    ensures
        0 <= last_above(t, j, d) <= j,
        t[last_above(t, j, d)].depth < d,
        forall|k: int| last_above(t, j, d) < k <= j ==> #[trigger] t[k].depth >= d,
    decreases j,
{
    if t[j].depth >= d {
        lemma_last_above(t, j - 1, d);
    }
}

/// Every node but the root has a parent before it, one level up, whose subtree holds the node.
pub proof fn lemma_parent(t: Seq<NodeView>, i: int)
    requires
        preorder(t),
        0 < i < t.len(),
    ensures
        parent_of(t, i) is Some,
        0 <= parent_of(t, i)->0 < i,
        t[parent_of(t, i)->0].depth == t[i].depth - 1,
        i < subtree_end(t, parent_of(t, i)->0),
{
    lemma_last_above(t, i - 1, t[i].depth);
    let p = parent_of(t, i)->0;
    if p < i - 1 {
        assert(t[p + 1].depth >= t[i].depth);
    }
    assert(t[p + 1].depth <= t[p].depth + 1);
    lemma_end(t, p);
    let e = subtree_end(t, p);
    if e <= i {
        assert(t[e].depth <= t[p].depth);
    }
}

/// The nodes listed from a child on are nodes of the tree, after the child and before `end`.
pub proof fn lemma_siblings(t: Seq<NodeView>, c: int, end: int)
    requires
        0 <= c,
        end <= t.len(),
    ensures
        forall|k: int|
            0 <= k < siblings_from(t, c, end).len() ==> c <= #[trigger] siblings_from(
                t,
                c,
                end,
            )[k] < end,
    decreases end - c,
{
    if c < end {
        lemma_end(t, c);
        let next = subtree_end(t, c);
        let rest = siblings_from(t, next, end);
        if next <= end {
            lemma_siblings(t, next, end);
        }
        let all = siblings_from(t, c, end);
        assert forall|k: int| 0 <= k < all.len() implies c <= #[trigger] all[k] < end by {
            if k > 0 {
                assert(all[k] == rest[k - 1]);
            }
        }
    }
}

/// Children lie inside the subtree of their parent.
pub proof fn lemma_children(t: Seq<NodeView>, i: int)
    requires
        0 <= i < t.len(),
    ensures
        forall|k: int|
            0 <= k < children_of(t, i).len() ==> i < #[trigger] children_of(t, i)[k]
                < subtree_end(t, i) <= t.len(),
{
    lemma_end(t, i);
    lemma_siblings(t, i + 1, subtree_end(t, i));
}

/// Nodes that fill a field are among those that they were selected from.
pub proof fn lemma_in_field(t: Seq<NodeView>, nodes: Seq<int>, field: Seq<char>)
    ensures
        forall|k: int|
            0 <= k < in_field(t, nodes, field).len() ==> nodes.contains(
                #[trigger] in_field(t, nodes, field)[k],
            ) && t[in_field(t, nodes, field)[k]].field == Some(field),
    decreases nodes.len(),
{
    if nodes.len() > 0 {
        let rest = nodes.drop_first();
        lemma_in_field(t, rest, field);
        let all = in_field(t, nodes, field);
        assert forall|k: int| 0 <= k < all.len() implies nodes.contains(#[trigger] all[k])
            && t[all[k]].field == Some(field) by {
            if t[nodes[0]].field == Some(field) {
                if k > 0 {
                    assert(all[k] == in_field(t, rest, field)[k - 1]);
                    let m = choose|m: int| 0 <= m < rest.len() && rest[m] == all[k];
                    assert(nodes[m + 1] == all[k]);
                } else {
                    assert(nodes[0] == all[0]);
                }
            } else {
                let m = choose|m: int| 0 <= m < rest.len() && rest[m] == all[k];
                assert(nodes[m + 1] == all[k]);
            }
        }
    }
}

/// Named nodes are among those that they were selected from.
pub proof fn lemma_named_in(t: Seq<NodeView>, nodes: Seq<int>)
    ensures
        forall|k: int|
            0 <= k < named_in(t, nodes).len() ==> nodes.contains(
                #[trigger] named_in(t, nodes)[k],
            ) && t[named_in(t, nodes)[k]].named,
    decreases nodes.len(),
{
    if nodes.len() > 0 {
        let rest = nodes.drop_first();
        lemma_named_in(t, rest);
        let all = named_in(t, nodes);
        assert forall|k: int| 0 <= k < all.len() implies nodes.contains(#[trigger] all[k])
            && t[all[k]].named by {
            if t[nodes[0]].named {
                if k > 0 {
                    assert(all[k] == named_in(t, rest)[k - 1]);
                    let m = choose|m: int| 0 <= m < rest.len() && rest[m] == all[k];
                    assert(nodes[m + 1] == all[k]);
                } else {
                    assert(nodes[0] == all[0]);
                }
            } else {
                let m = choose|m: int| 0 <= m < rest.len() && rest[m] == all[k];
                assert(nodes[m + 1] == all[k]);
            }
        }
    }
}

/// Children that fill a field, and named children, lie inside the subtree of their parent.
pub proof fn lemma_selected_children(t: Seq<NodeView>, i: int, field: Seq<char>)
    requires
        0 <= i < t.len(),
    ensures
        forall|k: int|
            0 <= k < fields_of(t, i, field).len() ==> i < #[trigger] fields_of(t, i, field)[k]
                < subtree_end(t, i) <= t.len(),
        forall|k: int|
            0 <= k < named_of(t, i).len() ==> i < #[trigger] named_of(t, i)[k] < subtree_end(
                t,
                i,
            ) <= t.len(),
{
    lemma_children(t, i);
    lemma_in_field(t, children_of(t, i), field);
    lemma_named_in(t, children_of(t, i));
}

// ---------------------------------------------------------------------------------------------
// Positions in a text

/// Whether a node's range is a range of whole characters of the text.
pub open spec fn span_fits(bytes: Seq<u8>, node: NodeView) -> bool {
    &&& 0 <= node.start_byte <= node.end_byte <= bytes.len()
    &&& is_char_boundary(bytes, node.start_byte)
    &&& is_char_boundary(bytes, node.end_byte)
}

/// Whether every node's range is a range of whole characters of the text.
pub open spec fn fits(t: Seq<NodeView>, bytes: Seq<u8>) -> bool {
    forall|i: int| 0 <= i < t.len() ==> span_fits(bytes, #[trigger] t[i])
}

/// Number of line feeds among the first `n` bytes.
pub open spec fn line_feeds(bytes: Seq<u8>, n: int) -> int
    decreases n,
{
    if n <= 0 {
        0
    } else if bytes[n - 1] == 0x0a {
        line_feeds(bytes, n - 1) + 1
    } else {
        line_feeds(bytes, n - 1)
    }
}

/// Whether a node's rows count the line feeds before its start and before its end.
pub open spec fn rows_count(bytes: Seq<u8>, node: NodeView) -> bool {
    &&& node.start_row == line_feeds(bytes, node.start_byte)
    &&& node.end_row == line_feeds(bytes, node.end_byte)
}

/// Whether the rows of every node count the line feeds before it.
pub open spec fn rows_fit(t: Seq<NodeView>, bytes: Seq<u8>) -> bool {
    forall|i: int| 0 <= i < t.len() ==> rows_count(bytes, #[trigger] t[i])
}

/// Whether every node stands within its parent.
pub open spec fn spans_nest(t: Seq<NodeView>) -> bool {
    forall|i: int|
        0 < i < t.len() ==> t[(#[trigger] parent_of(t, i))->0].start_byte <= t[i].start_byte
            && t[i].end_byte <= t[parent_of(t, i)->0].end_byte
}

/// Whether every node starts at or after the end of the sibling before it.
pub open spec fn siblings_follow(t: Seq<NodeView>) -> bool {
    forall|i: int|
        0 <= i < t.len() && #[trigger] subtree_end(t, i) < t.len() && t[subtree_end(t, i)].depth
            == t[i].depth ==> t[i].end_byte <= t[subtree_end(t, i)].start_byte
}

/// Whether every node around a node with an error has an error.
pub open spec fn errors_spread(t: Seq<NodeView>) -> bool {
    forall|i: int|
        0 < i < t.len() && t[i].has_error ==> t[(#[trigger] parent_of(t, i))->0].has_error
}

/// Whether `t` can be the syntax tree of the text `bytes`.
pub open spec fn describes(t: Seq<NodeView>, bytes: Seq<u8>) -> bool {
    &&& preorder(t)
    &&& fits(t, bytes)
    &&& rows_fit(t, bytes)
    &&& spans_nest(t)
    &&& siblings_follow(t)
    &&& errors_spread(t)
}

/// The text that node `i` covers.
pub open spec fn node_text(t: Seq<NodeView>, i: int, source: Seq<char>) -> Seq<char> {
    decode_utf8(encode_utf8(source).subrange(t[i].start_byte, t[i].end_byte))
}

/// There are no more line feeds than bytes, and more bytes hold no fewer.
pub proof fn lemma_line_feeds(bytes: Seq<u8>, m: int, n: int)
    requires
        0 <= m <= n,
    ensures
        0 <= line_feeds(bytes, m) <= line_feeds(bytes, n) <= n,
    decreases n,
{
    if m < n {
        lemma_line_feeds(bytes, m, n - 1);
    } else if n > 0 {
        lemma_line_feeds(bytes, m - 1, n - 1);
    }
}

/// A character boundary stays one in what is left after an earlier boundary.
pub proof fn lemma_boundary_after(bytes: Seq<u8>, start: int, end: int)
    requires
        valid_utf8(bytes),
        0 <= start <= end <= bytes.len(),
        is_char_boundary(bytes, start),
        is_char_boundary(bytes, end),
    ensures
        valid_utf8(bytes.subrange(start, bytes.len() as int)),
        is_char_boundary(bytes.subrange(start, bytes.len() as int), end - start),
{
    let rest = bytes.subrange(start, bytes.len() as int);
    valid_utf8_split(bytes, start);
    if end < bytes.len() {
        is_char_boundary_iff_not_is_continuation_byte(bytes, end);
        assert(rest[end - start] == bytes[end]);
        is_char_boundary_iff_not_is_continuation_byte(rest, end - start);
    } else {
        is_char_boundary_start_end_of_seq(rest);
    }
}

// ---------------------------------------------------------------------------------------------
// The tree

/// The mathematical values of a list of nodes.
pub open spec fn views(nodes: Seq<SyntaxNode>) -> Seq<NodeView> {
    nodes.map_values(|node: SyntaxNode| node@)
}

/// The positions of a list of nodes.
pub open spec fn positions(nodes: Seq<usize>) -> Seq<int> {
    nodes.map_values(|node: usize| node as int)
}

/// A position as an optional integer.
pub open spec fn position(node: Option<usize>) -> Option<int> {
    match node {
        Some(at) => Some(at as int),
        None => None,
    }
}

/// A syntax tree: nodes in preorder, with each node's parent and the end of its subtree at hand.
#[derive(Debug)]
pub struct SyntaxTree {
    nodes: Vec<SyntaxNode>,
    parents: Vec<usize>,
    ends: Vec<usize>,
}

impl View for SyntaxTree {
    type V = Seq<NodeView>;

    closed spec fn view(&self) -> Seq<NodeView> {
        views(self.nodes@)
    }
}

/// Whether `open` lists the ancestors-or-self of the last of the first `n` nodes, by depth.
spec fn open_path(t: Seq<NodeView>, open: Seq<usize>, n: int) -> bool {
    &&& open.len() == t[n - 1].depth + 1
    &&& open[open.len() - 1] == n - 1
    &&& forall|d: int|
        0 <= d < open.len() ==> {
            &&& #[trigger] open[d] < n
            &&& t[open[d] as int].depth == d
            &&& forall|k: int| open[d] < k < n ==> (#[trigger] t[k]).depth > d
        }
}

/// Whether node `j` is on the path `open`.
spec fn is_open(t: Seq<NodeView>, open: Seq<usize>, j: int) -> bool {
    0 <= t[j].depth < open.len() && open[t[j].depth] == j
}

impl SyntaxTree {
    #[verifier::type_invariant]
    spec fn linked(self) -> bool {
        &&& preorder(self@)
        &&& self.parents.len() == self.nodes.len()
        &&& self.ends.len() == self.nodes.len()
        &&& forall|i: int|
            0 < i < self.nodes.len() ==> parent_of(self@, i) == Some(
                #[trigger] self.parents[i] as int,
            )
        &&& forall|i: int|
            0 <= i < self.nodes.len() ==> #[trigger] self.ends[i] == subtree_end(self@, i)
    }

    /// The tree whose nodes these are in preorder; `None` where their depths are not those of
    /// one tree.
    pub fn new(nodes: Vec<SyntaxNode>) -> (tree: Option<SyntaxTree>)
        ensures
            match tree {
                Some(tree) => preorder(views(nodes@)) && tree@ == views(nodes@),
                None => !preorder(views(nodes@)),
            },
    {
        let ghost t = views(nodes@);
        if nodes.len() == 0 || nodes[0].depth != 0 {
            assert(nodes.len() > 0 ==> t[0] == nodes@[0]@);
            return None;
        }
        let n = nodes.len();
        let mut parents: Vec<usize> = Vec::new();
        let mut ends: Vec<usize> = Vec::new();
        let mut open: Vec<usize> = Vec::new();
        parents.push(0);
        ends.push(0);
        open.push(0);
        let mut i: usize = 1;
        assert(t[0] == nodes@[0]@);
        while i < n
            invariant
                n == nodes.len(),
                t == views(nodes@),
                1 <= i <= n,
                t[0].depth == 0,
                parents.len() == i,
                ends.len() == i,
                open_path(t, open@, i as int),
                forall|k: int| 0 < k < i ==> 0 < #[trigger] t[k].depth <= t[k - 1].depth + 1,
                forall|k: int| 0 < k < i ==> parent_of(t, k) == Some(#[trigger] parents[k] as int),
                forall|k: int|
                    0 <= k < i && !is_open(t, open@, k) ==> #[trigger] ends[k] == subtree_end(t, k),
            decreases n - i,
        {
            let depth = nodes[i].depth;
            assert(t[i as int] == nodes@[i as int]@);
            assert(t[i - 1] == nodes@[i - 1]@);
            if depth == 0 || depth - 1 > nodes[i - 1].depth {
                assert(!(0 < t[i as int].depth <= t[i - 1].depth + 1));
                return None;
            }
            let ghost before = open@;
            while open.len() > depth
                invariant
                    0 < depth,
                    0 < i < n == t.len(),
                    depth <= open.len() <= before.len(),
                    open@ == before.take(open.len() as int),
                    t[i as int].depth == depth,
                    ends.len() == i,
                    open_path(t, before, i as int),
                    forall|k: int|
                        0 <= k < i && !is_open(t, open@, k) ==> #[trigger] ends[k] == subtree_end(
                            t,
                            k,
                        ),
                decreases open.len(),
            {
                let ghost was = open@;
                let last = open.pop().unwrap();
                proof {
                    assert(last == before[open.len() as int]);
                    assert(t[last as int].depth == open.len());
                    lemma_end_is(t, last as int, i as int);
                }
                ends.set(last, i);
                assert forall|k: int| 0 <= k < i && !is_open(t, open@, k) implies #[trigger] ends[k]
                    == subtree_end(t, k) by {
                    if k != last {
                        assert(!is_open(t, was, k));
                    }
                }
            }
            let parent = open[open.len() - 1];
            proof {
                assert(open@[depth - 1] == before[depth - 1]);
                assert(t[parent as int].depth == depth - 1);
                assert forall|k: int| parent < k < i implies #[trigger] t[k].depth >= depth by {}
                lemma_parent_is(t, i as int, parent as int);
            }
            let ghost path = open@;
            parents.push(parent);
            ends.push(0);
            open.push(i);
            i = i + 1;
            proof {
                assert forall|d: int| 0 <= d < open.len() implies {
                    &&& #[trigger] open@[d] < i
                    &&& t[open@[d] as int].depth == d
                    &&& forall|k: int| open@[d] < k < i ==> (#[trigger] t[k]).depth > d
                } by {
                    if d < depth {
                        assert(open@[d] == before[d]);
                    }
                }
                assert forall|k: int| 0 <= k < i && !is_open(t, open@, k) implies #[trigger] ends[k]
                    == subtree_end(t, k) by {
                    assert(k < i - 1);
                    assert(!is_open(t, path, k)) by {
                        if is_open(t, path, k) {
                            assert(open@[t[k].depth] == path[t[k].depth]);
                        }
                    }
                }
            }
        }
        let ghost before = open@;
        while open.len() > 0
            invariant
                0 < n == t.len(),
                open.len() <= before.len(),
                open@ == before.take(open.len() as int),
                ends.len() == n,
                open_path(t, before, n as int),
                forall|k: int|
                    0 <= k < n && !is_open(t, open@, k) ==> #[trigger] ends[k] == subtree_end(t, k),
            decreases open.len(),
        {
            let ghost was = open@;
            let last = open.pop().unwrap();
            proof {
                assert(last == before[open.len() as int]);
                lemma_end_is(t, last as int, n as int);
            }
            ends.set(last, n);
            assert forall|k: int| 0 <= k < n && !is_open(t, open@, k) implies #[trigger] ends[k]
                == subtree_end(t, k) by {
                if k != last {
                    assert(!is_open(t, was, k));
                }
            }
        }
        Some(SyntaxTree { nodes, parents, ends })
    }

    /// Number of nodes.
    pub fn len(&self) -> (n: usize)
        ensures
            n == self@.len(),
            preorder(self@),
    {
        proof {
            use_type_invariant(self);
        }
        self.nodes.len()
    }

    /// The node at position `i`.
    pub fn node(&self, i: usize) -> (node: &SyntaxNode)
        requires
            i < self@.len(),
        ensures
            node@ == self@[i as int],
            preorder(self@),
    {
        proof {
            use_type_invariant(self);
        }
        &self.nodes[i]
    }

    /// Whether node `i` is of the kind `kind`.
    pub fn is_kind(&self, i: usize, kind: &str) -> (result: bool)
        requires
            i < self@.len(),
        ensures
            result == (self@[i as int].kind == kind@),
    {
        same_text(self.node(i).kind.as_str(), kind)
    }

    /// The parent of node `i`.
    pub fn parent(&self, i: usize) -> (parent: Option<usize>)
        requires
            i < self@.len(),
        ensures
            position(parent) == parent_of(self@, i as int),
            parent matches Some(p) ==> p < i,
    {
        proof {
            use_type_invariant(self);
            if i > 0 {
                lemma_parent(self@, i as int);
            }
        }
        if i == 0 {
            None
        } else {
            Some(self.parents[i])
        }
    }

    /// The position past the subtree of node `i`.
    pub fn end(&self, i: usize) -> (end: usize)
        requires
            i < self@.len(),
        ensures
            end == subtree_end(self@, i as int),
            i < end <= self@.len(),
    {
        proof {
            use_type_invariant(self);
            lemma_end(self@, i as int);
        }
        self.ends[i]
    }

    /// The children of node `i`, in order.
    pub fn children(&self, i: usize) -> (children: Vec<usize>)
        requires
            i < self@.len(),
        ensures
            positions(children@) == children_of(self@, i as int),
            forall|k: int|
                0 <= k < children.len() ==> i < #[trigger] children[k] < subtree_end(
                    self@,
                    i as int,
                ) <= self@.len(),
    {
        let ghost t = self@;
        let end = self.end(i);
        let mut children: Vec<usize> = Vec::new();
        let mut c: usize = i + 1;
        assert(positions(children@) + siblings_from(t, c as int, end as int) =~= children_of(
            t,
            i as int,
        ));
        while c < end
            invariant
                t == self@,
                i < t.len(),
                end == subtree_end(t, i as int),
                i < c <= end <= t.len(),
                positions(children@) + siblings_from(t, c as int, end as int) == children_of(
                    t,
                    i as int,
                ),
                forall|k: int| 0 <= k < children.len() ==> i < #[trigger] children[k] < end,
            decreases end - c,
        {
            let next = self.end(c);
            let ghost before = positions(children@);
            proof {
                lemma_nested(t, i as int, c as int);
            }
            children.push(c);
            assert(positions(children@) =~= before.push(c as int));
            assert(before + siblings_from(t, c as int, end as int) =~= before.push(c as int)
                + siblings_from(t, next as int, end as int));
            c = next;
        }
        assert(positions(children@) =~= children_of(t, i as int));
        children
    }

    /// Whether node `i` fills the field `field` of its parent.
    pub fn fills(&self, i: usize, field: &str) -> (result: bool)
        requires
            i < self@.len(),
        ensures
            result == (self@[i as int].field == Some(field@)),
    {
        match &self.node(i).field {
            Some(name) => same_text(name.as_str(), field),
            None => false,
        }
    }

    /// The first child of node `i` that fills the field `field`.
    pub fn field(&self, i: usize, field: &str) -> (child: Option<usize>)
        requires
            i < self@.len(),
        ensures
            position(child) == field_of(self@, i as int, field@),
            child matches Some(c) ==> i < c < subtree_end(self@, i as int) <= self@.len(),
    {
        let ghost t = self@;
        let end = self.end(i);
        let mut c: usize = i + 1;
        while c < end
            invariant
                t == self@,
                i < t.len(),
                end == subtree_end(t, i as int),
                i < c <= end <= t.len(),
                in_field(t, siblings_from(t, c as int, end as int), field@) == fields_of(
                    t,
                    i as int,
                    field@,
                ),
            decreases end - c,
        {
            let next = self.end(c);
            proof {
                lemma_nested(t, i as int, c as int);
                let all = siblings_from(t, c as int, end as int);
                assert(all.drop_first() =~= siblings_from(t, next as int, end as int));
                assert(all[0] == c);
            }
            if self.fills(c, field) {
                return Some(c);
            }
            c = next;
        }
        None
    }

    /// The children of node `i` that fill the field `field`, in order.
    pub fn fields(&self, i: usize, field: &str) -> (children: Vec<usize>)
        requires
            i < self@.len(),
        ensures
            positions(children@) == fields_of(self@, i as int, field@),
            forall|k: int|
                0 <= k < children.len() ==> i < #[trigger] children[k] < subtree_end(
                    self@,
                    i as int,
                ) <= self@.len(),
    {
        let ghost t = self@;
        let all = self.children(i);
        let mut children: Vec<usize> = Vec::new();
        let mut k: usize = 0;
        assert(positions(all@).skip(0) =~= positions(all@));
        assert(positions(children@) + fields_of(t, i as int, field@) =~= fields_of(
            t,
            i as int,
            field@,
        ));
        while k < all.len()
            invariant
                t == self@,
                i < t.len(),
                k <= all.len(),
                forall|j: int|
                    0 <= j < all.len() ==> i < #[trigger] all[j] < subtree_end(t, i as int)
                        <= t.len(),
                forall|j: int|
                    0 <= j < children.len() ==> i < #[trigger] children[j] < subtree_end(
                        t,
                        i as int,
                    ) <= t.len(),
                positions(children@) + in_field(t, positions(all@).skip(k as int), field@)
                    == fields_of(t, i as int, field@),
            decreases all.len() - k,
        {
            let ghost before = positions(children@);
            let ghost rest = positions(all@).skip(k as int);
            assert(rest.drop_first() =~= positions(all@).skip(k + 1));
            assert(rest[0] == all@[k as int]);
            if self.fills(all[k], field) {
                children.push(all[k]);
                assert(positions(children@) =~= before.push(all@[k as int] as int));
                assert(before + in_field(t, rest, field@) =~= positions(children@) + in_field(
                    t,
                    rest.drop_first(),
                    field@,
                ));
            }
            k = k + 1;
        }
        assert(positions(children@) + Seq::<int>::empty() =~= positions(children@));
        children
    }

    /// The named children of node `i`, in order.
    pub fn named(&self, i: usize) -> (children: Vec<usize>)
        requires
            i < self@.len(),
        ensures
            positions(children@) == named_of(self@, i as int),
            forall|k: int|
                0 <= k < children.len() ==> i < #[trigger] children[k] < subtree_end(
                    self@,
                    i as int,
                ) <= self@.len(),
    {
        let ghost t = self@;
        let all = self.children(i);
        let mut children: Vec<usize> = Vec::new();
        let mut k: usize = 0;
        assert(positions(all@).skip(0) =~= positions(all@));
        assert(positions(children@) + named_of(t, i as int) =~= named_of(t, i as int));
        while k < all.len()
            invariant
                t == self@,
                i < t.len(),
                k <= all.len(),
                forall|j: int|
                    0 <= j < all.len() ==> i < #[trigger] all[j] < subtree_end(t, i as int)
                        <= t.len(),
                forall|j: int|
                    0 <= j < children.len() ==> i < #[trigger] children[j] < subtree_end(
                        t,
                        i as int,
                    ) <= t.len(),
                positions(children@) + named_in(t, positions(all@).skip(k as int)) == named_of(
                    t,
                    i as int,
                ),
            decreases all.len() - k,
        {
            let ghost before = positions(children@);
            let ghost rest = positions(all@).skip(k as int);
            assert(rest.drop_first() =~= positions(all@).skip(k + 1));
            assert(rest[0] == all@[k as int]);
            if self.node(all[k]).named {
                children.push(all[k]);
                assert(positions(children@) =~= before.push(all@[k as int] as int));
                assert(before + named_in(t, rest) =~= positions(children@) + named_in(
                    t,
                    rest.drop_first(),
                ));
            }
            k = k + 1;
        }
        assert(positions(children@) + Seq::<int>::empty() =~= positions(children@));
        children
    }

    /// The text that node `i` covers.
    pub fn text<'a>(&self, i: usize, source: &'a str) -> (text: &'a str)
        requires
            i < self@.len(),
            span_fits(encode_utf8(source@), self@[i as int]),
        ensures
            text@ == node_text(self@, i as int, source@),
    {
        let start = self.node(i).start_byte;
        let end = self.node(i).end_byte;
        let ghost bytes = encode_utf8(source@);
        proof {
            encode_utf8_valid_utf8(source@);
            lemma_boundary_after(bytes, start as int, end as int);
        }
        let (_, rest) = source.split_at(start);
        let (text, _) = rest.split_at(end - start);
        proof {
            encode_utf8_decode_utf8(text@);
            assert(bytes.subrange(start as int, bytes.len() as int).subrange(0, end - start)
                =~= bytes.subrange(start as int, end as int));
        }
        text
    }
}

} // verus!
