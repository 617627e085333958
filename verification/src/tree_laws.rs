//! What parents, children, fields and subtrees are, said of the depths of nodes.
use vstd::prelude::*;
use vstd::utf8::{
    decode_utf8_encode_utf8, encode_utf8, encode_utf8_valid_utf8, valid_utf8_split,
};
use crate::syntax::{
    children_of, field_of, fields_of, in_field, lemma_boundary_after, lemma_end, lemma_parent,
    lemma_parent_is, named_in, named_of, node_text, parent_of, preorder, siblings_from, span_fits,
    subtree_end, NodeView,
};

verus! {

/// Whether node `k` is inside of node `a`: all nodes after `a`, up to `k`, are deeper than `a`.
pub open spec fn is_inside(t: Seq<NodeView>, a: int, k: int) -> bool {
    &&& 0 <= a < k < t.len()
    &&& forall|m: int| a < m <= k ==> (#[trigger] t[m]).depth > t[a].depth
}

/// Whether node `c` is a child of node `p`: inside of it and one level down.
pub open spec fn is_child(t: Seq<NodeView>, p: int, c: int) -> bool {
    is_inside(t, p, c) && t[c].depth == t[p].depth + 1
}

/// A subtree holds its root and what is inside of it.
pub proof fn law_subtrees(t: Seq<NodeView>, a: int, k: int)
    requires
        0 <= a < t.len(),
    ensures
        a < subtree_end(t, a) <= t.len(),
        is_inside(t, a, k) <==> a < k < subtree_end(t, a),
{
    lemma_end(t, a);
    if is_inside(t, a, k) && k >= subtree_end(t, a) {
        assert(t[subtree_end(t, a)].depth <= t[a].depth);
    }
}

/// The parent of a node is the node whose child it is; only the root has none.
pub proof fn law_parents(t: Seq<NodeView>, p: int, c: int)
    requires
        preorder(t),
        0 <= c < t.len(),
    ensures
        parent_of(t, c) == Some(p) <==> is_child(t, p, c),
        parent_of(t, c) is None <==> c == 0,
{
    if c > 0 {
        lemma_parent(t, c);
        let q = parent_of(t, c)->0;
        law_subtrees(t, q, c);
        if is_child(t, p, c) {
            lemma_parent_is(t, c, p);
        }
    }
}

proof fn lemma_siblings_are(t: Seq<NodeView>, c: int, end: int, d: int, k: int)
    requires
        0 <= c <= end <= t.len(),
        c < end ==> t[c].depth == d,
        forall|m: int| c <= m < end ==> (#[trigger] t[m]).depth >= d,
    ensures
        siblings_from(t, c, end).contains(k) <==> c <= k < end && t[k].depth == d,
        forall|a: int, b: int|
            0 <= a < b < siblings_from(t, c, end).len() ==> (#[trigger] siblings_from(
                t,
                c,
                end,
            )[a]) < #[trigger] siblings_from(t, c, end)[b],
        forall|a: int|
            0 <= a < siblings_from(t, c, end).len() ==> c <= #[trigger] siblings_from(
                t,
                c,
                end,
            )[a] < end,
    decreases end - c,
{
    let all = siblings_from(t, c, end);
    if c < end {
        lemma_end(t, c);
        let next = subtree_end(t, c);
        if next <= end {
            lemma_siblings_are(t, next, end, d, k);
            let rest = siblings_from(t, next, end);
            assert(all == seq![c] + rest);
            assert(all[0] == c);
            assert forall|a: int| 0 < a < all.len() implies #[trigger] all[a] == rest[a - 1] by {}
            if rest.contains(k) {
                let m = choose|m: int| 0 <= m < rest.len() && rest[m] == k;
                assert(all[m + 1] == k);
            }
            if all.contains(k) && k != c {
                let m = choose|m: int| 0 <= m < all.len() && all[m] == k;
                assert(rest[m - 1] == k);
            }
        } else {
            assert(all =~= seq![c]);
            assert(all[0] == c);
        }
    }
}

/// The children of a node, in order and each once.
pub proof fn law_children(t: Seq<NodeView>, p: int, c: int)
    requires
        preorder(t),
        0 <= p < t.len(),
    ensures
        children_of(t, p).contains(c) <==> is_child(t, p, c),
        forall|a: int, b: int|
            0 <= a < b < children_of(t, p).len() ==> (#[trigger] children_of(t, p)[a])
                < #[trigger] children_of(t, p)[b],
{
    lemma_end(t, p);
    let end = subtree_end(t, p);
    if p + 1 < end {
        assert(t[p + 1].depth <= t[p].depth + 1);
    }
    lemma_siblings_are(t, p + 1, end, t[p].depth + 1, c);
    law_subtrees(t, p, c);
}

proof fn lemma_selected(t: Seq<NodeView>, nodes: Seq<int>, field: Seq<char>, c: int)
    requires
        forall|a: int, b: int|
            0 <= a < b < nodes.len() ==> (#[trigger] nodes[a]) < #[trigger] nodes[b],
    ensures
        in_field(t, nodes, field).contains(c) <==> nodes.contains(c) && t[c].field == Some(field),
        named_in(t, nodes).contains(c) <==> nodes.contains(c) && t[c].named,
        forall|a: int, b: int|
            0 <= a < b < in_field(t, nodes, field).len() ==> (#[trigger] in_field(
                t,
                nodes,
                field,
            )[a]) < #[trigger] in_field(t, nodes, field)[b],
        forall|a: int, b: int|
            0 <= a < b < named_in(t, nodes).len() ==> (#[trigger] named_in(t, nodes)[a])
                < #[trigger] named_in(t, nodes)[b],
        forall|a: int|
            0 <= a < in_field(t, nodes, field).len() ==> nodes.len() > 0 && nodes[0]
                <= #[trigger] in_field(t, nodes, field)[a],
        forall|a: int|
            0 <= a < named_in(t, nodes).len() ==> nodes.len() > 0 && nodes[0]
                <= #[trigger] named_in(t, nodes)[a],
    decreases nodes.len(),
{
    if nodes.len() > 0 {
        let first = nodes[0];
        let rest = nodes.drop_first();
        assert forall|a: int, b: int| 0 <= a < b < rest.len() implies (#[trigger] rest[a])
            < #[trigger] rest[b] by {
            assert(nodes[a + 1] < nodes[b + 1]);
        }
        assert(rest.len() > 0 ==> nodes[0] < nodes[1] == rest[0]);
        lemma_selected(t, rest, field, c);
        assert(nodes =~= seq![first] + rest);
        assert(nodes.contains(c) <==> c == first || rest.contains(c)) by {
            if rest.contains(c) {
                let m = choose|m: int| 0 <= m < rest.len() && rest[m] == c;
                assert(nodes[m + 1] == c);
            }
            if nodes.contains(c) && c != first {
                let m = choose|m: int| 0 <= m < nodes.len() && nodes[m] == c;
                assert(rest[m - 1] == c);
            }
            assert(nodes.contains(first));
        }
        lemma_prepended(first, in_field(t, rest, field), c);
        lemma_prepended(first, named_in(t, rest), c);
    }
}

proof fn lemma_prepended(first: int, rest: Seq<int>, c: int)
    requires
        forall|a: int, b: int|
            0 <= a < b < rest.len() ==> (#[trigger] rest[a]) < #[trigger] rest[b],
        forall|a: int| 0 <= a < rest.len() ==> first < #[trigger] rest[a],
    ensures
        (seq![first] + rest).contains(c) <==> c == first || rest.contains(c),
        forall|a: int, b: int|
            0 <= a < b < (seq![first] + rest).len() ==> (#[trigger] (seq![first] + rest)[a])
                < #[trigger] (seq![first] + rest)[b],
        forall|a: int|
            0 <= a < (seq![first] + rest).len() ==> first <= #[trigger] (seq![first] + rest)[a],
{
    let all = seq![first] + rest;
    assert(all[0] == first);
    assert forall|a: int| 0 < a < all.len() implies #[trigger] all[a] == rest[a - 1] by {}
    if rest.contains(c) {
        let m = choose|m: int| 0 <= m < rest.len() && rest[m] == c;
        assert(all[m + 1] == c);
    }
    if all.contains(c) && c != first {
        let m = choose|m: int| 0 <= m < all.len() && all[m] == c;
        assert(rest[m - 1] == c);
    }
}

/// The children of a node that fill a field, and its named children, in order and each once. Of
/// several that fill a field the first counts.
pub proof fn law_fields(t: Seq<NodeView>, p: int, field: Seq<char>, c: int)
    requires
        preorder(t),
        0 <= p < t.len(),
    ensures
        fields_of(t, p, field).contains(c) <==> is_child(t, p, c) && t[c].field == Some(field),
        forall|a: int, b: int|
            0 <= a < b < fields_of(t, p, field).len() ==> (#[trigger] fields_of(t, p, field)[a])
                < #[trigger] fields_of(t, p, field)[b],
        named_of(t, p).contains(c) <==> is_child(t, p, c) && t[c].named,
        forall|a: int, b: int|
            0 <= a < b < named_of(t, p).len() ==> (#[trigger] named_of(t, p)[a])
                < #[trigger] named_of(t, p)[b],
        field_of(t, p, field) matches Some(first) ==> is_child(t, p, first) && t[first].field
            == Some(field),
        is_child(t, p, c) && t[c].field == Some(field) ==> (field_of(t, p, field) matches Some(
            first,
        ) && first <= c),
{
    law_children(t, p, c);
    let nodes = children_of(t, p);
    lemma_selected(t, nodes, field, c);
    let all = fields_of(t, p, field);
    if all.len() > 0 {
        law_children(t, p, all[0]);
        lemma_selected(t, nodes, field, all[0]);
        assert(all.contains(all[0]));
    }
    if all.contains(c) {
        let m = choose|m: int| 0 <= m < all.len() && all[m] == c;
        assert(m > 0 ==> all[0] < all[m]);
    }
}

/// The text of a node is the bytes that it covers, neither more nor fewer.
pub proof fn law_texts_of_nodes(t: Seq<NodeView>, i: int, source: Seq<char>)
    requires
        span_fits(encode_utf8(source), t[i]),
    ensures
        encode_utf8(node_text(t, i, source)) == encode_utf8(source).subrange(
            t[i].start_byte,
            t[i].end_byte,
        ),
{
    let bytes = encode_utf8(source);
    let start = t[i].start_byte;
    let end = t[i].end_byte;
    encode_utf8_valid_utf8(source);
    lemma_boundary_after(bytes, start, end);
    let rest = bytes.subrange(start, bytes.len() as int);
    valid_utf8_split(rest, end - start);
    assert(rest.subrange(0, end - start) =~= bytes.subrange(start, end));
    decode_utf8_encode_utf8(bytes.subrange(start, end));
}

} // verus!
