//! Texts in which annotations are blanked out, byte for byte.
use vstd::prelude::*;
use vstd::utf8::{
    is_char_boundary, is_char_boundary_iff_not_is_continuation_byte,
    is_char_boundary_start_end_of_seq, is_leading_byte_width_1, pop_first_scalar, valid_utf8,
};
use crate::syntax::{fits, line_feeds, rows_count, rows_fit, span_fits, NodeView};

verus! {

/// An ASCII capital letter.
pub open spec fn is_capital(b: u8) -> bool {
    0x41 <= b <= 0x5a
}

/// A byte that may stand in the name of an annotation.
pub open spec fn is_annotation_byte(b: u8) -> bool {
    is_capital(b) || 0x30 <= b <= 0x39 || b == 0x5f
}

/// Whether a name is spelled like an annotation: three or more capitals, digits and underscores,
/// with some capital.
pub open spec fn is_annotation(name: Seq<u8>) -> bool {
    &&& name.len() >= 3
    &&& exists|k: int| 0 <= k < name.len() && is_capital(#[trigger] name[k])
    &&& forall|k: int| 0 <= k < name.len() ==> is_annotation_byte(#[trigger] name[k])
}

/// Whether the bytes from `start` up to `end` are spelled like an annotation.
pub fn spells_annotation(bytes: &[u8], start: usize, end: usize) -> (result: bool)
    requires
        start <= end <= bytes@.len(),
    ensures
        result == is_annotation(bytes@.subrange(start as int, end as int)),
{
    let ghost name = bytes@.subrange(start as int, end as int);
    if end - start < 3 {
        return false;
    }
    let mut capital = false;
    let mut k: usize = start;
    while k < end
        invariant
            start <= k <= end <= bytes@.len(),
            name == bytes@.subrange(start as int, end as int),
            capital == exists|j: int| 0 <= j < k - start && is_capital(#[trigger] name[j]),
            forall|j: int| 0 <= j < k - start ==> is_annotation_byte(#[trigger] name[j]),
        decreases end - k,
    {
        let b = bytes[k];
        assert(name[k - start] == b);
        if 0x41 <= b && b <= 0x5a {
            capital = true;
        } else if !(0x30 <= b && b <= 0x39 || b == 0x5f) {
            assert(!is_annotation_byte(name[k - start]));
            return false;
        }
        k = k + 1;
    }
    capital
}

/// Whether `b` is `a` with some bytes of annotations made blank.
pub open spec fn is_blanked(a: Seq<u8>, b: Seq<u8>) -> bool {
    &&& a.len() == b.len()
    &&& forall|k: int|
        0 <= k < a.len() ==> #[trigger] b[k] == a[k] || b[k] == 0x20 && is_annotation_byte(a[k])
}

/// Blanking out keeps a text valid UTF-8.
pub proof fn lemma_blanked_utf8(a: Seq<u8>, b: Seq<u8>)
    requires
        is_blanked(a, b),
        valid_utf8(a),
    ensures
        valid_utf8(b),
    decreases a.len(),
{
    if a.len() > 0 {
        let rest = pop_first_scalar(a);
        let blank = pop_first_scalar(b);
        let first = b[0];
        if is_leading_byte_width_1(a[0]) {
            assert(first < 0x80 ==> (first & 0x7f) as u32 <= 0x7f) by (bit_vector);
        } else {
            assert(b[0] == a[0]);
        }
        assert forall|k: int| 0 <= k < rest.len() implies #[trigger] blank[k] == rest[k]
            || blank[k] == 0x20 && is_annotation_byte(rest[k]) by {
            let n = a.len() - rest.len();
            assert(rest[k] == a[k + n] && blank[k] == b[k + n]);
        }
        lemma_blanked_utf8(rest, blank);
    }
}

/// Blanking out keeps the boundaries between characters.
pub proof fn lemma_blanked_boundary(a: Seq<u8>, b: Seq<u8>, index: int)
    requires
        is_blanked(a, b),
        valid_utf8(a),
        0 <= index <= a.len(),
    ensures
        is_char_boundary(a, index) == is_char_boundary(b, index),
{
    lemma_blanked_utf8(a, b);
    if index < a.len() {
        is_char_boundary_iff_not_is_continuation_byte(a, index);
        is_char_boundary_iff_not_is_continuation_byte(b, index);
    } else {
        is_char_boundary_start_end_of_seq(a);
        is_char_boundary_start_end_of_seq(b);
    }
}

/// Blanking out keeps the line feeds.
pub proof fn lemma_blanked_lines(a: Seq<u8>, b: Seq<u8>, n: int)
    requires
        is_blanked(a, b),
        n <= a.len(),
    ensures
        line_feeds(a, n) == line_feeds(b, n),
    decreases n,
{
    if n > 0 {
        lemma_blanked_lines(a, b, n - 1);
        assert(b[n - 1] == a[n - 1] || b[n - 1] == 0x20 && is_annotation_byte(a[n - 1]));
    }
}

/// What fits a text fits it with annotations blanked out, and the other way round: every offset,
/// every row and every boundary between characters stays where it is.
pub proof fn lemma_blanked_fits(t: Seq<NodeView>, a: Seq<u8>, b: Seq<u8>)
    requires
        is_blanked(a, b),
        valid_utf8(a),
    ensures
        valid_utf8(b),
        fits(t, a) == fits(t, b),
        fits(t, a) ==> rows_fit(t, a) == rows_fit(t, b),
{
    lemma_blanked_utf8(a, b);
    assert forall|i: int| 0 <= i < t.len() implies span_fits(a, #[trigger] t[i]) == span_fits(
        b,
        t[i],
    ) by {
        if 0 <= t[i].start_byte <= t[i].end_byte <= a.len() {
            lemma_blanked_boundary(a, b, t[i].start_byte);
            lemma_blanked_boundary(a, b, t[i].end_byte);
        }
    }
    if fits(t, a) {
        assert forall|i: int| 0 <= i < t.len() implies rows_count(a, #[trigger] t[i])
            == rows_count(b, t[i]) by {
            assert(span_fits(a, t[i]));
            lemma_blanked_lines(a, b, t[i].start_byte);
            lemma_blanked_lines(a, b, t[i].end_byte);
        }
        if rows_fit(t, a) {
            assert forall|i: int| 0 <= i < t.len() implies rows_count(b, #[trigger] t[i]) by {
                assert(rows_count(a, t[i]));
            }
        }
        if rows_fit(t, b) {
            assert forall|i: int| 0 <= i < t.len() implies rows_count(a, #[trigger] t[i]) by {
                assert(rows_count(b, t[i]));
            }
        }
    }
    if fits(t, a) {
        assert forall|i: int| 0 <= i < t.len() implies span_fits(b, #[trigger] t[i]) by {
            assert(span_fits(a, t[i]));
        }
    }
    if fits(t, b) {
        assert forall|i: int| 0 <= i < t.len() implies span_fits(a, #[trigger] t[i]) by {
            assert(span_fits(b, t[i]));
        }
    }
}

} // verus!
