//! What trimming, cutting and joining do to a text, said of its characters.
use vstd::prelude::*;
use crate::name_laws::law_paths_split_into_their_names;
use crate::text::{
    decimal, digit, has_suffix, is_identifier, is_white_space, joined, last_segment,
    last_separator, leading_end, lemma_joined_push, name_parts, next_separator, past_separators,
    segments_from, separator_at, trailing_start, trimmed, trimmed_segments, trimmed_start,
    unicode_alphanumeric, unprefixed,
};

verus! {

/// Whether `::` stands at position `k` of `s`.
pub open spec fn has_colons_at(s: Seq<char>, k: int) -> bool {
    0 <= k && k + 1 < s.len() && s[k] == ':' && s[k + 1] == ':'
}

/// What follows the last `::` of a text: it holds no `::`, and it is the whole text or follows one.
pub proof fn law_last_segment(s: Seq<char>)
    ensures
        ({
            let name = last_segment(s);
            let from = s.len() - name.len();
            &&& from >= 0
            &&& s.skip(from) == name
            &&& forall|k: int| !#[trigger] has_colons_at(name, k)
            &&& from == 0 || has_colons_at(s, from - 2)
            &&& (forall|k: int| !#[trigger] has_colons_at(s, k)) ==> name == s
        }),
{
    lemma_last_separator(s, s.len() - 1);
    let at = last_separator(s, s.len() - 1);
    let name = last_segment(s);
    assert(s.skip(0) =~= s);
    assert forall|k: int| !#[trigger] has_colons_at(name, k) by {
        if has_colons_at(name, k) {
            let from = s.len() - name.len();
            assert(separator_at(s, from + k));
        }
    }
    if at >= 0 {
        assert(has_colons_at(s, at));
    }
}

proof fn lemma_last_separator(s: Seq<char>, i: int)
    requires
        -1 <= i < s.len(),
    ensures
        -1 <= last_separator(s, i) <= i,
        last_separator(s, i) >= 0 ==> separator_at(s, last_separator(s, i)),
        forall|k: int| last_separator(s, i) < k <= i ==> !#[trigger] separator_at(s, k),
    decreases i + 1,
{
    if i >= 0 && !separator_at(s, i) {
        lemma_last_separator(s, i - 1);
    }
}

/// Trimming takes white space away at both ends, all of it and nothing else.
pub proof fn law_trimmed(s: Seq<char>)
    ensures
        exists|from: int|
            #![trigger s.subrange(from, from + trimmed(s).len())]
            {
                &&& 0 <= from <= from + trimmed(s).len() <= s.len()
                &&& trimmed(s) == s.subrange(from, from + trimmed(s).len())
                &&& forall|k: int| 0 <= k < from ==> is_white_space(#[trigger] s[k])
                &&& forall|k: int|
                    from + trimmed(s).len() <= k < s.len() ==> is_white_space(#[trigger] s[k])
            },
        trimmed(s).len() > 0 ==> !is_white_space(trimmed(s)[0]) && !is_white_space(
            trimmed(s).last(),
        ),
{
    let from = leading_end(s, 0);
    let to = trailing_start(s, s.len() as int);
    lemma_leading(s, 0);
    lemma_trailing(s, s.len() as int);
    if from < to {
        assert(trimmed(s) =~= s.subrange(from, from + trimmed(s).len()));
    } else {
        let end = s.len() as int;
        assert(trimmed(s) =~= s.subrange(end, end + trimmed(s).len()));
        if from < s.len() {
            assert(is_white_space(s[from]));
        }
    }
}

/// Trimming the start takes away the white space before the first other character.
pub proof fn law_trimmed_start(s: Seq<char>)
    ensures
        ({
            let from = s.len() - trimmed_start(s).len();
            &&& from >= 0
            &&& trimmed_start(s) == s.skip(from)
            &&& forall|k: int| 0 <= k < from ==> is_white_space(#[trigger] s[k])
            &&& trimmed_start(s).len() > 0 ==> !is_white_space(trimmed_start(s)[0])
        }),
{
    lemma_leading(s, 0);
}

proof fn lemma_leading(s: Seq<char>, i: int)
    requires
        0 <= i <= s.len(),
    ensures
        i <= leading_end(s, i) <= s.len(),
        forall|k: int| i <= k < leading_end(s, i) ==> is_white_space(#[trigger] s[k]),
        leading_end(s, i) < s.len() ==> !is_white_space(s[leading_end(s, i)]),
    decreases s.len() - i,
{
    if i < s.len() && is_white_space(s[i]) {
        lemma_leading(s, i + 1);
    }
}

proof fn lemma_trailing(s: Seq<char>, i: int)
    requires
        0 <= i <= s.len(),
    ensures
        0 <= trailing_start(s, i) <= i,
        forall|k: int| trailing_start(s, i) <= k < i ==> is_white_space(#[trigger] s[k]),
        trailing_start(s, i) > 0 ==> !is_white_space(s[trailing_start(s, i) - 1]),
    decreases i,
{
    if 0 < i && is_white_space(s[i - 1]) {
        lemma_trailing(s, i - 1);
    }
}

/// Taking away the `::` at the start leaves a text that does not start with it.
pub proof fn law_unprefixed(s: Seq<char>)
    ensures
        !has_colons_at(unprefixed(s), 0),
        !has_colons_at(s, 0) ==> unprefixed(s) == s,
        has_colons_at(s, 0) ==> unprefixed(s) == unprefixed(s.skip(2)),
    decreases s.len(),
{
    lemma_past(s, 0);
    assert(s.skip(0) =~= s);
    if has_colons_at(s, 0) {
        lemma_past_rest(s, 2);
        lemma_past(s, 2);
        let rest = s.skip(2);
        assert(rest.skip(past_separators(rest, 0)) =~= s.skip(past_separators(s, 0)));
    }
}

proof fn lemma_past(s: Seq<char>, i: int)
    requires
        0 <= i <= s.len(),
    ensures
        i <= past_separators(s, i) <= s.len(),
        !separator_at(s, past_separators(s, i)),
    decreases s.len() - i,
{
    if separator_at(s, i) {
        lemma_past(s, i + 2);
    }
}

proof fn lemma_past_rest(s: Seq<char>, i: int)
    requires
        2 <= i <= s.len(),
    ensures
        past_separators(s.skip(2), i - 2) + 2 == past_separators(s, i),
    decreases s.len() - i,
{
    assert(separator_at(s, i) == separator_at(s.skip(2), i - 2));
    if separator_at(s, i) {
        lemma_past_rest(s, i + 2);
    }
}

/// A text has a suffix where it ends with its characters.
pub proof fn law_suffixes(prefix: Seq<char>, suffix: Seq<char>, s: Seq<char>)
    ensures
        has_suffix(prefix + suffix, suffix),
        has_suffix(s, suffix) ==> s == s.take(s.len() - suffix.len()) + suffix,
{
    let whole = prefix + suffix;
    assert(whole.skip(whole.len() - suffix.len()) =~= suffix);
    if has_suffix(s, suffix) {
        let tail = s.skip(s.len() - suffix.len());
        assert forall|k: int| s.len() - suffix.len() <= k < s.len() implies s[k] == suffix[k - (
        s.len() - suffix.len())] by {
            assert(tail[k - (s.len() - suffix.len())] == s[k]);
        }
        assert(s =~= s.take(s.len() - suffix.len()) + suffix);
    }
}

/// A letter or a digit of ASCII, or an underscore.
pub open spec fn is_word_char(c: char) -> bool {
    c == '_' || '0' <= c <= '9' || 'a' <= c <= 'z' || 'A' <= c <= 'Z'
}

/// A letter or a digit of another script.
pub open spec fn is_foreign_word_char(c: char) -> bool {
    c > '\u{7f}' && !is_white_space(c) && unicode_alphanumeric(c)
}

/// Letters and digits of any script, and underscores, make an identifier; no other character does.
pub proof fn law_identifiers(s: Seq<char>)
    ensures
        s.len() > 0 && (forall|k: int|
            0 <= k < s.len() ==> is_word_char(#[trigger] s[k]) || is_foreign_word_char(s[k]))
            ==> is_identifier(s),
        is_identifier(s) ==> forall|k: int|
            0 <= k < s.len() ==> is_word_char(#[trigger] s[k]) || is_foreign_word_char(s[k]),
        s.len() > 0 && (forall|k: int| 0 <= k < s.len() ==> is_word_char(#[trigger] s[k]))
            ==> is_identifier(s),
        is_identifier(s) ==> s.len() > 0 && forall|k: int|
            0 <= k < s.len() && (#[trigger] s[k]) <= '\u{7f}' ==> is_word_char(s[k]),
        is_identifier(s) ==> forall|k: int| 0 <= k < s.len() ==> !is_white_space(#[trigger] s[k]),
        is_identifier(s) ==> name_parts(s) == Some(seq![s]),
{
    if is_identifier(s) {
        let names = seq![s];
        law_paths_split_into_their_names(names);
        assert(joined(names) == s);
    }
}

/// Joining puts `::` between names, and nowhere else.
pub proof fn law_joined(names: Seq<Seq<char>>, name: Seq<char>)
    ensures
        joined(Seq::empty()) == Seq::<char>::empty(),
        joined(seq![name]) == name,
        names.len() > 0 ==> joined(names.push(name)) == joined(names) + seq![':', ':'] + name,
{
    lemma_joined_push(names, name);
    lemma_joined_push(Seq::empty(), name);
    assert(Seq::<Seq<char>>::empty().push(name) =~= seq![name]);
    assert(Seq::<char>::empty() + name =~= name);
}

/// A name that is made of parts holds, between its first `::` and its last, only identifiers: a
/// part with any other character makes it none.
pub proof fn law_names_without_parts(s: Seq<char>, k: int)
    requires
        0 <= k < s.len(),
        s[k] <= '\u{7f}',
        !is_word_char(s[k]),
        s[k] != ':',
        !is_white_space(s[k]),
    ensures
        name_parts(s) is None,
{
    if name_parts(s) is Some {
        lemma_bad_segment(s, 0, k);
        let m = choose|m: int|
            0 <= m < segments_from(s, 0).len() && (#[trigger] segments_from(s, 0)[m]).contains(
                s[k],
            );
        let segment = segments_from(s, 0)[m];
        let part = trimmed_segments(s)[m];
        assert(part == trimmed(segment));
        law_trimmed(segment);
        let from = choose|from: int|
            #![trigger segment.subrange(from, from + part.len())]
            {
                &&& 0 <= from <= from + part.len() <= segment.len()
                &&& part == segment.subrange(from, from + part.len())
                &&& forall|k: int| 0 <= k < from ==> is_white_space(#[trigger] segment[k])
                &&& forall|k: int|
                    from + part.len() <= k < segment.len() ==> is_white_space(#[trigger] segment[k])
            };
        let j = choose|j: int| 0 <= j < segment.len() && segment[j] == s[k];
        assert(part[j - from] == s[k]);
        assert(is_identifier(part));
        law_identifiers(part);
    }
}

/// A character that is no colon stands in some segment.
proof fn lemma_bad_segment(s: Seq<char>, i: int, k: int)
    requires
        0 <= i <= k < s.len(),
        s[k] != ':',
    ensures
        exists|m: int|
            0 <= m < segments_from(s, i).len() && (#[trigger] segments_from(s, i)[m]).contains(
                s[k],
            ),
    decreases s.len() - i,
{
    let at = next_separator(s, i);
    let all = segments_from(s, i);
    lemma_next(s, i);
    if at + 1 < s.len() {
        if k < at {
            assert(all[0] == s.subrange(i, at));
            assert(all[0][k - i] == s[k]);
        } else {
            assert(k >= at + 2);
            lemma_bad_segment(s, at + 2, k);
            let rest = segments_from(s, at + 2);
            let m = choose|m: int| 0 <= m < rest.len() && (#[trigger] rest[m]).contains(s[k]);
            assert(all[m + 1] == rest[m]);
        }
    } else {
        assert(all[0] == s.skip(i));
        assert(all[0][k - i] == s[k]);
    }
}

proof fn lemma_next(s: Seq<char>, i: int)
    requires
        0 <= i <= s.len(),
    ensures
        i <= next_separator(s, i) <= s.len(),
        next_separator(s, i) < s.len() ==> separator_at(
            s,
            next_separator(s, i),
        ),
    decreases s.len() - i,
{
    if i < s.len() && !separator_at(s, i) {
        lemma_next(s, i + 1);
    }
}

/// The number that decimal digits stand for.
pub open spec fn value_of(digits: Seq<char>) -> int
    decreases digits.len(),
{
    if digits.len() == 0 {
        0
    } else {
        value_of(digits.drop_last()) * 10 + (digits.last() as int - '0' as int)
    }
}

/// Decimal digits stand for their number, and do not start with a zero unless it is zero.
pub proof fn law_decimal(n: nat)
    ensures
        value_of(decimal(n)) == n,
        decimal(n).len() > 0,
        forall|k: int| 0 <= k < decimal(n).len() ==> '0' <= #[trigger] decimal(n)[k] <= '9',
        n > 0 ==> decimal(n)[0] != '0',
    decreases n,
{
    let digits = decimal(n);
    if n < 10 {
        assert(digits.drop_last() =~= Seq::<char>::empty());
        assert(digits.last() == digit(n));
        assert(value_of(digits.drop_last()) == 0);
    } else {
        law_decimal(n / 10);
        assert(digits.drop_last() =~= decimal(n / 10));
        assert(digits.last() == digit(n % 10));
        assert(digits[0] == decimal(n / 10)[0]);
    }
}

} // verus!
