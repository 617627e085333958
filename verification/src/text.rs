//! Character-level text: qualified names, trimming, and number formatting.
use vstd::prelude::*;
use vstd::utf8::{decode_utf8, encode_utf8, encode_utf8_decode_utf8};

verus! {

/// Whether `char::is_alphanumeric` holds of a character that is neither ASCII nor white space.
pub uninterp spec fn unicode_alphanumeric(c: char) -> bool;

/// ASCII digits and letters.
pub open spec fn ascii_alphanumeric(c: char) -> bool {
    ('0' <= c <= '9') || ('a' <= c <= 'z') || ('A' <= c <= 'Z')
}

/// The characters with the Unicode property White_Space.
pub open spec fn is_white_space(c: char) -> bool {
    ||| '\t' <= c <= '\r'
    ||| c == ' '
    ||| c == '\u{85}'
    ||| c == '\u{a0}'
    ||| c == '\u{1680}'
    ||| '\u{2000}' <= c <= '\u{200a}'
    ||| c == '\u{2028}'
    ||| c == '\u{2029}'
    ||| c == '\u{202f}'
    ||| c == '\u{205f}'
    ||| c == '\u{3000}'
}

/// Letters and digits of any script.
pub open spec fn is_alphanumeric(c: char) -> bool {
    if c <= '\u{7f}' {
        ascii_alphanumeric(c)
    } else {
        !is_white_space(c) && unicode_alphanumeric(c)
    }
}

/// `char::is_alphanumeric`: on ASCII characters it is true of exactly the digits and the letters;
/// it is false of white space; on any other character the answer depends on that character alone.
pub assume_specification[ char::is_alphanumeric ](c: char) -> (result: bool)
    ensures
        c <= '\u{7f}' ==> result == ascii_alphanumeric(c),
        is_white_space(c) ==> !result,
        c > '\u{7f}' && !is_white_space(c) ==> result == unicode_alphanumeric(c),
;

/// `char::is_whitespace`: whether a character has the Unicode property White_Space.
pub assume_specification[ char::is_whitespace ](c: char) -> (result: bool)
    ensures
        result == is_white_space(c),
;

/// `String::push` appends one character.
pub assume_specification[ String::push ](s: &mut String, c: char)
    ensures
        final(s)@ == old(s)@.push(c),
;

/// Equality of two strings.
pub fn same_text(a: &str, b: &str) -> (same: bool)
    ensures
        same == (a@ == b@),
{
    broadcast use encode_utf8_decode_utf8;

    let x = a.as_bytes();
    let y = b.as_bytes();
    assert(decode_utf8(encode_utf8(a@)) == a@);
    assert(decode_utf8(encode_utf8(b@)) == b@);
    if x.len() != y.len() {
        return false;
    }
    let mut i: usize = 0;
    while i < x.len()
        invariant
            x@ == encode_utf8(a@),
            y@ == encode_utf8(b@),
            x.len() == y.len(),
            i <= x.len(),
            forall|k: int| 0 <= k < i ==> x@[k] == y@[k],
        decreases x.len() - i,
    {
        if x[i] != y[i] {
            return false;
        }
        i = i + 1;
    }
    assert(x@ =~= y@);
    true
}

/// The characters of a string.
pub fn characters(s: &str) -> (chars: Vec<char>)
    ensures
        chars@ == s@,
{
    let mut chars: Vec<char> = Vec::new();
    for c in it: s.chars()
        invariant
            chars@ == it.seq().take(it.index()),
            it.seq() == s@,
    {
        chars.push(c);
        assert(it.seq().take(it.index()).push(c) =~= it.seq().take(it.index() + 1));
    }
    assert(s@.take(s@.len() as int) =~= s@);
    chars
}

/// The string of the characters from `from` up to `to`.
pub fn string_of(chars: &Vec<char>, from: usize, to: usize) -> (s: String)
    requires
        from <= to <= chars.len(),
    ensures
        s@ == chars@.subrange(from as int, to as int),
{
    let mut s = String::new();
    let mut i: usize = from;
    while i < to
        invariant
            from <= i <= to <= chars.len(),
            s@ == chars@.subrange(from as int, i as int),
        decreases to - i,
    {
        s.push(chars[i]);
        i = i + 1;
        assert(chars@.subrange(from as int, i as int) =~= chars@.subrange(
            from as int,
            i - 1,
        ).push(chars@[i - 1]));
    }
    s
}

// ---------------------------------------------------------------------------------------------
// White space

/// The first position at or after `i` whose character is not white space, or the length.
pub open spec fn leading_end(s: Seq<char>, i: int) -> int
    decreases s.len() - i,
{
    if 0 <= i < s.len() && is_white_space(s[i]) {
        leading_end(s, i + 1)
    } else {
        i
    }
}

/// The last position at or before `i` whose preceding character is not white space, or zero.
pub open spec fn trailing_start(s: Seq<char>, i: int) -> int
    decreases i,
{
    if 0 < i <= s.len() && is_white_space(s[i - 1]) {
        trailing_start(s, i - 1)
    } else {
        i
    }
}

/// `s` without the white space at its start and at its end.
pub open spec fn trimmed(s: Seq<char>) -> Seq<char> {
    let from = leading_end(s, 0);
    let to = trailing_start(s, s.len() as int);
    if from < to {
        s.subrange(from, to)
    } else {
        Seq::empty()
    }
}

/// `s` without the white space at its start.
pub open spec fn trimmed_start(s: Seq<char>) -> Seq<char> {
    s.skip(leading_end(s, 0))
}

/// First position of `chars[from..to]` that is not white space, or `to`.
fn skip_leading(chars: &Vec<char>, from: usize, to: usize) -> (at: usize)
    requires
        from <= to <= chars.len(),
    ensures
        from <= at <= to,
        at - from == leading_end(chars@.subrange(from as int, to as int), 0),
{
    let ghost s = chars@.subrange(from as int, to as int);
    let mut at: usize = from;
    while at < to && chars[at].is_whitespace()
        invariant
            from <= at <= to <= chars.len(),
            s == chars@.subrange(from as int, to as int),
            leading_end(s, 0) == leading_end(s, at - from),
        decreases to - at,
    {
        at = at + 1;
    }
    at
}

/// `chars[from..to]` without white space around it, as bounds of the same vector.
fn trim_bounds(chars: &Vec<char>, from: usize, to: usize) -> (bounds: (usize, usize))
    requires
        from <= to <= chars.len(),
    ensures
        from <= bounds.0 <= bounds.1 <= to,
        chars@.subrange(bounds.0 as int, bounds.1 as int) == trimmed(
            chars@.subrange(from as int, to as int),
        ),
{
    let ghost s = chars@.subrange(from as int, to as int);
    let start = skip_leading(chars, from, to);
    let mut end: usize = to;
    while from < end && chars[end - 1].is_whitespace()
        invariant
            from <= end <= to <= chars.len(),
            s == chars@.subrange(from as int, to as int),
            trailing_start(s, s.len() as int) == trailing_start(s, end - from),
        decreases end,
    {
        end = end - 1;
    }
    if start < end {
        assert(s.subrange(start - from, end - from) =~= chars@.subrange(start as int, end as int));
        (start, end)
    } else {
        assert(chars@.subrange(start as int, start as int) =~= Seq::<char>::empty());
        (start, start)
    }
}

// ---------------------------------------------------------------------------------------------
// Names separated by `::`

/// The separator between the segments of a qualified name.
pub open spec fn separator() -> Seq<char> {
    seq![':', ':']
}

/// Whether a separator starts at position `k`.
pub open spec fn separator_at(s: Seq<char>, k: int) -> bool {
    0 <= k && k + 1 < s.len() && s[k] == ':' && s[k + 1] == ':'
}

/// The first position at or after `i` where a separator starts, or the length.
pub open spec fn next_separator(s: Seq<char>, i: int) -> int
    decreases s.len() - i,
{
    if i < 0 || i >= s.len() {
        s.len() as int
    } else if separator_at(s, i) {
        i
    } else {
        next_separator(s, i + 1)
    }
}

/// The segments of `s` from position `i` on, cut at each separator found from left to right.
pub open spec fn segments_from(s: Seq<char>, i: int) -> Seq<Seq<char>>
    decreases s.len() - i,
{
    let k = next_separator(s, i);
    if 0 <= i <= k && k + 1 < s.len() {
        seq![s.subrange(i, k)] + segments_from(s, k + 2)
    } else {
        seq![s.skip(i)]
    }
}

/// A character that may stand in an identifier.
pub open spec fn identifier_char(c: char) -> bool {
    c == '_' || is_alphanumeric(c)
}

/// A nonempty run of identifier characters.
pub open spec fn is_identifier(s: Seq<char>) -> bool {
    s.len() > 0 && forall|i: int| 0 <= i < s.len() ==> identifier_char(#[trigger] s[i])
}

/// The segments of `s` with the white space around each removed.
pub open spec fn trimmed_segments(s: Seq<char>) -> Seq<Seq<char>> {
    segments_from(s, 0).map_values(|segment: Seq<char>| trimmed(segment))
}

/// The identifiers that make up a qualified name, or nothing where some segment is no identifier.
pub open spec fn name_parts(s: Seq<char>) -> Option<Seq<Seq<char>>> {
    let parts = trimmed_segments(s);
    if forall|i: int| 0 <= i < parts.len() ==> is_identifier(#[trigger] parts[i]) {
        Some(parts)
    } else {
        None
    }
}

/// The texts of a sequence of strings.
pub open spec fn texts(strings: Seq<String>) -> Seq<Seq<char>> {
    strings.map_values(|s: String| s@)
}

fn find_separator(chars: &Vec<char>, from: usize) -> (at: usize)
    requires
        from <= chars.len(),
    ensures
        at == next_separator(chars@, from as int),
        from <= at <= chars.len(),
        at < chars.len() ==> separator_at(chars@, at as int),
{
    let mut at: usize = from;
    while at < chars.len()
        invariant
            from <= at <= chars.len(),
            next_separator(chars@, from as int) == next_separator(chars@, at as int),
        decreases chars.len() - at,
    {
        if at + 1 < chars.len() && chars[at] == ':' && chars[at + 1] == ':' {
            return at;
        }
        at = at + 1;
    }
    at
}

fn all_identifier_chars(chars: &Vec<char>, from: usize, to: usize) -> (all: bool)
    requires
        from <= to <= chars.len(),
    ensures
        all == is_identifier(chars@.subrange(from as int, to as int)),
{
    let ghost s = chars@.subrange(from as int, to as int);
    if from == to {
        return false;
    }
    let mut i: usize = from;
    while i < to
        invariant
            from <= i <= to <= chars.len(),
            s == chars@.subrange(from as int, to as int),
            forall|k: int| 0 <= k < i - from ==> identifier_char(#[trigger] s[k]),
        decreases to - i,
    {
        let c = chars[i];
        assert(s[i - from] == c);
        if !(c == '_' || c.is_alphanumeric()) {
            return false;
        }
        i = i + 1;
    }
    true
}

/// The identifiers of a name qualified by `::`; `None` where a segment is empty or holds a
/// character that is neither an underscore nor alphanumeric.
pub fn parts(value: &str) -> (result: Option<Vec<String>>)
    ensures
        match result {
            Some(names) => name_parts(value@) == Some(texts(names@)),
            None => name_parts(value@) is None,
        },
{
    let chars = characters(value);
    let mut names: Vec<String> = Vec::new();
    let mut from: usize = 0;
    let ghost all = segments_from(chars@, 0);
    let ghost parts = trimmed_segments(chars@);
    assert(all == Seq::<Seq<char>>::empty() + segments_from(chars@, 0));
    loop
        invariant
            from <= chars.len(),
            chars@ == value@,
            all == segments_from(chars@, 0),
            parts == trimmed_segments(chars@),
            names.len() + segments_from(chars@, from as int).len() == all.len(),
            all.skip(names.len() as int) == segments_from(chars@, from as int),
            texts(names@) == parts.take(names.len() as int),
            forall|i: int| 0 <= i < names.len() ==> is_identifier(#[trigger] parts[i]),
        decreases chars.len() - from + 1,
    {
        let at = find_separator(&chars, from);
        let ghost k = names.len() as int;
        let ghost rest = segments_from(chars@, from as int);
        assert(rest.len() > 0);
        assert(all[k] == all.skip(k)[0]);
        assert(at == chars.len() ==> chars@.subrange(from as int, at as int) =~= chars@.skip(
            from as int,
        ));
        assert(rest[0] == chars@.subrange(from as int, at as int));
        assert(parts[k] == trimmed(rest[0]));
        let (start, end) = trim_bounds(&chars, from, at);
        if !all_identifier_chars(&chars, start, end) {
            return None;
        }
        names.push(string_of(&chars, start, end));
        assert(texts(names@) =~= parts.take(k + 1));
        if at == chars.len() {
            assert(parts.take(k + 1) =~= parts);
            return Some(names);
        }
        assert(rest =~= seq![rest[0]] + segments_from(chars@, at + 2));
        assert(all.skip(k + 1) =~= segments_from(chars@, at + 2)) by {
            assert(all.skip(k + 1) =~= all.skip(k).skip(1));
            assert(rest.skip(1) =~= segments_from(chars@, at + 2));
        }
        from = at + 2;
    }
}

/// The first position at or after `i`, in steps of one separator, where no separator starts.
pub open spec fn past_separators(s: Seq<char>, i: int) -> int
    decreases s.len() - i,
{
    if separator_at(s, i) {
        past_separators(s, i + 2)
    } else {
        i
    }
}

/// `s` without the separators at its start.
pub open spec fn unprefixed(s: Seq<char>) -> Seq<char> {
    s.skip(past_separators(s, 0))
}

/// The last position at or before `i` where a separator starts, or a negative number.
pub open spec fn last_separator(s: Seq<char>, i: int) -> int
    decreases i + 1,
{
    if i < 0 || separator_at(s, i) {
        i
    } else {
        last_separator(s, i - 1)
    }
}

/// What follows the last separator of `s`; all of `s` where there is none.
pub open spec fn last_segment(s: Seq<char>) -> Seq<char> {
    let k = last_separator(s, s.len() - 1);
    if k < 0 {
        s
    } else {
        s.skip(k + 2)
    }
}

/// `value` without the separators at its start.
pub fn strip_separators(value: &str) -> (result: String)
    ensures
        result@ == unprefixed(value@),
{
    let chars = characters(value);
    let mut from: usize = 0;
    while chars.len() - from > 1 && chars[from] == ':' && chars[from + 1] == ':'
        invariant
            from <= chars.len(),
            past_separators(chars@, 0) == past_separators(chars@, from as int),
        decreases chars.len() - from,
    {
        from = from + 2;
    }
    string_of(&chars, from, chars.len())
}

/// Whether `value` starts with a separator.
pub fn starts_with_separator(value: &str) -> (result: bool)
    ensures
        result == separator_at(value@, 0),
{
    let chars = characters(value);
    chars.len() > 1 && chars[0] == ':' && chars[1] == ':'
}

/// Whether `value` starts with a separator after the white space at its start.
pub fn starts_absolute(value: &str) -> (result: bool)
    ensures
        result == separator_at(trimmed_start(value@), 0),
{
    let chars = characters(value);
    let from = skip_leading(&chars, 0, chars.len());
    assert(chars@.subrange(0, chars.len() as int) =~= chars@);
    chars.len() - from > 1 && chars[from] == ':' && chars[from + 1] == ':'
}

/// What follows the last separator of `value`.
pub fn after_last_separator(value: &str) -> (result: String)
    ensures
        result@ == last_segment(value@),
{
    let chars = characters(value);
    let mut end: usize = chars.len();
    while end > 0
        invariant
            end <= chars.len(),
            chars@ == value@,
            last_separator(chars@, chars.len() - 1) == last_separator(chars@, end - 1),
        decreases end,
    {
        let k = end - 1;
        if k + 1 < chars.len() && chars[k] == ':' && chars[k + 1] == ':' {
            return string_of(&chars, k + 2, chars.len());
        }
        end = k;
    }
    string_of(&chars, 0, chars.len())
}

/// `value` without white space around it.
pub fn trim(value: &str) -> (result: String)
    ensures
        result@ == trimmed(value@),
{
    let chars = characters(value);
    let (from, to) = trim_bounds(&chars, 0, chars.len());
    assert(chars@.subrange(0, chars.len() as int) =~= chars@);
    string_of(&chars, from, to)
}

/// Whether `s` ends with `suffix`.
pub open spec fn has_suffix(s: Seq<char>, suffix: Seq<char>) -> bool {
    suffix.len() <= s.len() && s.skip(s.len() - suffix.len()) == suffix
}

/// Whether `value` ends with `suffix`.
pub fn ends_with(value: &str, suffix: &str) -> (result: bool)
    ensures
        result == has_suffix(value@, suffix@),
{
    let chars = characters(value);
    let tail = characters(suffix);
    if tail.len() > chars.len() {
        return false;
    }
    let offset = chars.len() - tail.len();
    let mut i: usize = 0;
    while i < tail.len()
        invariant
            chars@ == value@,
            tail@ == suffix@,
            offset + tail.len() == chars.len(),
            i <= tail.len(),
            forall|k: int| 0 <= k < i ==> chars@[offset + k] == #[trigger] tail@[k],
        decreases tail.len() - i,
    {
        if chars[offset + i] != tail[i] {
            assert(chars@.skip(offset as int)[i as int] != tail@[i as int]);
            return false;
        }
        i = i + 1;
    }
    assert(chars@.skip(offset as int) =~= tail@);
    true
}

/// Names joined by the separator.
pub open spec fn joined(names: Seq<Seq<char>>) -> Seq<char>
    decreases names.len(),
{
    if names.len() == 0 {
        Seq::empty()
    } else if names.len() == 1 {
        names[0]
    } else {
        joined(names.drop_last()) + separator() + names.last()
    }
}

/// Extends a joined path by one more name; `empty` tells whether the path holds no name yet.
pub fn join_next(path: &mut String, empty: bool, name: &str)
    ensures
        final(path)@ == if empty {
            old(path)@ + name@
        } else {
            old(path)@ + separator() + name@
        },
{
    if !empty {
        path.append("::");
        proof {
            reveal_strlit("::");
            assert("::"@ =~= separator());
        }
    }
    path.append(name);
}

/// The names of `names` joined by the separator.
pub fn join(names: &Vec<String>) -> (path: String)
    ensures
        path@ == joined(texts(names@)),
{
    let mut path = String::new();
    let ghost all = texts(names@);
    let mut i: usize = 0;
    while i < names.len()
        invariant
            all == texts(names@),
            i <= names.len(),
            path@ == joined(all.take(i as int)),
        decreases names.len() - i,
    {
        join_next(&mut path, i == 0, names[i].as_str());
        proof {
            lemma_joined_push(all.take(i as int), all[i as int]);
            assert(all.take(i + 1) =~= all.take(i as int).push(all[i as int]));
        }
        i = i + 1;
    }
    assert(all.take(names.len() as int) =~= all);
    path
}

/// Joining one more name appends the separator and the name.
pub proof fn lemma_joined_push(names: Seq<Seq<char>>, name: Seq<char>)
    ensures
        joined(names.push(name)) == if names.len() == 0 {
            joined(names) + name
        } else {
            joined(names) + separator() + name
        },
{
    let all = names.push(name);
    assert(all.drop_last() =~= names);
    if names.len() == 0 {
        assert(Seq::<char>::empty() + name =~= name);
    }
}

// ---------------------------------------------------------------------------------------------
// Numbers

/// The character of a decimal digit.
pub open spec fn digit(d: nat) -> char {
    (('0' as u32 + d) as u32) as char
}

/// The decimal digits of `n`, without leading zeros.
pub open spec fn decimal(n: nat) -> Seq<char>
    decreases n,
{
    if n < 10 {
        seq![digit(n)]
    } else {
        decimal(n / 10).push(digit(n % 10))
    }
}

fn digit_char(d: usize) -> (c: char)
    requires
        d < 10,
    ensures
        c == digit(d as nat),
{
    match d {
        0 => '0',
        1 => '1',
        2 => '2',
        3 => '3',
        4 => '4',
        5 => '5',
        6 => '6',
        7 => '7',
        8 => '8',
        _ => '9',
    }
}

/// Appends the decimal digits of `n`.
pub fn push_decimal(text: &mut String, n: usize)
    ensures
        final(text)@ == old(text)@ + decimal(n as nat),
    decreases n,
{
    if n < 10 {
        text.push(digit_char(n));
        assert(old(text)@.push(digit(n as nat)) =~= old(text)@ + decimal(n as nat));
    } else {
        push_decimal(text, n / 10);
        text.push(digit_char(n % 10));
        assert(old(text)@ + decimal((n / 10) as nat).push(digit((n % 10) as nat)) =~= (old(text)@
            + decimal((n / 10) as nat)).push(digit((n % 10) as nat)));
    }
}

} // verus!
