//! What holds of every qualified name and of every path.
use vstd::prelude::*;
use crate::metadata::{path_of, scope_names, ScopeView};
use crate::text::{
    identifier_char, is_identifier, is_white_space, joined, leading_end, name_parts,
    next_separator, segments_from, separator, separator_at, trailing_start, trimmed,
    trimmed_segments,
};

verus! {

/// `s` without its white space.
pub open spec fn without_white_space(s: Seq<char>) -> Seq<char>
    decreases s.len(),
{
    if s.len() == 0 {
        s
    } else if is_white_space(s.last()) {
        without_white_space(s.drop_last())
    } else {
        without_white_space(s.drop_last()).push(s.last())
    }
}

/// Whether a name is not empty and holds no colon.
pub open spec fn is_segment(name: Seq<char>) -> bool {
    name.len() > 0 && forall|k: int| 0 <= k < name.len() ==> #[trigger] name[k] != ':'
}

/// Different lists of names without colons have different paths.
pub proof fn law_paths_are_unique(a: Seq<Seq<char>>, b: Seq<Seq<char>>)
    requires
        forall|k: int| 0 <= k < a.len() ==> is_segment(#[trigger] a[k]),
        forall|k: int| 0 <= k < b.len() ==> is_segment(#[trigger] b[k]),
        joined(a) == joined(b),
    ensures
        a == b,
    decreases a.len(),
{
    if a.len() == 0 || b.len() == 0 {
        if b.len() > 0 {
            lemma_joined_is_not_empty(b);
        }
        if a.len() > 0 {
            lemma_joined_is_not_empty(a);
        }
        assert(a =~= b);
    } else if a.len() == 1 && b.len() == 1 {
        assert(a =~= b);
    } else if a.len() == 1 {
        lemma_colon(b);
        assert(is_segment(a[0]));
    } else if b.len() == 1 {
        lemma_colon(a);
        assert(is_segment(b[0]));
    } else {
        let p = joined(a.drop_last());
        let q = joined(b.drop_last());
        let s = joined(a);
        let m = a.last();
        let n = b.last();
        assert(is_segment(m) && is_segment(n));
        lemma_colon(a);
        lemma_colon(b);
        if m.len() < n.len() {
            assert(n[n.len() - m.len() - 1] == s[s.len() - m.len() - 1]);
        } else if n.len() < m.len() {
            assert(m[m.len() - n.len() - 1] == s[s.len() - n.len() - 1]);
        }
        assert(m =~= s.skip(s.len() - m.len()));
        assert(n =~= s.skip(s.len() - n.len()));
        assert(p =~= s.take(s.len() - m.len() - 2));
        assert(q =~= s.take(s.len() - n.len() - 2));
        assert forall|k: int| 0 <= k < a.drop_last().len() implies is_segment(
            #[trigger] a.drop_last()[k],
        ) by {
            assert(a[k] == a.drop_last()[k]);
        }
        assert forall|k: int| 0 <= k < b.drop_last().len() implies is_segment(
            #[trigger] b.drop_last()[k],
        ) by {
            assert(b[k] == b.drop_last()[k]);
        }
        law_paths_are_unique(a.drop_last(), b.drop_last());
        assert(a =~= a.drop_last().push(m));
        assert(b =~= b.drop_last().push(n));
    }
}

proof fn lemma_joined_is_not_empty(names: Seq<Seq<char>>)
    requires
        names.len() > 0,
        forall|k: int| 0 <= k < names.len() ==> is_segment(#[trigger] names[k]),
    ensures
        joined(names).len() > 0,
{
    assert(is_segment(names[0]));
}

/// A path of several names holds a colon just before its last name.
proof fn lemma_colon(names: Seq<Seq<char>>)
    requires
        names.len() > 1,
    ensures
        joined(names).len() > names.last().len() + 1,
        joined(names)[joined(names).len() - names.last().len() - 1] == ':',
{
}

/// A path of several names starts with the first and the separator.
proof fn lemma_joined_first(names: Seq<Seq<char>>)
    requires
        names.len() > 1,
    ensures
        joined(names) == names[0] + separator() + joined(names.drop_first()),
    decreases names.len(),
{
    let rest = names.drop_first();
    if names.len() == 2 {
        assert(names.drop_last() =~= seq![names[0]]);
        assert(joined(names.drop_last()) == names[0]);
        assert(rest =~= seq![names[1]]);
        assert(joined(rest) == names[1]);
    } else {
        let some = names.drop_last();
        lemma_joined_first(some);
        assert(some.drop_first() =~= rest.drop_last());
        assert(joined(rest) == joined(rest.drop_last()) + separator() + names.last());
        assert(joined(names) =~= names[0] + separator() + joined(rest));
    }
}

/// What the search for a separator finds.
proof fn lemma_next_separator(s: Seq<char>, i: int)
    requires
        0 <= i <= s.len(),
    ensures
        i <= next_separator(s, i) <= s.len(),
        next_separator(s, i) < s.len() ==> separator_at(s, next_separator(s, i)),
    decreases s.len() - i,
{
    if i < s.len() && !separator_at(s, i) {
        lemma_next_separator(s, i + 1);
    }
}

/// A separator behind a stretch without colons is the next one.
proof fn lemma_next_separator_is(s: Seq<char>, i: int, k: int)
    requires
        0 <= i <= k <= s.len(),
        forall|j: int| i <= j < k ==> #[trigger] s[j] != ':',
        k == s.len() || separator_at(s, k),
    ensures
        next_separator(s, i) == k,
    decreases k - i,
{
    if i < k {
        assert(s[i] != ':');
        lemma_next_separator_is(s, i + 1, k);
    }
}

/// An identifier holds no colon and no white space, so that trimming keeps it.
proof fn lemma_identifier(name: Seq<char>)
    requires
        is_identifier(name),
    ensures
        is_segment(name),
        trimmed(name) == name,
        without_white_space(name) == name,
{
    assert forall|k: int| 0 <= k < name.len() implies #[trigger] name[k] != ':' && !is_white_space(
        name[k],
    ) by {
        assert(identifier_char(name[k]));
    }
    assert(!is_white_space(name[0]));
    assert(!is_white_space(name[name.len() - 1]));
    assert(trimmed(name) =~= name);
    lemma_nothing_to_remove(name);
}

proof fn lemma_nothing_to_remove(s: Seq<char>)
    requires
        forall|k: int| 0 <= k < s.len() ==> !is_white_space(#[trigger] s[k]),
    ensures
        without_white_space(s) == s,
    decreases s.len(),
{
    if s.len() > 0 {
        let some = s.drop_last();
        assert forall|k: int| 0 <= k < some.len() implies !is_white_space(#[trigger] some[k]) by {
            assert(some[k] == s[k]);
        }
        lemma_nothing_to_remove(some);
        assert(!is_white_space(s[s.len() - 1]));
        assert(some.push(s.last()) =~= s);
    }
}

proof fn lemma_all_removed(s: Seq<char>)
    requires
        forall|k: int| 0 <= k < s.len() ==> is_white_space(#[trigger] s[k]),
    ensures
        without_white_space(s) == Seq::<char>::empty(),
    decreases s.len(),
{
    if s.len() > 0 {
        let some = s.drop_last();
        assert forall|k: int| 0 <= k < some.len() implies is_white_space(#[trigger] some[k]) by {
            assert(some[k] == s[k]);
        }
        assert(is_white_space(s[s.len() - 1]));
        lemma_all_removed(some);
    } else {
        assert(s =~= Seq::<char>::empty());
    }
}

proof fn lemma_removed_from_both(a: Seq<char>, b: Seq<char>)
    ensures
        without_white_space(a + b) == without_white_space(a) + without_white_space(b),
    decreases b.len(),
{
    if b.len() == 0 {
        assert(a + b =~= a);
        assert(without_white_space(a) + b =~= without_white_space(a));
    } else {
        lemma_removed_from_both(a, b.drop_last());
        assert((a + b).drop_last() =~= a + b.drop_last());
        assert((a + b).last() == b.last());
        assert(without_white_space(a + b) =~= without_white_space(a) + without_white_space(b));
    }
}

/// What trimming passes over at the start is white space.
proof fn lemma_leading(s: Seq<char>, i: int)
    requires
        0 <= i <= s.len(),
    ensures
        i <= leading_end(s, i) <= s.len(),
        forall|k: int| i <= k < leading_end(s, i) ==> is_white_space(#[trigger] s[k]),
    decreases s.len() - i,
{
    if i < s.len() && is_white_space(s[i]) {
        lemma_leading(s, i + 1);
    }
}

/// What trimming passes over at the end is white space.
proof fn lemma_trailing(s: Seq<char>, i: int)
    requires
        0 <= i <= s.len(),
    ensures
        0 <= trailing_start(s, i) <= i,
        forall|k: int| trailing_start(s, i) <= k < i ==> is_white_space(#[trigger] s[k]),
    decreases i,
{
    if 0 < i && is_white_space(s[i - 1]) {
        lemma_trailing(s, i - 1);
    }
}

/// Where trimming leaves an identifier, it removes all white space.
proof fn lemma_trimmed(s: Seq<char>)
    requires
        is_identifier(trimmed(s)),
    ensures
        without_white_space(s) == trimmed(s),
{
    let from = leading_end(s, 0);
    let to = trailing_start(s, s.len() as int);
    lemma_leading(s, 0);
    lemma_trailing(s, s.len() as int);
    let before = s.take(from);
    let inside = s.subrange(from, to);
    let after = s.skip(to);
    assert forall|k: int| 0 <= k < before.len() implies is_white_space(#[trigger] before[k]) by {
        assert(before[k] == s[k]);
    }
    assert forall|k: int| 0 <= k < after.len() implies is_white_space(#[trigger] after[k]) by {
        assert(after[k] == s[k + to]);
    }
    lemma_all_removed(before);
    lemma_all_removed(after);
    lemma_identifier(inside);
    assert(s =~= before + inside + after);
    lemma_removed_from_both(before + inside, after);
    lemma_removed_from_both(before, inside);
    assert(without_white_space(s) =~= inside);
}

/// Joining the segments of a text gives the text.
proof fn lemma_segments_join(s: Seq<char>, i: int)
    requires
        0 <= i <= s.len(),
    ensures
        segments_from(s, i).len() > 0,
        joined(segments_from(s, i)) == s.skip(i),
    decreases s.len() - i,
{
    lemma_next_separator(s, i);
    let k = next_separator(s, i);
    let all = segments_from(s, i);
    if k + 1 < s.len() {
        lemma_segments_join(s, k + 2);
        assert(all.drop_first() =~= segments_from(s, k + 2));
        lemma_joined_first(all);
        assert(all[0] == s.subrange(i, k));
        assert(s.subrange(i, k) + separator() + s.skip(k + 2) =~= s.skip(i));
    }
}

/// Removing white space from a path removes it from each name.
proof fn lemma_removed_from_path(names: Seq<Seq<char>>, bare: Seq<Seq<char>>)
    requires
        names.len() == bare.len(),
        forall|k: int| 0 <= k < names.len() ==> #[trigger] bare[k] == without_white_space(names[k]),
    ensures
        without_white_space(joined(names)) == joined(bare),
    decreases names.len(),
{
    if names.len() > 1 {
        let some = names.drop_last();
        let less = bare.drop_last();
        assert forall|k: int| 0 <= k < some.len() implies #[trigger] less[k] == without_white_space(
            some[k],
        ) by {
            assert(less[k] == bare[k] && some[k] == names[k]);
        }
        lemma_removed_from_path(some, less);
        lemma_removed_from_both(joined(some) + separator(), names.last());
        lemma_removed_from_both(joined(some), separator());
        lemma_nothing_to_remove(separator());
        assert(bare[bare.len() - 1] == without_white_space(names[names.len() - 1]));
    } else if names.len() == 1 {
        assert(bare[0] == without_white_space(names[0]));
    }
}

/// The segments of a path of names without colons are the names.
proof fn lemma_path_segments(s: Seq<char>, i: int, names: Seq<Seq<char>>)
    requires
        0 <= i <= s.len(),
        names.len() > 0,
        forall|k: int| 0 <= k < names.len() ==> is_segment(#[trigger] names[k]),
        s.skip(i) == joined(names),
    ensures
        segments_from(s, i) == names,
    decreases names.len(),
{
    let first = names[0];
    assert(is_segment(first));
    let k = i + first.len();
    let tail = s.skip(i);
    if names.len() == 1 {
        assert(tail == first);
        assert forall|j: int| i <= j < s.len() implies #[trigger] s[j] != ':' by {
            assert(s[j] == tail[j - i]);
        }
        lemma_next_separator_is(s, i, s.len() as int);
        assert(segments_from(s, i) =~= names);
    } else {
        let rest = names.drop_first();
        lemma_joined_first(names);
        assert(tail == first + separator() + joined(rest));
        assert(s[k] == tail[first.len() as int] && s[k + 1] == tail[first.len() as int + 1]);
        assert forall|j: int| i <= j < k implies #[trigger] s[j] != ':' by {
            assert(s[j] == tail[j - i]);
            assert(tail[j - i] == first[j - i]);
        }
        lemma_next_separator_is(s, i, k as int);
        assert(s.subrange(i, k as int) =~= first);
        let behind = first.len() as int + 2;
        assert(tail.len() == behind + joined(rest).len());
        assert(s.skip(k + 2) =~= tail.skip(behind));
        assert(tail.skip(behind) =~= joined(rest));
        assert forall|j: int| 0 <= j < rest.len() implies is_segment(#[trigger] rest[j]) by {
            assert(rest[j] == names[j + 1]);
        }
        lemma_path_segments(s, k + 2, rest);
        assert(segments_from(s, i) =~= names);
    }
}

/// The path of identifiers splits back into the identifiers.
pub proof fn law_paths_split_into_their_names(names: Seq<Seq<char>>)
    requires
        names.len() > 0,
        forall|k: int| 0 <= k < names.len() ==> is_identifier(#[trigger] names[k]),
    ensures
        name_parts(joined(names)) == Some(names),
{
    assert forall|k: int| 0 <= k < names.len() implies is_segment(#[trigger] names[k]) && trimmed(
        names[k],
    ) == names[k] by {
        lemma_identifier(names[k]);
    }
    assert(joined(names).skip(0) =~= joined(names));
    lemma_path_segments(joined(names), 0, names);
    assert(trimmed_segments(joined(names)) =~= names);
}

/// White space around the names of a path does not count.
pub proof fn law_spaced_names(padded: Seq<Seq<char>>, names: Seq<Seq<char>>)
    requires
        names.len() > 0,
        padded.len() == names.len(),
        forall|k: int|
            0 <= k < names.len() ==> is_identifier(#[trigger] names[k]) && is_segment(padded[k])
                && trimmed(padded[k]) == names[k],
    ensures
        name_parts(joined(padded)) == Some(names),
{
    assert forall|k: int| 0 <= k < padded.len() implies is_segment(#[trigger] padded[k]) by {
        assert(is_identifier(names[k]));
    }
    assert(joined(padded).skip(0) =~= joined(padded));
    lemma_path_segments(joined(padded), 0, padded);
    assert(trimmed_segments(joined(padded)) =~= names) by {
        assert forall|k: int| 0 <= k < names.len() implies #[trigger] trimmed_segments(
            joined(padded),
        )[k] == names[k] by {
            assert(is_identifier(names[k]));
        }
    }
}

/// The path of a scope whose names are identifiers splits back into those names, so that two such
/// scopes with one path have the same names.
pub proof fn law_scope_paths(scope: Seq<ScopeView>, other: Seq<ScopeView>)
    requires
        scope.len() > 0,
        forall|k: int| 0 <= k < scope.len() ==> is_identifier((#[trigger] scope[k]).name),
        forall|k: int| 0 <= k < other.len() ==> is_identifier((#[trigger] other[k]).name),
    ensures
        name_parts(path_of(scope)) == Some(scope_names(scope)),
        path_of(scope) == path_of(other) ==> scope_names(scope) == scope_names(other),
{
    let names = scope_names(scope);
    let others = scope_names(other);
    assert forall|k: int| 0 <= k < names.len() implies is_identifier(#[trigger] names[k]) by {
        assert(names[k] == scope[k].name);
    }
    law_paths_split_into_their_names(names);
    assert forall|k: int| 0 <= k < names.len() implies is_segment(#[trigger] names[k]) by {
        lemma_identifier(names[k]);
    }
    assert forall|k: int| 0 <= k < others.len() implies is_segment(#[trigger] others[k]) by {
        assert(others[k] == other[k].name);
        lemma_identifier(others[k]);
    }
    if path_of(scope) == path_of(other) {
        law_paths_are_unique(names, others);
    }
}

/// The parts of a qualified name are one or more. Joining them gives the name without its white
/// space, and that splits into the same parts.
pub proof fn law_parts_join(s: Seq<char>)
    requires
        name_parts(s) is Some,
    ensures
        name_parts(s)->0.len() > 0,
        joined(name_parts(s)->0) == without_white_space(s),
        name_parts(joined(name_parts(s)->0)) == name_parts(s),
{
    let segments = segments_from(s, 0);
    let parts = trimmed_segments(s);
    lemma_segments_join(s, 0);
    assert(s.skip(0) =~= s);
    assert forall|k: int| 0 <= k < segments.len() implies #[trigger] parts[k]
        == without_white_space(segments[k]) by {
        assert(is_identifier(parts[k]));
        lemma_trimmed(segments[k]);
    }
    lemma_removed_from_path(segments, parts);
    law_paths_split_into_their_names(parts);
}

} // verus!
