//! Properties of label resolution that hold for every label.

use vstd::prelude::*;
use crate::label::{
    first_error, first_index, has_explicit_name, is_absolute, is_name_char, is_third_party, join,
    path_segments, explicit_name, raw_segments, resolve, segment_error, split, LabelError,
};

verus! {

proof fn lemma_split_without(s: Seq<char>, sep: char, c: char)
    requires
        !s.contains(c),
        c != sep,
    ensures
        forall|k: int| 0 <= k < split(s, sep).len() ==> !(#[trigger] split(s, sep)[k]).contains(c),
    decreases s.len(),
{
    if s.len() > 0 {
        let t = s.drop_last();
        assert forall|j: int| 0 <= j < t.len() implies t[j] != c by {
            assert(s[j] == t[j]);
        }
        lemma_split_without(t, sep, c);
        assert(s[s.len() - 1] == s.last());
        let parts = split(s, sep);
        assert forall|k: int| 0 <= k < parts.len() implies !(#[trigger] parts[k]).contains(c) by {
            let old_parts = split(t, sep);
            crate::label::lemma_split_nonempty(t, sep);
            if s.last() == sep {
                if k < old_parts.len() {
                    assert(parts[k] == old_parts[k]);
                } else {
                    assert(parts[k] =~= Seq::<char>::empty());
                }
            } else if k < old_parts.len() - 1 {
                assert(parts[k] == old_parts[k]);
            } else {
                let p = old_parts[k];
                assert(!p.contains(c));
                assert(parts[k] == p.push(s.last()));
                assert forall|j: int| 0 <= j < p.push(s.last()).len() implies p.push(s.last())[j] != c by {
                    if j < p.len() {
                        assert(p.push(s.last())[j] == p[j]);
                    }
                }
            }
        }
    }
}

proof fn lemma_split_single(s: Seq<char>, sep: char)
    requires
        !s.contains(sep),
    ensures
        split(s, sep) == seq![s],
    decreases s.len(),
{
    if s.len() > 0 {
        let t = s.drop_last();
        assert forall|j: int| 0 <= j < t.len() implies t[j] != sep by {
            assert(s[j] == t[j]);
        }
        lemma_split_single(t, sep);
        assert(s[s.len() - 1] == s.last());
        assert(t.push(s.last()) =~= s);
        assert(split(s, sep) =~= seq![s]);
    } else {
        assert(s =~= Seq::<char>::empty());
    }
}

proof fn lemma_split_concat(a: Seq<char>, b: Seq<char>, sep: char)
    ensures
        split(a + seq![sep] + b, sep) == split(a, sep) + split(b, sep),
    decreases b.len(),
{
    let s = a + seq![sep] + b;
    if b.len() == 0 {
        assert(s.drop_last() =~= a);
        assert(split(a, sep) + split(b, sep) =~= split(a, sep).push(Seq::empty()));
    } else {
        assert(s.drop_last() =~= a + seq![sep] + b.drop_last());
        lemma_split_concat(a, b.drop_last(), sep);
        crate::label::lemma_split_nonempty(b.drop_last(), sep);
        let l = split(a, sep);
        let r = split(b.drop_last(), sep);
        if b.last() == sep {
            assert((l + r).push(Seq::empty()) =~= l + r.push(Seq::empty()));
        } else {
            assert((l + r).update((l + r).len() - 1, (l + r).last().push(b.last())) =~= l + r.update(
                r.len() - 1,
                r.last().push(b.last()),
            ));
        }
    }
}

proof fn lemma_first_index_bounds(s: Seq<char>, c: char)
    ensures
        0 <= first_index(s, c) <= s.len(),
        forall|j: int| 0 <= j < first_index(s, c) ==> s[j] != c,
        first_index(s, c) < s.len() ==> s[first_index(s, c)] == c,
    decreases s.len(),
{
    if s.len() > 0 && s[0] != c {
        lemma_first_index_bounds(s.drop_first(), c);
        assert forall|j: int| 0 <= j < first_index(s, c) implies s[j] != c by {
            if j > 0 {
                assert(s[j] == s.drop_first()[j - 1]);
            }
        }
    }
}

proof fn lemma_first_error_invalid(parts: Seq<Seq<char>>)
    requires
        forall|k: int| 0 <= k < parts.len() ==> !(#[trigger] parts[k]).contains(':') && parts[k].len() > 0,
        exists|k: int, i: int|
            0 <= k < parts.len() && 0 <= i < parts[k].len() && !is_name_char(#[trigger] parts[k][i]),
    ensures
        first_error(parts) == Some(LabelError::InvalidCharacter),
    decreases parts.len(),
{
    let k0 = choose|k: int, i: int|
        0 <= k < parts.len() && 0 <= i < parts[k].len() && !is_name_char(#[trigger] parts[k][i]);
    let (k, i) = k0;
    let front = parts.drop_last();
    let last = parts.last();
    assert(!last.contains(':') && last.len() > 0);
    if k < parts.len() - 1 {
        assert(front[k][i] == parts[k][i]);
        lemma_first_error_invalid(front);
    } else {
        assert(last[i] == parts[k][i]);
        assert(segment_error(last) == Some(LabelError::InvalidCharacter));
        if first_error(front) is Some {
            if exists|k: int, i: int|
                0 <= k < front.len() && 0 <= i < front[k].len() && !is_name_char(#[trigger] front[k][i]) {
                lemma_first_error_invalid(front);
            } else {
                lemma_first_error_clean(front);
            }
        }
    }
}

proof fn lemma_first_error_clean(parts: Seq<Seq<char>>)
    requires
        forall|k: int| 0 <= k < parts.len() ==> !(#[trigger] parts[k]).contains(':') && parts[k].len() > 0,
        forall|k: int, i: int|
            0 <= k < parts.len() && 0 <= i < parts[k].len() ==> is_name_char(#[trigger] parts[k][i]),
    ensures
        first_error(parts) is None,
    decreases parts.len(),
{
    if parts.len() > 0 {
        let front = parts.drop_last();
        assert forall|k: int, i: int| 0 <= k < front.len() && 0 <= i < front[k].len() implies is_name_char(
            #[trigger] front[k][i],
        ) by {
            assert(front[k] == parts[k]);
        }
        lemma_first_error_clean(front);
        let last = parts.last();
        assert(last == parts[parts.len() - 1]);
        assert forall|i: int| 0 <= i < last.len() implies is_name_char(last[i]) by {
            assert(is_name_char(parts[parts.len() - 1][i]));
        }
    }
}

/// A label with no `:` at all resolves, where it resolves, to all of its
/// path segments joined by `_`, with its last segment as local name.
pub proof fn lemma_resolve_without_colon(label: Seq<char>)
    requires
        !label.contains(':'),
        resolve(label) is Ok,
    ensures
        resolve(label)->Ok_0.mangled_name == join(raw_segments(label), '_'),
        resolve(label)->Ok_0.local_name == raw_segments(label).last(),
{
    let segs = raw_segments(label);
    let rest = label.skip(2);
    assert forall|j: int| 0 <= j < rest.len() implies rest[j] != ':' by {
        assert(rest[j] == label[j + 2]);
    }
    lemma_split_without(rest, '/', ':');
    crate::label::lemma_split_nonempty(rest, '/');
    assert(!segs[segs.len() - 1].contains(':'));
    lemma_first_index_bounds(segs.last(), ':');
    assert(!has_explicit_name(segs.last()));
    assert(path_segments(label) =~= segs);
}

/// A label whose final segment holds a `:` resolves, where it resolves, to the
/// text after the `:` as local name, and to the path segments (the final one
/// cut before the `:`) joined by `_`, then `_` and that text, as mangled name.
pub proof fn lemma_resolve_with_colon(label: Seq<char>)
    requires
        is_absolute(label),
        raw_segments(label).last().contains(':'),
        resolve(label) is Ok,
    ensures
        ({
            let segs = raw_segments(label);
            let last = segs.last();
            let k = first_index(last, ':');
            &&& 0 <= k < last.len()
            &&& last[k] == ':'
            &&& resolve(label)->Ok_0.local_name == last.skip(k + 1)
            &&& resolve(label)->Ok_0.mangled_name == join(segs.drop_last().push(last.take(k)), '_')
                + seq!['_'] + last.skip(k + 1)
        }),
{
    let segs = raw_segments(label);
    let last = segs.last();
    lemma_first_index_bounds(last, ':');
    let k = first_index(last, ':');
    if k == last.len() {
        let w = choose|j: int| 0 <= j < last.len() && last[j] == ':';
        assert(last[w] != ':');
    }
    let path = path_segments(label);
    let p2 = path.push(explicit_name(label));
    assert(p2.drop_last() =~= path);
    assert(join(p2, '_') =~= join(path, '_').push('_') + explicit_name(label));
    assert(join(path, '_').push('_') =~= join(path, '_') + seq!['_']);
}

/// A label under the vendored `//third_party/rust` tree is always rejected.
pub proof fn lemma_third_party_rejected(rest: Seq<char>)
    requires
        rest.len() == 0 || rest[0] == '/',
    ensures
        resolve("//third_party/rust"@ + rest) == Err::<crate::label::GnTargetView, LabelError>(
            LabelError::ThirdPartyForbidden,
        ),
{
    reveal_strlit("//third_party/rust");
    reveal_strlit("third_party");
    reveal_strlit("rust");
    let label = "//third_party/rust"@ + rest;
    let tp = "third_party"@;
    let ru = "rust"@;
    assert(!tp.contains('/')) by {
        assert forall|j: int| 0 <= j < tp.len() implies tp[j] != '/' by {}
    }
    assert(!ru.contains('/')) by {
        assert forall|j: int| 0 <= j < ru.len() implies ru[j] != '/' by {}
    }
    lemma_split_single(tp, '/');
    assert(is_absolute(label));
    if rest.len() == 0 {
        assert(label.skip(2) =~= tp + seq!['/'] + ru);
        lemma_split_concat(tp, ru, '/');
        lemma_split_single(ru, '/');
    } else {
        let r = rest.drop_first();
        assert(label.skip(2) =~= tp + seq!['/'] + (ru + seq!['/'] + r));
        lemma_split_concat(tp, ru + seq!['/'] + r, '/');
        lemma_split_concat(ru, r, '/');
        lemma_split_single(ru, '/');
    }
    assert(is_third_party(raw_segments(label)));
}

/// A label that does not start with `//` is always rejected as not absolute.
pub proof fn lemma_relative_rejected(label: Seq<char>)
    requires
        !(label.len() >= 2 && label[0] == '/' && label[1] == '/'),
    ensures
        resolve(label) == Err::<crate::label::GnTargetView, LabelError>(LabelError::NotAbsolute),
{
}

/// Resolution depends on the label alone: equal labels resolve alike.
pub proof fn lemma_resolve_deterministic(a: Seq<char>, b: Seq<char>)
    requires
        a == b,
    ensures
        resolve(a) == resolve(b),
{
}

/// An absolute label outside the vendored tree whose path segments and name
/// are all non-empty and free of `:`, but one of which holds a character
/// outside `[A-Za-z0-9_]`, is rejected for that character, wherever it stands.
pub proof fn lemma_invalid_character_rejected(label: Seq<char>)
    requires
        is_absolute(label),
        !is_third_party(raw_segments(label)),
        ({
            let parts = path_segments(label).push(explicit_name(label));
            &&& forall|k: int| 0 <= k < parts.len() ==> !(#[trigger] parts[k]).contains(':') && parts[k].len() > 0
            &&& exists|k: int, i: int|
                0 <= k < parts.len() && 0 <= i < parts[k].len() && !is_name_char(#[trigger] parts[k][i])
        }),
    ensures
        resolve(label) == Err::<crate::label::GnTargetView, LabelError>(LabelError::InvalidCharacter),
{
    lemma_first_error_invalid(path_segments(label).push(explicit_name(label)));
}

} // verus!
