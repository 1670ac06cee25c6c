//! Absolute build-target labels (`//seg/seg[:name]`) and their resolution
//! into a mangled name and a local name.

use vstd::prelude::*;
use crate::text::{chars_of, string_of};

verus! {

/// Why a label was rejected.
#[derive(Clone, Copy, Debug, PartialEq, Eq, Structural)]
pub enum LabelError {
    /// The label does not start with `//`.
    NotAbsolute,
    /// The label names the vendored `third_party/rust` tree.
    ThirdPartyForbidden,
    /// A `:` stands anywhere but once in the final segment.
    UnexpectedColon,
    /// A path segment or the explicit name is empty.
    EmptySegment,
    /// A path segment or the explicit name holds a character outside `[A-Za-z0-9_]`.
    InvalidCharacter,
}

/// A resolved label.
#[derive(Clone, Debug, PartialEq, Eq)]
pub struct GnTarget {
    /// All path segments, then the explicit name if any, joined by `_`.
    pub mangled_name: String,
    /// The explicit name if any, else the last path segment.
    pub local_name: String,
}

/// What a `GnTarget` holds, as character sequences.
pub struct GnTargetView {
    pub mangled_name: Seq<char>,
    pub local_name: Seq<char>,
}

impl View for GnTarget {
    type V = GnTargetView;

    open spec fn view(&self) -> GnTargetView {
        GnTargetView { mangled_name: self.mangled_name@, local_name: self.local_name@ }
    }
}

pub open spec fn is_name_char(c: char) -> bool {
    ('a' <= c && c <= 'z') || ('A' <= c && c <= 'Z') || ('0' <= c && c <= '9') || c == '_'
}

/// The parts of `s` between the occurrences of `sep`: `n` separators give `n + 1` parts.
pub open spec fn split(s: Seq<char>, sep: char) -> Seq<Seq<char>>
    decreases s.len(),
{
    if s.len() == 0 {
        seq![Seq::empty()]
    } else {
        let parts = split(s.drop_last(), sep);
        if s.last() == sep {
            parts.push(Seq::empty())
        } else {
            parts.update(parts.len() - 1, parts.last().push(s.last()))
        }
    }
}

/// The parts, with `sep` between each two of them.
pub open spec fn join(parts: Seq<Seq<char>>, sep: char) -> Seq<char>
    decreases parts.len(),
{
    if parts.len() == 0 {
        Seq::empty()
    } else if parts.len() == 1 {
        parts[0]
    } else {
        join(parts.drop_last(), sep).push(sep) + parts.last()
    }
}

/// The index of the first `c` in `s`, or `s.len()` where there is none.
pub open spec fn first_index(s: Seq<char>, c: char) -> int
    decreases s.len(),
{
    if s.len() == 0 {
        0
    } else if s[0] == c {
        0
    } else {
        1 + first_index(s.drop_first(), c)
    }
}

/// What is wrong with one path segment or explicit name, if anything.
pub open spec fn segment_error(seg: Seq<char>) -> Option<LabelError> {
    if seg.contains(':') {
        Some(LabelError::UnexpectedColon)
    } else if seg.len() == 0 {
        Some(LabelError::EmptySegment)
    } else if exists|i: int| 0 <= i < seg.len() && !is_name_char(#[trigger] seg[i]) {
        Some(LabelError::InvalidCharacter)
    } else {
        None
    }
}

/// The error of the first faulty part, if any.
pub open spec fn first_error(parts: Seq<Seq<char>>) -> Option<LabelError>
    decreases parts.len(),
{
    if parts.len() == 0 {
        None
    } else {
        match first_error(parts.drop_last()) {
            Some(e) => Some(e),
            None => segment_error(parts.last()),
        }
    }
}

pub open spec fn is_absolute(label: Seq<char>) -> bool {
    label.len() >= 2 && label[0] == '/' && label[1] == '/'
}

/// The segments of an absolute label, the last one with its explicit name.
pub open spec fn raw_segments(label: Seq<char>) -> Seq<Seq<char>> {
    split(label.skip(2), '/')
}

pub open spec fn is_third_party(segs: Seq<Seq<char>>) -> bool {
    segs.len() >= 2 && segs[0] == "third_party"@ && segs[1] == "rust"@
}

pub open spec fn has_explicit_name(last: Seq<char>) -> bool {
    first_index(last, ':') < last.len()
}

/// The last segment split at its first `:` into path component and explicit
/// name; without a `:` both are the whole segment.
pub open spec fn split_name(last: Seq<char>) -> (Seq<char>, Seq<char>) {
    let k = first_index(last, ':');
    if has_explicit_name(last) {
        (last.take(k), last.skip(k + 1))
    } else {
        (last, last)
    }
}

/// The path segments of an absolute label, without the explicit name.
pub open spec fn path_segments(label: Seq<char>) -> Seq<Seq<char>> {
    let segs = raw_segments(label);
    segs.drop_last().push(split_name(segs.last()).0)
}

/// The explicit name of an absolute label, or its last path segment.
pub open spec fn explicit_name(label: Seq<char>) -> Seq<char> {
    split_name(raw_segments(label).last()).1
}

/// Whether the last segment of an absolute label carries an explicit name.
pub open spec fn label_has_name(label: Seq<char>) -> bool {
    has_explicit_name(raw_segments(label).last())
}

/// The mangled name: the path segments, then the explicit name if one is
/// written, joined by `_`.
pub open spec fn mangled(label: Seq<char>) -> Seq<char> {
    if label_has_name(label) {
        join(path_segments(label).push(explicit_name(label)), '_')
    } else {
        join(path_segments(label), '_')
    }
}

/// What resolving `label` gives.
pub open spec fn resolve(label: Seq<char>) -> Result<GnTargetView, LabelError> {
    if !is_absolute(label) {
        Err(LabelError::NotAbsolute)
    } else if is_third_party(raw_segments(label)) {
        Err(LabelError::ThirdPartyForbidden)
    } else {
        match first_error(path_segments(label).push(explicit_name(label))) {
            Some(e) => Err(e),
            None => Ok(GnTargetView { mangled_name: mangled(label), local_name: explicit_name(label) }),
        }
    }
}

/// The character sequences of a run of character vectors.
pub open spec fn views(v: Seq<Vec<char>>) -> Seq<Seq<char>> {
    v.map_values(|p: Vec<char>| p@)
}

pub proof fn lemma_split_nonempty(s: Seq<char>, sep: char)
    ensures
        split(s, sep).len() >= 1,
    decreases s.len(),
{
    if s.len() > 0 {
        lemma_split_nonempty(s.drop_last(), sep);
    }
}

proof fn lemma_first_index(s: Seq<char>, c: char, k: int)
    requires
        0 <= k <= s.len(),
        forall|j: int| 0 <= j < k ==> s[j] != c,
        k == s.len() || s[k] == c,
    ensures
        first_index(s, c) == k,
    decreases k,
{
    if k > 0 {
        assert forall|j: int| 0 <= j < k - 1 implies s.drop_first()[j] != c by {
            assert(s[j + 1] != c);
        }
        lemma_first_index(s.drop_first(), c, k - 1);
    }
}

proof fn lemma_first_error_extends(p: Seq<Seq<char>>, q: Seq<Seq<char>>)
    requires
        first_error(p) is Some,
    ensures
        first_error(p + q) == first_error(p),
    decreases q.len(),
{
    if q.len() == 0 {
        assert(p + q =~= p);
    } else {
        assert((p + q).drop_last() =~= p + q.drop_last());
        lemma_first_error_extends(p, q.drop_last());
    }
}

/// The characters of `v` from index `from` up to `to`.
pub(crate) fn sub_chars(v: &Vec<char>, from: usize, to: usize) -> (r: Vec<char>)
    requires
        from <= to <= v.len(),
    ensures
        r@ == v@.subrange(from as int, to as int),
{
    let mut r: Vec<char> = Vec::new();
    let mut i = from;
    while i < to
        invariant
            from <= i <= to <= v.len(),
            r@ == v@.subrange(from as int, i as int),
        decreases to - i,
    {
        r.push(v[i]);
        proof {
            assert(v@.subrange(from as int, i + 1) =~= v@.subrange(from as int, i as int).push(v@[i as int]));
        }
        i += 1;
    }
    r
}

/// Whether `a` and `b` hold the same characters.
pub(crate) fn same_chars(a: &Vec<char>, b: &Vec<char>) -> (r: bool)
    ensures
        r == (a@ == b@),
{
    if a.len() != b.len() {
        return false;
    }
    let mut i: usize = 0;
    while i < a.len()
        invariant
            a.len() == b.len(),
            i <= a.len(),
            forall|j: int| 0 <= j < i ==> a@[j] == b@[j],
        decreases a.len() - i,
    {
        if a[i] != b[i] {
            return false;
        }
        i += 1;
    }
    proof {
        assert(a@ =~= b@);
    }
    true
}

/// Splits the characters of `s` from index `from` on at every `sep`.
fn split_chars(s: &Vec<char>, from: usize, sep: char) -> (r: Vec<Vec<char>>)
    requires
        from <= s.len(),
    ensures
        views(r@) == split(s@.skip(from as int), sep),
{
    let mut parts: Vec<Vec<char>> = Vec::new();
    let mut cur: Vec<char> = Vec::new();
    let mut i = from;
    proof {
        assert(s@.subrange(from as int, from as int) =~= Seq::<char>::empty());
        assert(views(parts@).push(cur@) =~= seq![Seq::<char>::empty()]);
    }
    while i < s.len()
        invariant
            from <= i <= s.len(),
            views(parts@).push(cur@) == split(s@.subrange(from as int, i as int), sep),
        decreases s.len() - i,
    {
        let ghost before = s@.subrange(from as int, i as int);
        let ghost after = s@.subrange(from as int, i + 1);
        proof {
            assert(after.drop_last() =~= before);
            assert(after.last() == s@[i as int]);
        }
        if s[i] == sep {
            let done = cur;
            parts.push(done);
            cur = Vec::new();
            proof {
                assert(views(parts@).push(cur@) =~= split(before, sep).push(Seq::empty()));
            }
        } else {
            let ghost old_parts = views(parts@).push(cur@);
            cur.push(s[i]);
            proof {
                assert(views(parts@).push(cur@) =~= old_parts.update(
                    old_parts.len() - 1,
                    old_parts.last().push(s@[i as int]),
                ));
            }
        }
        i += 1;
    }
    parts.push(cur);
    proof {
        assert(s@.subrange(from as int, s.len() as int) =~= s@.skip(from as int));
        assert(views(parts@) =~= split(s@.skip(from as int), sep));
    }
    parts
}

/// The index of the first `c` in `v`, or its length where there is none.
fn find_char(v: &Vec<char>, c: char) -> (k: usize)
    ensures
        k == first_index(v@, c),
{
    let mut i: usize = 0;
    while i < v.len() && v[i] != c
        invariant
            i <= v.len(),
            forall|j: int| 0 <= j < i ==> v@[j] != c,
        decreases v.len() - i,
    {
        i += 1;
    }
    proof {
        lemma_first_index(v@, c, i as int);
    }
    i
}

/// What is wrong with one path segment or explicit name, if anything.
fn check_segment(seg: &Vec<char>) -> (r: Option<LabelError>)
    ensures
        r == segment_error(seg@),
{
    let mut i: usize = 0;
    while i < seg.len()
        invariant
            i <= seg.len(),
            forall|j: int| 0 <= j < i ==> seg@[j] != ':',
        decreases seg.len() - i,
    {
        if seg[i] == ':' {
            return Some(LabelError::UnexpectedColon);
        }
        i += 1;
    }
    if seg.len() == 0 {
        return Some(LabelError::EmptySegment);
    }
    let mut i: usize = 0;
    while i < seg.len()
        invariant
            i <= seg.len(),
            !seg@.contains(':'),
            forall|j: int| 0 <= j < i ==> is_name_char(seg@[j]),
        decreases seg.len() - i,
    {
        let c = seg[i];
        if !(('a' <= c && c <= 'z') || ('A' <= c && c <= 'Z') || ('0' <= c && c <= '9') || c == '_') {
            return Some(LabelError::InvalidCharacter);
        }
        i += 1;
    }
    None
}

/// The parts, with `sep` between each two of them.
fn join_chars(parts: &Vec<Vec<char>>, sep: char) -> (r: Vec<char>)
    ensures
        r@ == join(views(parts@), sep),
{
    let mut r: Vec<char> = Vec::new();
    let mut i: usize = 0;
    while i < parts.len()
        invariant
            i <= parts.len(),
            r@ == join(views(parts@).take(i as int), sep),
        decreases parts.len() - i,
    {
        let ghost before = r@;
        if i > 0 {
            r.push(sep);
        }
        let part = &parts[i];
        let mut j: usize = 0;
        while j < part.len()
            invariant
                j <= part.len(),
                r@ == (if i > 0 { before.push(sep) } else { before }) + part@.take(j as int),
            decreases part.len() - j,
        {
            r.push(part[j]);
            proof {
                assert(part@.take(j + 1) =~= part@.take(j as int).push(part@[j as int]));
            }
            j += 1;
        }
        proof {
            let vs = views(parts@);
            assert(part@.take(part.len() as int) =~= part@);
            assert(vs.take(i + 1).drop_last() =~= vs.take(i as int));
            if i == 0 {
                assert(r@ =~= vs.take(1)[0]);
            }
        }
        i += 1;
    }
    proof {
        assert(views(parts@).take(parts.len() as int) =~= views(parts@));
    }
    r
}

impl GnTarget {
    /// Resolves an absolute label into its mangled name and its local name.
    pub fn parse(label: &str) -> (r: Result<GnTarget, LabelError>)
        ensures
            resolve(label@) == (match r {
                Ok(t) => Ok(t@),
                Err(e) => Err(e),
            }),
    {
        let s = chars_of(label);
        Self::from_chars(&s)
    }

    /// Resolves a label given as characters.
    pub fn from_chars(s: &Vec<char>) -> (r: Result<GnTarget, LabelError>)
        ensures
            resolve(s@) == (match r {
                Ok(t) => Ok(t@),
                Err(e) => Err(e),
            }),
    {
        if s.len() < 2 || s[0] != '/' || s[1] != '/' {
            return Err(LabelError::NotAbsolute);
        }
        let mut segs = split_chars(s, 2, '/');
        proof {
            lemma_split_nonempty(s@.skip(2), '/');
            assert(views(segs@) == raw_segments(s@));
        }
        if segs.len() >= 2 && same_chars(&segs[0], &chars_of("third_party")) && same_chars(
            &segs[1],
            &chars_of("rust"),
        ) {
            return Err(LabelError::ThirdPartyForbidden);
        }
        let ghost raw = views(segs@);
        let last = segs.pop().unwrap();
        proof {
            assert(views(segs@) =~= raw.drop_last());
        }
        let k = find_char(&last, ':');
        let named = k < last.len();
        let (head, name) = if named {
            (sub_chars(&last, 0, k), sub_chars(&last, k + 1, last.len()))
        } else {
            (sub_chars(&last, 0, last.len()), last)
        };
        proof {
            if named {
                assert(last@.subrange(0, k as int) =~= last@.take(k as int));
                assert(last@.subrange(k + 1, last@.len() as int) =~= last@.skip(k + 1));
            } else {
                assert(last@.subrange(0, last@.len() as int) =~= last@);
            }
        }
        segs.push(head);
        let ghost path = views(segs@);
        proof {
            assert(path =~= path_segments(s@));
        }
        let mut i: usize = 0;
        while i < segs.len()
            invariant
                i <= segs.len(),
                path == views(segs@),
                path == path_segments(s@),
                name@ == explicit_name(s@),
                is_absolute(s@),
                !is_third_party(raw_segments(s@)),
                first_error(path.take(i as int)) is None,
            decreases segs.len() - i,
        {
            proof {
                assert(path.take(i + 1).drop_last() =~= path.take(i as int));
            }
            match check_segment(&segs[i]) {
                Some(e) => {
                    proof {
                        assert(path.take(i + 1).last() == segs@[i as int]@);
                        assert(first_error(path.take(i + 1)) == Some(e));
                        lemma_first_error_extends(path.take(i + 1), path.skip(i + 1).push(name@));
                        assert(path.take(i + 1) + path.skip(i + 1).push(name@) =~= path.push(name@));
                    }
                    return Err(e);
                },
                None => {},
            }
            i += 1;
        }
        proof {
            assert(path.take(i as int) =~= path);
            assert(path.push(name@).drop_last() =~= path);
        }
        match check_segment(&name) {
            Some(e) => {
                return Err(e);
            },
            None => {},
        }
        if named {
            segs.push(sub_chars(&name, 0, name.len()));
            proof {
                assert(name@.subrange(0, name@.len() as int) =~= name@);
                assert(views(segs@) =~= path.push(name@));
            }
        }
        let mangled_name = string_of(&join_chars(&segs, '_'));
        let local_name = string_of(&name);
        Ok(GnTarget { mangled_name, local_name })
    }
}

} // verus!
