//! String literals as written in source text: `"..."` with its escapes, and
//! raw strings `r"..."`, `r#"..."#`, ... taken as they stand; either may
//! carry a suffix, an identifier right after it, which leaves its value as it is.

use vstd::prelude::*;
use crate::label::is_name_char;

verus! {

/// Relies on `char::from_u32`: the character with code point `n`, or `None`
/// where `n` is not a Unicode scalar value.
#[verifier::external_body]
fn char_from_u32(n: u32) -> (r: Option<char>)
    ensures
        r is Some <==> is_scalar(n as int),
        r matches Some(c) ==> c as u32 == n,
{
    char::from_u32(n)
}

/// Whether `n` is a Unicode scalar value: a code point that is no surrogate.
pub open spec fn is_scalar(n: int) -> bool {
    0 <= n <= 0x10FFFF && !(0xD800 <= n <= 0xDFFF)
}

/// The code point of `c`.
pub open spec fn code_of(c: char) -> int {
    c as int
}

/// The character whose code point is `n`.
pub open spec fn char_of(n: int) -> char {
    choose|c: char| #[trigger] code_of(c) == n
}

pub open spec fn hex_value(c: char) -> int {
    if '0' <= c && c <= '9' {
        c as int - '0' as int
    } else if 'a' <= c && c <= 'f' {
        c as int - 'a' as int + 10
    } else if 'A' <= c && c <= 'F' {
        c as int - 'A' as int + 10
    } else {
        -1
    }
}

pub open spec fn is_hex_digit(c: char) -> bool {
    hex_value(c) >= 0
}

/// The number that the hexadecimal digits `d` spell.
pub open spec fn hex_number(d: Seq<char>) -> int
    decreases d.len(),
{
    if d.len() == 0 {
        0
    } else {
        16 * hex_number(d.drop_last()) + hex_value(d.last())
    }
}

/// The digits of `d` without its underscores.
pub open spec fn strip_underscores(d: Seq<char>) -> Seq<char>
    decreases d.len(),
{
    if d.len() == 0 {
        Seq::empty()
    } else if d.last() == '_' {
        strip_underscores(d.drop_last())
    } else {
        strip_underscores(d.drop_last()).push(d.last())
    }
}

/// The first position from `i` on that holds neither a hexadecimal digit nor `_`.
pub open spec fn hex_end(s: Seq<char>, i: int) -> int
    decreases s.len() - i,
{
    if 0 <= i < s.len() && (is_hex_digit(s[i]) || s[i] == '_') {
        hex_end(s, i + 1)
    } else {
        i
    }
}

/// The first position from `i` on that holds no white space.
pub open spec fn skip_blank(s: Seq<char>, i: int) -> int
    decreases s.len() - i,
{
    if 0 <= i < s.len() && (s[i] == ' ' || s[i] == '\t' || s[i] == '\n' || s[i] == '\r') {
        skip_blank(s, i + 1)
    } else {
        i
    }
}

/// The escape `\u{...}` whose `{` stands at `i`: what it stands for and the
/// position after it. A hexadecimal digit comes first; then digits and `_`,
/// at most six digits in all.
pub open spec fn unicode_escape(s: Seq<char>, i: int) -> Option<(Seq<char>, int)> {
    let e = hex_end(s, i + 2);
    let digits = strip_underscores(s.subrange(i + 1, e));
    if 0 <= i && i + 1 < s.len() && s[i] == '{' && is_hex_digit(s[i + 1]) && digits.len() <= 6
        && e < s.len() && s[e] == '}' && is_scalar(hex_number(digits)) {
        Some((seq![char_of(hex_number(digits))], e + 1))
    } else {
        None
    }
}

/// The escape whose first character after `\` stands at `i`: what it stands
/// for and the position after it.
pub open spec fn escape_at(s: Seq<char>, i: int) -> Option<(Seq<char>, int)> {
    if !(0 <= i < s.len()) {
        None
    } else {
        let c = s[i];
        if c == 'n' {
            Some((seq!['\n'], i + 1))
        } else if c == 'r' {
            Some((seq!['\r'], i + 1))
        } else if c == 't' {
            Some((seq!['\t'], i + 1))
        } else if c == '0' {
            Some((seq!['\0'], i + 1))
        } else if c == '\\' || c == '\'' || c == '"' {
            Some((seq![c], i + 1))
        } else if c == 'x' {
            if i + 2 < s.len() && '0' <= s[i + 1] && s[i + 1] <= '7' && is_hex_digit(s[i + 2]) {
                Some((seq![char_of(16 * hex_value(s[i + 1]) + hex_value(s[i + 2]))], i + 3))
            } else {
                None
            }
        } else if c == 'u' {
            unicode_escape(s, i + 1)
        } else if c == '\n' {
            Some((Seq::empty(), skip_blank(s, i + 1)))
        } else {
            None
        }
    }
}

/// The value of the `"`-delimited literal whose contents start at `i`, and
/// the position after its closing `"`.
pub open spec fn plain_body(s: Seq<char>, i: int) -> Option<(Seq<char>, int)>
    decreases s.len() - i,
    when 0 <= i <= s.len()
    via plain_body_decreases
{
    if !(0 <= i < s.len()) {
        None
    } else if s[i] == '"' {
        Some((Seq::empty(), i + 1))
    } else if s[i] == '\\' {
        match escape_at(s, i + 1) {
            None => None,
            Some((d, k)) => match plain_body(s, k) {
                Some((v, e)) => Some((d + v, e)),
                None => None,
            },
        }
    } else {
        match plain_body(s, i + 1) {
            Some((v, e)) => Some((seq![s[i]] + v, e)),
            None => None,
        }
    }
}

/// The first position from `i` on that holds no `#`.
pub open spec fn hash_end(s: Seq<char>, i: int) -> int
    decreases s.len() - i,
{
    if 0 <= i < s.len() && s[i] == '#' {
        hash_end(s, i + 1)
    } else {
        i
    }
}

/// Whether a `"` followed by `n` times `#` stands at `p`.
pub open spec fn closes_raw(s: Seq<char>, p: int, n: int) -> bool {
    0 <= p && p + n < s.len() && s[p] == '"' && forall|k: int| 1 <= k <= n ==> #[trigger] s[p + k] == '#'
}

/// The first position from `i` on where a raw string with `n` hashes closes,
/// or the end of `s`.
pub open spec fn raw_end(s: Seq<char>, i: int, n: int) -> int
    decreases s.len() - i,
{
    if 0 <= i < s.len() && !closes_raw(s, i, n) {
        raw_end(s, i + 1, n)
    } else {
        i
    }
}

/// The value of the raw string whose hashes start at `h0` (after its `r`),
/// and the position after it.
pub open spec fn raw_literal(s: Seq<char>, h0: int) -> Option<(Seq<char>, int)> {
    let h = hash_end(s, h0);
    let n = h - h0;
    if 0 <= h < s.len() && s[h] == '"' && raw_end(s, h + 1, n) < s.len() {
        Some((s.subrange(h + 1, raw_end(s, h + 1, n)), raw_end(s, h + 1, n) + 1 + n))
    } else {
        None
    }
}

/// The first position from `i` on that holds no character of `[A-Za-z0-9_]`.
pub open spec fn ident_end(s: Seq<char>, i: int) -> int
    decreases s.len() - i,
{
    if 0 <= i < s.len() && is_name_char(s[i]) {
        ident_end(s, i + 1)
    } else {
        i
    }
}

/// The position after the suffix, an identifier, that may follow a literal
/// ending at `e`; `e` itself where none does.
pub open spec fn suffix_end(s: Seq<char>, e: int) -> int {
    if 0 <= e < s.len() && (('a' <= s[e] && s[e] <= 'z') || ('A' <= s[e] && s[e] <= 'Z') || s[e]
        == '_') {
        ident_end(s, e)
    } else {
        e
    }
}

/// The value of the string literal that starts at `i`, if a complete one
/// does, and the position after it, past any suffix.
pub open spec fn literal_at(s: Seq<char>, i: int) -> Option<(Seq<char>, int)> {
    match unsuffixed_literal_at(s, i) {
        Some((v, e)) => Some((v, suffix_end(s, e))),
        None => None,
    }
}

/// The value of the string literal that starts at `i`, if a complete one
/// does, and the position after its closing quote or hashes.
pub open spec fn unsuffixed_literal_at(s: Seq<char>, i: int) -> Option<(Seq<char>, int)> {
    if 0 <= i < s.len() && s[i] == '"' {
        plain_body(s, i + 1)
    } else if 0 <= i < s.len() && s[i] == 'r' {
        raw_literal(s, i + 1)
    } else {
        None
    }
}

proof fn lemma_hex_end_bounds(s: Seq<char>, i: int)
    requires
        0 <= i <= s.len(),
    ensures
        i <= hex_end(s, i) <= s.len(),
        forall|j: int| i <= j < hex_end(s, i) ==> is_hex_digit(#[trigger] s[j]) || s[j] == '_',
    decreases s.len() - i,
{
    if i < s.len() && (is_hex_digit(s[i]) || s[i] == '_') {
        lemma_hex_end_bounds(s, i + 1);
    }
}

proof fn lemma_skip_blank_bounds(s: Seq<char>, i: int)
    requires
        0 <= i <= s.len(),
    ensures
        i <= skip_blank(s, i) <= s.len(),
    decreases s.len() - i,
{
    if i < s.len() && (s[i] == ' ' || s[i] == '\t' || s[i] == '\n' || s[i] == '\r') {
        lemma_skip_blank_bounds(s, i + 1);
    }
}

proof fn lemma_hash_end_bounds(s: Seq<char>, i: int)
    requires
        0 <= i <= s.len(),
    ensures
        i <= hash_end(s, i) <= s.len(),
    decreases s.len() - i,
{
    if i < s.len() && s[i] == '#' {
        lemma_hash_end_bounds(s, i + 1);
    }
}

proof fn lemma_raw_end_bounds(s: Seq<char>, i: int, n: int)
    requires
        0 <= i <= s.len(),
    ensures
        i <= raw_end(s, i, n) <= s.len(),
        raw_end(s, i, n) < s.len() ==> closes_raw(s, raw_end(s, i, n), n),
    decreases s.len() - i,
{
    if i < s.len() && !closes_raw(s, i, n) {
        lemma_raw_end_bounds(s, i + 1, n);
    }
}

proof fn lemma_escape_end(s: Seq<char>, i: int)
    requires
        0 <= i <= s.len(),
    ensures
        escape_at(s, i) matches Some((_, k)) ==> i < k <= s.len(),
{
    if i < s.len() {
        if s[i] == 'u' && i + 3 <= s.len() {
            lemma_hex_end_bounds(s, i + 3);
        } else if s[i] == '\n' {
            lemma_skip_blank_bounds(s, i + 1);
        }
    }
}

#[via_fn]
proof fn plain_body_decreases(s: Seq<char>, i: int) {
    if 0 <= i < s.len() && s[i] == '\\' {
        lemma_escape_end(s, i + 1);
    }
}

proof fn lemma_plain_body_end(s: Seq<char>, i: int)
    requires
        0 <= i <= s.len(),
    ensures
        plain_body(s, i) matches Some((_, e)) ==> i < e <= s.len(),
    decreases s.len() - i,
{
    if i < s.len() && s[i] != '"' {
        if s[i] == '\\' {
            lemma_escape_end(s, i + 1);
            if let Some((_, k)) = escape_at(s, i + 1) {
                lemma_plain_body_end(s, k);
            }
        } else {
            lemma_plain_body_end(s, i + 1);
        }
    }
}

/// A literal, where one starts at `i`, ends after `i` and within `s`.
pub proof fn lemma_literal_end(s: Seq<char>, i: int)
    requires
        0 <= i <= s.len(),
    ensures
        literal_at(s, i) matches Some((_, e)) ==> i < e <= s.len(),
{
    lemma_unsuffixed_literal_end(s, i);
    if let Some((_, e)) = unsuffixed_literal_at(s, i) {
        lemma_ident_end_bounds(s, e);
    }
}

proof fn lemma_ident_end_bounds(s: Seq<char>, i: int)
    requires
        0 <= i <= s.len(),
    ensures
        i <= ident_end(s, i) <= s.len(),
    decreases s.len() - i,
{
    if i < s.len() && is_name_char(s[i]) {
        lemma_ident_end_bounds(s, i + 1);
    }
}

proof fn lemma_unsuffixed_literal_end(s: Seq<char>, i: int)
    requires
        0 <= i <= s.len(),
    ensures
        unsuffixed_literal_at(s, i) matches Some((_, e)) ==> i < e <= s.len(),
{
    if i < s.len() && s[i] == '"' {
        lemma_plain_body_end(s, i + 1);
    } else if i < s.len() && s[i] == 'r' {
        lemma_hash_end_bounds(s, i + 1);
        let h = hash_end(s, i + 1);
        if h < s.len() {
            lemma_raw_end_bounds(s, h + 1, h - (i + 1));
        }
    }
}

proof fn lemma_char_of(c: char)
    ensures
        char_of(c as int) == c,
{
    assert(code_of(c) == c as int);
    let d = char_of(c as int);
    assert(code_of(d) == c as int);
}

/// The character with code point `n`, where `n` is a Unicode scalar value.
fn scalar_char(n: u32) -> (r: Option<char>)
    ensures
        r is Some <==> is_scalar(n as int),
        r matches Some(c) ==> c == char_of(n as int),
{
    let r = char_from_u32(n);
    proof {
        if let Some(c) = r {
            lemma_char_of(c);
        }
    }
    r
}

fn is_hex(c: char) -> (r: bool)
    ensures
        r == is_hex_digit(c),
{
    ('0' <= c && c <= '9') || ('a' <= c && c <= 'f') || ('A' <= c && c <= 'F')
}

fn hex_val(c: char) -> (r: u32)
    requires
        is_hex_digit(c),
    ensures
        r as int == hex_value(c),
        r < 16,
{
    if '0' <= c && c <= '9' {
        c as u32 - '0' as u32
    } else if 'a' <= c && c <= 'f' {
        c as u32 - 'a' as u32 + 10
    } else {
        c as u32 - 'A' as u32 + 10
    }
}

fn find_hex_end(s: &Vec<char>, i: usize) -> (r: usize)
    requires
        i <= s.len(),
    ensures
        r == hex_end(s@, i as int),
{
    let mut j = i;
    while j < s.len() && (is_hex(s[j]) || s[j] == '_')
        invariant
            i <= j <= s.len(),
            hex_end(s@, i as int) == hex_end(s@, j as int),
        decreases s.len() - j,
    {
        j += 1;
    }
    j
}

fn skip_blanks(s: &Vec<char>, i: usize) -> (r: usize)
    requires
        i <= s.len(),
    ensures
        r == skip_blank(s@, i as int),
{
    let mut j = i;
    while j < s.len() && (s[j] == ' ' || s[j] == '\t' || s[j] == '\n' || s[j] == '\r')
        invariant
            i <= j <= s.len(),
            skip_blank(s@, i as int) == skip_blank(s@, j as int),
        decreases s.len() - j,
    {
        j += 1;
    }
    j
}

fn find_hash_end(s: &Vec<char>, i: usize) -> (r: usize)
    requires
        i <= s.len(),
    ensures
        r == hash_end(s@, i as int),
{
    let mut j = i;
    while j < s.len() && s[j] == '#'
        invariant
            i <= j <= s.len(),
            hash_end(s@, i as int) == hash_end(s@, j as int),
        decreases s.len() - j,
    {
        j += 1;
    }
    j
}

fn closes_at(s: &Vec<char>, p: usize, n: usize) -> (r: bool)
    requires
        p <= s.len(),
    ensures
        r == closes_raw(s@, p as int, n as int),
{
    if n >= s.len() - p || s[p] != '"' {
        return false;
    }
    let mut k: usize = 1;
    while k <= n
        invariant
            1 <= k <= n + 1,
            p + n < s.len(),
            forall|m: int| 1 <= m < k ==> #[trigger] s@[p + m] == '#',
        decreases n + 1 - k,
    {
        if s[p + k] != '#' {
            return false;
        }
        k += 1;
    }
    true
}

fn find_raw_end(s: &Vec<char>, i: usize, n: usize) -> (r: usize)
    requires
        i <= s.len(),
    ensures
        r == raw_end(s@, i as int, n as int),
{
    let mut j = i;
    while j < s.len() && !closes_at(s, j, n)
        invariant
            i <= j <= s.len(),
            raw_end(s@, i as int, n as int) == raw_end(s@, j as int, n as int),
        decreases s.len() - j,
    {
        j += 1;
    }
    j
}

/// Reads the escape whose first character after `\` stands at `i`.
fn read_escape(s: &Vec<char>, i: usize) -> (r: Option<(Vec<char>, usize)>)
    requires
        i <= s.len(),
    ensures
        escape_at(s@, i as int) == (match r {
            Some((d, k)) => Some((d@, k as int)),
            None => None,
        }),
{
    if i >= s.len() {
        return None;
    }
    let c = s[i];
    if c == 'n' {
        Some((vec!['\n'], i + 1))
    } else if c == 'r' {
        Some((vec!['\r'], i + 1))
    } else if c == 't' {
        Some((vec!['\t'], i + 1))
    } else if c == '0' {
        Some((vec!['\0'], i + 1))
    } else if c == '\\' || c == '\'' || c == '"' {
        Some((vec![c], i + 1))
    } else if c == 'x' {
        if s.len() - i > 2 && '0' <= s[i + 1] && s[i + 1] <= '7' && is_hex(s[i + 2]) {
            let n = 16 * hex_val(s[i + 1]) + hex_val(s[i + 2]);
            match scalar_char(n) {
                Some(ch) => Some((vec![ch], i + 3)),
                None => None,
            }
        } else {
            None
        }
    } else if c == 'u' {
        read_unicode_escape(s, i + 1)
    } else if c == '\n' {
        Some((Vec::new(), skip_blanks(s, i + 1)))
    } else {
        None
    }
}

/// Reads the escape `\u{...}` whose `{` stands at `i`.
fn read_unicode_escape(s: &Vec<char>, i: usize) -> (r: Option<(Vec<char>, usize)>)
    requires
        i <= s.len(),
    ensures
        unicode_escape(s@, i as int) == (match r {
            Some((d, k)) => Some((d@, k as int)),
            None => None,
        }),
{
    if i >= s.len() || s[i] != '{' || s.len() - i < 2 || !is_hex(s[i + 1]) {
        return None;
    }
    let e = find_hex_end(s, i + 2);
    proof {
        lemma_hex_end_bounds(s@, i + 2);
    }
    if !(e < s.len() && s[e] == '}') {
        return None;
    }
    let mut v: u32 = 0;
    let mut count: usize = 0;
    let mut fits = true;
    let mut j = i + 1;
    proof {
        assert(s@.subrange(i + 1, i + 1) =~= Seq::<char>::empty());
    }
    while j < e
        invariant
            i + 1 <= j <= e < s.len(),
            forall|m: int| i + 2 <= m < e ==> is_hex_digit(#[trigger] s@[m]) || s@[m] == '_',
            is_hex_digit(s@[i + 1]),
            count as int == strip_underscores(s@.subrange(i + 1, j as int)).len(),
            count <= j - (i + 1),
            fits ==> v as int == hex_number(strip_underscores(s@.subrange(i + 1, j as int))) && v
                <= 0x10FFFF,
            !fits ==> hex_number(strip_underscores(s@.subrange(i + 1, j as int))) > 0x10FFFF,
        decreases e - j,
    {
        let ghost before = strip_underscores(s@.subrange(i + 1, j as int));
        proof {
            assert(s@.subrange(i + 1, j + 1).drop_last() =~= s@.subrange(i + 1, j as int));
            assert(s@.subrange(i + 1, j + 1).last() == s@[j as int]);
        }
        if s[j] != '_' {
            proof {
                assert(before.push(s@[j as int]).drop_last() =~= before);
            }
            let h = hex_val(s[j]);
            if fits {
                let w = 16 * v + h;
                if w <= 0x10FFFF {
                    v = w;
                } else {
                    fits = false;
                }
            }
            count += 1;
        }
        j += 1;
    }
    if !fits || count > 6 {
        return None;
    }
    match scalar_char(v) {
        Some(ch) => Some((vec![ch], e + 1)),
        None => None,
    }
}

/// Reads the `"`-delimited literal whose contents start at `i`.
fn read_plain(s: &Vec<char>, i: usize) -> (r: Option<(Vec<char>, usize)>)
    requires
        i <= s.len(),
    ensures
        plain_body(s@, i as int) == (match r {
            Some((v, e)) => Some((v@, e as int)),
            None => None,
        }),
{
    let mut value: Vec<char> = Vec::new();
    let mut j = i;
    while j < s.len()
        invariant
            i <= j <= s.len(),
            plain_body(s@, i as int) == (match plain_body(s@, j as int) {
                Some((v, e)) => Some((value@ + v, e)),
                None => None,
            }),
        decreases s.len() - j,
    {
        let ghost before = value@;
        if s[j] == '"' {
            proof {
                assert(before + Seq::<char>::empty() =~= before);
            }
            return Some((value, j + 1));
        } else if s[j] == '\\' {
            match read_escape(s, j + 1) {
                None => {
                    return None;
                },
                Some((d, k)) => {
                    proof {
                        lemma_escape_end(s@, j + 1);
                    }
                    let mut m: usize = 0;
                    while m < d.len()
                        invariant
                            m <= d.len(),
                            value@ == before + d@.take(m as int),
                        decreases d.len() - m,
                    {
                        value.push(d[m]);
                        proof {
                            assert(d@.take(m + 1) =~= d@.take(m as int).push(d@[m as int]));
                        }
                        m += 1;
                    }
                    proof {
                        assert(d@.take(d.len() as int) =~= d@);
                        assert forall|v: Seq<char>| before + (d@ + v) == #[trigger] (value@ + v) by {
                            assert(before + (d@ + v) =~= value@ + v);
                        }
                    }
                    j = k;
                },
            }
        } else {
            value.push(s[j]);
            proof {
                assert forall|v: Seq<char>| before + (seq![s@[j as int]] + v) == #[trigger] (value@
                    + v) by {
                    assert(before + (seq![s@[j as int]] + v) =~= value@ + v);
                }
            }
            j += 1;
        }
    }
    None
}

/// Reads the string literal that starts at `i`, if a complete one does,
/// with any suffix.
pub fn read_literal(s: &Vec<char>, i: usize) -> (r: Option<(Vec<char>, usize)>)
    requires
        i <= s.len(),
    ensures
        literal_at(s@, i as int) == (match r {
            Some((v, e)) => Some((v@, e as int)),
            None => None,
        }),
{
    proof {
        lemma_unsuffixed_literal_end(s@, i as int);
    }
    match read_unsuffixed_literal(s, i) {
        Some((v, e)) => {
            if e < s.len() && (('a' <= s[e] && s[e] <= 'z') || ('A' <= s[e] && s[e] <= 'Z') || s[e]
                == '_') {
                let mut j = e;
                while j < s.len() && (('a' <= s[j] && s[j] <= 'z') || ('A' <= s[j] && s[j] <= 'Z')
                    || ('0' <= s[j] && s[j] <= '9') || s[j] == '_')
                    invariant
                        e <= j <= s.len(),
                        ident_end(s@, e as int) == ident_end(s@, j as int),
                    decreases s.len() - j,
                {
                    j += 1;
                }
                Some((v, j))
            } else {
                Some((v, e))
            }
        },
        None => None,
    }
}

/// Reads the string literal that starts at `i`, up to its closing quote or hashes.
fn read_unsuffixed_literal(s: &Vec<char>, i: usize) -> (r: Option<(Vec<char>, usize)>)
    requires
        i <= s.len(),
    ensures
        unsuffixed_literal_at(s@, i as int) == (match r {
            Some((v, e)) => Some((v@, e as int)),
            None => None,
        }),
{
    if i < s.len() && s[i] == '"' {
        read_plain(s, i + 1)
    } else if i < s.len() && s[i] == 'r' {
        let h = find_hash_end(s, i + 1);
        proof {
            lemma_hash_end_bounds(s@, i + 1);
        }
        if h < s.len() && s[h] == '"' {
            let n = h - (i + 1);
            let p = find_raw_end(s, h + 1, n);
            proof {
                lemma_raw_end_bounds(s@, h + 1, n as int);
            }
            if p < s.len() {
                let mut v: Vec<char> = Vec::new();
                let mut j = h + 1;
                while j < p
                    invariant
                        h + 1 <= j <= p < s.len(),
                        v@ == s@.subrange(h + 1, j as int),
                    decreases p - j,
                {
                    v.push(s[j]);
                    proof {
                        assert(s@.subrange(h + 1, j + 1) =~= s@.subrange(h + 1, j as int).push(s@[j as int]));
                    }
                    j += 1;
                }
                return Some((v, p + 1 + n));
            }
        }
        None
    } else {
        None
    }
}

} // verus!
