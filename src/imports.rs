//! The import declaration list: `["pub"] "<label>" ["as" name] ";"`, repeated,
//! its parse into imports and the directives that those imports give.

use vstd::prelude::*;
use crate::label::{
    is_name_char, resolve, same_chars, sub_chars, GnTarget, GnTargetView, LabelError,
};
use crate::literal::{lemma_literal_end, literal_at, read_literal};
use crate::text::{chars_of, string_of};

verus! {

/// Why a declaration list was rejected; `at` is a character offset into the text.
#[derive(Clone, Debug, PartialEq, Eq)]
pub enum ParseError {
    /// No complete string literal stands where a label is due; `found` is
    /// the token that stands there instead (empty at the end of the text).
    ExpectedStringLiteral { at: usize, found: String },
    /// The label `label`, the value of the string literal at `at`, does not resolve.
    InvalidLabel { at: usize, label: String, reason: LabelError },
    /// `as` without a name, or a missing `;`.
    MalformedStatement { at: usize },
}

/// What a `ParseError` holds, with its texts as character sequences.
pub enum ParseErrorView {
    ExpectedStringLiteral { at: usize, found: Seq<char> },
    InvalidLabel { at: usize, label: Seq<char>, reason: LabelError },
    MalformedStatement { at: usize },
}

impl View for ParseError {
    type V = ParseErrorView;

    open spec fn view(&self) -> ParseErrorView {
        match self {
            ParseError::ExpectedStringLiteral { at, found } => ParseErrorView::ExpectedStringLiteral {
                at: *at,
                found: found@,
            },
            ParseError::InvalidLabel { at, label, reason } => ParseErrorView::InvalidLabel {
                at: *at,
                label: label@,
                reason: *reason,
            },
            ParseError::MalformedStatement { at } => ParseErrorView::MalformedStatement { at: *at },
        }
    }
}

/// One declaration: a resolved label, the name it is bound to if not its own,
/// and whether the binding is visible to users of the importing unit.
#[derive(Debug, PartialEq, Eq)]
pub struct Import {
    pub target: GnTarget,
    pub alias: Option<String>,
    pub reexport: bool,
}

pub struct ImportView {
    pub target: GnTargetView,
    pub alias: Option<Seq<char>>,
    pub reexport: bool,
}

impl View for Import {
    type V = ImportView;

    open spec fn view(&self) -> ImportView {
        ImportView {
            target: self.target@,
            alias: match self.alias {
                Some(a) => Some(a@),
                None => None,
            },
            reexport: self.reexport,
        }
    }
}

/// The declarations of one list, in the order written.
#[derive(Debug, PartialEq, Eq)]
pub struct ImportList {
    pub imports: Vec<Import>,
}

impl View for ImportList {
    type V = Seq<ImportView>;

    open spec fn view(&self) -> Seq<ImportView> {
        self.imports@.map_values(|i: Import| i@)
    }
}

/// What one declaration asks of the program that holds it: bind the unit
/// `source` under the name `binding`.
#[derive(Clone, Debug, PartialEq, Eq)]
pub struct ImportDirective {
    pub source: String,
    pub binding: String,
    pub visible_to_reexport: bool,
}

pub struct ImportDirectiveView {
    pub source: Seq<char>,
    pub binding: Seq<char>,
    pub visible_to_reexport: bool,
}

impl View for ImportDirective {
    type V = ImportDirectiveView;

    open spec fn view(&self) -> ImportDirectiveView {
        ImportDirectiveView {
            source: self.source@,
            binding: self.binding@,
            visible_to_reexport: self.visible_to_reexport,
        }
    }
}

/// The directive of one declaration: its alias, if any, else the target's local name.
pub open spec fn directive_of(i: ImportView) -> ImportDirectiveView {
    ImportDirectiveView {
        source: i.target.mangled_name,
        binding: match i.alias {
            Some(a) => a,
            None => i.target.local_name,
        },
        visible_to_reexport: i.reexport,
    }
}

pub open spec fn is_space(c: char) -> bool {
    c == ' ' || c == '\t' || c == '\n' || c == '\r'
}

pub open spec fn is_word_start(c: char) -> bool {
    ('a' <= c && c <= 'z') || ('A' <= c && c <= 'Z') || c == '_'
}

/// The first position from `i` on that holds no white space.
pub open spec fn skip_space(s: Seq<char>, i: int) -> int
    decreases s.len() - i,
{
    if 0 <= i < s.len() && is_space(s[i]) {
        skip_space(s, i + 1)
    } else {
        i
    }
}

/// The first position from `i` on that holds no character of `[A-Za-z0-9_]`.
pub open spec fn name_end(s: Seq<char>, i: int) -> int
    decreases s.len() - i,
{
    if 0 <= i < s.len() && is_name_char(s[i]) {
        name_end(s, i + 1)
    } else {
        i
    }
}

/// The first position from `i` on that holds white space or a `;`.
pub open spec fn token_end(s: Seq<char>, i: int) -> int
    decreases s.len() - i,
{
    if 0 <= i < s.len() && !is_space(s[i]) && s[i] != ';' {
        token_end(s, i + 1)
    } else {
        i
    }
}

/// The token that stands at `i`: a lone `;`, or the run of characters up to
/// the next white space or `;`; empty at the end of `s`.
pub open spec fn found_at(s: Seq<char>, i: int) -> Seq<char> {
    if !(0 <= i < s.len()) {
        Seq::empty()
    } else if s[i] == ';' {
        seq![';']
    } else {
        s.subrange(i, token_end(s, i))
    }
}

/// The identifier `[A-Za-z_][A-Za-z0-9_]*` that starts at `i`, if one does.
pub open spec fn word_at(s: Seq<char>, i: int) -> Option<Seq<char>> {
    if 0 <= i < s.len() && is_word_start(s[i]) {
        Some(s.subrange(i, name_end(s, i)))
    } else {
        None
    }
}

/// Whether a `pub` starts at `i`, and where the label is then due.
pub open spec fn visibility_at(s: Seq<char>, i: int) -> (bool, int) {
    match word_at(s, i) {
        Some(w) => if w == "pub"@ {
            (true, skip_space(s, i + w.len()))
        } else {
            (false, i)
        },
        None => (false, i),
    }
}

/// The alias clause that may start at `i`, and where the `;` is then due.
pub open spec fn alias_at(s: Seq<char>, i: int) -> Result<(Option<Seq<char>>, int), ParseErrorView> {
    match word_at(s, i) {
        Some(w) => if w == "as"@ {
            let j = skip_space(s, i + w.len());
            match word_at(s, j) {
                Some(a) => Ok((Some(a), skip_space(s, j + a.len()))),
                None => Err(ParseErrorView::MalformedStatement { at: j as usize }),
            }
        } else {
            Ok((None, i))
        },
        None => Ok((None, i)),
    }
}

/// The declaration that starts at `i`, and the position after its `;`.
pub open spec fn statement_at(s: Seq<char>, i: int) -> Result<(ImportView, int), ParseErrorView> {
    let (reexport, j) = visibility_at(s, i);
    match literal_at(s, j) {
        None => Err(ParseErrorView::ExpectedStringLiteral { at: j as usize, found: found_at(s, j) }),
        Some((label, after)) => match resolve(label) {
            Err(reason) => Err(ParseErrorView::InvalidLabel { at: j as usize, label, reason }),
            Ok(target) => match alias_at(s, skip_space(s, after)) {
                Err(e) => Err(e),
                Ok((alias, k)) => if 0 <= k < s.len() && s[k] == ';' {
                    Ok((ImportView { target, alias, reexport }, k + 1))
                } else {
                    Err(ParseErrorView::MalformedStatement { at: k as usize })
                },
            },
        },
    }
}

/// The declarations from position `i` to the end of `s`.
pub open spec fn parse_from(s: Seq<char>, i: int) -> Result<Seq<ImportView>, ParseErrorView>
    decreases s.len() - i,
    when 0 <= i <= s.len()
    via parse_from_decreases
{
    let j = skip_space(s, i);
    if j >= s.len() {
        Ok(Seq::empty())
    } else {
        match statement_at(s, j) {
            Err(e) => Err(e),
            Ok((imp, k)) => match parse_from(s, k) {
                Ok(rest) => Ok(seq![imp] + rest),
                Err(e) => Err(e),
            },
        }
    }
}

/// The declarations of a whole text.
pub open spec fn parse_text(s: Seq<char>) -> Result<Seq<ImportView>, ParseErrorView> {
    parse_from(s, 0)
}

proof fn lemma_skip_space_bounds(s: Seq<char>, i: int)
    requires
        0 <= i <= s.len(),
    ensures
        i <= skip_space(s, i) <= s.len(),
    decreases s.len() - i,
{
    if i < s.len() && is_space(s[i]) {
        lemma_skip_space_bounds(s, i + 1);
    }
}

proof fn lemma_name_end_bounds(s: Seq<char>, i: int)
    requires
        0 <= i <= s.len(),
    ensures
        i <= name_end(s, i) <= s.len(),
    decreases s.len() - i,
{
    if i < s.len() && is_name_char(s[i]) {
        lemma_name_end_bounds(s, i + 1);
    }
}

proof fn lemma_statement_advances(s: Seq<char>, i: int)
    requires
        0 <= i <= s.len(),
    ensures
        statement_at(s, i) matches Ok((_, k)) ==> i < k <= s.len(),
{
    lemma_name_end_bounds(s, i);
    let (_, j) = visibility_at(s, i);
    if word_at(s, i) is Some {
        lemma_skip_space_bounds(s, name_end(s, i));
    }
    lemma_skip_space_bounds(s, i);
    lemma_literal_end(s, j);
    if let Some((_, a)) = literal_at(s, j) {
        lemma_skip_space_bounds(s, a);
        let b = skip_space(s, a);
        lemma_name_end_bounds(s, b);
        if let Some(w) = word_at(s, b) {
            lemma_skip_space_bounds(s, b + w.len());
            let c = skip_space(s, b + w.len());
            lemma_name_end_bounds(s, c);
            if let Some(x) = word_at(s, c) {
                lemma_skip_space_bounds(s, c + x.len());
            }
        }
    }
}

#[via_fn]
proof fn parse_from_decreases(s: Seq<char>, i: int) {
    lemma_skip_space_bounds(s, i);
    let j = skip_space(s, i);
    if j < s.len() {
        lemma_statement_advances(s, j);
    }
}

fn skip_spaces(s: &Vec<char>, i: usize) -> (r: usize)
    requires
        i <= s.len(),
    ensures
        r == skip_space(s@, i as int),
        i <= r <= s.len(),
{
    let mut j = i;
    while j < s.len() && (s[j] == ' ' || s[j] == '\t' || s[j] == '\n' || s[j] == '\r')
        invariant
            i <= j <= s.len(),
            skip_space(s@, i as int) == skip_space(s@, j as int),
        decreases s.len() - j,
    {
        j += 1;
    }
    j
}

fn find_name_end(s: &Vec<char>, i: usize) -> (r: usize)
    requires
        i <= s.len(),
    ensures
        r == name_end(s@, i as int),
        i <= r <= s.len(),
{
    let mut j = i;
    while j < s.len() && (('a' <= s[j] && s[j] <= 'z') || ('A' <= s[j] && s[j] <= 'Z') || ('0'
        <= s[j] && s[j] <= '9') || s[j] == '_')
        invariant
            i <= j <= s.len(),
            name_end(s@, i as int) == name_end(s@, j as int),
        decreases s.len() - j,
    {
        j += 1;
    }
    j
}

fn find_token_end(s: &Vec<char>, i: usize) -> (r: usize)
    requires
        i <= s.len(),
    ensures
        r == token_end(s@, i as int),
        i <= r <= s.len(),
{
    let mut j = i;
    while j < s.len() && !(s[j] == ' ' || s[j] == '\t' || s[j] == '\n' || s[j] == '\r') && s[j] != ';'
        invariant
            i <= j <= s.len(),
            token_end(s@, i as int) == token_end(s@, j as int),
        decreases s.len() - j,
    {
        j += 1;
    }
    j
}

/// The token that stands at `i`.
fn found_token(s: &Vec<char>, i: usize) -> (r: String)
    requires
        i <= s.len(),
    ensures
        r@ == found_at(s@, i as int),
{
    if i >= s.len() {
        return string_of(&Vec::new());
    }
    if s[i] == ';' {
        proof {
            assert(s@.subrange(i as int, i + 1) =~= seq![';']);
        }
        return string_of(&sub_chars(s, i, i + 1));
    }
    let e = find_token_end(s, i);
    string_of(&sub_chars(s, i, e))
}

/// The end of the identifier that starts at `i`, if one does.
fn word_end(s: &Vec<char>, i: usize) -> (r: Option<usize>)
    requires
        i <= s.len(),
    ensures
        match r {
            Some(e) => i < e <= s.len() && word_at(s@, i as int) == Some(s@.subrange(i as int, e as int)),
            None => word_at(s@, i as int) is None,
        },
{
    if i < s.len() && (('a' <= s[i] && s[i] <= 'z') || ('A' <= s[i] && s[i] <= 'Z') || s[i] == '_') {
        assert(is_name_char(s@[i as int]));
        Some(find_name_end(s, i + 1))
    } else {
        None
    }
}

/// Whether the characters of `s` from `from` up to `to` spell `w`.
fn spells(s: &Vec<char>, from: usize, to: usize, w: &str) -> (r: bool)
    requires
        from <= to <= s.len(),
    ensures
        r == (s@.subrange(from as int, to as int) == w@),
{
    same_chars(&sub_chars(s, from, to), &chars_of(w))
}

/// Parses the declaration that starts at `i`.
fn parse_statement(s: &Vec<char>, i: usize) -> (r: Result<(Import, usize), ParseError>)
    requires
        i <= s.len(),
    ensures
        statement_at(s@, i as int) == (match r {
            Ok((imp, k)) => Ok((imp@, k as int)),
            Err(e) => Err(e@),
        }),
{
    let mut j = i;
    let mut reexport = false;
    match word_end(s, i) {
        Some(e) => {
            if spells(s, i, e, "pub") {
                reexport = true;
                j = skip_spaces(s, e);
            }
        },
        None => {},
    }
    assert(visibility_at(s@, i as int) == (reexport, j as int));
    proof {
        lemma_literal_end(s@, j as int);
    }
    let (label, after) = match read_literal(s, j) {
        Some(lit) => lit,
        None => {
            return Err(ParseError::ExpectedStringLiteral { at: j, found: found_token(s, j) });
        },
    };
    let target = match GnTarget::from_chars(&label) {
        Ok(t) => t,
        Err(reason) => {
            return Err(ParseError::InvalidLabel { at: j, label: string_of(&label), reason });
        },
    };
    let mut k = skip_spaces(s, after);
    let mut alias: Option<String> = None;
    match word_end(s, k) {
        Some(e) => {
            if spells(s, k, e, "as") {
                let a = skip_spaces(s, e);
                match word_end(s, a) {
                    Some(e2) => {
                        alias = Some(string_of(&sub_chars(s, a, e2)));
                        k = skip_spaces(s, e2);
                    },
                    None => {
                        return Err(ParseError::MalformedStatement { at: a });
                    },
                }
            }
        },
        None => {},
    }
    if k < s.len() && s[k] == ';' {
        let imp = Import { target, alias, reexport };
        Ok((imp, k + 1))
    } else {
        Err(ParseError::MalformedStatement { at: k })
    }
}

impl ImportList {
    /// Parses a whole declaration list; the first faulty declaration fails it.
    pub fn parse(text: &str) -> (r: Result<ImportList, ParseError>)
        ensures
            parse_text(text@) == (match r {
                Ok(list) => Ok(list@),
                Err(e) => Err(e@),
            }),
    {
        let s = chars_of(text);
        let mut imports: Vec<Import> = Vec::new();
        let mut pos: usize = 0;
        while pos < s.len()
            invariant
                pos <= s.len(),
                s@ == text@,
                parse_text(s@) == (match parse_from(s@, pos as int) {
                    Ok(rest) => Ok(imports@.map_values(|i: Import| i@) + rest),
                    Err(e) => Err(e),
                }),
            decreases s.len() - pos,
        {
            let j = skip_spaces(&s, pos);
            if j >= s.len() {
                proof {
                    assert(imports@.map_values(|i: Import| i@) + Seq::empty() =~= imports@.map_values(
                        |i: Import| i@,
                    ));
                }
                return Ok(ImportList { imports });
            }
            match parse_statement(&s, j) {
                Err(e) => {
                    return Err(e);
                },
                Ok((imp, k)) => {
                    proof {
                        lemma_statement_advances(s@, j as int);
                    }
                    let ghost before = imports@.map_values(|i: Import| i@);
                    let ghost v = imp@;
                    imports.push(imp);
                    proof {
                        assert(imports@.map_values(|i: Import| i@) =~= before.push(v));
                        assert forall|rest: Seq<ImportView>| before + (seq![v] + rest) == #[trigger] (
                        before.push(v) + rest) by {
                            assert(before + (seq![v] + rest) =~= before.push(v) + rest);
                        }
                    }
                    pos = k;
                },
            }
        }
        proof {
            assert(imports@.map_values(|i: Import| i@) + Seq::empty() =~= imports@.map_values(
                |i: Import| i@,
            ));
        }
        Ok(ImportList { imports })
    }

    /// One directive per declaration, in the order written.
    pub fn emit(&self) -> (r: Vec<ImportDirective>)
        ensures
            r@.len() == self@.len(),
            forall|k: int| 0 <= k < r@.len() ==> (#[trigger] r@[k])@ == directive_of(self@[k]),
    {
        let mut r: Vec<ImportDirective> = Vec::new();
        let mut i: usize = 0;
        while i < self.imports.len()
            invariant
                i <= self.imports.len(),
                r@.len() == i,
                forall|k: int| 0 <= k < i ==> (#[trigger] r@[k])@ == directive_of(self@[k]),
            decreases self.imports.len() - i,
        {
            let imp = &self.imports[i];
            let binding = match &imp.alias {
                Some(a) => a.clone(),
                None => imp.target.local_name.clone(),
            };
            r.push(
                ImportDirective {
                    source: imp.target.mangled_name.clone(),
                    binding,
                    visible_to_reexport: imp.reexport,
                },
            );
            i += 1;
        }
        r
    }
}

} // verus!
