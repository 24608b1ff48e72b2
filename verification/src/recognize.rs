//! The declaration recogniser: a lexical heuristic that reads one trimmed
//! line of source text and finds at most one declaration in it.

use vstd::prelude::*;
use crate::text::{
    contains, contains_seq, find_first, first_occurrence, from_chars, ident_end, occurs_at,
    scan_identifier, slice_chars, starts_with, to_chars, trim, trimmed,
};

verus! {

/// What a recognised declaration declares.
#[derive(Clone, Copy, Debug, PartialEq, Eq, Structural, Hash)]
pub enum SymbolKind {
    Struct,
    Enum,
    Function,
    Constant,
    TypeAlias,
    Module,
    StaticVariable,
    Macro,
    Field,
}

/// A declaration found in one line.
#[derive(Debug, PartialEq, Eq)]
pub struct Declaration {
    pub kind: SymbolKind,
    pub name: String,
    /// The enclosing struct or enum, for a field that follows one.
    pub container: Option<String>,
}

/// The mathematical content of a `Declaration`.
pub ghost struct DeclarationView {
    pub kind: SymbolKind,
    pub name: Seq<char>,
    pub container: Option<Seq<char>>,
}

impl View for Declaration {
    type V = DeclarationView;

    open spec fn view(&self) -> DeclarationView {
        DeclarationView {
            kind: self.kind,
            name: self.name@,
            container: match self.container {
                Some(c) => Some(c@),
                None => None,
            },
        }
    }
}

/// A keyword of the table, with the kind that it introduces.
pub struct Keyword {
    pub kind: SymbolKind,
    pub text: Vec<char>,
}

/// The kinds that a keyword introduces, in the order in which they are
/// tried.
pub open spec fn keyword_kinds() -> Seq<SymbolKind> {
    seq![
        SymbolKind::Struct,
        SymbolKind::Enum,
        SymbolKind::Function,
        SymbolKind::Constant,
        SymbolKind::TypeAlias,
        SymbolKind::Module,
        SymbolKind::StaticVariable,
        SymbolKind::Macro,
    ]
}

/// The keyword that introduces a declaration of the given kind, with the
/// space that follows it. A field has no keyword.
pub open spec fn keyword_of(kind: SymbolKind) -> Seq<char> {
    match kind {
        SymbolKind::Struct => "struct "@,
        SymbolKind::Enum => "enum "@,
        SymbolKind::Function => "fn "@,
        SymbolKind::Constant => "const "@,
        SymbolKind::TypeAlias => "type "@,
        SymbolKind::Module => "mod "@,
        SymbolKind::StaticVariable => "static "@,
        SymbolKind::Macro => "macro_rules! "@,
        SymbolKind::Field => Seq::empty(),
    }
}

/// The visibility modifier, with the space that follows it.
pub open spec fn visibility_token() -> Seq<char> {
    "pub "@
}

/// Whether `line` declares something of the given kind: it begins with the
/// kind's keyword, or it begins with the visibility modifier and holds the
/// keyword somewhere.
pub open spec fn declares(line: Seq<char>, kind: SymbolKind) -> bool {
    keyword_of(kind).is_prefix_of(line) || (visibility_token().is_prefix_of(line) && contains_seq(
        line,
        keyword_of(kind),
    ))
}

/// The position in `keyword_kinds()` of the first kind at or after `from`
/// that `line` declares, or the length of the table where there is none.
pub open spec fn first_declared(line: Seq<char>, from: int) -> int
    decreases keyword_kinds().len() - from,
{
    if 0 <= from < keyword_kinds().len() && !declares(line, keyword_kinds()[from]) {
        first_declared(line, from + 1)
    } else {
        from
    }
}

/// The kind that `line` declares by keyword: the first in priority order
/// whose keyword matches.
pub open spec fn declared_kind(line: Seq<char>) -> Option<SymbolKind> {
    let at = first_declared(line, 0);
    if 0 <= at < keyword_kinds().len() {
        Some(keyword_kinds()[at])
    } else {
        None
    }
}

/// The identifier that begins at `start` in `line`. It may be empty.
pub open spec fn name_at(line: Seq<char>, start: int) -> Seq<char> {
    line.subrange(start, ident_end(line, start))
}

/// The identifier that follows the first occurrence of `token` in `line`.
pub open spec fn name_after(line: Seq<char>, token: Seq<char>) -> Seq<char> {
    name_at(line, first_occurrence(line, token) + token.len())
}

/// The name of the field that `line` declares, where it declares one: the
/// line holds the visibility modifier, and the identifier that follows its
/// first occurrence is ended by a colon.
pub open spec fn declared_field(line: Seq<char>) -> Option<Seq<char>> {
    let token = visibility_token();
    let start = first_occurrence(line, token) + token.len();
    let end = ident_end(line, start);
    if contains_seq(line, token) && end < line.len() && line[end] == ':' {
        Some(line.subrange(start, end))
    } else {
        None
    }
}

/// The container recorded for a field: the last struct or enum seen, absent
/// where there was none or its name was empty.
pub open spec fn container_of(last_container: Seq<char>) -> Option<Seq<char>> {
    if last_container.len() == 0 {
        None
    } else {
        Some(last_container)
    }
}

/// The declaration found in the trimmed line `line`, where `last_container`
/// is the name of the last struct or enum seen in the file, empty where
/// there was none.
pub open spec fn recognized(line: Seq<char>, last_container: Seq<char>) -> Option<
    DeclarationView,
> {
    match declared_kind(line) {
        Some(kind) => Some(
            DeclarationView { kind, name: name_after(line, keyword_of(kind)), container: None },
        ),
        None => match declared_field(line) {
            Some(name) => Some(
                DeclarationView {
                    kind: SymbolKind::Field,
                    name,
                    container: container_of(last_container),
                },
            ),
            None => None,
        },
    }
}

/// The name of the last struct or enum seen once `line` has been read.
pub open spec fn container_after(line: Seq<char>, last_container: Seq<char>) -> Seq<char> {
    match declared_kind(line) {
        Some(SymbolKind::Struct) => name_after(line, keyword_of(SymbolKind::Struct)),
        Some(SymbolKind::Enum) => name_after(line, keyword_of(SymbolKind::Enum)),
        _ => last_container,
    }
}

/// Whether `table` is the keyword table: the kinds of `keyword_kinds()` in
/// order, each with its keyword.
pub open spec fn is_keyword_table(table: Seq<Keyword>) -> bool {
    &&& table.len() == keyword_kinds().len()
    &&& forall|k: int|
        0 <= k < table.len() ==> (#[trigger] table[k]).kind == keyword_kinds()[k] && table[k].text@
            == keyword_of(keyword_kinds()[k])
}

/// The keyword table.
pub fn keyword_table() -> (table: Vec<Keyword>)
    ensures
        is_keyword_table(table@),
{
    let mut table: Vec<Keyword> = Vec::new();
    table.push(Keyword { kind: SymbolKind::Struct, text: to_chars("struct ") });
    table.push(Keyword { kind: SymbolKind::Enum, text: to_chars("enum ") });
    table.push(Keyword { kind: SymbolKind::Function, text: to_chars("fn ") });
    table.push(Keyword { kind: SymbolKind::Constant, text: to_chars("const ") });
    table.push(Keyword { kind: SymbolKind::TypeAlias, text: to_chars("type ") });
    table.push(Keyword { kind: SymbolKind::Module, text: to_chars("mod ") });
    table.push(Keyword { kind: SymbolKind::StaticVariable, text: to_chars("static ") });
    table.push(Keyword { kind: SymbolKind::Macro, text: to_chars("macro_rules! ") });
    table
}

/// The characters of the visibility modifier.
pub fn visibility_chars() -> (token: Vec<char>)
    ensures
        token@ == visibility_token(),
{
    to_chars("pub ")
}

/// Finds the declaration in the trimmed line `line` and keeps track of the
/// last struct or enum seen.
pub fn recognize_trimmed(
    table: &Vec<Keyword>,
    visibility: &Vec<char>,
    line: &Vec<char>,
    last_container: &mut String,
) -> (found: Option<Declaration>)
    requires
        is_keyword_table(table@),
        visibility@ == visibility_token(),
    ensures
        found is Some <==> recognized(line@, old(last_container)@) is Some,
        found is Some ==> found->0@ == recognized(line@, old(last_container)@)->0,
        final(last_container)@ == container_after(line@, old(last_container)@),
{
    let public = starts_with(line, visibility);
    let mut k: usize = 0;
    while k < table.len()
        invariant
            k <= table.len(),
            is_keyword_table(table@),
            public == visibility_token().is_prefix_of(line@),
            first_declared(line@, k as int) == first_declared(line@, 0),
            *last_container == *old(last_container),
        decreases table.len() - k,
    {
        let keyword = &table[k].text;
        if starts_with(line, keyword) || (public && contains(line, keyword)) {
            let kind = table[k].kind;
            assert(declares(line@, keyword_kinds()[k as int]));
            assert(declared_kind(line@) == Some(kind));
            assert(contains_seq(line@, keyword@)) by {
                if keyword@.is_prefix_of(line@) {
                    assert(occurs_at(line@, keyword@, 0));
                }
            }
            let at = find_first(line, keyword);
            assert(occurs_at(line@, keyword@, at->0 as int));
            assert(at->0 + keyword.len() <= line.len());
            let start = at.unwrap() + keyword.len();
            let end = scan_identifier(line, start);
            let name = from_chars(&slice_chars(line, start, end));
            if kind == SymbolKind::Struct || kind == SymbolKind::Enum {
                *last_container = name.clone();
            }
            return Some(Declaration { kind, name, container: None });
        }
        k += 1;
    }
    assert(declared_kind(line@) is None);
    match find_first(line, visibility) {
        Some(at) => {
            assert(occurs_at(line@, visibility@, at as int));
            assert(at + visibility.len() <= line.len());
            let start = at + visibility.len();
            let end = scan_identifier(line, start);
            if end < line.len() && line[end] == ':' {
                let name = from_chars(&slice_chars(line, start, end));
                let container = if last_container.as_str().is_empty() {
                    None
                } else {
                    Some(last_container.clone())
                };
                Some(Declaration { kind: SymbolKind::Field, name, container })
            } else {
                None
            }
        },
        None => None,
    }
}

/// Finds the declaration in one line of source text and keeps track of the
/// last struct or enum seen. The line is trimmed of surrounding whitespace
/// first; `last_container` is empty where no struct or enum was seen yet.
pub fn recognize(line: &str, last_container: &mut String) -> (found: Option<Declaration>)
    ensures
        found is Some <==> recognized(trimmed(line@), old(last_container)@) is Some,
        found is Some ==> found->0@ == recognized(trimmed(line@), old(last_container)@)->0,
        final(last_container)@ == container_after(trimmed(line@), old(last_container)@),
{
    let table = keyword_table();
    let visibility = visibility_chars();
    let text = trim(&to_chars(line));
    recognize_trimmed(&table, &visibility, &text, last_container)
}

} // verus!
