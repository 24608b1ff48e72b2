//! Symbol records and the scan of one file's lines into records.

use vstd::prelude::*;
use crate::path::SourcePath;
use crate::recognize::{
    container_after, is_keyword_table, keyword_table, recognize_trimmed, recognized,
    visibility_chars, visibility_token, DeclarationView, Keyword, SymbolKind,
};
use crate::text::{lowercase_of, to_chars, to_lowercase, trim, trimmed};

verus! {

/// Where a symbol is declared: a file, a line counted from zero, and a
/// column at which the zero-width range of the symbol both starts and ends.
#[derive(Debug, PartialEq, Eq)]
pub struct Location {
    pub file: SourcePath,
    pub line: usize,
    pub column: usize,
}

/// One entry of the symbol table.
#[derive(Debug, PartialEq, Eq)]
pub struct SymbolRecord {
    pub name: String,
    /// The name in lower case, kept for case-insensitive search.
    pub name_lower: String,
    /// The enclosing struct or enum of a field, where one was seen.
    pub container: Option<String>,
    pub kind: SymbolKind,
    pub location: Location,
}

/// The mathematical content of a `SymbolRecord`.
pub ghost struct RecordView {
    pub name: Seq<char>,
    pub name_lower: Seq<char>,
    pub container: Option<Seq<char>>,
    pub kind: SymbolKind,
    pub file: Seq<Seq<char>>,
    pub line: nat,
    pub column: nat,
}

impl View for SymbolRecord {
    type V = RecordView;

    open spec fn view(&self) -> RecordView {
        RecordView {
            name: self.name@,
            name_lower: self.name_lower@,
            container: match self.container {
                Some(c) => Some(c@),
                None => None,
            },
            kind: self.kind,
            file: self.location.file@,
            line: self.location.line as nat,
            column: self.location.column as nat,
        }
    }
}

/// The contents of the records `records`, in order.
pub open spec fn views(records: Seq<SymbolRecord>) -> Seq<RecordView> {
    Seq::new(records.len(), |i: int| records[i]@)
}

/// The characters of the lines `lines`, in order.
pub open spec fn line_views(lines: Seq<String>) -> Seq<Seq<char>> {
    Seq::new(lines.len(), |i: int| lines[i]@)
}

impl Clone for SymbolRecord {
    fn clone(&self) -> (copy: SymbolRecord)
        ensures
            copy@ == self@,
    {
        SymbolRecord {
            name: self.name.clone(),
            name_lower: self.name_lower.clone(),
            container: match &self.container {
                Some(c) => Some(c.clone()),
                None => None,
            },
            kind: self.kind,
            location: Location {
                file: self.location.file.clone(),
                line: self.location.line,
                column: self.location.column,
            },
        }
    }
}

/// Appends a record to the table and gives its id: its position in the
/// table, which it keeps.
pub fn add_record(table: &mut Vec<SymbolRecord>, record: SymbolRecord) -> (id: usize)
    ensures
        id == old(table)@.len(),
        final(table)@ == old(table)@.push(record),
{
    let id = table.len();
    table.push(record);
    id
}

/// The name of the last struct or enum declared in the first `upto` lines,
/// empty where there is none.
pub open spec fn container_before(lines: Seq<Seq<char>>, upto: int) -> Seq<char>
    decreases upto,
{
    if upto <= 0 {
        Seq::empty()
    } else {
        container_after(trimmed(lines[upto - 1]), container_before(lines, upto - 1))
    }
}

/// The record made of a declaration found in line `line` of `file`.
pub open spec fn record_of(found: DeclarationView, file: Seq<Seq<char>>, line: int) -> RecordView {
    RecordView {
        name: found.name,
        name_lower: lowercase_of(found.name),
        container: found.container,
        kind: found.kind,
        file,
        line: line as nat,
        column: 0,
    }
}

/// The records of the first `upto` lines of `file`, in the order of the
/// lines: each line is trimmed and gives at most one record.
pub open spec fn scanned(file: Seq<Seq<char>>, lines: Seq<Seq<char>>, upto: int) -> Seq<
    RecordView,
>
    decreases upto,
{
    if upto <= 0 {
        Seq::empty()
    } else {
        let before = scanned(file, lines, upto - 1);
        match recognized(trimmed(lines[upto - 1]), container_before(lines, upto - 1)) {
            Some(found) => before.push(record_of(found, file, upto - 1)),
            None => before,
        }
    }
}

/// The records of all the lines of `file`.
pub open spec fn scanned_file(file: Seq<Seq<char>>, lines: Seq<Seq<char>>) -> Seq<RecordView> {
    scanned(file, lines, lines.len() as int)
}

/// Whether the record at position `holder` in `records` names a struct or
/// an enum called `name` in the file `file`.
pub open spec fn is_container_record(
    records: Seq<RecordView>,
    holder: int,
    file: Seq<Seq<char>>,
    name: Seq<char>,
) -> bool {
    &&& 0 <= holder < records.len()
    &&& records[holder].file == file
    &&& records[holder].name == name
    &&& (records[holder].kind == SymbolKind::Struct || records[holder].kind == SymbolKind::Enum)
}

/// Whether every record holds its own name in lower case.
pub open spec fn names_lowered(records: Seq<RecordView>) -> bool {
    forall|i: int|
        0 <= i < records.len() ==> (#[trigger] records[i]).name_lower == lowercase_of(
            records[i].name,
        )
}

/// Whether the records `records` are laid out as scans leave them: ranges
/// are zero-width at column zero, only fields have a container, the
/// container of a field is a struct or enum recorded before it in the same
/// file, and the records of one file come in ascending order of line, at
/// most one to a line.
pub open spec fn records_wf(records: Seq<RecordView>) -> bool {
    &&& forall|i: int|
        0 <= i < records.len() ==> {
            &&& (#[trigger] records[i]).column == 0
            &&& (records[i].container is Some ==> records[i].kind == SymbolKind::Field)
        }
    &&& forall|i: int|
        0 <= i < records.len() && (#[trigger] records[i]).container is Some ==> exists|j: int|
            j < i && is_container_record(records, j, records[i].file, records[i].container->0)
    &&& forall|i: int, j: int|
        0 <= i < j < records.len() && (#[trigger] records[i]).file == (#[trigger] records[j]).file
            ==> records[i].line < records[j].line
}

/// What holds of the records of a scan: they belong to the file and to the
/// lines read, come in ascending order of line with at most one record to a
/// line, and each field's container is a struct or enum recorded before it.
/// A stable sort of the records by line would therefore leave them as they
/// are, which is why a scan ends without one.
pub proof fn lemma_scanned(file: Seq<Seq<char>>, lines: Seq<Seq<char>>, upto: int)
    requires
        0 <= upto <= lines.len(),
    ensures
        records_wf(scanned(file, lines, upto)),
        names_lowered(scanned(file, lines, upto)),
        scanned(file, lines, upto).len() <= upto,
        forall|i: int|
            0 <= i < scanned(file, lines, upto).len() ==> {
                &&& (#[trigger] scanned(file, lines, upto)[i]).file == file
                &&& scanned(file, lines, upto)[i].line < upto
            },
        container_before(lines, upto).len() > 0 ==> exists|j: int|
            is_container_record(scanned(file, lines, upto), j, file, container_before(lines, upto)),
    decreases upto,
{
    if upto > 0 {
        lemma_scanned(file, lines, upto - 1);
        let before = scanned(file, lines, upto - 1);
        let last = container_before(lines, upto - 1);
        let line = trimmed(lines[upto - 1]);
        let after = scanned(file, lines, upto);
        match recognized(line, last) {
            Some(found) => {
                let record = record_of(found, file, upto - 1);
                assert(after == before.push(record));
                assert forall|i: int| 0 <= i < after.len() && (#[trigger] after[i]).container is Some
                implies exists|j: int|
                    j < i && is_container_record(after, j, after[i].file, after[i].container->0) by {
                    if i < before.len() {
                        let j = choose|j: int|
                            j < i && is_container_record(
                                before,
                                j,
                                before[i].file,
                                before[i].container->0,
                            );
                        assert(is_container_record(after, j, after[i].file, after[i].container->0));
                    } else {
                        assert(found.container == Some(last));
                        let j = choose|j: int| is_container_record(before, j, file, last);
                        assert(is_container_record(after, j, after[i].file, after[i].container->0));
                    }
                }
                if container_before(lines, upto).len() > 0 {
                    if found.kind == SymbolKind::Struct || found.kind == SymbolKind::Enum {
                        assert(is_container_record(
                            after,
                            before.len() as int,
                            file,
                            container_before(lines, upto),
                        ));
                    } else {
                        let j = choose|j: int| is_container_record(before, j, file, last);
                        assert(is_container_record(after, j, file, container_before(lines, upto)));
                    }
                }
            },
            None => {},
        }
    }
}

/// Reads the lines of one file and appends the records found to `out`, in
/// the order of the lines.
pub fn scan_lines(
    table: &Vec<Keyword>,
    visibility: &Vec<char>,
    file: &SourcePath,
    lines: &Vec<String>,
    out: &mut Vec<SymbolRecord>,
)
    requires
        is_keyword_table(table@),
        visibility@ == visibility_token(),
    ensures
        views(final(out)@) == views(old(out)@) + scanned_file(file@, line_views(lines@)),
        final(out)@.len() >= old(out)@.len(),
        final(out)@.take(old(out)@.len() as int) == old(out)@,
{
    let ghost text = line_views(lines@);
    let mut last_container = String::new();
    let mut i: usize = 0;
    while i < lines.len()
        invariant
            i <= lines.len(),
            is_keyword_table(table@),
            visibility@ == visibility_token(),
            text == line_views(lines@),
            last_container@ == container_before(text, i as int),
            out@.len() >= old(out)@.len(),
            out@.take(old(out)@.len() as int) == old(out)@,
            views(out@) == views(old(out)@) + scanned(file@, text, i as int),
        decreases lines.len() - i,
    {
        let line = trim(&to_chars(lines[i].as_str()));
        assert(line@ == trimmed(text[i as int]));
        let ghost before = views(out@);
        match recognize_trimmed(table, visibility, &line, &mut last_container) {
            Some(found) => {
                let name_lower = to_lowercase(found.name.as_str());
                let record = SymbolRecord {
                    name: found.name,
                    name_lower,
                    container: found.container,
                    kind: found.kind,
                    location: Location { file: file.clone(), line: i, column: 0 },
                };
                assert(record@ == record_of(found@, file@, i as int));
                add_record(out, record);
                assert(views(out@) =~= before.push(record@));
                assert(out@.take(old(out)@.len() as int) =~= old(out)@);
                assert(before.push(record@) =~= views(old(out)@) + scanned(
                    file@,
                    text,
                    i as int + 1,
                ));
            },
            None => {},
        }
        i += 1;
    }
}

/// The records of one file: its lines are read in order and each gives at
/// most one record.
pub fn scan_file(file: &SourcePath, lines: &Vec<String>) -> (records: Vec<SymbolRecord>)
    ensures
        views(records@) == scanned_file(file@, line_views(lines@)),
{
    let table = keyword_table();
    let visibility = visibility_chars();
    let mut records: Vec<SymbolRecord> = Vec::new();
    scan_lines(&table, &visibility, file, lines, &mut records);
    assert(views(records@) =~= scanned_file(file@, line_views(lines@)));
    records
}

} // verus!
