//! Importing connections from a spreadsheet.
//!
//! Real data usually is one flat table, so the format is "one sheet, one row per
//! connection"; the environments, machines, services and endpoints a row names are
//! created when they do not exist yet (an upsert). The core reads only headers and rows
//! of text ([`Sheet`]); reading xlsx or csv files is a thin adapter outside it.
//!
//! An import never deletes: what exists is updated, what is missing is added, and
//! removing is left to the user. A sheet missing some rows must not wipe data.

use vstd::prelude::*;
use crate::{Project, ProjectView};
use crate::environment::{lemma_children_view, Connection, ConnectionKind, ConnectionView, ContainerInstance, DeploymentNode, Endpoint,
    Endpointing, EndpointingView, Environment, EnvironmentView, InfrastructureNode, InstanceRef, InstanceRefView, NodeKind,
    DeploymentNodeView, ContainerInstanceView};
use crate::id::Id;
use crate::logical::{Container, EndpointDef, Logical, LogicalView, Protocol, Relationship, RelationshipEnd,
    SoftwareSystem, first_index, lemma_first_index, lemma_first_index_unique};
use crate::slug::{is_normalized, slug_of, slugify};
use crate::duplicate::{Duplicate, Same};
use crate::order::text_eq;
use crate::text::{concat2, concat3, decimal, decimal_text, owned, trim_spec};
use crate::cascade::conn_total;

verus! {

// ---- the columns ----

pub open spec fn required_columns() -> Seq<Seq<char>> {
    seq!["environment"@, "purpose"@, "from_node"@, "to_node"@, "to_endpoint"@, "to_address"@, "protocol"@]
}

/// The columns no row may leave empty. `to_address` is not among them: a wildcard row
/// refers to a group of existing machines, whose addresses come from their own endpoints.
pub open spec fn required_values() -> Seq<Seq<char>> {
    seq!["environment"@, "purpose"@, "from_node"@, "to_node"@, "to_endpoint"@, "protocol"@]
}

pub open spec fn known_columns() -> Seq<Seq<char>> {
    seq!["environment"@, "purpose"@, "serves"@, "kind"@, "from_site"@, "to_site"@, "from_node"@, "from_service"@,
        "from_endpoint"@, "to_node"@, "to_service"@, "to_endpoint"@, "to_address"@, "protocol"@, "expect"@, "note"@]
}

pub open spec fn strs_view(s: Seq<&str>) -> Seq<Seq<char>> {
    s.map_values(|x: &str| x@)
}

fn required_columns_vec() -> (r: Vec<&'static str>)
    ensures
        strs_view(r@) == required_columns(),
{
    let v = vec!["environment", "purpose", "from_node", "to_node", "to_endpoint", "to_address", "protocol"];
    assert(strs_view(v@) =~= required_columns());
    v
}

fn required_values_vec() -> (r: Vec<&'static str>)
    ensures
        strs_view(r@) == required_values(),
{
    let v = vec!["environment", "purpose", "from_node", "to_node", "to_endpoint", "protocol"];
    assert(strs_view(v@) =~= required_values());
    v
}

fn known_columns_vec() -> (r: Vec<&'static str>)
    ensures
        strs_view(r@) == known_columns(),
{
    let v = vec!["environment", "purpose", "serves", "kind", "from_site", "to_site", "from_node", "from_service",
        "from_endpoint", "to_node", "to_service", "to_endpoint", "to_address", "protocol", "expect", "note"];
    assert(strs_view(v@) =~= known_columns());
    v
}

// ---- std calls on text ----

/// What `str::to_lowercase` returns for the text (Unicode case mapping).
pub uninterp spec fn lower_text(s: Seq<char>) -> Seq<char>;

/// The ASCII uppercase form of a character: `a`–`z` become `A`–`Z`, others stay.
pub open spec fn ascii_upper(c: char) -> char {
    if 'a' <= c && c <= 'z' {
        ((c as u32) - 32) as char
    } else {
        c
    }
}

/// What `str::to_uppercase` returns for the text (Unicode case mapping).
pub uninterp spec fn upper_text(s: Seq<char>) -> Seq<char>;

/// Calls `str::to_lowercase`. The result is named; for ASCII text it is the text with
/// `A`–`Z` mapped to `a`–`z` and every other character kept.
#[verifier::external_body]
fn lowercased(s: &str) -> (r: String)
    ensures
        r@ == lower_text(s@),
        (forall|i: int| 0 <= i < s@.len() ==> crate::slug::is_ascii_char(#[trigger] s@[i])) ==> r@ == s@.map_values(
            |c: char| crate::slug::ascii_lower(c)),
{
    s.to_lowercase()
}

/// Calls `str::to_uppercase`. The result is named; for ASCII text it is the text with
/// `a`–`z` mapped to `A`–`Z` and every other character kept.
#[verifier::external_body]
fn uppercased(s: &str) -> (r: String)
    ensures
        r@ == upper_text(s@),
        (forall|i: int| 0 <= i < s@.len() ==> crate::slug::is_ascii_char(#[trigger] s@[i])) ==> r@ == s@.map_values(
            |c: char| ascii_upper(c)),
{
    s.to_uppercase()
}


/// Whether the text holds the character.
fn has_char(s: &str, c: char) -> (r: bool)
    ensures
        r == s@.contains(c),
{
    let n = s.unicode_len();
    let mut i: usize = 0;
    while i < n
        invariant
            n == s@.len(),
            i <= n,
            forall|j: int| 0 <= j < i ==> s@[j] != c,
        decreases n - i,
    {
        if s.get_char(i) == c {
            return true;
        }
        i += 1;
    }
    false
}

/// The text with every `-` made `_`.
pub open spec fn dashes_to_underscores(s: Seq<char>) -> Seq<char> {
    s.map_values(|c: char| if c == '-' { '_' } else { c })
}

fn underscored(s: &str) -> (r: String)
    ensures
        r@ == dashes_to_underscores(s@),
{
    let n = s.unicode_len();
    let mut out = String::new();
    let mut i: usize = 0;
    while i < n
        invariant
            n == s@.len(),
            i <= n,
            out@ == dashes_to_underscores(s@.take(i as int)),
        decreases n - i,
    {
        let c = s.get_char(i);
        crate::text::push_char(&mut out, if c == '-' { '_' } else { c });
        proof {
            assert(dashes_to_underscores(s@.take(i + 1)) =~= dashes_to_underscores(s@.take(i as int)).push(
                if c == '-' { '_' } else { c }));
        }
        i += 1;
    }
    assert(s@.take(n as int) =~= s@);
    out
}

// ---- the sheet ----

/// One flat table: headers and rows of text.
#[derive(Debug, Clone, PartialEq, Eq)]
pub struct Sheet {
    headers: Vec<String>,
    rows: Vec<Vec<String>>,
}

pub struct SheetView {
    pub headers: Seq<Seq<char>>,
    pub rows: Seq<Seq<Seq<char>>>,
}

pub open spec fn texts_view(s: Seq<String>) -> Seq<Seq<char>> {
    s.map_values(|x: String| x@)
}

pub open spec fn rows_of(s: Seq<Vec<String>>) -> Seq<Seq<Seq<char>>> {
    s.map_values(|r: Vec<String>| texts_view(r@))
}

impl View for Sheet {
    type V = SheetView;

    closed spec fn view(&self) -> SheetView {
        SheetView { headers: texts_view(self.headers@), rows: rows_of(self.rows@) }
    }
}

/// Every character of the text is ASCII.
pub open spec fn ascii_text(t: Seq<char>) -> bool {
    forall|i: int| 0 <= i < t.len() ==> crate::slug::is_ascii_char(#[trigger] t[i])
}

/// A header as it is kept: trimmed and in lower case.
pub open spec fn header_form(h: Seq<char>) -> Seq<char> {
    lower_text(trim_spec(h))
}

/// The value of a cell, trimmed; empty when the column or the cell is missing.
pub open spec fn value_spec(s: SheetView, row: int, column: Seq<char>) -> Seq<char> {
    match first_index(s.headers, column) {
        Some(i) => if i < s.rows[row].len() { trim_spec(s.rows[row][i]) } else { seq![] },
        None => seq![],
    }
}

impl Sheet {
    /// A sheet; headers are kept trimmed and in lower case.
    pub fn new(headers: Vec<String>, rows: Vec<Vec<String>>) -> (r: Sheet)
        ensures
            r@.headers == texts_view(headers@).map_values(|h: Seq<char>| header_form(h)),
            r@.rows == rows_of(rows@),
            forall|q: int| 0 <= q < headers@.len() && ascii_text(trim_spec(headers@[q]@))
                ==> #[trigger] r@.headers[q] == trim_spec(headers@[q]@).map_values(|c: char| crate::slug::ascii_lower(c)),
    {
        let ghost src = texts_view(headers@).map_values(|h: Seq<char>| header_form(h));
        let mut out: Vec<String> = Vec::new();
        let mut i: usize = 0;
        while i < headers.len()
            invariant
                i <= headers@.len(),
                src == texts_view(headers@).map_values(|h: Seq<char>| header_form(h)),
                texts_view(out@) == src.take(i as int),
                forall|q: int| 0 <= q < i && ascii_text(trim_spec(headers@[q]@))
                    ==> #[trigger] texts_view(out@)[q] == trim_spec(headers@[q]@).map_values(|c: char| crate::slug::ascii_lower(c)),
            decreases headers.len() - i,
        {
            let h = lowercased(crate::text::trim_str(headers[i].as_str()));
            let ghost before = texts_view(out@);
            out.push(h);
            proof {
                assert(src[i as int] == header_form(headers@[i as int]@));
                assert(texts_view(out@) =~= before.push(src[i as int]));
                assert(src.take(i + 1) =~= src.take(i as int).push(src[i as int]));
            }
            i += 1;
        }
        assert(src.take(i as int) =~= src);
        Sheet { headers: out, rows }
    }

    fn column_index(&self, name: &str) -> (r: Option<usize>)
        ensures
            match first_index(self@.headers, name@) {
                Some(k) => r matches Some(x) && x as int == k,
                None => r is None,
            },
    {
        let ghost hs = self@.headers;
        proof {
            lemma_first_index(hs, name@);
        }
        let mut i: usize = 0;
        while i < self.headers.len()
            invariant
                i <= self.headers@.len(),
                hs == self@.headers,
                hs == texts_view(self.headers@),
                forall|j: int| 0 <= j < i ==> hs[j] != name@,
            decreases self.headers.len() - i,
        {
            assert(hs[i as int] == self.headers@[i as int]@);
            if text_eq(self.headers[i].as_str(), name) {
                proof {
                    lemma_first_index_unique(hs, name@, i as int);
                }
                return Some(i);
            }
            i += 1;
        }
        None
    }

    /// The value of one cell, trimmed; empty when the column or the cell is missing.
    pub fn value(&self, row: usize, column: &str) -> (r: &str)
        requires
            first_index(self@.headers, column@) is Some ==> row < self@.rows.len(),
        ensures
            r@ == value_spec(self@, row as int, column@),
    {
        proof {
            reveal_strlit("");
        }
        match self.column_index(column) {
            Some(i) => {
                assert(self@.rows[row as int] == texts_view(self.rows@[row as int]@));
                if i < self.rows[row].len() {
                    assert(self@.rows[row as int][i as int] == self.rows@[row as int]@[i as int]@);
                    crate::text::trim_str(self.rows[row][i].as_str())
                } else {
                    ""
                }
            },
            None => "",
        }
    }

    pub fn row_count(&self) -> (r: usize)
        ensures
            r == self@.rows.len(),
    {
        self.rows.len()
    }

    pub fn headers(&self) -> (r: &Vec<String>)
        ensures
            texts_view(r@) == self@.headers,
    {
        &self.headers
    }
}

// ---- reading a sheet from a file's bytes ----

/// A table as read from a file: the header line and the lines after it.
pub open spec fn table_view(t: Option<(Vec<String>, Vec<Vec<String>>)>) -> Option<(Seq<Seq<char>>, Seq<Seq<Seq<char>>>)> {
    match t {
        Some((h, rows)) => Some((texts_view(h@), rows_of(rows@))),
        None => None,
    }
}

/// What the `csv` crate reads from these bytes (first record the header), or `None`
/// when it refuses them.
pub uninterp spec fn csv_table(bytes: Seq<u8>) -> Option<(Seq<Seq<char>>, Seq<Seq<Seq<char>>>)>;

/// What `calamine` reads from the first worksheet of a workbook in these bytes (first
/// row the header), or `None` when it refuses them or the workbook has no worksheet.
pub uninterp spec fn xlsx_table(bytes: Seq<u8>) -> Option<(Seq<Seq<char>>, Seq<Seq<Seq<char>>>)>;

/// Parses CSV with `csv::Reader::from_reader` (headers on, records of equal length),
/// every field as text. The result is named: it is what the crate reads, nothing more
/// is claimed of it.
#[verifier::external_body]
fn parse_csv(bytes: &[u8]) -> (r: Option<(Vec<String>, Vec<Vec<String>>)>)
    ensures
        table_view(r) == csv_table(bytes@),
{
    let mut reader = csv::Reader::from_reader(bytes);
    let headers: Vec<String> = match reader.headers() {
        Ok(h) => h.iter().map(|x| x.to_string()).collect(),
        Err(_) => return None,
    };
    let mut rows = Vec::new();
    for record in reader.records() {
        match record {
            Ok(r) => rows.push(r.iter().map(|v| v.to_string()).collect()),
            Err(_) => return None,
        }
    }
    Some((headers, rows))
}

/// Opens the workbook with `calamine::open_workbook_auto_from_rs` and reads its first
/// worksheet, every cell as its display text. The result is named.
#[verifier::external_body]
fn parse_xlsx(bytes: &[u8]) -> (r: Option<(Vec<String>, Vec<Vec<String>>)>)
    ensures
        table_view(r) == xlsx_table(bytes@),
{
    let mut wb = calamine::open_workbook_auto_from_rs(std::io::Cursor::new(bytes.to_vec())).ok()?;
    let first = calamine::Reader::sheet_names(&wb).first().cloned()?;
    let range = calamine::Reader::worksheet_range(&mut wb, &first).ok()?;
    let mut lines = range.rows();
    let headers = lines.next().map(|r| r.iter().map(|c| c.to_string()).collect()).unwrap_or_default();
    Some((headers, lines.map(|r| r.iter().map(|c| c.to_string()).collect()).collect()))
}

/// The sheet made of a header line and rows, as [`Sheet::new`] makes it.
pub open spec fn sheet_of(headers: Seq<Seq<char>>, rows: Seq<Seq<Seq<char>>>) -> SheetView {
    SheetView { headers: headers.map_values(|h: Seq<char>| header_form(h)), rows }
}

/// A sheet from the bytes of a CSV file; `None` when they are not CSV.
pub fn sheet_from_csv(bytes: &[u8]) -> (r: Option<Sheet>)
    ensures
        match csv_table(bytes@) {
            Some((h, rows)) => r matches Some(s) && s@ == sheet_of(h, rows),
            None => r is None,
        },
{
    match parse_csv(bytes) {
        Some((h, rows)) => Some(Sheet::new(h, rows)),
        None => None,
    }
}

/// A sheet from the first worksheet of a workbook's bytes; `None` when they are not a
/// workbook or it has no worksheet.
pub fn sheet_from_xlsx(bytes: &[u8]) -> (r: Option<Sheet>)
    ensures
        match xlsx_table(bytes@) {
            Some((h, rows)) => r matches Some(s) && s@ == sheet_of(h, rows),
            None => r is None,
        },
{
    match parse_xlsx(bytes) {
        Some((h, rows)) => Some(Sheet::new(h, rows)),
        None => None,
    }
}

// ---- what can go wrong ----

#[derive(Debug, Clone, PartialEq, Eq)]
pub enum ImportError {
    /// The header lacks required columns; all of them are listed, so that one fix is enough.
    MissingColumns(Vec<String>),
    /// A row leaves a required column empty.
    EmptyValue { row: usize, column: String },
    /// A protocol not known.
    UnknownProtocol { row: usize, value: String },
    /// `expect` is not a number.
    BadExpect { row: usize, value: String },
    /// A name that is not a slug and so cannot be used safely.
    NotNormalized { row: usize, column: String, produced: String, suggestion: String },
    /// The target is a device (`to_service` empty), so which relationship the connection
    /// serves cannot be worked out; `serves` must say it.
    InfraRowNeedsServes { row: usize },
    /// A `kind` not known.
    UnknownKind { row: usize, value: String },
}

pub enum ImportErrorView {
    MissingColumns(Seq<Seq<char>>),
    EmptyValue { row: usize, column: Seq<char> },
    UnknownProtocol { row: usize, value: Seq<char> },
    BadExpect { row: usize, value: Seq<char> },
    NotNormalized { row: usize, column: Seq<char>, produced: Seq<char>, suggestion: Seq<char> },
    InfraRowNeedsServes { row: usize },
    UnknownKind { row: usize, value: Seq<char> },
}

impl View for ImportError {
    type V = ImportErrorView;

    open spec fn view(&self) -> ImportErrorView {
        match self {
            ImportError::MissingColumns(v) => ImportErrorView::MissingColumns(texts_view(v@)),
            ImportError::EmptyValue { row, column } => ImportErrorView::EmptyValue { row: *row, column: column@ },
            ImportError::UnknownProtocol { row, value } => ImportErrorView::UnknownProtocol { row: *row, value: value@ },
            ImportError::BadExpect { row, value } => ImportErrorView::BadExpect { row: *row, value: value@ },
            ImportError::NotNormalized { row, column, produced, suggestion } => ImportErrorView::NotNormalized {
                row: *row,
                column: column@,
                produced: produced@,
                suggestion: suggestion@,
            },
            ImportError::InfraRowNeedsServes { row } => ImportErrorView::InfraRowNeedsServes { row: *row },
            ImportError::UnknownKind { row, value } => ImportErrorView::UnknownKind { row: *row, value: value@ },
        }
    }
}

/// Something worth saying that does not stop the import.
#[derive(Debug, Clone, PartialEq, Eq)]
pub enum ImportWarning {
    /// One endpoint was given different addresses in different rows; the first one stays.
    AddressConflict { row: usize, endpoint: String, kept: String, ignored: String },
    /// A header not known, ignored.
    UnknownColumn(String),
}

pub enum ImportWarningView {
    AddressConflict { row: usize, endpoint: Seq<char>, kept: Seq<char>, ignored: Seq<char> },
    UnknownColumn(Seq<char>),
}

impl View for ImportWarning {
    type V = ImportWarningView;

    open spec fn view(&self) -> ImportWarningView {
        match self {
            ImportWarning::AddressConflict { row, endpoint, kept, ignored } => ImportWarningView::AddressConflict {
                row: *row,
                endpoint: endpoint@,
                kept: kept@,
                ignored: ignored@,
            },
            ImportWarning::UnknownColumn(name) => ImportWarningView::UnknownColumn(name@),
        }
    }
}

pub open spec fn warnings_view(s: Seq<ImportWarning>) -> Seq<ImportWarningView> {
    s.map_values(|w: ImportWarning| w@)
}

#[derive(Debug, Clone, PartialEq, Eq)]
pub struct ImportReport {
    /// Connections created.
    pub connections: usize,
    /// Connections that existed and were only updated; importing one file again makes
    /// this the number of rows.
    pub connections_updated: usize,
    pub environments_created: usize,
    pub containers_created: usize,
    pub instances_created: usize,
    pub warnings: Vec<ImportWarning>,
}

impl Default for ImportReport {
    fn default() -> (r: ImportReport)
        ensures
            r.connections == 0,
            r.connections_updated == 0,
            r.environments_created == 0,
            r.containers_created == 0,
            r.instances_created == 0,
            r.warnings@.len() == 0,
    {
        ImportReport {
            connections: 0,
            connections_updated: 0,
            environments_created: 0,
            containers_created: 0,
            instances_created: 0,
            warnings: Vec::new(),
        }
    }
}

// ---- reading names and values ----

/// The error for a name that is not a slug, if it is not one.
pub open spec fn not_normalized(value: Seq<char>, row: usize, column: Seq<char>) -> Option<ImportErrorView> {
    if value.len() > 0 && slug_of(value) == value {
        None
    } else {
        Some(ImportErrorView::NotNormalized { row, column, produced: value, suggestion: slug_of(value) })
    }
}

/// As [`not_normalized`], but an empty value is fine.
pub open spec fn optional_not_normalized(value: Seq<char>, row: usize, column: Seq<char>) -> Option<ImportErrorView> {
    if value.len() == 0 {
        None
    } else {
        not_normalized(value, row, column)
    }
}

fn normalized(value: &str, row: usize, column: &str) -> (r: Result<String, ImportError>)
    ensures
        match not_normalized(value@, row, column@) {
            Some(e) => r matches Err(x) && x@ == e,
            None => r matches Ok(v) && v@ == value@,
        },
{
    if is_normalized(value) {
        return Ok(value.to_string());
    }
    Err(ImportError::NotNormalized { row, column: column.to_string(), produced: value.to_string(), suggestion: slugify(value) })
}

fn optional_normalized(value: &str, row: usize, column: &str) -> (r: Result<Option<String>, ImportError>)
    ensures
        match optional_not_normalized(value@, row, column@) {
            Some(e) => r matches Err(x) && x@ == e,
            None => r matches Ok(o) && (if value@.len() == 0 { o is None } else { o matches Some(v) && v@ == value@ }),
        },
{
    if value.is_empty() {
        return Ok(None);
    }
    match normalized(value, row, column) {
        Ok(v) => Ok(Some(v)),
        Err(e) => Err(e),
    }
}

/// The protocol a cell names: case does not matter and `-` counts as `_`.
pub open spec fn protocol_named(value: Seq<char>) -> Option<Protocol> {
    let u = dashes_to_underscores(upper_text(value));
    if u == "TCP"@ {
        Some(Protocol::Tcp)
    } else if u == "UDP"@ {
        Some(Protocol::Udp)
    } else if u == "UNIX_SOCKET"@ || u == "SOCKET"@ {
        Some(Protocol::UnixSocket)
    } else if u == "JDBC"@ {
        Some(Protocol::Jdbc)
    } else if u == "FILE"@ {
        Some(Protocol::File)
    } else {
        None
    }
}

fn parse_protocol(value: &str, row: usize) -> (r: Result<Protocol, ImportError>)
    ensures
        match protocol_named(value@) {
            Some(p) => r == Ok::<Protocol, ImportError>(p),
            None => r matches Err(e) && e@ == (ImportErrorView::UnknownProtocol { row, value: value@ }),
        },
{
    let upper = uppercased(value);
    let u = underscored(upper.as_str());
    let s = u.as_str();
    if text_eq(s, "TCP") {
        Ok(Protocol::Tcp)
    } else if text_eq(s, "UDP") {
        Ok(Protocol::Udp)
    } else if text_eq(s, "UNIX_SOCKET") || text_eq(s, "SOCKET") {
        Ok(Protocol::UnixSocket)
    } else if text_eq(s, "JDBC") {
        Ok(Protocol::Jdbc)
    } else if text_eq(s, "FILE") {
        Ok(Protocol::File)
    } else {
        Err(ImportError::UnknownProtocol { row, value: value.to_string() })
    }
}

pub open spec fn is_digit(c: char) -> bool {
    '0' <= c && c <= '9'
}

pub open spec fn digits_value(s: Seq<char>) -> nat
    decreases s.len(),
{
    if s.len() == 0 {
        0
    } else {
        digits_value(s.drop_last()) * 10 + ((s.last() as int) - ('0' as int)) as nat
    }
}

/// What `u32::from_str` accepts: an optional `+`, then one or more ASCII digits whose
/// value fits in a `u32`.
pub open spec fn parse_u32(s: Seq<char>) -> Option<u32> {
    let d = unsigned_part(s);
    if d.len() > 0 && all_digits(d) && digits_value(d) <= u32::MAX {
        Some(digits_value(d) as u32)
    } else {
        None
    }
}

/// The text without one leading `+`.
pub open spec fn unsigned_part(s: Seq<char>) -> Seq<char> {
    if s.len() > 0 && s[0] == '+' { s.drop_first() } else { s }
}

pub open spec fn all_digits(d: Seq<char>) -> bool {
    forall|i: int| 0 <= i < d.len() ==> #[trigger] is_digit(d[i])
}

/// The expected count of a cell: none when empty, `None` when it is not a number.
pub open spec fn expect_named(value: Seq<char>) -> Option<Option<u32>> {
    if value.len() == 0 {
        Some(None)
    } else {
        match parse_u32(value) {
            Some(n) => Some(Some(n)),
            None => None,
        }
    }
}

proof fn lemma_digits_grow(s: Seq<char>)
    requires
        s.len() > 0,
        is_digit(s.last()),
    ensures
        digits_value(s) >= digits_value(s.drop_last()) * 10,
{
}

fn parse_number(value: &str) -> (r: Option<u32>)
    ensures
        r == parse_u32(value@),
{
    let n = value.unicode_len();
    let start: usize = if n > 0 && value.get_char(0) == '+' { 1 } else { 0 };
    let ghost d = unsigned_part(value@);
    assert(d =~= value@.skip(start as int));
    if start >= n {
        return None;
    }
    let mut acc: u64 = 0;
    let mut over = false;
    let mut i: usize = start;
    while i < n
        invariant
            n == value@.len(),
            start <= i <= n,
            d == unsigned_part(value@),
            d =~= value@.skip(start as int),
            forall|j: int| start <= j < i ==> #[trigger] is_digit(value@[j]),
            over ==> digits_value(d.take(i - start)) > u32::MAX,
            !over ==> acc == digits_value(d.take(i - start)) && acc <= u32::MAX,
        decreases n - i,
    {
        let c = value.get_char(i);
        if !('0' <= c && c <= '9') {
            proof {
                assert(d[i - start] == value@[i as int]);
                assert(!is_digit(d[i - start]));
                assert(!all_digits(d));
            }
            return None;
        }
        proof {
            let t = d.take(i + 1 - start);
            assert(t.drop_last() =~= d.take(i - start));
            assert(t.last() == c);
            lemma_digits_grow(t);
        }
        if !over {
            let digit: u64 = (c as u32 - '0' as u32) as u64;
            let next = acc * 10 + digit;
            if next > 4294967295u64 {
                over = true;
            } else {
                acc = next;
            }
        }
        i += 1;
    }
    proof {
        assert(d.take(n - start) =~= d);
        assert forall|j: int| 0 <= j < d.len() implies #[trigger] is_digit(d[j]) by {
            assert(d[j] == value@[j + start]);
        }
    }
    if over {
        None
    } else {
        Some(acc as u32)
    }
}

fn parse_expect(value: &str, row: usize) -> (r: Result<Option<u32>, ImportError>)
    ensures
        match expect_named(value@) {
            Some(x) => r == Ok::<Option<u32>, ImportError>(x),
            None => r matches Err(e) && e@ == (ImportErrorView::BadExpect { row, value: value@ }),
        },
{
    if value.is_empty() {
        return Ok(None);
    }
    match parse_number(value) {
        Some(n) => Ok(Some(n)),
        None => Err(ImportError::BadExpect { row, value: value.to_string() }),
    }
}

/// The kind of connection a cell names (in lower case): primary when empty.
pub open spec fn kind_named(lower: Seq<char>) -> Option<ConnectionKind> {
    if lower == ""@ || lower == "primary"@ || lower == "正常"@ {
        Some(ConnectionKind::Primary)
    } else if lower == "fallback"@ || lower == "備援"@ {
        Some(ConnectionKind::Fallback)
    } else {
        None
    }
}

fn parse_kind(value: &str, row: usize) -> (r: Result<ConnectionKind, ImportError>)
    ensures
        match kind_named(lower_text(value@)) {
            Some(k) => r == Ok::<ConnectionKind, ImportError>(k),
            None => r matches Err(e) && e@ == (ImportErrorView::UnknownKind { row, value: lower_text(value@) }),
        },
{
    let lower = lowercased(value);
    let s = lower.as_str();
    if text_eq(s, "") || text_eq(s, "primary") || text_eq(s, "正常") {
        Ok(ConnectionKind::Primary)
    } else if text_eq(s, "fallback") || text_eq(s, "備援") {
        Ok(ConnectionKind::Fallback)
    } else {
        Err(ImportError::UnknownKind { row, value: lower })
    }
}

// ---- upserts in the logical layer: use what is there, add what is not, remove nothing ----

/// What an import keeps of the logical layer: people as they are; systems, services,
/// endpoint definitions and relationships only added to. A relationship's purpose may
/// be filled in where it was blank; nothing else of what was there changes.
pub open spec fn logical_kept(a: LogicalView, b: LogicalView) -> bool {
    &&& b.people == a.people
    &&& a.systems.len() <= b.systems.len()
    &&& forall|j: int| 0 <= j < a.systems.len() ==> #[trigger] b.systems[j] == a.systems[j]
    &&& a.containers.len() <= b.containers.len()
    &&& forall|j: int| 0 <= j < a.containers.len() ==> container_kept(a.containers[j], #[trigger] b.containers[j])
    &&& a.relationships.len() <= b.relationships.len()
    &&& forall|j: int| 0 <= j < a.relationships.len() ==> relationship_kept(a.relationships[j], #[trigger] b.relationships[j])
}

pub open spec fn container_kept(a: crate::logical::ContainerView, b: crate::logical::ContainerView) -> bool {
    &&& b.id == a.id
    &&& b.slug == a.slug
    &&& b.name == a.name
    &&& b.system == a.system
    &&& b.memo == a.memo
    &&& a.endpoints.len() <= b.endpoints.len()
    &&& forall|m: int| 0 <= m < a.endpoints.len() ==> #[trigger] b.endpoints[m] == a.endpoints[m]
}

pub open spec fn relationship_kept(a: crate::logical::RelationshipView, b: crate::logical::RelationshipView) -> bool {
    &&& b.id == a.id
    &&& b.slug == a.slug
    &&& b.from == a.from
    &&& b.to == a.to
    &&& b.to_endpoint == a.to_endpoint
    &&& b.memo == a.memo
    &&& (b.purpose == a.purpose || crate::text::blank(a.purpose))
}

pub proof fn lemma_logical_kept_trans(a: LogicalView, b: LogicalView, c: LogicalView)
    requires
        logical_kept(a, b),
        logical_kept(b, c),
    ensures
        logical_kept(a, c),
{
    assert forall|j: int| 0 <= j < a.systems.len() implies #[trigger] c.systems[j] == a.systems[j] by {
        assert(b.systems[j] == a.systems[j]);
    }
    assert forall|j: int| 0 <= j < a.containers.len() implies container_kept(a.containers[j], #[trigger] c.containers[j]) by {
        assert(container_kept(a.containers[j], b.containers[j]));
        assert(container_kept(b.containers[j], c.containers[j]));
        assert forall|m: int| 0 <= m < a.containers[j].endpoints.len() implies #[trigger] c.containers[j].endpoints[m]
            == a.containers[j].endpoints[m] by {
            assert(b.containers[j].endpoints[m] == a.containers[j].endpoints[m]);
        }
    }
    assert forall|j: int| 0 <= j < a.relationships.len() implies relationship_kept(a.relationships[j], #[trigger] c.relationships[j]) by {
        assert(relationship_kept(a.relationships[j], b.relationships[j]));
        assert(relationship_kept(b.relationships[j], c.relationships[j]));
    }
}

pub open spec fn has_container(l: LogicalView, id: Seq<char>) -> bool {
    crate::logical::container_ids(l).contains(id)
}

fn find_container_by_slug(l: &Logical, slug: &str) -> (r: Option<usize>)
    ensures
        match r {
            Some(k) => k < l@.containers.len() && l@.containers[k as int].slug == slug@,
            None => forall|j: int| 0 <= j < l@.containers.len() ==> l@.containers[j].slug != slug@,
        },
{
    let mut i: usize = 0;
    while i < l.containers.len()
        invariant
            i <= l.containers@.len(),
            forall|j: int| 0 <= j < i ==> l@.containers[j].slug != slug@,
        decreases l.containers.len() - i,
    {
        if text_eq(l.containers[i].slug.as_str(), slug) {
            return Some(i);
        }
        i += 1;
    }
    None
}

fn find_container_by_id(l: &Logical, id: &Id) -> (r: Option<usize>)
    ensures
        match r {
            Some(k) => k < l@.containers.len() && l@.containers[k as int].id == id@,
            None => !has_container(l@, id@),
        },
{
    let mut i: usize = 0;
    while i < l.containers.len()
        invariant
            i <= l.containers@.len(),
            forall|j: int| 0 <= j < i ==> l@.containers[j].id != id@,
        decreases l.containers.len() - i,
    {
        if l.containers[i].id.same(id) {
            return Some(i);
        }
        i += 1;
    }
    proof {
        if has_container(l@, id@) {
            let j = choose|j: int| 0 <= j < crate::logical::container_ids(l@).len() && crate::logical::container_ids(l@)[j] == id@;
            assert(l@.containers[j].id == id@);
        }
    }
    None
}

/// The system that imported services go under: the first of our own, or a new one
/// named after the project (the sheet has no system column; the user can move them).
fn ensure_default_system(l: &mut Logical, project_slug: &str, project_name: &str) -> (r: Id)
    ensures
        logical_kept(old(l)@, final(l)@),
        final(l)@.containers == old(l)@.containers,
{
    let mut i: usize = 0;
    while i < l.systems.len()
        invariant
            i <= l.systems@.len(),
        decreases l.systems.len() - i,
    {
        if !l.systems[i].external {
            return l.systems[i].id.copy();
        }
        i += 1;
    }
    let id = Id::generate();
    let ghost before = l@;
    l.systems.push(SoftwareSystem {
        id: id.copy(),
        slug: owned(project_slug),
        name: owned(project_name),
        external: false,
        endpoints: Vec::new(),
        memo: String::new(),
    });
    proof {
        assert(l@.systems =~= before.systems.push(l@.systems.last()));
        assert(l@.people == before.people);
        assert(l@.containers == before.containers);
        assert(l@.relationships == before.relationships);
    }
    id
}

/// The service with this name, created under the default system when there is none.
fn ensure_container(l: &mut Logical, project_slug: &str, project_name: &str, slug: &str, created: &mut usize) -> (r: Id)
    requires
        *old(created) < usize::MAX,
    ensures
        logical_kept(old(l)@, final(l)@),
        has_container(final(l)@, r@),
        *final(created) <= *old(created) + 1,
        (exists|j: int| 0 <= j < old(l)@.containers.len() && #[trigger] old(l)@.containers[j].slug == slug@)
            ==> final(l)@ == old(l)@ && *final(created) == *old(created),
{
    match find_container_by_slug(l, slug) {
        Some(k) => {
            let id = l.containers[k].id.copy();
            assert(crate::logical::container_ids(l@)[k as int] == id@);
            return id;
        },
        None => {},
    }
    let ghost l0 = l@;
    let system = ensure_default_system(l, project_slug, project_name);
    let ghost l1 = l@;
    let id = Id::generate();
    l.containers.push(Container {
        id: id.copy(),
        slug: owned(slug),
        name: owned(slug),
        system,
        endpoints: Vec::new(),
        memo: String::new(),
    });
    *created = *created + 1;
    proof {
        assert(l@.people == l1.people);
        assert(l@.systems == l1.systems);
        assert(l@.relationships == l1.relationships);
        assert forall|j: int| 0 <= j < l1.containers.len() implies container_kept(l1.containers[j], #[trigger] l@.containers[j]) by {
            assert(l@.containers[j] == l1.containers[j]);
        }
        assert(logical_kept(l1, l@));
        lemma_logical_kept_trans(l0, l1, l@);
        let n = l1.containers.len() as int;
        assert(crate::logical::container_ids(l@)[n] == id@);
    }
    id
}

/// The endpoint definition with this name on the service, added when missing.
fn ensure_endpoint_def(l: &mut Logical, container: &Id, slug: &str, protocol: Protocol) -> (r: Id)
    requires
        has_container(old(l)@, container@),
    ensures
        logical_kept(old(l)@, final(l)@),
        crate::logical::container_ids(final(l)@) == crate::logical::container_ids(old(l)@),
{
    let ghost l0 = l@;
    let k = match find_container_by_id(l, container) {
        Some(k) => k,
        None => {
            assert(false);
            return Id::generate();
        },
    };
    let mut m: usize = 0;
    while m < l.containers[k].endpoints.len()
        invariant
            k < l@.containers.len(),
            m <= l.containers@[k as int].endpoints@.len(),
        decreases l.containers@[k as int].endpoints@.len() - m,
    {
        if text_eq(l.containers[k].endpoints[m].slug.as_str(), slug) {
            return l.containers[k].endpoints[m].id.copy();
        }
        m += 1;
    }
    let id = Id::generate();
    let mut c = l.containers[k].duplicate();
    let ghost cv = c@;
    c.endpoints.push(EndpointDef { id: id.copy(), slug: owned(slug), protocol, memo: String::new() });
    let ghost cv2 = c@;
    l.containers.set(k, c);
    proof {
        assert(cv2.endpoints =~= cv.endpoints.push(cv2.endpoints.last()));
        assert(container_kept(cv, cv2));
        assert(l@.containers =~= l0.containers.update(k as int, cv2));
        assert forall|j: int| 0 <= j < l0.containers.len() implies container_kept(l0.containers[j], #[trigger] l@.containers[j]) by {
            if j != k {
                assert(l@.containers[j] == l0.containers[j]);
            }
        }
        assert(crate::logical::container_ids(l@) =~= crate::logical::container_ids(l0));
    }
    id
}

/// The id of the endpoint definition with this name on the service, if both exist.
fn endpoint_def_id(l: &Logical, container: &Id, slug: &str) -> (r: Option<Id>)
{
    let k = match l.container(container) {
        Some(c) => c,
        None => return None,
    };
    let mut m: usize = 0;
    while m < k.endpoints.len()
        invariant
            m <= k.endpoints@.len(),
        decreases k.endpoints.len() - m,
    {
        if text_eq(k.endpoints[m].slug.as_str(), slug) {
            return Some(k.endpoints[m].id.copy());
        }
        m += 1;
    }
    None
}

/// The name of the service with this id; empty when there is none.
fn container_slug(l: &Logical, id: &Id) -> (r: String)
{
    match l.container(id) {
        Some(c) => c.slug.clone(),
        None => String::new(),
    }
}

/// The relationship with this name, created between the two services when missing.
fn ensure_relationship(l: &mut Logical, slug: &str, from: &Id, to: &Id, to_endpoint_slug: &str, purpose: &str) -> (r: Id)
    ensures
        logical_kept(old(l)@, final(l)@),
        crate::logical::container_ids(final(l)@) == crate::logical::container_ids(old(l)@),
{
    let mut i: usize = 0;
    while i < l.relationships.len()
        invariant
            i <= l.relationships@.len(),
        decreases l.relationships.len() - i,
    {
        if text_eq(l.relationships[i].slug.as_str(), slug) {
            return l.relationships[i].id.copy();
        }
        i += 1;
    }
    let to_endpoint = match endpoint_def_id(l, to, to_endpoint_slug) {
        Some(x) => x,
        None => Id::generate(),
    };
    let id = Id::generate();
    let ghost l0 = l@;
    l.relationships.push(Relationship {
        id: id.copy(),
        slug: owned(slug),
        purpose: owned(purpose),
        from: RelationshipEnd::Container(from.copy()),
        to: RelationshipEnd::Container(to.copy()),
        to_endpoint,
        memo: String::new(),
    });
    proof {
        assert forall|j: int| 0 <= j < l0.relationships.len() implies relationship_kept(l0.relationships[j], #[trigger] l@.relationships[j]) by {
            assert(l@.relationships[j] == l0.relationships[j]);
        }
        assert forall|j: int| 0 <= j < l0.containers.len() implies container_kept(l0.containers[j], #[trigger] l@.containers[j]) by {}
    }
    id
}

/// The relationship the row names in `serves`: the one that exists (its purpose filled
/// in if it was blank, never overwritten), else one between the row's two services; a
/// row that is only a segment (say, F5 to the back end) gets a placeholder that other
/// rows of the same `serves` complete.
fn ensure_relationship_by_slug(l: &mut Logical, project_slug: &str, project_name: &str, slug: &str, from_service: &Option<String>, to_container: &Option<Id>, to_endpoint_slug: &str, purpose: &str) -> (r: Id)
    ensures
        logical_kept(old(l)@, final(l)@),
{
    let ghost l0 = l@;
    let mut i: usize = 0;
    while i < l.relationships.len()
        invariant
            i <= l.relationships@.len(),
            l@ == l0,
            old(l)@ == l0,
        decreases l.relationships.len() - i,
    {
        if text_eq(l.relationships[i].slug.as_str(), slug) {
            let id = l.relationships[i].id.copy();
            if crate::text::is_blank(l.relationships[i].purpose.as_str()) {
                let mut x = l.relationships[i].duplicate();
                x.purpose = owned(purpose);
                let ghost xv = x@;
                l.relationships.set(i, x);
                proof {
                    assert(l@.relationships =~= l0.relationships.update(i as int, xv));
                    assert(l@.people == l0.people);
                    assert(l@.systems == l0.systems);
                    assert(l@.containers == l0.containers);
                    assert(relationship_kept(l0.relationships[i as int], xv));
                    assert forall|j: int| 0 <= j < l0.relationships.len() implies relationship_kept(l0.relationships[j], #[trigger] l@.relationships[j]) by {
                        if j != i {
                            assert(l@.relationships[j] == l0.relationships[j]);
                        }
                    }
                    assert forall|j: int| 0 <= j < l0.containers.len() implies container_kept(l0.containers[j], #[trigger] l@.containers[j]) by {}
                    assert(logical_kept(l0, l@));
                }
            } else {
                proof {
                    assert forall|j: int| 0 <= j < l0.containers.len() implies container_kept(l0.containers[j], #[trigger] l@.containers[j]) by {}
                    assert forall|j: int| 0 <= j < l0.relationships.len() implies relationship_kept(l0.relationships[j], #[trigger] l@.relationships[j]) by {}
                    assert(logical_kept(l0, l@));
                }
            }
            return id;
        }
        i += 1;
    }
    let mut ignored: usize = 0;
    let from = match from_service {
        Some(s) => Some(ensure_container(l, project_slug, project_name, s.as_str(), &mut ignored)),
        None => None,
    };
    let ghost l1 = l@;
    proof {
        if from is None {
            assert forall|j: int| 0 <= j < l0.containers.len() implies container_kept(l0.containers[j], #[trigger] l@.containers[j]) by {}
            assert forall|j: int| 0 <= j < l0.relationships.len() implies relationship_kept(l0.relationships[j], #[trigger] l@.relationships[j]) by {}
        }
    }
    match (from, to_container) {
        (Some(f), Some(t)) => {
            let r = ensure_relationship(l, slug, &f, t, to_endpoint_slug, purpose);
            proof {
                lemma_logical_kept_trans(l0, l1, l@);
            }
            r
        },
        _ => {
            let id = Id::generate();
            l.relationships.push(Relationship {
                id: id.copy(),
                slug: owned(slug),
                purpose: owned(purpose),
                from: RelationshipEnd::Container(Id::generate()),
                to: RelationshipEnd::Container(Id::generate()),
                to_endpoint: Id::generate(),
                memo: String::new(),
            });
            proof {
                assert forall|j: int| 0 <= j < l1.relationships.len() implies relationship_kept(l1.relationships[j], #[trigger] l@.relationships[j]) by {
                    assert(l@.relationships[j] == l1.relationships[j]);
                }
                assert forall|j: int| 0 <= j < l1.containers.len() implies container_kept(l1.containers[j], #[trigger] l@.containers[j]) by {}
                lemma_logical_kept_trans(l0, l1, l@);
            }
            id
        },
    }
}

// ---- upserts in an environment ----

// ---- what a deployment tree holds ----

/// What a node and the tree below it hold: its own id, the ids of its instances, then
/// what each child holds; machines tagged `true`, instances `false`.
pub open spec fn tree_keys(n: DeploymentNodeView) -> Seq<(bool, Seq<char>)>
    decreases n,
{
    seq![(true, n.id)] + n.instances.map_values(|i: ContainerInstanceView| (false, i.id)) + forest_keys(n.children)
}

/// What a forest holds, tree by tree.
pub open spec fn forest_keys(s: Seq<DeploymentNodeView>) -> Seq<(bool, Seq<char>)>
    decreases s,
{
    if s.len() == 0 {
        seq![]
    } else {
        forest_keys(s.drop_last()) + tree_keys(s.last())
    }
}

/// Every machine and instance of `a` is still somewhere in `b`, wherever it moved.
pub open spec fn keys_kept(a: Seq<DeploymentNodeView>, b: Seq<DeploymentNodeView>) -> bool {
    forall|k: (bool, Seq<char>)| #[trigger] forest_keys(a).contains(k) ==> forest_keys(b).contains(k)
}

/// What `a` holds is what `b` and `m` hold together.
pub open spec fn keys_split(a: Seq<(bool, Seq<char>)>, b: Seq<(bool, Seq<char>)>, m: Seq<(bool, Seq<char>)>) -> bool {
    forall|k: (bool, Seq<char>)| #![trigger a.contains(k)] #![trigger b.contains(k)] #![trigger m.contains(k)]
        a.contains(k) <==> (b.contains(k) || m.contains(k))
}

proof fn lemma_add_contains<A>(a: Seq<A>, b: Seq<A>, k: A)
    ensures
        (a + b).contains(k) <==> (a.contains(k) || b.contains(k)),
{
    if (a + b).contains(k) {
        let i = choose|i: int| 0 <= i < (a + b).len() && (a + b)[i] == k;
        if i < a.len() {
            assert(a[i] == k);
        } else {
            assert(b[i - a.len()] == k);
        }
    }
    if a.contains(k) {
        let i = choose|i: int| 0 <= i < a.len() && a[i] == k;
        assert((a + b)[i] == k);
    }
    if b.contains(k) {
        let i = choose|i: int| 0 <= i < b.len() && b[i] == k;
        assert((a + b)[a.len() + i] == k);
    }
}

proof fn lemma_keys_push(s: Seq<DeploymentNodeView>, t: DeploymentNodeView, k: (bool, Seq<char>))
    ensures
        forest_keys(s.push(t)).contains(k) <==> (forest_keys(s).contains(k) || tree_keys(t).contains(k)),
{
    assert(s.push(t).drop_last() =~= s);
    lemma_add_contains(forest_keys(s), tree_keys(t), k);
}

proof fn lemma_keys_remove(s: Seq<DeploymentNodeView>, j: int, k: (bool, Seq<char>))
    requires
        0 <= j < s.len(),
    ensures
        forest_keys(s).contains(k) <==> (forest_keys(s.remove(j)).contains(k) || tree_keys(s[j]).contains(k)),
    decreases s.len(),
{
    let d = s.drop_last();
    lemma_add_contains(forest_keys(d), tree_keys(s.last()), k);
    if j == s.len() - 1 {
        assert(s.remove(j) =~= d);
    } else {
        lemma_keys_remove(d, j, k);
        assert(s.remove(j).drop_last() =~= d.remove(j));
        assert(s.remove(j).last() == s.last());
        assert(d[j] == s[j]);
        lemma_add_contains(forest_keys(d.remove(j)), tree_keys(s.last()), k);
    }
}

proof fn lemma_keys_update(s: Seq<DeploymentNodeView>, j: int, t: DeploymentNodeView, k: (bool, Seq<char>))
    requires
        0 <= j < s.len(),
    ensures
        forest_keys(s.update(j, t)).contains(k) <==> (forest_keys(s.remove(j)).contains(k) || tree_keys(t).contains(k)),
{
    lemma_keys_remove(s.update(j, t), j, k);
    assert(s.update(j, t).remove(j) =~= s.remove(j));
}

/// A node whose children only gained what they hold, with its own id and instances
/// kept, only gains what it holds.
proof fn lemma_tree_children_grow(a: DeploymentNodeView, b: DeploymentNodeView)
    requires
        b.id == a.id,
        b.instances == a.instances,
        keys_kept(a.children, b.children),
    ensures
        forall|k: (bool, Seq<char>)| #[trigger] tree_keys(a).contains(k) ==> tree_keys(b).contains(k),
{
    assert forall|k: (bool, Seq<char>)| #[trigger] tree_keys(a).contains(k) implies tree_keys(b).contains(k) by {
        lemma_tree_keys_children(a, b, k);
    }
}

/// A node that only gained instances (or kept each instance's id) only gains what it holds.
proof fn lemma_tree_instances_grow(a: DeploymentNodeView, b: DeploymentNodeView)
    requires
        b.id == a.id,
        b.children == a.children,
        a.instances.len() <= b.instances.len(),
        forall|q: int| 0 <= q < a.instances.len() ==> #[trigger] b.instances[q].id == a.instances[q].id,
    ensures
        forall|k: (bool, Seq<char>)| #[trigger] tree_keys(a).contains(k) ==> tree_keys(b).contains(k),
{
    let oa = seq![(true, a.id)] + a.instances.map_values(|i: ContainerInstanceView| (false, i.id));
    let ob = seq![(true, b.id)] + b.instances.map_values(|i: ContainerInstanceView| (false, i.id));
    assert forall|k: (bool, Seq<char>)| #[trigger] tree_keys(a).contains(k) implies tree_keys(b).contains(k) by {
        assert(tree_keys(a) == oa + forest_keys(a.children));
        assert(tree_keys(b) == ob + forest_keys(b.children));
        lemma_add_contains(oa, forest_keys(a.children), k);
        lemma_add_contains(ob, forest_keys(b.children), k);
        if oa.contains(k) {
            let q = choose|q: int| 0 <= q < oa.len() && oa[q] == k;
            assert(ob[q] == k);
        }
    }
}

/// Replacing one tree of a forest by one that holds at least as much keeps what the
/// forest holds.
proof fn lemma_forest_update_grow(s: Seq<DeploymentNodeView>, j: int, t: DeploymentNodeView)
    requires
        0 <= j < s.len(),
        forall|k: (bool, Seq<char>)| #[trigger] tree_keys(s[j]).contains(k) ==> tree_keys(t).contains(k),
    ensures
        keys_kept(s, s.update(j, t)),
{
    assert forall|k: (bool, Seq<char>)| #[trigger] forest_keys(s).contains(k) implies forest_keys(s.update(j, t)).contains(k) by {
        lemma_keys_remove(s, j, k);
        lemma_keys_update(s, j, t, k);
    }
}

/// A node's own id and instances stay and its children grow: what it holds grows.
proof fn lemma_tree_keys_children(a: DeploymentNodeView, b: DeploymentNodeView, k: (bool, Seq<char>))
    requires
        b.id == a.id,
        b.instances == a.instances,
    ensures
        tree_keys(b).contains(k) <==> ((seq![(true, a.id)] + a.instances.map_values(|i: ContainerInstanceView| (false, i.id))).contains(k)
            || forest_keys(b.children).contains(k)),
        tree_keys(a).contains(k) <==> ((seq![(true, a.id)] + a.instances.map_values(|i: ContainerInstanceView| (false, i.id))).contains(k)
            || forest_keys(a.children).contains(k)),
{
    let own = seq![(true, a.id)] + a.instances.map_values(|i: ContainerInstanceView| (false, i.id));
    assert(tree_keys(b) == own + forest_keys(b.children));
    assert(tree_keys(a) == own + forest_keys(a.children));
    lemma_add_contains(own, forest_keys(b.children), k);
    lemma_add_contains(own, forest_keys(a.children), k);
}

/// What an import keeps of an environment: its names and external systems as they are;
/// devices, their endpoints and connections only added to (a connection keeps its id,
/// relationship and ends; its purpose and kind may be rewritten); every machine and
/// instance still somewhere in the deployment tree (a machine may move into the site a
/// row names, so where it stands is not kept).
pub open spec fn env_kept(a: EnvironmentView, b: EnvironmentView) -> bool {
    &&& b.id == a.id
    &&& b.slug == a.slug
    &&& b.name == a.name
    &&& b.memo == a.memo
    &&& b.systems == a.systems
    &&& a.infra.len() <= b.infra.len()
    &&& forall|j: int| 0 <= j < a.infra.len() ==> infra_kept(a.infra[j], #[trigger] b.infra[j])
    &&& a.connections.len() <= b.connections.len()
    &&& forall|j: int| 0 <= j < a.connections.len() ==> connection_kept(a.connections[j], #[trigger] b.connections[j])
    &&& keys_kept(a.nodes, b.nodes)
}

pub open spec fn infra_kept(a: crate::environment::InfrastructureNodeView, b: crate::environment::InfrastructureNodeView) -> bool {
    &&& b.id == a.id
    &&& b.slug == a.slug
    &&& a.endpoints.len() <= b.endpoints.len()
    &&& forall|m: int| 0 <= m < a.endpoints.len() ==> #[trigger] b.endpoints[m] == a.endpoints[m]
}

pub open spec fn connection_kept(a: ConnectionView, b: ConnectionView) -> bool {
    &&& b.id == a.id
    &&& b.serves == a.serves
    &&& b.from == a.from
    &&& b.to == a.to
    &&& b.memo == a.memo
}

pub proof fn lemma_env_kept_trans(a: EnvironmentView, b: EnvironmentView, c: EnvironmentView)
    requires
        env_kept(a, b),
        env_kept(b, c),
    ensures
        env_kept(a, c),
{
    assert forall|j: int| 0 <= j < a.infra.len() implies infra_kept(a.infra[j], #[trigger] c.infra[j]) by {
        assert(infra_kept(a.infra[j], b.infra[j]));
        assert(infra_kept(b.infra[j], c.infra[j]));
        assert forall|m: int| 0 <= m < a.infra[j].endpoints.len() implies #[trigger] c.infra[j].endpoints[m]
            == a.infra[j].endpoints[m] by {
            assert(b.infra[j].endpoints[m] == a.infra[j].endpoints[m]);
        }
    }
    assert forall|j: int| 0 <= j < a.connections.len() implies connection_kept(a.connections[j], #[trigger] c.connections[j]) by {
        assert(connection_kept(a.connections[j], b.connections[j]));
        assert(connection_kept(b.connections[j], c.connections[j]));
    }
}

pub proof fn lemma_env_kept_nodes(a: EnvironmentView, b: EnvironmentView)
    requires
        b.id == a.id,
        b.slug == a.slug,
        b.name == a.name,
        b.memo == a.memo,
        b.systems == a.systems,
        b.infra == a.infra,
        b.connections == a.connections,
        keys_kept(a.nodes, b.nodes),
    ensures
        env_kept(a, b),
{
    assert forall|j: int| 0 <= j < a.infra.len() implies infra_kept(a.infra[j], #[trigger] b.infra[j]) by {}
    assert forall|j: int| 0 <= j < a.connections.len() implies connection_kept(a.connections[j], #[trigger] b.connections[j]) by {}
}

/// Whether some node of the tree (the root or any below it) satisfies the predicate.
pub open spec fn tree_has(n: crate::environment::DeploymentNodeView, p: spec_fn(crate::environment::DeploymentNodeView) -> bool) -> bool
    decreases n,
{
    p(n) || forest_has(n.children, p)
}

pub open spec fn forest_has(s: Seq<crate::environment::DeploymentNodeView>, p: spec_fn(crate::environment::DeploymentNodeView) -> bool) -> bool
    decreases s,
{
    if s.len() == 0 {
        false
    } else {
        forest_has(s.drop_last(), p) || tree_has(s.last(), p)
    }
}

proof fn lemma_forest_has_at(s: Seq<crate::environment::DeploymentNodeView>, p: spec_fn(crate::environment::DeploymentNodeView) -> bool, j: int)
    requires
        0 <= j < s.len(),
        tree_has(s[j], p),
    ensures
        forest_has(s, p),
    decreases s.len(),
{
    if j < s.len() - 1 {
        assert(s.drop_last()[j] == s[j]);
        lemma_forest_has_at(s.drop_last(), p, j);
    }
}

/// A forest that has a node satisfying the predicate has a tree that does.
proof fn lemma_forest_has_some(s: Seq<crate::environment::DeploymentNodeView>, p: spec_fn(crate::environment::DeploymentNodeView) -> bool)
    requires
        forest_has(s, p),
    ensures
        exists|j: int| 0 <= j < s.len() && tree_has(#[trigger] s[j], p),
    decreases s.len(),
{
    if forest_has(s.drop_last(), p) {
        lemma_forest_has_some(s.drop_last(), p);
        let j = choose|j: int| 0 <= j < s.drop_last().len() && tree_has(#[trigger] s.drop_last()[j], p);
        assert(s[j] == s.drop_last()[j]);
    } else {
        assert(tree_has(s[s.len() - 1], p));
    }
}

pub open spec fn id_is(id: Seq<char>) -> spec_fn(crate::environment::DeploymentNodeView) -> bool {
    |n: crate::environment::DeploymentNodeView| n.id == id
}

pub open spec fn slug_is(slug: Seq<char>) -> spec_fn(crate::environment::DeploymentNodeView) -> bool {
    |n: crate::environment::DeploymentNodeView| n.slug == slug
}

pub open spec fn top_pairs(s: Seq<crate::environment::DeploymentNodeView>) -> Seq<(Seq<char>, Seq<char>)> {
    s.map_values(|n: crate::environment::DeploymentNodeView| (n.id, n.slug))
}

proof fn lemma_child_size(s: Seq<crate::environment::DeploymentNodeView>, i: int)
    requires
        0 <= i < s.len(),
    ensures
        crate::tree::forest_size(s[i].children) < crate::tree::forest_size(s),
{
    crate::tree::lemma_size_of_member(s, i);
}

/// The site with this name at the top of the environment, added when missing. A site
/// holds other machines and runs nothing itself.
fn ensure_site(env: &mut Environment, slug: &str) -> (r: Id)
    ensures
        final(env)@.connections == old(env)@.connections,
        env_kept(old(env)@, final(env)@),
        exists|j: int| 0 <= j < final(env)@.nodes.len() && final(env)@.nodes[j].id == r@ && final(env)@.nodes[j].slug == slug@,
{
    let ghost e0 = env@;
    proof {
        lemma_env_kept_nodes(e0, e0);
    }
    let mut i: usize = 0;
    while i < env.nodes.len()
        invariant
            i <= env.nodes@.len(),
            env@ == e0,
            old(env)@ == e0,
        decreases env.nodes.len() - i,
    {
        if text_eq(env.nodes[i].slug.as_str(), slug) && env.nodes[i].kind == NodeKind::Site {
            assert(env@.nodes[i as int] == env.nodes@[i as int]@);
            return env.nodes[i].id.copy();
        }
        i += 1;
    }
    let id = Id::generate();
    env.nodes.push(DeploymentNode {
        id: id.copy(),
        slug: owned(slug),
        kind: NodeKind::Site,
        children: Vec::new(),
        instances: Vec::new(),
        memo: String::new(),
    });
    proof {
        let n = env@.nodes.len() - 1;
        assert(env@.nodes[n] == env.nodes@[n]@);
        assert(env@.nodes =~= e0.nodes.push(env@.nodes[n]));
        assert forall|k: (bool, Seq<char>)| #[trigger] forest_keys(e0.nodes).contains(k) implies forest_keys(env@.nodes).contains(k) by {
            lemma_keys_push(e0.nodes, env@.nodes[n], k);
        }
        lemma_env_kept_nodes(e0, env@);
    }
    id
}

/// The first machine with this name, depth first (the node, then below it), anywhere.
fn find_machine(nodes: &Vec<DeploymentNode>, slug: &str) -> (r: Option<Id>)
    ensures
        (r is Some) == forest_has(crate::environment::nodes_view(nodes@), slug_is(slug@)),
        r matches Some(id) ==> forest_has(crate::environment::nodes_view(nodes@), id_is(id@)),
    decreases crate::tree::forest_size(crate::environment::nodes_view(nodes@)),
{
    let ghost s = crate::environment::nodes_view(nodes@);
    let mut i: usize = 0;
    while i < nodes.len()
        invariant
            i <= nodes@.len(),
            s == crate::environment::nodes_view(nodes@),
            forall|j: int| 0 <= j < i ==> !tree_has(#[trigger] s[j], slug_is(slug@)),
        decreases nodes.len() - i,
    {
        let n = &nodes[i];
        assert(s[i as int] == n@);
        proof {
            lemma_children_view(*n);
            lemma_child_size(s, i as int);
        }
        if text_eq(n.slug.as_str(), slug) {
            let id = n.id.copy();
            proof {
                assert((id_is(id@))(s[i as int]));
                assert(tree_has(s[i as int], id_is(id@)));
                lemma_forest_has_at(s, id_is(id@), i as int);
                assert((slug_is(slug@))(s[i as int]));
                assert(tree_has(s[i as int], slug_is(slug@)));
                lemma_forest_has_at(s, slug_is(slug@), i as int);
            }
            return Some(id);
        }
        match find_machine(&n.children, slug) {
            Some(id) => {
                proof {
                    assert(tree_has(s[i as int], id_is(id@)));
                    lemma_forest_has_at(s, id_is(id@), i as int);
                    assert(tree_has(s[i as int], slug_is(slug@)));
                    lemma_forest_has_at(s, slug_is(slug@), i as int);
                }
                return Some(id);
            },
            None => {},
        }
        proof {
            if tree_has(s[i as int], slug_is(slug@)) {
                assert(!(slug_is(slug@))(s[i as int]));
                assert(forest_has(s[i as int].children, slug_is(slug@)));
            }
        }
        i += 1;
    }
    proof {
        if forest_has(s, slug_is(slug@)) {
            lemma_forest_has_some(s, slug_is(slug@));
        }
    }
    None
}

proof fn lemma_children_view_of(n: DeploymentNode)
    ensures
        n@.children == crate::environment::nodes_view(n.children@),
{
    lemma_children_view(n);
}

/// Takes the first machine with this name out of the children of `node`: a child with
/// the name, else from below each child in turn.
fn take_below(node: &mut DeploymentNode, slug: &str) -> (r: Option<DeploymentNode>)
    ensures
        final(node)@.id == old(node)@.id,
        final(node)@.slug == old(node)@.slug,
        final(node)@.instances == old(node)@.instances,
        r is None ==> final(node)@ == old(node)@,
        r matches Some(m) ==> m@.slug == slug@,
        r matches Some(m) ==> keys_split(tree_keys(old(node)@), tree_keys(final(node)@), tree_keys(m@)),
    decreases crate::tree::forest_size(old(node)@.children), 1nat,
{
    let ghost n0 = node@;
    proof {
        lemma_children_view_of(*node);
    }
    let found = take_machine(&mut node.children, slug);
    proof {
        lemma_children_view_of(*node);
        if found is Some {
            let m = found->Some_0;
            assert forall|k: (bool, Seq<char>)| #![trigger tree_keys(n0).contains(k)] #![trigger tree_keys(node@).contains(k)]
                #![trigger tree_keys(m@).contains(k)]
                tree_keys(n0).contains(k) <==> (tree_keys(node@).contains(k) || tree_keys(m@).contains(k)) by {
                lemma_tree_keys_children(n0, node@, k);
                assert(forest_keys(n0.children).contains(k) <==> (forest_keys(node@.children).contains(k)
                    || tree_keys(m@).contains(k)));
            }
        }
    }
    found
}

/// Takes the first machine with this name out of the forest: a top-level one with the
/// name, else from below each top-level node in turn. The top level loses at most that
/// one machine.
fn take_machine(nodes: &mut Vec<DeploymentNode>, slug: &str) -> (r: Option<DeploymentNode>)
    ensures
        r is None ==> final(nodes)@ == old(nodes)@,
        r matches Some(m) ==> m@.slug == slug@,
        top_pairs(crate::environment::nodes_view(final(nodes)@)) == top_pairs(crate::environment::nodes_view(old(nodes)@))
            || exists|i: int| 0 <= i < old(nodes)@.len() && old(nodes)@[i]@.slug == slug@
                && top_pairs(crate::environment::nodes_view(final(nodes)@))
                    == top_pairs(crate::environment::nodes_view(old(nodes)@)).remove(i),
        r matches Some(m) ==> keys_split(forest_keys(crate::environment::nodes_view(old(nodes)@)),
            forest_keys(crate::environment::nodes_view(final(nodes)@)), tree_keys(m@)),
    decreases crate::tree::forest_size(crate::environment::nodes_view(old(nodes)@)), 0nat,
{
    let ghost s0 = crate::environment::nodes_view(nodes@);
    let ghost v0 = nodes@;
    let mut i: usize = 0;
    while i < nodes.len()
        invariant
            i <= nodes@.len(),
            nodes@ == v0,
            old(nodes)@ == v0,
            s0 == crate::environment::nodes_view(v0),
        decreases nodes.len() - i,
    {
        if text_eq(nodes[i].slug.as_str(), slug) {
            let m = nodes.remove(i);
            proof {
                assert(nodes@ =~= v0.remove(i as int));
                assert(s0[i as int] == v0[i as int]@);
                assert(top_pairs(crate::environment::nodes_view(nodes@)) =~= top_pairs(s0).remove(i as int));
                assert(crate::environment::nodes_view(nodes@) =~= s0.remove(i as int));
                assert forall|k: (bool, Seq<char>)| #![trigger forest_keys(s0).contains(k)]
                    #![trigger forest_keys(s0.remove(i as int)).contains(k)] #![trigger tree_keys(m@).contains(k)]
                    forest_keys(s0).contains(k) <==> (forest_keys(s0.remove(i as int)).contains(k) || tree_keys(m@).contains(k)) by {
                    lemma_keys_remove(s0, i as int, k);
                }
            }
            return Some(m);
        }
        i += 1;
    }
    let mut j: usize = 0;
    while j < nodes.len()
        invariant
            j <= nodes@.len(),
            nodes@ == v0,
            old(nodes)@ == v0,
            s0 == crate::environment::nodes_view(v0),
        decreases nodes.len() - j,
    {
        let mut n = nodes[j].duplicate();
        proof {
            assert(s0[j as int] == v0[j as int]@);
            lemma_child_size(s0, j as int);
            lemma_children_view_of(v0[j as int]);
        }
        match take_below(&mut n, slug) {
            Some(m) => {
                let ghost nv = n@;
                nodes.set(j, n);
                proof {
                    assert(top_pairs(crate::environment::nodes_view(nodes@)) =~= top_pairs(s0));
                    assert(crate::environment::nodes_view(nodes@) =~= s0.update(j as int, nv));
                    assert forall|k: (bool, Seq<char>)| #![trigger forest_keys(s0).contains(k)]
                        #![trigger forest_keys(s0.update(j as int, nv)).contains(k)] #![trigger tree_keys(m@).contains(k)]
                        forest_keys(s0).contains(k) <==> (forest_keys(s0.update(j as int, nv)).contains(k)
                        || tree_keys(m@).contains(k)) by {
                        lemma_keys_remove(s0, j as int, k);
                        lemma_keys_update(s0, j as int, nv, k);
                    }
                }
                return Some(m);
            },
            None => {},
        }
        j += 1;
    }
    None
}

fn top_named(nodes: &Vec<DeploymentNode>, slug: &str) -> (r: bool)
    ensures
        r ==> forest_has(crate::environment::nodes_view(nodes@), slug_is(slug@)),
{
    let ghost s = crate::environment::nodes_view(nodes@);
    let mut k: usize = 0;
    while k < nodes.len()
        invariant
            k <= nodes@.len(),
            s == crate::environment::nodes_view(nodes@),
        decreases nodes.len() - k,
    {
        if text_eq(nodes[k].slug.as_str(), slug) {
            proof {
                assert(s[k as int] == nodes@[k as int]@);
                assert((slug_is(slug@))(s[k as int]));
                assert(tree_has(s[k as int], slug_is(slug@)));
                lemma_forest_has_at(s, slug_is(slug@), k as int);
            }
            return true;
        }
        k += 1;
    }
    false
}

/// Whether the first top-level node with this id has a child with the name.
fn site_holds(nodes: &Vec<DeploymentNode>, sid: &Id, slug: &str) -> (r: bool)
    ensures
        r ==> forest_has(crate::environment::nodes_view(nodes@), slug_is(slug@)),
{
    let ghost s = crate::environment::nodes_view(nodes@);
    let mut k: usize = 0;
    while k < nodes.len()
        invariant
            k <= nodes@.len(),
            s == crate::environment::nodes_view(nodes@),
        decreases nodes.len() - k,
    {
        if nodes[k].id.same(sid) {
            let site = &nodes[k];
            let ghost sv = site@;
            proof {
                assert(s[k as int] == sv);
                lemma_children_view_of(*site);
            }
            let mut c: usize = 0;
            while c < site.children.len()
                invariant
                    c <= site.children@.len(),
                    k < nodes@.len(),
                    s == crate::environment::nodes_view(nodes@),
                    s[k as int] == sv,
                    sv == site@,
                    sv.children == crate::environment::nodes_view(site.children@),
                decreases site.children.len() - c,
            {
                if text_eq(site.children[c].slug.as_str(), slug) {
                    proof {
                        assert(sv.children[c as int] == site.children@[c as int]@);
                        assert((slug_is(slug@))(sv.children[c as int]));
                        assert(tree_has(sv.children[c as int], slug_is(slug@)));
                        lemma_forest_has_at(sv.children, slug_is(slug@), c as int);
                        assert(tree_has(sv, slug_is(slug@)));
                        assert(tree_has(s[k as int], slug_is(slug@)));
                        lemma_forest_has_at(s, slug_is(slug@), k as int);
                    }
                    return true;
                }
                c += 1;
            }
            return false;
        }
        k += 1;
    }
    false
}

/// A machine taken out and put back elsewhere: what the forest held before is still there.
proof fn lemma_placed_back(a: Seq<DeploymentNodeView>, b: Seq<DeploymentNodeView>, c: Seq<DeploymentNodeView>, m: DeploymentNodeView)
    requires
        keys_split(forest_keys(a), forest_keys(b), tree_keys(m)) || b == a,
        keys_kept(b, c),
        forall|q: (bool, Seq<char>)| #[trigger] tree_keys(m).contains(q) ==> forest_keys(c).contains(q),
    ensures
        keys_kept(a, c),
{
    assert forall|q: (bool, Seq<char>)| #[trigger] forest_keys(a).contains(q) implies forest_keys(c).contains(q) by {
        if b != a {
            assert(forest_keys(b).contains(q) || tree_keys(m).contains(q));
        }
    }
}

/// Places the machine where the row says: inside the site when one is given, else at
/// the top. One already in place is left there; one elsewhere is moved (subtree and
/// all); one that does not exist is created as a VM. Returns the machine's id.
fn place_node(env: &mut Environment, node_slug: &str, site: Option<&Id>) -> (r: Id)
    requires
        site matches Some(sid) ==> exists|j: int| 0 <= j < old(env)@.nodes.len() && old(env)@.nodes[j].id == sid@
            && old(env)@.nodes[j].slug != node_slug@,
    ensures
        final(env)@.connections == old(env)@.connections,
        env_kept(old(env)@, final(env)@),
        forest_has(final(env)@.nodes, id_is(r@)),
{
    let ghost e0 = env@;
    assert(e0.nodes == crate::environment::nodes_view(env.nodes@));
    let under_target = match site {
        Some(sid) => site_holds(&env.nodes, sid, node_slug),
        None => top_named(&env.nodes, node_slug),
    };
    if under_target {
        assert(forest_has(e0.nodes, slug_is(node_slug@)));
        match find_machine(&env.nodes, node_slug) {
            Some(id) => {
                proof {
                    lemma_env_kept_nodes(e0, env@);
                }
                return id;
            },
            None => {
                assert(false);
                return Id::generate();
            },
        }
    }
    let taken = take_machine(&mut env.nodes, node_slug);
    let machine = match taken {
        Some(m) => m,
        None => DeploymentNode {
            id: Id::generate(),
            slug: owned(node_slug),
            kind: NodeKind::VirtualMachine,
            children: Vec::new(),
            instances: Vec::new(),
            memo: String::new(),
        },
    };
    let id = machine.id.copy();
    let ghost mv = machine@;
    let ghost e1 = env@;
    assert(keys_split(forest_keys(e0.nodes), forest_keys(e1.nodes), tree_keys(mv)) || e1.nodes == e0.nodes);
    match site {
        Some(sid) => {
            proof {
                let j = choose|j: int| 0 <= j < e0.nodes.len() && e0.nodes[j].id == sid@ && e0.nodes[j].slug != node_slug@;
                let p0 = top_pairs(e0.nodes);
                let p1 = top_pairs(e1.nodes);
                assert(p0[j] == (sid@, e0.nodes[j].slug));
                if p1 == p0 {
                    assert(p1[j].0 == sid@);
                } else {
                    let i = choose|i: int| 0 <= i < e0.nodes.len() && e0.nodes[i].slug == node_slug@ && p1 == p0.remove(i);
                    assert(i != j);
                    if j < i {
                        assert(p1[j] == p0[j]);
                    } else {
                        assert(p1[j - 1] == p0[j]);
                    }
                }
                assert(exists|k: int| 0 <= k < p1.len() && p1[k].0 == sid@);
            }
            let mut k: usize = 0;
            while k < env.nodes.len()
                invariant
                    k <= env.nodes@.len(),
                    env@ == e1,
                    exists|q: int| 0 <= q < top_pairs(e1.nodes).len() && top_pairs(e1.nodes)[q].0 == sid@,
                    forall|q: int| 0 <= q < k ==> e1.nodes[q].id != sid@,
                decreases env.nodes.len() - k,
            {
                if env.nodes[k].id.same(sid) {
                    break;
                }
                k += 1;
            }
            if k >= env.nodes.len() {
                proof {
                    let q = choose|q: int| 0 <= q < top_pairs(e1.nodes).len() && top_pairs(e1.nodes)[q].0 == sid@;
                    assert(e1.nodes[q].id == sid@);
                }
                assert(false);
                return id;
            }
            let mut host = env.nodes[k].duplicate();
            host.children.push(machine);
            let ghost hv = host@;
            proof {
                lemma_children_view_of(host);
                let last = hv.children.len() - 1;
                assert(hv.children[last] == mv);
                assert((id_is(id@))(mv));
                assert(tree_has(hv.children[last], id_is(id@)));
                lemma_forest_has_at(hv.children, id_is(id@), last);
                assert(tree_has(hv, id_is(id@)));
            }
            let ghost h0 = env@.nodes[k as int];
            env.nodes.set(k, host);
            proof {
                assert(env@.nodes[k as int] == hv);
                lemma_forest_has_at(env@.nodes, id_is(id@), k as int);
                assert(env@.nodes =~= e1.nodes.update(k as int, hv));
                assert(hv.children =~= h0.children.push(mv));
                assert forall|q: (bool, Seq<char>)| #[trigger] forest_keys(h0.children).contains(q)
                    implies forest_keys(hv.children).contains(q) by {
                    lemma_keys_push(h0.children, mv, q);
                }
                lemma_tree_children_grow(h0, hv);
                lemma_forest_update_grow(e1.nodes, k as int, hv);
                assert forall|q: (bool, Seq<char>)| #[trigger] tree_keys(mv).contains(q) implies forest_keys(env@.nodes).contains(q) by {
                    lemma_keys_push(h0.children, mv, q);
                    lemma_tree_keys_children(h0, hv, q);
                    lemma_keys_update(e1.nodes, k as int, hv, q);
                }
                lemma_placed_back(e0.nodes, e1.nodes, env@.nodes, mv);
                lemma_env_kept_nodes(e0, env@);
            }
            id
        },
        None => {
            env.nodes.push(machine);
            proof {
                let last = env@.nodes.len() - 1;
                assert(env@.nodes[last] == mv);
                assert((id_is(id@))(mv));
                assert(tree_has(env@.nodes[last], id_is(id@)));
                lemma_forest_has_at(env@.nodes, id_is(id@), last);
                assert(env@.nodes =~= e1.nodes.push(mv));
                assert forall|q: (bool, Seq<char>)| #[trigger] forest_keys(e1.nodes).contains(q)
                    implies forest_keys(env@.nodes).contains(q) by {
                    lemma_keys_push(e1.nodes, mv, q);
                }
                assert forall|q: (bool, Seq<char>)| #[trigger] tree_keys(mv).contains(q) implies forest_keys(env@.nodes).contains(q) by {
                    lemma_keys_push(e1.nodes, mv, q);
                }
                lemma_placed_back(e0.nodes, e1.nodes, env@.nodes, mv);
                lemma_env_kept_nodes(e0, env@);
            }
            id
        },
    }
}

fn push_below(node: &mut DeploymentNode, id: &Id, inst: ContainerInstance) -> (r: Option<ContainerInstance>)
    ensures
        (r is None) == forest_has(old(node)@.children, id_is(id@)),
        r is Some ==> final(node)@ == old(node)@,
        final(node)@.id == old(node)@.id,
        final(node)@.instances == old(node)@.instances,
        forall|k: (bool, Seq<char>)| #[trigger] tree_keys(old(node)@).contains(k) ==> tree_keys(final(node)@).contains(k),
    decreases crate::tree::forest_size(old(node)@.children), 1nat,
{
    let ghost n0 = node@;
    proof {
        lemma_children_view_of(*node);
    }
    let back = push_instance(&mut node.children, id, inst);
    proof {
        lemma_children_view_of(*node);
        lemma_tree_children_grow(n0, node@);
    }
    back
}

/// Puts the instance on the first machine with this id: a top-level one first, else
/// below each top-level machine in turn. Hands the instance back when there is none.
fn push_instance(nodes: &mut Vec<DeploymentNode>, id: &Id, inst: ContainerInstance) -> (r: Option<ContainerInstance>)
    ensures
        (r is None) == forest_has(crate::environment::nodes_view(old(nodes)@), id_is(id@)),
        r is Some ==> final(nodes)@ == old(nodes)@,
        keys_kept(crate::environment::nodes_view(old(nodes)@), crate::environment::nodes_view(final(nodes)@)),
    decreases crate::tree::forest_size(crate::environment::nodes_view(old(nodes)@)), 0nat,
{
    let ghost v0 = nodes@;
    let ghost s0 = crate::environment::nodes_view(v0);
    let mut i: usize = 0;
    while i < nodes.len()
        invariant
            i <= nodes@.len(),
            nodes@ == v0,
            old(nodes)@ == v0,
            s0 == crate::environment::nodes_view(v0),
            forall|j: int| 0 <= j < i ==> s0[j].id != id@,
        decreases nodes.len() - i,
    {
        if nodes[i].id.same(id) {
            let mut n = nodes[i].duplicate();
            n.instances.push(inst);
            let ghost nv = n@;
            nodes.set(i, n);
            proof {
                assert(s0[i as int] == v0[i as int]@);
                lemma_children_view_of(v0[i as int]);
                lemma_tree_instances_grow(s0[i as int], nv);
                lemma_forest_update_grow(s0, i as int, nv);
                assert(crate::environment::nodes_view(nodes@) =~= s0.update(i as int, nv));
                assert((id_is(id@))(s0[i as int]));
                lemma_forest_has_at(s0, id_is(id@), i as int);
            }
            return None;
        }
        i += 1;
    }
    let mut inst = inst;
    let mut j: usize = 0;
    while j < nodes.len()
        invariant
            j <= nodes@.len(),
            nodes@ == v0,
            old(nodes)@ == v0,
            s0 == crate::environment::nodes_view(v0),
            forall|q: int| 0 <= q < v0.len() ==> s0[q].id != id@,
            forall|q: int| 0 <= q < j ==> !tree_has(#[trigger] s0[q], id_is(id@)),
        decreases nodes.len() - j,
    {
        let mut n = nodes[j].duplicate();
        proof {
            assert(s0[j as int] == v0[j as int]@);
            lemma_child_size(s0, j as int);
        }
        match push_below(&mut n, id, inst) {
            None => {
                let ghost nv = n@;
                nodes.set(j, n);
                proof {
                    lemma_forest_update_grow(s0, j as int, nv);
                    assert(crate::environment::nodes_view(nodes@) =~= s0.update(j as int, nv));
                    assert(tree_has(s0[j as int], id_is(id@)));
                    lemma_forest_has_at(s0, id_is(id@), j as int);
                }
                return None;
            },
            Some(back) => {
                inst = back;
                proof {
                    assert(!(id_is(id@))(s0[j as int]));
                }
            },
        }
        j += 1;
    }
    proof {
        if forest_has(s0, id_is(id@)) {
            lemma_forest_has_some(s0, id_is(id@));
        }
    }
    Some(inst)
}

/// The landing of the service on the machine, named `{machine}-{service}` (a machine
/// may run several services; the name is unique and the same on every import). The
/// machine is put in place first, even when the landing already exists, so that a site
/// added to the sheet later moves it.
fn ensure_instance(env: &mut Environment, node_slug: &str, site: Option<&Id>, service_slug: &str, container: &Id, created: &mut usize) -> (r: Id)
    requires
        site matches Some(sid) ==> exists|j: int| 0 <= j < old(env)@.nodes.len() && old(env)@.nodes[j].id == sid@
            && old(env)@.nodes[j].slug != node_slug@,
        *old(created) < usize::MAX,
    ensures
        final(env)@.connections == old(env)@.connections,
        env_kept(old(env)@, final(env)@),
        *final(created) <= *old(created) + 1,
{
    let ghost e0 = env@;
    let slug = concat3(node_slug, "-", service_slug);
    let node_id = place_node(env, node_slug, site);
    let ghost e1 = env@;
    {
        let all = env.instances();
        let mut i: usize = 0;
        while i < all.len()
            invariant
                i <= all@.len(),
                env_kept(e0, env@),
                e0 == old(env)@,
                env@.connections == e0.connections,
            decreases all.len() - i,
        {
            if text_eq(all[i].slug.as_str(), slug.as_str()) {
                return all[i].id.copy();
            }
            i += 1;
        }
    }
    let id = Id::generate();
    let instance = ContainerInstance {
        id: id.copy(),
        slug,
        container: container.copy(),
        endpoints: Vec::new(),
        standalone: false,
        memo: String::new(),
    };
    assert(e1.nodes == crate::environment::nodes_view(env.nodes@));
    match push_instance(&mut env.nodes, &node_id, instance) {
        None => {},
        Some(_) => {
            assert(false);
        },
    }
    proof {
        lemma_env_kept_nodes(e1, env@);
        lemma_env_kept_trans(e0, e1, env@);
    }
    *created = *created + 1;
    id
}

/// The device with this name, added when missing.
fn ensure_infra(env: &mut Environment, slug: &str) -> (r: Id)
    ensures
        final(env)@.connections == old(env)@.connections,
        env_kept(old(env)@, final(env)@),
        exists|j: int| 0 <= j < final(env)@.infra.len() && final(env)@.infra[j].id == r@ && final(env)@.infra[j].slug == slug@,
        (exists|j: int| 0 <= j < old(env)@.infra.len() && #[trigger] old(env)@.infra[j].slug == slug@) ==> final(env)@ == old(env)@,
{
    let ghost e0 = env@;
    proof {
        lemma_env_kept_nodes(e0, e0);
    }
    let mut i: usize = 0;
    while i < env.infra.len()
        invariant
            i <= env.infra@.len(),
            env@ == e0,
            old(env)@ == e0,
            forall|q: int| 0 <= q < i ==> #[trigger] e0.infra[q].slug != slug@,
        decreases env.infra.len() - i,
    {
        if text_eq(env.infra[i].slug.as_str(), slug) {
            assert(e0.infra[i as int] == env.infra@[i as int]@);
            return env.infra[i].id.copy();
        }
        i += 1;
    }
    let id = Id::generate();
    env.infra.push(InfrastructureNode { id: id.copy(), slug: owned(slug), endpoints: Vec::new() });
    proof {
        assert forall|j: int| 0 <= j < e0.infra.len() implies infra_kept(e0.infra[j], #[trigger] env@.infra[j]) by {
            assert(env@.infra[j] == e0.infra[j]);
        }
        assert forall|j: int| 0 <= j < e0.connections.len() implies connection_kept(e0.connections[j], #[trigger] env@.connections[j]) by {}
        let n = env@.infra.len() - 1;
        assert(env@.infra[n] == env.infra@[n]@);
    }
    id
}

/// The endpoint with this name on the device, added with the address when missing.
/// An address belongs to the endpoint, not the connection.
fn set_infra_address(env: &mut Environment, infra: &Id, slug: &str, protocol: Protocol, address: &str) -> (r: Id)
    requires
        exists|j: int| 0 <= j < old(env)@.infra.len() && old(env)@.infra[j].id == infra@,
    ensures
        final(env)@.connections == old(env)@.connections,
        env_kept(old(env)@, final(env)@),
{
    let ghost e0 = env@;
    proof {
        lemma_env_kept_nodes(e0, e0);
    }
    let mut k: usize = 0;
    while k < env.infra.len()
        invariant
            k <= env.infra@.len(),
            env@ == e0,
            exists|j: int| 0 <= j < e0.infra.len() && e0.infra[j].id == infra@,
            forall|j: int| 0 <= j < k ==> e0.infra[j].id != infra@,
        decreases env.infra.len() - k,
    {
        assert(e0.infra[k as int] == env.infra@[k as int]@);
        if env.infra[k].id.same(infra) {
            break;
        }
        k += 1;
    }
    if k >= env.infra.len() {
        assert(false);
        return Id::generate();
    }
    let mut m: usize = 0;
    while m < env.infra[k].endpoints.len()
        invariant
            k < env.infra@.len(),
            m <= env.infra@[k as int].endpoints@.len(),
            env@ == e0,
            old(env)@ == e0,
        decreases env.infra@[k as int].endpoints@.len() - m,
    {
        if text_eq(env.infra[k].endpoints[m].slug.as_str(), slug) {
            return env.infra[k].endpoints[m].id.copy();
        }
        m += 1;
    }
    let id = Id::generate();
    let mut n = env.infra[k].duplicate();
    let ghost nv = n@;
    n.endpoints.push(Endpoint { id: id.copy(), slug: owned(slug), def: None, protocol, address: Some(owned(address)) });
    let ghost nv2 = n@;
    env.infra.set(k, n);
    proof {
        assert(nv2.endpoints =~= nv.endpoints.push(nv2.endpoints.last()));
        assert(infra_kept(nv, nv2));
        assert forall|j: int| 0 <= j < e0.infra.len() implies infra_kept(e0.infra[j], #[trigger] env@.infra[j]) by {
            if j != k {
                assert(env@.infra[j] == e0.infra[j]);
            } else {
                assert(env@.infra[j] == nv2);
            }
        }
        assert forall|j: int| 0 <= j < e0.connections.len() implies connection_kept(e0.connections[j], #[trigger] env@.connections[j]) by {}
    }
    id
}

pub open spec fn warnings_grow(a: Seq<ImportWarning>, b: Seq<ImportWarning>) -> bool {
    a.len() <= b.len() && b.take(a.len() as int) == a
}

proof fn lemma_grow_trans(a: Seq<ImportWarning>, b: Seq<ImportWarning>, c: Seq<ImportWarning>)
    requires
        warnings_grow(a, b),
        warnings_grow(b, c),
    ensures
        warnings_grow(a, c),
{
    assert(c.take(a.len() as int) =~= b.take(a.len() as int));
}

/// Warns when the endpoint already has another address than this row gives; the
/// first one stays.
fn warn_if_conflicting(existing: &Endpoint, address: &str, slug: &str, row: usize, warnings: &mut Vec<ImportWarning>)
    ensures
        warnings_grow(old(warnings)@, final(warnings)@),
{
    let ghost w0 = warnings@;
    let kept = match &existing.address {
        Some(k) => k,
        None => {
            assert(warnings@.take(w0.len() as int) =~= w0);
            return;
        },
    };
    if text_eq(kept.as_str(), address) {
        assert(warnings@.take(w0.len() as int) =~= w0);
        return;
    }
    warnings.push(ImportWarning::AddressConflict { row, endpoint: owned(slug), kept: kept.clone(), ignored: owned(address) });
    assert(warnings@.take(w0.len() as int) =~= w0);
}

/// Gives the instance's endpoint for the definition the address, unless it already has
/// one (then a differing address is only warned about). Returns whether the instance
/// was found, looking at each machine's own instances, then below it.
fn address_on_instance(nodes: &mut Vec<DeploymentNode>, instance: &Id, def: &Id, slug: &str, protocol: Protocol, address: &str, row: usize, warnings: &mut Vec<ImportWarning>) -> (r: bool)
    ensures
        warnings_grow(old(warnings)@, final(warnings)@),
        keys_kept(crate::environment::nodes_view(old(nodes)@), crate::environment::nodes_view(final(nodes)@)),
    decreases crate::tree::forest_size(crate::environment::nodes_view(old(nodes)@)), 0nat,
{
    let ghost w0 = warnings@;
    let ghost v0 = nodes@;
    let ghost s0 = crate::environment::nodes_view(nodes@);
    assert(warnings@.take(w0.len() as int) =~= w0);
    let mut j: usize = 0;
    while j < nodes.len()
        invariant
            j <= nodes@.len(),
            warnings_grow(w0, warnings@),
            old(warnings)@ == w0,
            nodes@ == v0,
            old(nodes)@ == v0,
            s0 == crate::environment::nodes_view(v0),
        decreases nodes.len() - j,
    {
        let mut n = nodes[j].duplicate();
        let mut k: usize = 0;
        while k < n.instances.len()
            invariant
                k <= n.instances@.len(),
                j < nodes@.len(),
                warnings_grow(w0, warnings@),
                old(warnings)@ == w0,
                nodes@ == v0,
                old(nodes)@ == v0,
                s0 == crate::environment::nodes_view(v0),
                n@ == v0[j as int]@,
            decreases n.instances.len() - k,
        {
            if n.instances[k].id.same(instance) {
                let mut inst = n.instances[k].duplicate();
                let mut e: usize = 0;
                while e < inst.endpoints.len()
                    invariant
                        e <= inst.endpoints@.len(),
                        warnings_grow(w0, warnings@),
                        old(warnings)@ == w0,
                        j < nodes@.len(),
                        k < n.instances@.len(),
                        nodes@ == v0,
                        old(nodes)@ == v0,
                        s0 == crate::environment::nodes_view(v0),
                        n@ == v0[j as int]@,
                        inst@.id == n@.instances[k as int].id,
                    decreases inst.endpoints.len() - e,
                {
                    let hit = match &inst.endpoints[e].def {
                        Some(d) => d.same(def),
                        None => false,
                    };
                    if hit {
                        let ghost w1 = warnings@;
                        warn_if_conflicting(&inst.endpoints[e], address, slug, row, warnings);
                        proof {
                            lemma_grow_trans(w0, w1, warnings@);
                        }
                        return true;
                    }
                    e += 1;
                }
                inst.endpoints.push(Endpoint {
                    id: Id::generate(),
                    slug: owned(slug),
                    def: Some(def.copy()),
                    protocol,
                    address: Some(owned(address)),
                });
                let ghost n_before = n@;
                n.instances.set(k, inst);
                let ghost nv = n@;
                nodes.set(j, n);
                proof {
                    assert(n_before == s0[j as int]);
                    lemma_tree_instances_grow(n_before, nv);
                    lemma_forest_update_grow(s0, j as int, nv);
                    assert(crate::environment::nodes_view(nodes@) =~= s0.update(j as int, nv));
                }
                return true;
            }
            k += 1;
        }
        proof {
            assert(s0[j as int] == v0[j as int]@);
            lemma_child_size(s0, j as int);
            lemma_children_view_of(n);
        }
        let ghost w1 = warnings@;
        let found = address_in_children(&mut n, instance, def, slug, protocol, address, row, warnings);
        proof {
            lemma_grow_trans(w0, w1, warnings@);
        }
        if found {
            let ghost nv = n@;
            nodes.set(j, n);
            proof {
                lemma_forest_update_grow(s0, j as int, nv);
                assert(crate::environment::nodes_view(nodes@) =~= s0.update(j as int, nv));
            }
            return true;
        }
        j += 1;
    }
    false
}

fn address_in_children(node: &mut DeploymentNode, instance: &Id, def: &Id, slug: &str, protocol: Protocol, address: &str, row: usize, warnings: &mut Vec<ImportWarning>) -> (r: bool)
    ensures
        warnings_grow(old(warnings)@, final(warnings)@),
        final(node)@.id == old(node)@.id,
        final(node)@.instances == old(node)@.instances,
        forall|k: (bool, Seq<char>)| #[trigger] tree_keys(old(node)@).contains(k) ==> tree_keys(final(node)@).contains(k),
    decreases crate::tree::forest_size(old(node)@.children), 1nat,
{
    let ghost n0 = node@;
    proof {
        lemma_children_view_of(*node);
    }
    let r = address_on_instance(&mut node.children, instance, def, slug, protocol, address, row, warnings);
    proof {
        lemma_children_view_of(*node);
        lemma_tree_children_grow(n0, node@);
    }
    r
}

/// Two connections are the same connection: they serve the same relationship between
/// the same two ends.
pub open spec fn same_identity(a: ConnectionView, b: ConnectionView) -> bool {
    a.serves == b.serves && a.from == b.from && a.to == b.to
}

/// The connection at place `c` is the first of the environment with its identity.
pub open spec fn first_of_identity(e: EnvironmentView, c: int) -> bool {
    forall|m: int| 0 <= m < c ==> !same_identity(#[trigger] e.connections[m], e.connections[c])
}

/// The connection as it stands after an upsert has rewritten it.
pub open spec fn rewritten(c: ConnectionView, purpose: Seq<char>, kind: ConnectionKind) -> ConnectionView {
    ConnectionView { purpose, kind, ..c }
}

/// Every connection added to an environment that was already there has an identity the
/// environment did not hold before it: an import updates, it never adds a second copy.
#[verifier::opaque]
pub open spec fn fresh_appends(p0: ProjectView, p1: ProjectView) -> bool {
    forall|j: int, m: int, m2: int| 0 <= j < p0.environments.len() && p0.environments[j].connections.len() <= m2
        && m2 < p1.environments[j].connections.len() && 0 <= m < m2
        ==> !same_identity(#[trigger] p1.environments[j].connections[m], #[trigger] p1.environments[j].connections[m2])
}

proof fn lemma_fresh_appends_trans(a: ProjectView, b: ProjectView, c: ProjectView)
    requires
        project_kept(a, b),
        project_kept(b, c),
        fresh_appends(a, b),
        fresh_appends(b, c),
    ensures
        fresh_appends(a, c),
{
    reveal(fresh_appends);
    assert forall|j: int, m: int, m2: int| 0 <= j < a.environments.len() && a.environments[j].connections.len() <= m2
        && m2 < c.environments[j].connections.len() && 0 <= m < m2
        implies !same_identity(#[trigger] c.environments[j].connections[m], #[trigger] c.environments[j].connections[m2]) by {
        assert(env_kept(a.environments[j], b.environments[j]));
        assert(env_kept(b.environments[j], c.environments[j]));
        if m2 < b.environments[j].connections.len() {
            assert(connection_kept(b.environments[j].connections[m], c.environments[j].connections[m]));
            assert(connection_kept(b.environments[j].connections[m2], c.environments[j].connections[m2]));
            assert(!same_identity(b.environments[j].connections[m], b.environments[j].connections[m2]));
        }
    }
}

/// How importing row `i` left its connection, from `p0` to `p1`: in the first environment
/// with the row's environment name stands the first connection with its identity, as the
/// row describes it; `updated` exactly when that environment already held a connection
/// with that identity (its serves and its two ends) before.
#[verifier::opaque]
pub open spec fn row_upserted(p0: ProjectView, p1: ProjectView, s: SheetView, i: int, updated: bool) -> bool {
    exists|j: int, c: int| 0 <= j < p1.environments.len() && 0 <= c < p1.environments[j].connections.len()
        && #[trigger] p1.environments[j].slug == value_spec(s, i, "environment"@)
        && (forall|q: int| 0 <= q < j ==> #[trigger] p1.environments[q].slug != value_spec(s, i, "environment"@))
        && first_of_identity(p1.environments[j], c)
        && row_connection(s, i, #[trigger] p1.environments[j].connections[c])
        && row_devices(s, i, p1.environments[j], p1.environments[j].connections[c])
        && updated == (j < p0.environments.len() && exists|m: int| 0 <= m < p0.environments[j].connections.len()
            && same_identity(#[trigger] p0.environments[j].connections[m], p1.environments[j].connections[c]))
}

/// Adds the connection, or, when the environment has one serving the same relationship
/// between the same two ends, rewrites that one's purpose and kind. Connections have no
/// name; that is their identity. Returns whether an existing one was updated.
fn upsert_connection(env: &mut Environment, serves: Id, purpose: String, kind: ConnectionKind, from: Endpointing, to: Endpointing) -> (r: bool)
    ensures
        r == exists|j: int| 0 <= j < old(env)@.connections.len() && #[trigger] old(env)@.connections[j].serves == serves@
            && old(env)@.connections[j].from == from@ && old(env)@.connections[j].to == to@,
        final(env)@.nodes == old(env)@.nodes,
        final(env)@.infra == old(env)@.infra,
        r ==> exists|k: int| 0 <= k < old(env)@.connections.len() && #[trigger] old(env)@.connections[k].serves == serves@
            && old(env)@.connections[k].from == from@ && old(env)@.connections[k].to == to@
            && (forall|m: int| 0 <= m < k ==> !(#[trigger] old(env)@.connections[m].serves == serves@
                && old(env)@.connections[m].from == from@ && old(env)@.connections[m].to == to@))
            && final(env)@.connections == old(env)@.connections.update(k, rewritten(old(env)@.connections[k], purpose@, kind)),
        !r ==> final(env)@.connections.drop_last() == old(env)@.connections
            && final(env)@.connections.last().serves == serves@ && final(env)@.connections.last().from == from@
            && final(env)@.connections.last().to == to@ && final(env)@.connections.last().purpose == purpose@
            && final(env)@.connections.last().kind == kind && final(env)@.connections.last().memo.len() == 0,
        env_kept(old(env)@, final(env)@),
        final(env)@.connections.len() == old(env)@.connections.len() + (if r { 0int } else { 1int }),
        exists|j: int| 0 <= j < final(env)@.connections.len() && #[trigger] final(env)@.connections[j].serves == serves@
            && final(env)@.connections[j].from == from@ && final(env)@.connections[j].to == to@
            && final(env)@.connections[j].purpose == purpose@ && final(env)@.connections[j].kind == kind,
{
    let ghost args = (serves@, from@, to@, purpose@);
    let ghost e0 = env@;
    let mut i: usize = 0;
    while i < env.connections.len()
        invariant
            i <= env.connections@.len(),
            env@ == e0,
            old(env)@ == e0,
            forall|m: int| 0 <= m < i ==> !(#[trigger] e0.connections[m].serves == serves@
                && e0.connections[m].from == from@ && e0.connections[m].to == to@),
        decreases env.connections.len() - i,
    {
        if env.connections[i].serves.same(&serves) && env.connections[i].from.same(&from) && env.connections[i].to.same(&to) {
            let mut c = env.connections[i].duplicate();
            let ghost cv = c@;
            c.purpose = purpose;
            c.kind = kind;
            let ghost cv2 = c@;
            env.connections.set(i, c);
            proof {
                assert(env@.connections[i as int] == cv2);
                assert(cv == e0.connections[i as int]);
                assert(cv2 == rewritten(cv, purpose@, kind));
                assert(env@.connections =~= e0.connections.update(i as int, cv2));
                assert(connection_kept(cv, cv2));
                assert forall|j: int| 0 <= j < e0.connections.len() implies connection_kept(e0.connections[j], #[trigger] env@.connections[j]) by {
                    if j != i {
                        assert(env@.connections[j] == e0.connections[j]);
                    } else {
                        assert(env@.connections[j] == cv2);
                    }
                }
                assert forall|j: int| 0 <= j < e0.infra.len() implies infra_kept(e0.infra[j], #[trigger] env@.infra[j]) by {}
            }
            return true;
        }
        i += 1;
    }
    env.connections.push(Connection { id: Id::generate(), serves, purpose, kind, from, to, memo: String::new() });
    proof {
        assert(env@.connections.drop_last() =~= e0.connections);
        assert(env@.connections[e0.connections.len() as int].serves == args.0);
        assert forall|j: int| 0 <= j < e0.connections.len() implies connection_kept(e0.connections[j], #[trigger] env@.connections[j]) by {
            assert(env@.connections[j] == e0.connections[j]);
        }
        assert forall|j: int| 0 <= j < e0.infra.len() implies infra_kept(e0.infra[j], #[trigger] env@.infra[j]) by {}
    }
    false
}

// ---- one row ----

pub open spec fn or_else(a: Option<ImportErrorView>, b: Option<ImportErrorView>) -> Option<ImportErrorView> {
    if a is Some { a } else { b }
}

/// The row number shown to the user: past the header, counted from 1, as a
/// spreadsheet shows it.
pub open spec fn row_number(i: int) -> usize {
    (i + 2) as usize
}

/// The first required column the row leaves empty.
pub open spec fn first_empty(s: SheetView, i: int, columns: Seq<Seq<char>>) -> Option<Seq<char>>
    decreases columns.len(),
{
    if columns.len() == 0 {
        None
    } else if value_spec(s, i, columns[0]).len() == 0 {
        Some(columns[0])
    } else {
        first_empty(s, i, columns.drop_first())
    }
}

/// What is wrong with a row before anything is written: empty values, a row that
/// names one machine without its address, names that are not slugs, a protocol,
/// expected count or kind not known; the first of these in this order.
pub open spec fn early_error(s: SheetView, i: int) -> Option<ImportErrorView> {
    let n = row_number(i);
    let v = |c: Seq<char>| value_spec(s, i, c);
    match first_empty(s, i, required_values()) {
        Some(c) => Some(ImportErrorView::EmptyValue { row: n, column: c }),
        None => if !v("to_node"@).contains('*') && v("to_address"@).len() == 0 {
            Some(ImportErrorView::EmptyValue { row: n, column: "to_address"@ })
        } else {
            or_else(not_normalized(v("environment"@), n, "environment"@),
            or_else(not_normalized(v("from_node"@), n, "from_node"@),
            or_else(optional_not_normalized(v("from_service"@), n, "from_service"@),
            or_else(optional_not_normalized(v("from_site"@), n, "from_site"@),
            or_else(optional_not_normalized(v("to_site"@), n, "to_site"@),
            or_else(optional_not_normalized(v("to_service"@), n, "to_service"@),
            or_else(not_normalized(v("to_endpoint"@), n, "to_endpoint"@),
            or_else(optional_not_normalized(v("from_endpoint"@), n, "from_endpoint"@),
            or_else(if protocol_named(v("protocol"@)) is None {
                Some(ImportErrorView::UnknownProtocol { row: n, value: v("protocol"@) })
            } else { None },
            or_else(if expect_named(v("expect"@)) is None {
                Some(ImportErrorView::BadExpect { row: n, value: v("expect"@) })
            } else { None },
            if kind_named(lower_text(v("kind"@))) is None {
                Some(ImportErrorView::UnknownKind { row: n, value: lower_text(v("kind"@)) })
            } else { None }))))))))))
        },
    }
}

/// What is wrong with a row that only shows once its ends are written: a single target
/// machine whose name is not a slug, a `serves` that is not a slug, or, without
/// `serves`, a row whose relationship cannot be worked out (one end is a device).
pub open spec fn late_error(s: SheetView, i: int) -> Option<ImportErrorView> {
    let n = row_number(i);
    let v = |c: Seq<char>| value_spec(s, i, c);
    let pattern = v("to_node"@).contains('*');
    or_else(
        if v("to_service"@).len() > 0 && pattern { None } else { not_normalized(v("to_node"@), n, "to_node"@) },
        if v("serves"@).len() > 0 {
            not_normalized(v("serves"@), n, "serves"@)
        } else if v("from_service"@).len() == 0 || v("to_service"@).len() == 0 {
            Some(ImportErrorView::InfraRowNeedsServes { row: n })
        } else {
            None
        },
    )
}

/// The error a row is refused with, if any.
pub open spec fn row_error(s: SheetView, i: int) -> Option<ImportErrorView> {
    or_else(early_error(s, i), late_error(s, i))
}

/// A row that places a service on a machine inside a site named like that machine
/// cannot be placed (the machine taken out of place could be the site itself). Only
/// rows that get as far as placing are concerned: past the first checks, an end with a
/// service, and on the target end a single machine whose name is a slug.
pub open spec fn sites_apart(s: SheetView, i: int) -> bool {
    let v = |c: Seq<char>| value_spec(s, i, c);
    early_error(s, i) is None ==> {
        &&& (v("from_service"@).len() > 0 && v("from_site"@).len() > 0 ==> v("from_site"@) != v("from_node"@))
        &&& (v("to_service"@).len() > 0 && !v("to_node"@).contains('*') && v("to_site"@).len() > 0
            && not_normalized(v("to_node"@), row_number(i), "to_node"@) is None ==> v("to_site"@) != v("to_node"@))
    }
}

/// The values of a row that passed the first checks.
struct RowInput {
    row: usize,
    env_slug: String,
    from_node: String,
    to_node_raw: String,
    from_service: Option<String>,
    from_site: Option<String>,
    to_site: Option<String>,
    to_service: Option<String>,
    to_endpoint: String,
    from_endpoint: Option<String>,
    protocol: Protocol,
    expect: Option<u32>,
    purpose: String,
    address: String,
    serves_slug: String,
    kind: ConnectionKind,
}

pub open spec fn opt_value(o: Option<String>) -> Seq<char> {
    match o {
        Some(x) => x@,
        None => seq![],
    }
}

fn empty_required(sheet: &Sheet, index: usize) -> (r: Option<&'static str>)
    requires
        index < sheet@.rows.len(),
    ensures
        match first_empty(sheet@, index as int, required_values()) {
            Some(c) => r matches Some(x) && x@ == c,
            None => r is None,
        },
{
    let cols = required_values_vec();
    assert(required_values().skip(0) =~= required_values());
    let mut k: usize = 0;
    while k < cols.len()
        invariant
            k <= cols@.len(),
            index < sheet@.rows.len(),
            strs_view(cols@) == required_values(),
            first_empty(sheet@, index as int, required_values()) == first_empty(sheet@, index as int, required_values().skip(k as int)),
        decreases cols.len() - k,
    {
        let c = cols[k];
        proof {
            let rest = required_values().skip(k as int);
            assert(rest[0] == c@);
            assert(rest.drop_first() =~= required_values().skip(k + 1));
        }
        if sheet.value(index, c).is_empty() {
            return Some(c);
        }
        k += 1;
    }
    assert(required_values().skip(k as int) =~= Seq::<Seq<char>>::empty());
    None
}

/// The two ends of the connection a row describes, as far as they are fixed by the row's
/// own text: an instance end where a service is named, else a device; the target end
/// names the endpoint it lands on, and a wildcard target is a pattern over
/// `<to_node>-<to_service>`.
pub open spec fn row_ends(s: SheetView, i: int, c: ConnectionView) -> bool {
    let v = |col: Seq<char>| value_spec(s, i, col);
    &&& v("from_service"@).len() > 0 ==> (c.from matches EndpointingView::Instance { target: InstanceRefView::One(_), .. })
    &&& v("from_service"@).len() == 0 ==> (c.from matches EndpointingView::Infra { endpoint: None, .. })
    &&& v("to_service"@).len() > 0 ==> (c.to matches EndpointingView::Instance { target, endpoint: Some(_) } && if v(
        "to_node"@).contains('*') {
        (target matches InstanceRefView::Pattern { slug_pattern, .. } && slug_pattern == v("to_node"@) + "-"@ + v(
            "to_service"@))
    } else {
        target is One
    })
    &&& v("to_service"@).len() == 0 ==> (c.to matches EndpointingView::Infra { endpoint: Some(_), .. })
}

/// The connection a row describes: its ends, its purpose and its kind.
pub open spec fn row_connection(s: SheetView, i: int, c: ConnectionView) -> bool {
    &&& row_ends(s, i, c)
    &&& c.purpose == value_spec(s, i, "purpose"@)
    &&& kind_named(lower_text(value_spec(s, i, "kind"@))) == Some(c.kind)
}

/// A device end names a device of the environment with this name.
pub open spec fn infra_end_named(end: EndpointingView, e: EnvironmentView, slug: Seq<char>) -> bool {
    end matches EndpointingView::Infra { node, .. } ==> exists|j: int| 0 <= j < e.infra.len()
        && #[trigger] e.infra[j].id == node && e.infra[j].slug == slug
}

/// The connection's device ends name the devices the row names.
pub open spec fn row_devices(s: SheetView, i: int, e: EnvironmentView, c: ConnectionView) -> bool {
    &&& infra_end_named(c.from, e, value_spec(s, i, "from_node"@))
    &&& infra_end_named(c.to, e, value_spec(s, i, "to_node"@))
}

proof fn lemma_infra_end_kept(end: EndpointingView, a: EnvironmentView, b: EnvironmentView, slug: Seq<char>)
    requires
        env_kept(a, b),
        infra_end_named(end, a, slug),
    ensures
        infra_end_named(end, b, slug),
{
    if let EndpointingView::Infra { node, .. } = end {
        let j = choose|j: int| 0 <= j < a.infra.len() && #[trigger] a.infra[j].id == node && a.infra[j].slug == slug;
        assert(infra_kept(a.infra[j], b.infra[j]));
    }
}

/// Some environment with the row's environment name holds a connection with `f`.
/// The environment is the first with the row's environment name, and the connection is
/// the first of that environment with its identity: an import reuses both and never
/// adds a second copy.
pub open spec fn row_landed(p: ProjectView, s: SheetView, i: int, f: spec_fn(EnvironmentView, ConnectionView) -> bool) -> bool {
    exists|j: int, c: int| 0 <= j < p.environments.len() && 0 <= c < p.environments[j].connections.len()
        && #[trigger] p.environments[j].slug == value_spec(s, i, "environment"@)
        && (forall|q: int| 0 <= q < j ==> #[trigger] p.environments[q].slug != value_spec(s, i, "environment"@))
        && first_of_identity(p.environments[j], c)
        && f(p.environments[j], #[trigger] p.environments[j].connections[c])
}

/// The row's connection, by its ends, is in the project.
pub open spec fn row_ends_landed(p: ProjectView, s: SheetView, i: int) -> bool {
    row_landed(p, s, i, |e: EnvironmentView, c: ConnectionView| row_ends(s, i, c) && row_devices(s, i, e, c))
}

proof fn lemma_row_ends_kept(a: ProjectView, b: ProjectView, s: SheetView, i: int)
    requires
        project_kept(a, b),
        row_ends_landed(a, s, i),
    ensures
        row_ends_landed(b, s, i),
{
    let f = |e: EnvironmentView, c: ConnectionView| row_ends(s, i, c) && row_devices(s, i, e, c);
    let (j, c) = choose|j: int, c: int| 0 <= j < a.environments.len() && 0 <= c < a.environments[j].connections.len()
        && #[trigger] a.environments[j].slug == value_spec(s, i, "environment"@)
        && (forall|q: int| 0 <= q < j ==> #[trigger] a.environments[q].slug != value_spec(s, i, "environment"@))
        && first_of_identity(a.environments[j], c)
        && f(a.environments[j], #[trigger] a.environments[j].connections[c]);
    let ea = a.environments[j];
    let eb = b.environments[j];
    assert(env_kept(ea, eb));
    assert(connection_kept(ea.connections[c], eb.connections[c]));
    assert forall|q: int| 0 <= q < j implies #[trigger] b.environments[q].slug != value_spec(s, i, "environment"@) by {
        assert(env_kept(a.environments[q], b.environments[q]));
    }
    assert forall|m: int| 0 <= m < c implies !same_identity(#[trigger] eb.connections[m], eb.connections[c]) by {
        assert(connection_kept(ea.connections[m], eb.connections[m]));
        assert(!same_identity(ea.connections[m], ea.connections[c]));
    }
    lemma_infra_end_kept(ea.connections[c].from, ea, eb, value_spec(s, i, "from_node"@));
    lemma_infra_end_kept(ea.connections[c].to, ea, eb, value_spec(s, i, "to_node"@));
    assert(f(eb, eb.connections[c]));
}

/// Reads a row and makes the checks that need nothing written.
fn read_row(sheet: &Sheet, index: usize) -> (r: Result<RowInput, ImportError>)
    requires
        index < sheet@.rows.len(),
        index + 2 <= usize::MAX,
    ensures
        match early_error(sheet@, index as int) {
            Some(e) => r matches Err(x) && x@ == e,
            None => r matches Ok(x) && {
                &&& x.row == row_number(index as int)
                &&& x.to_node_raw@ == value_spec(sheet@, index as int, "to_node"@)
                &&& opt_value(x.to_service) == value_spec(sheet@, index as int, "to_service"@)
                &&& (x.to_service is Some) == (value_spec(sheet@, index as int, "to_service"@).len() > 0)
                &&& (x.from_service is Some) == (value_spec(sheet@, index as int, "from_service"@).len() > 0)
                &&& opt_value(x.from_service) == value_spec(sheet@, index as int, "from_service"@)
                &&& (x.from_site is Some) == (value_spec(sheet@, index as int, "from_site"@).len() > 0)
                &&& opt_value(x.from_site) == value_spec(sheet@, index as int, "from_site"@)
                &&& (x.to_site is Some) == (value_spec(sheet@, index as int, "to_site"@).len() > 0)
                &&& opt_value(x.to_site) == value_spec(sheet@, index as int, "to_site"@)
                &&& x.from_node@ == value_spec(sheet@, index as int, "from_node"@)
                &&& x.serves_slug@ == value_spec(sheet@, index as int, "serves"@)
                &&& x.env_slug@ == value_spec(sheet@, index as int, "environment"@)
                &&& x.purpose@ == value_spec(sheet@, index as int, "purpose"@)
                &&& kind_named(lower_text(value_spec(sheet@, index as int, "kind"@))) == Some(x.kind)
            },
        },
{
    let row = index + 2;
    match empty_required(sheet, index) {
        Some(c) => return Err(ImportError::EmptyValue { row, column: owned(c) }),
        None => {},
    }
    if !has_char(sheet.value(index, "to_node"), '*') && sheet.value(index, "to_address").is_empty() {
        return Err(ImportError::EmptyValue { row, column: owned("to_address") });
    }
    let env_slug = normalized(sheet.value(index, "environment"), row, "environment")?;
    let from_node = normalized(sheet.value(index, "from_node"), row, "from_node")?;
    let to_node_raw = owned(sheet.value(index, "to_node"));
    let from_service = optional_normalized(sheet.value(index, "from_service"), row, "from_service")?;
    let from_site = optional_normalized(sheet.value(index, "from_site"), row, "from_site")?;
    let to_site = optional_normalized(sheet.value(index, "to_site"), row, "to_site")?;
    let to_service = optional_normalized(sheet.value(index, "to_service"), row, "to_service")?;
    let to_endpoint = normalized(sheet.value(index, "to_endpoint"), row, "to_endpoint")?;
    let from_endpoint = optional_normalized(sheet.value(index, "from_endpoint"), row, "from_endpoint")?;
    let protocol = parse_protocol(sheet.value(index, "protocol"), row)?;
    let expect = parse_expect(sheet.value(index, "expect"), row)?;
    let purpose = owned(sheet.value(index, "purpose"));
    let address = owned(sheet.value(index, "to_address"));
    let serves_slug = owned(sheet.value(index, "serves"));
    let kind = parse_kind(sheet.value(index, "kind"), row)?;
    Ok(RowInput {
        row,
        env_slug,
        from_node,
        to_node_raw,
        from_service,
        from_site,
        to_site,
        to_service,
        to_endpoint,
        from_endpoint,
        protocol,
        expect,
        purpose,
        address,
        serves_slug,
        kind,
    })
}

/// What an import keeps of a project: its names; the logical layer as
/// [`logical_kept`] says; the environments only added to, each kept as [`env_kept`] says.
pub open spec fn project_kept(a: ProjectView, b: ProjectView) -> bool {
    &&& b.id == a.id
    &&& b.slug == a.slug
    &&& b.name == a.name
    &&& b.memo == a.memo
    &&& logical_kept(a.logical, b.logical)
    &&& a.environments.len() <= b.environments.len()
    &&& forall|j: int| 0 <= j < a.environments.len() ==> env_kept(a.environments[j], #[trigger] b.environments[j])
}

pub proof fn lemma_project_kept_trans(a: ProjectView, b: ProjectView, c: ProjectView)
    requires
        project_kept(a, b),
        project_kept(b, c),
    ensures
        project_kept(a, c),
{
    lemma_logical_kept_trans(a.logical, b.logical, c.logical);
    assert forall|j: int| 0 <= j < a.environments.len() implies env_kept(a.environments[j], #[trigger] c.environments[j]) by {
        lemma_env_kept_trans(a.environments[j], b.environments[j], c.environments[j]);
    }
}

pub proof fn lemma_project_kept_refl(a: ProjectView)
    ensures
        project_kept(a, a),
{
    assert forall|j: int| 0 <= j < a.environments.len() implies env_kept(a.environments[j], #[trigger] a.environments[j]) by {
        lemma_env_kept_nodes(a.environments[j], a.environments[j]);
    }
    assert forall|j: int| 0 <= j < a.logical.containers.len() implies container_kept(a.logical.containers[j], #[trigger] a.logical.containers[j]) by {}
    assert forall|j: int| 0 <= j < a.logical.relationships.len() implies relationship_kept(a.logical.relationships[j], #[trigger] a.logical.relationships[j]) by {}
}

/// Some environment of the project has this slug.
pub open spec fn has_env(p: ProjectView, slug: Seq<char>) -> bool {
    exists|j: int| 0 <= j < p.environments.len() && #[trigger] p.environments[j].slug == slug
}

proof fn lemma_has_env_kept(a: ProjectView, b: ProjectView, slug: Seq<char>)
    requires
        project_kept(a, b),
        has_env(a, slug),
    ensures
        has_env(b, slug),
{
    let j = choose|j: int| 0 <= j < a.environments.len() && #[trigger] a.environments[j].slug == slug;
    assert(env_kept(a.environments[j], b.environments[j]));
}

proof fn lemma_conn_total_update(es: Seq<EnvironmentView>, k: int, e: EnvironmentView)
    requires
        0 <= k < es.len(),
    ensures
        conn_total(es.update(k, e)) + es[k].connections.len() == conn_total(es) + e.connections.len(),
    decreases es.len(),
{
    let u = es.update(k, e);
    if k == es.len() - 1 {
        assert(u.drop_last() =~= es.drop_last());
    } else {
        lemma_conn_total_update(es.drop_last(), k, e);
        assert(u.drop_last() =~= es.drop_last().update(k, e));
    }
}

/// The environment with this name, created when missing; returns its place.
fn ensure_environment(project: &mut Project, slug: &str, created: &mut usize) -> (r: usize)
    requires
        *old(created) < usize::MAX,
    ensures
        project_kept(old(project)@, final(project)@),
        r < final(project)@.environments.len(),
        final(project)@.environments[r as int].slug == slug@,
        *final(created) <= *old(created) + 1,
        conn_total(final(project)@.environments) == conn_total(old(project)@.environments),
        final(project)@.logical == old(project)@.logical,
        forall|j: int| 0 <= j < r ==> #[trigger] final(project)@.environments[j].slug != slug@,
        r < old(project)@.environments.len() ==> final(project)@ == old(project)@ && *final(created) == *old(created),
        r >= old(project)@.environments.len() ==> r == old(project)@.environments.len()
            && final(project)@.environments.drop_last() == old(project)@.environments
            && final(project)@.environments[r as int].connections.len() == 0,
{
    let ghost p0 = project@;
    proof {
        lemma_project_kept_refl(p0);
    }
    let mut i: usize = 0;
    while i < project.environments.len()
        invariant
            i <= project.environments@.len(),
            project@ == p0,
            old(project)@ == p0,
            forall|j: int| 0 <= j < i ==> #[trigger] p0.environments[j].slug != slug@,
        decreases project.environments.len() - i,
    {
        if text_eq(project.environments[i].slug.as_str(), slug) {
            assert(p0.environments[i as int] == project.environments@[i as int]@);
            return i;
        }
        i += 1;
    }
    project.environments.push(Environment {
        id: Id::generate(),
        slug: owned(slug),
        name: owned(slug),
        nodes: Vec::new(),
        infra: Vec::new(),
        systems: Vec::new(),
        connections: Vec::new(),
        memo: String::new(),
    });
    *created = *created + 1;
    proof {
        assert forall|j: int| 0 <= j < p0.environments.len() implies env_kept(p0.environments[j], #[trigger] project@.environments[j]) by {
            assert(project@.environments[j] == p0.environments[j]);
            lemma_env_kept_nodes(p0.environments[j], p0.environments[j]);
        }
        let n = project@.environments.len() - 1;
        assert(project@.environments[n] == project.environments@[n]@);
        assert(project@.environments.drop_last() =~= p0.environments);
        assert forall|j: int| 0 <= j < n implies #[trigger] project@.environments[j].slug != slug@ by {
            assert(project@.environments[j] == p0.environments[j]);
        }
    }
    project.environments.len() - 1
}

/// Writes the environment back in its place, keeping what the import keeps.
fn put_back(project: &mut Project, k: usize, env: Environment, Ghost(p0): Ghost<ProjectView>)
    requires
        k < old(project)@.environments.len(),
        project_kept(p0, old(project)@),
        env_kept(old(project)@.environments[k as int], env@),
    ensures
        project_kept(p0, final(project)@),
        final(project)@.environments == old(project)@.environments.update(k as int, env@),
        final(project)@.logical == old(project)@.logical,
        conn_total(final(project)@.environments) + old(project)@.environments[k as int].connections.len()
            == conn_total(old(project)@.environments) + env@.connections.len(),
{
    let ghost p1 = project@;
    let ghost ev = env@;
    project.environments.set(k, env);
    proof {
        lemma_conn_total_update(p1.environments, k as int, ev);
        assert(project@.environments =~= p1.environments.update(k as int, ev));
        assert forall|j: int| 0 <= j < p1.environments.len() implies env_kept(p1.environments[j], #[trigger] project@.environments[j]) by {
            if j != k {
                lemma_env_kept_nodes(p1.environments[j], p1.environments[j]);
            }
        }
        assert(project@.logical == p1.logical);
        lemma_logical_kept_trans(p1.logical, p1.logical, p1.logical);
        assert(logical_kept(p1.logical, project@.logical)) by {
            lemma_project_kept_refl(p1);
        }
        lemma_project_kept_trans(p0, p1, project@);
    }
}

proof fn lemma_logical_step(a: ProjectView, b: ProjectView, c: ProjectView)
    requires
        project_kept(a, b),
        c.id == b.id,
        c.slug == b.slug,
        c.name == b.name,
        c.memo == b.memo,
        c.environments == b.environments,
        logical_kept(b.logical, c.logical),
    ensures
        project_kept(a, c),
{
    lemma_project_kept_refl(b);
    lemma_project_kept_trans(a, b, c);
}

fn site_ref(site: &Option<Id>) -> (r: Option<&Id>)
    ensures
        match site {
            Some(s) => r == Some(s),
            None => r is None,
        },
{
    match site {
        Some(s) => Some(s),
        None => None,
    }
}

/// Where an upsert leaves a row's connection: the first of its environment with its
/// identity, in the first environment with the row's environment name.
proof fn lemma_row_lands(p0: ProjectView, p: ProjectView, s: SheetView, i: int, k: int, ef: EnvironmentView, eg: EnvironmentView,
    sv: Seq<char>, fv: EndpointingView, tv: EndpointingView, pv: Seq<char>, kv: ConnectionKind, updated: bool)
    requires
        k < p0.environments.len() ==> ef.connections == p0.environments[k].connections,
        k >= p0.environments.len() ==> ef.connections.len() == 0,
        p0.environments.len() <= p.environments.len(),
        forall|j: int| 0 <= j < p0.environments.len() && j != k ==> #[trigger] p.environments[j].connections
            == p0.environments[j].connections,
        0 <= k < p.environments.len(),
        p.environments[k] == eg,
        eg.slug == value_spec(s, i, "environment"@),
        forall|q: int| 0 <= q < k ==> #[trigger] p.environments[q].slug != value_spec(s, i, "environment"@),
        updated == exists|j: int| 0 <= j < ef.connections.len() && #[trigger] ef.connections[j].serves == sv
            && ef.connections[j].from == fv && ef.connections[j].to == tv,
        eg.infra == ef.infra,
        updated ==> exists|q: int| 0 <= q < ef.connections.len() && #[trigger] ef.connections[q].serves == sv
            && ef.connections[q].from == fv && ef.connections[q].to == tv
            && (forall|m: int| 0 <= m < q ==> !(#[trigger] ef.connections[m].serves == sv
                && ef.connections[m].from == fv && ef.connections[m].to == tv))
            && eg.connections == ef.connections.update(q, rewritten(ef.connections[q], pv, kv)),
        !updated ==> eg.connections.drop_last() == ef.connections && eg.connections.last().serves == sv
            && eg.connections.last().from == fv && eg.connections.last().to == tv && eg.connections.last().purpose == pv
            && eg.connections.last().kind == kv,
        !updated ==> eg.connections.len() == ef.connections.len() + 1,
        infra_end_named(fv, ef, value_spec(s, i, "from_node"@)),
        infra_end_named(tv, ef, value_spec(s, i, "to_node"@)),
        forall|c: ConnectionView| c.from == fv && c.to == tv && c.purpose == pv && c.kind == kv ==> #[trigger] row_connection(s, i, c),
    ensures
        row_landed(p, s, i, |e: EnvironmentView, c: ConnectionView| row_connection(s, i, c) && row_devices(s, i, e, c)),
        row_upserted(p0, p, s, i, updated),
        fresh_appends(p0, p),
{
    let c: int = if updated {
        choose|q: int| 0 <= q < ef.connections.len() && #[trigger] ef.connections[q].serves == sv
            && ef.connections[q].from == fv && ef.connections[q].to == tv
            && (forall|m: int| 0 <= m < q ==> !(#[trigger] ef.connections[m].serves == sv
                && ef.connections[m].from == fv && ef.connections[m].to == tv))
            && eg.connections == ef.connections.update(q, rewritten(ef.connections[q], pv, kv))
    } else {
        ef.connections.len() as int
    };
    if updated {
        assert(eg.connections[c] == rewritten(ef.connections[c], pv, kv));
        assert forall|m: int| 0 <= m < c implies !same_identity(#[trigger] eg.connections[m], eg.connections[c]) by {
            assert(eg.connections[m] == ef.connections[m]);
        }
    } else {
        assert(eg.connections[c] == eg.connections.last());
        assert forall|m: int| 0 <= m < c implies !same_identity(#[trigger] eg.connections[m], eg.connections[c]) by {
            assert(eg.connections[m] == eg.connections.drop_last()[m]);
        }
    }
    assert(first_of_identity(eg, c));
    assert(row_connection(s, i, eg.connections[c]));
    assert(row_devices(s, i, eg, eg.connections[c]));
    let f = |e: EnvironmentView, x: ConnectionView| row_connection(s, i, x) && row_devices(s, i, e, x);
    assert(f(p.environments[k], p.environments[k].connections[c]));
    reveal(fresh_appends);
    reveal(row_upserted);
    let x = eg.connections[c];
    assert(x.serves == sv && x.from == fv && x.to == tv);
    if k < p0.environments.len() {
        if updated {
            let m = choose|j: int| 0 <= j < ef.connections.len() && #[trigger] ef.connections[j].serves == sv
                && ef.connections[j].from == fv && ef.connections[j].to == tv;
            assert(same_identity(p0.environments[k].connections[m], x));
        } else {
            assert forall|m: int| 0 <= m < p0.environments[k].connections.len() implies !same_identity(
                #[trigger] p0.environments[k].connections[m], x) by {
                assert(p0.environments[k].connections[m] == ef.connections[m]);
            }
        }
    } else {
        assert(!updated);
    }
    assert(row_upserted(p0, p, s, i, updated));
    assert forall|j: int, m: int, m2: int| 0 <= j < p0.environments.len() && p0.environments[j].connections.len() <= m2
        && m2 < p.environments[j].connections.len() && 0 <= m < m2
        implies !same_identity(#[trigger] p.environments[j].connections[m], #[trigger] p.environments[j].connections[m2]) by {
        if j == k {
            if updated {
                assert(eg.connections.len() == ef.connections.len());
            } else {
                assert(m2 == ef.connections.len());
                assert(eg.connections[m] == ef.connections[m]);
            }
        }
    }
}


/// Imports one row. The row is checked first; where it is refused after its ends were
/// written, what was written stays (nothing is removed).
#[verifier::rlimit(60)]
fn import_row(project: &mut Project, sheet: &Sheet, index: usize, report: &mut ImportReport) -> (r: Result<(), ImportError>)
    requires
        index < sheet@.rows.len(),
        index + 2 <= usize::MAX,
        sites_apart(sheet@, index as int),
        old(report).environments_created < usize::MAX - 3,
        old(report).containers_created < usize::MAX - 3,
        old(report).instances_created < usize::MAX - 3,
        old(report).connections < usize::MAX - 1,
        old(report).connections_updated < usize::MAX - 1,
    ensures
        match row_error(sheet@, index as int) {
            Some(e) => r matches Err(x) && x@ == e,
            None => r is Ok,
        },
        r is Ok ==> final(report).connections + final(report).connections_updated
            == old(report).connections + old(report).connections_updated + 1,
        r is Err ==> final(report).connections == old(report).connections
            && final(report).connections_updated == old(report).connections_updated,
        final(report).connections <= old(report).connections + 1,
        final(report).connections_updated <= old(report).connections_updated + 1,
        final(report).environments_created <= old(report).environments_created + 1,
        final(report).containers_created <= old(report).containers_created + 3,
        final(report).instances_created <= old(report).instances_created + 2,
        warnings_grow(old(report).warnings@, final(report).warnings@),
        project_kept(old(project)@, final(project)@),
        conn_total(final(project)@.environments) + old(report).connections
            == conn_total(old(project)@.environments) + final(report).connections,
        r is Ok ==> row_landed(final(project)@, sheet@, index as int, |e: EnvironmentView, c: ConnectionView|
            row_connection(sheet@, index as int, c) && row_devices(sheet@, index as int, e, c)),
        r is Ok ==> row_upserted(old(project)@, final(project)@, sheet@, index as int,
            final(report).connections_updated == old(report).connections_updated + 1),
        r is Ok ==> fresh_appends(old(project)@, final(project)@),
        early_error(sheet@, index as int) is Some ==> final(project)@ == old(project)@
            && final(report).connections == old(report).connections
            && final(report).connections_updated == old(report).connections_updated
            && final(report).environments_created == old(report).environments_created
            && final(report).containers_created == old(report).containers_created
            && final(report).instances_created == old(report).instances_created
            && final(report).warnings@ == old(report).warnings@,
{
    let ghost p0 = project@;
    let ghost w0 = report.warnings@;
    proof {
        lemma_project_kept_refl(p0);
        assert(w0.take(w0.len() as int) =~= w0);
    }
    let x = match read_row(sheet, index) {
        Ok(x) => x,
        Err(e) => {
            return Err(e);
        },
    };
    let ghost sv = sheet@;
    let ghost i = index as int;
    let row = x.row;
    let pattern = has_char(x.to_node_raw.as_str(), '*');
    let k = ensure_environment(project, x.env_slug.as_str(), &mut report.environments_created);
    let mut env = project.environments[k].duplicate();
    let ghost e1 = env@;
    let ghost p1 = project@;
    let ghost c0 = old(report).connections;
    assert(e1 == p1.environments[k as int]);
    proof {
        lemma_env_kept_nodes(e1, e1);
    }

    // the source end
    let from_side = match &x.from_service {
        Some(service) => {
            let ghost pa = project@;
            let container = ensure_container(&mut project.logical, project.slug.as_str(), project.name.as_str(), service.as_str(),
                &mut report.containers_created);
            proof {
                lemma_logical_step(p0, pa, project@);
            }
            match &x.from_endpoint {
                Some(ep) => {
                    let ghost pb = project@;
                    let _ = ensure_endpoint_def(&mut project.logical, &container, ep.as_str(), x.protocol);
                    proof {
                        lemma_logical_step(p0, pb, project@);
                    }
                },
                None => {},
            }
            let ghost ea = env@;
            let site = match &x.from_site {
                Some(s) => Some(ensure_site(&mut env, s.as_str())),
                None => None,
            };
            proof {
                if x.from_site is None {
                    lemma_env_kept_nodes(ea, env@);
                }
                lemma_env_kept_trans(e1, ea, env@);
            }
            let ghost eb = env@;
            let instance = ensure_instance(&mut env, x.from_node.as_str(), site_ref(&site), service.as_str(), &container,
                &mut report.instances_created);
            proof {
                lemma_env_kept_trans(e1, eb, env@);
            }
            let endpoint = match &x.from_endpoint {
                Some(ep) => endpoint_def_id(&project.logical, &container, ep.as_str()),
                None => None,
            };
            Endpointing::Instance { target: InstanceRef::One(instance), endpoint }
        },
        None => {
            let ghost ea = env@;
            let node = ensure_infra(&mut env, x.from_node.as_str());
            proof {
                lemma_env_kept_trans(e1, ea, env@);
            }
            let side = Endpointing::Infra { node, endpoint: None };
            assert(infra_end_named(side@, env@, value_spec(sheet@, index as int, "from_node"@)));
            side
        },
    };

    // the target end
    let ghost pc = project@;
    let ghost ec = env@;
    proof {
        lemma_env_kept_nodes(ec, ec);
    }
    assert(infra_end_named(from_side@, ec, value_spec(sheet@, index as int, "from_node"@)));
    let (to_side, to_container) = match &x.to_service {
        Some(service) => {
            let container = ensure_container(&mut project.logical, project.slug.as_str(), project.name.as_str(), service.as_str(),
                &mut report.containers_created);
            let ghost pd = project@;
            proof {
                lemma_logical_step(p0, pc, pd);
            }
            let def = ensure_endpoint_def(&mut project.logical, &container, x.to_endpoint.as_str(), x.protocol);
            proof {
                lemma_logical_step(p0, pd, project@);
            }
            let target = if pattern {
                let slug_pattern = concat3(x.to_node_raw.as_str(), "-", service.as_str());
                let ghost ea = env@;
                let within = match &x.to_site {
                    Some(s) => Some(ensure_site(&mut env, s.as_str())),
                    None => None,
                };
                proof {
                    if x.to_site is None {
                        lemma_env_kept_nodes(ea, env@);
                    }
                    lemma_env_kept_trans(e1, ea, env@);
                    lemma_env_kept_trans(ec, ea, env@);
                }
                InstanceRef::Pattern { slug_pattern, within, expect: x.expect }
            } else {
                let node = match normalized(x.to_node_raw.as_str(), row, "to_node") {
                    Ok(v) => v,
                    Err(e) => {
                        put_back(project, k, env, Ghost(p0));
                        return Err(e);
                    },
                };
                let ghost ea = env@;
                let site = match &x.to_site {
                    Some(s) => Some(ensure_site(&mut env, s.as_str())),
                    None => None,
                };
                proof {
                    if x.to_site is None {
                        lemma_env_kept_nodes(ea, env@);
                    }
                    lemma_env_kept_trans(e1, ea, env@);
                    lemma_env_kept_trans(ec, ea, env@);
                }
                let ghost eb = env@;
                let instance = ensure_instance(&mut env, node.as_str(), site_ref(&site), service.as_str(), &container,
                    &mut report.instances_created);
                proof {
                    lemma_env_kept_trans(e1, eb, env@);
                    lemma_env_kept_trans(ec, eb, env@);
                }
                let ghost ee = env@;
                let ghost wa = report.warnings@;
                let _ = address_on_instance(&mut env.nodes, &instance, &def, x.to_endpoint.as_str(), x.protocol,
                    x.address.as_str(), row, &mut report.warnings);
                proof {
                    lemma_env_kept_nodes(ee, env@);
                    lemma_env_kept_trans(e1, ee, env@);
                    lemma_env_kept_trans(ec, ee, env@);
                    lemma_grow_trans(w0, wa, report.warnings@);
                }
                InstanceRef::One(instance)
            };
            (Endpointing::Instance { target, endpoint: Some(def) }, Some(container))
        },
        None => {
            let node = match normalized(x.to_node_raw.as_str(), row, "to_node") {
                Ok(v) => v,
                Err(e) => {
                    put_back(project, k, env, Ghost(p0));
                    return Err(e);
                },
            };
            let ghost ea = env@;
            let infra = ensure_infra(&mut env, node.as_str());
            let ghost eb = env@;
            let endpoint = set_infra_address(&mut env, &infra, x.to_endpoint.as_str(), x.protocol, x.address.as_str());
            proof {
                lemma_env_kept_trans(ea, eb, env@);
                lemma_env_kept_trans(e1, ea, env@);
                lemma_env_kept_trans(ec, ea, env@);
            }
            let side = Endpointing::Infra { node: infra, endpoint: Some(endpoint) };
            proof {
                lemma_infra_end_kept(side@, eb, env@, value_spec(sheet@, index as int, "to_node"@));
            }
            (side, None)
        },
    };

    // the relationship it serves
    let ghost pe = project@;
    let serves = if !x.serves_slug.as_str().is_empty() {
        let slug = match normalized(x.serves_slug.as_str(), row, "serves") {
            Ok(v) => v,
            Err(e) => {
                put_back(project, k, env, Ghost(p0));
                return Err(e);
            },
        };
        let r = ensure_relationship_by_slug(&mut project.logical, project.slug.as_str(), project.name.as_str(), slug.as_str(),
            &x.from_service, &to_container, x.to_endpoint.as_str(), x.purpose.as_str());
        proof {
            lemma_logical_step(p0, pe, project@);
        }
        r
    } else {
        match (&x.from_service, &to_container) {
            (Some(from), Some(to)) => {
                let from_container = ensure_container(&mut project.logical, project.slug.as_str(), project.name.as_str(),
                    from.as_str(), &mut report.containers_created);
                let ghost pf = project@;
                proof {
                    lemma_logical_step(p0, pe, pf);
                }
                let target_slug = container_slug(&project.logical, to);
                let slug = concat3(from.as_str(), "-連-", target_slug.as_str());
                let r = ensure_relationship(&mut project.logical, slug.as_str(), &from_container, to, x.to_endpoint.as_str(),
                    x.purpose.as_str());
                proof {
                    lemma_logical_step(p0, pf, project@);
                }
                r
            },
            _ => {
                put_back(project, k, env, Ghost(p0));
                return Err(ImportError::InfraRowNeedsServes { row });
            },
        }
    };

    let ghost ef = env@;
    assert(ef.connections == e1.connections);
    let ghost fv = from_side@;
    let ghost tv = to_side@;
    proof {
        lemma_infra_end_kept(fv, ec, ef, value_spec(sheet@, index as int, "from_node"@));
    }
    assert(infra_end_named(tv, ef, value_spec(sheet@, index as int, "to_node"@)));
    let ghost pv = x.purpose@;
    let ghost kv = x.kind;
    let ghost sv2 = serves@;
    assert(forall|c: ConnectionView| c.from == fv && c.to == tv && c.purpose == pv && c.kind == kv ==> #[trigger] row_connection(
        sheet@, index as int, c));

    let updated = upsert_connection(&mut env, serves, x.purpose, x.kind, from_side, to_side);
    proof {
        lemma_env_kept_trans(e1, ef, env@);
    }
    if updated {
        report.connections_updated = report.connections_updated + 1;
    } else {
        report.connections = report.connections + 1;
    }
    let ghost eg = env@;
    let ghost pg = project@;
    put_back(project, k, env, Ghost(p0));
    proof {
        assert(pg.environments == p1.environments);
        lemma_conn_total_update(p1.environments, k as int, eg);
        assert(project@.environments[k as int] == eg);
        assert(eg.slug == e1.slug);
        assert forall|q: int| 0 <= q < k implies #[trigger] project@.environments[q].slug != value_spec(sheet@, index as int,
            "environment"@) by {
            assert(project@.environments[q] == p1.environments[q]);
        }
        if (k as int) < p0.environments.len() {
            assert(p1 == p0);
        } else {
            assert(p1.environments.drop_last() == p0.environments);
        }
        assert forall|j: int| 0 <= j < p0.environments.len() && j != k implies #[trigger] project@.environments[j].connections
            == p0.environments[j].connections by {
            assert(project@.environments[j] == p1.environments[j]);
            if (k as int) >= p0.environments.len() {
                assert(p1.environments[j] == p1.environments.drop_last()[j]);
            }
        }
        lemma_row_lands(p0, project@, sheet@, index as int, k as int, ef, eg, sv2, fv, tv, pv, kv, updated);
    }
    Ok(())
}

// ---- the whole sheet ----

/// The required columns the header lacks, in the order they are required.
pub open spec fn missing_columns(s: SheetView) -> Seq<Seq<char>> {
    required_columns().filter(|c: Seq<char>| !s.headers.contains(c))
}

/// A warning for each header not known, in header order.
pub open spec fn unknown_columns(s: SheetView) -> Seq<ImportWarningView> {
    s.headers.filter(|h: Seq<char>| !known_columns().contains(h)).map_values(|h: Seq<char>| ImportWarningView::UnknownColumn(h))
}

/// The error of the first refused row among the first `k`.
pub open spec fn first_row_error(s: SheetView, k: int) -> Option<ImportErrorView>
    decreases k,
{
    if k <= 0 {
        None
    } else {
        or_else(first_row_error(s, k - 1), row_error(s, k - 1))
    }
}

proof fn lemma_first_row_error_stays(s: SheetView, k: int, m: int)
    requires
        0 <= k <= m,
        first_row_error(s, k) is Some,
    ensures
        first_row_error(s, m) == first_row_error(s, k),
    decreases m - k,
{
    if m > k {
        lemma_first_row_error_stays(s, k, m - 1);
    }
}

/// Why a sheet is refused: the missing columns, all of them, else the first refused row.
pub open spec fn sheet_error(s: SheetView) -> Option<ImportErrorView> {
    if missing_columns(s).len() > 0 {
        Some(ImportErrorView::MissingColumns(missing_columns(s)))
    } else {
        first_row_error(s, s.rows.len() as int)
    }
}

fn contains_text(v: &Vec<&str>, x: &str) -> (r: bool)
    ensures
        r == strs_view(v@).contains(x@),
{
    let mut i: usize = 0;
    while i < v.len()
        invariant
            i <= v@.len(),
            forall|j: int| 0 <= j < i ==> strs_view(v@)[j] != x@,
        decreases v.len() - i,
    {
        if text_eq(v[i], x) {
            assert(strs_view(v@)[i as int] == x@);
            return true;
        }
        i += 1;
    }
    false
}

fn check_headers(sheet: &Sheet) -> (r: Result<(), ImportError>)
    ensures
        if missing_columns(sheet@).len() > 0 {
            r matches Err(e) && e@ == ImportErrorView::MissingColumns(missing_columns(sheet@))
        } else {
            r is Ok
        },
{
    let cols = required_columns_vec();
    let ghost req = required_columns();
    let ghost pred = |c: Seq<char>| !sheet@.headers.contains(c);
    let mut missing: Vec<String> = Vec::new();
    let mut k: usize = 0;
    while k < cols.len()
        invariant
            k <= cols@.len(),
            strs_view(cols@) == req,
            req == required_columns(),
            pred == (|c: Seq<char>| !sheet@.headers.contains(c)),
            texts_view(missing@) == req.take(k as int).filter(pred),
        decreases cols.len() - k,
    {
        let c = cols[k];
        proof {
            assert(req.take(k + 1).drop_last() =~= req.take(k as int));
            assert(req[k as int] == c@);
            reveal(Seq::filter);
            lemma_first_index(sheet@.headers, c@);
            crate::logical::lemma_first_index_contains(sheet@.headers, c@);
        }
        let ghost before = texts_view(missing@);
        if sheet.column_index(c).is_none() {
            missing.push(owned(c));
            assert(texts_view(missing@) =~= before.push(c@));
        }
        k += 1;
    }
    assert(req.take(k as int) =~= req);
    if missing.len() == 0 {
        Ok(())
    } else {
        Err(ImportError::MissingColumns(missing))
    }
}

/// What a successful import of the sheet leaves, `created` being the connections it added:
/// nothing removed, that many more connections, each row's environment holding a
/// connection with the row's ends, and no connection added twice.
pub open spec fn imported(p0: ProjectView, p1: ProjectView, s: SheetView, created: nat) -> bool {
    &&& project_kept(p0, p1)
    &&& conn_total(p1.environments) == conn_total(p0.environments) + created
    &&& forall|i: int| 0 <= i < s.rows.len() ==> has_env(p1, #[trigger] value_spec(s, i, "environment"@))
    &&& forall|i: int| 0 <= i < s.rows.len() ==> #[trigger] row_ends_landed(p1, s, i)
    &&& fresh_appends(p0, p1)
}

/// Whether a row is refused, without writing anything.
fn row_refused(sheet: &Sheet, index: usize) -> (r: bool)
    requires
        index < sheet@.rows.len(),
        index + 2 <= usize::MAX,
    ensures
        r == (row_error(sheet@, index as int) is Some),
{
    if read_row(sheet, index).is_err() {
        return true;
    }
    let to_node = sheet.value(index, "to_node");
    let to_service = sheet.value(index, "to_service");
    let serves = sheet.value(index, "serves");
    let pattern = has_char(to_node, '*');
    if !(!to_service.is_empty() && pattern) && !is_normalized(to_node) {
        return true;
    }
    if !serves.is_empty() {
        !is_normalized(serves)
    } else {
        sheet.value(index, "from_service").is_empty() || to_service.is_empty()
    }
}

/// Whether the sheet can be imported without a row naming its site like its machine:
/// every row the import reaches (no row before it refused) places its machines apart
/// from their sites. A sheet without every required column reaches no row.
pub fn rows_placeable(sheet: &Sheet) -> (r: bool)
    requires
        sheet@.rows.len() < usize::MAX / 4,
    ensures
        r == (missing_columns(sheet@).len() == 0 ==> forall|i: int| 0 <= i < sheet@.rows.len()
            && first_row_error(sheet@, i) is None ==> #[trigger] sites_apart(sheet@, i)),
{
    if check_headers(sheet).is_err() {
        return true;
    }
    let n = sheet.row_count();
    let mut i: usize = 0;
    while i < n
        invariant
            i <= n,
            n == sheet@.rows.len(),
            n < usize::MAX / 4,
            missing_columns(sheet@).len() == 0,
            first_row_error(sheet@, i as int) is None,
            forall|j: int| 0 <= j < i && first_row_error(sheet@, j) is None ==> #[trigger] sites_apart(sheet@, j),
        decreases n - i,
    {
        let from_site = sheet.value(i, "from_site");
        let to_site = sheet.value(i, "to_site");
        let to_node = sheet.value(i, "to_node");
        let early = read_row(sheet, i).is_err();
        if !early && ((!sheet.value(i, "from_service").is_empty() && !from_site.is_empty()
            && text_eq(from_site, sheet.value(i, "from_node"))) || (!sheet.value(i, "to_service").is_empty()
            && !has_char(to_node, '*') && !to_site.is_empty() && is_normalized(to_node) && text_eq(to_site, to_node))) {
            assert(!sites_apart(sheet@, i as int));
            assert(missing_columns(sheet@).len() == 0);
            assert(0 <= i < sheet@.rows.len() && first_row_error(sheet@, i as int) is None && !sites_apart(sheet@, i as int));
            return false;
        }
        if row_refused(sheet, i) {
            assert forall|j: int| 0 <= j < sheet@.rows.len() && first_row_error(sheet@, j) is None
                implies #[trigger] sites_apart(sheet@, j) by {
                if j > i {
                    lemma_first_row_error_stays(sheet@, i + 1, j);
                }
            }
            return true;
        }
        i += 1;
    }
    true
}

/// Imports a sheet into the project, in place. A header without a required column is
/// refused whole, with every missing column named, and the project untouched. Rows are
/// imported in order; the first refused row stops the import with its error (what the
/// rows before it wrote stays). Each imported row either adds one connection or updates
/// the one that already serves the same relationship between the same ends, so on
/// success the report's two counts add up to the number of rows, the project holds as
/// many more connections as the report says were created, and every row's environment
/// is there. Nothing is removed.
pub fn import(project: &mut Project, sheet: &Sheet) -> (r: Result<ImportReport, ImportError>)
    requires
        sheet@.rows.len() < usize::MAX / 4,
        missing_columns(sheet@).len() == 0 ==> forall|i: int| 0 <= i < sheet@.rows.len()
            && first_row_error(sheet@, i) is None ==> #[trigger] sites_apart(sheet@, i),
    ensures
        match sheet_error(sheet@) {
            Some(e) => r matches Err(x) && x@ == e,
            None => r is Ok,
        },
        r matches Ok(rep) ==> rep.connections + rep.connections_updated == sheet@.rows.len()
            && warnings_view(rep.warnings@).take(unknown_columns(sheet@).len() as int) == unknown_columns(sheet@),
        project_kept(old(project)@, final(project)@),
        missing_columns(sheet@).len() > 0 ==> final(project)@ == old(project)@,
        r matches Ok(rep) ==> conn_total(final(project)@.environments) == conn_total(old(project)@.environments) + rep.connections,
        r is Ok ==> forall|i: int| 0 <= i < sheet@.rows.len()
            ==> has_env(final(project)@, #[trigger] value_spec(sheet@, i, "environment"@)),
        r is Ok ==> forall|i: int| 0 <= i < sheet@.rows.len()
            ==> #[trigger] row_ends_landed(final(project)@, sheet@, i),
        r matches Ok(rep) ==> imported(old(project)@, final(project)@, sheet@, rep.connections as nat),
        r is Ok ==> fresh_appends(old(project)@, final(project)@),
{
    let ghost p0 = project@;
    proof {
        lemma_project_kept_refl(p0);
    }
    match check_headers(sheet) {
        Ok(()) => {},
        Err(e) => return Err(e),
    }
    let mut report = ImportReport::default();
    let known = known_columns_vec();
    let ghost hs = sheet@.headers;
    let ghost pred = |h: Seq<char>| !known_columns().contains(h);
    let ghost mk = |h: Seq<char>| ImportWarningView::UnknownColumn(h);
    let headers = sheet.headers();
    let mut h: usize = 0;
    while h < headers.len()
        invariant
            h <= headers@.len(),
            texts_view(headers@) == hs,
            hs == sheet@.headers,
            strs_view(known@) == known_columns(),
            pred == (|h: Seq<char>| !known_columns().contains(h)),
            mk == (|h: Seq<char>| ImportWarningView::UnknownColumn(h)),
            warnings_view(report.warnings@) == hs.take(h as int).filter(pred).map_values(mk),
            report.connections == 0,
            report.connections_updated == 0,
            report.environments_created == 0,
            report.containers_created == 0,
            report.instances_created == 0,
        decreases headers.len() - h,
    {
        let name = &headers[h];
        proof {
            assert(hs.take(h + 1).drop_last() =~= hs.take(h as int));
            assert(hs[h as int] == name@);
            reveal(Seq::filter);
        }
        let ghost before = warnings_view(report.warnings@);
        if !contains_text(&known, name.as_str()) {
            report.warnings.push(ImportWarning::UnknownColumn(name.clone()));
            assert(warnings_view(report.warnings@) =~= before.push(mk(name@)));
            assert(hs.take(h + 1).filter(pred) =~= hs.take(h as int).filter(pred).push(name@));
            assert(hs.take(h + 1).filter(pred).map_values(mk) =~= hs.take(h as int).filter(pred).map_values(mk).push(mk(name@)));
        } else {
            assert(hs.take(h + 1).filter(pred) =~= hs.take(h as int).filter(pred));
        }
        h += 1;
    }
    assert(hs.take(h as int) =~= hs);
    let ghost unknown = warnings_view(report.warnings@);
    assert(unknown == unknown_columns(sheet@));
    let n = sheet.row_count();
    let mut index: usize = 0;
    proof {
        reveal(fresh_appends);
    }
    while index < n
        invariant
            index <= n,
            n == sheet@.rows.len(),
            n < usize::MAX / 4,
            forall|i: int| 0 <= i < sheet@.rows.len() && first_row_error(sheet@, i) is None ==> #[trigger] sites_apart(sheet@, i),
            missing_columns(sheet@).len() == 0,
            first_row_error(sheet@, index as int) is None,
            report.connections + report.connections_updated == index,
            report.environments_created <= index,
            report.containers_created <= 3 * index,
            report.instances_created <= 2 * index,
            warnings_grow(report.warnings@.take(unknown.len() as int), report.warnings@),
            warnings_view(report.warnings@.take(unknown.len() as int)) == unknown,
            unknown.len() <= report.warnings@.len(),
            project_kept(p0, project@),
            old(project)@ == p0,
            conn_total(project@.environments) == conn_total(p0.environments) + report.connections,
            forall|i: int| 0 <= i < index ==> has_env(project@, #[trigger] value_spec(sheet@, i, "environment"@)),
            forall|i: int| 0 <= i < index ==> #[trigger] row_ends_landed(project@, sheet@, i),
            fresh_appends(p0, project@),
        decreases n - index,
    {
        let ghost pa = project@;
        let ghost wa = report.warnings@;
        let res = import_row(project, sheet, index, &mut report);
        proof {
            lemma_project_kept_trans(p0, pa, project@);
            assert forall|i: int| 0 <= i < index implies has_env(project@, #[trigger] value_spec(sheet@, i, "environment"@)) by {
                lemma_has_env_kept(pa, project@, value_spec(sheet@, i, "environment"@));
            }
            assert forall|i: int| 0 <= i < index implies #[trigger] row_ends_landed(project@, sheet@, i) by {
                lemma_row_ends_kept(pa, project@, sheet@, i);
            }
            if res is Ok {
                lemma_fresh_appends_trans(p0, pa, project@);
                let slug = value_spec(sheet@, index as int, "environment"@);
                let ii = index as int;
                let want = |e: EnvironmentView, c: ConnectionView| row_connection(sheet@, ii, c) && row_devices(sheet@, ii, e, c);
                let (j, c) = choose|j: int, c: int| 0 <= j < project@.environments.len() && 0 <= c < project@.environments[j].connections.len()
                    && #[trigger] project@.environments[j].slug == slug
                    && want(project@.environments[j], #[trigger] project@.environments[j].connections[c]);
                assert(has_env(project@, slug));
                assert(row_ends(sheet@, ii, project@.environments[j].connections[c]));
                assert(row_devices(sheet@, ii, project@.environments[j], project@.environments[j].connections[c]));
                assert(row_ends_landed(project@, sheet@, ii));
            }
            assert(report.warnings@.take(wa.len() as int) == wa);
            assert(report.warnings@.take(unknown.len() as int) =~= wa.take(unknown.len() as int));
        }
        match res {
            Ok(()) => {},
            Err(e) => {
                assert(first_row_error(sheet@, index + 1) == row_error(sheet@, index as int));
                proof {
                    lemma_first_row_error_stays(sheet@, index + 1, n as int);
                }
                return Err(e);
            },
        }
        index += 1;
    }
    proof {
        assert(report.warnings@.take(unknown.len() as int).len() == unknown.len());
        assert(warnings_view(report.warnings@).take(unknown.len() as int) =~= warnings_view(report.warnings@.take(unknown.len() as int)));
    }
    Ok(report)
}

// ---- templates and messages ----

/// The column order shared by sheets written in one go; tests use it as a template.
pub fn template_headers() -> (r: Vec<String>)
    ensures
        texts_view(r@) == known_columns(),
{
    let known = known_columns_vec();
    let mut out: Vec<String> = Vec::new();
    let mut i: usize = 0;
    while i < known.len()
        invariant
            i <= known@.len(),
            strs_view(known@) == known_columns(),
            texts_view(out@) == known_columns().take(i as int),
        decreases known.len() - i,
    {
        let ghost before = texts_view(out@);
        out.push(owned(known[i]));
        proof {
            assert(known_columns()[i as int] == known@[i as int]@);
            assert(texts_view(out@) =~= before.push(known_columns()[i as int]));
            assert(known_columns().take(i + 1) =~= known_columns().take(i as int).push(known_columns()[i as int]));
        }
        i += 1;
    }
    assert(known_columns().take(i as int) =~= known_columns());
    out
}

/// The value the pairs give a column: the last pair naming it wins (as in a map built
/// from the list); empty when none names it.
pub open spec fn pair_value(pairs: Seq<(Seq<char>, Seq<char>)>, column: Seq<char>) -> Seq<char>
    decreases pairs.len(),
{
    if pairs.len() == 0 {
        seq![]
    } else if pairs.last().0 == column {
        pairs.last().1
    } else {
        pair_value(pairs.drop_last(), column)
    }
}

pub open spec fn pairs_view(s: Seq<(&str, &str)>) -> Seq<(Seq<char>, Seq<char>)> {
    s.map_values(|p: (&str, &str)| (p.0@, p.1@))
}

fn value_of_pairs(pairs: &[(&str, &str)], column: &str) -> (r: String)
    ensures
        r@ == pair_value(pairs_view(pairs@), column@),
{
    let ghost ps = pairs_view(pairs@);
    let mut i: usize = pairs.len();
    assert(ps.take(i as int) =~= ps);
    while i > 0
        invariant
            i <= pairs@.len(),
            ps == pairs_view(pairs@),
            pair_value(ps, column@) == pair_value(ps.take(i as int), column@),
        decreases i,
    {
        let (k, v) = pairs[i - 1];
        proof {
            assert(ps.take(i as int).drop_last() =~= ps.take(i - 1));
            assert(ps.take(i as int).last() == (k@, v@));
        }
        if text_eq(k, column) {
            return owned(v);
        }
        i -= 1;
    }
    proof {
        reveal_strlit("");
    }
    String::new()
}

/// A row with the values the pairs give, in template column order, empty where none.
pub fn row_from_pairs(pairs: &[(&str, &str)]) -> (r: Vec<String>)
    ensures
        texts_view(r@) == known_columns().map_values(|c: Seq<char>| pair_value(pairs_view(pairs@), c)),
{
    let ghost want = known_columns().map_values(|c: Seq<char>| pair_value(pairs_view(pairs@), c));
    let known = known_columns_vec();
    let mut out: Vec<String> = Vec::new();
    let mut i: usize = 0;
    while i < known.len()
        invariant
            i <= known@.len(),
            strs_view(known@) == known_columns(),
            want == known_columns().map_values(|c: Seq<char>| pair_value(pairs_view(pairs@), c)),
            texts_view(out@) == want.take(i as int),
        decreases known.len() - i,
    {
        let ghost before = texts_view(out@);
        out.push(value_of_pairs(pairs, known[i]));
        proof {
            assert(known_columns()[i as int] == known@[i as int]@);
            assert(texts_view(out@) =~= before.push(want[i as int]));
            assert(want.take(i + 1) =~= want.take(i as int).push(want[i as int]));
        }
        i += 1;
    }
    assert(want.take(i as int) =~= want);
    out
}

pub open spec fn warning_text(w: ImportWarningView) -> Seq<char> {
    match w {
        ImportWarningView::AddressConflict { row, endpoint, kept, ignored } =>
            "第 "@ + decimal(row as nat) + " 列："@ + endpoint + " 已經是 "@ + kept + "，忽略不一致的 "@ + ignored,
        ImportWarningView::UnknownColumn(name) => "忽略認不得的欄位 "@ + name,
    }
}

pub open spec fn joined(s: Seq<Seq<char>>, sep: Seq<char>) -> Seq<char> {
    crate::inventory::join(s, sep)
}

pub open spec fn error_text(e: ImportErrorView) -> Seq<char> {
    match e {
        ImportErrorView::MissingColumns(columns) => "表頭缺少必填欄位："@ + joined(columns, "、"@),
        ImportErrorView::EmptyValue { row, column } => "第 "@ + decimal(row as nat) + " 列的 "@ + column + " 不能是空的"@,
        ImportErrorView::UnknownProtocol { row, value } => "第 "@ + decimal(row as nat) + " 列的協定 "@ + value
            + " 認不得，可用：TCP、UDP、UNIX_SOCKET、JDBC、FILE"@,
        ImportErrorView::BadExpect { row, value } => "第 "@ + decimal(row as nat) + " 列的 expect「"@ + value + "」不是數字"@,
        ImportErrorView::NotNormalized { row, column, produced, suggestion } => "第 "@ + decimal(row as nat) + " 列的 "@
            + column + "「"@ + produced + "」不是正規寫法，建議改成 "@ + suggestion,
        ImportErrorView::InfraRowNeedsServes { row } => "第 "@ + decimal(row as nat)
            + " 列的目標是設備，必須填 serves 指明它服務哪條邏輯連線"@,
        ImportErrorView::UnknownKind { row, value } => "第 "@ + decimal(row as nat) + " 列的 kind「"@ + value
            + "」認不得，可用：primary（或留空）、fallback"@,
    }
}

fn row_prefix(row: usize, after: &str) -> (r: String)
    ensures
        r@ == "第 "@ + decimal(row as nat) + after@,
{
    let mut out = owned("第 ");
    out.append(decimal_text(row as u64).as_str());
    out.append(after);
    out
}

impl ImportWarning {
    /// The warning as shown to people.
    pub fn describe(&self) -> (r: String)
        ensures
            r@ == warning_text(self@),
    {
        match self {
            ImportWarning::AddressConflict { row, endpoint, kept, ignored } => {
                let mut out = row_prefix(*row, " 列：");
                out.append(endpoint.as_str());
                out.append(" 已經是 ");
                out.append(kept.as_str());
                out.append("，忽略不一致的 ");
                out.append(ignored.as_str());
                out
            },
            ImportWarning::UnknownColumn(name) => concat2("忽略認不得的欄位 ", name.as_str()),
        }
    }
}

impl ImportError {
    /// The error as shown to people.
    pub fn describe(&self) -> (r: String)
        ensures
            r@ == error_text(self@),
    {
        match self {
            ImportError::MissingColumns(columns) => {
                let mut out = owned("表頭缺少必填欄位：");
                out.append(crate::inventory::join_texts(columns, "、").as_str());
                out
            },
            ImportError::EmptyValue { row, column } => {
                let mut out = row_prefix(*row, " 列的 ");
                out.append(column.as_str());
                out.append(" 不能是空的");
                out
            },
            ImportError::UnknownProtocol { row, value } => {
                let mut out = row_prefix(*row, " 列的協定 ");
                out.append(value.as_str());
                out.append(" 認不得，可用：TCP、UDP、UNIX_SOCKET、JDBC、FILE");
                out
            },
            ImportError::BadExpect { row, value } => {
                let mut out = row_prefix(*row, " 列的 expect「");
                out.append(value.as_str());
                out.append("」不是數字");
                out
            },
            ImportError::NotNormalized { row, column, produced, suggestion } => {
                let mut out = row_prefix(*row, " 列的 ");
                out.append(column.as_str());
                out.append("「");
                out.append(produced.as_str());
                out.append("」不是正規寫法，建議改成 ");
                out.append(suggestion.as_str());
                out
            },
            ImportError::InfraRowNeedsServes { row } => row_prefix(*row, " 列的目標是設備，必須填 serves 指明它服務哪條邏輯連線"),
            ImportError::UnknownKind { row, value } => {
                let mut out = row_prefix(*row, " 列的 kind「");
                out.append(value.as_str());
                out.append("」認不得，可用：primary（或留空）、fallback");
                out
            },
        }
    }
}


/// The kind column decides a row's kind: a cell that lowercases to `fallback` or `備援`
/// lands a fallback connection, and a primary one comes only from an empty cell,
/// `primary` or `正常`.
pub proof fn lemma_row_kind(s: SheetView, i: int, c: ConnectionView)
    requires
        row_connection(s, i, c),
    ensures
        (lower_text(value_spec(s, i, "kind"@)) == "fallback"@ || lower_text(value_spec(s, i, "kind"@)) == "備援"@)
            ==> c.kind == ConnectionKind::Fallback,
        c.kind == ConnectionKind::Fallback ==> (lower_text(value_spec(s, i, "kind"@)) == "fallback"@
            || lower_text(value_spec(s, i, "kind"@)) == "備援"@),
        c.kind == ConnectionKind::Primary ==> (lower_text(value_spec(s, i, "kind"@)) == ""@
            || lower_text(value_spec(s, i, "kind"@)) == "primary"@ || lower_text(value_spec(s, i, "kind"@)) == "正常"@),
{
    reveal_strlit("");
    reveal_strlit("primary");
    reveal_strlit("正常");
    reveal_strlit("fallback");
    reveal_strlit("備援");
    let v = lower_text(value_spec(s, i, "kind"@));
    assert("fallback"@.len() == 8 && "primary"@.len() == 7 && ""@.len() == 0 && "正常"@.len() == 2 && "備援"@.len() == 2);
    assert("備援"@[0] != "正常"@[0]);
    assert(kind_named(v) == Some(c.kind));
}

} // verus!
