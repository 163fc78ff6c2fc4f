//! Header, field and column handling of the solver's HYG star catalog
//! (plain or gzip-compressed CSV).

use vstd::prelude::*;

use crate::files::{extension_of, lower_extension};
use crate::text::{
    eq_ignore_ascii_case, lower_seq, parse_u32, parse_u32_seq, str_eq, to_ascii_lowercase, trim,
    trim_seq,
};

verus! {

#[verifier::external_type_specification]
#[verifier::external_body]
pub struct ExIoError(std::io::Error);

/// Problems loading the solver's star catalog.
#[derive(Debug)]
pub enum CatalogError {
    /// The file could not be opened.
    Open { path: String, source: std::io::Error },
    /// The CSV header could not be read.
    ReadHeader { path: String },
    /// A required column is absent.
    MissingColumn { path: String, column: &'static str },
    /// A field holds no usable value.
    InvalidField { path: String, row: usize, column: &'static str, value: String },
}

/// Whether the catalog at `path` is gzip-compressed: its extension is `gz`
/// in any ASCII case.
pub fn is_gzip_path(path: &str) -> (r: bool)
    ensures
        r == (lower_extension(path@) == Some("gz"@)),
{
    match extension_of(path) {
        Some(e) => {
            proof {
                reveal_strlit("gz");
                assert(lower_seq("gz"@) =~= "gz"@);
            }
            eq_ignore_ascii_case(e.as_str(), "gz")
        },
        None => false,
    }
}

/// Header names as the catalog reader compares them: trimmed and
/// ASCII-lowercased.
pub fn header_names(headers: &[String]) -> (names: Vec<String>)
    ensures
        names@.len() == headers@.len(),
        forall|i: int|
            0 <= i < names@.len() ==> #[trigger] names@[i]@ == lower_seq(trim_seq(headers@[i]@)),
{
    let mut names: Vec<String> = Vec::new();
    let mut i: usize = 0;
    while i < headers.len()
        invariant
            i <= headers@.len(),
            names@.len() == i,
            forall|j: int|
                0 <= j < i ==> #[trigger] names@[j]@ == lower_seq(trim_seq(headers@[j]@)),
        decreases headers.len() - i,
    {
        let t = trim(headers[i].as_str());
        names.push(to_ascii_lowercase(t.as_str()));
        i = i + 1;
    }
    names
}

/// First index at or after `i` whose name is exactly `c`.
pub open spec fn position_from(names: Seq<Seq<char>>, c: Seq<char>, i: int) -> Option<int>
    decreases names.len() - i,
{
    if i < 0 || i >= names.len() {
        None
    } else if names[i] == c {
        Some(i)
    } else {
        position_from(names, c, i + 1)
    }
}

/// Character sequences of a list of strings.
pub open spec fn name_views(v: Seq<String>) -> Seq<Seq<char>> {
    v.map_values(|s: String| s@)
}

/// Index of the first column named exactly `column`.
pub fn find_column(names: &[String], column: &str) -> (r: Option<usize>)
    ensures
        match r {
            Some(i) => position_from(name_views(names@), column@, 0) == Some(i as int),
            None => position_from(name_views(names@), column@, 0) is None,
        },
{
    let ghost ns = name_views(names@);
    let mut i: usize = 0;
    while i < names.len()
        invariant
            i <= names@.len(),
            ns == name_views(names@),
            position_from(ns, column@, 0) == position_from(ns, column@, i as int),
        decreases names.len() - i,
    {
        if str_eq(names[i].as_str(), column) {
            return Some(i);
        }
        i = i + 1;
    }
    None
}

/// The trimmed field at `index`, when the record has it and it is not empty.
pub open spec fn field_text(record: Seq<String>, index: int) -> Option<Seq<char>> {
    if 0 <= index < record.len() && trim_seq(record[index]@).len() > 0 {
        Some(trim_seq(record[index]@))
    } else {
        None
    }
}

/// The trimmed, non-empty field at `index` of a record.
pub fn field_value(record: &[String], index: usize) -> (r: Option<String>)
    ensures
        match r {
            Some(v) => field_text(record@, index as int) == Some(v@),
            None => field_text(record@, index as int) is None,
        },
{
    if index < record.len() {
        let t = trim(record[index].as_str());
        if t.as_str().unicode_len() > 0 {
            return Some(t);
        }
    }
    None
}

/// The field at `index` as an owned string, when present and not empty.
pub fn parse_optional_string(record: &[String], index: usize) -> (r: Option<String>)
    ensures
        match r {
            Some(v) => field_text(record@, index as int) == Some(v@),
            None => field_text(record@, index as int) is None,
        },
{
    field_value(record, index)
}

/// The field at `index` read as a `u32`, when present and well-formed.
pub fn parse_u32_optional(record: &[String], index: usize) -> (r: Option<u32>)
    ensures
        r == (match field_text(record@, index as int) {
            Some(t) => parse_u32_seq(t),
            None => None,
        }),
{
    match field_value(record, index) {
        Some(v) => parse_u32(v.as_str()),
        None => None,
    }
}

/// The field at `index` read as a `u32`; an absent, empty or malformed field
/// is an `InvalidField` error naming `path`, `row` and `column`, with the
/// trimmed text as its value (empty when absent).
pub fn parse_u32_field(record: &[String], index: usize, path: &str, row: usize, column: &'static str) -> (r: Result<u32, CatalogError>)
    ensures
        match field_text(record@, index as int) {
            None => (r matches Err(CatalogError::InvalidField { path: p, row: rw, column: c, value: v })
                && p@ == path@ && rw == row && c == column && v@.len() == 0),
            Some(t) => match parse_u32_seq(t) {
                Some(n) => r matches Ok(m) && m == n,
                None => (r matches Err(CatalogError::InvalidField { path: p, row: rw, column: c, value: v })
                    && p@ == path@ && rw == row && c == column && v@ == t),
            },
        },
{
    match field_value(record, index) {
        None => Err(CatalogError::InvalidField {
            path: path.to_string(),
            row,
            column,
            value: String::new(),
        }),
        Some(v) => match parse_u32(v.as_str()) {
            Some(n) => Ok(n),
            None => Err(CatalogError::InvalidField { path: path.to_string(), row, column, value: v }),
        },
    }
}

/// Column layout of a catalog file.
#[derive(Debug, Clone, Copy, PartialEq, Eq, Structural)]
pub struct CatalogColumns {
    pub id: usize,
    pub hip: Option<usize>,
    pub proper: Option<usize>,
    pub ra: usize,
    pub dec: usize,
    pub mag: usize,
    pub rarad: Option<usize>,
    pub decrad: Option<usize>,
    pub con: Option<usize>,
    pub pmrarad: Option<usize>,
    pub pmdecrad: Option<usize>,
}

/// Column of `c` among `names`, as an optional machine index.
pub open spec fn column_of(names: Seq<String>, c: Seq<char>) -> Option<int> {
    position_from(name_views(names), c, 0)
}

/// An optional machine index as an optional integer.
pub open spec fn opt_index(o: Option<usize>) -> Option<int> {
    match o {
        Some(i) => Some(i as int),
        None => None,
    }
}

/// `r` is the `MissingColumn` error for `column` of the catalog at `path`.
pub open spec fn missing_column(r: Result<CatalogColumns, CatalogError>, path: Seq<char>, column: Seq<char>) -> bool {
    r matches Err(CatalogError::MissingColumn { path: p, column: c }) && p@ == path && c@ == column
}

/// Resolves the columns of a catalog from its (trimmed, lower-cased) header
/// names: `id`, `ra`, `dec` and `mag` are required, checked in that order;
/// `hip`, `proper`, `rarad`, `decrad`, `con`, `pmrarad` and `pmdecrad` are
/// optional.
pub fn catalog_columns(names: &[String], path: &str) -> (r: Result<CatalogColumns, CatalogError>)
    ensures
        column_of(names@, "id"@) is None ==> missing_column(r, path@, "id"@),
        column_of(names@, "id"@) is Some && column_of(names@, "ra"@) is None ==> missing_column(
            r,
            path@,
            "ra"@,
        ),
        column_of(names@, "id"@) is Some && column_of(names@, "ra"@) is Some && column_of(
            names@,
            "dec"@,
        ) is None ==> missing_column(r, path@, "dec"@),
        column_of(names@, "id"@) is Some && column_of(names@, "ra"@) is Some && column_of(
            names@,
            "dec"@,
        ) is Some && column_of(names@, "mag"@) is None ==> missing_column(r, path@, "mag"@),
        r is Ok <==> (column_of(names@, "id"@) is Some && column_of(names@, "ra"@) is Some
            && column_of(names@, "dec"@) is Some && column_of(names@, "mag"@) is Some),
        r matches Ok(c) ==> {
            &&& column_of(names@, "id"@) == Some(c.id as int)
            &&& column_of(names@, "ra"@) == Some(c.ra as int)
            &&& column_of(names@, "dec"@) == Some(c.dec as int)
            &&& column_of(names@, "mag"@) == Some(c.mag as int)
            &&& column_of(names@, "hip"@) == opt_index(c.hip)
            &&& column_of(names@, "proper"@) == opt_index(c.proper)
            &&& column_of(names@, "rarad"@) == opt_index(c.rarad)
            &&& column_of(names@, "decrad"@) == opt_index(c.decrad)
            &&& column_of(names@, "con"@) == opt_index(c.con)
            &&& column_of(names@, "pmrarad"@) == opt_index(c.pmrarad)
            &&& column_of(names@, "pmdecrad"@) == opt_index(c.pmdecrad)
        },
{
    proof {
        reveal_strlit("id");
        reveal_strlit("ra");
        reveal_strlit("dec");
        reveal_strlit("mag");
    }
    let id = match find_column(names, "id") {
        Some(i) => i,
        None => return Err(CatalogError::MissingColumn { path: path.to_string(), column: "id" }),
    };
    let hip = find_column(names, "hip");
    let proper = find_column(names, "proper");
    let ra = match find_column(names, "ra") {
        Some(i) => i,
        None => return Err(CatalogError::MissingColumn { path: path.to_string(), column: "ra" }),
    };
    let dec = match find_column(names, "dec") {
        Some(i) => i,
        None => return Err(CatalogError::MissingColumn { path: path.to_string(), column: "dec" }),
    };
    let mag = match find_column(names, "mag") {
        Some(i) => i,
        None => return Err(CatalogError::MissingColumn { path: path.to_string(), column: "mag" }),
    };
    let rarad = find_column(names, "rarad");
    let decrad = find_column(names, "decrad");
    let con = find_column(names, "con");
    let pmrarad = find_column(names, "pmrarad");
    let pmdecrad = find_column(names, "pmdecrad");
    Ok(CatalogColumns { id, hip, proper, ra, dec, mag, rarad, decrad, con, pmrarad, pmdecrad })
}

} // verus!
