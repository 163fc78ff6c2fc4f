//! Header and field handling for HYG-style star catalogs read as CSV: column
//! lookup, field clean-up, integer fields and the column layout of a file.

use vstd::prelude::*;

use crate::text::{
    chars_of, eq_ignore_ascii_case, eq_ignore_case_seq, lower_seq, parse_u32, parse_u32_seq,
    str_eq, string_from_chars, to_ascii_lowercase, trim, trim_seq,
};

verus! {

// ---------------------------------------------------------------------------
// Column lookup
// ---------------------------------------------------------------------------

/// First index at or after `i` whose header equals `c` ignoring ASCII case.
pub open spec fn position_ci_from(headers: Seq<Seq<char>>, c: Seq<char>, i: int) -> Option<int>
    decreases headers.len() - i,
{
    if i < 0 || i >= headers.len() {
        None
    } else if eq_ignore_case_seq(headers[i], c) {
        Some(i)
    } else {
        position_ci_from(headers, c, i + 1)
    }
}

/// Column of the first candidate name present (ignoring ASCII case): the
/// candidates are tried in order, and for each the first matching header wins.
pub open spec fn find_any_ci(headers: Seq<Seq<char>>, cands: Seq<Seq<char>>) -> Option<int>
    decreases cands.len(),
{
    if cands.len() == 0 {
        None
    } else {
        match position_ci_from(headers, cands[0], 0) {
            Some(i) => Some(i),
            None => find_any_ci(headers, cands.drop_first()),
        }
    }
}

/// Character sequences of a list of strings.
pub open spec fn views_of(v: Seq<String>) -> Seq<Seq<char>> {
    v.map_values(|s: String| s@)
}

/// Character sequences of a list of string slices.
pub open spec fn str_views(v: Seq<&str>) -> Seq<Seq<char>> {
    v.map_values(|s: &str| s@)
}

fn position_ignore_case(headers: &[String], candidate: &str) -> (r: Option<usize>)
    ensures
        match r {
            Some(i) => position_ci_from(views_of(headers@), candidate@, 0) == Some(i as int),
            None => position_ci_from(views_of(headers@), candidate@, 0) is None,
        },
{
    let ghost hs = views_of(headers@);
    let mut i: usize = 0;
    while i < headers.len()
        invariant
            i <= headers@.len(),
            hs == views_of(headers@),
            position_ci_from(hs, candidate@, 0) == position_ci_from(hs, candidate@, i as int),
        decreases headers.len() - i,
    {
        if eq_ignore_ascii_case(headers[i].as_str(), candidate) {
            return Some(i);
        }
        i = i + 1;
    }
    None
}

/// Index of the first column named like any candidate (ignoring ASCII case),
/// trying the candidates in order.
pub fn find_column_index_optional(headers: &[String], candidates: &[&str]) -> (r: Option<usize>)
    ensures
        match r {
            Some(i) => find_any_ci(views_of(headers@), str_views(candidates@)) == Some(i as int),
            None => find_any_ci(views_of(headers@), str_views(candidates@)) is None,
        },
{
    let ghost cs = str_views(candidates@);
    let mut k: usize = 0;
    assert(cs.subrange(0, cs.len() as int) =~= cs);
    while k < candidates.len()
        invariant
            k <= candidates@.len(),
            cs == str_views(candidates@),
            find_any_ci(views_of(headers@), cs) == find_any_ci(
                views_of(headers@),
                cs.subrange(k as int, cs.len() as int),
            ),
        decreases candidates.len() - k,
    {
        let ghost rest = cs.subrange(k as int, cs.len() as int);
        assert(rest[0] == candidates@[k as int]@);
        assert(rest.drop_first() =~= cs.subrange(k + 1, cs.len() as int));
        if let Some(idx) = position_ignore_case(headers, candidates[k]) {
            return Some(idx);
        }
        k = k + 1;
    }
    None
}

// ---------------------------------------------------------------------------
// Simulator catalog files
// ---------------------------------------------------------------------------

/// Problems reading the simulator's star catalog.
#[derive(Debug, Clone, PartialEq, Eq)]
pub enum CatalogError {
    /// The configured CSV file does not exist.
    MissingCatalogFile { path: String },
    /// A required column is absent.
    MissingColumn { column: &'static str },
    /// A numeric field could not be read.
    InvalidFloat { row: usize, column: &'static str, value: String },
}

/// Like [`find_column_index_optional`], but a missing column is an error
/// naming the first candidate.
pub fn find_column_index(headers: &[String], candidates: &[&'static str]) -> (r: Result<usize, CatalogError>)
    requires
        candidates@.len() > 0,
    ensures
        match find_any_ci(views_of(headers@), str_views(candidates@)) {
            Some(i) => (r matches Ok(k) && k as int == i),
            None => (r matches Err(CatalogError::MissingColumn { column }) && column@ == candidates@[0]@),
        },
{
    match find_column_index_optional(headers, candidates) {
        Some(i) => Ok(i),
        None => Err(CatalogError::MissingColumn { column: candidates[0] }),
    }
}

/// `s` without the byte-order marks (U+FEFF) it starts with.
pub open spec fn strip_leading_bom(s: Seq<char>) -> Seq<char>
    decreases s.len(),
{
    if s.len() > 0 && s[0] == '\u{feff}' {
        strip_leading_bom(s.drop_first())
    } else {
        s
    }
}

/// A header name as the simulator reads it: trimmed, then leading
/// byte-order marks removed.
pub open spec fn sim_header_name(h: Seq<char>) -> Seq<char> {
    strip_leading_bom(trim_seq(h))
}

fn strip_bom(cs: &[char]) -> (v: Vec<char>)
    ensures
        v@ == strip_leading_bom(cs@),
{
    let mut i: usize = 0;
    assert(cs@.subrange(0, cs@.len() as int) =~= cs@);
    while i < cs.len() && cs[i] == '\u{feff}'
        invariant
            i <= cs@.len(),
            strip_leading_bom(cs@) == strip_leading_bom(cs@.subrange(i as int, cs@.len() as int)),
        decreases cs.len() - i,
    {
        let ghost rest = cs@.subrange(i as int, cs@.len() as int);
        assert(rest.drop_first() =~= cs@.subrange(i + 1, cs@.len() as int));
        i = i + 1;
    }
    let mut v: Vec<char> = Vec::new();
    let mut p: usize = i;
    while p < cs.len()
        invariant
            i <= p <= cs@.len(),
            v@ == cs@.subrange(i as int, p as int),
        decreases cs.len() - p,
    {
        v.push(cs[p]);
        p = p + 1;
        assert(v@ =~= cs@.subrange(i as int, p as int));
    }
    v
}

/// Header names as the simulator reads them.
pub fn header_field_names(headers: &[String]) -> (names: Vec<String>)
    ensures
        names@.len() == headers@.len(),
        forall|i: int| 0 <= i < names@.len() ==> #[trigger] names@[i]@ == sim_header_name(headers@[i]@),
{
    let mut names: Vec<String> = Vec::new();
    let mut i: usize = 0;
    while i < headers.len()
        invariant
            i <= headers@.len(),
            names@.len() == i,
            forall|j: int| 0 <= j < i ==> #[trigger] names@[j]@ == sim_header_name(headers@[j]@),
        decreases headers.len() - i,
    {
        let t = trim(headers[i].as_str());
        let s = strip_bom(chars_of(t.as_str()).as_slice());
        names.push(string_from_chars(s.as_slice()));
        i = i + 1;
    }
    names
}

/// The trimmed field at `idx`, or empty when the row is shorter.
pub open spec fn field_or_empty(row: Seq<String>, idx: int) -> Seq<char> {
    if 0 <= idx < row.len() {
        trim_seq(row[idx]@)
    } else {
        Seq::empty()
    }
}

/// The trimmed field at `idx`, or an empty string when the row is shorter.
pub fn parse_string(row: &[String], idx: usize) -> (r: String)
    ensures
        r@ == field_or_empty(row@, idx as int),
{
    if idx < row.len() {
        trim(row[idx].as_str())
    } else {
        String::new()
    }
}

/// Identifier of a simulator catalog row: the id field, or the `hip` field
/// when the id is empty; rows whose identifier stays empty are skipped.
pub open spec fn sim_row_id(row: Seq<String>, idx_id: int, idx_hip: Option<int>) -> Seq<char> {
    let id = field_or_empty(row, idx_id);
    if id.len() == 0 {
        match idx_hip {
            Some(h) => field_or_empty(row, h),
            None => id,
        }
    } else {
        id
    }
}

/// The identifier of a simulator catalog row.
pub fn row_star_id(row: &[String], idx_id: usize, idx_hip: Option<usize>) -> (r: String)
    ensures
        r@ == sim_row_id(row@, idx_id as int, match idx_hip {
            Some(h) => Some(h as int),
            None => None,
        }),
{
    let id = parse_string(row, idx_id);
    if chars_of(id.as_str()).len() == 0 {
        if let Some(ih) = idx_hip {
            return parse_string(row, ih);
        }
    }
    id
}

/// Column layout of a simulator catalog file.
#[derive(Debug, Clone, Copy, PartialEq, Eq, Structural)]
pub struct HygColumns {
    pub id: usize,
    pub hip: Option<usize>,
    pub ra: usize,
    pub dec: usize,
    pub mag: usize,
    pub rarad: Option<usize>,
    pub decrad: Option<usize>,
}

/// Optional index as an integer option.
pub open spec fn opt_int(o: Option<usize>) -> Option<int> {
    match o {
        Some(i) => Some(i as int),
        None => None,
    }
}

/// Resolves the columns of a simulator catalog: `id`/`star_id`/`hip`,
/// `ra`/`ra_deg`, `dec`/`dec_deg` and `mag`/`mag_v` are required (checked in
/// that order), `hip`, `rarad` and `decrad` are optional.
pub fn resolve_hyg_columns(names: &[String]) -> (r: Result<HygColumns, CatalogError>)
    ensures
        ({
            let hs = views_of(names@);
            let id = find_any_ci(hs, seq!["id"@, "star_id"@, "hip"@]);
            let ra = find_any_ci(hs, seq!["ra"@, "ra_deg"@]);
            let dec = find_any_ci(hs, seq!["dec"@, "dec_deg"@]);
            let mag = find_any_ci(hs, seq!["mag"@, "mag_v"@]);
            if id is None {
                r matches Err(CatalogError::MissingColumn { column }) && column@ == "id"@
            } else if ra is None {
                r matches Err(CatalogError::MissingColumn { column }) && column@ == "ra"@
            } else if dec is None {
                r matches Err(CatalogError::MissingColumn { column }) && column@ == "dec"@
            } else if mag is None {
                r matches Err(CatalogError::MissingColumn { column }) && column@ == "mag"@
            } else {
                r matches Ok(c) && Some(c.id as int) == id && Some(c.ra as int) == ra && Some(
                    c.dec as int,
                ) == dec && Some(c.mag as int) == mag && opt_int(c.hip) == find_any_ci(
                    hs,
                    seq!["hip"@],
                ) && opt_int(c.rarad) == find_any_ci(hs, seq!["rarad"@]) && opt_int(c.decrad)
                    == find_any_ci(hs, seq!["decrad"@])
            }
        }),
{
    let id_c: [&'static str; 3] = ["id", "star_id", "hip"];
    let hip_c: [&'static str; 1] = ["hip"];
    let ra_c: [&'static str; 2] = ["ra", "ra_deg"];
    let dec_c: [&'static str; 2] = ["dec", "dec_deg"];
    let mag_c: [&'static str; 2] = ["mag", "mag_v"];
    let rarad_c: [&'static str; 1] = ["rarad"];
    let decrad_c: [&'static str; 1] = ["decrad"];
    assert(str_views(id_c@) =~= seq!["id"@, "star_id"@, "hip"@]);
    assert(str_views(hip_c@) =~= seq!["hip"@]);
    assert(str_views(ra_c@) =~= seq!["ra"@, "ra_deg"@]);
    assert(str_views(dec_c@) =~= seq!["dec"@, "dec_deg"@]);
    assert(str_views(mag_c@) =~= seq!["mag"@, "mag_v"@]);
    assert(str_views(rarad_c@) =~= seq!["rarad"@]);
    assert(str_views(decrad_c@) =~= seq!["decrad"@]);
    proof {
        reveal_strlit("id");
        reveal_strlit("ra");
        reveal_strlit("dec");
        reveal_strlit("mag");
    }
    let id = match find_column_index(names, id_c.as_slice()) {
        Ok(i) => i,
        Err(e) => return Err(e),
    };
    let hip = find_column_index_optional(names, hip_c.as_slice());
    let ra = match find_column_index(names, ra_c.as_slice()) {
        Ok(i) => i,
        Err(e) => return Err(e),
    };
    let dec = match find_column_index(names, dec_c.as_slice()) {
        Ok(i) => i,
        Err(e) => return Err(e),
    };
    let mag = match find_column_index(names, mag_c.as_slice()) {
        Ok(i) => i,
        Err(e) => return Err(e),
    };
    let rarad = find_column_index_optional(names, rarad_c.as_slice());
    let decrad = find_column_index_optional(names, decrad_c.as_slice());
    Ok(HygColumns { id, hip, ra, dec, mag, rarad, decrad })
}

} // verus!
