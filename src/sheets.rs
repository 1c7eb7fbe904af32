//! Rows of the input sheet: the export URL of a shared spreadsheet, the
//! column that holds websites, and the rows read from its CSV export.
use vstd::prelude::*;

use crate::email::{capture_group_one, regex_group_one};
use crate::text::{ascii_lower, contains_str, has_infix, to_ascii_lower, trim, trim_str};

verus! {

/// One input row: its identifier and the website it names, if any.
#[derive(Clone, Debug)]
pub struct SheetRow {
    pub unique_id: String,
    pub website: Option<String>,
}

/// A header names the website column.
pub open spec fn names_website(h: Seq<char>) -> bool {
    let l = ascii_lower(h);
    has_infix(l, "website"@) || has_infix(l, "url"@) || has_infix(l, "site"@) || has_infix(
        l,
        "website url"@,
    ) || has_infix(l, "web site"@) || has_infix(l, "homepage"@) || has_infix(l, "home page"@)
}

fn header_names_website(h: &str) -> (r: bool)
    ensures
        r == names_website(h@),
{
    let l = to_ascii_lower(h);
    let s = l.as_str();
    contains_str(s, "website") || contains_str(s, "url") || contains_str(s, "site") || contains_str(
        s,
        "website url",
    ) || contains_str(s, "web site") || contains_str(s, "homepage") || contains_str(s, "home page")
}

/// The first column whose header names the website, if any.
pub fn detect_website_column(headers: &Vec<String>) -> (r: Option<usize>)
    ensures
        r matches Some(i) ==> i < headers@.len() && names_website(headers@[i as int]@),
        r matches Some(i) ==> forall|k: int| 0 <= k < i ==> !names_website(#[trigger] headers@[k]@),
        r is None ==> forall|k: int| 0 <= k < headers@.len() ==> !names_website(#[trigger] headers@[k]@),
{
    let mut i: usize = 0;
    while i < headers.len()
        invariant
            i <= headers@.len(),
            forall|k: int| 0 <= k < i ==> !names_website(#[trigger] headers@[k]@),
        decreases headers.len() - i,
    {
        if header_names_website(headers[i].as_str()) {
            return Some(i);
        }
        i = i + 1;
    }
    None
}

/// Finds `/spreadsheets/d/<id>` in a sheet URL.
pub const SPREADSHEET_ID_PATTERN: &'static str = r"/spreadsheets/d/([a-zA-Z0-9-_]+)";

/// Finds `gid=<digits>` after the query or fragment mark.
pub const GID_PATTERN: &'static str = r"[?#].*?gid=([0-9]+)";

/// Group one of the first match of `pattern` in `text`.
pub open spec fn first_capture(pattern: Seq<char>, text: Seq<char>) -> Option<Seq<char>> {
    match regex_group_one(pattern, text) {
        Some(ms) => if ms.len() > 0 {
            Some(ms[0])
        } else {
            None
        },
        None => None,
    }
}

fn first_match(pattern: &str, text: &str) -> (r: Option<String>)
    ensures
        crate::site::opt_seq(r) == first_capture(pattern@, text@),
{
    match capture_group_one(pattern, text) {
        Some(mut ms) => if ms.len() > 0 {
            Some(ms.swap_remove(0))
        } else {
            None
        },
        None => None,
    }
}

/// The spreadsheet's identifier in its share URL.
pub fn extract_spreadsheet_id(url: &str) -> (r: Option<String>)
    ensures
        crate::site::opt_seq(r) == first_capture(SPREADSHEET_ID_PATTERN@, url@),
{
    first_match(SPREADSHEET_ID_PATTERN, url)
}

/// The sheet's `gid` in its share URL.
pub fn extract_gid(url: &str) -> (r: Option<String>)
    ensures
        crate::site::opt_seq(r) == first_capture(GID_PATTERN@, url@),
{
    first_match(GID_PATTERN, url)
}

/// The CSV export URL of a shared sheet, or `None` where its URL holds no
/// spreadsheet identifier.
pub open spec fn export_url_of(sheet_url: Seq<char>) -> Option<Seq<char>> {
    match first_capture(SPREADSHEET_ID_PATTERN@, sheet_url) {
        Some(id) => {
            let base = "https://docs.google.com/spreadsheets/d/"@ + id + "/gviz/tq?tqx=out:csv"@;
            match first_capture(GID_PATTERN@, sheet_url) {
                Some(g) => Some(base + "&gid="@ + g),
                None => Some(base),
            }
        },
        None => None,
    }
}

/// The CSV export URL of a shared sheet.
pub fn export_url(sheet_url: &str) -> (r: Option<String>)
    ensures
        crate::site::opt_seq(r) == export_url_of(sheet_url@),
{
    let id = match extract_spreadsheet_id(sheet_url) {
        Some(id) => id,
        None => return None,
    };
    let base = String::from_str("https://docs.google.com/spreadsheets/d/").concat(id.as_str()).concat(
        "/gviz/tq?tqx=out:csv",
    );
    match extract_gid(sheet_url) {
        Some(g) => Some(base.concat("&gid=").concat(g.as_str())),
        None => Some(base),
    }
}

/// A header row and the records of a CSV document, each a list of fields.
pub uninterp spec fn csv_table(data: Seq<u8>) -> Option<(Seq<Seq<char>>, Seq<Seq<Seq<char>>>)>;

pub open spec fn table_view(t: Option<(Vec<String>, Vec<Vec<String>>)>) -> Option<(Seq<Seq<char>>, Seq<Seq<Seq<char>>>)> {
    match t {
        Some((h, rs)) => Some((crate::email::views(h@), rs@.map_values(|r: Vec<String>| crate::email::views(r@)))),
        None => None,
    }
}

/// Relies on csv::Reader (from_reader, headers, records): the header row
/// (empty where it cannot be read) and every record, or `None` where a
/// record cannot be read.
#[verifier::external_body]
fn read_csv(data: &[u8]) -> (r: Option<(Vec<String>, Vec<Vec<String>>)>)
    ensures
        table_view(r) == csv_table(data@),
{
    let mut rdr = csv::Reader::from_reader(data);
    let headers: Vec<String> = rdr.headers().map(|h| h.iter().map(String::from).collect()).unwrap_or_default();
    let records: Result<Vec<Vec<String>>, csv::Error> =
        rdr.records().map(|r| r.map(|rec| rec.iter().map(String::from).collect())).collect();
    records.ok().map(|rs| (headers, rs))
}

/// The row that a record gives, if its identifier is not blank: the first
/// field is the identifier, the website column's field (where there is
/// one and it is not blank) the website.
pub open spec fn row_of(col: Option<usize>, rec: Seq<Seq<char>>) -> Option<(Seq<char>, Option<Seq<char>>)> {
    let id = if rec.len() > 0 {
        rec[0]
    } else {
        Seq::empty()
    };
    let website = match col {
        Some(i) => if i < rec.len() && trim(rec[i as int]).len() > 0 {
            Some(rec[i as int])
        } else {
            None
        },
        None => None,
    };
    if trim(id).len() == 0 {
        None
    } else {
        Some((id, website))
    }
}

/// The rows that the records give, in order.
pub open spec fn rows_of(col: Option<usize>, recs: Seq<Seq<Seq<char>>>) -> Seq<(Seq<char>, Option<Seq<char>>)>
    decreases recs.len(),
{
    if recs.len() == 0 {
        Seq::empty()
    } else {
        let prev = rows_of(col, recs.drop_last());
        match row_of(col, recs.last()) {
            Some(r) => prev.push(r),
            None => prev,
        }
    }
}

pub open spec fn row_view(r: SheetRow) -> (Seq<char>, Option<Seq<char>>) {
    (r.unique_id@, crate::site::opt_seq(r.website))
}

/// The rows that a sheet's header and records give.
pub fn rows_from_table(headers: &Vec<String>, records: &Vec<Vec<String>>) -> (r: Vec<SheetRow>)
    ensures
        r@.map_values(|x: SheetRow| row_view(x)) == rows_of(
            spec_website_column(crate::email::views(headers@)),
            records@.map_values(|v: Vec<String>| crate::email::views(v@)),
        ),
{
    let col = detect_website_column(headers);
    proof {
        lemma_column_is_spec(headers, col);
    }
    let ghost recs = records@.map_values(|v: Vec<String>| crate::email::views(v@));
    let mut out: Vec<SheetRow> = Vec::new();
    let mut i: usize = 0;
    while i < records.len()
        invariant
            i <= records@.len(),
            recs == records@.map_values(|v: Vec<String>| crate::email::views(v@)),
            col == spec_website_column(crate::email::views(headers@)),
            out@.map_values(|x: SheetRow| row_view(x)) == rows_of(col, recs.take(i as int)),
        decreases records.len() - i,
    {
        let rec = &records[i];
        assert(recs.take(i + 1).drop_last() == recs.take(i as int));
        assert(recs.take(i + 1).last() == crate::email::views(rec@));
        let ghost rv = crate::email::views(rec@);
        let unique_id = if rec.len() > 0 {
            rec[0].clone()
        } else {
            String::new()
        };
        assert(rec.len() > 0 ==> rv[0] == rec@[0]@);
        let website = match col {
            Some(c) => if c < rec.len() && trim_str(rec[c].as_str()).unicode_len() > 0 {
                assert(rv[c as int] == rec@[c as int]@);
                Some(rec[c].clone())
            } else {
                None
            },
            None => None,
        };
        if trim_str(unique_id.as_str()).unicode_len() > 0 {
            let ghost before = out@;
            out.push(SheetRow { unique_id, website });
            assert(out@.map_values(|x: SheetRow| row_view(x)) =~= before.map_values(|x: SheetRow| row_view(x)).push(
                row_of(col, rv)->0,
            ));
        }
        i = i + 1;
    }
    assert(recs.take(records.len() as int) =~= recs);
    out
}

/// The first column whose header names the website.
pub open spec fn spec_website_column(headers: Seq<Seq<char>>) -> Option<usize> {
    if exists|i: int| 0 <= i < headers.len() && names_website(#[trigger] headers[i]) {
        let i = choose|i: int|
            0 <= i < headers.len() && names_website(#[trigger] headers[i]) && forall|k: int|
                0 <= k < i ==> !names_website(#[trigger] headers[k]);
        Some(i as usize)
    } else {
        None
    }
}

proof fn lemma_column_is_spec(headers: &Vec<String>, col: Option<usize>)
    requires
        col matches Some(i) ==> i < headers@.len() && names_website(headers@[i as int]@),
        col matches Some(i) ==> forall|k: int| 0 <= k < i ==> !names_website(#[trigger] headers@[k]@),
        col is None ==> forall|k: int| 0 <= k < headers@.len() ==> !names_website(#[trigger] headers@[k]@),
    ensures
        col == spec_website_column(crate::email::views(headers@)),
{
    let hv = crate::email::views(headers@);
    assert forall|k: int| 0 <= k < hv.len() implies hv[k] == headers@[k]@ by {}
    if let Some(i) = col {
        assert(names_website(hv[i as int]));
        let j = choose|j: int|
            0 <= j < hv.len() && names_website(#[trigger] hv[j]) && forall|k: int|
                0 <= k < j ==> !names_website(#[trigger] hv[k]);
        if j < i {
            assert(!names_website(headers@[j]@));
        }
        if i < j {
            assert(!names_website(hv[i as int]));
        }
    } else {
        if exists|i: int| 0 <= i < hv.len() && names_website(#[trigger] hv[i]) {
            let i = choose|i: int| 0 <= i < hv.len() && names_website(#[trigger] hv[i]);
            assert(!names_website(headers@[i]@));
        }
    }
}

/// The rows that a parsed table gives.
pub open spec fn sheet_rows(t: Option<(Seq<Seq<char>>, Seq<Seq<Seq<char>>>)>) -> Option<Seq<(Seq<char>, Option<Seq<char>>)>> {
    match t {
        Some((h, recs)) => Some(rows_of(spec_website_column(h), recs)),
        None => None,
    }
}

/// The rows of a sheet's CSV export, or `None` where it cannot be read.
pub fn rows_from_csv(data: &[u8]) -> (r: Option<Vec<SheetRow>>)
    ensures
        r is Some <==> csv_table(data@) is Some,
        r matches Some(rows) ==> sheet_rows(csv_table(data@)) == Some(
            rows@.map_values(|x: SheetRow| row_view(x)),
        ),
{
    match read_csv(data) {
        Some((headers, records)) => Some(rows_from_table(&headers, &records)),
        None => None,
    }
}

} // verus!
