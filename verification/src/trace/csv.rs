//! Fields of a CSV trace record into a request.
//!
//! Columns: timestamp, obj_id, obj_size, then optionally operation, tenant_id, ttl
//! and next_access_vtime.  The three first are required; an optional field that is
//! absent or does not parse is left out (the operation reads as `Get`).
use vstd::prelude::*;

use super::{TraceError, TraceReader};
use crate::request::{Operation, Request};

verus! {

/// The value of a text of decimal digits.
pub open spec fn digits_value(s: Seq<char>) -> int
    decreases s.len(),
{
    if s.len() == 0 {
        0
    } else {
        digits_value(s.drop_last()) * 10 + (s.last() as int - '0' as int)
    }
}

/// One or more decimal digits and nothing else.
pub open spec fn all_digits(s: Seq<char>) -> bool {
    s.len() > 0 && forall|i: int| 0 <= i < s.len() ==> '0' <= #[trigger] s[i] <= '9'
}

/// The integer a text names as std's integer parsing reads it: an optional `+` sign
/// (or `-`, for a signed type), then one or more decimal digits, and nothing else
/// (no spaces).
pub open spec fn text_integer(s: Seq<char>, signed: bool) -> Option<int> {
    if s.len() > 0 && s[0] == '+' {
        if all_digits(s.drop_first()) { Some(digits_value(s.drop_first())) } else { None }
    } else if signed && s.len() > 0 && s[0] == '-' {
        if all_digits(s.drop_first()) { Some(-digits_value(s.drop_first())) } else { None }
    } else if all_digits(s) {
        Some(digits_value(s))
    } else {
        None
    }
}

/// What `str::parse::<u64>` gives for a text (`None` for an error): its integer,
/// when that is in range.
pub open spec fn parsed_u64(s: Seq<char>) -> Option<u64> {
    match text_integer(s, false) {
        Some(v) => if 0 <= v <= u64::MAX { Some(v as u64) } else { None },
        None => None,
    }
}

/// What `str::parse::<u32>` gives for a text.
pub open spec fn parsed_u32(s: Seq<char>) -> Option<u32> {
    match text_integer(s, false) {
        Some(v) => if 0 <= v <= u32::MAX { Some(v as u32) } else { None },
        None => None,
    }
}

/// What `str::parse::<i32>` gives for a text.
pub open spec fn parsed_i32(s: Seq<char>) -> Option<i32> {
    match text_integer(s, true) {
        Some(v) => if i32::MIN <= v <= i32::MAX { Some(v as i32) } else { None },
        None => None,
    }
}

/// What `str::parse::<i64>` gives for a text.
pub open spec fn parsed_i64(s: Seq<char>) -> Option<i64> {
    match text_integer(s, true) {
        Some(v) => if i64::MIN <= v <= i64::MAX { Some(v as i64) } else { None },
        None => None,
    }
}

/// What `str::to_lowercase` gives for a text.
pub uninterp spec fn lowercase(s: Seq<char>) -> Seq<char>;

/// Every character of `s` is ASCII.
pub open spec fn is_ascii_text(s: Seq<char>) -> bool {
    forall|i: int| 0 <= i < s.len() ==> (#[trigger] s[i] as u32) < 128
}

/// `s` with the ASCII capitals `A` to `Z` turned into `a` to `z`.
pub open spec fn ascii_lowercase(s: Seq<char>) -> Seq<char> {
    Seq::new(s.len(), |i: int| if 'A' <= s[i] <= 'Z' { ((s[i] as u32) + 32) as char } else { s[i] })
}

/// Calls `str::parse::<u64>`, which std documents as accepting an optional `+`
/// followed by decimal digits only, and failing out of range.
#[verifier::external_body]
fn parse_u64(s: &str) -> (r: Option<u64>)
    ensures
        r == parsed_u64(s@),
{
    s.parse().ok()
}

/// Calls `str::parse::<u32>` (as `parse_u64`, within the range of `u32`).
#[verifier::external_body]
fn parse_u32(s: &str) -> (r: Option<u32>)
    ensures
        r == parsed_u32(s@),
{
    s.parse().ok()
}

/// Calls `str::parse::<i32>`, which std documents as accepting an optional `+` or
/// `-` followed by decimal digits only, and failing out of range.
#[verifier::external_body]
fn parse_i32(s: &str) -> (r: Option<i32>)
    ensures
        r == parsed_i32(s@),
{
    s.parse().ok()
}

/// Calls `str::parse::<i64>` (as `parse_i32`, within the range of `i64`).
#[verifier::external_body]
fn parse_i64(s: &str) -> (r: Option<i64>)
    ensures
        r == parsed_i64(s@),
{
    s.parse().ok()
}

/// Calls `str::to_lowercase`; the lower-case mapping of Unicode is named, not
/// described, except on ASCII text, where it turns `A` to `Z` into `a` to `z` and
/// keeps every other character.
#[verifier::external_body]
fn to_lowercase(s: &str) -> (r: String)
    ensures
        r@ == lowercase(s@),
        is_ascii_text(s@) ==> r@ == ascii_lowercase(s@),
{
    s.to_lowercase()
}

/// The operation a lower-case word names; any other word reads as `Get`.
pub open spec fn op_of_word(w: Seq<char>) -> Operation {
    if w == "get"@ || w == "read"@ {
        Operation::Get
    } else if w == "set"@ || w == "write"@ {
        Operation::Write
    } else if w == "delete"@ || w == "del"@ {
        Operation::Delete
    } else if w == "add"@ {
        Operation::Add
    } else if w == "replace"@ {
        Operation::Replace
    } else {
        Operation::Get
    }
}

/// Whether `s` is the text of the literal `w`.
fn is_word(s: &String, w: &str) -> (r: bool)
    ensures
        r == (s@ == w@),
{
    *s == String::from_str(w)
}

/// Parse an operation string (case-insensitively)
pub fn parse_operation(op_str: &str) -> (op: Operation)
    ensures
        op == op_of_word(lowercase(op_str@)),
        is_ascii_text(op_str@) ==> op == op_of_word(ascii_lowercase(op_str@)),
{
    let lower = to_lowercase(op_str);
    if is_word(&lower, "get") || is_word(&lower, "read") {
        Operation::Get
    } else if is_word(&lower, "set") || is_word(&lower, "write") {
        Operation::Write
    } else if is_word(&lower, "delete") || is_word(&lower, "del") {
        Operation::Delete
    } else if is_word(&lower, "add") {
        Operation::Add
    } else if is_word(&lower, "replace") {
        Operation::Replace
    } else {
        Operation::Get  // Default
    }
}

/// The texts of a record's fields.
pub open spec fn texts(fields: Seq<String>) -> Seq<Seq<char>> {
    fields.map_values(|s: String| s@)
}

/// The record's field `i` parsed as a `u64`, if there is one and it parses.
pub open spec fn field_u64(f: Seq<Seq<char>>, i: int) -> Option<u64> {
    if i < f.len() {
        parsed_u64(f[i])
    } else {
        None
    }
}

pub open spec fn field_u32(f: Seq<Seq<char>>, i: int) -> Option<u32> {
    if i < f.len() {
        parsed_u32(f[i])
    } else {
        None
    }
}

pub open spec fn field_i32(f: Seq<Seq<char>>, i: int) -> Option<i32> {
    if i < f.len() {
        parsed_i32(f[i])
    } else {
        None
    }
}

pub open spec fn field_i64(f: Seq<Seq<char>>, i: int) -> Option<i64> {
    if i < f.len() {
        parsed_i64(f[i])
    } else {
        None
    }
}

/// The request a record's fields hold, when its three required fields parse.
pub open spec fn record_request(f: Seq<Seq<char>>) -> Request {
    Request {
        clock_time: field_u64(f, 0)->0,
        obj_id: field_u64(f, 1)->0,
        obj_size: field_u32(f, 2)->0,
        op: if 3 < f.len() {
            op_of_word(lowercase(f[3]))
        } else {
            Operation::Get
        },
        tenant_id: field_u32(f, 4),
        ttl: field_i32(f, 5),
        next_access_vtime: field_i64(f, 6),
    }
}

/// `r` is what the fields `f` of one record give: the first required field that
/// is absent or does not parse is reported missing, by its column name; else the
/// request.
pub open spec fn parsed_record(f: Seq<Seq<char>>, r: Result<Request, TraceError>) -> bool {
    &&& field_u64(f, 0) is None ==> (r matches Err(TraceError::MissingField(m)) && m@ == "timestamp"@)
    &&& field_u64(f, 0) is Some && field_u64(f, 1) is None ==> (r matches Err(TraceError::MissingField(m)) && m@ == "obj_id"@)
    &&& field_u64(f, 0) is Some && field_u64(f, 1) is Some && field_u32(f, 2) is None ==> (r matches Err(TraceError::MissingField(m)) && m@ == "obj_size"@)
    &&& field_u64(f, 0) is Some && field_u64(f, 1) is Some && field_u32(f, 2) is Some ==> r == Ok::<Request, TraceError>(record_request(f))
}

/// Turn the fields of one CSV record into a request.  The first required field
/// that is absent or does not parse is reported as missing, by its column name.
pub fn parse_record(fields: &Vec<String>) -> (r: Result<Request, TraceError>)
    ensures
        parsed_record(texts(fields@), r),
{
    let ghost f = texts(fields@);
    let n = fields.len();
    // Parse required fields
    let clock_time = match if n > 0 { parse_u64(fields[0].as_str()) } else { None } {
        Some(t) => t,
        None => return Err(TraceError::MissingField(String::from_str("timestamp"))),
    };
    let obj_id = match if n > 1 { parse_u64(fields[1].as_str()) } else { None } {
        Some(id) => id,
        None => return Err(TraceError::MissingField(String::from_str("obj_id"))),
    };
    let obj_size = match if n > 2 { parse_u32(fields[2].as_str()) } else { None } {
        Some(size) => size,
        None => return Err(TraceError::MissingField(String::from_str("obj_size"))),
    };
    // Parse optional fields
    let op = if n > 3 { parse_operation(fields[3].as_str()) } else { Operation::Get };
    let tenant_id = if n > 4 { parse_u32(fields[4].as_str()) } else { None };
    let ttl = if n > 5 { parse_i32(fields[5].as_str()) } else { None };
    let next_access_vtime = if n > 6 { parse_i64(fields[6].as_str()) } else { None };
    Ok(Request { clock_time, obj_id, obj_size, op, tenant_id, ttl, next_access_vtime })
}


/// The records the csv crate reads from `data` (a header line first, records of
/// any length): each the texts of its fields, or the message of its error.
pub uninterp spec fn csv_records(data: Seq<u8>) -> Seq<Result<Seq<Seq<char>>, Seq<char>>>;

/// The view of records: the texts of their fields, or their error messages.
pub open spec fn records_view(rs: Seq<Result<Vec<String>, String>>) -> Seq<Result<Seq<Seq<char>>, Seq<char>>> {
    rs.map_values(|x: Result<Vec<String>, String>| match x {
        Ok(v) => Ok(texts(v@)),
        Err(e) => Err(e@),
    })
}

/// Calls the csv crate: `ReaderBuilder::new().has_headers(true).flexible(true)`
/// reading `data`, and collects its `records()`, each as the texts of its fields or
/// its error's message.  The parse is named, not described.
#[verifier::external_body]
fn read_records(data: &[u8]) -> (r: Vec<Result<Vec<String>, String>>)
    ensures
        records_view(r@) == csv_records(data@),
{
    let mut reader = ::csv::ReaderBuilder::new().has_headers(true).flexible(true).from_reader(data);
    reader.records().map(|rec| match rec {
        Ok(record) => Ok(record.iter().map(|field| field.to_string()).collect()),
        Err(e) => Err(e.to_string()),
    }).collect()
}

/// CSV trace reader over the bytes of a trace.
///
/// Supports CSV format with columns: timestamp, obj_id, obj_size
/// Optional columns: operation, tenant_id, ttl, next_access_vtime
pub struct CsvTraceReader {
    records: Vec<Result<Vec<String>, String>>,
    position: usize,
}

impl CsvTraceReader {
    /// The records of the trace.
    pub closed spec fn spec_records(&self) -> Seq<Result<Seq<Seq<char>>, Seq<char>>> {
        records_view(self.records@)
    }

    /// Index of the next record.
    pub closed spec fn spec_position(&self) -> nat {
        self.position as nat
    }

    pub open spec fn well_formed(&self) -> bool {
        self.spec_position() <= self.spec_records().len()
    }

    /// Read the records of a CSV trace (whose first line is a header).
    pub fn new(data: &[u8]) -> (r: Self)
        ensures
            r.well_formed(),
            r.spec_records() == csv_records(data@),
            r.spec_position() == 0,
    {
        let records = read_records(data);
        CsvTraceReader { records, position: 0 }
    }
}

impl TraceReader for CsvTraceReader {
    open spec fn ready(&self) -> bool {
        self.well_formed()
    }

    closed spec fn records_read(&self) -> nat {
        self.spec_position()
    }

    /// The number of requests is not known ahead for a CSV trace.
    fn n_requests(&self) -> (r: Option<u64>)
        ensures
            r is None,
    {
        None
    }

    /// Go back to the first record.
    fn reset(&mut self) -> (r: Result<(), TraceError>)
        ensures
            final(self).well_formed(),
            final(self).spec_records() == old(self).spec_records(),
            final(self).spec_position() == 0,
            r == Ok::<(), TraceError>(()),
    {
        self.position = 0;
        Ok(())
    }

    /// The next record as a request; `None` after the last.
    fn next(&mut self) -> (r: Option<Result<Request, TraceError>>)
        ensures
            final(self).well_formed(),
            final(self).spec_records() == old(self).spec_records(),
            ({
                let at = old(self).spec_position();
                if at < old(self).spec_records().len() {
                    &&& final(self).spec_position() == at + 1
                    &&& match old(self).spec_records()[at as int] {
                        Ok(f) => r matches Some(x) && parsed_record(f, x),
                        Err(m) => r matches Some(Err(TraceError::Csv(x))) && x@ == m,
                    }
                } else {
                    &&& r is None
                    &&& final(self).spec_position() == at
                }
            }),
    {
        if self.position >= self.records.len() {
            return None;
        }
        let at = self.position;
        let result = match &self.records[at] {
            Ok(fields) => parse_record(fields),
            Err(message) => Err(TraceError::Csv(message.clone())),
        };
        self.position = at + 1;
        Some(result)
    }
}

} // verus!
