//! Trace formats: the LCS binary records and the CSV text records, the errors of
//! reading a trace, and the choice of format for a trace file.
use vstd::prelude::*;
use vstd::string::StringSliceAdditionalSpecFns;

use crate::request::Request;

pub mod csv;
pub mod lcs;

verus! {

/// LCS format version
#[derive(Debug, Clone, Copy, PartialEq, Eq, Structural)]
pub enum LcsVersion {
    /// Version 1: timestamp (u32), obj_id (u64), obj_size (u32), next_access_vtime (i64)
    V1,
    /// Version 2: V1 + operation (u8), tenant (u24)
    V2,
    /// Version 3: V2 with full 64-bit timestamp and size
    V3,
}

/// Supported trace formats
#[derive(Debug, Clone, Copy, PartialEq, Eq, Structural)]
pub enum TraceFormat {
    /// CSV format
    Csv,
    /// LCS binary format
    Lcs,
}

/// Errors that can occur during trace operations (an I/O or CSV error carries the
/// error's message)
#[derive(Debug, Clone, PartialEq, Eq)]
pub enum TraceError {
    /// I/O error
    Io(String),
    /// CSV parsing error
    Csv(String),
    /// Invalid trace format
    InvalidFormat(String),
    /// Missing required field
    MissingField(String),
    /// Parse error
    ParseError(String),
    /// End of trace
    EndOfTrace,
}


/// Trait for reading cache traces: requests one after another from the first,
/// with a way back to the start.
pub trait TraceReader {
    /// The reader's bookkeeping is consistent.
    spec fn ready(&self) -> bool;

    /// How many records have been read since the start of the trace.
    spec fn records_read(&self) -> nat;

    /// Get the total number of requests in the trace (if known)
    fn n_requests(&self) -> (r: Option<u64>)
        requires
            self.ready(),
    ;

    /// Reset the reader to the beginning of the trace
    fn reset(&mut self) -> (r: Result<(), TraceError>)
        requires
            old(self).ready(),
        ensures
            final(self).ready(),
            r is Ok ==> final(self).records_read() == 0,
    ;

    /// The next request of the trace; `None` once the trace is over.
    fn next(&mut self) -> (r: Option<Result<Request, TraceError>>)
        requires
            old(self).ready(),
        ensures
            final(self).ready(),
            r is Some ==> final(self).records_read() == old(self).records_read() + 1,
            r is None ==> final(self).records_read() == old(self).records_read(),
    ;
}

/// Whether the bytes `s` end with the bytes `suffix`.
pub open spec fn has_suffix(s: Seq<u8>, suffix: Seq<u8>) -> bool {
    suffix.len() <= s.len() && s.subrange(s.len() - suffix.len(), s.len() as int) == suffix
}

/// Whether the text `s` ends with the text `suffix` (compared as UTF-8 bytes).
pub fn ends_with(s: &str, suffix: &str) -> (r: bool)
    ensures
        r == has_suffix(s.spec_bytes(), suffix.spec_bytes()),
{
    let a = s.as_bytes();
    let b = suffix.as_bytes();
    if b.len() > a.len() {
        return false;
    }
    let offset = a.len() - b.len();
    let mut i: usize = 0;
    while i < b.len()
        invariant
            a@ == s.spec_bytes(),
            b@ == suffix.spec_bytes(),
            offset + b.len() == a.len(),
            0 <= i <= b@.len(),
            forall|j: int| 0 <= j < i ==> a@[offset + j] == b@[j],
        decreases b@.len() - i,
    {
        if a[offset + i] != b[i] {
            proof {
                assert(a@.subrange(offset as int, a@.len() as int)[i as int] != b@[i as int]);
            }
            return false;
        }
        i = i + 1;
    }
    proof {
        assert(a@.subrange(offset as int, a@.len() as int) =~= b@);
    }
    true
}

/// The format a trace file is taken to have, from its name: `.csv` is CSV, `.lcs`
/// and `.bin` are LCS, anything else is CSV.
pub open spec fn format_for_path(p: Seq<u8>) -> TraceFormat {
    if has_suffix(p, ".csv".spec_bytes()) {
        TraceFormat::Csv
    } else if has_suffix(p, ".lcs".spec_bytes()) || has_suffix(p, ".bin".spec_bytes()) {
        TraceFormat::Lcs
    } else {
        TraceFormat::Csv
    }
}

/// Detect a trace's format from its file name.
pub fn detect_format(path: &str) -> (f: TraceFormat)
    ensures
        f == format_for_path(path.spec_bytes()),
{
    if ends_with(path, ".csv") {
        TraceFormat::Csv
    } else if ends_with(path, ".lcs") || ends_with(path, ".bin") {
        TraceFormat::Lcs
    } else {
        TraceFormat::Csv  // Default to CSV
    }
}

/// Builder for creating trace readers
pub struct TraceReaderBuilder {
    path: String,
    format: Option<TraceFormat>,
}

impl TraceReaderBuilder {
    pub closed spec fn spec_path(&self) -> Seq<char> {
        self.path@
    }

    /// The format set explicitly, if any.
    pub closed spec fn spec_format(&self) -> Option<TraceFormat> {
        self.format
    }

    /// Create a new builder for the given file path
    pub fn new(path: &str) -> (b: Self)
        ensures
            b.spec_path() == path@,
            b.spec_format() is None,
    {
        TraceReaderBuilder { path: path.to_owned(), format: None }
    }

    /// Set the trace format explicitly
    pub fn format(self, format: TraceFormat) -> (b: Self)
        ensures
            b.spec_path() == self.spec_path(),
            b.spec_format() == Some(format),
    {
        let mut b = self;
        b.format = Some(format);
        b
    }

    /// The file path.
    pub fn path(&self) -> (r: &str)
        ensures
            r@ == self.spec_path(),
    {
        self.path.as_str()
    }

    /// The format to read the trace in: the one set, else the one its file name
    /// suggests.
    pub fn trace_format(&self) -> (f: TraceFormat)
        ensures
            f == match self.spec_format() {
                Some(g) => g,
                None => format_for_path(vstd::utf8::encode_utf8(self.spec_path())),
            },
    {
        match self.format {
            Some(f) => f,
            None => detect_format(self.path.as_str()),
        }
    }
}
} // verus!
