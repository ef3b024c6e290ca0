//! Decoding of the LCS (libCacheSim) binary trace format, versions 1, 2 and 3.
//!
//! A trace starts with a header of 264 bytes: an 8-byte magic, the version as a
//! little-endian `u64`, the number of requests as a little-endian `u64`, and 240
//! bytes more.  Records follow, each of a fixed size given by the version.
use vstd::prelude::*;

use super::{LcsVersion, TraceError, TraceReader};
use crate::request::{Operation, Request};

verus! {

/// Size of the header, in bytes: 24 of fields, and 240 more skipped.
pub const LCS_HEADER_SIZE: u64 = 264;

/// The little-endian value of a sequence of bytes.
pub open spec fn le_value(b: Seq<u8>) -> nat
    decreases b.len(),
{
    if b.len() == 0 {
        0
    } else {
        b[0] as nat + 256 * le_value(b.drop_first())
    }
}

/// Two's complement reading of a 64-bit pattern.
pub open spec fn signed64(v: nat) -> int {
    if v >= 0x8000_0000_0000_0000 {
        v - 0x1_0000_0000_0000_0000
    } else {
        v as int
    }
}

/// Two's complement reading of a 32-bit pattern.
pub open spec fn signed32(v: nat) -> int {
    if v >= 0x8000_0000 {
        v - 0x1_0000_0000
    } else {
        v as int
    }
}

/// The little-endian value of `b[at .. at + n]`.
pub open spec fn field(b: Seq<u8>, at: int, n: int) -> nat {
    le_value(b.subrange(at, at + n))
}

/// Operation coded by a byte of a record (an unknown code reads as `Get`).
pub open spec fn op_of_byte(x: u8) -> Operation {
    if x == 1 {
        Operation::Write
    } else if x == 2 {
        Operation::Delete
    } else if x == 3 {
        Operation::Add
    } else if x == 4 {
        Operation::Replace
    } else {
        Operation::Get
    }
}

/// Size of one record of a version, in bytes.
pub open spec fn spec_record_size(v: LcsVersion) -> nat {
    match v {
        LcsVersion::V1 => 24,
        LcsVersion::V2 => 28,
        LcsVersion::V3 => 40,
    }
}

/// `r` is the request a record of `version` holds in `b`.  Versions 1 and 2 start
/// with the timestamp (`u32`) and the object id (`u64`); version 1 follows with the
/// size (`u32`) and the next access time (`i64`); version 2 with the size (`u32`),
/// the operation (one byte), the tenant (`u24`) and the next access time.  Version 3
/// has the timestamp (`u64`), the object id (`u64`), the size (`u64`, of which the
/// low 32 bits are kept), the operation, the tenant, the time to live (`i32`) and the
/// next access time.
pub open spec fn decodes(version: LcsVersion, b: Seq<u8>, r: Request) -> bool {
    match version {
        LcsVersion::V1 => {
            &&& r.clock_time == field(b, 0, 4)
            &&& r.obj_id == field(b, 4, 8)
            &&& r.obj_size == field(b, 12, 4)
            &&& r.op == Operation::Get
            &&& r.tenant_id == None::<u32>
            &&& r.ttl == None::<i32>
            &&& r.next_access_vtime == Some(signed64(field(b, 16, 8)) as i64)
        },
        LcsVersion::V2 => {
            &&& r.clock_time == field(b, 0, 4)
            &&& r.obj_id == field(b, 4, 8)
            &&& r.obj_size == field(b, 12, 4)
            &&& r.op == op_of_byte(b[16])
            &&& r.tenant_id == Some(field(b, 17, 3) as u32)
            &&& r.ttl == None::<i32>
            &&& r.next_access_vtime == Some(signed64(field(b, 20, 8)) as i64)
        },
        LcsVersion::V3 => {
            &&& r.clock_time == field(b, 0, 8)
            &&& r.obj_id == field(b, 8, 8)
            &&& r.obj_size == field(b, 16, 8) % 0x1_0000_0000
            &&& r.op == op_of_byte(b[24])
            &&& r.tenant_id == Some(field(b, 25, 3) as u32)
            &&& r.ttl == Some(signed32(field(b, 28, 4)) as i32)
            &&& r.next_access_vtime == Some(signed64(field(b, 32, 8)) as i64)
        },
    }
}

/// The version a header's version number names.
pub open spec fn version_of(v: nat) -> Option<LcsVersion> {
    if v == 1 {
        Some(LcsVersion::V1)
    } else if v == 2 {
        Some(LcsVersion::V2)
    } else if v == 3 {
        Some(LcsVersion::V3)
    } else {
        None
    }
}

/// The decimal digits of `n`, most significant first, with no leading zero.
pub open spec fn decimal(n: nat) -> Seq<char>
    decreases n,
{
    let d = (('0' as u32) + (n % 10) as u32) as char;
    if n < 10 {
        seq![d]
    } else {
        decimal(n / 10).push(d)
    }
}

/// The message for an unknown version number: "Unknown LCS version: " and the
/// number in decimal.
pub open spec fn unknown_version_message(v: u64) -> Seq<char> {
    seq!['U', 'n', 'k', 'n', 'o', 'w', 'n', ' ', 'L', 'C', 'S', ' ', 'v', 'e', 'r', 's', 'i', 'o', 'n', ':', ' ']
        + decimal(v as nat)
}

/// The message for an unknown version: std's `format!` with the number printed by
/// `u64`'s `Display`, which writes it in decimal.
#[verifier::external_body]
fn unknown_version(v: u64) -> (r: String)
    ensures
        r@ == unknown_version_message(v),
{
    format!("Unknown LCS version: {}", v)
}

proof fn lemma_le_value_3(s: Seq<u8>)
    requires
        s.len() == 3,
    ensures
        le_value(s) == s[0] + 256 * s[1] + 65536 * s[2],
{
    reveal_with_fuel(le_value, 4);
    assert(s.drop_first().drop_first().drop_first() =~= Seq::<u8>::empty());
}

proof fn lemma_le_value_4(s: Seq<u8>)
    requires
        s.len() == 4,
    ensures
        le_value(s) == s[0] + 256 * s[1] + 65536 * s[2] + 16777216 * s[3],
{
    lemma_le_value_3(s.drop_first());
}

proof fn lemma_le_value_8(s: Seq<u8>)
    requires
        s.len() == 8,
    ensures
        le_value(s) == le_value(s.subrange(0, 4)) + 0x1_0000_0000 * le_value(s.subrange(4, 8)),
        le_value(s) < 0x1_0000_0000_0000_0000,
{
    let t = s.drop_first().drop_first().drop_first().drop_first();
    assert(t =~= s.subrange(4, 8));
    lemma_le_value_4(t);
    lemma_le_value_4(s.subrange(0, 4));
    assert(le_value(s) == s[0] + 256 * (s[1] + 256 * (s[2] + 256 * (s[3] + 256 * le_value(t))))) by {
        reveal_with_fuel(le_value, 5);
    }
}

/// The little-endian `u32` at `buf[at .. at + 4]`.
fn read_u32(buf: &[u8], at: usize) -> (r: u32)
    requires
        at + 4 <= buf.len(),
    ensures
        r == field(buf@, at as int, 4),
{
    proof {
        lemma_le_value_4(buf@.subrange(at as int, at + 4));
    }
    (buf[at] as u32) + (buf[at + 1] as u32) * 256 + (buf[at + 2] as u32) * 65536 + (buf[at + 3] as u32) * 16777216
}

/// The little-endian `u24` at `buf[at .. at + 3]`.
fn read_u24(buf: &[u8], at: usize) -> (r: u32)
    requires
        at + 3 <= buf.len(),
    ensures
        r == field(buf@, at as int, 3),
{
    proof {
        lemma_le_value_3(buf@.subrange(at as int, at + 3));
    }
    (buf[at] as u32) + (buf[at + 1] as u32) * 256 + (buf[at + 2] as u32) * 65536
}

/// The little-endian `u64` at `buf[at .. at + 8]`.
fn read_u64(buf: &[u8], at: usize) -> (r: u64)
    requires
        at + 8 <= buf.len(),
    ensures
        r == field(buf@, at as int, 8),
{
    let lo = read_u32(buf, at);
    let hi = read_u32(buf, at + 4);
    proof {
        let s = buf@.subrange(at as int, at + 8);
        lemma_le_value_8(s);
        assert(s.subrange(0, 4) =~= buf@.subrange(at as int, at + 4));
        assert(s.subrange(4, 8) =~= buf@.subrange(at + 4, at + 8));
    }
    lo as u64 + (hi as u64) * 0x1_0000_0000
}

/// The little-endian `i64` at `buf[at .. at + 8]`.
fn read_i64(buf: &[u8], at: usize) -> (r: i64)
    requires
        at + 8 <= buf.len(),
    ensures
        r == signed64(field(buf@, at as int, 8)),
{
    let v = read_u64(buf, at);
    if v < 0x8000_0000_0000_0000 {
        v as i64
    } else {
        ((v - 0x8000_0000_0000_0000) as i64) - 0x7fff_ffff_ffff_ffff - 1
    }
}

/// The little-endian `i32` at `buf[at .. at + 4]`.
fn read_i32(buf: &[u8], at: usize) -> (r: i32)
    requires
        at + 4 <= buf.len(),
    ensures
        r == signed32(field(buf@, at as int, 4)),
{
    let v = read_u32(buf, at);
    if v < 0x8000_0000 {
        v as i32
    } else {
        ((v - 0x8000_0000) as i32) - 0x7fff_ffff - 1
    }
}

/// Operation coded by a record's operation byte.
pub fn operation_from_byte(op_byte: u8) -> (op: Operation)
    ensures
        op == op_of_byte(op_byte),
{
    match op_byte {
        0 => Operation::Get,
        1 => Operation::Write,
        2 => Operation::Delete,
        3 => Operation::Add,
        4 => Operation::Replace,
        _ => Operation::Get,
    }
}

/// Size of one record of `version`, in bytes.
pub fn record_size(version: LcsVersion) -> (n: usize)
    ensures
        n == spec_record_size(version),
{
    match version {
        LcsVersion::V1 => 24,  // 4 + 8 + 4 + 8
        LcsVersion::V2 => 28,  // 4 + 8 + 4 + 4 + 8
        LcsVersion::V3 => 40,  // 8 + 8 + 8 + 4 + 4 + 8
    }
}

/// Decode a version 1 record: timestamp (u32), obj_id (u64), obj_size (u32),
/// next_access_vtime (i64).
pub fn decode_request_v1(buf: &[u8]) -> (r: Request)
    requires
        buf@.len() >= 24,
    ensures
        decodes(LcsVersion::V1, buf@, r),
{
    let clock_time = read_u32(buf, 0) as u64;
    let obj_id = read_u64(buf, 4);
    let obj_size = read_u32(buf, 12);
    let next_access_vtime = read_i64(buf, 16);
    Request {
        clock_time,
        obj_id,
        obj_size,
        op: Operation::Get,
        tenant_id: None,
        ttl: None,
        next_access_vtime: Some(next_access_vtime),
    }
}

/// Decode a version 2 record: as version 1, with the operation (u8) and tenant
/// (u24) packed in a u32 between the size and the next access time.
pub fn decode_request_v2(buf: &[u8]) -> (r: Request)
    requires
        buf@.len() >= 28,
    ensures
        decodes(LcsVersion::V2, buf@, r),
{
    let clock_time = read_u32(buf, 0) as u64;
    let obj_id = read_u64(buf, 4);
    let obj_size = read_u32(buf, 12);
    // op (u8) + tenant (u24) packed as u32
    let op_byte = buf[16];
    let tenant = read_u24(buf, 17);
    let next_access_vtime = read_i64(buf, 20);
    let op = operation_from_byte(op_byte);
    Request {
        clock_time,
        obj_id,
        obj_size,
        op,
        tenant_id: Some(tenant),
        ttl: None,
        next_access_vtime: Some(next_access_vtime),
    }
}

/// Decode a version 3 record: timestamp (u64), obj_id (u64), obj_size (u64, kept as
/// its low 32 bits), operation and tenant packed in a u32, ttl (i32) and
/// next_access_vtime (i64).
pub fn decode_request_v3(buf: &[u8]) -> (r: Request)
    requires
        buf@.len() >= 40,
    ensures
        decodes(LcsVersion::V3, buf@, r),
{
    let clock_time = read_u64(buf, 0);
    let obj_id = read_u64(buf, 8);
    // Truncate to u32 for compatibility
    let obj_size = read_u32(buf, 16);
    proof {
        let s = buf@.subrange(16, 24);
        lemma_le_value_8(s);
        assert(s.subrange(0, 4) =~= buf@.subrange(16, 20));
        let lo = le_value(s.subrange(0, 4));
        let hi = le_value(s.subrange(4, 8));
        lemma_le_value_4(s.subrange(0, 4));
        assert((lo + 0x1_0000_0000 * hi) % 0x1_0000_0000 == lo) by (nonlinear_arith)
            requires
                lo < 0x1_0000_0000,
        {
            vstd::arithmetic::div_mod::lemma_mod_multiples_vanish(hi as int, lo as int, 0x1_0000_0000);
            vstd::arithmetic::div_mod::lemma_small_mod(lo, 0x1_0000_0000);
        }
    }
    let op_byte = buf[24];
    let tenant = read_u24(buf, 25);
    let ttl = read_i32(buf, 28);
    let next_access_vtime = read_i64(buf, 32);
    let op = operation_from_byte(op_byte);
    Request {
        clock_time,
        obj_id,
        obj_size,
        op,
        tenant_id: Some(tenant),
        ttl: Some(ttl),
        next_access_vtime: Some(next_access_vtime),
    }
}

/// Decode a record of `version`.
pub fn decode_request(version: LcsVersion, buf: &[u8]) -> (r: Request)
    requires
        buf@.len() >= spec_record_size(version),
    ensures
        decodes(version, buf@, r),
{
    match version {
        LcsVersion::V1 => decode_request_v1(buf),
        LcsVersion::V2 => decode_request_v2(buf),
        LcsVersion::V3 => decode_request_v3(buf),
    }
}

/// The header fields the reader keeps.
#[derive(Debug, Clone, Copy, PartialEq, Eq, Structural)]
pub struct LcsHeader {
    pub version: LcsVersion,
    pub n_requests: u64,
}

/// Decode the first 24 bytes of a header: the magic (not checked), the version,
/// and the number of requests.  An unknown version is an `InvalidFormat` error.
pub fn decode_header(buf: &[u8]) -> (r: Result<LcsHeader, TraceError>)
    requires
        buf@.len() >= 24,
    ensures
        version_of(field(buf@, 8, 8)) is Some ==> r == Ok::<LcsHeader, TraceError>(LcsHeader {
            version: version_of(field(buf@, 8, 8))->0,
            n_requests: field(buf@, 16, 8) as u64,
        }),
        version_of(field(buf@, 8, 8)) is None ==> (r matches Err(TraceError::InvalidFormat(m))
            && m@ == unknown_version_message(field(buf@, 8, 8) as u64)),
{
    let version_num = read_u64(buf, 8);
    let version = match version_num {
        1 => LcsVersion::V1,
        2 => LcsVersion::V2,
        3 => LcsVersion::V3,
        v => {
            return Err(TraceError::InvalidFormat(unknown_version(v)));
        },
    };
    // Read n_requests (at offset 16 in header)
    let n_requests = read_u64(buf, 16);
    Ok(LcsHeader { version, n_requests })
}


/// The message of the I/O error a read past the end of a trace gives.
pub open spec fn eof_message() -> Seq<char> {
    "failed to fill whole buffer"@
}

/// The error for a read past the end of the trace.
fn unexpected_eof() -> (e: TraceError)
    ensures
        e matches TraceError::Io(m) && m@ == eof_message(),
{
    TraceError::Io(String::from_str("failed to fill whole buffer"))
}

/// LCS trace reader over the bytes of a trace.
pub struct LcsTraceReader {
    data: Vec<u8>,
    header: LcsHeader,
    header_size: u64,
    offset: usize,
}

impl LcsTraceReader {
    /// The trace's bytes.
    pub closed spec fn bytes(&self) -> Seq<u8> {
        self.data@
    }

    /// The header read at creation.
    pub closed spec fn spec_header(&self) -> LcsHeader {
        self.header
    }

    /// Where the next record starts.
    pub closed spec fn position(&self) -> nat {
        self.offset as nat
    }

    pub open spec fn well_formed(&self) -> bool {
        &&& LCS_HEADER_SIZE <= self.position() <= self.bytes().len()
        &&& self.bytes().len() >= LCS_HEADER_SIZE
        &&& self.header_at_start()
    }

    /// Records start right after the header.
    pub closed spec fn header_at_start(&self) -> bool {
        self.header_size == LCS_HEADER_SIZE
    }

    /// Read the header of a trace: its version must be known, and the bytes must
    /// hold what reading the header takes in.  Reading stops at the version when it
    /// is unknown, and at the end of the bytes when they end first.
    pub fn new(data: Vec<u8>) -> (r: Result<Self, TraceError>)
        ensures
            data@.len() < 16 ==> (r matches Err(TraceError::Io(m)) && m@ == eof_message()),
            data@.len() >= 16 && version_of(field(data@, 8, 8)) is None ==> (r matches Err(TraceError::InvalidFormat(m))
                && m@ == unknown_version_message(field(data@, 8, 8) as u64)),
            data@.len() >= 16 && version_of(field(data@, 8, 8)) is Some && data@.len() < LCS_HEADER_SIZE
                ==> (r matches Err(TraceError::Io(m)) && m@ == eof_message()),
            data@.len() >= LCS_HEADER_SIZE && version_of(field(data@, 8, 8)) is Some ==> (r matches Ok(reader) && {
                &&& reader.well_formed()
                &&& reader.bytes() == data@
                &&& reader.spec_header() == (LcsHeader {
                    version: version_of(field(data@, 8, 8))->0,
                    n_requests: field(data@, 16, 8) as u64,
                })
                &&& reader.position() == LCS_HEADER_SIZE
            }),
    {
        if data.len() < 16 {
            return Err(unexpected_eof());
        }
        let version_num = read_u64(data.as_slice(), 8);
        if !(version_num == 1 || version_num == 2 || version_num == 3) {
            return Err(TraceError::InvalidFormat(unknown_version(version_num)));
        }
        // Standard LCS header size
        let header_size: u64 = LCS_HEADER_SIZE;
        if data.len() < 264 {
            return Err(unexpected_eof());
        }
        // Read header
        let header = match decode_header(data.as_slice()) {
            Ok(h) => h,
            Err(e) => {
                return Err(e);
            },
        };
        Ok(LcsTraceReader { data, header, header_size, offset: 264 })
    }

    /// The trace's version.
    pub fn version(&self) -> (r: LcsVersion)
        ensures
            r == self.spec_header().version,
    {
        self.header.version
    }
}

impl TraceReader for LcsTraceReader {
    open spec fn ready(&self) -> bool {
        self.well_formed()
    }

    closed spec fn records_read(&self) -> nat {
        (self.position() - LCS_HEADER_SIZE) as nat / spec_record_size(self.spec_header().version)
    }

    /// Number of requests the header announces.
    fn n_requests(&self) -> (r: Option<u64>)
        ensures
            r == Some(self.spec_header().n_requests),
    {
        Some(self.header.n_requests)
    }

    /// Go back to the first record.
    fn reset(&mut self) -> (r: Result<(), TraceError>)
        ensures
            final(self).well_formed(),
            final(self).bytes() == old(self).bytes(),
            final(self).spec_header() == old(self).spec_header(),
            final(self).position() == LCS_HEADER_SIZE,
            r == Ok::<(), TraceError>(()),
    {
        self.offset = self.header_size as usize;
        Ok(())
    }

    /// The next record, decoded; `None` once fewer bytes are left than a record
    /// takes (a record cut short ends the trace).
    fn next(&mut self) -> (r: Option<Result<Request, TraceError>>)
        ensures
            final(self).well_formed(),
            final(self).bytes() == old(self).bytes(),
            final(self).spec_header() == old(self).spec_header(),
            ({
                let at = old(self).position();
                let n = spec_record_size(old(self).spec_header().version);
                if at + n <= old(self).bytes().len() {
                    &&& r matches Some(Ok(req)) && decodes(old(self).spec_header().version, old(self).bytes().subrange(at as int, (at + n) as int), req)
                    &&& final(self).position() == at + n
                } else {
                    &&& r is None
                    &&& final(self).position() == at
                }
            }),
    {
        let size = record_size(self.header.version);
        if self.data.len() - self.offset < size {
            return None;
        }
        let end = self.offset + size;
        let record = vstd::slice::slice_subrange(self.data.as_slice(), self.offset, end);
        let req = decode_request(self.header.version, record);
        self.offset = end;
        Some(Ok(req))
    }
}

/// Every record, of every version, ends with its next access time: the last 8 bytes
/// of a record are the little-endian `i64` that the decoded request carries, so a
/// record's size leaves no unread bytes after its last field.
pub proof fn law_record_ends_with_next_access(version: LcsVersion, b: Seq<u8>, r: Request)
    requires
        b.len() >= spec_record_size(version),
        decodes(version, b, r),
    ensures
        r.next_access_vtime == Some(signed64(field(b, spec_record_size(version) - 8, 8)) as i64),
{
}

/// Every record starts with its timestamp: 4 bytes in versions 1 and 2, 8 bytes in
/// version 3, followed at once by the 8-byte object id.
pub proof fn law_record_starts_with_time_and_id(version: LcsVersion, b: Seq<u8>, r: Request)
    requires
        b.len() >= spec_record_size(version),
        decodes(version, b, r),
    ensures
        ({
            let w: int = if version == LcsVersion::V3 { 8 } else { 4 };
            &&& r.clock_time == field(b, 0, w)
            &&& r.obj_id == field(b, w, 8)
        }),
{
}

} // verus!
