//! Cache requests and the operations they carry.
use vstd::prelude::*;

verus! {

/// Operation type for a cache request
#[derive(Debug, Clone, Copy, PartialEq, Eq, Structural)]
pub enum Operation {
    /// Read/Get operation
    Get,
    /// Write/Set operation (the `Set` operation of a trace; the name `Set` is
    /// reserved in this crate)
    Write,
    /// Delete operation
    Delete,
    /// Add operation (insert only if not present)
    Add,
    /// Replace operation (update only if present)
    Replace,
}

impl Default for Operation {
    fn default() -> (op: Self)
        ensures
            op == Operation::Get,
    {
        Operation::Get
    }
}

/// Request structure representing a cache access
#[derive(Debug, Clone)]
pub struct Request {
    /// Timestamp of the request
    pub clock_time: u64,
    /// Object identifier
    pub obj_id: u64,
    /// Size of the object in bytes
    pub obj_size: u32,
    /// Operation type
    pub op: Operation,
    /// Tenant/namespace identifier (optional)
    pub tenant_id: Option<u32>,
    /// Time-to-live in seconds (optional)
    pub ttl: Option<i32>,
    /// Next access time in virtual time (for oracle algorithms)
    pub next_access_vtime: Option<i64>,
}

/// A `Get` request for an object, with no timestamp and no optional fields.
pub open spec fn plain_request(obj_id: u64, obj_size: u32, clock_time: u64) -> Request {
    Request {
        clock_time,
        obj_id,
        obj_size,
        op: Operation::Get,
        tenant_id: None,
        ttl: None,
        next_access_vtime: None,
    }
}

impl Request {
    /// Create a new request with just object ID and size
    pub fn new(obj_id: u64, obj_size: u32) -> (r: Self)
        ensures
            r == plain_request(obj_id, obj_size, 0),
    {
        Request {
            clock_time: 0,
            obj_id,
            obj_size,
            op: Operation::Get,
            tenant_id: None,
            ttl: None,
            next_access_vtime: None,
        }
    }

    /// Create a new request with timestamp
    pub fn with_timestamp(obj_id: u64, obj_size: u32, clock_time: u64) -> (r: Self)
        ensures
            r == plain_request(obj_id, obj_size, clock_time),
    {
        Request {
            clock_time,
            obj_id,
            obj_size,
            op: Operation::Get,
            tenant_id: None,
            ttl: None,
            next_access_vtime: None,
        }
    }

    /// Builder for creating requests with all fields
    pub fn builder() -> (b: RequestBuilder)
        ensures
            b.fields() == plain_request(0, 0, 0),
    {
        RequestBuilder::default()
    }
}

/// Builder for Request
#[derive(Debug)]
pub struct RequestBuilder {
    clock_time: u64,
    obj_id: u64,
    obj_size: u32,
    op: Operation,
    tenant_id: Option<u32>,
    ttl: Option<i32>,
    next_access_vtime: Option<i64>,
}

impl Default for RequestBuilder {
    fn default() -> (b: Self)
        ensures
            b.fields() == plain_request(0, 0, 0),
    {
        RequestBuilder {
            clock_time: 0,
            obj_id: 0,
            obj_size: 0,
            op: Operation::Get,
            tenant_id: None,
            ttl: None,
            next_access_vtime: None,
        }
    }
}

impl RequestBuilder {
    /// The request this builder would build now.
    pub closed spec fn fields(&self) -> Request {
        Request {
            clock_time: self.clock_time,
            obj_id: self.obj_id,
            obj_size: self.obj_size,
            op: self.op,
            tenant_id: self.tenant_id,
            ttl: self.ttl,
            next_access_vtime: self.next_access_vtime,
        }
    }

    pub fn clock_time(self, clock_time: u64) -> (b: Self)
        ensures
            b.fields() == (Request { clock_time, ..self.fields() }),
    {
        let mut b = self;
        b.clock_time = clock_time;
        b
    }

    pub fn obj_id(self, obj_id: u64) -> (b: Self)
        ensures
            b.fields() == (Request { obj_id, ..self.fields() }),
    {
        let mut b = self;
        b.obj_id = obj_id;
        b
    }

    pub fn obj_size(self, obj_size: u32) -> (b: Self)
        ensures
            b.fields() == (Request { obj_size, ..self.fields() }),
    {
        let mut b = self;
        b.obj_size = obj_size;
        b
    }

    pub fn op(self, op: Operation) -> (b: Self)
        ensures
            b.fields() == (Request { op, ..self.fields() }),
    {
        let mut b = self;
        b.op = op;
        b
    }

    pub fn tenant_id(self, tenant_id: u32) -> (b: Self)
        ensures
            b.fields() == (Request { tenant_id: Some(tenant_id), ..self.fields() }),
    {
        let mut b = self;
        b.tenant_id = Some(tenant_id);
        b
    }

    pub fn ttl(self, ttl: i32) -> (b: Self)
        ensures
            b.fields() == (Request { ttl: Some(ttl), ..self.fields() }),
    {
        let mut b = self;
        b.ttl = Some(ttl);
        b
    }

    pub fn next_access_vtime(self, vtime: i64) -> (b: Self)
        ensures
            b.fields() == (Request { next_access_vtime: Some(vtime), ..self.fields() }),
    {
        let mut b = self;
        b.next_access_vtime = Some(vtime);
        b
    }

    pub fn build(self) -> (r: Request)
        ensures
            r == self.fields(),
    {
        Request {
            clock_time: self.clock_time,
            obj_id: self.obj_id,
            obj_size: self.obj_size,
            op: self.op,
            tenant_id: self.tenant_id,
            ttl: self.ttl,
            next_access_vtime: self.next_access_vtime,
        }
    }
}

} // verus!
