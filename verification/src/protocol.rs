//! The three requests of the synchronisation protocol as they go over
//! the wire.

use vstd::prelude::*;
use vstd::string::StringSliceAdditionalSpecFns;
use crate::path::append_bytes;

verus! {

/// What a request asks the store to do.
#[derive(Clone, Copy, Debug, PartialEq, Eq, Structural)]
pub enum Operation {
    /// Fetch the signature of the stored file.
    GetSignature,
    /// Apply a delta to the stored file.
    ApplyPatch,
    /// Store a file whole.
    IngestNewFile,
}

/// The HTTP method of a request.
#[derive(Clone, Copy, Debug, PartialEq, Eq, Structural)]
pub enum Method {
    Get,
    Post,
}

/// The status that a store answers with when it did what was asked.
pub const STATUS_OK: u16 = 200;

/// The status that a store answers with when it holds no such file.
pub const STATUS_NOT_FOUND: u16 = 404;

/// The method that `op` travels with.
pub open spec fn method_of(op: Operation) -> Method {
    match op {
        Operation::GetSignature => Method::Get,
        Operation::ApplyPatch => Method::Post,
        Operation::IngestNewFile => Method::Post,
    }
}

/// The path that `op` is routed by.
pub open spec fn route_of(op: Operation) -> Seq<u8> {
    match op {
        Operation::GetSignature => "/request-signature".spec_bytes(),
        Operation::ApplyPatch => "/patch-file".spec_bytes(),
        Operation::IngestNewFile => "/new-file".spec_bytes(),
    }
}

/// The request target of `op` on the file at `path`: the route, then the
/// path as the value of the query parameter `file_path`, byte for byte.
pub open spec fn target_of(op: Operation, path: Seq<u8>) -> Seq<u8> {
    route_of(op) + "?file_path=".spec_bytes() + path
}

/// A request to the store.
#[derive(Clone, Debug, PartialEq, Eq)]
pub struct Request {
    pub operation: Operation,
    pub method: Method,
    pub target: Vec<u8>,
    pub body: Vec<u8>,
}

/// A request as plain values.
pub struct RequestView {
    pub operation: Operation,
    pub method: Method,
    pub target: Seq<u8>,
    pub body: Seq<u8>,
}

impl View for Request {
    type V = RequestView;

    open spec fn view(&self) -> RequestView {
        RequestView {
            operation: self.operation,
            method: self.method,
            target: self.target@,
            body: self.body@,
        }
    }
}

/// The request that carries `op` on the file at `path` with `body`.
pub open spec fn request_for(op: Operation, path: Seq<u8>, body: Seq<u8>) -> RequestView {
    RequestView { operation: op, method: method_of(op), target: target_of(op, path), body }
}

/// The method that `op` travels with.
pub fn method(op: Operation) -> (m: Method)
    ensures
        m == method_of(op),
{
    match op {
        Operation::GetSignature => Method::Get,
        Operation::ApplyPatch => Method::Post,
        Operation::IngestNewFile => Method::Post,
    }
}

/// The request target of `op` on the file at `path`.
pub fn request_target(op: Operation, path: &[u8]) -> (target: Vec<u8>)
    ensures
        target@ == target_of(op, path@),
{
    let route: &str = match op {
        Operation::GetSignature => "/request-signature",
        Operation::ApplyPatch => "/patch-file",
        Operation::IngestNewFile => "/new-file",
    };
    let mut target: Vec<u8> = Vec::new();
    append_bytes(&mut target, route.as_bytes());
    append_bytes(&mut target, "?file_path=".as_bytes());
    append_bytes(&mut target, path);
    assert(target@ =~= target_of(op, path@));
    target
}

/// Builds the request that carries `op` on the file at `path` with `body`.
pub fn build_request(op: Operation, path: &[u8], body: Vec<u8>) -> (request: Request)
    ensures
        request@ == request_for(op, path@, body@),
{
    Request { operation: op, method: method(op), target: request_target(op, path), body }
}

} // verus!
