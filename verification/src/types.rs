use vstd::prelude::*;

verus! {

/// HTTP request methods the router distinguishes.
#[derive(Clone, Copy, PartialEq, Eq, Structural, Debug)]
pub enum HttpMethod {
    Get,
    Post,
    Put,
    Delete,
    Patch,
    Head,
    Options,
    Trace,
    Connect,
}

/// How the execution bridge schedules a matched handler: run it inline on the
/// worker, resume it cooperatively, or move it to the blocking pool.
#[derive(Clone, Copy, PartialEq, Eq, Structural, Debug)]
pub enum HandlerKind {
    Sync,
    AsyncNative,
    SyncOffloaded,
}

/// Phase of a middleware entry: run before the handler or after it.
#[derive(Clone, Copy, PartialEq, Eq, Structural, Debug)]
pub enum MiddlewarePhase {
    Before,
    After,
}

/// Raised when a registration is rejected; the server keeps running.
#[derive(Clone, Copy, PartialEq, Eq, Structural, Debug)]
pub enum RegisterError {
    /// A `*` segment stood anywhere but last, or a `:` segment had no name.
    MalformedPattern,
    /// A route-scoped middleware registration named a key no route is
    /// registered under.
    UnknownRoute,
}

/// Raised when no route matches an incoming (method, path).
#[derive(Clone, Copy, PartialEq, Eq, Structural, Debug)]
pub enum ResolveError {
    NotFound,
}

/// Raised when an outbound delivery addresses a connection that is gone.
#[derive(Clone, Copy, PartialEq, Eq, Structural, Debug)]
pub enum SendError {
    ConnectionClosed,
}

/// What the server writes back for one request: status, headers, body, and
/// whether the connection must close once it is sent.
pub struct ResponseContext {
    pub status: u16,
    pub headers: Vec<(Vec<u8>, Vec<u8>)>,
    pub body: Vec<u8>,
    pub terminal: bool,
}

/// Mathematical model of a response.
pub struct RespShape {
    pub status: u16,
    pub headers: Seq<(Seq<u8>, Seq<u8>)>,
    pub body: Seq<u8>,
    pub terminal: bool,
}

impl View for ResponseContext {
    type V = RespShape;

    open spec fn view(&self) -> RespShape {
        RespShape {
            status: self.status,
            headers: self.headers@.map_values(|h: (Vec<u8>, Vec<u8>)| (h.0@, h.1@)),
            body: self.body@,
            terminal: self.terminal,
        }
    }
}

/// A caught handler or middleware failure: its message, and a status the
/// raiser may have chosen instead of the default server-error class.
pub struct HandlerError {
    pub message: Vec<u8>,
    pub status_override: Option<u16>,
}

/// Mathematical model of a caught failure.
pub struct ErrShape {
    pub message: Seq<u8>,
    pub status_override: Option<u16>,
}

impl View for HandlerError {
    type V = ErrShape;

    open spec fn view(&self) -> ErrShape {
        ErrShape { message: self.message@, status_override: self.status_override }
    }
}

} // verus!
