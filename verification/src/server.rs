//! The server's decision core: the routing surface handlers are
//! registered on, and the dispatch step that picks a handler or an
//! error status for each parsed request. The sockets, threads and the
//! accept loop live outside the library and only call in here.

use vstd::prelude::*;

use crate::error::HttpInternalError;
use crate::http_status::HttpStatus;
use crate::method::Method;
use crate::response::{built_with_length, Response, ResponseBuilder};
use crate::route::{first_match, inserted, method_lookup, RouteKey, RouteMap};

verus! {

/// A server under construction: the bind address as plain values, and
/// the routing table.
pub struct Server<H> {
    pub address: ([u8; 4], u16),
    pub routes: RouteMap<H>,
}

impl<H> Server<H> {
    pub fn new(address: [u8; 4], port: u16) -> (r: Self)
        ensures
            r.address == (address, port),
            r.routes.all_routes@.len() == 0,
    {
        Server { address: (address, port), routes: RouteMap::new() }
    }

    /// Starts registering handlers under one path pattern.
    pub fn at(self, location: &'static str) -> (r: Route<H>)
        ensures
            r.server == self,
            r.uri@ == location@,
    {
        Route::new(self, location)
    }
}

/// A handler-registration builder for one path pattern.
pub struct Route<H> {
    pub server: Server<H>,
    pub uri: &'static str,
}

impl<H> Route<H> {
    pub fn new(server: Server<H>, uri: &'static str) -> (r: Self)
        ensures
            r.server == server,
            r.uri@ == uri@,
    {
        Route { server, uri }
    }

    /// Binds a handler for one method under this route's pattern.
    pub fn bind(self, method: Method, handler: H) -> (r: Self)
        ensures
            r.uri == self.uri,
            r.server.address == self.server.address,
            inserted(
                self.server.routes.all_routes@,
                r.server.routes.all_routes@,
                self.uri@,
                method,
                handler,
            ),
    {
        let mut server = self.server;
        let key = RouteKey(self.uri.to_owned());
        server.routes.insert(key, method, handler);
        Route { server, uri: self.uri }
    }

    pub fn get(self, handler: H) -> (r: Self)
        ensures
            bound_one(self, r, Method::GET, handler),
    {
        self.bind(Method::GET, handler)
    }

    pub fn head(self, handler: H) -> (r: Self)
        ensures
            bound_one(self, r, Method::HEAD, handler),
    {
        self.bind(Method::HEAD, handler)
    }

    pub fn post(self, handler: H) -> (r: Self)
        ensures
            bound_one(self, r, Method::POST, handler),
    {
        self.bind(Method::POST, handler)
    }

    pub fn put(self, handler: H) -> (r: Self)
        ensures
            bound_one(self, r, Method::PUT, handler),
    {
        self.bind(Method::PUT, handler)
    }

    pub fn delete(self, handler: H) -> (r: Self)
        ensures
            bound_one(self, r, Method::DELETE, handler),
    {
        self.bind(Method::DELETE, handler)
    }

    pub fn connect(self, handler: H) -> (r: Self)
        ensures
            bound_one(self, r, Method::CONNECT, handler),
    {
        self.bind(Method::CONNECT, handler)
    }

    pub fn options(self, handler: H) -> (r: Self)
        ensures
            bound_one(self, r, Method::OPTIONS, handler),
    {
        self.bind(Method::OPTIONS, handler)
    }

    pub fn trace(self, handler: H) -> (r: Self)
        ensures
            bound_one(self, r, Method::TRACE, handler),
    {
        self.bind(Method::TRACE, handler)
    }

    pub fn patch(self, handler: H) -> (r: Self)
        ensures
            bound_one(self, r, Method::PATCH, handler),
    {
        self.bind(Method::PATCH, handler)
    }

    /// Hands the server back once its routes are registered.
    pub fn into_server(self) -> (r: Server<H>)
        ensures
            r == self.server,
    {
        self.server
    }
}

/// What one registration call did: the route table gained the binding
/// under this route's pattern, and everything else stayed.
pub open spec fn bound_one<H>(before: Route<H>, after: Route<H>, method: Method, handler: H) -> bool {
    &&& after.uri == before.uri
    &&& after.server.address == before.server.address
    &&& inserted(
        before.server.routes.all_routes@,
        after.server.routes.all_routes@,
        before.uri@,
        method,
        handler,
    )
}

/// The three outcomes of routing a request.
pub enum Dispatch<'a, H> {
    /// The first matching route, and the handler bound to the method.
    Matched(&'a RouteKey, &'a H),
    /// A route matched, but holds no handler for the method: 405.
    MethodMissing,
    /// No route matched: 404.
    NoRoute,
}

/// Picks the handler for (uri, method): the first matching route wins;
/// a matching route without the method yields `MethodMissing`; no match
/// yields `NoRoute`.
pub fn dispatch<'a, H>(routes: &'a RouteMap<H>, uri: &RouteKey, method: Method) -> (r: Dispatch<
    'a,
    H,
>)
    ensures
        ({
            let i = first_match(routes.all_routes@, uri.0@);
            match r {
                Dispatch::Matched(k, h) => {
                    &&& i >= 0
                    &&& *k == routes.all_routes@[i].0
                    &&& method_lookup(routes.all_routes@[i].1@, method) == Some(*h)
                },
                Dispatch::MethodMissing => i >= 0 && method_lookup(
                    routes.all_routes@[i].1@,
                    method,
                ) is None,
                Dispatch::NoRoute => i < 0,
            }
        }),
{
    match routes.get(uri) {
        Some(entry) => {
            match crate::route::method_handler(&entry.1, method) {
                Some(h) => Dispatch::Matched(&entry.0, h),
                None => Dispatch::MethodMissing,
            }
        },
        None => Dispatch::NoRoute,
    }
}

/// The response for a request no handler serves: the given status, its
/// canonical reason, an empty body and `Content-Length: 0`.
pub fn error_response(status: HttpStatus) -> (r: Response)
    requires
        !(status is NoContent),
    ensures
        r.header.status_code as int == crate::http_status::status_code_spec(status),
        r.header.reason_phrase@ == crate::http_status::status_reason_spec(status),
        r.body.contents@.len() == 0,
        built_with_length(r),
{
    ResponseBuilder::new().status(status).build()
}

/// Whether the keep-alive loop closes the connection silently: exactly
/// on the transport-timeout errors, which mean an idle peer.
pub fn close_silently(e: &HttpInternalError) -> (r: bool)
    ensures
        r == (e matches HttpInternalError::ConnectionTimeout || e
            matches HttpInternalError::DataTimeout),
{
    e.is_timeout()
}

} // verus!
