//! The server around a table of routes.

use vstd::prelude::*;
use crate::router::Router;

verus! {

/// A server that answers requests by its router.
pub struct Server {
    router: Router,
}

impl Server {
    /// The router that the server answers by.
    pub closed spec fn router(&self) -> Router {
        self.router
    }

    /// A server that answers by the given router.
    pub fn new(router: Router) -> (r: Server)
        ensures
            r.router() == router,
    {
        Server { router }
    }

    /// The router that the server answers by.
    pub fn routes(&self) -> (r: &Router)
        ensures
            *r == self.router(),
    {
        &self.router
    }
}

} // verus!
