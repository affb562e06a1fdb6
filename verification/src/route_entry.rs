//! The plain data form of a route, used to store and transfer routes.
use vstd::prelude::*;

verus! {

/// A route as data: its type name, response body, content type, and optional extra data
/// (a JSON text) for route types that need more configuration.
#[derive(Debug, Clone)]
pub struct SerializableRoute {
    pub route_type: String,
    pub body: String,
    pub content_type: String,
    pub extra_data: Option<String>,
}

} // verus!
