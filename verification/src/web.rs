//! What a client of the routing service is told.
//!
//! A request names two points. Each is resolved to the nearest stored node;
//! where either has none, the request is turned down as the client's fault.
//! Otherwise the route found is the reply, also where it is empty.

use crate::node::RouteNode;
use vstd::prelude::*;

verus! {

/// Why a request got no route.
pub enum Rejection {
    /// The request matched nothing that the service offers.
    NotFound,
    /// One of the two points has no stored node near it.
    NodeNotFound,
    /// Anything else.
    Unhandled,
}

/// The reply to a request that got no route.
pub struct ErrorMessage {
    pub code: u16,
    pub message: String,
}

/// The status code that goes with a rejection.
pub open spec fn status_of(err: Rejection) -> u16 {
    match err {
        Rejection::NotFound => 404,
        Rejection::NodeNotFound => 400,
        Rejection::Unhandled => 500,
    }
}

/// The message that goes with a rejection.
pub open spec fn message_of(err: Rejection) -> Seq<char> {
    match err {
        Rejection::NotFound => "NOT_FOUND"@,
        Rejection::NodeNotFound => "Node not found"@,
        Rejection::Unhandled => "UNHANDLED_REJECTION"@,
    }
}

/// The reply that tells a client why its request got no route.
pub fn handle_rejection(err: Rejection) -> (reply: ErrorMessage)
    ensures
        reply.code == status_of(err),
        reply.message@ == message_of(err),
{
    match err {
        Rejection::NotFound => ErrorMessage { code: 404, message: "NOT_FOUND".to_owned() },
        Rejection::NodeNotFound => ErrorMessage { code: 400, message: "Node not found".to_owned() },
        Rejection::Unhandled => ErrorMessage {
            code: 500,
            message: "UNHANDLED_REJECTION".to_owned(),
        },
    }
}

/// The two ends of a route, once both points of a request are resolved:
/// start and goal where each has a node, and otherwise the rejection that
/// says a node was not found.
pub fn endpoints(start: Option<RouteNode>, goal: Option<RouteNode>) -> (ends: Result<
    (RouteNode, RouteNode),
    Rejection,
>)
    ensures
        ends == match (start, goal) {
            (Some(from), Some(to)) => Ok::<(RouteNode, RouteNode), Rejection>((from, to)),
            _ => Err::<(RouteNode, RouteNode), Rejection>(Rejection::NodeNotFound),
        },
{
    match (start, goal) {
        (Some(from), Some(to)) => Ok((from, to)),
        _ => Err(Rejection::NodeNotFound),
    }
}

} // verus!
