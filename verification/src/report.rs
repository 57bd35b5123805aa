//! Rendering of the two report lines: the echo of each accepted edge and
//! the answer to each query.

use vstd::prelude::*;

verus! {

/// The echo line for an accepted edge.
pub open spec fn connection_line(a: Seq<char>, b: Seq<char>) -> Seq<char> {
    "connection: lval: "@ + a + " rval: "@ + b
}

/// The answer line for a query, by whether the two nodes are connected.
pub open spec fn request_line(a: Seq<char>, b: Seq<char>, linked: bool) -> Seq<char> {
    "request: lval: "@ + a + " rval: "@ + b + ": "@ + (if linked {
        "connected"@
    } else {
        "not connected"@
    })
}

/// Renders the echo line for the edge (`a`, `b`).
pub fn render_connection(a: &String, b: &String) -> (r: String)
    ensures
        r@ == connection_line(a@, b@),
{
    let mut r = String::new();
    r.append("connection: lval: ");
    r.append(a.as_str());
    r.append(" rval: ");
    r.append(b.as_str());
    proof {
        assert(r@ =~= connection_line(a@, b@));
    }
    r
}

/// Renders the answer line for the query (`a`, `b`).
pub fn render_request(a: &String, b: &String, linked: bool) -> (r: String)
    ensures
        r@ == request_line(a@, b@, linked),
{
    let mut r = String::new();
    r.append("request: lval: ");
    r.append(a.as_str());
    r.append(" rval: ");
    r.append(b.as_str());
    r.append(": ");
    if linked {
        r.append("connected");
    } else {
        r.append("not connected");
    }
    proof {
        assert(r@ =~= request_line(a@, b@, linked));
    }
    r
}

} // verus!
