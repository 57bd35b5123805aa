//! The two-phase loader: edges first, then queries.
//!
//! Input comes as lines. While loading, every line that parses as a pair is
//! an edge and is echoed; the first line that does not parse switches to the
//! query phase and is discarded. From then on every line that parses as a
//! pair is answered as a query against the frozen edge store, and every
//! other line is silently skipped.

use vstd::prelude::*;

use crate::graph::connected;
use crate::graph::EdgeStore;
use crate::graph::EdgeView;
use crate::parse::parse_line;
use crate::parse::parsed_pair;
use crate::report::connection_line;
use crate::report::render_connection;
use crate::report::render_request;
use crate::report::request_line;

verus! {

/// Which section of the input the loader is reading.
pub enum ReaderState {
    /// The first section: each pair line is an edge.
    Connection,
    /// The second section: each pair line is a query.
    Request,
}

/// The loader: the current section and the edge store built so far.
pub struct Loader {
    pub state: ReaderState,
    pub store: EdgeStore,
}

impl Loader {
    /// A fresh loader: reading edges into an empty store.
    pub fn new() -> (r: Loader)
        ensures
            r.state is Connection,
            r.store@ == Seq::<EdgeView>::empty(),
    {
        Loader { state: ReaderState::Connection, store: EdgeStore::new() }
    }

    /// Consumes one input line and returns the report line it produces, if
    /// any.
    ///
    /// In the edge section a pair line grows the store and is echoed, and
    /// any other line switches to the query section with no output. In the
    /// query section the store never changes: a pair line is answered
    /// against it, and any other line produces nothing.
    pub fn process_line(&mut self, line: &str) -> (out: Option<String>)
        ensures
            old(self).state is Connection && parsed_pair(line@) is Some ==> {
                &&& final(self).state is Connection
                &&& final(self).store@ == old(self).store@.push(parsed_pair(line@).unwrap())
                &&& out is Some
                &&& out.unwrap()@ == connection_line(
                    parsed_pair(line@).unwrap().0,
                    parsed_pair(line@).unwrap().1,
                )
            },
            old(self).state is Connection && parsed_pair(line@) is None ==> {
                &&& final(self).state is Request
                &&& final(self).store@ == old(self).store@
                &&& out is None
            },
            old(self).state is Request ==> final(self).state is Request && final(self).store@
                == old(self).store@,
            old(self).state is Request && parsed_pair(line@) is Some ==> {
                &&& out is Some
                &&& out.unwrap()@ == request_line(
                    parsed_pair(line@).unwrap().0,
                    parsed_pair(line@).unwrap().1,
                    connected(
                        old(self).store@,
                        parsed_pair(line@).unwrap().0,
                        parsed_pair(line@).unwrap().1,
                    ),
                )
            },
            old(self).state is Request && parsed_pair(line@) is None ==> out is None,
    {
        match self.state {
            ReaderState::Connection => match parse_line(line) {
                Some(pair) => {
                    let msg = render_connection(&pair.0, &pair.1);
                    self.store.add(pair);
                    Some(msg)
                },
                None => {
                    self.state = ReaderState::Request;
                    None
                },
            },
            ReaderState::Request => match parse_line(line) {
                Some(pair) => {
                    let linked = self.store.is_connected(&pair.0, &pair.1);
                    Some(render_request(&pair.0, &pair.1, linked))
                },
                None => None,
            },
        }
    }
}

} // verus!
