//! A connection together with the walk to its start.

use vstd::prelude::*;
use crate::mvg::Connection;

verus! {

/// A connection and the seconds it takes to walk to its first station.
#[derive(Debug, Clone)]
pub struct CompleteConnection {
    pub connection: Connection,
    pub walk_to_start: i64,
}

impl CompleteConnection {
    /// The instant at which one has to set off: the planned departure
    /// minus the walk.
    pub fn start_to_walk(&self) -> (r: i128)
        requires
            self.connection.wf(),
        ensures
            r == self.connection.departure_time() - self.walk_to_start,
    {
        (self.connection.planned_departure_time() as i128) - (self.walk_to_start as i128)
    }
}

/// Attach the walk to the start to a connection.
pub trait ConnectionExt: Sized {
    fn with_walk_to_start(self, walk_to_start: i64) -> (r: CompleteConnection)
        ensures
            r.walk_to_start == walk_to_start,
    ;
}

impl ConnectionExt for Connection {
    fn with_walk_to_start(self, walk_to_start: i64) -> (r: CompleteConnection)
        ensures
            r.connection == self,
    {
        CompleteConnection { connection: self, walk_to_start }
    }
}

} // verus!
