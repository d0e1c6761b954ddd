//! The record a client reports to the heartbeat service.
use vstd::prelude::*;

verus! {

/// A count of events reported by one customer.
#[derive(Debug)]
pub struct Beat {
    pub customer_id: String,
    pub event_count: i32,
}

} // verus!
