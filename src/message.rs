//! The descriptor of one message of the log.

use vstd::prelude::*;

verus! {

/// A message of the log: its sequence number and the byte range
/// `[start, end)` of its markup in the document.
#[derive(Clone, Copy, Debug)]
pub struct BufferedMessage {
    pub id: u64,
    pub start: usize,
    pub end: usize,
}

/// Two descriptors stand for the same message exactly when their ids agree.
impl PartialEq for BufferedMessage {
    fn eq(&self, other: &BufferedMessage) -> (r: bool) {
        self.id == other.id
    }
}

impl vstd::std_specs::cmp::PartialEqSpecImpl for BufferedMessage {
    open spec fn obeys_eq_spec() -> bool {
        true
    }

    open spec fn eq_spec(&self, other: &BufferedMessage) -> bool {
        self.id == other.id
    }
}

} // verus!
