//! The configuration, as the loader hands it over.

use vstd::prelude::*;
use crate::entry::{is_well_keyed, well_keyed, Entry};

verus! {

/// The whole configuration: the metric groups, the connection to the
/// protocol daemon, and the base path under which every value is stored.
#[derive(Debug)]
pub struct Config {
    pub metrics: Vec<Metric>,
    pub connection: Connection,
    pub oid_base: Vec<u32>,
}

/// One metric group: the command whose output is read, and the entries
/// that say which values are taken from it. The entries are held with
/// their keys; in a well-formed group no key occurs twice among siblings.
#[derive(Debug)]
pub struct Metric {
    pub command: String,
    pub name: String,
    pub relative_oid: Vec<u32>,
    pub mibs: Vec<(u32, Entry)>,
}

impl Metric {
    /// The entries are a mapping from key to entry, at the top and at
    /// every level below.
    pub open spec fn wf(&self) -> bool {
        well_keyed(self.mibs@)
    }

    /// Whether the group is well-formed.
    pub fn is_wf(&self) -> (r: bool)
        ensures
            r == self.wf(),
    {
        is_well_keyed(&self.mibs)
    }
}

#[derive(Clone, Debug, PartialEq, Eq)]
pub struct Connection {
    pub socket: String,
    pub agent_timeout_seconds: u64,
}

} // verus!
