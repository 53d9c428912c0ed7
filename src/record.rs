//! One advertised global: an interface name and its version.
use vstd::prelude::*;

verus! {

/// A global that the server advertised.
#[derive(Clone, Debug, PartialEq, Eq)]
pub struct GlobalRecord {
    pub interface: String,
    pub version: u32,
}

impl View for GlobalRecord {
    type V = (Seq<char>, u32);

    open spec fn view(&self) -> (Seq<char>, u32) {
        (self.interface@, self.version)
    }
}

/// The records of a sequence, each as its name and version.
pub open spec fn models(v: Seq<GlobalRecord>) -> Seq<(Seq<char>, u32)> {
    v.map_values(|g: GlobalRecord| g@)
}

impl GlobalRecord {
    pub fn new(interface: String, version: u32) -> (r: GlobalRecord)
        ensures
            r@ == (interface@, version),
    {
        GlobalRecord { interface, version }
    }

    /// A record with the same name and version.
    pub fn duplicate(&self) -> (r: GlobalRecord)
        ensures
            r@ == self@,
    {
        GlobalRecord { interface: self.interface.clone(), version: self.version }
    }
}

} // verus!
