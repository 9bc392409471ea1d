//! The two first-class metric lanes tracked per commit: criterion walltime and
//! callgrind instruction counts. Both run the same protocol (ratios against a
//! baseline subject, rolling-median regression check, events); [`Lane`] is the
//! single value that tells the shared machinery which lane it is working.
use vstd::prelude::*;

verus! {

/// One of the two metric lanes.
#[derive(Clone, Copy, PartialEq, Eq, Debug, Structural)]
pub enum Lane {
    /// Criterion per-call walltime.
    Walltime,
    /// CodSpeed/callgrind instruction counts (`Ir`).
    Instructions,
}

impl Lane {
    /// The text of [`Lane::metric_field`].
    pub open spec fn metric_spec(self) -> Option<Seq<char>> {
        match self {
            Lane::Walltime => None,
            Lane::Instructions => Some("instructions"@),
        }
    }

    /// The `metric` value that events from this lane carry: none for the
    /// walltime lane, `"instructions"` for the instruction-count lane.
    pub fn metric_field(self) -> (r: Option<&'static str>)
        ensures
            match r {
                Some(s) => self.metric_spec() == Some(s@),
                None => self.metric_spec() is None,
            },
    {
        match self {
            Lane::Walltime => None,
            Lane::Instructions => Some("instructions"),
        }
    }

    /// Human-readable lane name for log lines.
    pub fn display_name(self) -> (r: &'static str)
        ensures
            r@ == (match self {
                Lane::Walltime => "walltime"@,
                Lane::Instructions => "instructions"@,
            }),
    {
        match self {
            Lane::Walltime => "walltime",
            Lane::Instructions => "instructions",
        }
    }
}

} // verus!
