//! The values that the syncer is given and hands back.

use vstd::prelude::*;

use crate::keyed::KeySet;
use crate::mac::Mac;

verus! {

/// An uplink and the bridge it serves, by name.
#[derive(Debug, Clone)]
pub struct Pair {
    pub dev: String,
    pub bridge: String,
}

/// What a `Pair` says.
pub struct PairModel {
    pub dev: Seq<char>,
    pub bridge: Seq<char>,
}

impl View for Pair {
    type V = PairModel;

    open spec fn view(&self) -> PairModel {
        PairModel { dev: self.dev@, bridge: self.bridge@ }
    }
}

/// What a list of pairs says.
pub open spec fn pair_list(v: Seq<Pair>) -> Seq<PairModel> {
    v.map_values(|p: Pair| p@)
}

/// How soon a batch of notifications needs a full pass.
///
/// A pass dumps the host's whole forwarding table. Deletions arrive as bursts
/// of hundreds when a bridge ages its entries out, and none is urgent.
#[derive(Debug, Clone, Copy, PartialEq, Eq, Structural, PartialOrd, Ord)]
pub enum Urgency {
    /// The batch was somebody else's entirely.
    Nothing,
    /// Something may need removing, but nothing is waiting on it.
    WhenConvenient,
    /// Registrations, removals or interfaces changed.
    Now,
}

/// What one pass left behind about an uplink's filter.
pub struct Carried {
    /// Which addresses the card holds, foreign entries included; its length is
    /// the occupancy.
    pub present: KeySet<Mac>,
    /// The addresses the pass decided to keep: the one pool that both valves
    /// surrender from.
    pub quiet: KeySet<Mac>,
    /// When that pass ran, in the clock the addresses are stamped in.
    pub passed_at: u64,
}

/// What a `Carried` holds.
pub struct CarriedModel {
    pub present: Set<Mac>,
    pub quiet: Set<Mac>,
    pub passed_at: u64,
}

impl View for Carried {
    type V = CarriedModel;

    open spec fn view(&self) -> CarriedModel {
        CarriedModel {
            present: self.present@,
            quiet: self.quiet@,
            passed_at: self.passed_at,
        }
    }
}

/// The per-address half of a report.
pub struct Detail {
    pub wanted: Vec<Mac>,
    /// the kept addresses, with how long each has been silent, in milliseconds
    pub quiet_ages: Vec<(Mac, u64)>,
    /// The bridge port each address was last learnt behind, where known.
    pub learnt_behind: Vec<(Mac, String)>,
}

/// What one pass found out about one uplink.
pub struct Report {
    pub dev: String,
    pub bridge: String,
    pub port: String,
    pub driver: String,
    /// how many addresses this uplink's filter should hold
    pub wanted: usize,
    pub owned: usize,
    pub present: usize,
    pub stacked: Vec<String>,
    pub added: usize,
    pub removed: usize,
    pub foreign: usize,
    /// aged out of the bridge, kept because their guest ports live on
    pub quiet: usize,
    /// Only built when somebody prints it.
    pub detail: Option<Detail>,
}

} // verus!
