//! Deciding which addresses belong in an uplink's unicast filter, and putting
//! them there.

pub mod agree_laws;
pub mod apply;
pub mod batch;
pub mod batch_laws;
pub mod card;
pub mod decide;
pub mod dry_laws;
pub mod fast;
pub mod fast_laws;
pub mod files;
pub mod filter_laws;
pub mod flush;
pub mod flush_laws;
pub mod journal;
pub mod keep_laws;
pub mod laws;
pub mod limit_laws;
pub mod line_laws;
pub mod lines_kept;
pub mod memory;
pub mod memory_laws;
pub mod millis;
pub mod name_laws;
pub mod notes;
pub mod orphan_laws;
pub mod orphans;
pub mod pass;
pub mod pass_laws;
pub mod place;
pub mod reconcile;
pub mod record;
pub mod report_laws;
pub mod result_laws;
pub mod said;
pub mod syncer;
pub mod timings;
pub mod types;
pub mod valve;
pub mod vf_laws;
