//! A personal journal of short "regret" entries: the record model, tag
//! normalisation, the mood scale, the load policy of the stored log, and the
//! two read-only views over it (recent entries and frequency tables).

pub mod entry;
pub mod tags;
pub mod recorder;
pub mod report;
pub mod store;
