//! Counts of the accesses to a layer.
use vstd::prelude::*;

use crate::ids::Lsn;

verus! {

/// What a layer is accessed for.
#[derive(Clone, Copy, Debug, PartialEq, Eq, Structural)]
pub enum LayerAccessKind {
    GetValueReconstructData,
    Dump,
}

/// Whether reading the counts sets them back.
#[derive(Clone, Copy, Debug, PartialEq, Eq, Structural)]
pub enum LayerAccessStatsReset {
    NoReset,
    AllStats,
}

/// How often a layer was accessed, by kind. A count that has reached its limit
/// stays there.
#[derive(Clone, Copy, Debug, PartialEq, Eq, Structural)]
pub struct LayerAccessStats {
    pub get_value_reconstruct_data: u64,
    pub dump: u64,
}

/// One more, up to the limit of the type.
pub open spec fn counted(count: u64) -> u64 {
    if count < u64::MAX {
        (count + 1) as u64
    } else {
        count
    }
}

impl LayerAccessStats {
    /// The counts after one more access.
    pub open spec fn recorded(self, kind: LayerAccessKind) -> LayerAccessStats {
        match kind {
            LayerAccessKind::GetValueReconstructData => LayerAccessStats {
                get_value_reconstruct_data: counted(self.get_value_reconstruct_data),
                ..self
            },
            LayerAccessKind::Dump => LayerAccessStats { dump: counted(self.dump), ..self },
        }
    }

    /// The counts after they were read.
    pub open spec fn after(self, reset: LayerAccessStatsReset) -> LayerAccessStats {
        match reset {
            LayerAccessStatsReset::NoReset => self,
            LayerAccessStatsReset::AllStats => LayerAccessStats {
                get_value_reconstruct_data: 0,
                dump: 0,
            },
        }
    }

    /// No accesses yet.
    pub fn empty() -> (stats: LayerAccessStats)
        ensures
            stats.get_value_reconstruct_data == 0,
            stats.dump == 0,
    {
        LayerAccessStats { get_value_reconstruct_data: 0, dump: 0 }
    }

    /// Counts one access.
    pub fn record_access(&mut self, kind: LayerAccessKind)
        ensures
            *final(self) == old(self).recorded(kind),
    {
        match kind {
            LayerAccessKind::GetValueReconstructData => {
                self.get_value_reconstruct_data = self.get_value_reconstruct_data.saturating_add(1);
            },
            LayerAccessKind::Dump => {
                self.dump = self.dump.saturating_add(1);
            },
        }
    }

    /// The counts as they are. Sets them back if asked to.
    pub fn as_api_model(&mut self, reset: LayerAccessStatsReset) -> (counts: LayerAccessStats)
        ensures
            counts == *old(self),
            *final(self) == old(self).after(reset),
    {
        let counts: LayerAccessStats = *self;
        match reset {
            LayerAccessStatsReset::NoReset => {},
            LayerAccessStatsReset::AllStats => {
                *self = LayerAccessStats::empty();
            },
        }
        counts
    }
}

/// What is told of a layer.
#[derive(Debug)]
pub enum HistoricLayerInfo {
    Image {
        layer_file_name: String,
        layer_file_size: u64,
        lsn_start: Lsn,
        remote: bool,
        access_stats: LayerAccessStats,
    },
}

} // verus!
