//! What is known of a layer without its file.
use vstd::prelude::*;

use crate::ids::{Lsn, TenantId, TimelineId};
use crate::key::KeyRange;
use crate::layer_name::ImageFileName;

verus! {

/// Describes the file of an image layer.
#[derive(Clone, Copy, Debug)]
pub struct PersistentLayerDesc {
    pub tenant_id: TenantId,
    pub timeline_id: TimelineId,
    /// The keys that the layer covers.
    pub key_range: KeyRange,
    /// The position in the log that the layer is an image of.
    pub lsn: Lsn,
    pub file_size: u64,
}

impl PersistentLayerDesc {
    /// What the name of the file says.
    pub open spec fn spec_file_name(self) -> ImageFileName {
        ImageFileName { key_range: self.key_range, lsn: self.lsn }
    }

    /// Describes an image layer.
    pub fn new_img(
        tenant_id: TenantId,
        timeline_id: TimelineId,
        key_range: KeyRange,
        lsn: Lsn,
        file_size: u64,
    ) -> (desc: PersistentLayerDesc)
        ensures
            desc == (PersistentLayerDesc { tenant_id, timeline_id, key_range, lsn, file_size }),
    {
        PersistentLayerDesc { tenant_id, timeline_id, key_range, lsn, file_size }
    }

    /// The position in the log that the layer is an image of.
    pub fn image_layer_lsn(&self) -> (lsn: Lsn)
        ensures
            lsn == self.lsn,
    {
        self.lsn
    }

    /// What the name of the file says.
    pub fn image_file_name(&self) -> (fname: ImageFileName)
        ensures
            fname == self.spec_file_name(),
    {
        ImageFileName { key_range: self.key_range, lsn: self.lsn }
    }

    /// Whether the layer needs other layers below it: an image never does.
    pub fn is_incremental(&self) -> (incremental: bool)
        ensures
            !incremental,
    {
        false
    }

    /// A short text that names the layer: the name of its file.
    pub fn short_id(&self) -> (text: String)
        ensures
            text@ == self.spec_file_name().name(),
    {
        self.image_file_name().file_name()
    }
}

} // verus!
