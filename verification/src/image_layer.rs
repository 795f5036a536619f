//! An image layer represents an image or a snapshot of a key-range at one
//! particular LSN. It contains an image of all key-value pairs in its key-range.
//! Any key that falls into the image layer's range but does not exist in the
//! layer, does not exist.
use vstd::prelude::*;

use crate::btree::{search_tree, tree_entries};
use crate::format::PAGE_SZ;
use crate::ids::{Lsn, LsnRange, TenantId, TimelineId};
use crate::index_read::{index_blocks, stored_value_of, ValueLookup};
use crate::index_walk::IndexWalk;
use crate::key::Key;
use crate::layer_desc::PersistentLayerDesc;
use crate::layer_name::{path_for, spec_path_for, ImageFileName, PageServerConf, PathOrConf};
use crate::reconstruct::{ValueReconstructResult, ValueReconstructState};
use crate::stats::{HistoricLayerInfo, LayerAccessKind, LayerAccessStats, LayerAccessStatsReset};
use crate::summary::{summary_of, DeserializeError, Summary};
use crate::text::{decimal, put_decimal};

verus! {

/// What is kept of a file once it has been opened: where its index is.
#[derive(Clone, Copy, Debug, PartialEq, Eq, Structural)]
pub struct ImageLayerInner {
    /// The block where the index begins.
    pub index_start_blk: u32,
    /// The block within the index that holds its root.
    pub index_root_blk: u32,
    /// The position in the log that the images are of.
    pub lsn: Lsn,
}

/// Why a file could not be loaded.
#[derive(Clone, Copy, Debug, PartialEq, Eq)]
pub enum LoadError {
    /// What was handed over is not a whole block.
    BlockSize,
    /// The in-file summary does not match the expected summary.
    SummaryMismatch { actual: Summary, expected: Summary },
}

/// The summary at the front of the first block of a file. What is not a whole
/// block has none; a block always has room for one.
pub open spec fn block_summary(block: Seq<u8>) -> Option<Summary> {
    if block.len() == PAGE_SZ {
        summary_of(block)
    } else {
        None
    }
}

/// Reads the summary at the front of the first block of a file.
fn read_summary(block: &[u8]) -> (result: Result<Summary, LoadError>)
    ensures
        match result {
            Ok(summary) => block@.len() == PAGE_SZ && block_summary(block@) == Some(summary),
            Err(error) => {
                &&& block@.len() != PAGE_SZ
                &&& block_summary(block@) is None
                &&& error == LoadError::BlockSize
            },
        },
{
    if block.len() != PAGE_SZ {
        return Err(LoadError::BlockSize);
    }
    match Summary::des_prefix(block) {
        Ok(summary) => Ok(summary),
        Err(DeserializeError::UnexpectedEnd) => Err(LoadError::BlockSize),
    }
}

impl ImageLayerInner {
    /// What loading a file gives, whose first block is `summary_blk`. Where a
    /// summary is expected, the one in the file must be the same in all but where
    /// the index is.
    pub open spec fn spec_load(
        lsn: Lsn,
        summary: Option<Summary>,
        summary_blk: Seq<u8>,
    ) -> Result<ImageLayerInner, LoadError> {
        match (block_summary(summary_blk), summary) {
            (None, _) => Err(LoadError::BlockSize),
            (Some(actual), Some(expected)) if actual != expected.with_index_of(actual) => Err(
                LoadError::SummaryMismatch { actual, expected: expected.with_index_of(actual) },
            ),
            (Some(actual), _) => Ok(
                ImageLayerInner {
                    index_start_blk: actual.index_start_blk,
                    index_root_blk: actual.index_root_blk,
                    lsn,
                },
            ),
        }
    }

    /// Reads from the first block of a file where its index is.
    pub fn load(lsn: Lsn, summary: Option<Summary>, summary_blk: &[u8]) -> (result: Result<
        ImageLayerInner,
        LoadError,
    >)
        ensures
            result == Self::spec_load(lsn, summary, summary_blk@),
            result == Err::<ImageLayerInner, LoadError>(LoadError::BlockSize)
                <==> summary_blk@.len() != PAGE_SZ,
    {
        let actual = match read_summary(summary_blk) {
            Ok(actual) => actual,
            Err(error) => {
                return Err(error);
            },
        };
        if let Some(mut expected) = summary {
            expected.index_start_blk = actual.index_start_blk;
            expected.index_root_blk = actual.index_root_blk;
            if !actual.same(&expected) {
                return Err(LoadError::SummaryMismatch { actual, expected });
            }
        }
        Ok(
            ImageLayerInner {
                index_start_blk: actual.index_start_blk,
                index_root_blk: actual.index_root_blk,
                lsn,
            },
        )
    }

    /// Whether a lookup is that of a key, before anything was read: it comes to
    /// what the file holds for the key, by what the index says of it.
    pub open spec fn is_lookup_of(self, lookup: ValueLookup, key: Key) -> bool {
        &&& lookup.block() == self.index_start_blk + self.index_root_blk
        &&& lookup.spec_value_offset() is None
        &&& lookup.key_number() == key.number()
        &&& lookup.level_due() is None
        &&& forall|file: Seq<u8>|
            #![trigger lookup.agrees(file)]
            #![trigger lookup.index_says(file)]
            lookup.agrees(file) && lookup.index_says(file) == search_tree(
                index_blocks(file, self.index_start_blk as int),
                self.index_root_blk as int,
                key.number(),
            ) && lookup.outcome(file) == stored_value_of(
                file,
                self.index_start_blk as int,
                self.index_root_blk as int,
                key.number(),
            )
    }

    /// Starts looking up the image of a key. What comes of it is for
    /// `reconstruct`.
    pub fn get_value_reconstruct_data(&self, key: Key) -> (lookup: ValueLookup)
        ensures
            lookup.wf(),
            self.is_lookup_of(lookup, key),
    {
        ValueLookup::new(self.index_start_blk, self.index_root_blk, key.to_bytes())
    }

    /// Hands over the image that was found for a key, if any.
    pub fn reconstruct(
        &self,
        found: Option<Vec<u8>>,
        reconstruct_state: &mut ValueReconstructState,
    ) -> (result: ValueReconstructResult)
        ensures
            match found {
                Some(blob) => {
                    &&& result == ValueReconstructResult::Complete
                    &&& final(reconstruct_state).has_image(self.lsn, blob@)
                },
                None => {
                    &&& result == ValueReconstructResult::Missing
                    &&& *final(reconstruct_state) == *old(reconstruct_state)
                },
            },
    {
        reconstruct_state.note(self.lsn, found)
    }

    /// Starts walking through the index.
    pub fn walk(&self) -> (walk: IndexWalk)
        ensures
            !walk.is_over(),
            walk.block() == self.index_start_blk + self.index_root_blk,
            forall|file: Seq<u8>| #[trigger]
                walk.pending(file) == tree_entries(
                    index_blocks(file, self.index_start_blk as int),
                    self.index_root_blk as int,
                ),
    {
        IndexWalk::new(self.index_start_blk, self.index_root_blk)
    }

    /// The text that shows the value when debugging.
    pub open spec fn shown(self) -> Seq<char> {
        "ImageLayerInner { index_start_blk: "@ + decimal(self.index_start_blk as nat)
            + ", index_root_blk: "@ + decimal(self.index_root_blk as nat) + " }"@
    }

    /// The text that shows the value when debugging.
    pub fn debug_text(&self) -> (text: String)
        ensures
            text@ == self.shown(),
    {
        let mut text: String = String::new();
        text.append("ImageLayerInner { index_start_blk: ");
        put_decimal(&mut text, self.index_start_blk as u64);
        text.append(", index_root_blk: ");
        put_decimal(&mut text, self.index_root_blk as u64);
        text.append(" }");
        assert(text@ =~= self.shown());
        text
    }
}

/// The in-memory data structure associated with an on-disk image file.
///
/// If a layer is loaded, it knows where the index of its file is. Otherwise it is
/// just a placeholder for a file that exists on disk, and it needs to be loaded
/// before it can be used.
#[derive(Debug)]
pub struct ImageLayer {
    /// Where the file is.
    pub path_or_conf: PathOrConf,
    pub desc: PersistentLayerDesc,
    /// The position in the log that all images are of: that of `desc`.
    pub lsn: Lsn,
    pub access_stats: LayerAccessStats,
    /// What was loaded from the file, if anything was.
    pub inner: Option<ImageLayerInner>,
}

impl From<&ImageLayer> for Summary {
    /// The summary that the layer's file has to have.
    fn from(layer: &ImageLayer) -> (summary: Summary) {
        Summary::expected(
            layer.desc.tenant_id,
            layer.desc.timeline_id,
            layer.desc.key_range,
            layer.lsn,
        )
    }
}

impl vstd::std_specs::convert::FromSpecImpl<&ImageLayer> for Summary {
    open spec fn obeys_from_spec() -> bool {
        true
    }

    open spec fn from_spec(layer: &ImageLayer) -> Summary {
        Summary::spec_expected(
            layer.desc.tenant_id,
            layer.desc.timeline_id,
            layer.desc.key_range,
            layer.lsn,
        )
    }
}

/// What looking up a key starts with.
pub enum LookupStart {
    /// The file has to be loaded.
    Load,
    /// The index is searched.
    Search(ValueLookup),
}

/// What a dump goes on with after its first line.
pub enum DumpStart {
    /// Nothing: that is all.
    Done,
    /// The file has to be loaded.
    Load,
    /// The index is walked through.
    Walk(IndexWalk),
}

impl ImageLayer {
    /// Create an ImageLayer struct representing an existing file on disk.
    pub fn new(
        conf: &'static PageServerConf,
        timeline_id: TimelineId,
        tenant_id: TenantId,
        filename: &ImageFileName,
        file_size: u64,
        access_stats: LayerAccessStats,
    ) -> (layer: ImageLayer)
        ensures
            layer == (ImageLayer {
                path_or_conf: PathOrConf::Conf(conf),
                desc: PersistentLayerDesc {
                    tenant_id,
                    timeline_id,
                    key_range: filename.key_range,
                    lsn: filename.lsn,
                    file_size,
                },
                lsn: filename.lsn,
                access_stats,
                inner: None,
            }),
    {
        ImageLayer {
            path_or_conf: PathOrConf::Conf(conf),
            desc: PersistentLayerDesc::new_img(
                tenant_id,
                timeline_id,
                filename.key_range,
                filename.lsn,
                file_size,
            ),
            lsn: filename.lsn,
            access_stats,
            inner: None,
        }
    }

    /// Create an ImageLayer struct representing an existing file on disk, whose
    /// first block is `summary_buf`. What the layer holds is taken from there.
    ///
    /// This variant is for debugging.
    pub fn new_for_path(path: String, summary_buf: &[u8], file_size: u64) -> (result: Result<
        ImageLayer,
        LoadError,
    >)
        ensures
            match block_summary(summary_buf@) {
                Some(summary) => {
                    &&& summary_buf@.len() == PAGE_SZ
                    &&& result == Ok::<ImageLayer, LoadError>(
                        ImageLayer {
                            path_or_conf: PathOrConf::Path(path),
                            desc: PersistentLayerDesc {
                                tenant_id: summary.tenant_id,
                                timeline_id: summary.timeline_id,
                                key_range: summary.key_range,
                                lsn: summary.lsn,
                                file_size,
                            },
                            lsn: summary.lsn,
                            access_stats: LayerAccessStats {
                                get_value_reconstruct_data: 0,
                                dump: 0,
                            },
                            inner: None,
                        },
                    )
                },
                None => {
                    &&& summary_buf@.len() != PAGE_SZ
                    &&& result == Err::<ImageLayer, LoadError>(LoadError::BlockSize)
                },
            },
    {
        let summary = match read_summary(summary_buf) {
            Ok(summary) => summary,
            Err(error) => {
                return Err(error);
            },
        };
        Ok(
            ImageLayer {
                path_or_conf: PathOrConf::Path(path),
                desc: PersistentLayerDesc::new_img(
                    summary.tenant_id,
                    summary.timeline_id,
                    summary.key_range,
                    summary.lsn,
                    file_size,
                ),
                lsn: summary.lsn,
                access_stats: LayerAccessStats::empty(),
                inner: None,
            },
        )
    }

    /// What the name of the file says.
    pub fn layer_name(&self) -> (fname: ImageFileName)
        ensures
            fname == self.desc.spec_file_name(),
    {
        self.desc.image_file_name()
    }

    /// What is known of the layer without its file.
    pub fn layer_desc(&self) -> (desc: &PersistentLayerDesc)
        ensures
            *desc == self.desc,
    {
        &self.desc
    }

    /// Path to the layer file.
    pub open spec fn spec_path(self) -> Seq<char> {
        spec_path_for(
            self.path_or_conf,
            self.desc.timeline_id,
            self.desc.tenant_id,
            self.desc.spec_file_name(),
        )
    }

    /// Path to the layer file.
    pub fn path(&self) -> (path: String)
        ensures
            path@ == self.spec_path(),
    {
        path_for(
            &self.path_or_conf,
            self.desc.timeline_id,
            self.desc.tenant_id,
            &self.layer_name(),
        )
    }

    /// Path to the layer file, which is always there.
    pub fn local_path(&self) -> (path: Option<String>)
        ensures
            path is Some,
            path->0@ == self.spec_path(),
    {
        Some(self.path())
    }

    /// How often the layer was accessed.
    pub fn access_stats(&self) -> (stats: &LayerAccessStats)
        ensures
            *stats == self.access_stats,
    {
        &self.access_stats
    }

    /// What is told of the layer. Sets the counts of accesses back if asked to.
    pub fn info(&mut self, reset: LayerAccessStatsReset) -> (info: HistoricLayerInfo)
        ensures
            match info {
                HistoricLayerInfo::Image {
                    layer_file_name,
                    layer_file_size,
                    lsn_start,
                    remote,
                    access_stats,
                } => {
                    &&& layer_file_name@ == old(self).desc.spec_file_name().name()
                    &&& layer_file_size == old(self).desc.file_size
                    &&& lsn_start == old(self).desc.lsn
                    &&& !remote
                    &&& access_stats == old(self).access_stats
                },
            },
            *final(self) == (ImageLayer {
                access_stats: old(self).access_stats.after(reset),
                ..*old(self)
            }),
    {
        let layer_file_name: String = self.layer_name().file_name();
        let lsn_start = self.desc.image_layer_lsn();
        let layer_file_size: u64 = self.desc.file_size;
        let access_stats = self.access_stats.as_api_model(reset);
        HistoricLayerInfo::Image {
            layer_file_name,
            layer_file_size,
            lsn_start,
            remote: false,
            access_stats,
        }
    }

    /// Counts an access. Gives what was loaded from the file, if that was done
    /// already. If not, `load_inner` comes next, with the first block of the file.
    pub fn load(&mut self, access_kind: LayerAccessKind) -> (loaded: Option<ImageLayerInner>)
        ensures
            loaded == old(self).inner,
            *final(self) == (ImageLayer {
                access_stats: old(self).access_stats.recorded(access_kind),
                ..*old(self)
            }),
    {
        self.access_stats.record_access(access_kind);
        self.inner
    }

    /// The summary that the file has to have, if any. One that was opened by its
    /// path may have any.
    pub open spec fn expected_summary(self) -> Option<Summary> {
        match self.path_or_conf {
            PathOrConf::Conf(_) => Some(
                Summary::spec_expected(
                    self.desc.tenant_id,
                    self.desc.timeline_id,
                    self.desc.key_range,
                    self.lsn,
                ),
            ),
            PathOrConf::Path(_) => None,
        }
    }

    /// What the layer has loaded once the first block of its file was read.
    pub open spec fn spec_load_inner(self, summary_blk: Seq<u8>) -> Result<
        ImageLayerInner,
        LoadError,
    > {
        match self.inner {
            Some(inner) => Ok(inner),
            None => ImageLayerInner::spec_load(
                self.desc.lsn,
                self.expected_summary(),
                summary_blk,
            ),
        }
    }

    /// Loads the file, whose first block is `summary_blk`, if it was not loaded
    /// already. If that fails, nothing changes.
    pub fn load_inner(&mut self, summary_blk: &[u8]) -> (result: Result<
        ImageLayerInner,
        LoadError,
    >)
        ensures
            result == old(self).spec_load_inner(summary_blk@),
            *final(self) == match result {
                Ok(inner) => ImageLayer { inner: Some(inner), ..*old(self) },
                Err(_) => *old(self),
            },
            old(self).inner is None ==> (result == Err::<ImageLayerInner, LoadError>(
                LoadError::BlockSize,
            ) <==> summary_blk@.len() != PAGE_SZ),
    {
        if let Some(inner) = self.inner {
            return Ok(inner);
        }
        let expected_summary = match &self.path_or_conf {
            PathOrConf::Conf(_) => Some(Summary::from(&*self)),
            PathOrConf::Path(_) => None,
        };
        let loaded = match ImageLayerInner::load(
            self.desc.image_layer_lsn(),
            expected_summary,
            summary_blk,
        ) {
            Ok(loaded) => loaded,
            Err(error) => {
                return Err(error);
            },
        };
        self.inner = Some(loaded);
        Ok(loaded)
    }

    /// Compares the name of a file that was opened by its path with the name that
    /// its summary asks for. Gives the latter where they differ.
    pub fn check_filename(&self, actual_filename: &String) -> (expected: Option<String>)
        ensures
            match expected {
                Some(expected) => {
                    &&& self.path_or_conf is Path
                    &&& expected@ == self.desc.spec_file_name().name()
                    &&& actual_filename@ != expected@
                },
                None => {
                    ||| self.path_or_conf is Conf
                    ||| actual_filename@ == self.desc.spec_file_name().name()
                },
            },
    {
        match &self.path_or_conf {
            PathOrConf::Path(_) => {
                let expected_filename: String = self.layer_name().file_name();
                if *actual_filename != expected_filename {
                    Some(expected_filename)
                } else {
                    None
                }
            },
            PathOrConf::Conf(_) => None,
        }
    }

    /// Starts looking up the image of a key: counts the access, and searches the
    /// index, if the file is loaded. If not, `load_inner` comes first.
    pub fn get_value_reconstruct_data(&mut self, key: Key, lsn_range: LsnRange) -> (start:
        LookupStart)
        requires
            old(self).desc.key_range.holds(key),
            lsn_range.start.0 >= old(self).lsn.0,
            lsn_range.end.0 >= old(self).lsn.0,
        ensures
            *final(self) == (ImageLayer {
                access_stats: old(self).access_stats.recorded(
                    LayerAccessKind::GetValueReconstructData,
                ),
                ..*old(self)
            }),
            match start {
                LookupStart::Load => old(self).inner is None,
                LookupStart::Search(lookup) => {
                    &&& old(self).inner is Some
                    &&& lookup.wf()
                    &&& old(self).inner->0.is_lookup_of(lookup, key)
                },
            },
    {
        match self.load(LayerAccessKind::GetValueReconstructData) {
            Some(inner) => LookupStart::Search(inner.get_value_reconstruct_data(key)),
            None => LookupStart::Load,
        }
    }

    /// The first line of a dump.
    pub open spec fn dump_line(self) -> Seq<char> {
        "----- image layer for ten "@ + self.desc.tenant_id.text() + " tli "@
            + self.desc.timeline_id.text() + " key "@ + self.desc.key_range.start.text() + "-"@
            + self.desc.key_range.end.text() + " at "@ + self.lsn.text()
            + " is_incremental false size "@ + decimal(self.desc.file_size as nat) + " ----"@
    }

    /// Starts a dump: gives its first line. Where all is to be shown, counts the
    /// access, and walks through the index, if the file is loaded. If not,
    /// `load_inner` comes first.
    pub fn dump(&mut self, verbose: bool) -> (dump: (String, DumpStart))
        ensures
            dump.0@ == old(self).dump_line(),
            *final(self) == if verbose {
                ImageLayer {
                    access_stats: old(self).access_stats.recorded(LayerAccessKind::Dump),
                    ..*old(self)
                }
            } else {
                *old(self)
            },
            match dump.1 {
                DumpStart::Done => !verbose,
                DumpStart::Load => verbose && old(self).inner is None,
                DumpStart::Walk(walk) => {
                    &&& verbose
                    &&& old(self).inner is Some
                    &&& !walk.is_over()
                    &&& walk.block() == old(self).inner->0.index_start_blk + old(
                        self,
                    ).inner->0.index_root_blk
                    &&& forall|file: Seq<u8>| #[trigger]
                        walk.pending(file) == tree_entries(
                            index_blocks(file, old(self).inner->0.index_start_blk as int),
                            old(self).inner->0.index_root_blk as int,
                        )
                },
            },
    {
        let mut line: String = String::new();
        line.append("----- image layer for ten ");
        line.append(self.desc.tenant_id.to_text().as_str());
        line.append(" tli ");
        line.append(self.desc.timeline_id.to_text().as_str());
        line.append(" key ");
        self.desc.key_range.start.put_text(&mut line);
        line.append("-");
        self.desc.key_range.end.put_text(&mut line);
        line.append(" at ");
        self.lsn.put_text(&mut line);
        if self.desc.is_incremental() {
            line.append(" is_incremental true size ");
        } else {
            line.append(" is_incremental false size ");
        }
        put_decimal(&mut line, self.desc.file_size);
        line.append(" ----");
        assert(line@ =~= self.dump_line());
        if !verbose {
            return (line, DumpStart::Done);
        }
        match self.load(LayerAccessKind::Dump) {
            Some(inner) => (line, DumpStart::Walk(inner.walk())),
            None => (line, DumpStart::Load),
        }
    }

    /// The text that shows the layer when debugging.
    pub open spec fn shown(self) -> Seq<char> {
        "ImageLayer { key_range: "@ + self.desc.key_range.start.text() + ".."@
            + self.desc.key_range.end.text() + ", file_size: "@ + decimal(
            self.desc.file_size as nat,
        ) + ", lsn: "@ + self.lsn.text() + ", inner: OnceCell { value: "@ + (match self.inner {
            Some(inner) => "Some("@ + inner.shown() + ")"@,
            None => "None"@,
        }) + " } }"@
    }

    /// The text that shows the layer when debugging.
    pub fn debug_text(&self) -> (text: String)
        ensures
            text@ == self.shown(),
    {
        let mut text: String = String::new();
        text.append("ImageLayer { key_range: ");
        self.desc.key_range.start.put_text(&mut text);
        text.append("..");
        self.desc.key_range.end.put_text(&mut text);
        text.append(", file_size: ");
        put_decimal(&mut text, self.desc.file_size);
        text.append(", lsn: ");
        self.lsn.put_text(&mut text);
        text.append(", inner: OnceCell { value: ");
        match &self.inner {
            Some(inner) => {
                text.append("Some(");
                text.append(inner.debug_text().as_str());
                text.append(")");
            },
            None => {
                text.append("None");
            },
        }
        text.append(" } }");
        assert(text@ =~= self.shown());
        text
    }

    /// The text that names the layer.
    pub fn display_text(&self) -> (text: String)
        ensures
            text@ == self.desc.spec_file_name().name(),
    {
        self.layer_desc().short_id()
    }
}

} // verus!
