//! Builds the file of a new image layer.
//!
//! Nothing here touches a file. The writer says what is to be written where, and
//! under which names; what it says comes in the order in which it has to be done.
use vstd::prelude::*;

use crate::big_endian::{be_value, lemma_be_bytes_len};
use crate::blob::{blob_frame, put_blob, stored_len, LONG_MARK, MAX_BLOB};
use crate::btree::{is_index_of, sorted, MAX_VALUE};
use crate::btree_build::{block_views, check_entry, DiskBtreeBuilder, DiskBtreeError};
use crate::format::{holds_at, write_at, IMAGE_FILE_MAGIC, PAGE_SZ, STORAGE_FORMAT_VERSION};
use crate::ids::{Lsn, TenantId, TimelineId};
use crate::image_layer::ImageLayer;
use crate::key::{law_key_order, Key, KeyRange, KEY_SIZE};
use crate::layer_desc::PersistentLayerDesc;
use crate::layer_name::{
    is_temp_path, path_for, spec_path_for, temp_path_for, ImageFileName, PageServerConf, PathOrConf,
};
use crate::stats::LayerAccessStats;
use crate::summary::Summary;

verus! {

/// The length of the longest file.
pub const MAX_FILE: u64 = 0x7fff_ffff_ffff_ffff;

/// Why an image was not put.
#[derive(Clone, Copy, Debug)]
pub enum PutError {
    /// The key is not in the range of the layer.
    OutOfRange,
    /// The image has this many bytes: more than can be stored.
    BlobTooLarge(usize),
    /// There is no room for it in a file.
    FileTooLarge,
    /// The image was stored, but the index did not take the key.
    Index(DiskBtreeError),
}

/// What a writer has come to.
pub struct WriterView {
    pub conf: &'static PageServerConf,
    /// The path of the temporary file.
    pub path: Seq<char>,
    pub timeline_id: TimelineId,
    pub tenant_id: TenantId,
    pub key_range: KeyRange,
    pub lsn: Lsn,
    /// The "values" part of the file, which starts on block 1.
    pub values: Seq<u8>,
    /// How many bytes at the end of the values are still to be written.
    pub unwritten: nat,
    /// The index: the number of each key, and the offset of its image.
    pub entries: Seq<(nat, nat)>,
    /// The image of each entry.
    pub images: Seq<Seq<u8>>,
    /// How many of the last entries have images that are still to be written.
    pub waiting: nat,
}

impl WriterView {
    /// Where the next value goes.
    pub open spec fn end(self) -> int {
        PAGE_SZ + self.values.len()
    }

    /// Whether entry `i` has a key of the range, and leads to its image. An image
    /// that does not wait lies in what was written.
    pub open spec fn entry_stored(self, i: int) -> bool {
        let (key, offset) = self.entries[i];
        &&& i < self.entries.len() - self.waiting ==> offset + blob_frame(self.images[i]).len()
            <= self.end() - self.unwritten
        &&& self.key_range.start.number() <= key < self.key_range.end.number()
        &&& PAGE_SZ + i <= offset <= MAX_VALUE
        &&& self.images[i].len() <= MAX_BLOB
        &&& holds_at(self.values, offset - PAGE_SZ, blob_frame(self.images[i]))
    }

    /// What holds of a writer at every step: the keys ascend, and each leads to
    /// its image.
    pub open spec fn wf(self) -> bool {
        &&& self.entries.len() == self.images.len() <= self.values.len()
        &&& self.unwritten <= self.values.len()
        &&& self.waiting <= self.entries.len()
        &&& self.end() <= MAX_FILE
        &&& sorted(self.entries)
        &&& forall|i: int| 0 <= i < self.entries.len() ==> #[trigger] self.entry_stored(i)
    }

    /// The writer with one more value stored, whether the index takes its key or not.
    pub open spec fn stored(self, img: Seq<u8>) -> WriterView {
        WriterView {
            values: self.values + blob_frame(img),
            unwritten: self.unwritten + blob_frame(img).len(),
            ..self
        }
    }

    /// The writer after an image was put.
    pub open spec fn put(self, key: Key, img: Seq<u8>) -> WriterView {
        WriterView {
            entries: self.entries.push((key.number(), self.end() as nat)),
            images: self.images.push(img),
            waiting: self.waiting + 1,
            ..self.stored(img)
        }
    }

    /// The values that were written.
    pub open spec fn written_part(self) -> Seq<u8> {
        self.values.take(self.values.len() - self.unwritten)
    }

    /// The values that are still to be written.
    pub open spec fn unwritten_part(self) -> Seq<u8> {
        self.values.skip(self.values.len() - self.unwritten)
    }

    /// Whether `file` holds the values that were written. A file without values may
    /// be shorter than its first block.
    pub open spec fn is_kept_in(self, file: Seq<u8>) -> bool {
        self.written_part().len() > 0 ==> holds_at(file, PAGE_SZ as int, self.written_part())
    }

    /// The writer after all its values were written.
    pub open spec fn all_written(self) -> WriterView {
        WriterView { unwritten: 0, waiting: 0, ..self }
    }

    /// The writer without what was not written yet.
    pub open spec fn taken_back(self) -> WriterView {
        WriterView {
            values: self.written_part(),
            unwritten: 0,
            entries: self.entries.take(self.entries.len() - self.waiting),
            images: self.images.take(self.images.len() - self.waiting),
            waiting: 0,
            ..self
        }
    }

    /// Whether an image is stored, for a key of the range or not.
    pub open spec fn fits(self, img: Seq<u8>) -> bool {
        img.len() <= MAX_BLOB && self.end() + blob_frame(img).len() <= MAX_FILE
    }

    /// Whether the index takes a key next: it takes keys in ascending order.
    pub open spec fn takes(self, key: Key) -> bool {
        self.entries.len() > 0 ==> self.entries.last().0 < key.number()
    }

    /// The image that was put for a key, if any.
    pub open spec fn image_of(self, key: Key) -> Option<Seq<u8>> {
        if exists|i: int| 0 <= i < self.entries.len() && self.is_entry_of(i, key) {
            Some(
                self.images[choose|i: int|
                    0 <= i < self.entries.len() && self.is_entry_of(i, key)],
            )
        } else {
            None
        }
    }

    /// Whether entry `i` is that of a key.
    pub open spec fn is_entry_of(self, i: int, key: Key) -> bool {
        self.entries[i].0 == key.number()
    }

    /// How many blocks there are before the index: the summary, and the values.
    pub open spec fn blocks_before_index(self) -> int {
        (self.end() + PAGE_SZ - 1) / PAGE_SZ as int
    }

    /// What the name of the finished file says.
    pub open spec fn file_name(self) -> ImageFileName {
        ImageFileName { key_range: self.key_range, lsn: self.lsn }
    }

    /// The summary of the file, with its index at the given place.
    pub open spec fn summary(self, index_start_blk: u32, index_root_blk: u32) -> Summary {
        Summary {
            index_start_blk,
            index_root_blk,
            ..Summary::spec_expected(self.tenant_id, self.timeline_id, self.key_range, self.lsn)
        }
    }
}

/// What is left to do when all images were put, in this order: write the values
/// that were not written yet, the index and the summary, ask for the size of the
/// file, bring it to disk, and give it its final name.
pub struct FinishPlan {
    pub conf: &'static PageServerConf,
    pub timeline_id: TimelineId,
    pub tenant_id: TenantId,
    pub fname: ImageFileName,
    /// The last of the values, to be written at `values_offset`.
    pub values: Vec<u8>,
    pub values_offset: u64,
    /// The blocks of the index, to be written one after another from
    /// `index_offset` on.
    pub index: Vec<Vec<u8>>,
    pub index_offset: u64,
    pub index_start_blk: u32,
    pub index_root_blk: u32,
    /// The summary, to be written at the beginning.
    pub summary: Vec<u8>,
    /// The path that the file has so far.
    pub path: String,
    /// The path that the file is to have.
    pub final_path: String,
}

/// A file after the first `count` of `blocks` were written one after another from
/// offset `at` on.
pub open spec fn write_blocks(
    file: Seq<u8>,
    at: int,
    blocks: Seq<Seq<u8>>,
    count: nat,
) -> Seq<u8>
    decreases count,
{
    if count == 0 {
        file
    } else {
        write_at(
            write_blocks(file, at, blocks, (count - 1) as nat),
            at + (count - 1) * PAGE_SZ,
            blocks[count - 1],
        )
    }
}

impl FinishPlan {
    /// The file after all was written that is left to write.
    pub open spec fn carried_out(self, file: Seq<u8>) -> Seq<u8> {
        let with_values = write_at(file, self.values_offset as int, self.values@);
        let with_index = write_blocks(
            with_values,
            self.index_offset as int,
            block_views(self.index@),
            self.index@.len(),
        );
        write_at(with_index, 0, self.summary@)
    }

    /// Where the index ends.
    pub open spec fn index_end(self) -> int {
        self.index_offset + self.index@.len() * PAGE_SZ
    }

    /// Whether the plan is to write what `view` has come to.
    pub open spec fn completes(self, view: WriterView) -> bool {
        &&& self.conf == view.conf
        &&& self.timeline_id == view.timeline_id
        &&& self.tenant_id == view.tenant_id
        &&& self.fname == view.file_name()
        &&& self.values@ == view.unwritten_part()
        &&& self.values_offset == view.end() - view.unwritten
        &&& self.index_start_blk == view.blocks_before_index() % 0x1_0000_0000
        &&& self.index_offset == self.index_start_blk * PAGE_SZ
        &&& self.index_root_blk < self.index@.len()
        &&& forall|i: int| 0 <= i < self.index@.len() ==> (#[trigger] self.index@[i])@.len()
            == PAGE_SZ
        &&& is_index_of(block_views(self.index@), self.index_root_blk as int, view.entries)
        &&& self.summary@ == view.summary(self.index_start_blk, self.index_root_blk).bytes()
        &&& self.path@ == view.path
        &&& self.final_path@ == spec_path_for(
            PathOrConf::Conf(view.conf),
            view.timeline_id,
            view.tenant_id,
            view.file_name(),
        )
    }

    /// The layer that the finished file is of.
    pub fn layer(&self, file_size: u64) -> (layer: ImageLayer)
        ensures
            layer == (ImageLayer {
                path_or_conf: PathOrConf::Conf(self.conf),
                desc: PersistentLayerDesc {
                    tenant_id: self.tenant_id,
                    timeline_id: self.timeline_id,
                    key_range: self.fname.key_range,
                    lsn: self.fname.lsn,
                    file_size,
                },
                lsn: self.fname.lsn,
                access_stats: LayerAccessStats { get_value_reconstruct_data: 0, dump: 0 },
                inner: None,
            }),
    {
        ImageLayer::new(
            self.conf,
            self.timeline_id,
            self.tenant_id,
            &self.fname,
            file_size,
            LayerAccessStats::empty(),
        )
    }
}

/// A file that is being built.
pub struct ImageLayerWriterInner {
    conf: &'static PageServerConf,
    path: String,
    timeline_id: TimelineId,
    tenant_id: TenantId,
    key_range: KeyRange,
    lsn: Lsn,
    pending: Vec<u8>,
    written: u64,
    tree: DiskBtreeBuilder,
    waiting: Vec<([u8; KEY_SIZE], u64)>,
    values: Ghost<Seq<u8>>,
    images: Ghost<Seq<Seq<u8>>>,
}

/// What entries say that are not in the index yet.
spec fn entries_of(waiting: Seq<([u8; KEY_SIZE], u64)>) -> Seq<(nat, nat)> {
    Seq::new(waiting.len(), |i: int| (be_value(waiting[i].0@), waiting[i].1 as nat))
}

impl View for ImageLayerWriterInner {
    type V = WriterView;

    closed spec fn view(&self) -> WriterView {
        WriterView {
            conf: self.conf,
            path: self.path@,
            timeline_id: self.timeline_id,
            tenant_id: self.tenant_id,
            key_range: self.key_range,
            lsn: self.lsn,
            values: self.values@,
            unwritten: self.pending@.len(),
            entries: self.tree@ + entries_of(self.waiting@),
            images: self.images@,
            waiting: self.waiting@.len(),
        }
    }
}

/// Values that were stored stay where they are when more follow.
pub proof fn lemma_stored_stays(view: WriterView, img: Seq<u8>)
    requires
        view.wf(),
        view.fits(img),
    ensures
        view.stored(img).wf(),
{
    let after = view.stored(img);
    assert forall|i: int| 0 <= i < after.entries.len() implies #[trigger] after.entry_stored(
        i,
    ) by {
        assert(view.entry_stored(i));
        let at = view.entries[i].1 - PAGE_SZ;
        let frame = blob_frame(view.images[i]);
        assert(after.values.subrange(at, at + frame.len()) =~= view.values.subrange(
            at,
            at + frame.len(),
        ));
    }
}

/// A blob takes from one to four bytes more than it has.
pub proof fn lemma_frame_len(blob: Seq<u8>)
    ensures
        1 + blob.len() <= blob_frame(blob).len() <= 4 + blob.len(),
{
    lemma_be_bytes_len(LONG_MARK as nat + blob.len(), 4);
}

/// Putting an image keeps what holds of a writer.
pub proof fn lemma_put_stays(view: WriterView, key: Key, img: Seq<u8>)
    requires
        view.wf(),
        view.key_range.holds(key),
        view.fits(img),
        view.takes(key),
        view.end() <= MAX_VALUE,
    ensures
        view.put(key, img).wf(),
{
    let after = view.put(key, img);
    let count = view.entries.len() as int;
    lemma_stored_stays(view, img);
    lemma_frame_len(img);
    law_key_order(key, view.key_range.start);
    law_key_order(key, view.key_range.end);
    assert forall|i: int, j: int| 0 <= i < j < after.entries.len() implies (
    #[trigger] after.entries[i]).0 < (#[trigger] after.entries[j]).0 by {
        if j < count {
            assert(view.entries[i].0 < view.entries[j].0);
        } else if i < count - 1 {
            assert(view.entries[i].0 < view.entries[count - 1].0);
        }
    }
    assert forall|i: int| 0 <= i < after.entries.len() implies #[trigger] after.entry_stored(
        i,
    ) by {
        if i < count {
            assert(view.stored(img).entry_stored(i));
        } else {
            let at = view.values.len() as int;
            assert(after.values.subrange(at, at + blob_frame(img).len()) =~= blob_frame(img));
        }
    }
}

/// Enters the keys in the index that waited for it.
fn enter_keys(tree: &mut DiskBtreeBuilder, waiting: &Vec<([u8; KEY_SIZE], u64)>)
    requires
        old(tree).wf(),
        sorted(old(tree)@ + entries_of(waiting@)),
        old(tree)@.len() + waiting@.len() <= MAX_VALUE,
        forall|i: int| 0 <= i < waiting@.len() ==> (#[trigger] waiting@[i]).1 <= MAX_VALUE,
    ensures
        final(tree).wf(),
        final(tree)@ == old(tree)@ + entries_of(waiting@),
{
    let ghost before = tree@;
    let ghost added = entries_of(waiting@);
    let mut at: usize = 0;
    assert(before + added.take(0) =~= before);
    while at < waiting.len()
        invariant
            at <= waiting@.len(),
            tree.wf(),
            added == entries_of(waiting@),
            sorted(before + added),
            before.len() + waiting@.len() <= MAX_VALUE,
            forall|i: int| 0 <= i < waiting@.len() ==> (#[trigger] waiting@[i]).1 <= MAX_VALUE,
            tree@ == before + added.take(at as int),
        decreases waiting@.len() - at,
    {
        let (key, offset): ([u8; KEY_SIZE], u64) = waiting[at];
        proof {
            let all = before + added;
            let next = before.len() + at;
            assert(all[next as int] == added[at as int]);
            if next > 0 {
                assert(tree@.last() == all[next - 1]);
                assert(all[next - 1].0 < all[next as int].0);
            }
            assert(added.take(at + 1) =~= added.take(at as int).push(added[at as int]));
        }
        let _entered: Result<(), DiskBtreeError> = tree.append(&key, offset);
        assert(tree@ =~= before + added.take(at + 1));
        at = at + 1;
    }
    assert(added.take(at as int) =~= added);
}

/// Writing the values keeps what holds of a writer.
pub proof fn lemma_written_stays(view: WriterView)
    requires
        view.wf(),
    ensures
        view.all_written().wf(),
{
    let after = view.all_written();
    assert forall|i: int| 0 <= i < after.entries.len() implies #[trigger] after.entry_stored(
        i,
    ) by {
        assert(view.entry_stored(i));
    }
}

/// Taking back what was not written keeps what holds of a writer.
pub proof fn lemma_taken_back_stays(view: WriterView)
    requires
        view.wf(),
    ensures
        view.taken_back().wf(),
{
    let after = view.taken_back();
    let count = after.entries.len() as int;
    assert forall|i: int| 0 <= i < count implies #[trigger] after.entry_stored(i) by {
        assert(view.entry_stored(i));
        let at = view.entries[i].1 - PAGE_SZ;
        let frame = blob_frame(view.images[i]);
        assert(after.values.subrange(at, at + frame.len()) =~= view.values.subrange(
            at,
            at + frame.len(),
        ));
    }
    if count > 0 {
        assert(after.entry_stored(count - 1));
        lemma_frame_len(after.images[count - 1]);
    }
    assert forall|i: int, j: int| 0 <= i < j < count implies (#[trigger] after.entries[i]).0 < (
    #[trigger] after.entries[j]).0 by {
        assert(view.entries[i].0 < view.entries[j].0);
    }
}

impl ImageLayerWriterInner {
    /// What holds of a writer at every step.
    pub closed spec fn wf(self) -> bool {
        &&& self@.wf()
        &&& self.tree.wf()
        &&& self.pending@.len() <= self.values@.len()
        &&& self.pending@ == self.values@.skip(self.values@.len() - self.pending@.len())
        &&& self.written == self@.end() - self.pending@.len()
    }

    /// What holds of the view of a writer.
    pub proof fn lemma_wf(self)
        requires
            self.wf(),
        ensures
            self@.wf(),
    {
    }

    /// Start building a new image layer, under a temporary name.
    pub fn new(
        conf: &'static PageServerConf,
        timeline_id: TimelineId,
        tenant_id: TenantId,
        key_range: &KeyRange,
        lsn: Lsn,
    ) -> (writer: ImageLayerWriterInner)
        ensures
            writer.wf(),
            writer@.wf(),
            is_new(writer@, conf, timeline_id, tenant_id, *key_range, lsn),
    {
        let path: String = temp_path_for(
            conf,
            timeline_id,
            tenant_id,
            &ImageFileName { key_range: *key_range, lsn },
        );
        let writer = ImageLayerWriterInner {
            conf,
            path,
            timeline_id,
            tenant_id,
            key_range: *key_range,
            lsn,
            pending: Vec::new(),
            written: PAGE_SZ as u64,
            tree: DiskBtreeBuilder::new(),
            waiting: Vec::new(),
            values: Ghost(Seq::<u8>::empty()),
            images: Ghost(Seq::<Seq<u8>>::empty()),
        };
        assert(writer.pending@ =~= writer.values@.skip(0));
        assert(writer@.entries =~= Seq::<(nat, nat)>::empty());
        writer
    }

    /// Write next value to the file. The keys must come in ascending order.
    pub fn put_image(&mut self, key: Key, img: &[u8]) -> (result: Result<(), PutError>)
        requires
            old(self).wf(),
        ensures
            final(self).wf(),
            final(self)@.wf(),
            put_outcome(old(self)@, final(self)@, key, img@, result),
    {
        let ghost before = self@;
        if !self.key_range.contains(&key) {
            return Err(PutError::OutOfRange);
        }
        if img.len() > MAX_BLOB {
            return Err(PutError::BlobTooLarge(img.len()));
        }
        let off: u64 = self.size();
        let stored: u64 = stored_len(img.len());
        assert(blob_frame(img@).len() == stored);
        if stored > MAX_FILE - off {
            return Err(PutError::FileTooLarge);
        }
        proof {
            if before.entries.len() > 0 {
                assert(before.entry_stored(before.entries.len() - 1));
            }
            lemma_stored_stays(before, img@);
            if before.takes(key) && off <= MAX_VALUE {
                lemma_put_stays(before, key, img@);
            }
        }
        put_blob(&mut self.pending, img);
        self.values = Ghost(self.values@ + blob_frame(img@));
        proof {
            let start = self.values@.len() - self.pending@.len();
            assert(self.pending@ =~= self.values@.skip(start));
        }
        let key_bytes: [u8; KEY_SIZE] = key.to_bytes();
        let last_key: Option<[u8; KEY_SIZE]> = self.last_key();
        if let Err(error) = check_entry(last_key, &key_bytes, off) {
            assert(self@ == before.stored(img@));
            return Err(PutError::Index(error));
        }
        self.waiting.push((key_bytes, off));
        self.images = Ghost(self.images@.push(img@));
        proof {
            assert(self@.entries =~= before.entries.push((key.number(), off as nat)));
            assert(self@ == before.put(key, img@));
        }
        Ok(())
    }

    /// The key of the last entry, if there is one.
    fn last_key(&self) -> (key: Option<[u8; KEY_SIZE]>)
        requires
            self.tree.wf(),
        ensures
            match key {
                Some(key) => self@.entries.len() > 0 && be_value(key@) == self@.entries.last().0,
                None => self@.entries.len() == 0,
            },
    {
        let count: usize = self.waiting.len();
        if count > 0 {
            Some(self.waiting[count - 1].0)
        } else {
            assert(self@.entries =~= self.tree@);
            self.tree.last_key()
        }
    }

    /// Where the next value goes.
    pub fn size(&self) -> (size: u64)
        requires
            self.wf(),
        ensures
            size == self@.end(),
    {
        self.written + self.pending.len() as u64
    }

    /// The values that were not written yet, and where they go.
    pub fn unwritten(&self) -> (unwritten: (u64, &Vec<u8>))
        requires
            self.wf(),
        ensures
            unwritten.0 == self@.end() - self@.unwritten,
            unwritten.1@ == self@.unwritten_part(),
    {
        (self.written, &self.pending)
    }

    /// The keys of a writer can be entered in the index.
    proof fn lemma_keys_fit(self)
        requires
            self.wf(),
        ensures
            sorted(self.tree@ + entries_of(self.waiting@)),
            self.tree@.len() + self.waiting@.len() <= MAX_VALUE,
            forall|i: int|
                0 <= i < self.waiting@.len() ==> (#[trigger] self.waiting@[i]).1 <= MAX_VALUE,
    {
        let view = self@;
        let count = view.entries.len() as int;
        if count > 0 {
            assert(view.entry_stored(count - 1));
        }
        assert forall|i: int| 0 <= i < self.waiting@.len() implies (#[trigger] self.waiting@[i]).1
            <= MAX_VALUE by {
            assert(view.entry_stored(self.tree@.len() + i));
        }
    }

    /// Notes that all values so far were written: their keys go to the index.
    pub fn note_written(&mut self)
        requires
            old(self).wf(),
        ensures
            final(self).wf(),
            final(self)@.wf(),
            final(self)@ == old(self)@.all_written(),
    {
        proof {
            self.lemma_keys_fit();
            lemma_written_stays(self@);
        }
        let size: u64 = self.size();
        self.written = size;
        self.pending = Vec::new();
        enter_keys(&mut self.tree, &self.waiting);
        self.waiting = Vec::new();
        proof {
            assert(self@.entries =~= old(self)@.entries);
            assert(self@ == old(self)@.all_written());
            assert(self.pending@ =~= self.values@.skip(self.values@.len() as int));
        }
    }

    /// Takes back what was not written: the values, and the keys that lead to
    /// them.
    pub fn take_back(&mut self)
        requires
            old(self).wf(),
        ensures
            final(self).wf(),
            final(self)@.wf(),
            final(self)@ == old(self)@.taken_back(),
    {
        proof {
            lemma_taken_back_stays(self@);
        }
        let ghost view = self@;
        self.pending = Vec::new();
        self.waiting = Vec::new();
        self.values = Ghost(view.taken_back().values);
        self.images = Ghost(view.taken_back().images);
        proof {
            assert(self@.entries =~= view.taken_back().entries);
            assert(self@ == view.taken_back());
            assert(self.pending@ =~= self.values@.skip(self.values@.len() as int));
        }
    }

    /// Finish writing the image layer.
    pub fn finish(self) -> (plan: FinishPlan)
        requires
            self.wf(),
        ensures
            self@.wf(),
            plan.completes(self@),
    {
        proof {
            self.lemma_keys_fit();
        }
        let blocks: u64 = (self.size() + PAGE_SZ as u64 - 1) / PAGE_SZ as u64;
        assert(#[verifier::truncate] (blocks as u32) == blocks % 0x1_0000_0000) by (bit_vector);
        let index_start_blk: u32 = #[verifier::truncate] (blocks as u32);
        let mut tree: DiskBtreeBuilder = self.tree;
        enter_keys(&mut tree, &self.waiting);
        let (index_root_blk, index): (u32, Vec<Vec<u8>>) = tree.finish();
        let summary = Summary {
            magic: IMAGE_FILE_MAGIC,
            format_version: STORAGE_FORMAT_VERSION,
            tenant_id: self.tenant_id,
            timeline_id: self.timeline_id,
            key_range: self.key_range,
            lsn: self.lsn,
            index_start_blk,
            index_root_blk,
        };
        let fname = ImageFileName { key_range: self.key_range, lsn: self.lsn };
        let final_path: String = path_for(
            &PathOrConf::Conf(self.conf),
            self.timeline_id,
            self.tenant_id,
            &fname,
        );
        FinishPlan {
            conf: self.conf,
            timeline_id: self.timeline_id,
            tenant_id: self.tenant_id,
            fname,
            values: self.pending,
            values_offset: self.written,
            index,
            index_offset: index_start_blk as u64 * PAGE_SZ as u64,
            index_start_blk,
            index_root_blk,
            summary: summary.ser(),
            path: self.path,
            final_path,
        }
    }

    /// The path of the temporary file.
    pub fn path(&self) -> (path: &String)
        ensures
            path@ == self@.path,
    {
        &self.path
    }
}

/// Whether `view` is that of a writer that was just made.
pub open spec fn is_new(
    view: WriterView,
    conf: &'static PageServerConf,
    timeline_id: TimelineId,
    tenant_id: TenantId,
    key_range: KeyRange,
    lsn: Lsn,
) -> bool {
    &&& is_temp_path(
        view.path,
        *conf,
        timeline_id,
        tenant_id,
        ImageFileName { key_range, lsn },
    )
    &&& view == WriterView {
        conf,
        path: view.path,
        timeline_id,
        tenant_id,
        key_range,
        lsn,
        values: Seq::<u8>::empty(),
        unwritten: 0,
        entries: Seq::<(nat, nat)>::empty(),
        images: Seq::<Seq<u8>>::empty(),
        waiting: 0,
    }
}

/// What putting an image comes to: `result`, and `after` in place of `before`.
pub open spec fn put_outcome(
    before: WriterView,
    after: WriterView,
    key: Key,
    img: Seq<u8>,
    result: Result<(), PutError>,
) -> bool {
    match result {
        Ok(()) => {
            &&& before.key_range.holds(key)
            &&& before.fits(img)
            &&& before.end() <= MAX_VALUE
            &&& before.takes(key)
            &&& after == before.put(key, img)
        },
        Err(PutError::OutOfRange) => {
            &&& !before.key_range.holds(key)
            &&& after == before
        },
        Err(PutError::BlobTooLarge(len)) => {
            &&& before.key_range.holds(key)
            &&& len == img.len() > MAX_BLOB
            &&& after == before
        },
        Err(PutError::FileTooLarge) => {
            &&& before.key_range.holds(key)
            &&& img.len() <= MAX_BLOB
            &&& !before.fits(img)
            &&& after == before
        },
        Err(PutError::Index(DiskBtreeError::AppendOverflow(offset))) => {
            &&& before.key_range.holds(key)
            &&& before.fits(img)
            &&& offset == before.end() > MAX_VALUE
            &&& after == before.stored(img)
        },
        Err(PutError::Index(DiskBtreeError::UnsortedInput { key: refused, last_key })) => {
            &&& before.key_range.holds(key)
            &&& before.fits(img)
            &&& before.end() <= MAX_VALUE
            &&& !before.takes(key)
            &&& refused@ == key.bytes()
            &&& be_value(last_key@) == before.entries.last().0
            &&& after == before.stored(img)
        },
    }
}

/// A builder object for constructing a new image layer.
///
/// Usage:
///
/// 1. Create the ImageLayerWriter by calling ImageLayerWriter::new(...)
///
/// 2. Write the contents by calling `put_image` for every key-value pair in the
///    key range. Each time write what is `unwritten` to the file, and call
///    `note_written`, or `take_back` if that fails.
///
/// 3. Call `finish`, and do what is left to do. If all of it succeeds, call
///    `note_finished`.
///
/// A writer that is given up before that leaves a temporary file behind:
/// `discard` says which.
#[must_use]
pub struct ImageLayerWriter {
    inner: Option<ImageLayerWriterInner>,
    temp: Option<String>,
}

impl View for ImageLayerWriter {
    type V = Option<WriterView>;

    /// What the writer has come to, while images can be put.
    closed spec fn view(&self) -> Option<WriterView> {
        match self.inner {
            Some(inner) => Some(inner@),
            None => None,
        }
    }
}

impl ImageLayerWriter {
    /// The path of the temporary file, until it has got its final name or was
    /// given up.
    pub closed spec fn temp_file(self) -> Option<Seq<char>> {
        match self.temp {
            Some(path) => Some(path@),
            None => None,
        }
    }

    /// What holds of a writer at every step.
    pub closed spec fn wf(self) -> bool {
        match self.inner {
            Some(inner) => inner.wf() && self.temp_file() == Some(inner@.path),
            None => true,
        }
    }

    /// What holds of the view of a writer.
    pub proof fn lemma_wf(self)
        requires
            self.wf(),
        ensures
            self@ is Some ==> self@->0.wf() && self.temp_file() == Some(self@->0.path),
    {
    }

    /// Start building a new image layer.
    pub fn new(
        conf: &'static PageServerConf,
        timeline_id: TimelineId,
        tenant_id: TenantId,
        key_range: &KeyRange,
        lsn: Lsn,
    ) -> (writer: ImageLayerWriter)
        ensures
            writer.wf(),
            writer@ is Some,
            writer@->0.wf(),
            is_new(writer@->0, conf, timeline_id, tenant_id, *key_range, lsn),
            writer.temp_file() == Some(writer@->0.path),
    {
        let inner = ImageLayerWriterInner::new(conf, timeline_id, tenant_id, key_range, lsn);
        let temp: String = inner.path().clone();
        ImageLayerWriter { inner: Some(inner), temp: Some(temp) }
    }

    /// Write next value to the file.
    ///
    /// The page versions must be appended in ascending order of their keys.
    pub fn put_image(&mut self, key: Key, img: &[u8]) -> (result: Result<(), PutError>)
        requires
            old(self).wf(),
            old(self)@ is Some,
        ensures
            final(self).wf(),
            final(self)@ is Some,
            final(self)@->0.wf(),
            put_outcome(old(self)@->0, final(self)@->0, key, img@, result),
            final(self).temp_file() == old(self).temp_file(),
    {
        let mut inner = self.inner.take().unwrap();
        let result = inner.put_image(key, img);
        self.inner = Some(inner);
        result
    }

    /// The path of the temporary file.
    pub fn path(&self) -> (path: &String)
        requires
            self@ is Some,
        ensures
            path@ == self@->0.path,
    {
        self.inner.as_ref().unwrap().path()
    }

    /// The values that were not written yet, and where they go.
    pub fn unwritten(&self) -> (unwritten: (u64, &Vec<u8>))
        requires
            self.wf(),
            self@ is Some,
        ensures
            unwritten.0 == self@->0.end() - self@->0.unwritten,
            unwritten.1@ == self@->0.unwritten_part(),
    {
        self.inner.as_ref().unwrap().unwritten()
    }

    /// Notes that all values so far were written: their keys go to the index.
    pub fn note_written(&mut self)
        requires
            old(self).wf(),
            old(self)@ is Some,
        ensures
            final(self).wf(),
            final(self)@ == Some(old(self)@->0.all_written()),
            final(self)@->0.wf(),
            final(self).temp_file() == old(self).temp_file(),
    {
        let mut inner = self.inner.take().unwrap();
        inner.note_written();
        self.inner = Some(inner);
    }

    /// Takes back what was not written, because writing it failed: the values,
    /// and the keys that lead to them.
    pub fn take_back(&mut self)
        requires
            old(self).wf(),
            old(self)@ is Some,
        ensures
            final(self).wf(),
            final(self)@ == Some(old(self)@->0.taken_back()),
            final(self)@->0.wf(),
            final(self).temp_file() == old(self).temp_file(),
    {
        let mut inner = self.inner.take().unwrap();
        inner.take_back();
        self.inner = Some(inner);
    }

    /// Finish writing the image layer. The temporary file stays that of the writer
    /// until the plan is done, and `note_finished` says so.
    pub fn finish(&mut self) -> (plan: FinishPlan)
        requires
            old(self).wf(),
            old(self)@ is Some,
        ensures
            final(self).wf(),
            final(self)@ is None,
            final(self).temp_file() == Some(old(self)@->0.path),
            old(self)@->0.wf(),
            plan.completes(old(self)@->0),
    {
        self.inner.take().unwrap().finish()
    }

    /// Notes that the file has got its final name: there is no temporary file any
    /// more.
    pub fn note_finished(&mut self)
        requires
            old(self).wf(),
            old(self)@ is None,
        ensures
            final(self).wf(),
            final(self)@ is None,
            final(self).temp_file() is None,
    {
        self.temp = None;
    }

    /// Gives the writer up. If there is a temporary file, it is to be removed:
    /// gives the path of it.
    pub fn discard(&mut self) -> (path: Option<String>)
        requires
            old(self).wf(),
        ensures
            final(self).wf(),
            final(self)@ is None,
            final(self).temp_file() is None,
            match path {
                Some(path) => old(self).temp_file() == Some(path@),
                None => old(self).temp_file() is None,
            },
    {
        self.inner = None;
        self.temp.take()
    }
}

} // verus!
