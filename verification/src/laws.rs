//! What holds of the library as a whole.
use vstd::prelude::*;

use crate::blob::{blob_frame, law_blob_read_back};
use crate::btree::{
    law_index_search, lemma_lookup_absent, lemma_lookup_found, sorted, tree_entries, MAX_VALUE,
};
use crate::btree_build::block_views;
use crate::format::{
    block_of, holds_at, lemma_write_apart, lemma_write_at, lemma_write_behind, readable, write_at,
    IMAGE_FILE_MAGIC, PAGE_SZ, STORAGE_FORMAT_VERSION,
};
use crate::image_layer::{ImageLayer, ImageLayerInner, LoadError};
use crate::index_read::{index_blocks, stored_value_of, Stored};
use crate::key::{law_key_order, lemma_key_number_injective, Key};
use crate::layer_name::{
    is_random_part, is_temp_path, law_temp_file_apart, spec_temp_path, PathOrConf,
};
use crate::summary::{is_at_front, lemma_summary_len, lemma_summary_of, Summary, SUMMARY_SIZE};
use crate::writer::{
    lemma_frame_len, lemma_put_stays, put_outcome, write_blocks, FinishPlan, PutError, WriterView,
};

verus! {

/// Whether `file` is what a writer and its plan ask to be written: the summary at
/// the beginning, the values from block 1 on, and then the index.
pub open spec fn is_written(file: Seq<u8>, view: WriterView, plan: FinishPlan) -> bool {
    &&& holds_at(file, 0, plan.summary@)
    &&& holds_at(file, PAGE_SZ as int, view.values)
    &&& forall|i: int|
        0 <= i < plan.index@.len() ==> holds_at(
            file,
            plan.index_offset + i * PAGE_SZ,
            #[trigger] plan.index@[i]@,
        )
}

/// The three parts of a file lie one behind the other: the summary in block 0, the
/// values from block 1 on, and the index from a block behind the values on.
pub proof fn law_parts_apart(view: WriterView, plan: FinishPlan)
    requires
        view.wf(),
        plan.completes(view),
        view.blocks_before_index() < 0x1_0000_0000,
    ensures
        plan.summary@.len() <= PAGE_SZ,
        view.end() == PAGE_SZ + view.values.len(),
        view.end() <= plan.index_offset < view.end() + PAGE_SZ,
{
    lemma_summary_len(view.summary(plan.index_start_blk, plan.index_root_blk));
}

/// A new writer asks nothing of its file: any file, an empty one too, holds what
/// it has written.
pub proof fn law_new_file(view: WriterView, file: Seq<u8>)
    requires
        view.values.len() == 0,
        view.unwritten == 0,
    ensures
        view.is_kept_in(file),
{
}

/// Putting an image, or taking it back, changes nothing of what was written.
pub proof fn law_put_keeps_file(view: WriterView, key: Key, img: Seq<u8>, file: Seq<u8>)
    requires
        view.wf(),
        view.is_kept_in(file),
    ensures
        view.put(key, img).is_kept_in(file),
        view.stored(img).is_kept_in(file),
        view.taken_back().is_kept_in(file),
{
    assert(view.put(key, img).written_part() =~= view.written_part());
    assert(view.stored(img).written_part() =~= view.written_part());
    assert(view.taken_back().written_part() =~= view.written_part());
}

/// Writing what is unwritten where the writer says gives a file that holds all
/// values. Writing something else there, as a write that fails may do, leaves the
/// values alone that were written before.
pub proof fn law_values_written(view: WriterView, file: Seq<u8>, other: Seq<u8>)
    requires
        view.wf(),
        view.is_kept_in(file),
    ensures
        view.all_written().is_kept_in(
            write_at(file, view.end() - view.unwritten, view.unwritten_part()),
        ),
        view.is_kept_in(write_at(file, view.end() - view.unwritten, other)),
{
    let held = view.written_part();
    let at = view.end() - view.unwritten;
    lemma_write_behind(file, PAGE_SZ as int, held, view.unwritten_part());
    assert(held + view.unwritten_part() =~= view.values);
    assert(view.all_written().written_part() =~= view.values);
    if held.len() > 0 {
        lemma_write_apart(file, at, other, PAGE_SZ as int, held);
    }
}

/// What blocks leave behind that are written one after another: each of them, and
/// what lies before them.
proof fn lemma_write_blocks(
    file: Seq<u8>,
    at: int,
    blocks: Seq<Seq<u8>>,
    count: nat,
    from: int,
    held: Seq<u8>,
)
    requires
        0 <= at,
        count <= blocks.len(),
        forall|i: int| 0 <= i < blocks.len() ==> (#[trigger] blocks[i]).len() == PAGE_SZ,
        held.len() > 0 ==> holds_at(file, from, held),
        from + held.len() <= at,
    ensures
        held.len() > 0 ==> holds_at(write_blocks(file, at, blocks, count), from, held),
        forall|i: int|
            0 <= i < count ==> holds_at(
                write_blocks(file, at, blocks, count),
                at + i * PAGE_SZ,
                #[trigger] blocks[i],
            ),
        write_blocks(file, at, blocks, count).len() == if count > 0 && at + count * PAGE_SZ
            > file.len() {
            at + count * PAGE_SZ
        } else {
            file.len() as int
        },
    decreases count,
{
    if count > 0 {
        let last = count - 1;
        let before = write_blocks(file, at, blocks, last as nat);
        let place = at + last * PAGE_SZ;
        lemma_write_blocks(file, at, blocks, last as nat, from, held);
        lemma_write_at(before, place, blocks[last]);
        if held.len() > 0 {
            lemma_write_apart(before, place, blocks[last], from, held);
        }
        assert forall|i: int| 0 <= i < count implies holds_at(
            write_blocks(file, at, blocks, count),
            at + i * PAGE_SZ,
            #[trigger] blocks[i],
        ) by {
            if i < last {
                lemma_write_apart(before, place, blocks[last], at + i * PAGE_SZ, blocks[i]);
            }
        }
    }
}

/// Carrying out a plan on a file that holds the values written so far gives the
/// file that the writer asks for. It ends with the last block of the index, unless
/// the file was longer before.
pub proof fn law_plan_writes_file(file: Seq<u8>, view: WriterView, plan: FinishPlan)
    requires
        view.wf(),
        plan.completes(view),
        view.blocks_before_index() < 0x1_0000_0000,
        view.is_kept_in(file),
    ensures
        is_written(plan.carried_out(file), view, plan),
        plan.carried_out(file).len() == if plan.index_end() > file.len() {
            plan.index_end()
        } else {
            file.len() as int
        },
        file.len() <= view.end() ==> plan.carried_out(file).len() == plan.index_end(),
{
    law_parts_apart(view, plan);
    law_values_written(view, file, Seq::<u8>::empty());
    lemma_summary_len(view.summary(plan.index_start_blk, plan.index_root_blk));
    let values = view.values;
    let blocks = block_views(plan.index@);
    let at = plan.index_offset as int;
    let with_values = write_at(file, plan.values_offset as int, plan.values@);
    assert(view.all_written().written_part() =~= values);
    assert(values.len() > 0 ==> holds_at(with_values, PAGE_SZ as int, values));
    assert forall|i: int| 0 <= i < blocks.len() implies (#[trigger] blocks[i]).len()
        == PAGE_SZ by {
        assert(plan.index@[i]@.len() == PAGE_SZ);
    }
    lemma_write_blocks(with_values, at, blocks, blocks.len(), PAGE_SZ as int, values);
    let with_index = write_blocks(with_values, at, blocks, blocks.len());
    let done = plan.carried_out(file);
    lemma_write_at(with_index, 0, plan.summary@);
    if values.len() > 0 {
        lemma_write_apart(with_index, 0, plan.summary@, PAGE_SZ as int, values);
    } else {
        assert(done.subrange(PAGE_SZ as int, PAGE_SZ as int) =~= values);
    }
    assert forall|i: int| 0 <= i < plan.index@.len() implies holds_at(
        done,
        at + i * PAGE_SZ,
        #[trigger] plan.index@[i]@,
    ) by {
        assert(blocks[i] == plan.index@[i]@);
        lemma_write_apart(with_index, 0, plan.summary@, at + i * PAGE_SZ, blocks[i]);
    }
}

/// The blocks of the index are found in the file from the start of the index on.
proof fn lemma_index_in_file(file: Seq<u8>, view: WriterView, plan: FinishPlan)
    requires
        view.wf(),
        plan.completes(view),
        view.blocks_before_index() < 0x1_0000_0000,
        is_written(file, view, plan),
    ensures
        block_views(plan.index@).is_prefix_of(index_blocks(file, plan.index_start_blk as int)),
        file.len() >= (plan.index_start_blk + plan.index@.len()) * PAGE_SZ,
{
    let start = plan.index_start_blk as int;
    let blocks = block_views(plan.index@);
    let found = index_blocks(file, start);
    let last = plan.index@.len() - 1;
    assert(holds_at(file, plan.index_offset + last * PAGE_SZ, plan.index@[last]@));
    assert(file.len() >= (start + plan.index@.len()) * PAGE_SZ);
    assert(found.len() >= blocks.len());
    assert forall|i: int| 0 <= i < blocks.len() implies blocks[i] == found[i] by {
        assert(holds_at(file, plan.index_offset + i * PAGE_SZ, plan.index@[i]@));
        assert(plan.index_offset + i * PAGE_SZ == (start + i) * PAGE_SZ);
    }
    assert(blocks =~= found.take(blocks.len() as int));
}

/// What a read gives back of a write: in a file that was written as the writer
/// asked, each key that an image was put for has that image, and every other key
/// has none.
pub proof fn law_read_after_write(file: Seq<u8>, view: WriterView, plan: FinishPlan, key: Key)
    requires
        view.wf(),
        plan.completes(view),
        view.blocks_before_index() < 0x1_0000_0000,
        is_written(file, view, plan),
    ensures
        stored_value_of(
            file,
            plan.index_start_blk as int,
            plan.index_root_blk as int,
            key.number(),
        ) == match view.image_of(key) {
            Some(image) => Stored::Image(image),
            None => Stored::Missing,
        },
{
    let start = plan.index_start_blk as int;
    let root = plan.index_root_blk as int;
    let blocks = block_views(plan.index@);
    lemma_index_in_file(file, view, plan);
    law_index_search(blocks, index_blocks(file, start), root, view.entries, key.number());
    if view.image_of(key) is Some {
        let i = choose|i: int| 0 <= i < view.entries.len() && view.is_entry_of(i, key);
        assert(view.entry_stored(i));
        lemma_lookup_found(view.entries, i);
        let offset = view.entries[i].1 as int;
        let frame = blob_frame(view.images[i]);
        let whole = readable(file);
        assert(view.end() <= start * PAGE_SZ);
        assert(whole.len() >= start * PAGE_SZ) by (nonlinear_arith)
            requires
                file.len() >= (start + plan.index@.len()) * PAGE_SZ,
                whole.len() == file.len() / PAGE_SZ as nat * PAGE_SZ,
                PAGE_SZ == 8192,
        ;
        let values = file.subrange(PAGE_SZ as int, PAGE_SZ + view.values.len());
        assert(values == view.values);
        assert(whole.subrange(offset, offset + frame.len()) =~= values.subrange(
            offset - PAGE_SZ,
            offset - PAGE_SZ + frame.len(),
        ));
        law_blob_read_back(whole, offset, view.images[i]);
    } else {
        assert forall|i: int| 0 <= i < view.entries.len() implies (#[trigger] view.entries[i]).0
            != key.number() by {
            assert(!view.is_entry_of(i, key));
        }
        lemma_lookup_absent(view.entries, key.number());
    }
}

/// A file that was written as the writer asked holds the entries of the writer,
/// in order, and no others: a walk through its index comes to these.
pub proof fn law_walk_after_write(file: Seq<u8>, view: WriterView, plan: FinishPlan)
    requires
        view.wf(),
        plan.completes(view),
        view.blocks_before_index() < 0x1_0000_0000,
        is_written(file, view, plan),
    ensures
        tree_entries(
            index_blocks(file, plan.index_start_blk as int),
            plan.index_root_blk as int,
        ) == Some(view.entries),
{
    lemma_index_in_file(file, view, plan);
    law_index_search(
        block_views(plan.index@),
        index_blocks(file, plan.index_start_blk as int),
        plan.index_root_blk as int,
        view.entries,
        0,
    );
}

/// An image that was put is the image of its key, and the images of all other keys
/// stay as they are. As long as images are put, the index can be addressed.
pub proof fn law_put_adds_one(view: WriterView, key: Key, img: Seq<u8>, other: Key)
    requires
        view.wf(),
        view.key_range.holds(key),
        view.fits(img),
        view.takes(key),
        view.end() <= MAX_VALUE,
    ensures
        view.put(key, img).wf(),
        view.image_of(key) is None,
        view.put(key, img).image_of(key) == Some(img),
        other != key ==> view.put(key, img).image_of(other) == view.image_of(other),
        view.put(key, img).blocks_before_index() < 0x1_0000_0000,
{
    let after = view.put(key, img);
    let count = view.entries.len() as int;
    lemma_put_stays(view, key, img);
    lemma_frame_len(img);
    assert forall|i: int| 0 <= i < count implies !#[trigger] view.is_entry_of(i, key) by {
        if i < count - 1 {
            assert(view.entries[i].0 < view.entries[count - 1].0);
        }
    }
    assert(after.is_entry_of(count, key));
    assert forall|i: int| 0 <= i < count + 1 && #[trigger] after.is_entry_of(i, key) implies i
        == count by {
        assert(i < count ==> !view.is_entry_of(i, key));
    }
    if other != key {
        if after.is_entry_of(count, other) {
            lemma_key_number_injective(other, key);
        }
        if view.image_of(other) is Some {
            let i = choose|i: int| 0 <= i < count && view.is_entry_of(i, other);
            assert(after.is_entry_of(i, other));
            lemma_image_of(view, i, other);
            lemma_image_of(after, i, other);
        } else if after.image_of(other) is Some {
            let i = choose|i: int| 0 <= i < count + 1 && after.is_entry_of(i, other);
            assert(view.is_entry_of(i, other));
        }
    }
}

/// A put that was refused leaves the images of all keys as they are.
pub proof fn law_refused_put(
    before: WriterView,
    after: WriterView,
    key: Key,
    img: Seq<u8>,
    result: Result<(), PutError>,
    other: Key,
)
    requires
        before.wf(),
        put_outcome(before, after, key, img, result),
        result is Err,
    ensures
        after.image_of(other) == before.image_of(other),
{
    lemma_same_images(before, after, other);
}

/// Putting an image and taking it back leaves a writer, all of whose values were
/// written, as it was: also where the index refused the key.
pub proof fn law_take_back_undoes_put(view: WriterView, key: Key, img: Seq<u8>)
    requires
        view.wf(),
        view == view.all_written(),
    ensures
        view.put(key, img).taken_back() == view,
        view.stored(img).taken_back() == view,
{
    let put = view.put(key, img).taken_back();
    let stored = view.stored(img).taken_back();
    assert(put.values =~= view.values && stored.values =~= view.values);
    assert(put.entries =~= view.entries && stored.entries =~= view.entries);
    assert(put.images =~= view.images && stored.images =~= view.images);
}

/// What was written is not taken back: after it was, each image is still that of
/// its key.
pub proof fn law_written_images_stay(view: WriterView, key: Key)
    requires
        view.wf(),
    ensures
        view.all_written().image_of(key) == view.image_of(key),
        view.all_written().taken_back().image_of(key) == view.image_of(key),
{
    let written = view.all_written();
    let after = written.taken_back();
    assert(after.entries =~= view.entries && after.images =~= view.images);
    lemma_same_images(view, written, key);
    lemma_same_images(view, after, key);
}

/// Writers with the same entries have the same images.
proof fn lemma_same_images(left: WriterView, right: WriterView, key: Key)
    requires
        sorted(left.entries),
        left.entries == right.entries,
        left.images == right.images,
    ensures
        left.image_of(key) == right.image_of(key),
{
    if left.image_of(key) is Some {
        let i = choose|i: int| 0 <= i < left.entries.len() && left.is_entry_of(i, key);
        assert(right.is_entry_of(i, key));
        lemma_image_of(left, i, key);
        lemma_image_of(right, i, key);
    } else if right.image_of(key) is Some {
        let i = choose|i: int| 0 <= i < right.entries.len() && right.is_entry_of(i, key);
        assert(left.is_entry_of(i, key));
    }
}

/// A key has one entry at most.
proof fn lemma_image_of(view: WriterView, i: int, key: Key)
    requires
        sorted(view.entries),
        0 <= i < view.entries.len(),
        view.is_entry_of(i, key),
    ensures
        view.image_of(key) == Some(view.images[i]),
{
    let j = choose|j: int| 0 <= j < view.entries.len() && view.is_entry_of(j, key);
    if j < i {
        assert(view.entries[j].0 < view.entries[i].0);
    }
    if i < j {
        assert(view.entries[i].0 < view.entries[j].0);
    }
}

/// A layer holds images for keys of its range only.
pub proof fn law_images_in_range(view: WriterView, key: Key)
    requires
        view.wf(),
        view.image_of(key) is Some,
    ensures
        view.key_range.holds(key),
{
    let i = choose|i: int| 0 <= i < view.entries.len() && view.is_entry_of(i, key);
    assert(view.entry_stored(i));
    law_key_order(key, view.key_range.start);
    law_key_order(key, view.key_range.end);
}

/// A layer can load the file that was written for it: it finds the index where
/// the plan put it.
pub proof fn law_written_file_loads(
    file: Seq<u8>,
    view: WriterView,
    plan: FinishPlan,
    layer: ImageLayer,
)
    requires
        view.wf(),
        plan.completes(view),
        view.blocks_before_index() < 0x1_0000_0000,
        is_written(file, view, plan),
        layer.path_or_conf == PathOrConf::Conf(view.conf),
        layer.desc.tenant_id == view.tenant_id,
        layer.desc.timeline_id == view.timeline_id,
        layer.desc.key_range == view.key_range,
        layer.desc.lsn == view.lsn,
        layer.lsn == view.lsn,
        layer.inner is None,
    ensures
        block_of(file, 0) is Some,
        layer.spec_load_inner(block_of(file, 0)->0) == Ok::<ImageLayerInner, LoadError>(
            ImageLayerInner {
                index_start_blk: plan.index_start_blk,
                index_root_blk: plan.index_root_blk,
                lsn: view.lsn,
            },
        ),
{
    lemma_index_in_file(file, view, plan);
    law_parts_apart(view, plan);
    let summary = view.summary(plan.index_start_blk, plan.index_root_blk);
    lemma_summary_len(summary);
    let front = block_of(file, 0)->0;
    assert(front.take(SUMMARY_SIZE as int) =~= file.subrange(0, SUMMARY_SIZE as int));
    assert(is_at_front(front, summary));
    lemma_summary_of(front, summary);
}

/// A layer loads a file whose summary is that of the layer, wherever the index
/// is, and no other file. One that was opened by its path loads any.
pub proof fn law_summary_check(layer: ImageLayer, summary_blk: Seq<u8>, actual: Summary)
    requires
        layer.inner is None,
        summary_blk.len() == PAGE_SZ,
        is_at_front(summary_blk, actual),
    ensures
        layer.path_or_conf is Path ==> layer.spec_load_inner(summary_blk) is Ok,
        layer.path_or_conf is Conf ==> (layer.spec_load_inner(summary_blk) is Ok <==> {
            &&& actual.magic == IMAGE_FILE_MAGIC
            &&& actual.format_version == STORAGE_FORMAT_VERSION
            &&& actual.tenant_id == layer.desc.tenant_id
            &&& actual.timeline_id == layer.desc.timeline_id
            &&& actual.key_range == layer.desc.key_range
            &&& actual.lsn == layer.lsn
        }),
{
    lemma_summary_of(summary_blk, actual);
}

/// What was loaded once stays, whatever the file holds later.
pub proof fn law_loaded_stays(layer: ImageLayer, first: Seq<u8>, later: Seq<u8>)
    requires
        layer.spec_load_inner(first) is Ok,
    ensures
        (ImageLayer { inner: Some(layer.spec_load_inner(first)->Ok_0), ..layer }).spec_load_inner(
            later,
        ) == layer.spec_load_inner(first),
{
}

/// The final name of a file is not its temporary one.
pub proof fn law_renamed(view: WriterView, plan: FinishPlan)
    requires
        plan.completes(view),
        is_temp_path(
            view.path,
            *view.conf,
            view.timeline_id,
            view.tenant_id,
            view.file_name(),
        ),
    ensures
        plan.path@ != plan.final_path@,
{
    let random = choose|random: Seq<char>|
        is_random_part(random) && view.path == #[trigger] spec_temp_path(
            *view.conf,
            view.timeline_id,
            view.tenant_id,
            view.file_name(),
            random,
        );
    law_temp_file_apart(
        view.conf,
        view.timeline_id,
        view.tenant_id,
        view.file_name(),
        random,
        view.file_name(),
    );
}

} // verus!
