//! What calls to a writer give, and how they relate.
use vstd::prelude::*;

use crate::big_endian::be_value;
use crate::blob::blob_frame;
use crate::format::write_at;
use crate::btree_build::DiskBtreeError;
use crate::ids::{Lsn, TenantId, TimelineId};
use crate::image_layer::ImageLayer;
use crate::key::{law_key_order, Key, KeyRange};
use crate::laws::{
    law_put_adds_one, law_put_keeps_file, law_refused_put, law_take_back_undoes_put,
    law_values_written, law_written_images_stay,
};
use crate::laws_bytes::{key_at, law_blob_frame, lemma_key_at, u32_at};
use crate::laws_names::{
    is_layer_path, is_some_temp_path, law_is_temp_path, law_layer_path, law_layer_path_tells,
};
use crate::layer_name::{ImageFileName, PageServerConf, PathOrConf};
use crate::writer::{lemma_frame_len, FinishPlan, ImageLayerWriter, PutError, WriterView};

verus! {

/// Whether two writers are for the same layer and the same temporary file.
pub open spec fn same_target(left: WriterView, right: WriterView) -> bool {
    &&& left.conf == right.conf
    &&& left.path == right.path
    &&& left.timeline_id == right.timeline_id
    &&& left.tenant_id == right.tenant_id
    &&& left.key_range == right.key_range
    &&& left.lsn == right.lsn
}

/// Whether a key lies in the range of a writer.
pub open spec fn in_range(view: WriterView, key: Key) -> bool {
    view.key_range.start.number() <= key.number() < view.key_range.end.number()
}

/// How many bytes an image of `len` bytes takes in the file.
pub open spec fn stored_size(len: nat) -> nat {
    if len < 128 {
        len + 1
    } else {
        len + 4
    }
}

/// Whether an image can be put next: the key lies in the range and above all keys
/// before it, and the image and its place are not too large to be stored.
pub open spec fn can_put(view: WriterView, key: Key, len: nat) -> bool {
    &&& in_range(view, key)
    &&& len <= 0x7fff_ffff
    &&& 8192 + view.values.len() <= 0x7f_ffff_ffff
    &&& forall|i: int|
        0 <= i < view.entries.len() ==> (#[trigger] view.entries[i]).0 < key.number()
}

/// A new writer has no images. Its file has a temporary name in the directory of
/// the timeline, made of what the final name is made of.
pub proof fn law_writer_new(
    conf: &'static PageServerConf,
    timeline_id: TimelineId,
    tenant_id: TenantId,
    key_range: KeyRange,
    lsn: Lsn,
    writer: ImageLayerWriter,
    key: Key,
)
    requires
        call_ensures(
            ImageLayerWriter::new,
            (conf, timeline_id, tenant_id, &key_range, lsn),
            writer,
        ),
    ensures
        writer.wf(),
        writer@ is Some,
        writer@->0.conf == conf,
        writer@->0.timeline_id == timeline_id,
        writer@->0.tenant_id == tenant_id,
        writer@->0.key_range == key_range,
        writer@->0.lsn == lsn,
        writer@->0.values.len() == 0,
        writer@->0.entries.len() == 0,
        writer@->0.image_of(key) is None,
        is_some_temp_path(
            writer@->0.path,
            *conf,
            timeline_id,
            tenant_id,
            ImageFileName { key_range, lsn },
        ),
        writer.temp_file() == Some(writer@->0.path),
{
    law_is_temp_path(
        writer@->0.path,
        *conf,
        timeline_id,
        tenant_id,
        ImageFileName { key_range, lsn },
    );
}

/// Putting an image succeeds where the image can be put, and nowhere else. If it
/// succeeds, the image is that of its key from then on, whatever bytes it has, and
/// there is one entry more. If it does not, no image changes. Either way the images
/// of all other keys stay as they are.
pub proof fn law_put_image(
    before: ImageLayerWriter,
    key: Key,
    img: &[u8],
    result: Result<(), PutError>,
    after: ImageLayerWriter,
    other: Key,
)
    requires
        before.wf(),
        before@ is Some,
        exists|w: &mut ImageLayerWriter|
            *w == before && *final(w) == after && #[trigger] call_ensures(
                ImageLayerWriter::put_image,
                (w, key, img),
                result,
            ),
    ensures
        after.wf(),
        after@ is Some,
        after.temp_file() == before.temp_file(),
        same_target(before@->0, after@->0),
        result is Ok <==> can_put(before@->0, key, img@.len()),
        result is Ok ==> after@->0.image_of(key) == Some(img@),
        result is Ok ==> after@->0.entries.len() == before@->0.entries.len() + 1,
        result is Ok ==> before@->0.entries.is_prefix_of(after@->0.entries),
        result is Ok && other != key ==> after@->0.image_of(other) == before@->0.image_of(other),
        result is Err ==> after@->0.image_of(other) == before@->0.image_of(other),
        result is Err ==> after@->0.entries == before@->0.entries,
        after@->0.waiting == before@->0.waiting + (if result is Ok {
            1int
        } else {
            0
        }),
{
    let view = before@->0;
    let count = view.entries.len() as int;
    before.lemma_wf();
    law_key_order(key, view.key_range.start);
    law_key_order(key, view.key_range.end);
    lemma_frame_len(img@);
    if count > 0 {
        assert(view.entries[count - 1].0 == view.entries.last().0);
        assert forall|i: int| 0 <= i < count implies (#[trigger] view.entries[i]).0
            <= view.entries.last().0 by {
            if i < count - 1 {
                assert(view.entries[i].0 < view.entries[count - 1].0);
            }
        }
    }
    if result is Ok {
        law_put_adds_one(view, key, img@, other);
    } else {
        law_refused_put(view, after@->0, key, img@, result, other);
    }
}

/// Which error refuses an image: first the range is looked at, then the size of the
/// image, then the size of the file, then the offset, then the order of the keys.
pub proof fn law_put_error(
    before: ImageLayerWriter,
    key: Key,
    img: &[u8],
    result: Result<(), PutError>,
    after: ImageLayerWriter,
)
    requires
        before.wf(),
        before@ is Some,
        exists|w: &mut ImageLayerWriter|
            *w == before && *final(w) == after && #[trigger] call_ensures(
                ImageLayerWriter::put_image,
                (w, key, img),
                result,
            ),
        result is Err,
    ensures
        result->Err_0 is OutOfRange <==> !in_range(before@->0, key),
        result->Err_0 is BlobTooLarge <==> in_range(before@->0, key) && img@.len() > 0x7fff_ffff,
        result->Err_0 is FileTooLarge <==> in_range(before@->0, key) && img@.len() <= 0x7fff_ffff
            && 8192 + before@->0.values.len() + stored_size(img@.len()) > 0x7fff_ffff_ffff_ffff,
        result->Err_0 matches PutError::BlobTooLarge(len) ==> len == img@.len(),
        result->Err_0 !is Index ==> after@ == before@,
        result->Err_0 matches PutError::Index(DiskBtreeError::AppendOverflow(offset)) ==> offset
            == 8192 + before@->0.values.len() && offset > 0x7f_ffff_ffff,
        result->Err_0 matches PutError::Index(
            DiskBtreeError::UnsortedInput { key: refused, last_key },
        ) ==> {
            &&& 8192 + before@->0.values.len() <= 0x7f_ffff_ffff
            &&& before@->0.entries.len() > 0
            &&& key.number() <= before@->0.entries.last().0
            &&& key_at(refused@, 0, key)
            &&& be_value(last_key@) == before@->0.entries.last().0
        },
{
    let view = before@->0;
    law_key_order(key, view.key_range.start);
    law_key_order(key, view.key_range.end);
    if img@.len() <= 0x7fff_ffff {
        law_blob_frame(img@);
    }
    if let PutError::Index(DiskBtreeError::UnsortedInput { key: refused, .. }) = result->Err_0 {
        assert(refused@.subrange(0, 18) =~= refused@);
        lemma_key_at(refused@, 0, key);
    }
}

/// Putting an image adds its length and its bytes behind the values that are still
/// to be written, and nothing else: also where the index then refuses the key.
pub proof fn law_put_stores(
    before: ImageLayerWriter,
    key: Key,
    img: &[u8],
    result: Result<(), PutError>,
    after: ImageLayerWriter,
    at: u64,
    bytes: &Vec<u8>,
    later: u64,
    more: &Vec<u8>,
)
    requires
        before.wf(),
        before@ is Some,
        exists|w: &mut ImageLayerWriter|
            *w == before && *final(w) == after && #[trigger] call_ensures(
                ImageLayerWriter::put_image,
                (w, key, img),
                result,
            ),
        result is Ok || result->Err_0 is Index,
        call_ensures(ImageLayerWriter::unwritten, (&before,), (at, bytes)),
        call_ensures(ImageLayerWriter::unwritten, (&after,), (later, more)),
    ensures
        later == at,
        bytes@.is_prefix_of(more@),
        img@.len() < 128 ==> {
            &&& more@.len() == bytes@.len() + 1 + img@.len()
            &&& more@[bytes@.len() as int] == img@.len()
        },
        img@.len() >= 128 ==> {
            &&& more@.len() == bytes@.len() + 4 + img@.len()
            &&& u32_at(more@, bytes@.len() as int) == 0x8000_0000 + img@.len()
        },
        more@.skip(more@.len() - img@.len()) == img@,
        result is Ok ==> after@->0.entries.last() == (key.number(), at as nat + bytes@.len()),
{
    let view = before@->0;
    let frame = blob_frame(img@);
    before.lemma_wf();
    law_blob_frame(img@);
    assert(after@->0.values == view.values + frame);
    assert(more@ =~= bytes@ + frame);
    assert(more@.skip(more@.len() - img@.len()) =~= frame.skip(frame.len() - img@.len()));
    assert forall|i: int| 0 <= i < frame.len() implies more@[bytes@.len() + i] == #[trigger] frame[
        i] by {}
    if img@.len() >= 128 {
        let start = bytes@.len() as int;
        assert(more@[start] == frame[0] && more@[start + 1] == frame[1] && more@[start + 2]
            == frame[2] && more@[start + 3] == frame[3]);
    } else {
        assert(more@[bytes@.len() as int] == frame[0]);
    }
}

/// What was written is not to be written again, and its images stay.
pub proof fn law_note_written(
    before: ImageLayerWriter,
    after: ImageLayerWriter,
    at: u64,
    bytes: &Vec<u8>,
    later: u64,
    more: &Vec<u8>,
    key: Key,
)
    requires
        before.wf(),
        before@ is Some,
        exists|w: &mut ImageLayerWriter|
            *w == before && *final(w) == after && #[trigger] call_ensures(
                ImageLayerWriter::note_written,
                (w,),
                (),
            ),
        call_ensures(ImageLayerWriter::unwritten, (&before,), (at, bytes)),
        call_ensures(ImageLayerWriter::unwritten, (&after,), (later, more)),
    ensures
        after@ is Some,
        same_target(before@->0, after@->0),
        after.temp_file() == before.temp_file(),
        later == at + bytes@.len(),
        more@.len() == 0,
        after@->0.entries == before@->0.entries,
        after@->0.image_of(key) == before@->0.image_of(key),
        after@->0.unwritten == 0,
        after@->0.waiting == 0,
{
    before.lemma_wf();
    law_written_images_stay(before@->0, key);
}

/// An image that was put and taken back was never there: also where it was
/// refused.
pub proof fn law_take_back(
    before: ImageLayerWriter,
    key: Key,
    img: &[u8],
    result: Result<(), PutError>,
    put: ImageLayerWriter,
    after: ImageLayerWriter,
)
    requires
        before.wf(),
        before@ is Some,
        before@->0.unwritten == 0,
        before@->0.waiting == 0,
        exists|w: &mut ImageLayerWriter|
            *w == before && *final(w) == put && #[trigger] call_ensures(
                ImageLayerWriter::put_image,
                (w, key, img),
                result,
            ),
        exists|w: &mut ImageLayerWriter|
            *w == put && *final(w) == after && #[trigger] call_ensures(
                ImageLayerWriter::take_back,
                (w,),
                (),
            ),
    ensures
        after@ == before@,
        after.temp_file() == before.temp_file(),
{
    let view = before@->0;
    before.lemma_wf();
    law_take_back_undoes_put(view, key, img@);
    assert(view.taken_back().values =~= view.values);
    assert(view.taken_back().entries =~= view.entries);
    assert(view.taken_back().images =~= view.images);
}

/// All that was not written is taken back at once: what comes next goes where that
/// was to go, and the entries before it stay.
pub proof fn law_take_back_all(
    before: ImageLayerWriter,
    after: ImageLayerWriter,
    at: u64,
    bytes: &Vec<u8>,
    later: u64,
    more: &Vec<u8>,
)
    requires
        before.wf(),
        before@ is Some,
        exists|w: &mut ImageLayerWriter|
            *w == before && *final(w) == after && #[trigger] call_ensures(
                ImageLayerWriter::take_back,
                (w,),
                (),
            ),
        call_ensures(ImageLayerWriter::unwritten, (&before,), (at, bytes)),
        call_ensures(ImageLayerWriter::unwritten, (&after,), (later, more)),
    ensures
        after@ is Some,
        same_target(before@->0, after@->0),
        after.temp_file() == before.temp_file(),
        later == at,
        more@.len() == 0,
        after@->0.values.is_prefix_of(before@->0.values),
        after@->0.entries.is_prefix_of(before@->0.entries),
        after@->0.images.is_prefix_of(before@->0.images),
        after@->0.entries.len() == before@->0.entries.len() - before@->0.waiting,
        after@->0.waiting == 0,
{
    before.lemma_wf();
}

/// A file keeps what was written: putting and taking back leave it alone, and
/// writing what is unwritten where it belongs, and noting that, adds it.
pub proof fn law_calls_keep_file(
    before: ImageLayerWriter,
    after: ImageLayerWriter,
    key: Key,
    img: &[u8],
    result: Result<(), PutError>,
    put: ImageLayerWriter,
    back: ImageLayerWriter,
    at: u64,
    bytes: &Vec<u8>,
    file: Seq<u8>,
)
    requires
        before.wf(),
        before@ is Some,
        before@->0.is_kept_in(file),
        exists|w: &mut ImageLayerWriter|
            *w == before && *final(w) == put && #[trigger] call_ensures(
                ImageLayerWriter::put_image,
                (w, key, img),
                result,
            ),
        exists|w: &mut ImageLayerWriter|
            *w == before && *final(w) == back && #[trigger] call_ensures(
                ImageLayerWriter::take_back,
                (w,),
                (),
            ),
        call_ensures(ImageLayerWriter::unwritten, (&before,), (at, bytes)),
        exists|w: &mut ImageLayerWriter|
            *w == before && *final(w) == after && #[trigger] call_ensures(
                ImageLayerWriter::note_written,
                (w,),
                (),
            ),
    ensures
        put@->0.is_kept_in(file),
        back@->0.is_kept_in(file),
        after@->0.is_kept_in(write_at(file, at as int, bytes@)),
{
    let view = before@->0;
    before.lemma_wf();
    law_put_keeps_file(view, key, img@, file);
    law_values_written(view, file, Seq::<u8>::empty());
}

/// The file of a finished layer gets the path that the layer looks for it under,
/// whatever size it has: that of its range of keys and its position. Until then the
/// temporary file stays known.
pub proof fn law_finish(
    before: ImageLayerWriter,
    plan: FinishPlan,
    after: ImageLayerWriter,
    size: u64,
    layer: ImageLayer,
    path: String,
)
    requires
        before.wf(),
        before@ is Some,
        exists|w: &mut ImageLayerWriter|
            *w == before && *final(w) == after && #[trigger] call_ensures(
                ImageLayerWriter::finish,
                (w,),
                plan,
            ),
        call_ensures(FinishPlan::layer, (&plan, size), layer),
        call_ensures(ImageLayer::path, (&layer,), path),
    ensures
        after@ is None,
        after.temp_file() == Some(before@->0.path),
        plan.path@ == before@->0.path,
        path@ == plan.final_path@,
        plan.index_start_blk == (8192 + before@->0.values.len() + 8191) / 8192
            % 0x1_0000_0000,
        plan.index_offset == plan.index_start_blk * 8192,
        is_layer_path(
            plan.final_path@,
            PathOrConf::Conf(before@->0.conf),
            before@->0.timeline_id,
            before@->0.tenant_id,
            ImageFileName { key_range: before@->0.key_range, lsn: before@->0.lsn },
        ),
        layer.path_or_conf == PathOrConf::Conf(before@->0.conf),
        layer.desc.tenant_id == before@->0.tenant_id,
        layer.desc.timeline_id == before@->0.timeline_id,
        layer.desc.key_range == before@->0.key_range,
        layer.desc.lsn == before@->0.lsn,
        layer.desc.file_size == size,
        layer.lsn == before@->0.lsn,
        layer.inner is None,
        layer.access_stats.get_value_reconstruct_data == 0,
        layer.access_stats.dump == 0,
{
    let view = before@->0;
    law_layer_path(
        PathOrConf::Conf(view.conf),
        view.timeline_id,
        view.tenant_id,
        ImageFileName { key_range: view.key_range, lsn: view.lsn },
    );
}

/// Two files under one directory get the same final path only if they are of the
/// same layer: the same tenant, timeline, range of keys and position.
pub proof fn law_final_paths_tell(
    left: ImageLayerWriter,
    left_plan: FinishPlan,
    left_after: ImageLayerWriter,
    right: ImageLayerWriter,
    right_plan: FinishPlan,
    right_after: ImageLayerWriter,
)
    requires
        left@ is Some,
        right@ is Some,
        left@->0.conf == right@->0.conf,
        exists|w: &mut ImageLayerWriter|
            *w == left && *final(w) == left_after && #[trigger] call_ensures(
                ImageLayerWriter::finish,
                (w,),
                left_plan,
            ),
        exists|w: &mut ImageLayerWriter|
            *w == right && *final(w) == right_after && #[trigger] call_ensures(
                ImageLayerWriter::finish,
                (w,),
                right_plan,
            ),
        left_plan.final_path@ == right_plan.final_path@,
    ensures
        left@->0.tenant_id == right@->0.tenant_id,
        left@->0.timeline_id == right@->0.timeline_id,
        left@->0.key_range == right@->0.key_range,
        left@->0.lsn == right@->0.lsn,
{
    let one = left@->0;
    let two = right@->0;
    let one_name = ImageFileName { key_range: one.key_range, lsn: one.lsn };
    let two_name = ImageFileName { key_range: two.key_range, lsn: two.lsn };
    law_layer_path(PathOrConf::Conf(one.conf), one.timeline_id, one.tenant_id, one_name);
    law_layer_path(PathOrConf::Conf(two.conf), two.timeline_id, two.tenant_id, two_name);
    law_layer_path_tells(
        left_plan.final_path@,
        one.conf,
        one.timeline_id,
        one.tenant_id,
        one_name,
        two.timeline_id,
        two.tenant_id,
        two_name,
    );
}

/// A writer that is given up names its temporary file, unless the file has got its
/// final name: also after `finish`, and only once.
pub proof fn law_discard(
    before: ImageLayerWriter,
    path: Option<String>,
    after: ImageLayerWriter,
    again: Option<String>,
    last: ImageLayerWriter,
)
    requires
        exists|w: &mut ImageLayerWriter|
            *w == before && *final(w) == after && #[trigger] call_ensures(
                ImageLayerWriter::discard,
                (w,),
                path,
            ),
        exists|w: &mut ImageLayerWriter|
            *w == after && *final(w) == last && #[trigger] call_ensures(
                ImageLayerWriter::discard,
                (w,),
                again,
            ),
    ensures
        path is Some <==> before.temp_file() is Some,
        path is Some ==> Some(path->0@) == before.temp_file(),
        again is None,
        after@ is None,
{
}

/// A file that has got its final name is not removed.
pub proof fn law_finished_stays(
    before: ImageLayerWriter,
    plan: FinishPlan,
    finished: ImageLayerWriter,
    noted: ImageLayerWriter,
    path: Option<String>,
    after: ImageLayerWriter,
)
    requires
        exists|w: &mut ImageLayerWriter|
            *w == before && *final(w) == finished && #[trigger] call_ensures(
                ImageLayerWriter::finish,
                (w,),
                plan,
            ),
        exists|w: &mut ImageLayerWriter|
            *w == finished && *final(w) == noted && #[trigger] call_ensures(
                ImageLayerWriter::note_finished,
                (w,),
                (),
            ),
        exists|w: &mut ImageLayerWriter|
            *w == noted && *final(w) == after && #[trigger] call_ensures(
                ImageLayerWriter::discard,
                (w,),
                path,
            ),
    ensures
        path is None,
{
}

/// The path that a writer tells is that of its temporary file: the one that the plan
/// renames, and the one that is removed if that fails.
pub proof fn law_writer_path(
    before: ImageLayerWriter,
    path: &String,
    plan: FinishPlan,
    finished: ImageLayerWriter,
    removed: Option<String>,
    after: ImageLayerWriter,
)
    requires
        before.wf(),
        before@ is Some,
        call_ensures(ImageLayerWriter::path, (&before,), path),
        exists|w: &mut ImageLayerWriter|
            *w == before && *final(w) == finished && #[trigger] call_ensures(
                ImageLayerWriter::finish,
                (w,),
                plan,
            ),
        exists|w: &mut ImageLayerWriter|
            *w == finished && *final(w) == after && #[trigger] call_ensures(
                ImageLayerWriter::discard,
                (w,),
                removed,
            ),
    ensures
        before.temp_file() == Some(path@),
        plan.path@ == path@,
        removed is Some,
        removed->0@ == path@,
{
    before.lemma_wf();
}

/// A new writer has nothing to write, and its first value goes to block 1.
pub proof fn law_new_unwritten(
    conf: &'static PageServerConf,
    timeline_id: TimelineId,
    tenant_id: TenantId,
    key_range: KeyRange,
    lsn: Lsn,
    writer: ImageLayerWriter,
    at: u64,
    bytes: &Vec<u8>,
    file: Seq<u8>,
)
    requires
        call_ensures(
            ImageLayerWriter::new,
            (conf, timeline_id, tenant_id, &key_range, lsn),
            writer,
        ),
        call_ensures(ImageLayerWriter::unwritten, (&writer,), (at, bytes)),
    ensures
        at == 8192,
        bytes@.len() == 0,
        writer@->0.is_kept_in(file),
{
}

} // verus!
