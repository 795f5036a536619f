//! What calls to a layer give, and how they relate.
use vstd::prelude::*;

use crate::big_endian::be_value;
use crate::btree::{leaf_entries, tree_entries, Search};
use crate::btree_node::{node_of, OnDiskNode};
use crate::format::block_of;
use crate::ids::{Lsn, LsnRange, TenantId, TimelineId};
use crate::image_layer::{DumpStart, ImageLayer, ImageLayerInner, LoadError, LookupStart};
use crate::index_read::{
    index_blocks, stored_value_of, LookupStep, ReadError, Stored, ValueLookup,
};
use crate::index_walk::{show_leaf, IndexWalk};
use crate::key::{Key, KeyRange};
use crate::laws::{
    law_plan_writes_file, law_read_after_write, law_walk_after_write, law_written_file_loads,
};
use crate::laws_bytes::{law_summary_at_unique, lemma_found, summary_at};
use crate::laws_names::{
    is_file_name, is_key_text, is_layer_path, is_lsn_text, law_entry_line,
    law_key_text, law_layer_path, law_lsn_text, law_name, law_name_unique,
};
use crate::layer_desc::PersistentLayerDesc;
use crate::layer_name::{ImageFileName, PageServerConf, PathOrConf};
use crate::reconstruct::{contents, ValueReconstructResult, ValueReconstructState};
use crate::stats::{
    HistoricLayerInfo, LayerAccessKind, LayerAccessStats, LayerAccessStatsReset,
};
use crate::summary::{summary_of, Summary};
use crate::text::{
    decimal, is_hex_of, is_numeral, is_small_digit, law_digits_read_back, law_hex_read_back,
    law_small_hex_number, number_read,
};
use crate::writer::{FinishPlan, ImageLayerWriter};

verus! {

/// Whether a count is one more than another, or stays at the limit of its type.
pub open spec fn is_next_count(before: u64, after: u64) -> bool {
    if before == 0xffff_ffff_ffff_ffff {
        after == before
    } else {
        after == before + 1
    }
}

/// Whether the counts of a layer show one more access of a kind, and no other.
pub open spec fn is_counted(
    before: LayerAccessStats,
    kind: LayerAccessKind,
    after: LayerAccessStats,
) -> bool {
    match kind {
        LayerAccessKind::GetValueReconstructData => {
            &&& is_next_count(before.get_value_reconstruct_data, after.get_value_reconstruct_data)
            &&& after.dump == before.dump
        },
        LayerAccessKind::Dump => {
            &&& is_next_count(before.dump, after.dump)
            &&& after.get_value_reconstruct_data == before.get_value_reconstruct_data
        },
    }
}

/// Whether two layers are the same but for their counts and for what was loaded.
pub open spec fn same_file(left: ImageLayer, right: ImageLayer) -> bool {
    &&& left.path_or_conf == right.path_or_conf
    &&& left.desc == right.desc
    &&& left.lsn == right.lsn
}

/// A layer for a file of the page server is what it is told.
pub proof fn law_layer_new(
    conf: &'static PageServerConf,
    timeline_id: TimelineId,
    tenant_id: TenantId,
    filename: ImageFileName,
    file_size: u64,
    access_stats: LayerAccessStats,
    layer: ImageLayer,
    path: String,
)
    requires
        call_ensures(
            ImageLayer::new,
            (conf, timeline_id, tenant_id, &filename, file_size, access_stats),
            layer,
        ),
        call_ensures(ImageLayer::path, (&layer,), path),
    ensures
        is_layer_path(path@, PathOrConf::Conf(conf), timeline_id, tenant_id, filename),
        layer.path_or_conf == PathOrConf::Conf(conf),
        layer.desc.tenant_id == tenant_id,
        layer.desc.timeline_id == timeline_id,
        layer.desc.key_range == filename.key_range,
        layer.desc.lsn == filename.lsn,
        layer.desc.file_size == file_size,
        layer.lsn == filename.lsn,
        layer.access_stats == access_stats,
        layer.inner is None,
{
    law_layer_path(PathOrConf::Conf(conf), timeline_id, tenant_id, filename);
}

/// A layer for a file that is opened by its path is what the summary in the first
/// block of the file says.
pub proof fn law_new_for_path(
    path: String,
    block: &[u8],
    file_size: u64,
    actual: Summary,
    result: Result<ImageLayer, LoadError>,
)
    requires
        call_ensures(ImageLayer::new_for_path, (path, block, file_size), result),
        summary_at(block@, actual),
    ensures
        result is Ok <==> block@.len() == 8192,
        result matches Ok(layer) ==> {
            &&& layer.path_or_conf == PathOrConf::Path(path)
            &&& layer.desc.tenant_id == actual.tenant_id
            &&& layer.desc.timeline_id == actual.timeline_id
            &&& layer.desc.key_range == actual.key_range
            &&& layer.desc.lsn == actual.lsn
            &&& layer.desc.file_size == file_size
            &&& layer.lsn == actual.lsn
            &&& layer.access_stats.get_value_reconstruct_data == 0
            &&& layer.access_stats.dump == 0
            &&& layer.inner is None
        },
        result matches Err(error) ==> error == LoadError::BlockSize,
{
    lemma_block_summary(block@, actual);
}

/// The summary that is found in a block is the one that can be read there.
proof fn lemma_block_summary(block: Seq<u8>, actual: Summary)
    requires
        summary_at(block, actual),
    ensures
        summary_of(block) matches Some(found) ==> found == actual,
{
    if let Some(found) = summary_of(block) {
        lemma_found(block, found);
        law_summary_at_unique(block, actual, found);
    }
}

/// The path of a layer is that of its file, and the layer always has it.
pub proof fn law_layer_paths(
    layer: ImageLayer,
    path: String,
    local: Option<String>,
    name: ImageFileName,
    shown: String,
)
    requires
        call_ensures(ImageLayer::path, (&layer,), path),
        call_ensures(ImageLayer::local_path, (&layer,), local),
        call_ensures(ImageLayer::layer_name, (&layer,), name),
        call_ensures(ImageLayer::display_text, (&layer,), shown),
    ensures
        is_layer_path(
            path@,
            layer.path_or_conf,
            layer.desc.timeline_id,
            layer.desc.tenant_id,
            ImageFileName { key_range: layer.desc.key_range, lsn: layer.desc.lsn },
        ),
        local is Some,
        local->0@ == path@,
        name.key_range == layer.desc.key_range,
        name.lsn == layer.desc.lsn,
        is_file_name(shown@, name),
{
    let fname = ImageFileName { key_range: layer.desc.key_range, lsn: layer.desc.lsn };
    law_layer_path(layer.path_or_conf, layer.desc.timeline_id, layer.desc.tenant_id, fname);
    law_name(fname);
}

/// What is told of a layer is what it is, with its counts as they were. The counts
/// start anew if that is asked for, and nothing else changes.
pub proof fn law_info(
    before: ImageLayer,
    reset: LayerAccessStatsReset,
    info: HistoricLayerInfo,
    after: ImageLayer,
)
    requires
        exists|l: &mut ImageLayer|
            *l == before && *final(l) == after && #[trigger] call_ensures(
                ImageLayer::info,
                (l, reset),
                info,
            ),
    ensures
        match info {
            HistoricLayerInfo::Image {
                layer_file_name,
                layer_file_size,
                lsn_start,
                remote,
                access_stats,
            } => {
                &&& is_file_name(
                    layer_file_name@,
                    ImageFileName { key_range: before.desc.key_range, lsn: before.desc.lsn },
                )
                &&& layer_file_size == before.desc.file_size
                &&& lsn_start == before.desc.lsn
                &&& !remote
                &&& access_stats == before.access_stats
            },
        },
        same_file(before, after),
        after.inner == before.inner,
        reset == LayerAccessStatsReset::NoReset ==> after.access_stats == before.access_stats,
        reset == LayerAccessStatsReset::AllStats ==> after.access_stats.get_value_reconstruct_data
            == 0 && after.access_stats.dump == 0,
{
    law_name(ImageFileName { key_range: before.desc.key_range, lsn: before.desc.lsn });
}

/// Loading counts one access, and gives what was loaded before.
pub proof fn law_layer_load(
    before: ImageLayer,
    kind: LayerAccessKind,
    loaded: Option<ImageLayerInner>,
    after: ImageLayer,
)
    requires
        exists|l: &mut ImageLayer|
            *l == before && *final(l) == after && #[trigger] call_ensures(
                ImageLayer::load,
                (l, kind),
                loaded,
            ),
    ensures
        loaded == before.inner,
        after.inner == before.inner,
        same_file(before, after),
        is_counted(before.access_stats, kind, after.access_stats),
{
}

/// A layer loads a file whose summary says of it what the layer is; one that was
/// opened by its path loads any. It keeps what it has loaded. What it has not
/// loaded, it does not have.
pub proof fn law_load_inner(
    before: ImageLayer,
    block: &[u8],
    actual: Summary,
    result: Result<ImageLayerInner, LoadError>,
    after: ImageLayer,
)
    requires
        exists|l: &mut ImageLayer|
            *l == before && *final(l) == after && #[trigger] call_ensures(
                ImageLayer::load_inner,
                (l, block),
                result,
            ),
        summary_at(block@, actual),
    ensures
        same_file(before, after),
        after.access_stats == before.access_stats,
        before.inner is Some ==> result is Ok && result->Ok_0 == before.inner->0 && after.inner
            == before.inner,
        before.inner is None ==> {
            &&& result is Ok <==> block@.len() == 8192 && (before.path_or_conf is Path || {
                &&& actual.magic == 0x5A60
                &&& actual.format_version == 3
                &&& actual.tenant_id == before.desc.tenant_id
                &&& actual.timeline_id == before.desc.timeline_id
                &&& actual.key_range == before.desc.key_range
                &&& actual.lsn == before.lsn
            })
            &&& result is Ok ==> {
                &&& result->Ok_0.index_start_blk == actual.index_start_blk
                &&& result->Ok_0.index_root_blk == actual.index_root_blk
                &&& result->Ok_0.lsn == before.desc.lsn
                &&& after.inner == Some(result->Ok_0)
            }
            &&& result is Err ==> after.inner is None
            &&& block@.len() != 8192 ==> result == Err::<ImageLayerInner, LoadError>(
                LoadError::BlockSize,
            )
            &&& result is Err && block@.len() == 8192 ==> result == Err::<
                ImageLayerInner,
                LoadError,
            >(
                LoadError::SummaryMismatch {
                    actual,
                    expected: Summary {
                        magic: 0x5A60,
                        format_version: 3,
                        tenant_id: before.desc.tenant_id,
                        timeline_id: before.desc.timeline_id,
                        key_range: before.desc.key_range,
                        lsn: before.lsn,
                        index_start_blk: actual.index_start_blk,
                        index_root_blk: actual.index_root_blk,
                    },
                },
            )
        },
{
    lemma_block_summary(block@, actual);
}

/// The name of a file is complained of where the file was opened by its path and
/// has another name than its summary asks for: that name is given.
pub proof fn law_check_filename(layer: ImageLayer, actual: String, expected: Option<String>)
    requires
        call_ensures(ImageLayer::check_filename, (&layer, &actual), expected),
    ensures
        expected is Some <==> layer.path_or_conf is Path && !is_file_name(
            actual@,
            ImageFileName { key_range: layer.desc.key_range, lsn: layer.desc.lsn },
        ),
        expected is Some ==> is_file_name(
            expected->0@,
            ImageFileName { key_range: layer.desc.key_range, lsn: layer.desc.lsn },
        ),
{
    let fname = ImageFileName { key_range: layer.desc.key_range, lsn: layer.desc.lsn };
    law_name(fname);
    if is_file_name(actual@, fname) {
        law_name_unique(actual@, fname);
    }
}

/// What was found for a key is handed over whole, byte for byte, with the position
/// of the layer. If nothing was found, the state stays as it is.
pub proof fn law_reconstruct(
    inner: ImageLayerInner,
    found: Option<Vec<u8>>,
    before: ValueReconstructState,
    result: ValueReconstructResult,
    after: ValueReconstructState,
)
    requires
        exists|s: &mut ValueReconstructState|
            *s == before && *final(s) == after && #[trigger] call_ensures(
                ImageLayerInner::reconstruct,
                (&inner, found, s),
                result,
            ),
    ensures
        found is Some <==> result == ValueReconstructResult::Complete,
        found is None <==> result == ValueReconstructResult::Missing,
        found is None ==> after == before,
        found is Some ==> match after.img {
            Some((at, buffer)) => {
                &&& at == inner.lsn
                &&& contents(buffer).len() == found->0@.len()
                &&& forall|i: int|
                    0 <= i < found->0@.len() ==> #[trigger] contents(buffer)[i] == found->0@[i]
            },
            None => false,
        },
{
}

/// What is noted of a key is noted whole, byte for byte, with the position that it
/// is of.
pub proof fn law_note(
    lsn: Lsn,
    found: Option<Vec<u8>>,
    before: ValueReconstructState,
    result: ValueReconstructResult,
    after: ValueReconstructState,
)
    requires
        exists|s: &mut ValueReconstructState|
            *s == before && *final(s) == after && #[trigger] call_ensures(
                ValueReconstructState::note,
                (s, lsn, found),
                result,
            ),
    ensures
        found is Some <==> result == ValueReconstructResult::Complete,
        found is None <==> result == ValueReconstructResult::Missing,
        found is None ==> after == before,
        found is Some ==> match after.img {
            Some((at, buffer)) => {
                &&& at == lsn
                &&& contents(buffer).len() == found->0@.len()
                &&& forall|i: int|
                    0 <= i < found->0@.len() ==> #[trigger] contents(buffer)[i] == found->0@[i]
            },
            None => false,
        },
{
}

/// What is known of a layer, and its counts, are what the layer holds. The summary
/// that its file has to have says of the layer what it is.
pub proof fn law_layer_tells(
    layer: ImageLayer,
    desc: &PersistentLayerDesc,
    stats: &LayerAccessStats,
    summary: Summary,
)
    requires
        call_ensures(ImageLayer::layer_desc, (&layer,), desc),
        call_ensures(ImageLayer::access_stats, (&layer,), stats),
        call_ensures(<Summary as From<&ImageLayer>>::from, (&layer,), summary),
    ensures
        *desc == layer.desc,
        *stats == layer.access_stats,
        summary.magic == 0x5A60,
        summary.format_version == 3,
        summary.tenant_id == layer.desc.tenant_id,
        summary.timeline_id == layer.desc.timeline_id,
        summary.key_range == layer.desc.key_range,
        summary.lsn == layer.lsn,
        summary.index_start_blk == 0,
        summary.index_root_blk == 0,
{
}

/// What is not a whole block, and what does not hold the node that the search needs,
/// is refused: such a file is never said to lack the key. In a sound leaf the key is
/// missing where no entry has it, and is found where one has it.
pub proof fn law_lookup_step(
    lookup: ValueLookup,
    number: u64,
    block: &[u8],
    step: LookupStep,
    offset: Option<u64>,
)
    requires
        call_ensures(ValueLookup::next_block, (&lookup,), number),
        call_ensures(ValueLookup::supply, (lookup, block), step),
        call_ensures(ValueLookup::value_offset, (&lookup,), offset),
    ensures
        block@.len() != 8192 ==> step == LookupStep::Failed(ReadError::BlockSize),
        block@.len() == 8192 && step is Failed ==> step == LookupStep::Failed(
            ReadError::MalformedNode(number),
        ),
        block@.len() == 8192 && offset is Some ==> step is Read || step is Complete,
        block@.len() == 8192 && offset is None ==> match node_of(block@) {
            None => step is Failed,
            Some(node) => {
                &&& lookup.level_due() is Some && lookup.level_due()->0 != node.level ==> step
                    is Failed
                &&& node.level == 0 && (lookup.level_due() is None || lookup.level_due()->0 == 0)
                    ==> {
                    &&& step is Missing <==> !node.keys.contains(lookup.key_number())
                    &&& step is Read <==> node.keys.contains(lookup.key_number())
                }
                &&& node.level > 0 ==> step is Failed || step is Read
                &&& node.level > 0 && node.keys.len() == 0 ==> step is Failed
            },
        },
{
}

/// The offset that a lookup tells is the one that the index holds for the key.
pub proof fn law_value_offset(
    file: Seq<u8>,
    lookup: ValueLookup,
    number: u64,
    block: &[u8],
    next: ValueLookup,
    offset: Option<u64>,
)
    requires
        lookup.agrees(file),
        call_ensures(ValueLookup::next_block, (&lookup,), number),
        block_of(file, number as int) == Some(block@),
        call_ensures(ValueLookup::supply, (lookup, block), LookupStep::Read(next)),
        call_ensures(ValueLookup::value_offset, (&next,), offset),
    ensures
        next.agrees(file),
        next.index_says(file) == lookup.index_says(file),
        offset matches Some(offset) ==> lookup.index_says(file) == Search::Found(offset as nat),
{
}

/// Whether a lookup comes to `stored` on `file` when it is handed the blocks that
/// it asks for, after at most `steps` blocks more than the first.
pub open spec fn comes_to(file: Seq<u8>, lookup: ValueLookup, stored: Stored, steps: nat) -> bool
    decreases steps,
{
    exists|number: u64, block: &[u8], step: LookupStep|
        #![trigger call_ensures(ValueLookup::next_block, (&lookup,), number),
            call_ensures(ValueLookup::supply, (lookup, block), step)]
        {
            &&& call_ensures(ValueLookup::next_block, (&lookup,), number)
            &&& block_of(file, number as int) == Some(block@)
            &&& call_ensures(ValueLookup::supply, (lookup, block), step)
            &&& match step {
                LookupStep::Read(next) => steps > 0 && comes_to(
                    file,
                    next,
                    stored,
                    (steps - 1) as nat,
                ),
                LookupStep::Complete(image) => stored == Stored::Image(image@),
                LookupStep::Missing => stored == Stored::Missing,
                LookupStep::Failed(_) => stored == Stored::Unreadable,
            }
        }
}

/// A lookup comes to what the file holds.
pub proof fn law_lookup_run(file: Seq<u8>, lookup: ValueLookup, stored: Stored, steps: nat)
    requires
        lookup.agrees(file),
        comes_to(file, lookup, stored, steps),
    ensures
        stored == lookup.outcome(file),
    decreases steps,
{
    let (number, block, step) = choose|number: u64, block: &[u8], step: LookupStep|
        #![trigger call_ensures(ValueLookup::next_block, (&lookup,), number),
            call_ensures(ValueLookup::supply, (lookup, block), step)]
        {
            &&& call_ensures(ValueLookup::next_block, (&lookup,), number)
            &&& block_of(file, number as int) == Some(block@)
            &&& call_ensures(ValueLookup::supply, (lookup, block), step)
            &&& match step {
                LookupStep::Read(next) => steps > 0 && comes_to(
                    file,
                    next,
                    stored,
                    (steps - 1) as nat,
                ),
                LookupStep::Complete(image) => stored == Stored::Image(image@),
                LookupStep::Missing => stored == Stored::Missing,
                LookupStep::Failed(_) => stored == Stored::Unreadable,
            }
        };
    if let LookupStep::Read(next) = step {
        law_lookup_run(file, next, stored, (steps - 1) as nat);
    }
}

/// Looking a key up comes to what the file holds for it, whether the layer starts
/// the lookup or what was loaded of it.
pub proof fn law_look_up(
    file: Seq<u8>,
    inner: ImageLayerInner,
    key: Key,
    lookup: ValueLookup,
    stored: Stored,
    steps: nat,
)
    requires
        call_ensures(ImageLayerInner::get_value_reconstruct_data, (&inner, key), lookup),
        comes_to(file, lookup, stored, steps),
    ensures
        stored == stored_value_of(
            file,
            inner.index_start_blk as int,
            inner.index_root_blk as int,
            key.number(),
        ),
{
    assert(lookup.agrees(file));
    law_lookup_run(file, lookup, stored, steps);
    assert(lookup.index_says(file) == lookup.index_says(file));
}

/// A layer counts each lookup once. It searches if its file is loaded, and asks
/// for that if not; the search comes to what the file holds for the key.
pub proof fn law_layer_look_up(
    file: Seq<u8>,
    before: ImageLayer,
    key: Key,
    lsn_range: LsnRange,
    start: LookupStart,
    after: ImageLayer,
    stored: Stored,
    steps: nat,
)
    requires
        exists|l: &mut ImageLayer|
            *l == before && *final(l) == after && #[trigger] call_ensures(
                ImageLayer::get_value_reconstruct_data,
                (l, key, lsn_range),
                start,
            ),
        start matches LookupStart::Search(lookup) ==> comes_to(file, lookup, stored, steps),
    ensures
        same_file(before, after),
        after.inner == before.inner,
        is_counted(
            before.access_stats,
            LayerAccessKind::GetValueReconstructData,
            after.access_stats,
        ),
        start is Load <==> before.inner is None,
        start is Search ==> stored == stored_value_of(
            file,
            before.inner->0.index_start_blk as int,
            before.inner->0.index_root_blk as int,
            key.number(),
        ),
{
    if let LookupStart::Search(lookup) = start {
        assert(lookup.agrees(file));
        law_lookup_run(file, lookup, stored, steps);
        assert(lookup.index_says(file) == lookup.index_says(file));
    }
}

/// What a layer gives back of what was put into it. The writer is finished, its
/// plan carried out on a file that holds the values written so far, the layer loads
/// that file and looks a key up. If an image was put for the key, the state ends
/// with that image, whole, and with the position of the layer; if not, the key is
/// missing, and the state stays as it was.
pub proof fn law_page_read_back(
    writer: ImageLayerWriter,
    plan: FinishPlan,
    finished: ImageLayerWriter,
    file: Seq<u8>,
    size: u64,
    layer: ImageLayer,
    block: &[u8],
    result: Result<ImageLayerInner, LoadError>,
    loaded: ImageLayer,
    key: Key,
    lookup: ValueLookup,
    steps: nat,
    stored: Stored,
    found: Option<Vec<u8>>,
    before: ValueReconstructState,
    answer: ValueReconstructResult,
    after: ValueReconstructState,
)
    requires
        writer.wf(),
        writer@ is Some,
        writer@->0.values.len() <= 0x1000_0000_0000,
        writer@->0.is_kept_in(file),
        exists|w: &mut ImageLayerWriter|
            *w == writer && *final(w) == finished && #[trigger] call_ensures(
                ImageLayerWriter::finish,
                (w,),
                plan,
            ),
        call_ensures(FinishPlan::layer, (&plan, size), layer),
        block_of(plan.carried_out(file), 0) == Some(block@),
        exists|l: &mut ImageLayer|
            *l == layer && *final(l) == loaded && #[trigger] call_ensures(
                ImageLayer::load_inner,
                (l, block),
                result,
            ),
        result is Ok ==> call_ensures(
            ImageLayerInner::get_value_reconstruct_data,
            (&result->Ok_0, key),
            lookup,
        ),
        comes_to(plan.carried_out(file), lookup, stored, steps),
        stored matches Stored::Image(image) ==> found is Some && found->0@ == image,
        stored is Missing ==> found is None,
        result is Ok ==> exists|s: &mut ValueReconstructState|
            *s == before && *final(s) == after && #[trigger] call_ensures(
                ImageLayerInner::reconstruct,
                (&result->Ok_0, found, s),
                answer,
            ),
    ensures
        result is Ok,
        loaded.inner == Some(result->Ok_0),
        match writer@->0.image_of(key) {
            Some(image) => {
                &&& answer == ValueReconstructResult::Complete
                &&& match after.img {
                    Some((at, buffer)) => at == writer@->0.lsn && contents(buffer) == image,
                    None => false,
                }
            },
            None => answer == ValueReconstructResult::Missing && after == before,
        },
{
    let view = writer@->0;
    let whole = plan.carried_out(file);
    writer.lemma_wf();
    assert(view.blocks_before_index() < 0x1_0000_0000);
    law_plan_writes_file(file, view, plan);
    law_written_file_loads(whole, view, plan, layer);
    law_look_up(whole, result->Ok_0, key, lookup, stored, steps);
    law_read_after_write(whole, view, plan, key);
}

/// Whether a line shows the entry of the key with the given number: its key and its
/// offset can be read there.
pub open spec fn shows_entry(line: Seq<char>, key: nat, offset: nat) -> bool {
    &&& line.len() > 49
    &&& line.subrange(0, 5) == seq!['k', 'e', 'y', ':', ' ']
    &&& forall|i: int| 5 <= i < 41 ==> is_small_digit(#[trigger] line[i])
    &&& number_read(line.subrange(5, 41), 16) == key
    &&& line.subrange(41, 49) == seq![' ', 'o', 'f', 'f', 's', 'e', 't', ' ']
    &&& is_numeral(line.skip(49), 10, offset)
}

/// The texts of some lines, and of those that come after them.
pub open spec fn all_lines(shown: Seq<Vec<String>>) -> Seq<Seq<char>>
    decreases shown.len(),
{
    if shown.len() == 0 {
        Seq::<Seq<char>>::empty()
    } else {
        all_lines(shown.drop_last()) + Seq::new(
            shown.last()@.len(),
            |i: int| shown.last()@[i]@,
        )
    }
}

/// Whether lines show entries, one each, in order.
pub open spec fn is_listing(lines: Seq<Seq<char>>, entries: Seq<(nat, nat)>) -> bool {
    &&& lines.len() == entries.len()
    &&& forall|i: int|
        0 <= i < lines.len() ==> shows_entry(#[trigger] lines[i], entries[i].0, entries[i].1)
}

/// Whether the lines of a node show its entries, if it is a leaf, and nothing
/// otherwise.
spec fn lists_node(shown: Vec<String>, node: OnDiskNode) -> bool {
    is_listing(
        Seq::new(shown@.len(), |i: int| shown@[i]@),
        if node.level == 0 {
            leaf_entries(node@)
        } else {
            Seq::<(nat, nat)>::empty()
        },
    )
}

/// `show_leaf` gives the lines of a node.
proof fn lemma_lists_node(node: OnDiskNode, shown: Vec<String>)
    requires
        call_ensures(show_leaf, (&node,), shown),
        node.keys@.len() == node.values@.len(),
    ensures
        lists_node(shown, node),
{
    let lines = Seq::new(shown@.len(), |i: int| shown@[i]@);
    assert forall|i: int| 0 <= i < lines.len() implies shows_entry(
        #[trigger] lines[i],
        be_value(node.keys@[i]@),
        node.values@[i] as nat,
    ) by {
        let line = shown@[i]@;
        law_entry_line(node.keys@[i]@, node.values@[i] as nat);
        law_small_hex_number(line.subrange(5, 41), node.keys@[i]@);
        assert forall|j: int| 5 <= j < 41 implies is_small_digit(#[trigger] line[j]) by {
            assert(line[j] == line.subrange(5, 41)[j - 5]);
        }
    }
}

/// The first steps of a walk list the first entries.
proof fn lemma_listing(
    file: Seq<u8>,
    entries: Seq<(nat, nat)>,
    walks: Seq<IndexWalk>,
    nodes: Seq<OnDiskNode>,
    shown: Seq<Vec<String>>,
    count: nat,
) -> (listed: Seq<(nat, nat)>)
    requires
        count <= nodes.len() == shown.len(),
        walks.len() == nodes.len() + 1,
        walks[0].pending(file) == Some(entries),
        forall|i: int|
            0 <= i < nodes.len() ==> lists_node(shown[i], #[trigger] nodes[i]) && (
            walks[i].pending(file) is Some ==> walks[i + 1].pending(file) is Some
                && walks[i].pending(file)->0 == (if nodes[i].level == 0 {
                leaf_entries(nodes[i]@)
            } else {
                Seq::<(nat, nat)>::empty()
            }) + walks[i + 1].pending(file)->0),
    ensures
        is_listing(all_lines(shown.take(count as int)), listed),
        walks[count as int].pending(file) is Some,
        entries == listed + walks[count as int].pending(file)->0,
    decreases count,
{
    if count == 0 {
        let listed = Seq::<(nat, nat)>::empty();
        assert(shown.take(0) =~= Seq::<Vec<String>>::empty());
        assert(entries =~= listed + entries);
        listed
    } else {
        let last = count - 1;
        let front = lemma_listing(file, entries, walks, nodes, shown, last as nat);
        let node = nodes[last];
        let own = if node.level == 0 {
            leaf_entries(node@)
        } else {
            Seq::<(nat, nat)>::empty()
        };
        assert(lists_node(shown[last], node));
        let before = all_lines(shown.take(last));
        let lines = Seq::new(shown[last]@.len(), |i: int| shown[last]@[i]@);
        assert(shown.take(count as int).drop_last() =~= shown.take(last));
        assert(shown.take(count as int).last() == shown[last]);
        let all = all_lines(shown.take(count as int));
        assert(all =~= before + lines);
        let listed = front + own;
        assert forall|i: int| 0 <= i < all.len() implies shows_entry(
            #[trigger] all[i],
            listed[i].0,
            listed[i].1,
        ) by {
            if i < before.len() {
                assert(all[i] == before[i]);
            } else {
                assert(all[i] == lines[i - before.len()]);
            }
        }
        assert(entries =~= listed + walks[count as int].pending(file)->0);
        listed
    }
}

/// A dump of a sound index shows all its entries, one line each, in order: a walk
/// from its root, each of whose blocks is handed over and each of whose nodes is
/// shown, ends with just these lines.
pub proof fn law_dump_lists(
    file: Seq<u8>,
    inner: ImageLayerInner,
    entries: Seq<(nat, nat)>,
    walks: Seq<IndexWalk>,
    numbers: Seq<u64>,
    blocks: Seq<&[u8]>,
    nodes: Seq<OnDiskNode>,
    shown: Seq<Vec<String>>,
)
    requires
        tree_entries(
            index_blocks(file, inner.index_start_blk as int),
            inner.index_root_blk as int,
        ) == Some(entries),
        walks.len() == nodes.len() + 1,
        nodes.len() == numbers.len() == blocks.len() == shown.len(),
        call_ensures(ImageLayerInner::walk, (&inner,), walks[0]),
        forall|i: int|
            0 <= i < nodes.len() ==> {
                &&& call_ensures(IndexWalk::next_block, (&walks[i],), Some(numbers[i]))
                &&& block_of(file, numbers[i] as int) == Some(blocks[i]@)
                &&& exists|w: &mut IndexWalk|
                    *w == walks[i] && *final(w) == walks[i + 1] && #[trigger] call_ensures(
                        IndexWalk::supply,
                        (w, blocks[i]),
                        Ok::<OnDiskNode, ReadError>(#[trigger] nodes[i]),
                    )
                &&& call_ensures(show_leaf, (&nodes[i],), shown[i])
            },
        call_ensures(IndexWalk::next_block, (&walks[nodes.len() as int],), None::<u64>),
    ensures
        is_listing(all_lines(shown), entries),
{
    let count = nodes.len();
    assert(walks[0].pending(file) == Some(entries));
    assert forall|i: int| 0 <= i < nodes.len() implies lists_node(shown[i], #[trigger] nodes[i])
        && (walks[i].pending(file) is Some ==> walks[i + 1].pending(file) is Some
        && walks[i].pending(file)->0 == (if nodes[i].level == 0 {
        leaf_entries(nodes[i]@)
    } else {
        Seq::<(nat, nat)>::empty()
    }) + walks[i + 1].pending(file)->0) by {
        assert(nodes[i]@.keys.len() == nodes[i]@.values.len());
        lemma_lists_node(nodes[i], shown[i]);
    }
    let listed = lemma_listing(file, entries, walks, nodes, shown, count);
    assert(shown.take(count as int) =~= shown);
    walks[count as int].law_over(file);
    assert(listed =~= entries);
}

/// The index of a finished layer is sound, and holds each key that an image was put
/// for, with the place of its image, in the order in which they were put: a dump
/// lists these.
pub proof fn law_written_index(
    writer: ImageLayerWriter,
    plan: FinishPlan,
    finished: ImageLayerWriter,
    file: Seq<u8>,
)
    requires
        writer.wf(),
        writer@ is Some,
        writer@->0.values.len() <= 0x1000_0000_0000,
        writer@->0.is_kept_in(file),
        exists|w: &mut ImageLayerWriter|
            *w == writer && *final(w) == finished && #[trigger] call_ensures(
                ImageLayerWriter::finish,
                (w,),
                plan,
            ),
    ensures
        tree_entries(
            index_blocks(plan.carried_out(file), plan.index_start_blk as int),
            plan.index_root_blk as int,
        ) == Some(writer@->0.entries),
{
    let view = writer@->0;
    writer.lemma_wf();
    assert(view.blocks_before_index() < 0x1_0000_0000);
    law_plan_writes_file(file, view, plan);
    law_walk_after_write(plan.carried_out(file), view, plan);
}

/// A walk through a sound index goes on with every block that it asks for, and each
/// brings it nearer to its end. One that is malformed is refused, and the walk
/// stays where it is.
pub proof fn law_walk_goes_on(
    file: Seq<u8>,
    before: IndexWalk,
    number: u64,
    block: &[u8],
    result: Result<OnDiskNode, ReadError>,
    after: IndexWalk,
)
    requires
        call_ensures(IndexWalk::next_block, (&before,), Some(number)),
        block_of(file, number as int) == Some(block@),
        exists|w: &mut IndexWalk|
            *w == before && *final(w) == after && #[trigger] call_ensures(
                IndexWalk::supply,
                (w, block),
                result,
            ),
    ensures
        before.pending(file) is Some ==> result is Ok,
        result is Ok ==> after.blocks_left() < before.blocks_left(),
        result is Err ==> after == before,
        result matches Err(error) ==> error == ReadError::MalformedNode(number),
{
}

/// A walk goes on with a whole block that holds a node at the level that is due,
/// all of whose values lead to children, unless it is a leaf; and with nothing
/// else.
pub proof fn law_walk_step(
    before: IndexWalk,
    block: &[u8],
    result: Result<OnDiskNode, ReadError>,
    after: IndexWalk,
)
    requires
        exists|w: &mut IndexWalk|
            *w == before && *final(w) == after && #[trigger] call_ensures(
                IndexWalk::supply,
                (w, block),
                result,
            ),
    ensures
        block@.len() != 8192 ==> result == Err::<OnDiskNode, ReadError>(ReadError::BlockSize),
        result is Ok <==> block@.len() == 8192 && (node_of(block@) matches Some(node) && (
        before.places().last().1 is None || before.places().last().1->0 == node.level) && (
        node.level == 0 || forall|i: int|
            0 <= i < node.values.len() ==> 0x80_0000_0000 <= #[trigger] node.values[i]
                < 0x81_0000_0000)),
        result matches Ok(node) ==> node_of(block@) == Some(node@),
{
}

/// Whether a line is the first of a dump: it tells tenant, timeline, range of keys,
/// position and size, and that the layer is not incremental.
pub open spec fn is_dump_line(line: Seq<char>, layer: ImageLayer) -> bool {
    exists|
        tenant: Seq<char>,
        timeline: Seq<char>,
        start: Seq<char>,
        end: Seq<char>,
        lsn: Seq<char>,
        size: Seq<char>,
    |
        #![trigger is_hex_of(tenant, layer.desc.tenant_id.0@),
            is_hex_of(timeline, layer.desc.timeline_id.0@),
            is_key_text(start, layer.desc.key_range.start),
            is_key_text(end, layer.desc.key_range.end), is_lsn_text(lsn, layer.lsn),
            is_numeral(size, 10, layer.desc.file_size as nat)]
        {
            &&& is_hex_of(tenant, layer.desc.tenant_id.0@)
            &&& is_hex_of(timeline, layer.desc.timeline_id.0@)
            &&& is_key_text(start, layer.desc.key_range.start)
            &&& is_key_text(end, layer.desc.key_range.end)
            &&& is_lsn_text(lsn, layer.lsn)
            &&& is_numeral(size, 10, layer.desc.file_size as nat)
            &&& line == "----- image layer for ten "@ + tenant + " tli "@ + timeline + " key "@
                + start + "-"@ + end + " at "@ + lsn + " is_incremental false size "@ + size
                + " ----"@
        }
}

/// A dump starts with a line that tells what the layer is. Only a verbose one goes
/// on, and only it counts as an access: it walks through the index from its root if
/// the file is loaded, and asks for that if not.
pub proof fn law_dump(
    before: ImageLayer,
    verbose: bool,
    line: String,
    start: DumpStart,
    after: ImageLayer,
    file: Seq<u8>,
)
    requires
        exists|l: &mut ImageLayer|
            *l == before && *final(l) == after && #[trigger] call_ensures(
                ImageLayer::dump,
                (l, verbose),
                (line, start),
            ),
    ensures
        is_dump_line(line@, before),
        same_file(before, after),
        after.inner == before.inner,
        verbose ==> is_counted(before.access_stats, LayerAccessKind::Dump, after.access_stats),
        !verbose ==> after.access_stats == before.access_stats,
        start is Done <==> !verbose,
        start is Load <==> verbose && before.inner is None,
        start matches DumpStart::Walk(walk) ==> walk.pending(file) == tree_entries(
            index_blocks(file, before.inner->0.index_start_blk as int),
            before.inner->0.index_root_blk as int,
        ),
{
    let desc = before.desc;
    law_hex_read_back(desc.tenant_id.0@);
    law_hex_read_back(desc.timeline_id.0@);
    law_key_text(desc.key_range.start);
    law_key_text(desc.key_range.end);
    law_lsn_text(before.lsn);
    law_digits_read_back(desc.file_size as nat, 10);
    assert(is_hex_of(desc.tenant_id.text(), desc.tenant_id.0@));
    assert(is_hex_of(desc.timeline_id.text(), desc.timeline_id.0@));
    assert(is_key_text(desc.key_range.start.text(), desc.key_range.start));
    assert(is_key_text(desc.key_range.end.text(), desc.key_range.end));
    assert(is_lsn_text(before.lsn.text(), before.lsn));
    assert(is_numeral(decimal(desc.file_size as nat), 10, desc.file_size as nat));
}

/// Whether a text shows what was loaded of a layer.
pub open spec fn is_inner_text(text: Seq<char>, inner: ImageLayerInner) -> bool {
    exists|start: Seq<char>, root: Seq<char>|
        #![trigger is_numeral(start, 10, inner.index_start_blk as nat),
            is_numeral(root, 10, inner.index_root_blk as nat)]
        {
            &&& is_numeral(start, 10, inner.index_start_blk as nat)
            &&& is_numeral(root, 10, inner.index_root_blk as nat)
            &&& text == "ImageLayerInner { index_start_blk: "@ + start + ", index_root_blk: "@
                + root + " }"@
        }
}

/// The text that shows what was loaded of a layer tells where the index is.
pub proof fn law_inner_debug_text(inner: ImageLayerInner, text: String)
    requires
        call_ensures(ImageLayerInner::debug_text, (&inner,), text),
    ensures
        is_inner_text(text@, inner),
{
    let start = decimal(inner.index_start_blk as nat);
    let root = decimal(inner.index_root_blk as nat);
    law_digits_read_back(inner.index_start_blk as nat, 10);
    law_digits_read_back(inner.index_root_blk as nat, 10);
    assert(is_numeral(start, 10, inner.index_start_blk as nat));
    assert(is_numeral(root, 10, inner.index_root_blk as nat));
}

/// Whether a text shows a layer: its range of keys, the size of its file, its
/// position, and what was loaded.
pub open spec fn is_layer_text(text: Seq<char>, layer: ImageLayer) -> bool {
    exists|start: Seq<char>, end: Seq<char>, size: Seq<char>, lsn: Seq<char>, inner: Seq<char>|
        #![trigger is_key_text(start, layer.desc.key_range.start),
            is_key_text(end, layer.desc.key_range.end),
            is_numeral(size, 10, layer.desc.file_size as nat), is_lsn_text(lsn, layer.lsn),
            shows_loaded(inner, layer.inner)]
        {
            &&& is_key_text(start, layer.desc.key_range.start)
            &&& is_key_text(end, layer.desc.key_range.end)
            &&& is_numeral(size, 10, layer.desc.file_size as nat)
            &&& is_lsn_text(lsn, layer.lsn)
            &&& shows_loaded(inner, layer.inner)
            &&& text == "ImageLayer { key_range: "@ + start + ".."@ + end + ", file_size: "@ + size
                + ", lsn: "@ + lsn + ", inner: OnceCell { value: "@ + inner + " } }"@
        }
}

/// Whether a text shows what was loaded of a layer, if anything was.
pub open spec fn shows_loaded(text: Seq<char>, inner: Option<ImageLayerInner>) -> bool {
    match inner {
        Some(inner) => exists|own: Seq<char>| #[trigger]
            is_inner_text(own, inner) && text == "Some("@ + own + ")"@,
        None => text == "None"@,
    }
}

/// The text that shows a layer when debugging tells what it is.
pub proof fn law_debug_text(layer: ImageLayer, text: String)
    requires
        call_ensures(ImageLayer::debug_text, (&layer,), text),
    ensures
        is_layer_text(text@, layer),
{
    let desc = layer.desc;
    law_key_text(desc.key_range.start);
    law_key_text(desc.key_range.end);
    law_lsn_text(layer.lsn);
    law_digits_read_back(desc.file_size as nat, 10);
    let loaded = match layer.inner {
        Some(inner) => "Some("@ + inner.shown() + ")"@,
        None => "None"@,
    };
    if let Some(inner) = layer.inner {
        law_digits_read_back(inner.index_start_blk as nat, 10);
        law_digits_read_back(inner.index_root_blk as nat, 10);
        assert(is_numeral(
            decimal(inner.index_start_blk as nat),
            10,
            inner.index_start_blk as nat,
        ));
        assert(is_numeral(decimal(inner.index_root_blk as nat), 10, inner.index_root_blk as nat));
        assert(is_inner_text(inner.shown(), inner));
    }
    assert(shows_loaded(loaded, layer.inner));
    assert(is_key_text(desc.key_range.start.text(), desc.key_range.start));
    assert(is_key_text(desc.key_range.end.text(), desc.key_range.end));
    assert(is_lsn_text(layer.lsn.text(), layer.lsn));
    assert(is_numeral(decimal(desc.file_size as nat), 10, desc.file_size as nat));
}

/// What describes a layer is what it is told, and an image is never incremental.
pub proof fn law_desc(
    tenant_id: TenantId,
    timeline_id: TimelineId,
    key_range: KeyRange,
    lsn: Lsn,
    file_size: u64,
    desc: PersistentLayerDesc,
    own_lsn: Lsn,
    name: ImageFileName,
    incremental: bool,
    id: String,
)
    requires
        call_ensures(
            PersistentLayerDesc::new_img,
            (tenant_id, timeline_id, key_range, lsn, file_size),
            desc,
        ),
        call_ensures(PersistentLayerDesc::image_layer_lsn, (&desc,), own_lsn),
        call_ensures(PersistentLayerDesc::image_file_name, (&desc,), name),
        call_ensures(PersistentLayerDesc::is_incremental, (&desc,), incremental),
        call_ensures(PersistentLayerDesc::short_id, (&desc,), id),
    ensures
        desc.tenant_id == tenant_id,
        desc.timeline_id == timeline_id,
        desc.key_range == key_range,
        desc.lsn == lsn,
        desc.file_size == file_size,
        own_lsn == lsn,
        name.key_range == key_range,
        name.lsn == lsn,
        !incremental,
        is_file_name(id@, ImageFileName { key_range, lsn }),
{
    law_name(ImageFileName { key_range, lsn });
}

/// Counts start at zero, each access is counted once, and reading the counts gives
/// them as they are.
pub proof fn law_stats(
    fresh: LayerAccessStats,
    before: LayerAccessStats,
    kind: LayerAccessKind,
    after: LayerAccessStats,
    reset: LayerAccessStatsReset,
    read: LayerAccessStats,
    last: LayerAccessStats,
)
    requires
        call_ensures(LayerAccessStats::empty, (), fresh),
        exists|s: &mut LayerAccessStats|
            *s == before && *final(s) == after && #[trigger] call_ensures(
                LayerAccessStats::record_access,
                (s, kind),
                (),
            ),
        exists|s: &mut LayerAccessStats|
            *s == after && *final(s) == last && #[trigger] call_ensures(
                LayerAccessStats::as_api_model,
                (s, reset),
                read,
            ),
    ensures
        fresh.get_value_reconstruct_data == 0,
        fresh.dump == 0,
        is_counted(before, kind, after),
        read == after,
        reset == LayerAccessStatsReset::NoReset ==> last == after,
        reset == LayerAccessStatsReset::AllStats ==> last.get_value_reconstruct_data == 0
            && last.dump == 0,
{
}

/// Each block brings a lookup nearer to its end, and a file that lacks the block that
/// is asked for does not hold an answer.
pub proof fn law_lookup_goes_on(
    file: Seq<u8>,
    lookup: ValueLookup,
    number: u64,
    block: &[u8],
    next: ValueLookup,
    later: u64,
)
    requires
        lookup.agrees(file),
        call_ensures(ValueLookup::next_block, (&lookup,), number),
        block_of(file, number as int) == Some(block@),
        call_ensures(ValueLookup::supply, (lookup, block), LookupStep::Read(next)),
        call_ensures(ValueLookup::next_block, (&next,), later),
    ensures
        next.blocks_left() < lookup.blocks_left(),
        block_of(file, later as int) is None ==> lookup.outcome(file) == Stored::Unreadable,
{
    if block_of(file, later as int) is None {
        next.law_missing_block(file);
    }
}

} // verus!
