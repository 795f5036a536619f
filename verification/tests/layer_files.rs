//! Files of layers, written and read back in memory.
use image_layer::btree_node::OnDiskNode;
use image_layer::format::PAGE_SZ;
use image_layer::ids::{Lsn, LsnRange, TenantId, TimelineId};
use image_layer::image_layer::{DumpStart, ImageLayer, ImageLayerInner, LookupStart};
use image_layer::index_read::{LookupStep, ReadError, ValueLookup};
use image_layer::index_walk::{show_leaf, show_node, IndexWalk};
use image_layer::key::{Key, KeyRange};
use image_layer::layer_name::PageServerConf;
use image_layer::reconstruct::{ValueReconstructResult, ValueReconstructState};
use image_layer::summary::Summary;
use image_layer::writer::{FinishPlan, ImageLayerWriter};

const LSN: Lsn = Lsn(0x346B_C568);

fn key(field6: u32) -> Key {
    Key { field1: 0, field2: 0x67F, field3: 0x32BE, field4: 0x4000, field5: 0, field6 }
}

fn spread_key(n: u32) -> Key {
    Key { field1: 1, field2: n.wrapping_mul(0x4000), field3: n, field4: 0, field5: 9, field6: n }
}

fn range(start: u32, end: u32) -> KeyRange {
    KeyRange { start: key(start), end: key(end) }
}

fn conf() -> &'static PageServerConf {
    Box::leak(Box::new(PageServerConf { workdir: String::from("/data") }))
}

fn writer(key_range: KeyRange) -> ImageLayerWriter {
    ImageLayerWriter::new(conf(), TimelineId([0x22; 16]), TenantId([0x11; 16]), &key_range, LSN)
}

fn put_at(file: &mut Vec<u8>, at: u64, bytes: &[u8]) {
    let at = at as usize;
    if file.len() < at + bytes.len() {
        file.resize(at + bytes.len(), 0);
    }
    file[at..at + bytes.len()].copy_from_slice(bytes);
}

fn flush(file: &mut Vec<u8>, writer: &mut ImageLayerWriter) {
    let (at, bytes) = writer.unwritten();
    put_at(file, at, bytes);
    writer.note_written();
}

fn complete(mut file: Vec<u8>, writer: &mut ImageLayerWriter) -> (Vec<u8>, FinishPlan) {
    let plan = writer.finish();
    put_at(&mut file, plan.values_offset, &plan.values);
    for (i, block) in plan.index.iter().enumerate() {
        put_at(&mut file, plan.index_offset + (i * PAGE_SZ) as u64, block);
    }
    put_at(&mut file, 0, &plan.summary);
    (file, plan)
}

fn block(file: &[u8], number: u64) -> &[u8] {
    &file[number as usize * PAGE_SZ..(number as usize + 1) * PAGE_SZ]
}

fn run(file: &[u8], mut lookup: ValueLookup) -> Result<Option<Vec<u8>>, ReadError> {
    loop {
        let number = lookup.next_block();
        match lookup.supply(block(file, number)) {
            LookupStep::Read(next) => lookup = next,
            LookupStep::Complete(image) => return Ok(Some(image)),
            LookupStep::Missing => return Ok(None),
            LookupStep::Failed(error) => return Err(error),
        }
    }
}

fn nodes(file: &[u8], mut walk: IndexWalk) -> Result<Vec<(u64, OnDiskNode)>, ReadError> {
    let mut found = Vec::new();
    while let Some(number) = walk.next_block() {
        found.push((number, walk.supply(block(file, number))?));
    }
    Ok(found)
}

fn inner_of(plan: &FinishPlan) -> ImageLayerInner {
    ImageLayerInner {
        index_start_blk: plan.index_start_blk,
        index_root_blk: plan.index_root_blk,
        lsn: LSN,
    }
}

#[test]
fn images_are_read_back() {
    let lens = [0usize, 1, 127, 128, 129, 8186, 8188, 8192, 20000];
    let mut w = writer(range(0, 100));
    for (i, len) in lens.iter().enumerate() {
        let image = vec![i as u8 + 1; *len];
        assert!(w.put_image(key(2 * i as u32), &image).is_ok());
    }
    let (file, plan) = complete(Vec::new(), &mut w);
    let inner = inner_of(&plan);
    for (i, len) in lens.iter().enumerate() {
        let image = run(&file, inner.get_value_reconstruct_data(key(2 * i as u32))).unwrap();
        assert_eq!(image, Some(vec![i as u8 + 1; *len]));
        let between = run(&file, inner.get_value_reconstruct_data(key(2 * i as u32 + 1))).unwrap();
        assert_eq!(between, None);
    }
    assert_eq!(run(&file, inner.get_value_reconstruct_data(key(99))).unwrap(), None);
}

#[test]
fn values_lie_where_the_index_says() {
    let mut w = writer(range(0, 10));
    w.put_image(key(1), &[7; 3]).unwrap();
    w.put_image(key(2), &[8; 200]).unwrap();
    let (file, plan) = complete(Vec::new(), &mut w);
    assert_eq!(&file[8192..8196], &[3, 7, 7, 7]);
    assert_eq!(&file[8196..8201], &[0x80, 0, 0, 200, 8]);
    assert_eq!(plan.index_start_blk, 2);
    assert_eq!(plan.index_offset, 16384);
    assert_eq!(plan.index_root_blk, 0);
    let found = nodes(&file, inner_of(&plan).walk()).unwrap();
    assert_eq!(found.len(), 1);
    assert_eq!(found[0].1.values, vec![8192, 8196]);
}

#[test]
fn a_header_may_cross_a_block() {
    for gap in 8180..8200usize {
        let mut w = writer(range(0, 10));
        w.put_image(key(1), &vec![1; gap]).unwrap();
        w.put_image(key(2), &[2; 300]).unwrap();
        w.put_image(key(3), &[3; 5]).unwrap();
        let (file, plan) = complete(Vec::new(), &mut w);
        let inner = inner_of(&plan);
        let image = run(&file, inner.get_value_reconstruct_data(key(2))).unwrap();
        assert_eq!(image, Some(vec![2; 300]));
        let image = run(&file, inner.get_value_reconstruct_data(key(3))).unwrap();
        assert_eq!(image, Some(vec![3; 5]));
    }
}

#[test]
fn the_index_follows_the_values() {
    // The last value ends with its block, one byte before, and one byte behind.
    for (len, start) in [(8188usize, 2u32), (8187, 2), (8189, 3)] {
        let mut w = writer(range(0, 10));
        w.put_image(key(1), &vec![5; len]).unwrap();
        let (file, plan) = complete(Vec::new(), &mut w);
        assert_eq!(plan.index_start_blk, start);
        assert_eq!(plan.index_offset, start as u64 * 8192);
        assert_eq!(file.len(), (start as usize + 1) * 8192);
        assert_eq!(plan.summary.len(), 88);
    }
}

#[test]
fn an_empty_layer_holds_nothing() {
    let mut w = writer(range(0, 10));
    let (file, plan) = complete(Vec::new(), &mut w);
    assert_eq!(plan.index_start_blk, 1);
    assert_eq!(plan.index.len(), 1);
    let inner = inner_of(&plan);
    assert_eq!(run(&file, inner.get_value_reconstruct_data(key(3))).unwrap(), None);
    let found = nodes(&file, inner.walk()).unwrap();
    assert_eq!(found.len(), 1);
    assert!(found[0].1.keys.is_empty());
}

#[test]
fn many_keys_make_a_tree_of_three_levels() {
    let count = 170_000u32;
    let all = KeyRange { start: spread_key(0), end: spread_key(count) };
    let mut w = writer(all);
    let mut file = Vec::new();
    for n in 0..count {
        w.put_image(spread_key(n), &n.to_be_bytes()).unwrap();
        if n % 10_000 == 0 {
            flush(&mut file, &mut w);
        }
    }
    let (file, plan) = complete(file, &mut w);
    let inner = inner_of(&plan);
    for n in (0..count).step_by(777) {
        let image = run(&file, inner.get_value_reconstruct_data(spread_key(n))).unwrap();
        assert_eq!(image, Some(n.to_be_bytes().to_vec()));
        let mut other = spread_key(n);
        other.field6 = other.field6.wrapping_add(1);
        assert_eq!(run(&file, inner.get_value_reconstruct_data(other)).unwrap(), None);
    }
    let found = nodes(&file, inner.walk()).unwrap();
    assert_eq!(found[0].1.level, 2);
    let mut seen = 0u32;
    for (_, node) in &found {
        if node.level == 0 {
            for (i, bytes) in node.keys.iter().enumerate() {
                assert_eq!(*bytes, spread_key(seen).to_bytes());
                assert_eq!(node.values[i], 8192 + 5 * seen as u64);
                seen += 1;
            }
        }
    }
    assert_eq!(seen, count);
}

#[test]
fn dense_keys_share_their_prefix() {
    let mut w = writer(range(0, 100_000));
    for n in 0..5000 {
        w.put_image(key(n), &[]).unwrap();
    }
    let (file, plan) = complete(Vec::new(), &mut w);
    let inner = inner_of(&plan);
    let found = nodes(&file, inner.walk()).unwrap();
    // Keys that share 16 of their 18 bytes take 7 bytes each with their values.
    assert!(found[1].1.keys.len() > 1000);
    assert_eq!(run(&file, inner.get_value_reconstruct_data(key(4999))).unwrap(), Some(vec![]));
    assert_eq!(run(&file, inner.get_value_reconstruct_data(key(5000))).unwrap(), None);
}

#[test]
fn written_values_are_handed_out_once() {
    let mut w = writer(range(0, 10));
    assert_eq!(w.unwritten(), (8192, &vec![]));
    w.put_image(key(1), &[9]).unwrap();
    assert_eq!(w.unwritten(), (8192, &vec![1, 9]));
    w.note_written();
    assert_eq!(w.unwritten(), (8194, &vec![]));
    w.put_image(key(2), &[8]).unwrap();
    let plan = w.finish();
    assert_eq!(plan.values_offset, 8194);
    assert_eq!(plan.values, vec![1, 8]);
}

#[test]
fn the_written_file_is_loaded_by_its_layer() {
    let mut w = writer(range(0, 10));
    w.put_image(key(4), b"page").unwrap();
    let (file, plan) = complete(Vec::new(), &mut w);
    let mut layer = plan.layer(file.len() as u64);
    assert_eq!(layer.lsn, LSN);
    assert_eq!(layer.desc.lsn, LSN);
    assert_eq!(layer.path(), plan.final_path);
    let lsns = LsnRange { start: LSN, end: Lsn(LSN.0 + 1) };
    assert!(matches!(layer.get_value_reconstruct_data(key(4), lsns), LookupStart::Load));
    let inner = layer.load_inner(block(&file, 0)).unwrap();
    assert_eq!(inner, inner_of(&plan));
    let lookup = match layer.get_value_reconstruct_data(key(4), lsns) {
        LookupStart::Search(lookup) => lookup,
        LookupStart::Load => panic!("not loaded"),
    };
    let mut state = ValueReconstructState { img: None };
    let result = inner.reconstruct(run(&file, lookup).unwrap(), &mut state);
    assert_eq!(result, ValueReconstructResult::Complete);
    let (at, image) = state.img.unwrap();
    assert_eq!(at, LSN);
    assert_eq!(&image[..], b"page");
    assert_eq!(layer.access_stats().get_value_reconstruct_data, 2);
}

#[test]
fn a_missing_key_leaves_the_state_alone() {
    let inner = ImageLayerInner { index_start_blk: 1, index_root_blk: 0, lsn: LSN };
    let mut state = ValueReconstructState { img: None };
    assert_eq!(inner.reconstruct(None, &mut state), ValueReconstructResult::Missing);
    assert!(state.img.is_none());
    inner.reconstruct(Some(vec![1, 2]), &mut state);
    assert_eq!(inner.reconstruct(None, &mut state), ValueReconstructResult::Missing);
    assert_eq!(&state.img.unwrap().1[..], &[1, 2]);
}

#[test]
fn a_block_of_another_size_is_refused() {
    let inner = ImageLayerInner { index_start_blk: 1, index_root_blk: 0, lsn: LSN };
    let lookup = inner.get_value_reconstruct_data(key(1));
    assert_eq!(lookup.next_block(), 1);
    assert!(matches!(lookup.supply(&[0; 100]), LookupStep::Failed(ReadError::BlockSize)));
    let mut walk = inner.walk();
    assert_eq!(walk.supply(&[0; 100]).err(), Some(ReadError::BlockSize));
}

#[test]
fn a_malformed_node_is_refused() {
    let mut w = writer(range(0, 10));
    w.put_image(key(1), &[1]).unwrap();
    w.put_image(key(2), &[2]).unwrap();
    let (file, plan) = complete(Vec::new(), &mut w);
    let inner = inner_of(&plan);
    let at = plan.index_offset as usize;
    // The lengths of prefix and rest must add up.
    let mut broken = file.clone();
    broken[at + 4] += 1;
    let error = run(&broken, inner.get_value_reconstruct_data(key(1))).unwrap_err();
    assert_eq!(error, ReadError::MalformedNode(2));
    assert_eq!(nodes(&broken, inner.walk()).err(), Some(ReadError::MalformedNode(2)));
    // More entries than fit.
    let mut broken = file.clone();
    broken[at] = 0xff;
    let error = run(&broken, inner.get_value_reconstruct_data(key(1))).unwrap_err();
    assert_eq!(error, ReadError::MalformedNode(2));
    // A node above the leaves whose values are no links.
    let mut broken = file.clone();
    broken[at + 2] = 1;
    let error = run(&broken, inner.get_value_reconstruct_data(key(1))).unwrap_err();
    assert_eq!(error, ReadError::MalformedNode(2));
    assert_eq!(nodes(&broken, inner.walk()).err(), Some(ReadError::MalformedNode(2)));
    // Keys out of order.
    let mut broken = file;
    broken[at + 5 + 17] = 3;
    let error = run(&broken, inner.get_value_reconstruct_data(key(1))).unwrap_err();
    assert_eq!(error, ReadError::MalformedNode(2));
}

#[test]
fn refused_images_leave_the_others_alone() {
    let mut w = writer(range(1, 10));
    w.put_image(key(3), b"three").unwrap();
    assert!(w.put_image(key(0), b"below").is_err());
    assert!(w.put_image(key(2), b"unsorted").is_err());
    assert!(w.put_image(key(3), b"again").is_err());
    w.put_image(key(5), b"five").unwrap();
    let (file, plan) = complete(Vec::new(), &mut w);
    let inner = inner_of(&plan);
    let image = run(&file, inner.get_value_reconstruct_data(key(3))).unwrap();
    assert_eq!(image, Some(b"three".to_vec()));
    let image = run(&file, inner.get_value_reconstruct_data(key(5))).unwrap();
    assert_eq!(image, Some(b"five".to_vec()));
    assert_eq!(run(&file, inner.get_value_reconstruct_data(key(2))).unwrap(), None);
}

#[test]
fn an_image_taken_back_is_not_in_the_file() {
    let mut w = writer(range(0, 10));
    let mut file = Vec::new();
    w.put_image(key(1), b"one").unwrap();
    flush(&mut file, &mut w);
    w.put_image(key(2), b"two").unwrap();
    w.take_back();
    w.put_image(key(3), b"three").unwrap();
    let (file, plan) = complete(file, &mut w);
    let inner = inner_of(&plan);
    let image = run(&file, inner.get_value_reconstruct_data(key(1))).unwrap();
    assert_eq!(image, Some(b"one".to_vec()));
    assert_eq!(run(&file, inner.get_value_reconstruct_data(key(2))).unwrap(), None);
    let image = run(&file, inner.get_value_reconstruct_data(key(3))).unwrap();
    assert_eq!(image, Some(b"three".to_vec()));
}

#[test]
fn a_write_that_fails_half_way_does_no_harm() {
    let mut w = writer(range(0, 10));
    let mut file = Vec::new();
    w.put_image(key(1), b"one").unwrap();
    flush(&mut file, &mut w);
    w.put_image(key(2), &[2; 50_000]).unwrap();
    let half = w.unwritten().1[..30_000].to_vec();
    put_at(&mut file, w.unwritten().0, &half);
    w.take_back();
    w.put_image(key(3), b"three").unwrap();
    let longer = file.len();
    let (file, plan) = complete(file, &mut w);
    assert_eq!(plan.index_offset, 16384);
    assert_eq!(file.len(), longer);
    let inner = inner_of(&plan);
    let image = run(&file, inner.get_value_reconstruct_data(key(1))).unwrap();
    assert_eq!(image, Some(b"one".to_vec()));
    assert_eq!(run(&file, inner.get_value_reconstruct_data(key(2))).unwrap(), None);
    let image = run(&file, inner.get_value_reconstruct_data(key(3))).unwrap();
    assert_eq!(image, Some(b"three".to_vec()));
}

#[test]
fn a_node_at_the_wrong_level_is_refused() {
    let mut w = writer(range(0, 100_000));
    for n in 0..5000 {
        w.put_image(key(n), &[]).unwrap();
    }
    let (mut file, plan) = complete(Vec::new(), &mut w);
    let inner = inner_of(&plan);
    let found = nodes(&file, inner.walk()).unwrap();
    assert_eq!(found[0].1.level, 1);
    let child = found[2].0;
    file[child as usize * PAGE_SZ + 2] = 1;
    assert_eq!(nodes(&file, inner.walk()).err(), Some(ReadError::MalformedNode(child)));
    let inside = u32::from_be_bytes([
        found[2].1.keys[0][14],
        found[2].1.keys[0][15],
        found[2].1.keys[0][16],
        found[2].1.keys[0][17],
    ]);
    let error = run(&file, inner.get_value_reconstruct_data(key(inside))).unwrap_err();
    assert_eq!(error, ReadError::MalformedNode(child));
}

#[test]
fn a_refused_block_leaves_the_walk_where_it_is() {
    let mut w = writer(range(0, 10));
    w.put_image(key(1), &[1]).unwrap();
    let (file, plan) = complete(Vec::new(), &mut w);
    let mut walk = inner_of(&plan).walk();
    assert!(walk.supply(&[0; 10]).is_err());
    assert_eq!(walk.next_block(), Some(2));
    assert!(walk.supply(block(&file, 2)).is_ok());
    assert_eq!(walk.next_block(), None);
}

#[test]
fn a_truncated_file_lacks_the_block_that_is_needed() {
    let mut w = writer(range(0, 10));
    w.put_image(key(1), &[1; 9000]).unwrap();
    let (file, plan) = complete(Vec::new(), &mut w);
    let lookup = inner_of(&plan).get_value_reconstruct_data(key(1));
    let without_index = &file[..plan.index_offset as usize];
    assert_eq!(lookup.next_block() as usize, without_index.len() / PAGE_SZ);
    let walk = inner_of(&plan).walk();
    assert_eq!(walk.next_block(), Some(3));
}

#[test]
fn the_lookup_knows_where_the_value_is() {
    let mut w = writer(range(0, 10));
    w.put_image(key(1), &[1]).unwrap();
    let (file, plan) = complete(Vec::new(), &mut w);
    let lookup = inner_of(&plan).get_value_reconstruct_data(key(1));
    assert_eq!(lookup.value_offset(), None);
    match lookup.supply(block(&file, 2)) {
        LookupStep::Read(next) => {
            assert_eq!(next.value_offset(), Some(8192));
            assert_eq!(next.next_block(), 1);
        }
        _ => panic!("the key is there"),
    }
}

#[test]
fn a_dump_shows_nodes_and_entries() {
    let mut w = writer(range(0, 10));
    w.put_image(key(1), &[1]).unwrap();
    w.put_image(key(2), &[2; 130]).unwrap();
    let (file, plan) = complete(Vec::new(), &mut w);
    let mut layer = plan.layer(file.len() as u64);
    let (line, start) = layer.dump(true);
    assert_eq!(
        line,
        "----- image layer for ten 11111111111111111111111111111111 \
         tli 22222222222222222222222222222222 \
         key 000000067F000032BE000040000000000000-000000067F000032BE00004000000000000A \
         at 0/346BC568 is_incremental false size 24576 ----"
    );
    assert!(matches!(start, DumpStart::Load));
    layer.load_inner(block(&file, 0)).unwrap();
    let walk = match layer.dump(true).1 {
        DumpStart::Walk(walk) => walk,
        _ => panic!("loaded"),
    };
    let found = nodes(&file, walk).unwrap();
    assert_eq!(show_node(found[0].0, &found[0].1), "blk #2: level 0 entries 2");
    assert_eq!(
        show_leaf(&found[0].1),
        vec![
            String::from("key: 000000067f000032be000040000000000001 offset 8192"),
            String::from("key: 000000067f000032be000040000000000002 offset 8194"),
        ]
    );
    assert_eq!(layer.access_stats().dump, 2);
}

#[test]
fn a_short_dump_is_no_access() {
    let mut w = writer(range(0, 10));
    let plan = w.finish();
    let mut layer = plan.layer(16384);
    assert!(matches!(layer.dump(false).1, DumpStart::Done));
    assert_eq!(layer.access_stats().dump, 0);
}

#[test]
fn a_file_opened_by_its_path_tells_what_it_is() {
    let mut w = writer(range(3, 10));
    w.put_image(key(4), &[4]).unwrap();
    let (file, plan) = complete(Vec::new(), &mut w);
    let size = file.len() as u64;
    let path = String::from("/tmp/some-file");
    let mut layer = ImageLayer::new_for_path(path.clone(), block(&file, 0), size).unwrap();
    assert_eq!(layer.path(), path);
    assert_eq!(layer.desc.key_range, range(3, 10));
    assert_eq!(layer.desc.tenant_id, TenantId([0x11; 16]));
    assert_eq!(layer.desc.timeline_id, TimelineId([0x22; 16]));
    assert_eq!(layer.desc.file_size, size);
    assert_eq!(layer.desc.lsn, LSN);
    assert_eq!(layer.lsn, LSN);
    let inner = layer.load_inner(block(&file, 0)).unwrap();
    assert_eq!(inner, inner_of(&plan));
    let summary = Summary::des_prefix(&file).unwrap();
    assert_eq!(summary.index_start_blk, 2);
    assert!(run(&file, inner.get_value_reconstruct_data(key(4))).unwrap().is_some());
}
