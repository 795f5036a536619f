//! What a writer takes, refuses and leaves behind.
use image_layer::btree::MAX_VALUE;
use image_layer::btree_build::{DiskBtreeBuilder, DiskBtreeError};
use image_layer::ids::{Lsn, TenantId, TimelineId};
use image_layer::key::{Key, KeyRange};
use image_layer::layer_name::{ImageFileName, PageServerConf};
use image_layer::writer::{ImageLayerWriter, PutError};

fn key(field6: u32) -> Key {
    Key { field1: 0, field2: 0, field3: 0, field4: 0, field5: 0, field6 }
}

fn writer(start: u32, end: u32) -> ImageLayerWriter {
    let conf = Box::leak(Box::new(PageServerConf { workdir: String::from("/data") }));
    ImageLayerWriter::new(
        conf,
        TimelineId([2; 16]),
        TenantId([1; 16]),
        &KeyRange { start: key(start), end: key(end) },
        Lsn(7),
    )
}

#[test]
fn keys_outside_of_the_range_are_refused() {
    let mut w = writer(10, 20);
    assert!(matches!(w.put_image(key(9), &[1]), Err(PutError::OutOfRange)));
    assert!(matches!(w.put_image(key(20), &[1]), Err(PutError::OutOfRange)));
    assert_eq!(w.unwritten().1.len(), 0);
    assert!(w.put_image(key(10), &[1]).is_ok());
    assert!(w.put_image(key(19), &[1]).is_ok());
}

#[test]
fn unsorted_keys_are_refused() {
    let mut w = writer(0, 20);
    assert!(w.put_image(key(5), &[1]).is_ok());
    match w.put_image(key(5), &[2]) {
        Err(PutError::Index(DiskBtreeError::UnsortedInput { key: refused, last_key })) => {
            assert_eq!(refused, key(5).to_bytes());
            assert_eq!(last_key, key(5).to_bytes());
        }
        _ => panic!("the key is not above the last one"),
    }
    assert!(matches!(
        w.put_image(key(4), &[3]),
        Err(PutError::Index(DiskBtreeError::UnsortedInput { .. }))
    ));
    // The values were stored before the index refused their keys.
    assert_eq!(*w.unwritten().1, vec![1, 1, 1, 2, 1, 3]);
    assert!(w.put_image(key(6), &[4]).is_ok());
}

#[test]
fn an_image_can_be_too_large() {
    let mut w = writer(0, 20);
    let huge = vec![0u8; 0x8000_0000];
    match w.put_image(key(1), &huge) {
        Err(PutError::BlobTooLarge(len)) => assert_eq!(len, 0x8000_0000),
        _ => panic!("too large to be stored"),
    }
    assert_eq!(w.unwritten().1.len(), 0);
}

#[test]
fn the_index_takes_offsets_up_to_its_limit() {
    let mut tree = DiskBtreeBuilder::new();
    assert!(tree.append(&key(1).to_bytes(), MAX_VALUE).is_ok());
    assert!(matches!(
        tree.append(&key(2).to_bytes(), MAX_VALUE + 1),
        Err(DiskBtreeError::AppendOverflow(0x80_0000_0000))
    ));
    let (root, blocks) = tree.finish();
    assert_eq!(root, 0);
    assert_eq!(blocks.len(), 1);
    assert_eq!(blocks[0].len(), 8192);
}

#[test]
fn a_node_of_one_entry_byte_by_byte() {
    let mut tree = DiskBtreeBuilder::new();
    tree.append(&key(0x0102_0304).to_bytes(), 0x0a_0b0c).unwrap();
    let (_, blocks) = tree.finish();
    let mut expected = vec![0, 1, 0, 0, 18];
    expected.extend_from_slice(&[0, 0, 0, 0, 0, 0, 0, 0, 0, 0, 0, 0, 0, 0, 1, 2, 3, 4]);
    expected.extend_from_slice(&[0, 0, 0x0a, 0x0b, 0x0c]);
    assert_eq!(&blocks[0][..expected.len()], &expected[..]);
    assert!(blocks[0][expected.len()..].iter().all(|byte| *byte == 0));
}

#[test]
fn a_writer_given_up_names_its_temporary_file() {
    let mut w = writer(0, 20);
    let path = w.path().clone();
    assert_eq!(w.discard(), Some(path));
    assert_eq!(w.discard(), None);
}

#[test]
fn a_finished_writer_leaves_nothing_to_remove() {
    let mut w = writer(0, 20);
    let temp = w.path().clone();
    let plan = w.finish();
    assert_eq!(plan.path, temp);
    assert_ne!(plan.path, plan.final_path);
    w.note_finished();
    assert_eq!(w.discard(), None);
}

#[test]
fn a_plan_that_fails_leaves_its_temporary_file_to_remove() {
    let mut w = writer(0, 20);
    w.put_image(key(1), &[1]).unwrap();
    let temp = w.path().clone();
    let plan = w.finish();
    assert_eq!(plan.path, temp);
    assert_eq!(w.discard(), Some(temp));
    assert_eq!(w.discard(), None);
}

#[test]
fn an_unwritten_image_is_taken_back() {
    let mut w = writer(0, 20);
    w.put_image(key(1), &[1]).unwrap();
    w.note_written();
    w.put_image(key(5), &[5; 3]).unwrap();
    w.take_back();
    assert_eq!(w.unwritten(), (8194, &vec![]));
    // The key can be put again, and keys below it too.
    w.put_image(key(4), &[4]).unwrap();
    w.put_image(key(5), &[6]).unwrap();
    assert_eq!(w.unwritten(), (8194, &vec![1, 4, 1, 6]));
    w.note_written();
    // What was written is not taken back, and its keys are not free.
    w.take_back();
    assert!(matches!(
        w.put_image(key(5), &[7]),
        Err(PutError::Index(DiskBtreeError::UnsortedInput { .. }))
    ));
    // A value whose key the index refused is taken back too.
    w.take_back();
    assert_eq!(w.unwritten(), (8198, &vec![]));
}

#[test]
fn temporary_and_final_names() {
    let fname = ImageFileName { key_range: KeyRange { start: key(0), end: key(20) }, lsn: Lsn(7) };
    let mut w = writer(0, 20);
    let temp = w.path().clone();
    let other = writer(0, 20).path().clone();
    assert_ne!(temp, other);
    let plan = w.finish();
    let dir = "/data/tenants/01010101010101010101010101010101\
               /timelines/02020202020202020202020202020202/";
    assert_eq!(plan.final_path, format!("{}{}", dir, fname.file_name()));
    let front = format!("{}{}.", dir, fname.file_name());
    assert!(temp.starts_with(&front));
    assert!(temp.ends_with(".___temp"));
    let random = &temp[front.len()..temp.len() - ".___temp".len()];
    assert_eq!(random.len(), 8);
    assert!(random.chars().all(|c| c.is_ascii_alphanumeric()));
}
