//! Names, texts and bytes.
use bincode::Options;
use image_layer::blob::{put_blob, stored_len};
use image_layer::ids::{Lsn, TenantId, TimelineId};
use image_layer::key::{Key, KeyRange};
use image_layer::layer_name::{path_for, temp_path_with, ImageFileName, PageServerConf, PathOrConf};
use image_layer::summary::{DeserializeError, Summary};

fn example_name() -> ImageFileName {
    let start = Key {
        field1: 0,
        field2: 0x67F,
        field3: 0x32BE,
        field4: 0x4000,
        field5: 0,
        field6: 0x70B6,
    };
    let end = Key { field6: 0x80B6, ..start };
    ImageFileName { key_range: KeyRange { start, end }, lsn: Lsn(0x346B_C568) }
}

fn example_summary() -> Summary {
    Summary {
        magic: 0x5A60,
        format_version: 3,
        tenant_id: TenantId([0x11; 16]),
        timeline_id: TimelineId([0x22; 16]),
        key_range: example_name().key_range,
        lsn: Lsn(0x0102_0304_0506_0708),
        index_start_blk: 77,
        index_root_blk: 5,
    }
}

fn key_tuple(key: Key) -> (u8, u32, u32, u32, u8, u32) {
    (key.field1, key.field2, key.field3, key.field4, key.field5, key.field6)
}

#[test]
fn the_name_says_range_and_position() {
    assert_eq!(
        example_name().file_name(),
        "000000067F000032BE0000400000000070B6-000000067F000032BE0000400000000080B6\
         __00000000346BC568"
    );
}

#[test]
fn different_layers_have_different_names() {
    let name = example_name();
    let other_lsn = ImageFileName { lsn: Lsn(name.lsn.0 + 1), ..name };
    let empty = KeyRange { end: name.key_range.start, ..name.key_range };
    let other_end = ImageFileName { key_range: empty, ..name };
    assert_ne!(name.file_name(), other_lsn.file_name());
    assert_ne!(name.file_name(), other_end.file_name());
}

#[test]
fn paths_lie_below_the_timeline() {
    let conf = Box::leak(Box::new(PageServerConf { workdir: String::from("work/") }));
    let fname = example_name();
    let timeline_id = TimelineId([0xab; 16]);
    let tenant_id = TenantId([0x0c; 16]);
    let dir = "work/tenants/0c0c0c0c0c0c0c0c0c0c0c0c0c0c0c0c\
               /timelines/abababababababababababababababab";
    assert_eq!(conf.timeline_path(&tenant_id, &timeline_id), dir);
    assert_eq!(
        path_for(&PathOrConf::Conf(conf), timeline_id, tenant_id, &fname),
        format!("{}/{}", dir, fname.file_name())
    );
    assert_eq!(
        temp_path_with(conf, timeline_id, tenant_id, &fname, "abcDEF12"),
        format!("{}/{}.abcDEF12.___temp", dir, fname.file_name())
    );
    let path = PathOrConf::Path(String::from("elsewhere"));
    assert_eq!(path_for(&path, timeline_id, tenant_id, &fname), "elsewhere");
}

#[test]
fn lsns_as_text() {
    for (lsn, expected) in [
        (Lsn(0), "0/0"),
        (Lsn(0x16B5A50), "0/16B5A50"),
        (Lsn(0xAB_0000_00FF), "AB/FF"),
        (Lsn(u64::MAX), "FFFFFFFF/FFFFFFFF"),
    ] {
        let mut text = String::new();
        lsn.put_text(&mut text);
        assert_eq!(text, expected);
    }
}

#[test]
fn ids_as_text() {
    let id: [u8; 16] = [0, 1, 2, 3, 4, 5, 6, 7, 8, 9, 10, 11, 12, 0xfd, 0xfe, 0xff];
    assert_eq!(TenantId(id).to_text(), "000102030405060708090a0b0cfdfeff");
    assert_eq!(TimelineId(id).to_text(), "000102030405060708090a0b0cfdfeff");
}

#[test]
fn key_order_is_field_by_field() {
    let low = Key { field1: 1, field2: 1, field3: 1, field4: 1, field5: 1, field6: 1 };
    let above = [
        Key { field1: 2, field2: 0, ..low },
        Key { field2: 2, field3: 0, ..low },
        Key { field3: 2, field4: 0, ..low },
        Key { field4: 2, field5: 0, ..low },
        Key { field5: 2, field6: 0, ..low },
        Key { field6: 2, ..low },
    ];
    for high in above {
        assert!(low.is_before(&high));
        assert!(!high.is_before(&low));
        assert!(low.to_bytes() < high.to_bytes());
    }
    assert!(!low.is_before(&low));
}

#[test]
fn a_range_holds_its_start_and_not_its_end() {
    let range = example_name().key_range;
    assert!(range.contains(&range.start));
    assert!(!range.contains(&range.end));
    assert!(range.contains(&Key { field6: 0x80B5, ..range.end }));
    assert!(!range.contains(&Key { field6: 0x70B5, ..range.start }));
}

#[test]
fn keys_as_bytes() {
    let key = Key {
        field1: 1,
        field2: 0x0203_0405,
        field3: 0x0607_0809,
        field4: 0x0a0b_0c0d,
        field5: 0x0e,
        field6: 0x0f10_1112,
    };
    let bytes = key.to_bytes();
    assert_eq!(bytes, [1, 2, 3, 4, 5, 6, 7, 8, 9, 10, 11, 12, 13, 14, 15, 16, 17, 18]);
    assert_eq!(Key::get(&bytes, 0), key);
}

#[test]
fn a_summary_takes_its_bytes() {
    let summary = example_summary();
    let bytes = summary.ser();
    assert_eq!(bytes.len(), 88);
    let range = summary.key_range;
    let fields = (
        summary.magic,
        summary.format_version,
        summary.tenant_id.0,
        summary.timeline_id.0,
        (key_tuple(range.start), key_tuple(range.end)),
        summary.lsn.0,
        summary.index_start_blk,
        summary.index_root_blk,
    );
    let expected = bincode::DefaultOptions::new()
        .with_big_endian()
        .with_fixint_encoding()
        .serialize(&fields)
        .unwrap();
    assert_eq!(bytes, expected);
}

#[test]
fn a_summary_is_read_back() {
    let summary = example_summary();
    let mut bytes = summary.ser();
    assert_eq!(Summary::des_prefix(&bytes), Ok(summary));
    bytes.extend_from_slice(&[0xff; 100]);
    assert_eq!(Summary::des_prefix(&bytes), Ok(summary));
}

#[test]
fn a_short_summary_is_refused() {
    let bytes = example_summary().ser();
    assert_eq!(Summary::des_prefix(&bytes[..87]), Err(DeserializeError::UnexpectedEnd));
    assert_eq!(Summary::des_prefix(&[]), Err(DeserializeError::UnexpectedEnd));
}

#[test]
fn blobs_have_short_and_long_headers() {
    let mut buf = vec![0xee];
    put_blob(&mut buf, &[5; 127]);
    assert_eq!(buf.len(), 1 + 128);
    assert_eq!(buf[1], 127);
    let mut buf = Vec::new();
    put_blob(&mut buf, &[5; 128]);
    assert_eq!(&buf[..5], &[0x80, 0, 0, 0x80, 5]);
    assert_eq!(buf.len(), 132);
    let mut buf = Vec::new();
    put_blob(&mut buf, &vec![6; 0x01_0203]);
    assert_eq!(&buf[..4], &[0x80, 1, 2, 3]);
    assert_eq!(stored_len(0), 1);
    assert_eq!(stored_len(127), 128);
    assert_eq!(stored_len(128), 132);
}
