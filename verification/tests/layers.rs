//! Layers without their files.
use image_layer::ids::{Lsn, TenantId, TimelineId};
use image_layer::image_layer::{ImageLayer, ImageLayerInner, LoadError};
use image_layer::key::{Key, KeyRange};
use image_layer::layer_name::{ImageFileName, PageServerConf};
use image_layer::stats::{
    HistoricLayerInfo, LayerAccessKind, LayerAccessStats, LayerAccessStatsReset,
};
use image_layer::summary::Summary;

const NAME: &str =
    "000000000000000000000000000000000001-000000000000000000000000000000000009__0000000000000ABC";

fn fname() -> ImageFileName {
    let start = Key { field1: 0, field2: 0, field3: 0, field4: 0, field5: 0, field6: 1 };
    let end = Key { field6: 9, ..start };
    ImageFileName { key_range: KeyRange { start, end }, lsn: Lsn(0xABC) }
}

fn layer() -> ImageLayer {
    let conf = Box::leak(Box::new(PageServerConf { workdir: String::from("/data") }));
    ImageLayer::new(
        conf,
        TimelineId([2; 16]),
        TenantId([1; 16]),
        &fname(),
        4096,
        LayerAccessStats::empty(),
    )
}

fn summary() -> Summary {
    let mut summary = Summary::from(&layer());
    summary.index_start_blk = 3;
    summary.index_root_blk = 1;
    summary
}

fn first_block(summary: &Summary) -> Vec<u8> {
    let mut block = summary.ser();
    block.resize(8192, 0);
    block
}

#[test]
fn a_new_layer_is_not_loaded() {
    let mut layer = layer();
    assert_eq!(layer.lsn, layer.desc.lsn);
    assert_eq!(layer.layer_desc().file_size, 4096);
    assert_eq!(layer.layer_name(), fname());
    assert_eq!(layer.load(LayerAccessKind::Dump), None);
    assert_eq!(layer.local_path(), Some(layer.path()));
}

#[test]
fn the_expected_summary_is_that_of_the_layer() {
    let expected = Summary::from(&layer());
    assert_eq!(expected.magic, 0x5A60);
    assert_eq!(expected.format_version, 3);
    assert_eq!(expected.tenant_id, TenantId([1; 16]));
    assert_eq!(expected.timeline_id, TimelineId([2; 16]));
    assert_eq!(expected.key_range, fname().key_range);
    assert_eq!(expected.lsn, Lsn(0xABC));
    assert_eq!(expected.index_start_blk, 0);
    assert_eq!(expected.index_root_blk, 0);
}

#[test]
fn a_layer_is_loaded_once() {
    let mut layer = layer();
    let inner = layer.load_inner(&first_block(&summary())).unwrap();
    assert_eq!(
        inner,
        ImageLayerInner { index_start_blk: 3, index_root_blk: 1, lsn: Lsn(0xABC) }
    );
    let mut later = summary();
    later.index_start_blk = 99;
    assert_eq!(layer.load_inner(&first_block(&later)), Ok(inner));
    assert_eq!(layer.load_inner(&[]), Ok(inner));
    assert_eq!(layer.load(LayerAccessKind::Dump), Some(inner));
}

#[test]
fn a_file_of_another_layer_is_refused() {
    let good = summary();
    let other_start = Key { field6: 2, ..good.key_range.start };
    let others = [
        Summary { magic: 0x5A61, ..good },
        Summary { format_version: 4, ..good },
        Summary { tenant_id: TenantId([9; 16]), ..good },
        Summary { timeline_id: TimelineId([9; 16]), ..good },
        Summary { key_range: KeyRange { start: other_start, ..good.key_range }, ..good },
        Summary { lsn: Lsn(0xABD), ..good },
    ];
    for actual in others {
        let mut layer = layer();
        assert_eq!(
            layer.load_inner(&first_block(&actual)),
            Err(LoadError::SummaryMismatch { actual, expected: good })
        );
        assert_eq!(layer.load(LayerAccessKind::Dump), None);
        // Opened by its path, it is taken for what it is.
        let opened = ImageLayer::new_for_path(String::from("f"), &first_block(&actual), 1);
        assert!(opened.unwrap().load_inner(&first_block(&actual)).is_ok());
    }
}

#[test]
fn what_is_not_a_whole_block_is_refused() {
    let whole = first_block(&summary());
    let mut long = whole.clone();
    long.push(0);
    for odd in [&whole[..88], &whole[..8191], &long[..], &[]] {
        let mut layer = layer();
        assert_eq!(layer.load_inner(odd), Err(LoadError::BlockSize));
        assert_eq!(layer.load(LayerAccessKind::Dump), None);
        let opened = ImageLayer::new_for_path(String::from("f"), odd, 1);
        assert_eq!(opened.err(), Some(LoadError::BlockSize));
    }
}

#[test]
fn loading_without_expectations_takes_any_summary() {
    let odd = Summary { magic: 1, lsn: Lsn(5), ..summary() };
    let inner = ImageLayerInner::load(Lsn(6), None, &first_block(&odd)).unwrap();
    assert_eq!(inner, ImageLayerInner { index_start_blk: 3, index_root_blk: 1, lsn: Lsn(6) });
}

#[test]
fn the_name_of_a_file_opened_by_its_path_is_checked() {
    let opened =
        ImageLayer::new_for_path(String::from("/x/odd"), &first_block(&summary()), 1).unwrap();
    assert_eq!(opened.check_filename(&String::from("odd")), Some(String::from(NAME)));
    assert_eq!(opened.check_filename(&String::from(NAME)), None);
    assert_eq!(layer().check_filename(&String::from("odd")), None);
}

#[test]
fn accesses_are_counted() {
    let mut layer = layer();
    layer.load(LayerAccessKind::Dump);
    layer.load(LayerAccessKind::GetValueReconstructData);
    layer.load(LayerAccessKind::GetValueReconstructData);
    let HistoricLayerInfo::Image {
        layer_file_name,
        layer_file_size,
        lsn_start,
        remote,
        access_stats,
    } = layer.info(LayerAccessStatsReset::NoReset);
    assert_eq!(layer_file_name, NAME);
    assert_eq!(layer_file_size, 4096);
    assert_eq!(lsn_start, Lsn(0xABC));
    assert!(!remote);
    let counts = LayerAccessStats { get_value_reconstruct_data: 2, dump: 1 };
    assert_eq!(access_stats, counts);
    let HistoricLayerInfo::Image { access_stats, .. } = layer.info(LayerAccessStatsReset::AllStats);
    assert_eq!(access_stats, counts);
    assert_eq!(*layer.access_stats(), LayerAccessStats::empty());
}

#[test]
fn counts_stay_at_their_limit() {
    let mut stats = LayerAccessStats { get_value_reconstruct_data: u64::MAX, dump: 0 };
    stats.record_access(LayerAccessKind::GetValueReconstructData);
    assert_eq!(stats.get_value_reconstruct_data, u64::MAX);
    assert_eq!(stats.dump, 0);
}

#[test]
fn layers_as_text() {
    let mut layer = layer();
    assert_eq!(layer.display_text(), NAME);
    assert_eq!(
        layer.debug_text(),
        "ImageLayer { key_range: 000000000000000000000000000000000001..\
         000000000000000000000000000000000009, file_size: 4096, lsn: 0/ABC, \
         inner: OnceCell { value: None } }"
    );
    layer.load_inner(&first_block(&summary())).unwrap();
    assert_eq!(
        layer.debug_text(),
        "ImageLayer { key_range: 000000000000000000000000000000000001..\
         000000000000000000000000000000000009, file_size: 4096, lsn: 0/ABC, \
         inner: OnceCell { value: Some(ImageLayerInner { index_start_blk: 3, \
         index_root_blk: 1 }) } }"
    );
}

#[test]
fn an_image_is_not_incremental() {
    assert!(!layer().desc.is_incremental());
}
