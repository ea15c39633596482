use tiles7800::encode::{encode_row, encode_run, Encoding, Record};
use tiles7800::mode::Mode;
use tiles7800::store::{Blob, BlobName, Store, StoreError};
use tiles7800::tile::{indices_of, is_continuous, Config, Layer, Run, Tile};

fn tile(index: u32) -> Tile {
    Tile { index, mode: Mode::M160A, palette: 0, fake: false, background: None, payload: 0 }
}

fn wide(index: u32) -> Tile {
    Tile { index, mode: Mode::M160B, palette: 5, fake: false, background: None, payload: 0 }
}

fn run(start: usize, indices: &[u32]) -> Run {
    Run { layer: Layer::Foreground, start, tiles: indices.iter().map(|i| tile(*i)).collect() }
}

fn forbidding() -> Config {
    let mut c = Config::new(8, 8);
    c.forbid_immediate = true;
    c
}

#[test]
fn contiguous_row_is_one_continuous_record_and_no_blob() {
    let mut store = Store::new();
    let c = Config::new(8, 8);
    let records = encode_row(&mut store, &vec![run(0, &[10, 11, 12, 13])], 0, &c).unwrap();
    assert_eq!(
        records,
        vec![Record {
            first: 0,
            last: 3,
            mode: Mode::M160A,
            palette: 0,
            width: 4,
            encoding: Encoding::Continuous { base: 10 },
        }]
    );
    assert_eq!(store.len(), 0);
}

#[test]
fn broken_index_sequence_is_registered_as_an_index_array() {
    let mut store = Store::new();
    let c = Config::new(8, 8);
    let records = encode_row(&mut store, &vec![run(0, &[10, 11, 20, 21])], 0, &c).unwrap();
    assert_eq!(records.len(), 1);
    assert_eq!(records[0].first, 0);
    assert_eq!(records[0].last, 3);
    assert_eq!(records[0].width, 4);
    assert_eq!(records[0].encoding, Encoding::Indirect { blob: BlobName::Row(0, 0), slot: 0 });
    assert_eq!(store.len(), 1);
    assert_eq!(store.entry(0).name, BlobName::Row(0, 0));
    assert_eq!(store.entry(0).content, vec![10, 11, 20, 21]);
    assert!(!store.entry(0).immediate);
}

#[test]
fn two_runs_of_a_row_register_two_blobs_named_by_their_place() {
    let mut store = Store::new();
    let c = forbidding();
    let runs = vec![run(0, &[10, 11]), run(2, &[20, 21])];
    let records = encode_row(&mut store, &runs, 3, &c).unwrap();
    assert_eq!(records[0].encoding, Encoding::Indirect { blob: BlobName::Row(3, 0), slot: 0 });
    assert_eq!(records[1].encoding, Encoding::Indirect { blob: BlobName::Row(3, 1), slot: 0 });
    assert_eq!((records[0].first, records[0].last), (0, 1));
    assert_eq!((records[1].first, records[1].last), (2, 3));
    assert_eq!(store.len(), 2);
    assert_eq!(store.entry(0).content, vec![10, 11]);
    assert_eq!(store.entry(1).content, vec![20, 21]);
}

#[test]
fn later_row_reuses_the_entry_of_an_earlier_row_at_offset_zero() {
    let mut store = Store::new();
    let c = forbidding();
    encode_row(&mut store, &vec![run(0, &[10, 11, 20, 21])], 0, &c).unwrap();
    let records = encode_row(&mut store, &vec![run(0, &[10, 11])], 1, &c).unwrap();
    assert_eq!(records[0].encoding, Encoding::Indirect { blob: BlobName::Row(0, 0), slot: 0 });
    assert_eq!(store.len(), 1);
}

#[test]
fn later_row_reuses_the_middle_of_an_earlier_entry() {
    let mut store = Store::new();
    let c = forbidding();
    encode_row(&mut store, &vec![run(0, &[10, 11, 20, 21])], 0, &c).unwrap();
    let records = encode_row(&mut store, &vec![run(5, &[11, 20])], 1, &c).unwrap();
    assert_eq!(records[0].encoding, Encoding::Indirect { blob: BlobName::Row(0, 0), slot: 1 });
    assert_eq!((records[0].first, records[0].last, records[0].width), (5, 6, 2));
    assert_eq!(store.len(), 1);
}

#[test]
fn same_index_sequence_in_two_rows_is_registered_once() {
    let mut store = Store::new();
    let c = Config::new(8, 8);
    let first = encode_row(&mut store, &vec![run(0, &[4, 9, 2])], 0, &c).unwrap();
    let between = encode_row(&mut store, &vec![run(1, &[7, 5])], 1, &c).unwrap();
    let second = encode_row(&mut store, &vec![run(6, &[4, 9, 2])], 2, &c).unwrap();
    assert_eq!(store.len(), 2);
    assert_eq!(first[0].encoding, Encoding::Indirect { blob: BlobName::Row(0, 0), slot: 0 });
    assert_eq!(between[0].encoding, Encoding::Indirect { blob: BlobName::Row(1, 0), slot: 0 });
    assert_eq!(second[0].encoding, first[0].encoding);
}

#[test]
fn immediate_option_registers_pixel_blobs_and_counts_bytes() {
    let mut store = Store::new();
    let mut c = Config::new(16, 16);
    c.immediate = true;
    let tiles = vec![wide(0), wide(4)];
    let r = Run { layer: Layer::Background, start: 3, tiles: tiles.clone() };
    let record = encode_run(&mut store, &r, BlobName::Row(7, 2), &c).unwrap();
    assert_eq!(
        record,
        Record {
            first: 3,
            last: 4,
            mode: Mode::M160B,
            palette: 5,
            width: 8,
            encoding: Encoding::Immediate { blob: BlobName::Row(7, 2), slot: 0 },
        }
    );
    assert_eq!(store.entry(0).content, vec![0, 2, 4, 6]);
    assert!(store.entry(0).immediate);
    assert_eq!(store.entry(0).tiles, tiles);
}

#[test]
fn run_found_in_an_immediate_entry_points_at_pixel_bytes() {
    let mut store = Store::new();
    store
        .register(Blob {
            name: BlobName::Sequence(1),
            content: vec![8, 9, 10, 11],
            immediate: true,
            tiles: Vec::new(),
        })
        .unwrap();
    let c = forbidding();
    let record = encode_run(&mut store, &run(0, &[10, 11]), BlobName::Row(0, 0), &c).unwrap();
    assert_eq!(record.encoding, Encoding::Immediate { blob: BlobName::Sequence(1), slot: 2 });
    assert_eq!(record.width, 2);
    assert_eq!(store.len(), 1);
}

#[test]
fn taken_row_name_is_reported_and_nothing_is_overwritten() {
    let mut store = Store::new();
    store
        .register(Blob {
            name: BlobName::Row(0, 0),
            content: vec![1],
            immediate: false,
            tiles: Vec::new(),
        })
        .unwrap();
    let c = forbidding();
    let r = encode_row(&mut store, &vec![run(0, &[10, 12])], 0, &c);
    assert_eq!(r, Err(StoreError::Conflict(BlobName::Row(0, 0))));
    assert_eq!(store.len(), 1);
    assert_eq!(store.entry(0).content, vec![1]);
}

#[test]
fn fake_tile_is_never_continuous() {
    let c = Config::new(8, 8);
    let mut tiles = vec![tile(10), tile(11)];
    assert!(is_continuous(&tiles, &c));
    tiles[1].fake = true;
    assert!(!is_continuous(&tiles, &c));
}

#[test]
fn continuity_goes_by_the_stride_of_the_mode() {
    let c = Config::new(8, 8);
    assert!(is_continuous(&vec![wide(0), wide(2), wide(4)], &c));
    assert!(!is_continuous(&vec![wide(0), wide(1)], &c));
    assert!(!is_continuous(&vec![tile(3), tile(5)], &c));
    assert!(is_continuous(&vec![tile(3)], &c));
    let big = Config::new(16, 16);
    assert!(is_continuous(&vec![tile(0), tile(2)], &big));
    assert!(is_continuous(&vec![wide(0), wide(4)], &big));
}

#[test]
fn index_array_has_one_slot_per_narrow_tile_and_two_per_wide_tile() {
    let small = Config::new(8, 8);
    let big = Config::new(16, 16);
    assert_eq!(indices_of(&vec![tile(10), tile(20)], &small), vec![10, 20]);
    assert_eq!(indices_of(&vec![wide(10), wide(20)], &small), vec![10, 11, 20, 21]);
    assert_eq!(indices_of(&vec![wide(10), wide(20)], &big), vec![10, 12, 20, 22]);
    assert_eq!(indices_of(&vec![wide(u32::MAX)], &big), vec![4294967295, 4294967297]);
    assert_eq!(indices_of(&Vec::new(), &big), Vec::<u64>::new());
}

#[test]
fn row_without_runs_has_no_records() {
    let mut store = Store::new();
    let c = Config::new(8, 8);
    assert_eq!(encode_row(&mut store, &Vec::new(), 0, &c), Ok(Vec::new()));
    assert_eq!(store.len(), 0);
}
