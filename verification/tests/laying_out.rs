use tiles7800::encode::{Encoding, Record};
use tiles7800::layout::{
    dma_byte, high_bytes, lay_out, low_byte, low_bytes, mode_byte, pointer_pair, position_byte,
    share_rows, width_byte, Item, Target,
};
use tiles7800::mode::Mode;
use tiles7800::store::BlobName;
use tiles7800::tile::Config;

fn indirect(first: usize, last: usize, width: usize) -> Record {
    Record {
        first,
        last,
        mode: Mode::M160A,
        palette: 2,
        width,
        encoding: Encoding::Indirect { blob: BlobName::Row(0, 0), slot: 0 },
    }
}

fn continuous(first: usize, last: usize, width: usize) -> Record {
    Record {
        first,
        last,
        mode: Mode::M160B,
        palette: 1,
        width,
        encoding: Encoding::Continuous { base: 40 },
    }
}

#[test]
fn width_byte_holds_palette_over_negated_width() {
    assert_eq!(width_byte(2, 3), (2u8 << 5) | ((-3i32) & 0x1f) as u8);
    assert_eq!(width_byte(2, 3), 93);
    assert_eq!(width_byte(0, 32), 0);
    assert_eq!(width_byte(7, 1), 255);
    assert_eq!(width_byte(0, 0), 0);
    assert_eq!(width_byte(9, 31), 33);
    assert_eq!(width_byte(1, 60), 32 + 4);
}

#[test]
fn mode_byte_marks_index_arrays() {
    assert_eq!(mode_byte(Mode::M160A, true), 0x40);
    assert_eq!(mode_byte(Mode::M160A, false), 0x60);
    assert_eq!(mode_byte(Mode::M320B, true), 0xc0);
    assert_eq!(mode_byte(Mode::M320B, false), 0xe0);
    assert_eq!(mode_byte(Mode::M320D, false), 0x60);
}

#[test]
fn position_byte_is_eight_times_the_column_plus_offset() {
    assert_eq!(position_byte(0, 0), 0);
    assert_eq!(position_byte(3, 0), 24);
    assert_eq!(position_byte(3, 5), 29);
    assert_eq!(position_byte(31, 7), 255);
    assert_eq!(position_byte(32, 0), 0);
    assert_eq!(position_byte(usize::MAX, 255), 247);
}

#[test]
fn dma_cost_follows_the_kind_of_record() {
    assert_eq!(dma_byte(4, true), 11);
    assert_eq!(dma_byte(3, false), 20);
    assert_eq!(dma_byte(0, true), 5);
    assert_eq!(dma_byte(0, false), 6);
    assert_eq!(dma_byte(100, false), ((913 / 2) % 256) as u8);
    assert_eq!(low_byte(300), 44);
}

#[test]
fn seven_item_records_end_in_ninety_six_and_ff() {
    let c = Config::new(8, 8);
    let r = indirect(2, 4, 3);
    let t = Target::Run(r.encoding);
    assert_eq!(
        lay_out(&vec![r], &c),
        vec![
            Item::Byte(4),
            Item::Byte(2),
            Item::Low(t),
            Item::Byte(0x60),
            Item::High(t),
            Item::Byte(93),
            Item::Byte(20),
            Item::Byte(96),
            Item::Byte(0xff),
        ]
    );
}

#[test]
fn direct_layout_uses_five_items_first_and_four_after() {
    let mut c = Config::new(8, 8);
    c.direct = true;
    c.offset = 2;
    let a = continuous(0, 1, 4);
    let b = continuous(5, 6, 4);
    let t = Target::Run(a.encoding);
    assert_eq!(
        lay_out(&vec![a, b], &c),
        vec![
            Item::Low(t),
            Item::Byte(0xc0),
            Item::High(t),
            Item::Byte(32 + 28),
            Item::Byte(2),
            Item::Low(t),
            Item::Byte(32 + 28),
            Item::High(t),
            Item::Byte(42),
            Item::Byte(0),
            Item::Byte(0),
        ]
    );
}

#[test]
fn direct_layout_keeps_five_items_for_index_arrays_and_without_the_option() {
    let mut c = Config::new(8, 8);
    c.direct = true;
    let a = continuous(0, 1, 4);
    let b = indirect(5, 6, 2);
    assert_eq!(lay_out(&vec![a, b], &c).len(), 5 + 5 + 2);
    c.four_bytes = false;
    let d = continuous(5, 6, 4);
    assert_eq!(lay_out(&vec![a, d], &c).len(), 5 + 5 + 2);
    assert_eq!(lay_out(&vec![a, d], &c)[6], Item::Byte(0xc0));
}

#[test]
fn row_without_records_is_the_terminator_alone() {
    let mut c = Config::new(8, 8);
    assert_eq!(lay_out(&Vec::new(), &c), vec![Item::Byte(96), Item::Byte(0xff)]);
    c.direct = true;
    assert_eq!(lay_out(&Vec::new(), &c), vec![Item::Byte(0), Item::Byte(0)]);
}

#[test]
fn rows_with_equal_lists_share_the_first_of_them() {
    let a = vec![Item::Byte(1), Item::Byte(96)];
    let b = vec![Item::Byte(2), Item::Byte(96)];
    let table = share_rows(&vec![a.clone(), b.clone(), a.clone(), b.clone(), vec![]]);
    assert_eq!(table, vec![0, 1, 0, 1, 4]);
    assert_eq!(share_rows(&Vec::new()), Vec::<usize>::new());
}

#[test]
fn pointer_table_has_a_high_and_a_low_byte_per_row() {
    let table = vec![0, 1, 0];
    assert_eq!(
        high_bytes(&table),
        vec![
            Item::High(Target::List(0)),
            Item::High(Target::List(1)),
            Item::High(Target::List(0)),
        ]
    );
    assert_eq!(
        low_bytes(&table),
        vec![
            Item::Low(Target::List(0)),
            Item::Low(Target::List(1)),
            Item::Low(Target::List(0)),
        ]
    );
    assert_eq!(
        pointer_pair(),
        vec![Item::Address(Target::HighTable), Item::Address(Target::LowTable)]
    );
}
