//! The byte layout of display lists and of the row-pointer table. Addresses
//! are not known here, so a byte that depends on one is kept as the half of
//! a pointer at a named target.

use crate::encode::{Encoding, Record};
use crate::mode::Mode;
use crate::tile::Config;
use vstd::prelude::*;

verus! {

/// What a pointer points at.
#[derive(Clone, Copy, Debug, PartialEq, Eq, Structural)]
pub enum Target {
    /// The graphics or the index array of a run.
    Run(Encoding),
    /// The display list laid out for the row with this number.
    List(usize),
    /// The array of high bytes of the row pointers.
    HighTable,
    /// The array of low bytes of the row pointers.
    LowTable,
}

/// One element of a laid-out array.
#[derive(Clone, Copy, Debug, PartialEq, Eq, Structural)]
pub enum Item {
    /// A byte whose value is known.
    Byte(u8),
    /// The low byte of the address of a target.
    Low(Target),
    /// The high byte of the address of a target.
    High(Target),
    /// The whole address of a target.
    Address(Target),
}

/// The mode/type byte: the mode bits, with bit `0x20` set when the record
/// points at an index array.
pub open spec fn spec_mode_byte(mode: Mode, direct: bool) -> u8 {
    if direct {
        mode.spec_write_bits()
    } else {
        (mode.spec_write_bits() + 0x20) as u8
    }
}

/// The palette/width byte: the low three bits of the palette above the
/// width as a negated five-bit number.
pub open spec fn spec_width_byte(palette: u8, width: int) -> u8 {
    ((palette % 8) * 32 + (32 - width % 32) % 32) as u8
}

/// The position byte of the direct layout: eight times the column plus the
/// configured offset, cut to a byte.
pub open spec fn spec_position_byte(column: int, offset: u8) -> u8 {
    ((column * 8 + offset) % 256) as u8
}

/// The DMA cost of a record: `(10 + 3 * width) / 2` cycles when it points at
/// graphics, `(10 + 3 + 9 * width) / 2` through an index array.
pub open spec fn spec_dma_cost(width: int, direct: bool) -> int {
    if direct {
        (10 + 3 * width) / 2
    } else {
        (10 + 3 + 9 * width) / 2
    }
}

/// The low eight bits of a number.
pub open spec fn spec_low_byte(v: int) -> u8 {
    (v % 256) as u8
}

/// The mode/type byte of a record.
#[verifier::when_used_as_spec(spec_mode_byte)]
pub fn mode_byte(mode: Mode, direct: bool) -> (b: u8)
    ensures
        b == spec_mode_byte(mode, direct),
{
    if direct {
        mode.write_bits()
    } else {
        mode.write_bits() + 0x20
    }
}

/// The palette/width byte of a record.
pub fn width_byte(palette: u8, width: usize) -> (b: u8)
    ensures
        b == spec_width_byte(palette, width as int),
        b / 32 == palette % 8,
        (b % 32 + width) % 32 == 0,
{
    let field: usize = (32 - width % 32) % 32;
    (palette % 8) * 32 + field as u8
}

/// The position byte of a record in the direct layout.
pub fn position_byte(column: usize, offset: u8) -> (b: u8)
    ensures
        b == spec_position_byte(column as int, offset),
{
    ((column as u128 * 8 + offset as u128) % 256) as u8
}

/// The DMA cost of a record, cut to a byte.
pub fn dma_byte(width: usize, direct: bool) -> (b: u8)
    ensures
        b == spec_low_byte(spec_dma_cost(width as int, direct)),
{
    if direct {
        (((10 + 3 * (width as u128)) / 2) % 256) as u8
    } else {
        (((10 + 3 + 9 * (width as u128)) / 2) % 256) as u8
    }
}

/// The low eight bits of a column number.
pub fn low_byte(v: usize) -> (b: u8)
    ensures
        b == spec_low_byte(v as int),
{
    (v % 256) as u8
}

/// The items of the record at place `place` of its row. In the direct
/// layout a record that points at graphics takes four items after the first
/// record of the row, where four-byte headers are on, and five otherwise;
/// in the other layout every record takes seven.
pub open spec fn record_items(r: Record, place: int, config: Config) -> Seq<Item> {
    let target = Target::Run(r.encoding);
    let direct = r.encoding.spec_direct();
    if config.direct {
        if direct && config.four_bytes && place != 0 {
            seq![
                Item::Low(target),
                Item::Byte(spec_width_byte(r.palette, r.width as int)),
                Item::High(target),
                Item::Byte(spec_position_byte(r.first as int, config.offset)),
            ]
        } else {
            seq![
                Item::Low(target),
                Item::Byte(spec_mode_byte(r.mode, direct)),
                Item::High(target),
                Item::Byte(spec_width_byte(r.palette, r.width as int)),
                Item::Byte(spec_position_byte(r.first as int, config.offset)),
            ]
        }
    } else {
        seq![
            Item::Byte(spec_low_byte(r.last as int)),
            Item::Byte(spec_low_byte(r.first as int)),
            Item::Low(target),
            Item::Byte(spec_mode_byte(r.mode, direct)),
            Item::High(target),
            Item::Byte(spec_width_byte(r.palette, r.width as int)),
            Item::Byte(spec_low_byte(spec_dma_cost(r.width as int, direct))),
        ]
    }
}

/// The two items that end every display list.
pub open spec fn terminator(config: Config) -> Seq<Item> {
    if config.direct {
        seq![Item::Byte(0), Item::Byte(0)]
    } else {
        seq![Item::Byte(96), Item::Byte(0xff)]
    }
}

/// The items of the first `n` records of a row.
pub open spec fn body(records: Seq<Record>, config: Config, n: int) -> Seq<Item>
    decreases n,
{
    if n <= 0 {
        Seq::empty()
    } else {
        body(records, config, n - 1) + record_items(records[n - 1], n - 1, config)
    }
}

/// The display list of a row: the items of its records, in order, then the
/// terminator.
pub open spec fn display_list(records: Seq<Record>, config: Config) -> Seq<Item> {
    body(records, config, records.len() as int) + terminator(config)
}

/// The two's complement of `width`, cut to five bits.
pub open spec fn negated_width(width: u32) -> u32 {
    (((!width & 0x1fu32) + 1u32) as u32) & 0x1fu32
}

/// The palette/width byte is the palette shifted into the three high
/// bits, joined with the low five bits of the two's complement of the
/// width.
pub proof fn lemma_width_byte_bits(palette: u8, width: u32)
    ensures
        spec_width_byte(palette, width as int) == (((palette as u32) << 5u32) & 0xe0u32)
            | negated_width(width),
{
    let p = palette as u32;
    assert((((p << 5u32) & 0xe0u32) | ((((!width & 0x1fu32) + 1u32) as u32) & 0x1fu32)) == (((p
        % 8u32) * 32u32) as u32 + (((32u32 - width % 32u32) as u32) % 32u32)) as u32) by (bit_vector)
        requires
            p < 256u32,
    ;
    assert((palette % 8) as u32 == p % 8u32);
}

/// A row without records is laid out as the terminator alone.
pub proof fn lemma_bare_list(config: Config)
    ensures
        display_list(Seq::<Record>::empty(), config) == terminator(config),
        terminator(config).len() == 2,
{
    assert(display_list(Seq::<Record>::empty(), config) =~= terminator(config));
}

fn push_record(out: &mut Vec<Item>, r: &Record, place: usize, config: &Config)
    ensures
        final(out)@ == old(out)@ + record_items(*r, place as int, *config),
{
    let target = Target::Run(r.encoding);
    let direct: bool = r.encoding.direct();
    if config.direct {
        if direct && config.four_bytes && place != 0 {
            out.push(Item::Low(target));
            out.push(Item::Byte(width_byte(r.palette, r.width)));
            out.push(Item::High(target));
            out.push(Item::Byte(position_byte(r.first, config.offset)));
        } else {
            out.push(Item::Low(target));
            out.push(Item::Byte(mode_byte(r.mode, direct)));
            out.push(Item::High(target));
            out.push(Item::Byte(width_byte(r.palette, r.width)));
            out.push(Item::Byte(position_byte(r.first, config.offset)));
        }
    } else {
        out.push(Item::Byte(low_byte(r.last)));
        out.push(Item::Byte(low_byte(r.first)));
        out.push(Item::Low(target));
        out.push(Item::Byte(mode_byte(r.mode, direct)));
        out.push(Item::High(target));
        out.push(Item::Byte(width_byte(r.palette, r.width)));
        out.push(Item::Byte(dma_byte(r.width, direct)));
    }
    assert(out@ =~= old(out)@ + record_items(*r, place as int, *config));
}

/// Lays out the display list of a row.
pub fn lay_out(records: &Vec<Record>, config: &Config) -> (items: Vec<Item>)
    ensures
        items@ == display_list(records@, *config),
{
    let mut out: Vec<Item> = Vec::new();
    let mut c: usize = 0;
    while c < records.len()
        invariant
            c <= records.len(),
            out@ == body(records@, *config, c as int),
        decreases records.len() - c,
    {
        push_record(&mut out, &records[c], c, config);
        c += 1;
    }
    if config.direct {
        out.push(Item::Byte(0));
        out.push(Item::Byte(0));
    } else {
        out.push(Item::Byte(96));
        out.push(Item::Byte(0xff));
    }
    assert(out@ =~= display_list(records@, *config));
    out
}

/// The lists of a sequence of laid-out rows, as mathematical values.
pub open spec fn list_views(lists: Seq<Vec<Item>>) -> Seq<Seq<Item>> {
    Seq::new(lists.len(), |i: int| lists[i]@)
}

/// The first row at or after `from` whose list equals that of row `y`.
pub open spec fn first_equal_from(lists: Seq<Seq<Item>>, y: int, from: int) -> int
    decreases y - from,
{
    if from < 0 || from >= y || lists[from] == lists[y] {
        from
    } else {
        first_equal_from(lists, y, from + 1)
    }
}

/// The row whose list row `y` points at: the first row with an equal list.
pub open spec fn owner(lists: Seq<Seq<Item>>, y: int) -> int {
    first_equal_from(lists, y, 0)
}

/// The row-pointer table: for each row, the row whose list it points at.
pub open spec fn row_table(lists: Seq<Seq<Item>>) -> Seq<usize> {
    Seq::new(lists.len(), |y: int| owner(lists, y) as usize)
}

/// The owner of a row has the same list as the row, comes no later, and no
/// earlier row has that list.
pub proof fn lemma_owner(lists: Seq<Seq<Item>>, y: int)
    requires
        0 <= y < lists.len(),
    ensures
        0 <= owner(lists, y) <= y,
        lists[owner(lists, y)] == lists[y],
        forall|k: int| 0 <= k < owner(lists, y) ==> lists[k] != lists[y],
{
    lemma_first_equal_from(lists, y, 0);
}

proof fn lemma_first_equal_from(lists: Seq<Seq<Item>>, y: int, from: int)
    requires
        0 <= from <= y < lists.len(),
    ensures
        from <= first_equal_from(lists, y, from) <= y,
        lists[first_equal_from(lists, y, from)] == lists[y],
        forall|k: int| from <= k < first_equal_from(lists, y, from) ==> lists[k] != lists[y],
    decreases y - from,
{
    if from < y && lists[from] != lists[y] {
        lemma_first_equal_from(lists, y, from + 1);
    }
}

/// Whether two laid-out lists are equal.
pub fn same_items(a: &Vec<Item>, b: &Vec<Item>) -> (r: bool)
    ensures
        r == (a@ == b@),
{
    if a.len() != b.len() {
        return false;
    }
    let mut i: usize = 0;
    while i < a.len()
        invariant
            a.len() == b.len(),
            i <= a.len(),
            forall|k: int| 0 <= k < i ==> a@[k] == b@[k],
        decreases a.len() - i,
    {
        if a[i] != b[i] {
            return false;
        }
        i += 1;
    }
    assert(a@ =~= b@);
    true
}

/// Builds the row-pointer table: rows with equal lists share the list of
/// the first of them.
pub fn share_rows(lists: &Vec<Vec<Item>>) -> (table: Vec<usize>)
    ensures
        table@ == row_table(list_views(lists@)),
{
    let ghost views = list_views(lists@);
    let mut table: Vec<usize> = Vec::new();
    let mut y: usize = 0;
    while y < lists.len()
        invariant
            y <= lists.len(),
            views == list_views(lists@),
            table@.len() == y,
            forall|k: int| 0 <= k < y ==> table@[k] == owner(views, k) as usize,
        decreases lists.len() - y,
    {
        let mut k: usize = 0;
        while k < y && !same_items(&lists[k], &lists[y])
            invariant
                k <= y < lists.len(),
                views == list_views(lists@),
                owner(views, y as int) == first_equal_from(views, y as int, k as int),
            decreases y - k,
        {
            k += 1;
        }
        table.push(k);
        y += 1;
    }
    assert(table@ =~= row_table(views));
    table
}

/// The array of high bytes of the row pointers.
pub open spec fn high_table(table: Seq<usize>) -> Seq<Item> {
    Seq::new(table.len(), |y: int| Item::High(Target::List(table[y])))
}

/// The array of low bytes of the row pointers.
pub open spec fn low_table(table: Seq<usize>) -> Seq<Item> {
    Seq::new(table.len(), |y: int| Item::Low(Target::List(table[y])))
}

/// The pointer pair: the address of the high-byte array, then that of the
/// low-byte array.
pub open spec fn spec_pointer_pair() -> Seq<Item> {
    seq![Item::Address(Target::HighTable), Item::Address(Target::LowTable)]
}

/// Lays out the array of high bytes of the row pointers, one per row.
pub fn high_bytes(table: &Vec<usize>) -> (items: Vec<Item>)
    ensures
        items@ == high_table(table@),
{
    let mut out: Vec<Item> = Vec::new();
    let mut y: usize = 0;
    while y < table.len()
        invariant
            y <= table.len(),
            out@.len() == y,
            forall|k: int| 0 <= k < y ==> out@[k] == Item::High(Target::List(table@[k])),
        decreases table.len() - y,
    {
        out.push(Item::High(Target::List(table[y])));
        y += 1;
    }
    assert(out@ =~= high_table(table@));
    out
}

/// Lays out the array of low bytes of the row pointers, one per row.
pub fn low_bytes(table: &Vec<usize>) -> (items: Vec<Item>)
    ensures
        items@ == low_table(table@),
{
    let mut out: Vec<Item> = Vec::new();
    let mut y: usize = 0;
    while y < table.len()
        invariant
            y <= table.len(),
            out@.len() == y,
            forall|k: int| 0 <= k < y ==> out@[k] == Item::Low(Target::List(table@[k])),
        decreases table.len() - y,
    {
        out.push(Item::Low(Target::List(table[y])));
        y += 1;
    }
    assert(out@ =~= low_table(table@));
    out
}

/// Lays out the pointer pair that exposes both arrays of the table.
pub fn pointer_pair() -> (items: Vec<Item>)
    ensures
        items@ == spec_pointer_pair(),
{
    let mut out: Vec<Item> = Vec::new();
    out.push(Item::Address(Target::HighTable));
    out.push(Item::Address(Target::LowTable));
    assert(out@ =~= spec_pointer_pair());
    out
}

} // verus!
