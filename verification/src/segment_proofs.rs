//! What holds of every row the segmenter carves: run lengths, boundaries,
//! and the exact cover of the row's tiles.

use crate::segment::{scan, segment, SegState};
use crate::tile::{compatible, Cell, Layer, RunView, Tile};
use vstd::prelude::*;

verus! {

/// The cell holds `t`, under or over.
pub open spec fn holds(cell: Cell, t: Tile) -> bool {
    cell.bottom() == Some(t) || cell.top() == Some(t)
}

/// All tiles of the sequence are compatible with one another.
pub open spec fn uniform(tiles: Seq<Tile>) -> bool {
    forall|i: int, j: int|
        0 <= i < tiles.len() && 0 <= j < tiles.len() ==> compatible(
            #[trigger] tiles[i],
            #[trigger] tiles[j],
        )
}

/// The tile that a cell gives to a run of the given layer.
pub open spec fn layer_tile(cell: Cell, layer: Layer) -> Option<Tile> {
    match layer {
        Layer::Background => cell.bottom(),
        Layer::Foreground => cell.top(),
    }
}

/// Tiles laid from column `start` on are sound, as a run of the given
/// layer, for a row scanned up to column `upto`: between 1 and `max` of
/// them, inside the scanned part, of one kind, and each is the tile that
/// the cell at its column gives to the layer.
pub open spec fn span_sound(
    layer: Layer,
    start: int,
    tiles: Seq<Tile>,
    cells: Seq<Cell>,
    upto: int,
    max: int,
) -> bool {
    &&& 1 <= tiles.len() <= max
    &&& 0 <= start
    &&& start + tiles.len() <= upto
    &&& uniform(tiles)
    &&& forall|k: int|
        0 <= k < tiles.len() ==> layer_tile(cells[start + k], layer) == Some(#[trigger] tiles[k])
}

/// A run is sound for a row scanned up to column `upto`.
pub open spec fn run_sound(r: RunView, cells: Seq<Cell>, upto: int, max: int) -> bool {
    span_sound(r.layer, r.start, r.tiles, cells, upto, max)
}

/// Every run of the list is sound.
pub open spec fn runs_sound(runs: Seq<RunView>, cells: Seq<Cell>, upto: int, max: int) -> bool {
    forall|i: int| 0 <= i < runs.len() ==> run_sound(#[trigger] runs[i], cells, upto, max)
}

/// An accumulator is either empty or sound as a run of the given layer.
pub open spec fn open_sound(
    layer: Layer,
    start: int,
    tiles: Seq<Tile>,
    cells: Seq<Cell>,
    upto: int,
    max: int,
) -> bool {
    tiles.len() > 0 ==> span_sound(layer, start, tiles, cells, upto, max)
}

/// Every run of the list is a foreground run.
pub open spec fn all_foreground(runs: Seq<RunView>) -> bool {
    forall|i: int| 0 <= i < runs.len() ==> (#[trigger] runs[i]).layer == Layer::Foreground
}

/// The foreground run in progress is sound, and sound as a background run
/// too unless it holds a tile that lies over a background tile.
pub open spec fn fg_sound(s: SegState, cells: Seq<Cell>, upto: int, max: int) -> bool {
    &&& open_sound(Layer::Foreground, s.fg_start, s.fg, cells, upto, max)
    &&& !s.fg_over ==> open_sound(Layer::Background, s.fg_start, s.fg, cells, upto, max)
}

/// An accumulator is either empty or ends just before column `x`.
pub open spec fn ends_at(start: int, tiles: Seq<Tile>, x: int) -> bool {
    tiles.len() > 0 ==> start + tiles.len() == x
}

/// Every part of the state is sound after the first `x` cells, and the runs
/// in progress end at the last of them.
pub open spec fn state_sound(s: SegState, cells: Seq<Cell>, x: int, max: int) -> bool {
    &&& runs_sound(s.out, cells, x, max)
    &&& runs_sound(s.deferred, cells, x, max)
    &&& all_foreground(s.deferred)
    &&& open_sound(Layer::Background, s.bg_start, s.bg, cells, x, max)
    &&& fg_sound(s, cells, x, max)
    &&& ends_at(s.bg_start, s.bg, x)
    &&& ends_at(s.fg_start, s.fg, x)
}

proof fn lemma_runs_sound_later(runs: Seq<RunView>, cells: Seq<Cell>, upto: int, max: int)
    requires
        runs_sound(runs, cells, upto, max),
    ensures
        runs_sound(runs, cells, upto + 1, max),
{
    assert forall|i: int| 0 <= i < runs.len() implies run_sound(
        #[trigger] runs[i],
        cells,
        upto + 1,
        max,
    ) by {
        assert(run_sound(runs[i], cells, upto, max));
    }
}

proof fn lemma_runs_sound_push(runs: Seq<RunView>, r: RunView, cells: Seq<Cell>, upto: int, max: int)
    requires
        runs_sound(runs, cells, upto, max),
        run_sound(r, cells, upto, max),
    ensures
        runs_sound(runs.push(r), cells, upto, max),
        runs_sound(seq![r] + runs, cells, upto, max),
{
    let a = runs.push(r);
    assert forall|i: int| 0 <= i < a.len() implies run_sound(#[trigger] a[i], cells, upto, max) by {
        if i < runs.len() {
            assert(a[i] == runs[i]);
        }
    }
    let b = seq![r] + runs;
    assert forall|i: int| 0 <= i < b.len() implies run_sound(#[trigger] b[i], cells, upto, max) by {
        if i > 0 {
            assert(b[i] == runs[i - 1]);
        }
    }
}

proof fn lemma_runs_sound_concat(a: Seq<RunView>, b: Seq<RunView>, cells: Seq<Cell>, upto: int, max: int)
    requires
        runs_sound(a, cells, upto, max),
        runs_sound(b, cells, upto, max),
    ensures
        runs_sound(a + b, cells, upto, max),
{
    let c = a + b;
    assert forall|i: int| 0 <= i < c.len() implies run_sound(#[trigger] c[i], cells, upto, max) by {
        if i < a.len() {
            assert(c[i] == a[i]);
        } else {
            assert(c[i] == b[i - a.len()]);
        }
    }
}

/// One tile at column `x` is sound when the cell there gives it to the
/// layer.
proof fn lemma_unit_sound(layer: Layer, t: Tile, cells: Seq<Cell>, x: int, max: int)
    requires
        0 <= x,
        1 <= max,
        layer_tile(cells[x], layer) == Some(t),
    ensures
        span_sound(layer, x, seq![t], cells, x + 1, max),
{
    let tiles = seq![t];
    assert forall|k: int| 0 <= k < tiles.len() implies layer_tile(cells[x + k], layer) == Some(
        #[trigger] tiles[k],
    ) by {
        assert(k == 0);
    }
}

/// Sound tiles that end at `x` stay sound when a compatible tile that the
/// cell at `x` gives to the layer is added, as long as there is room.
proof fn lemma_grow_sound(
    layer: Layer,
    start: int,
    tiles: Seq<Tile>,
    t: Tile,
    cells: Seq<Cell>,
    x: int,
    max: int,
)
    requires
        span_sound(layer, start, tiles, cells, x, max),
        start + tiles.len() == x,
        tiles.len() < max,
        compatible(t, tiles.last()),
        layer_tile(cells[x], layer) == Some(t),
    ensures
        span_sound(layer, start, tiles.push(t), cells, x + 1, max),
{
    let q = tiles.push(t);
    let n = tiles.len() as int;
    assert forall|k: int| 0 <= k < q.len() implies layer_tile(cells[start + k], layer) == Some(
        #[trigger] q[k],
    ) by {
        if k < n {
            assert(q[k] == tiles[k]);
            assert(layer_tile(cells[start + k], layer) == Some(tiles[k]));
        }
    }
    assert forall|i: int, j: int| 0 <= i < q.len() && 0 <= j < q.len() implies compatible(
        #[trigger] q[i],
        #[trigger] q[j],
    ) by {
        assert(compatible(tiles[n - 1], tiles[n - 1]));
        if i < n {
            assert(compatible(tiles[i], tiles[n - 1]));
        }
        if j < n {
            assert(compatible(tiles[j], tiles[n - 1]));
        }
    }
}

proof fn lemma_flush_bg_sound(s: SegState, ltr: bool, cells: Seq<Cell>, upto: int, max: int)
    requires
        runs_sound(s.out, cells, upto, max),
        open_sound(Layer::Background, s.bg_start, s.bg, cells, upto, max),
    ensures
        runs_sound(s.flush_bg(ltr).out, cells, upto, max),
{
    if s.bg.len() > 0 {
        lemma_runs_sound_push(s.out, s.bg_run(), cells, upto, max);
    }
}

proof fn lemma_flush_fg_sound(s: SegState, cells: Seq<Cell>, upto: int, max: int)
    requires
        runs_sound(s.out, cells, upto, max),
        open_sound(Layer::Foreground, s.fg_start, s.fg, cells, upto, max),
    ensures
        runs_sound(s.flush_fg().out, cells, upto, max),
{
    if s.fg.len() > 0 {
        lemma_runs_sound_push(s.out, s.fg_run(), cells, upto, max);
    }
}

proof fn lemma_defer_fg_sound(s: SegState, cells: Seq<Cell>, upto: int, max: int)
    requires
        runs_sound(s.deferred, cells, upto, max),
        all_foreground(s.deferred),
        open_sound(Layer::Foreground, s.fg_start, s.fg, cells, upto, max),
    ensures
        runs_sound(s.defer_fg().deferred, cells, upto, max),
        all_foreground(s.defer_fg().deferred),
{
    if s.fg.len() > 0 {
        lemma_runs_sound_push(s.deferred, s.fg_run(), cells, upto, max);
        let d = s.deferred.push(s.fg_run());
        assert forall|i: int| 0 <= i < d.len() implies (#[trigger] d[i]).layer
            == Layer::Foreground by {
            if i < s.deferred.len() {
                assert(d[i] == s.deferred[i]);
            }
        }
    }
}

/// The state reached by finishing everything is sound.
proof fn lemma_flush_all_sound(s: SegState, ltr: bool, cells: Seq<Cell>, upto: int, max: int)
    requires
        runs_sound(s.out, cells, upto, max),
        runs_sound(s.deferred, cells, upto, max),
        open_sound(Layer::Background, s.bg_start, s.bg, cells, upto, max),
        open_sound(Layer::Foreground, s.fg_start, s.fg, cells, upto, max),
    ensures
        runs_sound(s.flush_all(ltr).out, cells, upto, max),
        s.flush_all(ltr).deferred.len() == 0,
        s.flush_all(ltr).bg.len() == 0,
        s.flush_all(ltr).fg.len() == 0,
        !s.flush_all(ltr).fg_over || s.fg.len() == 0,
{
    lemma_flush_bg_sound(s, ltr, cells, upto, max);
    let s1 = s.flush_bg(ltr);
    lemma_flush_fg_sound(s1, cells, upto, max);
    let s2 = s1.flush_fg();
    lemma_runs_sound_concat(s2.out, s2.deferred, cells, upto, max);
}

/// Adding to the background run keeps the state sound.
proof fn lemma_extend_bg_sound(s: SegState, t: Tile, x: int, max: int, ltr: bool, cells: Seq<Cell>)
    requires
        0 <= x,
        1 <= max,
        runs_sound(s.out, cells, x + 1, max),
        span_sound(Layer::Background, s.bg_start, s.bg, cells, x, max),
        s.bg_start + s.bg.len() == x,
        compatible(t, s.bg.last()),
        cells[x].bottom() == Some(t),
    ensures
        runs_sound(s.extend_bg(t, x, max, ltr).out, cells, x + 1, max),
        span_sound(
            Layer::Background,
            s.extend_bg(t, x, max, ltr).bg_start,
            s.extend_bg(t, x, max, ltr).bg,
            cells,
            x + 1,
            max,
        ),
        s.extend_bg(t, x, max, ltr).bg_start + s.extend_bg(t, x, max, ltr).bg.len() == x + 1,
{
    if s.bg.len() >= max {
        lemma_flush_bg_sound(s, ltr, cells, x + 1, max);
        lemma_unit_sound(Layer::Background, t, cells, x, max);
    } else {
        lemma_grow_sound(Layer::Background, s.bg_start, s.bg, t, cells, x, max);
    }
}

/// Adding to the foreground run keeps the state sound.
proof fn lemma_extend_fg_sound(s: SegState, t: Tile, x: int, max: int, over: bool, cells: Seq<Cell>)
    requires
        0 <= x,
        1 <= max,
        runs_sound(s.out, cells, x + 1, max),
        s.fg.len() > 0,
        fg_sound(s, cells, x, max),
        s.fg_start + s.fg.len() == x,
        compatible(t, s.fg.last()),
        cells[x].top() == Some(t),
        !over ==> cells[x].bottom() == Some(t),
    ensures
        runs_sound(s.extend_fg(t, x, max, over).out, cells, x + 1, max),
        s.extend_fg(t, x, max, over).fg.len() > 0,
        fg_sound(s.extend_fg(t, x, max, over), cells, x + 1, max),
        s.extend_fg(t, x, max, over).fg_start + s.extend_fg(t, x, max, over).fg.len() == x + 1,
{
    if s.fg.len() >= max {
        lemma_flush_fg_sound(s, cells, x + 1, max);
        lemma_unit_sound(Layer::Foreground, t, cells, x, max);
        if !over {
            lemma_unit_sound(Layer::Background, t, cells, x, max);
        }
    } else {
        lemma_grow_sound(Layer::Foreground, s.fg_start, s.fg, t, cells, x, max);
        if !(s.fg_over || over) {
            lemma_grow_sound(Layer::Background, s.fg_start, s.fg, t, cells, x, max);
        }
    }
}

/// Placing a tile in the foreground keeps the state sound.
proof fn lemma_put_fg_sound(s: SegState, t: Tile, x: int, max: int, over: bool, cells: Seq<Cell>)
    requires
        0 <= x,
        1 <= max,
        runs_sound(s.out, cells, x + 1, max),
        fg_sound(s, cells, x, max),
        ends_at(s.fg_start, s.fg, x),
        cells[x].top() == Some(t),
        !over ==> cells[x].bottom() == Some(t),
    ensures
        runs_sound(s.put_fg(t, x, max, over).out, cells, x + 1, max),
        s.put_fg(t, x, max, over).fg.len() > 0,
        fg_sound(s.put_fg(t, x, max, over), cells, x + 1, max),
        s.put_fg(t, x, max, over).fg_start + s.put_fg(t, x, max, over).fg.len() == x + 1,
        s.put_fg(t, x, max, over).bg == s.bg,
        s.put_fg(t, x, max, over).bg_start == s.bg_start,
        s.put_fg(t, x, max, over).deferred == s.deferred,
{
    if s.fg.len() > 0 && compatible(t, s.fg.last()) {
        lemma_extend_fg_sound(s, t, x, max, over, cells);
    } else {
        lemma_flush_fg_sound(s, cells, x + 1, max);
        lemma_unit_sound(Layer::Foreground, t, cells, x, max);
        if !over {
            lemma_unit_sound(Layer::Background, t, cells, x, max);
        }
    }
}

/// Placing a tile in the background keeps the state sound.
proof fn lemma_put_bg_sound(s: SegState, t: Tile, x: int, max: int, ltr: bool, cells: Seq<Cell>)
    requires
        0 <= x,
        1 <= max,
        runs_sound(s.out, cells, x + 1, max),
        open_sound(Layer::Background, s.bg_start, s.bg, cells, x, max),
        ends_at(s.bg_start, s.bg, x),
        cells[x].bottom() == Some(t),
    ensures
        runs_sound(s.put_bg(t, x, max, ltr).out, cells, x + 1, max),
        span_sound(
            Layer::Background,
            s.put_bg(t, x, max, ltr).bg_start,
            s.put_bg(t, x, max, ltr).bg,
            cells,
            x + 1,
            max,
        ),
        s.put_bg(t, x, max, ltr).bg_start + s.put_bg(t, x, max, ltr).bg.len() == x + 1,
        s.put_bg(t, x, max, ltr).fg == s.fg,
        s.put_bg(t, x, max, ltr).fg_start == s.fg_start,
        s.put_bg(t, x, max, ltr).fg_over == s.fg_over,
        s.put_bg(t, x, max, ltr).deferred == s.deferred,
{
    if s.bg.len() > 0 && compatible(t, s.bg.last()) {
        lemma_extend_bg_sound(s, t, x, max, ltr, cells);
    } else {
        lemma_flush_bg_sound(s, ltr, cells, x + 1, max);
        lemma_unit_sound(Layer::Background, t, cells, x, max);
    }
}

/// One transition keeps the state sound.
pub proof fn lemma_step_sound(s: SegState, cells: Seq<Cell>, x: int, max: int, ltr: bool)
    requires
        0 <= x < cells.len(),
        1 <= max,
        state_sound(s, cells, x, max),
    ensures
        state_sound(s.step(cells[x], x, max, ltr), cells, x + 1, max),
{
    lemma_runs_sound_later(s.out, cells, x, max);
    lemma_runs_sound_later(s.deferred, cells, x, max);
    let cell = cells[x];
    match cell {
        Cell::Empty => {
            lemma_flush_all_sound(s, ltr, cells, x + 1, max);
            assert(all_foreground(s.flush_all(ltr).deferred));
        },
        Cell::Orphan => {
            lemma_flush_bg_sound(s, ltr, cells, x + 1, max);
            lemma_flush_fg_sound(s.flush_bg(ltr), cells, x + 1, max);
        },
        Cell::Layered(b, t) => {
            let s1 = s.under(b, x, max, ltr);
            if s.bg.len() > 0 {
                lemma_put_bg_sound(s, b, x, max, ltr, cells);
            } else if s.fg.len() > 0 && compatible(b, s.fg.last()) && !s.fg_over {
                lemma_extend_bg_sound(s.absorb(), b, x, max, ltr, cells);
            } else {
                lemma_unit_sound(Layer::Background, b, cells, x, max);
                lemma_flush_fg_sound(s.start_bg(b, x), cells, x + 1, max);
            }
            lemma_put_fg_sound(s1, t, x, max, true, cells);
        },
        Cell::Single(t) => {
            if s.bg.len() == 0 {
                lemma_put_fg_sound(s, t, x, max, false, cells);
            } else if compatible(t, s.bg.last()) {
                lemma_extend_bg_sound(s, t, x, max, ltr, cells);
                lemma_defer_fg_sound(s.extend_bg(t, x, max, ltr), cells, x + 1, max);
            } else if s.fg.len() > 0 && compatible(t, s.fg.last()) {
                lemma_flush_bg_sound(s, ltr, cells, x + 1, max);
                lemma_extend_fg_sound(s.flush_bg(ltr), t, x, max, false, cells);
            } else {
                lemma_flush_bg_sound(s, ltr, cells, x + 1, max);
                lemma_flush_fg_sound(s.flush_bg(ltr), cells, x + 1, max);
                lemma_unit_sound(Layer::Background, t, cells, x, max);
            }
        },
    }
}

/// The state after any number of cells is sound.
pub proof fn lemma_scan_sound(cells: Seq<Cell>, n: int, max: int, ltr: bool)
    requires
        0 <= n <= cells.len(),
        1 <= max,
    ensures
        state_sound(scan(cells, n, max, ltr), cells, n, max),
    decreases n,
{
    if n > 0 {
        lemma_scan_sound(cells, n - 1, max, ltr);
        lemma_step_sound(scan(cells, n - 1, max, ltr), cells, n - 1, max, ltr);
    }
}

/// Every run of a row lies inside the row and holds between 1 and `max`
/// tiles that are compatible with one another. Each tile of a background
/// run is the bottom tile of the cell at its column, and each tile of a
/// foreground run the top tile: no run lays a tile under the background
/// that it lies over.
pub proof fn lemma_segment_sound(cells: Seq<Cell>, max: int, ltr: bool)
    requires
        1 <= max,
    ensures
        runs_sound(segment(cells, max, ltr), cells, cells.len() as int, max),
{
    let n = cells.len() as int;
    lemma_scan_sound(cells, n, max, ltr);
    lemma_flush_all_sound(scan(cells, n, max, ltr), ltr, cells, n, max);
}

/// No run is empty and none is longer than the configured maximum.
pub proof fn lemma_run_lengths_bounded(cells: Seq<Cell>, max: int, ltr: bool)
    requires
        1 <= max,
    ensures
        forall|i: int|
            0 <= i < segment(cells, max, ltr).len() ==> 1 <= (#[trigger] segment(
                cells,
                max,
                ltr,
            )[i]).len() <= max,
{
    lemma_segment_sound(cells, max, ltr);
    let runs = segment(cells, max, ltr);
    assert forall|i: int| 0 <= i < runs.len() implies 1 <= (#[trigger] runs[i]).len() <= max by {
        assert(run_sound(runs[i], cells, cells.len() as int, max));
    }
}

/// Where no tile of the cell left of column `k` is compatible with a tile
/// of the cell at `k`, no run continues across `k`: every run that reaches
/// column `k - 1` ends there.
pub proof fn lemma_boundary_respected(cells: Seq<Cell>, max: int, ltr: bool, k: int)
    requires
        1 <= max,
        0 < k < cells.len(),
        forall|a: Tile, b: Tile|
            holds(cells[k - 1], a) && holds(cells[k], b) ==> !compatible(a, b),
    ensures
        forall|i: int|
            0 <= i < segment(cells, max, ltr).len() ==> !((#[trigger] segment(
                cells,
                max,
                ltr,
            )[i]).covers(k - 1) && segment(cells, max, ltr)[i].covers(k)),
{
    lemma_segment_sound(cells, max, ltr);
    let runs = segment(cells, max, ltr);
    assert forall|i: int| 0 <= i < runs.len() implies !((#[trigger] runs[i]).covers(k - 1)
        && runs[i].covers(k)) by {
        let r = runs[i];
        assert(run_sound(r, cells, cells.len() as int, max));
        if r.covers(k - 1) && r.covers(k) {
            let a = r.tiles[k - 1 - r.start];
            let b = r.tiles[k - r.start];
            assert(layer_tile(cells[r.start + (k - 1 - r.start)], r.layer) == Some(a));
            assert(layer_tile(cells[r.start + (k - r.start)], r.layer) == Some(b));
            assert(holds(cells[k - 1], a));
            assert(holds(cells[k], b));
            assert(compatible(a, b));
        }
    }
}

/// A row in which no cell draws anything has no runs.
pub proof fn lemma_blank_row(cells: Seq<Cell>, max: int, ltr: bool)
    requires
        forall|x: int| 0 <= x < cells.len() ==> !(#[trigger] cells[x]).drawn(),
    ensures
        segment(cells, max, ltr) == Seq::<RunView>::empty(),
{
    lemma_blank_scan(cells, cells.len() as int, max, ltr);
    assert(SegState::init().flush_all(ltr).out =~= Seq::<RunView>::empty());
}

proof fn lemma_blank_scan(cells: Seq<Cell>, n: int, max: int, ltr: bool)
    requires
        0 <= n <= cells.len(),
        forall|x: int| 0 <= x < cells.len() ==> !(#[trigger] cells[x]).drawn(),
    ensures
        scan(cells, n, max, ltr) == SegState::init(),
    decreases n,
{
    if n > 0 {
        lemma_blank_scan(cells, n - 1, max, ltr);
        assert(!cells[n - 1].drawn());
        let s = SegState::init();
        assert(s.flush_all(ltr).out =~= Seq::<RunView>::empty());
        assert(s.flush_all(ltr).deferred =~= Seq::<RunView>::empty());
    }
}

/// No foreground run is listed before a background run.
pub open spec fn backgrounds_first(runs: Seq<RunView>) -> bool {
    forall|i: int, j: int|
        0 <= i < j < runs.len() ==> !((#[trigger] runs[i]).layer == Layer::Foreground
            && (#[trigger] runs[j]).layer == Layer::Background)
}

/// The finished runs list backgrounds first and every deferred run is a
/// foreground run.
pub open spec fn state_ordered(s: SegState) -> bool {
    backgrounds_first(s.out) && all_foreground(s.deferred)
}

proof fn lemma_ordered_front(r: RunView, runs: Seq<RunView>)
    requires
        backgrounds_first(runs),
        r.layer == Layer::Background,
    ensures
        backgrounds_first(seq![r] + runs),
{
    let all = seq![r] + runs;
    assert forall|i: int, j: int| 0 <= i < j < all.len() implies !((#[trigger] all[i]).layer
        == Layer::Foreground && (#[trigger] all[j]).layer == Layer::Background) by {
        if i > 0 {
            assert(all[i] == runs[i - 1]);
            assert(all[j] == runs[j - 1]);
        }
    }
}

proof fn lemma_ordered_push(runs: Seq<RunView>, r: RunView)
    requires
        backgrounds_first(runs),
        r.layer == Layer::Foreground,
    ensures
        backgrounds_first(runs.push(r)),
{
    let all = runs.push(r);
    assert forall|i: int, j: int| 0 <= i < j < all.len() implies !((#[trigger] all[i]).layer
        == Layer::Foreground && (#[trigger] all[j]).layer == Layer::Background) by {
        if j < runs.len() {
            assert(all[i] == runs[i]);
            assert(all[j] == runs[j]);
        }
    }
}

proof fn lemma_ordered_concat(runs: Seq<RunView>, more: Seq<RunView>)
    requires
        backgrounds_first(runs),
        all_foreground(more),
    ensures
        backgrounds_first(runs + more),
{
    let all = runs + more;
    assert forall|i: int, j: int| 0 <= i < j < all.len() implies !((#[trigger] all[i]).layer
        == Layer::Foreground && (#[trigger] all[j]).layer == Layer::Background) by {
        if j < runs.len() {
            assert(all[i] == runs[i]);
            assert(all[j] == runs[j]);
        } else {
            assert(all[j] == more[j - runs.len()]);
        }
    }
}

proof fn lemma_ordered_flush_bg(s: SegState)
    requires
        state_ordered(s),
    ensures
        state_ordered(s.flush_bg(false)),
{
    if s.bg.len() > 0 {
        lemma_ordered_front(s.bg_run(), s.out);
    }
}

proof fn lemma_ordered_flush_fg(s: SegState)
    requires
        state_ordered(s),
    ensures
        state_ordered(s.flush_fg()),
{
    if s.fg.len() > 0 {
        lemma_ordered_push(s.out, s.fg_run());
    }
}

proof fn lemma_ordered_defer_fg(s: SegState)
    requires
        state_ordered(s),
    ensures
        state_ordered(s.defer_fg()),
{
    if s.fg.len() > 0 {
        let d = s.deferred.push(s.fg_run());
        assert forall|i: int| 0 <= i < d.len() implies (#[trigger] d[i]).layer
            == Layer::Foreground by {
            if i < s.deferred.len() {
                assert(d[i] == s.deferred[i]);
            }
        }
    }
}

proof fn lemma_ordered_flush_all(s: SegState)
    requires
        state_ordered(s),
    ensures
        state_ordered(s.flush_all(false)),
{
    lemma_ordered_flush_bg(s);
    lemma_ordered_flush_fg(s.flush_bg(false));
    let s2 = s.flush_bg(false).flush_fg();
    lemma_ordered_concat(s2.out, s2.deferred);
}

proof fn lemma_ordered_extend_bg(s: SegState, t: Tile, x: int, max: int)
    requires
        state_ordered(s),
    ensures
        state_ordered(s.extend_bg(t, x, max, false)),
{
    lemma_ordered_flush_bg(s);
}

proof fn lemma_ordered_put_bg(s: SegState, t: Tile, x: int, max: int)
    requires
        state_ordered(s),
    ensures
        state_ordered(s.put_bg(t, x, max, false)),
{
    lemma_ordered_flush_bg(s);
}

proof fn lemma_ordered_extend_fg(s: SegState, t: Tile, x: int, max: int, over: bool)
    requires
        state_ordered(s),
    ensures
        state_ordered(s.extend_fg(t, x, max, over)),
{
    lemma_ordered_flush_fg(s);
}

proof fn lemma_ordered_put_fg(s: SegState, t: Tile, x: int, max: int, over: bool)
    requires
        state_ordered(s),
    ensures
        state_ordered(s.put_fg(t, x, max, over)),
{
    lemma_ordered_flush_fg(s);
}

/// Under the default policy one transition keeps backgrounds first.
pub proof fn lemma_step_ordered(s: SegState, cell: Cell, x: int, max: int)
    requires
        state_ordered(s),
    ensures
        state_ordered(s.step(cell, x, max, false)),
{
    match cell {
        Cell::Empty => {
            lemma_ordered_flush_all(s);
        },
        Cell::Orphan => {
            lemma_ordered_flush_bg(s);
            lemma_ordered_flush_fg(s.flush_bg(false));
        },
        Cell::Layered(b, t) => {
            let s1 = s.under(b, x, max, false);
            if s.bg.len() > 0 {
                lemma_ordered_put_bg(s, b, x, max);
            } else if s.fg.len() > 0 && compatible(b, s.fg.last()) && !s.fg_over {
                lemma_ordered_extend_bg(s.absorb(), b, x, max);
            } else {
                lemma_ordered_flush_fg(s.start_bg(b, x));
            }
            lemma_ordered_put_fg(s1, t, x, max, true);
        },
        Cell::Single(t) => {
            if s.bg.len() == 0 {
                lemma_ordered_put_fg(s, t, x, max, false);
            } else if compatible(t, s.bg.last()) {
                lemma_ordered_extend_bg(s, t, x, max);
                lemma_ordered_defer_fg(s.extend_bg(t, x, max, false));
            } else if s.fg.len() > 0 && compatible(t, s.fg.last()) {
                lemma_ordered_flush_bg(s);
                lemma_ordered_extend_fg(s.flush_bg(false), t, x, max, false);
            } else {
                lemma_ordered_flush_bg(s);
                lemma_ordered_flush_fg(s.flush_bg(false));
            }
        },
    }
}

proof fn lemma_scan_ordered(cells: Seq<Cell>, n: int, max: int)
    ensures
        state_ordered(scan(cells, n, max, false)),
    decreases n,
{
    if n > 0 {
        lemma_scan_ordered(cells, n - 1, max);
        lemma_step_ordered(scan(cells, n - 1, max, false), cells[n - 1], n - 1, max);
    }
}

/// Under the default policy every background run of a row is listed
/// before every foreground run.
pub proof fn lemma_backgrounds_first(cells: Seq<Cell>, max: int)
    ensures
        backgrounds_first(segment(cells, max, false)),
{
    lemma_scan_ordered(cells, cells.len() as int, max);
    lemma_ordered_flush_all(scan(cells, cells.len() as int, max, false));
}

/// Draw order: under the default policy, the run that lays the background
/// tile of a layered cell is listed before the run that lays the tile over
/// it, so that the tile over it is drawn later.
pub proof fn lemma_draw_order(cells: Seq<Cell>, max: int, x: int, i: int, j: int)
    requires
        1 <= max,
        0 <= x < cells.len(),
        cells[x] is Layered,
        cells[x].bottom() != cells[x].top(),
        0 <= i < segment(cells, max, false).len(),
        0 <= j < segment(cells, max, false).len(),
        segment(cells, max, false)[i].covers(x),
        segment(cells, max, false)[j].covers(x),
        Some(segment(cells, max, false)[i].tiles[x - segment(cells, max, false)[i].start])
            == cells[x].bottom(),
        Some(segment(cells, max, false)[j].tiles[x - segment(cells, max, false)[j].start])
            == cells[x].top(),
    ensures
        i < j,
        segment(cells, max, false)[i].layer == Layer::Background,
        segment(cells, max, false)[j].layer == Layer::Foreground,
{
    let runs = segment(cells, max, false);
    lemma_segment_sound(cells, max, false);
    lemma_backgrounds_first(cells, max);
    assert(run_sound(runs[i], cells, cells.len() as int, max));
    assert(run_sound(runs[j], cells, cells.len() as int, max));
    let b = runs[i].tiles[x - runs[i].start];
    let t = runs[j].tiles[x - runs[j].start];
    assert(layer_tile(cells[runs[i].start + (x - runs[i].start)], runs[i].layer) == Some(b));
    assert(layer_tile(cells[runs[j].start + (x - runs[j].start)], runs[j].layer) == Some(t));
}

} // verus!
