//! The exact cover: the runs of a row place every tile of every drawn cell
//! at its column, once each, and nothing else.

use crate::segment::{scan, segment, SegState};
use crate::segment_proofs::{
    ends_at, holds, layer_tile, lemma_scan_sound, lemma_segment_sound, run_sound,
};
use crate::tile::{Cell, RunView, Tile};
use vstd::multiset::Multiset;
use vstd::prelude::*;

verus! {

/// A tile at a column.
pub type Placed = (int, Tile);

/// The tiles that a span lays down, each with its column.
pub open spec fn span_placed(start: int, tiles: Seq<Tile>) -> Multiset<Placed>
    decreases tiles.len(),
{
    if tiles.len() == 0 {
        Multiset::empty()
    } else {
        span_placed(start, tiles.drop_last()).insert((start + tiles.len() - 1, tiles.last()))
    }
}

/// The tiles that a list of runs lays down, each with its column.
pub open spec fn runs_placed(runs: Seq<RunView>) -> Multiset<Placed>
    decreases runs.len(),
{
    if runs.len() == 0 {
        Multiset::empty()
    } else {
        runs_placed(runs.drop_last()).add(span_placed(runs.last().start, runs.last().tiles))
    }
}

/// The tiles that the cell at column `x` asks for.
pub open spec fn cell_placed(cell: Cell, x: int) -> Multiset<Placed> {
    match cell {
        Cell::Single(t) => Multiset::singleton((x, t)),
        Cell::Layered(b, t) => Multiset::singleton((x, b)).insert((x, t)),
        _ => Multiset::empty(),
    }
}

/// The tiles that the first `n` cells of a row ask for.
pub open spec fn row_placed(cells: Seq<Cell>, n: int) -> Multiset<Placed>
    decreases n,
{
    if n <= 0 {
        Multiset::empty()
    } else {
        row_placed(cells, n - 1).add(cell_placed(cells[n - 1], n - 1))
    }
}

/// Everything a state has taken in: finished, in progress and deferred.
pub open spec fn state_placed(s: SegState) -> Multiset<Placed> {
    runs_placed(s.out).add(span_placed(s.bg_start, s.bg)).add(
        span_placed(s.fg_start, s.fg),
    ).add(runs_placed(s.deferred))
}

proof fn lemma_span_placed_push(start: int, tiles: Seq<Tile>, t: Tile)
    ensures
        span_placed(start, tiles.push(t)) == span_placed(start, tiles).insert(
            (start + tiles.len(), t),
        ),
{
    assert(tiles.push(t).drop_last() =~= tiles);
}

proof fn lemma_span_placed_unit(x: int, t: Tile)
    ensures
        span_placed(x, seq![t]) =~= Multiset::singleton((x, t)),
{
    assert(seq![t].drop_last() =~= Seq::<Tile>::empty());
    assert(span_placed(x, seq![t].drop_last()) =~= Multiset::empty());
}

proof fn lemma_runs_placed_push(runs: Seq<RunView>, r: RunView)
    ensures
        runs_placed(runs.push(r)) == runs_placed(runs).add(span_placed(r.start, r.tiles)),
{
    assert(runs.push(r).drop_last() =~= runs);
}

/// Two lists of runs, one after the other, lay down what each lays down.
pub proof fn lemma_runs_placed_concat(a: Seq<RunView>, b: Seq<RunView>)
    ensures
        runs_placed(a + b) =~= runs_placed(a).add(runs_placed(b)),
    decreases b.len(),
{
    if b.len() == 0 {
        assert(a + b =~= a);
    } else {
        lemma_runs_placed_concat(a, b.drop_last());
        assert((a + b).drop_last() =~= a + b.drop_last());
        assert((a + b).last() == b.last());
    }
}

proof fn lemma_runs_placed_front(r: RunView, a: Seq<RunView>)
    ensures
        runs_placed(seq![r] + a) =~= runs_placed(a).add(span_placed(r.start, r.tiles)),
{
    lemma_runs_placed_concat(seq![r], a);
    assert(seq![r].drop_last().len() == 0);
    assert(runs_placed(seq![r].drop_last()) =~= Multiset::empty());
    assert(seq![r].last() == r);
    assert(runs_placed(seq![r]) =~= span_placed(r.start, r.tiles));
}

proof fn lemma_placed_flush_bg(s: SegState, ltr: bool)
    ensures
        state_placed(s.flush_bg(ltr)) =~= state_placed(s),
{
    if s.bg.len() > 0 {
        if ltr {
            lemma_runs_placed_push(s.out, s.bg_run());
        } else {
            lemma_runs_placed_front(s.bg_run(), s.out);
        }
    }
}

proof fn lemma_placed_flush_fg(s: SegState)
    ensures
        state_placed(s.flush_fg()) =~= state_placed(s),
{
    if s.fg.len() > 0 {
        lemma_runs_placed_push(s.out, s.fg_run());
    }
}

proof fn lemma_placed_defer_fg(s: SegState)
    ensures
        state_placed(s.defer_fg()) =~= state_placed(s),
{
    if s.fg.len() > 0 {
        lemma_runs_placed_push(s.deferred, s.fg_run());
    }
}

proof fn lemma_placed_flush_deferred(s: SegState)
    ensures
        state_placed(s.flush_deferred()) =~= state_placed(s),
{
    lemma_runs_placed_concat(s.out, s.deferred);
}

proof fn lemma_placed_flush_all(s: SegState, ltr: bool)
    ensures
        state_placed(s.flush_all(ltr)) =~= state_placed(s),
        runs_placed(s.flush_all(ltr).out) =~= state_placed(s),
{
    lemma_placed_flush_bg(s, ltr);
    lemma_placed_flush_fg(s.flush_bg(ltr));
    lemma_placed_flush_deferred(s.flush_bg(ltr).flush_fg());
}

proof fn lemma_placed_start_bg(s: SegState, t: Tile, x: int)
    requires
        s.bg.len() == 0,
    ensures
        state_placed(s.start_bg(t, x)) =~= state_placed(s).insert((x, t)),
{
    lemma_span_placed_unit(x, t);
}

proof fn lemma_placed_start_fg(s: SegState, t: Tile, x: int, over: bool)
    requires
        s.fg.len() == 0,
    ensures
        state_placed(s.start_fg(t, x, over)) =~= state_placed(s).insert((x, t)),
{
    lemma_span_placed_unit(x, t);
}

proof fn lemma_placed_extend_bg(s: SegState, t: Tile, x: int, max: int, ltr: bool)
    requires
        s.bg.len() > 0,
        s.bg_start + s.bg.len() == x,
    ensures
        state_placed(s.extend_bg(t, x, max, ltr)) =~= state_placed(s).insert((x, t)),
{
    if s.bg.len() >= max {
        lemma_placed_flush_bg(s, ltr);
        lemma_placed_start_bg(s.flush_bg(ltr), t, x);
    } else {
        lemma_span_placed_push(s.bg_start, s.bg, t);
    }
}

proof fn lemma_placed_extend_fg(s: SegState, t: Tile, x: int, max: int, over: bool)
    requires
        s.fg.len() > 0,
        s.fg_start + s.fg.len() == x,
    ensures
        state_placed(s.extend_fg(t, x, max, over)) =~= state_placed(s).insert((x, t)),
{
    if s.fg.len() >= max {
        lemma_placed_flush_fg(s);
        lemma_placed_start_fg(s.flush_fg(), t, x, over);
    } else {
        lemma_span_placed_push(s.fg_start, s.fg, t);
    }
}

proof fn lemma_placed_put_bg(s: SegState, t: Tile, x: int, max: int, ltr: bool)
    requires
        ends_at(s.bg_start, s.bg, x),
    ensures
        state_placed(s.put_bg(t, x, max, ltr)) =~= state_placed(s).insert((x, t)),
{
    if s.bg.len() > 0 && crate::tile::compatible(t, s.bg.last()) {
        lemma_placed_extend_bg(s, t, x, max, ltr);
    } else {
        lemma_placed_flush_bg(s, ltr);
        lemma_placed_start_bg(s.flush_bg(ltr), t, x);
    }
}

proof fn lemma_placed_put_fg(s: SegState, t: Tile, x: int, max: int, over: bool)
    requires
        ends_at(s.fg_start, s.fg, x),
    ensures
        state_placed(s.put_fg(t, x, max, over)) =~= state_placed(s).insert((x, t)),
{
    if s.fg.len() > 0 && crate::tile::compatible(t, s.fg.last()) {
        lemma_placed_extend_fg(s, t, x, max, over);
    } else {
        lemma_placed_flush_fg(s);
        lemma_placed_start_fg(s.flush_fg(), t, x, over);
    }
}

proof fn lemma_placed_under(s: SegState, b: Tile, x: int, max: int, ltr: bool)
    requires
        ends_at(s.bg_start, s.bg, x),
        ends_at(s.fg_start, s.fg, x),
    ensures
        state_placed(s.under(b, x, max, ltr)) =~= state_placed(s).insert((x, b)),
        ends_at(s.under(b, x, max, ltr).fg_start, s.under(b, x, max, ltr).fg, x),
{
    if s.bg.len() > 0 {
        lemma_placed_put_bg(s, b, x, max, ltr);
    } else if s.fg.len() > 0 && crate::tile::compatible(b, s.fg.last()) && !s.fg_over {
        assert(state_placed(s.absorb()) =~= state_placed(s));
        lemma_placed_extend_bg(s.absorb(), b, x, max, ltr);
    } else {
        lemma_placed_start_bg(s, b, x);
        lemma_placed_flush_fg(s.start_bg(b, x));
    }
}

proof fn lemma_placed_single(s: SegState, t: Tile, x: int, max: int, ltr: bool)
    requires
        ends_at(s.bg_start, s.bg, x),
        ends_at(s.fg_start, s.fg, x),
    ensures
        state_placed(s.single(t, x, max, ltr)) =~= state_placed(s).insert((x, t)),
{
    if s.bg.len() == 0 {
        lemma_placed_put_fg(s, t, x, max, false);
    } else if crate::tile::compatible(t, s.bg.last()) {
        lemma_placed_extend_bg(s, t, x, max, ltr);
        lemma_placed_defer_fg(s.extend_bg(t, x, max, ltr));
    } else if s.fg.len() > 0 && crate::tile::compatible(t, s.fg.last()) {
        lemma_placed_flush_bg(s, ltr);
        lemma_placed_extend_fg(s.flush_bg(ltr), t, x, max, false);
    } else {
        lemma_placed_flush_bg(s, ltr);
        lemma_placed_flush_fg(s.flush_bg(ltr));
        lemma_placed_start_bg(s.flush_bg(ltr).flush_fg(), t, x);
    }
}

/// One transition takes in exactly the tiles of its cell.
pub proof fn lemma_placed_step(s: SegState, cell: Cell, x: int, max: int, ltr: bool)
    requires
        ends_at(s.bg_start, s.bg, x),
        ends_at(s.fg_start, s.fg, x),
    ensures
        state_placed(s.step(cell, x, max, ltr)) =~= state_placed(s).add(cell_placed(cell, x)),
{
    match cell {
        Cell::Empty => {
            lemma_placed_flush_all(s, ltr);
        },
        Cell::Orphan => {
            lemma_placed_flush_bg(s, ltr);
            lemma_placed_flush_fg(s.flush_bg(ltr));
        },
        Cell::Layered(b, t) => {
            lemma_placed_under(s, b, x, max, ltr);
            lemma_placed_put_fg(s.under(b, x, max, ltr), t, x, max, true);
        },
        Cell::Single(t) => {
            lemma_placed_single(s, t, x, max, ltr);
        },
    }
}

proof fn lemma_placed_scan(cells: Seq<Cell>, n: int, max: int, ltr: bool)
    requires
        0 <= n <= cells.len(),
        1 <= max,
    ensures
        state_placed(scan(cells, n, max, ltr)) =~= row_placed(cells, n),
    decreases n,
{
    if n > 0 {
        lemma_placed_scan(cells, n - 1, max, ltr);
        lemma_scan_sound(cells, n - 1, max, ltr);
        lemma_placed_step(scan(cells, n - 1, max, ltr), cells[n - 1], n - 1, max, ltr);
    }
}

/// The runs of a row lay down exactly the tiles that its cells ask for:
/// every tile of every drawn cell at its column, as often as the cell holds
/// it, and nothing else.
pub proof fn lemma_exact_cover(cells: Seq<Cell>, max: int, ltr: bool)
    requires
        1 <= max,
    ensures
        runs_placed(segment(cells, max, ltr)) == row_placed(cells, cells.len() as int),
{
    let n = cells.len() as int;
    lemma_placed_scan(cells, n, max, ltr);
    lemma_placed_flush_all(scan(cells, n, max, ltr), ltr);
    assert(runs_placed(segment(cells, max, ltr)) =~= row_placed(cells, n));
}

/// How often a span lays tile `t` at column `c`: once where the span holds
/// `t` at that column, never otherwise.
pub proof fn lemma_span_count(start: int, tiles: Seq<Tile>, c: int, t: Tile)
    ensures
        span_placed(start, tiles).count((c, t)) == if start <= c < start + tiles.len() && tiles[c
            - start] == t {
            1nat
        } else {
            0nat
        },
    decreases tiles.len(),
{
    if tiles.len() > 0 {
        lemma_span_count(start, tiles.drop_last(), c, t);
        if c < start + tiles.len() - 1 && start <= c {
            assert(tiles.drop_last()[c - start] == tiles[c - start]);
        }
    }
}

/// What a list of runs lays at a place is at least what one of its runs
/// lays there.
proof fn lemma_runs_count_one(runs: Seq<RunView>, i: int, e: Placed)
    requires
        0 <= i < runs.len(),
    ensures
        runs_placed(runs).count(e) >= span_placed(runs[i].start, runs[i].tiles).count(e),
    decreases runs.len(),
{
    if i < runs.len() - 1 {
        lemma_runs_count_one(runs.drop_last(), i, e);
    }
}

/// What a list of runs lays at a place is at least what two different runs
/// of it lay there together.
proof fn lemma_runs_count_two(runs: Seq<RunView>, i: int, j: int, e: Placed)
    requires
        0 <= i < j < runs.len(),
    ensures
        runs_placed(runs).count(e) >= span_placed(runs[i].start, runs[i].tiles).count(e)
            + span_placed(runs[j].start, runs[j].tiles).count(e),
    decreases runs.len(),
{
    if j < runs.len() - 1 {
        lemma_runs_count_two(runs.drop_last(), i, j, e);
    } else {
        lemma_runs_count_one(runs.drop_last(), i, e);
    }
}

/// Whatever a list of runs lays somewhere, one of its runs lays there.
proof fn lemma_runs_count_witness(runs: Seq<RunView>, e: Placed) -> (i: int)
    requires
        runs_placed(runs).count(e) > 0,
    ensures
        0 <= i < runs.len(),
        span_placed(runs[i].start, runs[i].tiles).count(e) > 0,
    decreases runs.len(),
{
    if span_placed(runs.last().start, runs.last().tiles).count(e) > 0 {
        runs.len() - 1
    } else {
        lemma_runs_count_witness(runs.drop_last(), e)
    }
}

/// What the cells of a row ask for at a place is what the cell at that
/// column asks for.
pub proof fn lemma_row_count(cells: Seq<Cell>, n: int, c: int, t: Tile)
    requires
        0 <= n,
    ensures
        row_placed(cells, n).count((c, t)) == if 0 <= c < n {
            cell_placed(cells[c], c).count((c, t))
        } else {
            0nat
        },
    decreases n,
{
    if n > 0 {
        lemma_row_count(cells, n - 1, c, t);
    }
}

/// Every tile that a drawn cell holds lies in some run, at the cell's
/// column: the runs leave no gap.
pub proof fn lemma_cover_complete(cells: Seq<Cell>, max: int, ltr: bool, c: int, t: Tile) -> (i:
    int)
    requires
        1 <= max,
        0 <= c < cells.len(),
        holds(cells[c], t),
    ensures
        0 <= i < segment(cells, max, ltr).len(),
        segment(cells, max, ltr)[i].covers(c),
        segment(cells, max, ltr)[i].tiles[c - segment(cells, max, ltr)[i].start] == t,
{
    let runs = segment(cells, max, ltr);
    lemma_exact_cover(cells, max, ltr);
    lemma_row_count(cells, cells.len() as int, c, t);
    assert(cell_placed(cells[c], c).count((c, t)) > 0);
    let i = lemma_runs_count_witness(runs, (c, t));
    lemma_span_count(runs[i].start, runs[i].tiles, c, t);
    i
}

/// In a row without layered cells no two runs share a column: the runs do
/// not overlap.
pub proof fn lemma_no_overlap(cells: Seq<Cell>, max: int, ltr: bool, i: int, j: int, c: int)
    requires
        1 <= max,
        forall|x: int| 0 <= x < cells.len() ==> !((#[trigger] cells[x]) is Layered),
        0 <= i < j < segment(cells, max, ltr).len(),
    ensures
        !(segment(cells, max, ltr)[i].covers(c) && segment(cells, max, ltr)[j].covers(c)),
{
    let runs = segment(cells, max, ltr);
    if runs[i].covers(c) && runs[j].covers(c) {
        lemma_segment_sound(cells, max, ltr);
        assert(run_sound(runs[i], cells, cells.len() as int, max));
        assert(run_sound(runs[j], cells, cells.len() as int, max));
        let ti = runs[i].tiles[c - runs[i].start];
        let tj = runs[j].tiles[c - runs[j].start];
        assert(layer_tile(cells[runs[i].start + (c - runs[i].start)], runs[i].layer) == Some(ti));
        assert(layer_tile(cells[runs[j].start + (c - runs[j].start)], runs[j].layer) == Some(tj));
        assert(!(cells[c] is Layered));
        assert(ti == tj);
        lemma_span_count(runs[i].start, runs[i].tiles, c, ti);
        lemma_span_count(runs[j].start, runs[j].tiles, c, ti);
        lemma_runs_count_two(runs, i, j, (c, ti));
        lemma_exact_cover(cells, max, ltr);
        lemma_row_count(cells, cells.len() as int, c, ti);
        assert(cell_placed(cells[c], c).count((c, ti)) == 1);
    }
}

} // verus!
