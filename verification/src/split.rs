//! A row that holds one stretch of compatible single tiles is cut into
//! chunks of the maximum length, the last one holding the rest.

use crate::segment::{scan, segment, SegState};
use crate::segment_proofs::uniform;
use crate::tile::{Cell, Layer, RunView, Tile};
use vstd::prelude::*;

verus! {

/// The `j`-th chunk of `tiles` laid from column `a` on: `max` tiles from
/// offset `j * max`, or those that are left.
pub open spec fn chunk(a: int, tiles: Seq<Tile>, max: int, j: int) -> RunView {
    let lo = j * max;
    let hi = if lo + max <= tiles.len() {
        lo + max
    } else {
        tiles.len() as int
    };
    RunView { layer: Layer::Foreground, start: a + lo, tiles: tiles.subrange(lo, hi) }
}

/// The first `k` chunks, in order.
pub open spec fn chunks(a: int, tiles: Seq<Tile>, max: int, k: int) -> Seq<RunView> {
    Seq::new(k as nat, |j: int| chunk(a, tiles, max, j))
}

/// The row draws `tiles`, one per cell, from column `a` on, and nothing
/// anywhere else.
pub open spec fn lone_stretch(cells: Seq<Cell>, a: int, tiles: Seq<Tile>) -> bool {
    &&& 0 <= a
    &&& a + tiles.len() <= cells.len()
    &&& forall|x: int|
        0 <= x < cells.len() ==> if a <= x < a + tiles.len() {
            #[trigger] cells[x] == Cell::Single(tiles[x - a])
        } else {
            !cells[x].drawn()
        }
}

proof fn lemma_blank_prefix(cells: Seq<Cell>, n: int, max: int, ltr: bool)
    requires
        0 <= n <= cells.len(),
        forall|x: int| 0 <= x < n ==> !(#[trigger] cells[x]).drawn(),
    ensures
        scan(cells, n, max, ltr) == SegState::init(),
    decreases n,
{
    if n > 0 {
        lemma_blank_prefix(cells, n - 1, max, ltr);
        assert(!cells[n - 1].drawn());
        let s = SegState::init();
        assert(s.flush_all(ltr).out =~= Seq::<RunView>::empty());
        assert(s.flush_all(ltr).deferred =~= Seq::<RunView>::empty());
    }
}

/// The state after `c` tiles of the stretch: `q` full chunks are finished
/// and the rest is the foreground run in progress.
proof fn lemma_stretch_scan(cells: Seq<Cell>, a: int, tiles: Seq<Tile>, max: int, ltr: bool, c: int)
    -> (q: int)
    requires
        1 <= max,
        lone_stretch(cells, a, tiles),
        uniform(tiles),
        1 <= c <= tiles.len(),
    ensures
        0 <= q,
        q * max < c <= q * max + max,
        scan(cells, a + c, max, ltr).out == chunks(a, tiles, max, q),
        scan(cells, a + c, max, ltr).bg == Seq::<Tile>::empty(),
        scan(cells, a + c, max, ltr).deferred == Seq::<RunView>::empty(),
        scan(cells, a + c, max, ltr).fg == tiles.subrange(q * max, c),
        scan(cells, a + c, max, ltr).fg_start == a + q * max,
        !scan(cells, a + c, max, ltr).fg_over,
    decreases c,
{
    let x = a + c - 1;
    let t = tiles[c - 1];
    assert(cells[x] == Cell::Single(tiles[x - a]));
    if c == 1 {
        assert forall|y: int| 0 <= y < a implies !(#[trigger] cells[y]).drawn() by {}
        lemma_blank_prefix(cells, a, max, ltr);
        let s = SegState::init();
        let s1 = s.step(cells[x], x, max, ltr);
        assert(s1.fg =~= tiles.subrange(0, 1));
        assert(s1.out =~= chunks(a, tiles, max, 0));
        assert(0 * max == 0) by (nonlinear_arith);
        0
    } else {
        let q = lemma_stretch_scan(cells, a, tiles, max, ltr, c - 1);
        let s = scan(cells, a + c - 1, max, ltr);
        let s1 = s.step(cells[x], x, max, ltr);
        assert(s.fg.last() == tiles[c - 2]);
        assert(crate::tile::compatible(tiles[c - 1], tiles[c - 2]));
        assert((q + 1) * max == q * max + max) by (nonlinear_arith);
        if s.fg.len() >= max {
            assert(c - 1 == q * max + max);
            assert(s.fg_run() == chunk(a, tiles, max, q));
            assert(s1.out =~= chunks(a, tiles, max, q + 1));
            assert(s1.fg =~= tiles.subrange((q + 1) * max, c));
            q + 1
        } else {
            assert(s1.fg =~= tiles.subrange(q * max, c));
            q
        }
    }
}

/// Cells that draw nothing leave a state with nothing in progress as it is.
proof fn lemma_blank_suffix(cells: Seq<Cell>, from: int, n: int, max: int, ltr: bool)
    requires
        0 <= from <= n <= cells.len(),
        forall|x: int| from <= x < n ==> !(#[trigger] cells[x]).drawn(),
        scan(cells, from, max, ltr).bg.len() == 0,
        scan(cells, from, max, ltr).fg.len() == 0,
        scan(cells, from, max, ltr).deferred.len() == 0,
    ensures
        scan(cells, n, max, ltr).out == scan(cells, from, max, ltr).out,
        scan(cells, n, max, ltr).bg.len() == 0,
        scan(cells, n, max, ltr).fg.len() == 0,
        scan(cells, n, max, ltr).deferred.len() == 0,
    decreases n - from,
{
    if n > from {
        lemma_blank_suffix(cells, from, n - 1, max, ltr);
        assert(!cells[n - 1].drawn());
        let s = scan(cells, n - 1, max, ltr);
        assert(s.flush_all(ltr).out =~= s.out);
        assert(s.flush_all(ltr).deferred =~= Seq::<RunView>::empty());
    }
}

/// A row whose only drawn cells are one stretch of `n` compatible single
/// tiles is carved into `k` runs, where `k` is `n / max` rounded up: run
/// `j` starts `j * max` columns into the stretch and holds `max` tiles, the
/// last one what is left. The runs follow one another without gap or
/// overlap, and their lengths add up to `n`.
pub proof fn lemma_stretch_split(cells: Seq<Cell>, a: int, tiles: Seq<Tile>, max: int, ltr: bool)
    -> (k: int)
    requires
        1 <= max,
        1 <= tiles.len(),
        lone_stretch(cells, a, tiles),
        uniform(tiles),
    ensures
        (k - 1) * max < tiles.len() <= k * max,
        k == (tiles.len() + max - 1) / max,
        segment(cells, max, ltr) == chunks(a, tiles, max, k),
{
    let n = tiles.len() as int;
    let q = lemma_stretch_scan(cells, a, tiles, max, ltr, n);
    let k = q + 1;
    assert((q + 1) * max == q * max + max) by (nonlinear_arith);
    assert(k == (n + max - 1) / max) by (nonlinear_arith)
        requires
            1 <= max,
            (k - 1) * max < n <= k * max,
    ;
    let s = scan(cells, a + n, max, ltr);
    assert(s.fg_run() == chunk(a, tiles, max, q));
    let end = cells.len() as int;
    if a + n < end {
        let x = a + n;
        assert(!cells[x].drawn());
        let s1 = scan(cells, x + 1, max, ltr);
        assert(s1 == s.step(cells[x], x, max, ltr));
        assert(s1.out =~= chunks(a, tiles, max, k));
        assert forall|y: int| x + 1 <= y < end implies !(#[trigger] cells[y]).drawn() by {}
        lemma_blank_suffix(cells, x + 1, end, max, ltr);
        let s2 = scan(cells, end, max, ltr);
        assert(s2.flush_all(ltr).out =~= s2.out);
    } else {
        assert(s.flush_all(ltr).out =~= chunks(a, tiles, max, k));
    }
    k
}

/// The chunks of a stretch follow one another: each starts where the one
/// before it ends, the first at the start of the stretch, and the last
/// ends where the stretch ends.
pub proof fn lemma_chunks_partition(a: int, tiles: Seq<Tile>, max: int, k: int, j: int)
    requires
        1 <= max,
        1 <= k,
        (k - 1) * max < tiles.len() <= k * max,
        0 <= j < k,
    ensures
        chunk(a, tiles, max, j).start == a + j * max,
        1 <= chunk(a, tiles, max, j).len() <= max,
        j + 1 < k ==> chunk(a, tiles, max, j).end() == chunk(a, tiles, max, j + 1).start,
        j + 1 < k ==> chunk(a, tiles, max, j).len() == max,
        j + 1 == k ==> chunk(a, tiles, max, j).end() == a + tiles.len(),
        chunk(a, tiles, max, 0).start == a,
{
    assert((j + 1) * max == j * max + max) by (nonlinear_arith);
    assert(0 * max == 0) by (nonlinear_arith);
    assert(j * max <= (k - 1) * max) by (nonlinear_arith)
        requires
            j <= k - 1,
            1 <= max,
    ;
    assert(0 <= j * max) by (nonlinear_arith)
        requires
            0 <= j,
            1 <= max,
    ;
    if j + 1 < k {
        assert((j + 1) * max <= (k - 1) * max) by (nonlinear_arith)
            requires
                j + 1 <= k - 1,
                1 <= max,
        ;
    }
}

} // verus!
