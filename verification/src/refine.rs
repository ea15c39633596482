//! The run refiner: splits an edge tile off a long run when what is left
//! can then be found in an immediate blob of the store.

use crate::cover::{lemma_runs_placed_concat, runs_placed, span_placed};
use crate::encode::shortcut;
use crate::segment_proofs::{backgrounds_first, layer_tile, run_sound, runs_sound};
use crate::store::{immediate_match, BlobView, Store};
use crate::tile::{
    indices_of, is_continuous, run_indices, run_views, Cell, Config, Layer, Run, RunView, Tile,
};
use vstd::prelude::*;

verus! {

/// Runs shorter than this are never split.
pub const REFINE_MIN: usize = 5;

/// The run can be split without leaving the addressable columns.
pub open spec fn addressable(run: RunView) -> bool {
    0 <= run.start && run.start + run.tiles.len() <= usize::MAX
}

/// Every run of the list is addressable.
pub open spec fn all_addressable(runs: Seq<Run>) -> bool {
    forall|i: int| 0 <= i < runs.len() ==> addressable((#[trigger] runs[i])@)
}

/// The part of `run` from tile `from` up to tile `to`, at its columns.
pub open spec fn piece(run: RunView, from: int, to: int) -> RunView {
    RunView { layer: run.layer, start: run.start + from, tiles: run.tiles.subrange(from, to) }
}

/// Some immediate entry of the store holds the index array of `tiles`.
pub open spec fn known(store: Seq<BlobView>, tiles: Seq<Tile>, config: Config) -> bool {
    immediate_match(store, run_indices(tiles, config.spec_bytes_per_tile() as int))
}

/// What becomes of one run. A run of fewer than five tiles, one that may
/// take the continuous shortcut, and one whose index array is held by an
/// immediate entry stay whole. Otherwise, if the run without its first tile
/// is held, the first tile is split off in front; failing that, if the run
/// without its last tile is held, the last tile is split off and listed
/// before the rest. A run that matches in no way stays whole.
pub open spec fn refined_run(store: Seq<BlobView>, run: RunView, config: Config) -> Seq<RunView> {
    let n = run.tiles.len() as int;
    if n < REFINE_MIN || shortcut(run.tiles, config) || known(store, run.tiles, config) {
        seq![run]
    } else if known(store, run.tiles.subrange(1, n), config) {
        seq![piece(run, 0, 1), piece(run, 1, n)]
    } else if known(store, run.tiles.subrange(0, n - 1), config) {
        seq![piece(run, n - 1, n), piece(run, 0, n - 1)]
    } else {
        seq![run]
    }
}

/// What becomes of the first `n` runs of a row, in order.
pub open spec fn refined_upto(store: Seq<BlobView>, runs: Seq<RunView>, config: Config, n: int)
    -> Seq<RunView>
    decreases n,
{
    if n <= 0 {
        Seq::empty()
    } else {
        refined_upto(store, runs, config, n - 1) + refined_run(store, runs[n - 1], config)
    }
}

/// What becomes of the runs of a row.
pub open spec fn refined(store: Seq<BlobView>, runs: Seq<RunView>, config: Config) -> Seq<RunView> {
    refined_upto(store, runs, config, runs.len() as int)
}

fn take_piece(run: &Run, from: usize, to: usize) -> (r: Run)
    requires
        from <= to <= run.tiles.len(),
        addressable(run@),
    ensures
        r@ == piece(run@, from as int, to as int),
{
    let mut tiles: Vec<Tile> = Vec::new();
    let mut i: usize = from;
    while i < to
        invariant
            from <= i <= to <= run.tiles.len(),
            tiles@ == run.tiles@.subrange(from as int, i as int),
        decreases to - i,
    {
        tiles.push(run.tiles[i]);
        assert(tiles@ =~= run.tiles@.subrange(from as int, i + 1));
        i += 1;
    }
    Run { layer: run.layer, start: run.start + from, tiles }
}

fn is_known(store: &Store, run: &Run, config: &Config) -> (r: bool)
    ensures
        r == known(store@, run@.tiles, *config),
{
    let content = indices_of(&run.tiles, config);
    store.holds_immediate(&content)
}

/// Refines one run against the store and appends what becomes of it.
fn refine_run(store: &Store, run: &Run, config: &Config, out: &mut Vec<Run>)
    requires
        addressable(run@),
    ensures
        run_views(final(out)@) == run_views(old(out)@) + refined_run(store@, run@, *config),
{
    let n: usize = run.tiles.len();
    let whole = take_piece(run, 0, n);
    assert(run@.tiles.subrange(0, n as int) =~= run@.tiles);
    assert(whole@ == run@);
    if n < REFINE_MIN || (config.shortcut_allowed() && is_continuous(&run.tiles, config))
        || is_known(store, run, config) {
        out.push(whole);
        assert(run_views(out@) =~= run_views(old(out)@) + seq![run@]);
        return ;
    }
    let tail = take_piece(run, 1, n);
    if is_known(store, &tail, config) {
        let head = take_piece(run, 0, 1);
        out.push(head);
        out.push(tail);
        assert(run_views(out@) =~= run_views(old(out)@) + seq![
            piece(run@, 0, 1),
            piece(run@, 1, n as int),
        ]);
        return ;
    }
    let front = take_piece(run, 0, n - 1);
    if is_known(store, &front, config) {
        let last = take_piece(run, n - 1, n);
        out.push(last);
        out.push(front);
        assert(run_views(out@) =~= run_views(old(out)@) + seq![
            piece(run@, n - 1, n as int),
            piece(run@, 0, n - 1),
        ]);
        return ;
    }
    out.push(whole);
    assert(run_views(out@) =~= run_views(old(out)@) + seq![run@]);
}

/// Refines the runs of a row against the store. The refined runs lay down
/// the same tiles at the same columns.
pub fn refine_runs(store: &Store, runs: &Vec<Run>, config: &Config) -> (r: Vec<Run>)
    requires
        all_addressable(runs@),
    ensures
        run_views(r@) == refined(store@, run_views(runs@), *config),
        runs_placed(run_views(r@)) == runs_placed(run_views(runs@)),
{
    let ghost views = run_views(runs@);
    proof {
        lemma_refined_placed(store@, views, *config);
    }
    let mut out: Vec<Run> = Vec::new();
    assert(run_views(out@) =~= Seq::<RunView>::empty());
    let mut i: usize = 0;
    while i < runs.len()
        invariant
            i <= runs.len(),
            all_addressable(runs@),
            views == run_views(runs@),
            run_views(out@) == refined_upto(store@, views, *config, i as int),
        decreases runs.len() - i,
    {
        assert(views[i as int] == runs@[i as int]@);
        refine_run(store, &runs[i], config, &mut out);
        i += 1;
    }
    out
}

/// Tiles laid in two parts are the tiles laid at once.
pub proof fn lemma_span_placed_concat(start: int, a: Seq<Tile>, b: Seq<Tile>)
    ensures
        span_placed(start, a + b) =~= span_placed(start, a).add(
            span_placed(start + a.len(), b),
        ),
    decreases b.len(),
{
    if b.len() == 0 {
        assert(a + b =~= a);
    } else {
        lemma_span_placed_concat(start, a, b.drop_last());
        assert((a + b).drop_last() =~= a + b.drop_last());
        assert((a + b).last() == b.last());
    }
}

proof fn lemma_runs_placed_pair(p: RunView, q: RunView)
    ensures
        runs_placed(seq![p, q]) =~= span_placed(p.start, p.tiles).add(
            span_placed(q.start, q.tiles),
        ),
{
    let both = seq![p, q];
    assert(both.drop_last() =~= seq![p]);
    assert(both.last() == q);
    assert(seq![p].drop_last() =~= Seq::<RunView>::empty());
    assert(runs_placed(seq![p].drop_last()) =~= vstd::multiset::Multiset::empty());
    assert(seq![p].last() == p);
    assert(runs_placed(seq![p]) =~= span_placed(p.start, p.tiles));
}

proof fn lemma_runs_placed_unit(p: RunView)
    ensures
        runs_placed(seq![p]) =~= span_placed(p.start, p.tiles),
{
    assert(seq![p].drop_last() =~= Seq::<RunView>::empty());
    assert(runs_placed(seq![p].drop_last()) =~= vstd::multiset::Multiset::empty());
    assert(seq![p].last() == p);
}

/// What becomes of a run lays down the same tiles at the same columns.
pub proof fn lemma_refined_run_placed(store: Seq<BlobView>, run: RunView, config: Config)
    ensures
        runs_placed(refined_run(store, run, config)) =~= span_placed(run.start, run.tiles),
{
    let n = run.tiles.len() as int;
    let parts = refined_run(store, run, config);
    if parts =~= seq![run] {
        lemma_runs_placed_unit(run);
    } else if parts =~= seq![piece(run, 0, 1), piece(run, 1, n)] {
        lemma_runs_placed_pair(piece(run, 0, 1), piece(run, 1, n));
        lemma_span_placed_concat(run.start, run.tiles.subrange(0, 1), run.tiles.subrange(1, n));
        assert(run.tiles.subrange(0, 1) + run.tiles.subrange(1, n) =~= run.tiles);
    } else {
        assert(parts =~= seq![piece(run, n - 1, n), piece(run, 0, n - 1)]);
        lemma_runs_placed_pair(piece(run, n - 1, n), piece(run, 0, n - 1));
        lemma_span_placed_concat(
            run.start,
            run.tiles.subrange(0, n - 1),
            run.tiles.subrange(n - 1, n),
        );
        assert(run.tiles.subrange(0, n - 1) + run.tiles.subrange(n - 1, n) =~= run.tiles);
    }
}

proof fn lemma_refined_upto_placed(store: Seq<BlobView>, runs: Seq<RunView>, config: Config, n: int)
    requires
        0 <= n <= runs.len(),
    ensures
        runs_placed(refined_upto(store, runs, config, n)) =~= runs_placed(runs.take(n)),
    decreases n,
{
    if n > 0 {
        lemma_refined_upto_placed(store, runs, config, n - 1);
        lemma_refined_run_placed(store, runs[n - 1], config);
        lemma_runs_placed_concat(
            refined_upto(store, runs, config, n - 1),
            refined_run(store, runs[n - 1], config),
        );
        assert(runs.take(n).drop_last() =~= runs.take(n - 1));
        assert(runs.take(n).last() == runs[n - 1]);
    } else {
        assert(runs.take(0) =~= Seq::<RunView>::empty());
    }
}

/// Refining changes no tile and no column: the refined runs lay down
/// exactly what the runs laid down.
pub proof fn lemma_refined_placed(store: Seq<BlobView>, runs: Seq<RunView>, config: Config)
    ensures
        runs_placed(refined(store, runs, config)) == runs_placed(runs),
{
    lemma_refined_upto_placed(store, runs, config, runs.len() as int);
    assert(runs.take(runs.len() as int) =~= runs);
    assert(runs_placed(refined(store, runs, config)) =~= runs_placed(runs));
}

/// Every piece of a run with at least one tile has at least one tile, no
/// more than the run, lies inside the run's columns, and keeps its layer.
pub proof fn lemma_refined_run_bounds(store: Seq<BlobView>, run: RunView, config: Config, k: int)
    requires
        1 <= run.tiles.len(),
        0 <= k < refined_run(store, run, config).len(),
    ensures
        1 <= refined_run(store, run, config)[k].tiles.len() <= run.tiles.len(),
        run.start <= refined_run(store, run, config)[k].start,
        refined_run(store, run, config)[k].end() <= run.end(),
        refined_run(store, run, config)[k].layer == run.layer,
        forall|j: int|
            0 <= j < refined_run(store, run, config)[k].tiles.len() ==> refined_run(
                store,
                run,
                config,
            )[k].tiles[j] == run.tiles[refined_run(store, run, config)[k].start - run.start + j],
{
}

/// Every run holds between 1 and `max` tiles and lies in the columns from
/// `lo` up to `hi`.
pub open spec fn runs_within(runs: Seq<RunView>, lo: int, hi: int, max: int) -> bool {
    forall|i: int|
        0 <= i < runs.len() ==> 1 <= (#[trigger] runs[i]).tiles.len() <= max && lo <= runs[i].start
            && runs[i].end() <= hi
}

proof fn lemma_refined_upto_within(
    store: Seq<BlobView>,
    runs: Seq<RunView>,
    config: Config,
    lo: int,
    hi: int,
    max: int,
    n: int,
)
    requires
        0 <= n <= runs.len(),
        runs_within(runs, lo, hi, max),
    ensures
        runs_within(refined_upto(store, runs, config, n), lo, hi, max),
    decreases n,
{
    if n > 0 {
        lemma_refined_upto_within(store, runs, config, lo, hi, max, n - 1);
        let before = refined_upto(store, runs, config, n - 1);
        let parts = refined_run(store, runs[n - 1], config);
        let all = refined_upto(store, runs, config, n);
        assert(1 <= runs[n - 1].tiles.len() <= max);
        assert forall|i: int| 0 <= i < all.len() implies 1 <= (#[trigger] all[i]).tiles.len() <= max
            && lo <= all[i].start && all[i].end() <= hi by {
            if i < before.len() {
                assert(all[i] == before[i]);
            } else {
                assert(all[i] == parts[i - before.len()]);
                lemma_refined_run_bounds(store, runs[n - 1], config, i - before.len());
            }
        }
    }
}

/// Refining keeps every run within the length limit and within the
/// columns that held the runs.
pub proof fn lemma_refined_within(
    store: Seq<BlobView>,
    runs: Seq<RunView>,
    config: Config,
    lo: int,
    hi: int,
    max: int,
)
    requires
        runs_within(runs, lo, hi, max),
    ensures
        runs_within(refined(store, runs, config), lo, hi, max),
{
    lemma_refined_upto_within(store, runs, config, lo, hi, max, runs.len() as int);
}

/// Refining a row without runs gives no runs.
pub proof fn lemma_refined_none(store: Seq<BlobView>, config: Config)
    ensures
        refined(store, Seq::<RunView>::empty(), config) == Seq::<RunView>::empty(),
{
}

/// Every piece of a sound run is sound: it keeps the layer of the run, and
/// its tiles are still the tiles that the cells at their columns give to
/// that layer.
pub proof fn lemma_refined_run_sound(
    store: Seq<BlobView>,
    run: RunView,
    config: Config,
    cells: Seq<Cell>,
    upto: int,
    max: int,
    k: int,
)
    requires
        run_sound(run, cells, upto, max),
        0 <= k < refined_run(store, run, config).len(),
    ensures
        run_sound(refined_run(store, run, config)[k], cells, upto, max),
{
    let part = refined_run(store, run, config)[k];
    lemma_refined_run_bounds(store, run, config, k);
    let shift = part.start - run.start;
    assert forall|i: int| 0 <= i < part.tiles.len() implies layer_tile(
        cells[part.start + i],
        part.layer,
    ) == Some(#[trigger] part.tiles[i]) by {
        assert(part.tiles[i] == run.tiles[shift + i]);
        assert(layer_tile(cells[run.start + (shift + i)], run.layer) == Some(run.tiles[shift + i]));
    }
    assert forall|i: int, j: int|
        0 <= i < part.tiles.len() && 0 <= j < part.tiles.len() implies crate::tile::compatible(
        #[trigger] part.tiles[i],
        #[trigger] part.tiles[j],
    ) by {
        assert(part.tiles[i] == run.tiles[shift + i]);
        assert(part.tiles[j] == run.tiles[shift + j]);
        assert(crate::tile::compatible(run.tiles[shift + i], run.tiles[shift + j]));
    }
}

proof fn lemma_refined_upto_sound(
    store: Seq<BlobView>,
    runs: Seq<RunView>,
    config: Config,
    cells: Seq<Cell>,
    upto: int,
    max: int,
    n: int,
)
    requires
        0 <= n <= runs.len(),
        runs_sound(runs, cells, upto, max),
    ensures
        runs_sound(refined_upto(store, runs, config, n), cells, upto, max),
    decreases n,
{
    if n > 0 {
        lemma_refined_upto_sound(store, runs, config, cells, upto, max, n - 1);
        let before = refined_upto(store, runs, config, n - 1);
        let parts = refined_run(store, runs[n - 1], config);
        let all = refined_upto(store, runs, config, n);
        assert(run_sound(runs[n - 1], cells, upto, max));
        assert forall|i: int| 0 <= i < all.len() implies run_sound(
            #[trigger] all[i],
            cells,
            upto,
            max,
        ) by {
            if i < before.len() {
                assert(all[i] == before[i]);
            } else {
                assert(all[i] == parts[i - before.len()]);
                lemma_refined_run_sound(store, runs[n - 1], config, cells, upto, max, i - before.len());
            }
        }
    }
}

/// Refining keeps runs sound: every refined run lies inside the row, holds
/// between 1 and `max` tiles that are compatible with one another, and
/// lays the tiles that the cells at its columns give to its layer.
pub proof fn lemma_refined_sound(
    store: Seq<BlobView>,
    runs: Seq<RunView>,
    config: Config,
    cells: Seq<Cell>,
    upto: int,
    max: int,
)
    requires
        runs_sound(runs, cells, upto, max),
    ensures
        runs_sound(refined(store, runs, config), cells, upto, max),
{
    lemma_refined_upto_sound(store, runs, config, cells, upto, max, runs.len() as int);
}

/// Some run among the first `n` is a foreground run.
pub open spec fn foreground_among(runs: Seq<RunView>, n: int) -> bool {
    exists|r: int| 0 <= r < n && (#[trigger] runs[r]).layer == Layer::Foreground
}

proof fn lemma_refined_upto_ordered(store: Seq<BlobView>, runs: Seq<RunView>, config: Config, n: int)
    requires
        0 <= n <= runs.len(),
        backgrounds_first(runs),
        forall|i: int| 0 <= i < runs.len() ==> 1 <= (#[trigger] runs[i]).tiles.len(),
    ensures
        backgrounds_first(refined_upto(store, runs, config, n)),
        forall|i: int|
            0 <= i < refined_upto(store, runs, config, n).len() && (#[trigger] refined_upto(
                store,
                runs,
                config,
                n,
            )[i]).layer == Layer::Foreground ==> foreground_among(runs, n),
    decreases n,
{
    if n > 0 {
        lemma_refined_upto_ordered(store, runs, config, n - 1);
        let before = refined_upto(store, runs, config, n - 1);
        let parts = refined_run(store, runs[n - 1], config);
        let all = refined_upto(store, runs, config, n);
        assert(1 <= runs[n - 1].tiles.len());
        assert forall|i: int| 0 <= i < all.len() && (#[trigger] all[i]).layer
            == Layer::Foreground implies foreground_among(runs, n) by {
            if i < before.len() {
                assert(all[i] == before[i]);
                assert(foreground_among(runs, n - 1));
                let r = choose|r: int| 0 <= r < n - 1 && (#[trigger] runs[r]).layer == Layer::Foreground;
                assert(0 <= r < n && runs[r].layer == Layer::Foreground);
            } else {
                assert(all[i] == parts[i - before.len()]);
                lemma_refined_run_bounds(store, runs[n - 1], config, i - before.len());
                assert(0 <= n - 1 < n && runs[n - 1].layer == Layer::Foreground);
            }
        }
        assert forall|i: int, j: int| 0 <= i < j < all.len() implies !((#[trigger] all[i]).layer
            == Layer::Foreground && (#[trigger] all[j]).layer == Layer::Background) by {
            if j < before.len() {
                assert(all[i] == before[i]);
                assert(all[j] == before[j]);
            } else {
                assert(all[j] == parts[j - before.len()]);
                lemma_refined_run_bounds(store, runs[n - 1], config, j - before.len());
                if i < before.len() {
                    assert(all[i] == before[i]);
                    if before[i].layer == Layer::Foreground {
                        assert(foreground_among(runs, n - 1));
                        let r = choose|r: int|
                            0 <= r < n - 1 && (#[trigger] runs[r]).layer == Layer::Foreground;
                        assert(!(runs[r].layer == Layer::Foreground && runs[n - 1].layer
                            == Layer::Background));
                    }
                } else {
                    assert(all[i] == parts[i - before.len()]);
                    lemma_refined_run_bounds(store, runs[n - 1], config, i - before.len());
                }
            }
        }
    }
}

/// Refining keeps background runs listed before foreground runs.
pub proof fn lemma_refined_ordered(store: Seq<BlobView>, runs: Seq<RunView>, config: Config)
    requires
        backgrounds_first(runs),
        forall|i: int| 0 <= i < runs.len() ==> 1 <= (#[trigger] runs[i]).tiles.len(),
    ensures
        backgrounds_first(refined(store, runs, config)),
{
    lemma_refined_upto_ordered(store, runs, config, runs.len() as int);
}

/// Where a run is split, the long piece is one that an immediate entry of
/// the store holds.
pub proof fn lemma_split_piece_known(store: Seq<BlobView>, run: RunView, config: Config)
    requires
        refined_run(store, run, config).len() == 2,
    ensures
        ({
            let parts = refined_run(store, run, config);
            let long = if parts[0].tiles.len() == 1 {
                parts[1]
            } else {
                parts[0]
            };
            &&& run.tiles.len() >= REFINE_MIN
            &&& long.tiles.len() == run.tiles.len() - 1
            &&& known(store, long.tiles, config)
            &&& parts[0].tiles.len() == 1
        }),
{
}

/// A run that an immediate entry of the store holds is encoded, against
/// that store or any store that continues it, without registering
/// anything: it takes the shortcut or points into an entry that is there.
pub proof fn lemma_known_is_reused(
    store: Seq<BlobView>,
    more: Seq<BlobView>,
    run: RunView,
    name: crate::store::BlobName,
    config: Config,
)
    requires
        known(store, run.tiles, config),
    ensures
        crate::encode::encoded(store + more, run, name, config).is_ok(),
        crate::encode::encoded(store + more, run, name, config).unwrap().1 == store + more,
{
    let content = run_indices(run.tiles, config.spec_bytes_per_tile() as int);
    let all = store + more;
    let i = choose|i: int|
        0 <= i < store.len() && (#[trigger] store[i]).immediate && crate::window::has_window(
            store[i].content,
            content,
        );
    assert(all[i] == store[i]);
    crate::store::lemma_lookup_from(all, content, 0);
}

} // verus!
