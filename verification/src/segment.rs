//! The row segmenter: a state machine that scans one row of cells from left
//! to right and carves it into runs.

use crate::cover::{lemma_exact_cover, row_placed, runs_placed};
use crate::segment_proofs::{
    backgrounds_first, lemma_backgrounds_first, lemma_segment_sound, runs_sound,
};
use crate::tile::{compatible, run_views, Cell, Config, Layer, Run, RunView, Tile};
use vstd::prelude::*;

verus! {

/// The segmenter's state between two cells, as mathematical values.
pub struct SegState {
    /// Runs finished so far, in their final order.
    pub out: Seq<RunView>,
    /// The background run in progress (empty when there is none).
    pub bg: Seq<Tile>,
    pub bg_start: int,
    /// The foreground run in progress (empty when there is none).
    pub fg: Seq<Tile>,
    pub fg_start: int,
    /// The foreground run in progress holds a tile that lies over a
    /// background tile.
    pub fg_over: bool,
    /// Foreground runs held back until the background under them ends.
    pub deferred: Seq<RunView>,
}

impl SegState {
    /// The state before the first cell of a row.
    pub open spec fn init() -> SegState {
        SegState {
            out: Seq::empty(),
            bg: Seq::empty(),
            bg_start: 0,
            fg: Seq::empty(),
            fg_start: 0,
            fg_over: false,
            deferred: Seq::empty(),
        }
    }

    /// The background run in progress, as a finished run.
    pub open spec fn bg_run(self) -> RunView {
        RunView { layer: Layer::Background, start: self.bg_start, tiles: self.bg }
    }

    /// The foreground run in progress, as a finished run.
    pub open spec fn fg_run(self) -> RunView {
        RunView { layer: Layer::Foreground, start: self.fg_start, tiles: self.fg }
    }

    /// Finishes the background run, if there is one: it goes in front of
    /// the finished runs, or behind them under the left-to-right policy.
    pub open spec fn flush_bg(self, left_to_right: bool) -> SegState {
        if self.bg.len() == 0 {
            self
        } else if left_to_right {
            SegState { out: self.out.push(self.bg_run()), bg: Seq::empty(), ..self }
        } else {
            SegState { out: seq![self.bg_run()] + self.out, bg: Seq::empty(), ..self }
        }
    }

    /// Finishes the foreground run, if there is one, behind the finished runs.
    pub open spec fn flush_fg(self) -> SegState {
        if self.fg.len() == 0 {
            self
        } else {
            SegState { out: self.out.push(self.fg_run()), fg: Seq::empty(), fg_over: false, ..self }
        }
    }

    /// Releases the deferred runs, in order, behind the finished runs.
    pub open spec fn flush_deferred(self) -> SegState {
        SegState { out: self.out + self.deferred, deferred: Seq::empty(), ..self }
    }

    /// Finishes everything that is open.
    pub open spec fn flush_all(self, left_to_right: bool) -> SegState {
        self.flush_bg(left_to_right).flush_fg().flush_deferred()
    }

    /// Opens a background run that holds `t` at column `x`.
    pub open spec fn start_bg(self, t: Tile, x: int) -> SegState {
        SegState { bg: seq![t], bg_start: x, ..self }
    }

    /// Opens a foreground run that holds `t` at column `x`; `over` says
    /// whether `t` lies over a background tile.
    pub open spec fn start_fg(self, t: Tile, x: int, over: bool) -> SegState {
        SegState { fg: seq![t], fg_start: x, fg_over: over, ..self }
    }

    /// Adds `t` to the background run; a full run is finished first and a
    /// new one opened at `x`.
    pub open spec fn extend_bg(self, t: Tile, x: int, max: int, left_to_right: bool) -> SegState {
        if self.bg.len() >= max {
            self.flush_bg(left_to_right).start_bg(t, x)
        } else {
            SegState { bg: self.bg.push(t), ..self }
        }
    }

    /// Adds `t` to the foreground run; a full run is finished first and a
    /// new one opened at `x`.
    pub open spec fn extend_fg(self, t: Tile, x: int, max: int, over: bool) -> SegState {
        if self.fg.len() >= max {
            self.flush_fg().start_fg(t, x, over)
        } else {
            SegState { fg: self.fg.push(t), fg_over: self.fg_over || over, ..self }
        }
    }

    /// Places `t` in the background: extends the run in progress when `t`
    /// is compatible with it, finishes it and opens a new one otherwise.
    pub open spec fn put_bg(self, t: Tile, x: int, max: int, left_to_right: bool) -> SegState {
        if self.bg.len() > 0 && compatible(t, self.bg.last()) {
            self.extend_bg(t, x, max, left_to_right)
        } else {
            self.flush_bg(left_to_right).start_bg(t, x)
        }
    }

    /// Places `t` in the foreground: extends the run in progress when `t`
    /// is compatible with it, finishes it and opens a new one otherwise.
    pub open spec fn put_fg(self, t: Tile, x: int, max: int, over: bool) -> SegState {
        if self.fg.len() > 0 && compatible(t, self.fg.last()) {
            self.extend_fg(t, x, max, over)
        } else {
            self.flush_fg().start_fg(t, x, over)
        }
    }

    /// Holds the foreground run back, if there is one.
    pub open spec fn defer_fg(self) -> SegState {
        if self.fg.len() == 0 {
            self
        } else {
            SegState {
                deferred: self.deferred.push(self.fg_run()),
                fg: Seq::empty(),
                fg_over: false,
                ..self
            }
        }
    }

    /// Turns the foreground run in progress into the background run.
    pub open spec fn absorb(self) -> SegState {
        SegState {
            bg: self.fg,
            bg_start: self.fg_start,
            fg: Seq::empty(),
            fg_over: false,
            ..self
        }
    }

    /// The background half of a layered cell. Where no background run is
    /// in progress, a compatible foreground run becomes the background
    /// run, unless it holds a tile that lies over a background tile: that
    /// tile would end up under its background.
    pub open spec fn under(self, b: Tile, x: int, max: int, left_to_right: bool) -> SegState {
        if self.bg.len() > 0 {
            self.put_bg(b, x, max, left_to_right)
        } else if self.fg.len() > 0 && compatible(b, self.fg.last()) && !self.fg_over {
            self.absorb().extend_bg(b, x, max, left_to_right)
        } else {
            self.start_bg(b, x).flush_fg()
        }
    }

    /// A cell that holds one tile.
    pub open spec fn single(self, t: Tile, x: int, max: int, left_to_right: bool) -> SegState {
        if self.bg.len() == 0 {
            self.put_fg(t, x, max, false)
        } else if compatible(t, self.bg.last()) {
            self.extend_bg(t, x, max, left_to_right).defer_fg()
        } else if self.fg.len() > 0 && compatible(t, self.fg.last()) {
            self.flush_bg(left_to_right).extend_fg(t, x, max, false)
        } else {
            self.flush_bg(left_to_right).flush_fg().start_bg(t, x)
        }
    }

    /// The transition for the cell at column `x`.
    pub open spec fn step(self, cell: Cell, x: int, max: int, left_to_right: bool) -> SegState {
        match cell {
            Cell::Empty => self.flush_all(left_to_right),
            Cell::Orphan => self.flush_bg(left_to_right).flush_fg(),
            Cell::Layered(b, t) => self.under(b, x, max, left_to_right).put_fg(t, x, max, true),
            Cell::Single(t) => self.single(t, x, max, left_to_right),
        }
    }
}

/// The state after the first `n` cells of a row.
pub open spec fn scan(cells: Seq<Cell>, n: int, max: int, left_to_right: bool) -> SegState
    decreases n,
{
    if n <= 0 {
        SegState::init()
    } else {
        scan(cells, n - 1, max, left_to_right).step(cells[n - 1], n - 1, max, left_to_right)
    }
}

/// The runs of a row, in their final order.
pub open spec fn segment(cells: Seq<Cell>, max: int, left_to_right: bool) -> Seq<RunView> {
    scan(cells, cells.len() as int, max, left_to_right).flush_all(left_to_right).out
}

/// The row segmenter. Feed it the cells of one row from left to right with
/// [`Segmenter::step`], then take the runs with [`Segmenter::finish`].
pub struct Segmenter {
    out: Vec<Run>,
    bg: Vec<Tile>,
    bg_start: usize,
    fg: Vec<Tile>,
    fg_start: usize,
    fg_over: bool,
    deferred: Vec<Run>,
}

impl View for Segmenter {
    type V = SegState;

    closed spec fn view(&self) -> SegState {
        SegState {
            out: run_views(self.out@),
            bg: self.bg@,
            bg_start: self.bg_start as int,
            fg: self.fg@,
            fg_start: self.fg_start as int,
            fg_over: self.fg_over,
            deferred: run_views(self.deferred@),
        }
    }
}

impl Segmenter {
    /// A segmenter at the start of a row.
    pub fn new() -> (s: Segmenter)
        ensures
            s@ == SegState::init(),
    {
        let s = Segmenter {
            out: Vec::new(),
            bg: Vec::new(),
            bg_start: 0,
            fg: Vec::new(),
            fg_start: 0,
            fg_over: false,
            deferred: Vec::new(),
        };
        assert(run_views(s.out@) =~= Seq::empty());
        assert(run_views(s.deferred@) =~= Seq::empty());
        s
    }

    fn flush_bg(&mut self, left_to_right: bool)
        ensures
            final(self)@ == old(self)@.flush_bg(left_to_right),
    {
        if self.bg.len() > 0 {
            let mut tiles: Vec<Tile> = Vec::new();
            std::mem::swap(&mut self.bg, &mut tiles);
            let run = Run { layer: Layer::Background, start: self.bg_start, tiles };
            if left_to_right {
                self.out.push(run);
                assert(run_views(self.out@) =~= old(self)@.out.push(old(self)@.bg_run()));
            } else {
                self.out.insert(0, run);
                assert(run_views(self.out@) =~= seq![old(self)@.bg_run()] + old(self)@.out);
            }
            assert(self.bg@ =~= Seq::empty());
        }
    }

    fn flush_fg(&mut self)
        ensures
            final(self)@ == old(self)@.flush_fg(),
    {
        if self.fg.len() > 0 {
            let mut tiles: Vec<Tile> = Vec::new();
            std::mem::swap(&mut self.fg, &mut tiles);
            let run = Run { layer: Layer::Foreground, start: self.fg_start, tiles };
            self.out.push(run);
            self.fg_over = false;
            assert(run_views(self.out@) =~= old(self)@.out.push(old(self)@.fg_run()));
            assert(self.fg@ =~= Seq::empty());
        }
    }

    fn defer_fg(&mut self)
        ensures
            final(self)@ == old(self)@.defer_fg(),
    {
        if self.fg.len() > 0 {
            let mut tiles: Vec<Tile> = Vec::new();
            std::mem::swap(&mut self.fg, &mut tiles);
            let run = Run { layer: Layer::Foreground, start: self.fg_start, tiles };
            self.deferred.push(run);
            self.fg_over = false;
            assert(run_views(self.deferred@) =~= old(self)@.deferred.push(old(self)@.fg_run()));
            assert(self.fg@ =~= Seq::empty());
        }
    }

    fn flush_deferred(&mut self)
        ensures
            final(self)@ == old(self)@.flush_deferred(),
    {
        let ghost before = self.out@;
        let ghost held = self.deferred@;
        self.out.append(&mut self.deferred);
        assert(run_views(self.out@) =~= run_views(before) + run_views(held));
        assert(run_views(self.deferred@) =~= Seq::empty());
    }

    fn start_bg(&mut self, t: Tile, x: usize)
        ensures
            final(self)@ == old(self)@.start_bg(t, x as int),
    {
        let mut tiles: Vec<Tile> = Vec::new();
        tiles.push(t);
        assert(tiles@ =~= seq![t]);
        self.bg = tiles;
        self.bg_start = x;
    }

    fn start_fg(&mut self, t: Tile, x: usize, over: bool)
        ensures
            final(self)@ == old(self)@.start_fg(t, x as int, over),
    {
        let mut tiles: Vec<Tile> = Vec::new();
        tiles.push(t);
        assert(tiles@ =~= seq![t]);
        self.fg = tiles;
        self.fg_start = x;
        self.fg_over = over;
    }

    fn extend_bg(&mut self, t: Tile, x: usize, max: usize, left_to_right: bool)
        ensures
            final(self)@ == old(self)@.extend_bg(t, x as int, max as int, left_to_right),
    {
        if self.bg.len() >= max {
            self.flush_bg(left_to_right);
            self.start_bg(t, x);
        } else {
            self.bg.push(t);
        }
    }

    fn extend_fg(&mut self, t: Tile, x: usize, max: usize, over: bool)
        ensures
            final(self)@ == old(self)@.extend_fg(t, x as int, max as int, over),
    {
        if self.fg.len() >= max {
            self.flush_fg();
            self.start_fg(t, x, over);
        } else {
            self.fg.push(t);
            self.fg_over = self.fg_over || over;
        }
    }

    fn put_bg(&mut self, t: Tile, x: usize, max: usize, left_to_right: bool)
        ensures
            final(self)@ == old(self)@.put_bg(t, x as int, max as int, left_to_right),
    {
        let n: usize = self.bg.len();
        if n > 0 && t.compatible_with(&self.bg[n - 1]) {
            self.extend_bg(t, x, max, left_to_right);
        } else {
            self.flush_bg(left_to_right);
            self.start_bg(t, x);
        }
    }

    fn put_fg(&mut self, t: Tile, x: usize, max: usize, over: bool)
        ensures
            final(self)@ == old(self)@.put_fg(t, x as int, max as int, over),
    {
        let n: usize = self.fg.len();
        if n > 0 && t.compatible_with(&self.fg[n - 1]) {
            self.extend_fg(t, x, max, over);
        } else {
            self.flush_fg();
            self.start_fg(t, x, over);
        }
    }

    fn absorb(&mut self)
        ensures
            final(self)@ == old(self)@.absorb(),
    {
        let mut tiles: Vec<Tile> = Vec::new();
        std::mem::swap(&mut self.fg, &mut tiles);
        self.bg = tiles;
        self.bg_start = self.fg_start;
        self.fg_over = false;
        assert(self.fg@ =~= Seq::empty());
    }

    fn under(&mut self, b: Tile, x: usize, max: usize, left_to_right: bool)
        ensures
            final(self)@ == old(self)@.under(b, x as int, max as int, left_to_right),
    {
        let n: usize = self.fg.len();
        if self.bg.len() > 0 {
            self.put_bg(b, x, max, left_to_right);
        } else if n > 0 && b.compatible_with(&self.fg[n - 1]) && !self.fg_over {
            self.absorb();
            self.extend_bg(b, x, max, left_to_right);
        } else {
            self.start_bg(b, x);
            self.flush_fg();
        }
    }

    fn single(&mut self, t: Tile, x: usize, max: usize, left_to_right: bool)
        ensures
            final(self)@ == old(self)@.single(t, x as int, max as int, left_to_right),
    {
        let nb: usize = self.bg.len();
        let nf: usize = self.fg.len();
        if nb == 0 {
            self.put_fg(t, x, max, false);
        } else if t.compatible_with(&self.bg[nb - 1]) {
            self.extend_bg(t, x, max, left_to_right);
            self.defer_fg();
        } else if nf > 0 && t.compatible_with(&self.fg[nf - 1]) {
            self.flush_bg(left_to_right);
            self.extend_fg(t, x, max, false);
        } else {
            self.flush_bg(left_to_right);
            self.flush_fg();
            self.start_bg(t, x);
        }
    }

    /// Takes the cell at column `x`: the transition of the state machine.
    pub fn step(&mut self, cell: Cell, x: usize, config: &Config)
        ensures
            final(self)@ == old(self)@.step(
                cell,
                x as int,
                config.max_run_length as int,
                config.left_to_right,
            ),
    {
        let max: usize = config.max_run_length;
        let ltr: bool = config.left_to_right;
        match cell {
            Cell::Empty => {
                self.flush_bg(ltr);
                self.flush_fg();
                self.flush_deferred();
            },
            Cell::Orphan => {
                self.flush_bg(ltr);
                self.flush_fg();
            },
            Cell::Layered(b, t) => {
                self.under(b, x, max, ltr);
                self.put_fg(t, x, max, true);
            },
            Cell::Single(t) => {
                self.single(t, x, max, ltr);
            },
        }
    }

    /// Ends the row: finishes everything that is open and hands out the
    /// runs in their final order.
    pub fn finish(self, config: &Config) -> (runs: Vec<Run>)
        ensures
            run_views(runs@) == self@.flush_all(config.left_to_right).out,
    {
        let mut s = self;
        s.flush_bg(config.left_to_right);
        s.flush_fg();
        s.flush_deferred();
        s.out
    }
}

/// Carves one row of cells into runs. With a length limit of at least 1,
/// every run lies inside the row, holds between 1 and the limit of tiles
/// that are compatible with one another, each the tile that the cell at
/// its column gives to the layer of the run; and the runs together lay
/// down exactly the tiles that the cells ask for. Under the default policy
/// the background runs are listed before the foreground runs.
pub fn segment_row(cells: &Vec<Cell>, config: &Config) -> (runs: Vec<Run>)
    ensures
        run_views(runs@) == segment(cells@, config.max_run_length as int, config.left_to_right),
        config.max_run_length >= 1 ==> runs_sound(
            run_views(runs@),
            cells@,
            cells@.len() as int,
            config.max_run_length as int,
        ) && runs_placed(run_views(runs@)) == row_placed(cells@, cells@.len() as int),
        !config.left_to_right ==> backgrounds_first(run_views(runs@)),
{
    proof {
        let max = config.max_run_length as int;
        if max >= 1 {
            lemma_segment_sound(cells@, max, config.left_to_right);
            lemma_exact_cover(cells@, max, config.left_to_right);
        }
        if !config.left_to_right {
            lemma_backgrounds_first(cells@, max);
        }
    }
    let mut s = Segmenter::new();
    let mut x: usize = 0;
    while x < cells.len()
        invariant
            x <= cells.len(),
            s@ == scan(cells@, x as int, config.max_run_length as int, config.left_to_right),
        decreases cells.len() - x,
    {
        s.step(cells[x], x, config);
        x += 1;
    }
    s.finish(config)
}

} // verus!
