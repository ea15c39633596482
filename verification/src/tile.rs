//! Tiles, grid cells, runs and the encoder configuration.

use crate::mode::Mode;
use vstd::prelude::*;

verus! {

/// One encoded tile: where its graphics sit in tile memory and how they are
/// drawn.
#[derive(Clone, Copy, Debug, PartialEq, Eq, Structural)]
pub struct Tile {
    /// Tile-memory index, in the addressing unit of the mode.
    pub index: u32,
    pub mode: Mode,
    pub palette: u8,
    /// A placeholder: its slot is never contiguous with its neighbours.
    pub fake: bool,
    /// Grid value of the tile that lies under this one, if any.
    pub background: Option<u32>,
    /// Handle of the tile's pixel bytes in the catalog that made it.
    pub payload: usize,
}

/// Two tiles can share a run: same mode, palette and fake flag.
pub open spec fn compatible(a: Tile, b: Tile) -> bool {
    a.mode == b.mode && a.palette == b.palette && a.fake == b.fake
}

impl Tile {
    /// Whether `self` and `other` can share a run.
    pub fn compatible_with(&self, other: &Tile) -> (r: bool)
        ensures
            r == compatible(*self, *other),
    {
        self.mode == other.mode && self.palette == other.palette && self.fake == other.fake
    }
}

/// What a grid cell resolves to.
#[derive(Clone, Copy, Debug, PartialEq, Eq, Structural)]
pub enum Cell {
    /// Nothing to draw: value 0, or a value the catalog does not know.
    Empty,
    /// A tile whose background reference does not resolve.
    Orphan,
    /// One tile.
    Single(Tile),
    /// A background tile and the foreground tile drawn over it.
    Layered(Tile, Tile),
}

impl Cell {
    /// The tile this cell contributes to a background run.
    pub open spec fn bottom(self) -> Option<Tile> {
        match self {
            Cell::Single(t) => Some(t),
            Cell::Layered(b, _) => Some(b),
            _ => None,
        }
    }

    /// The tile this cell contributes to a foreground run.
    pub open spec fn top(self) -> Option<Tile> {
        match self {
            Cell::Single(t) => Some(t),
            Cell::Layered(_, t) => Some(t),
            _ => None,
        }
    }

    /// The cell draws something.
    pub open spec fn drawn(self) -> bool {
        self is Single || self is Layered
    }
}

/// The role under which a run was emitted.
#[derive(Clone, Copy, Debug, PartialEq, Eq, Structural)]
pub enum Layer {
    Background,
    Foreground,
}

/// A contiguous span of cells of one row, drawn as one record.
#[derive(Debug, PartialEq, Eq)]
pub struct Run {
    pub layer: Layer,
    /// Column of the first tile.
    pub start: usize,
    pub tiles: Vec<Tile>,
}

/// The mathematical value of a [`Run`].
pub struct RunView {
    pub layer: Layer,
    pub start: int,
    pub tiles: Seq<Tile>,
}

impl View for Run {
    type V = RunView;

    open spec fn view(&self) -> RunView {
        RunView { layer: self.layer, start: self.start as int, tiles: self.tiles@ }
    }
}

/// The values of a list of runs, in order.
pub open spec fn run_views(runs: Seq<Run>) -> Seq<RunView> {
    Seq::new(runs.len(), |i: int| runs[i]@)
}

impl RunView {
    /// Number of cells the run spans.
    pub open spec fn len(self) -> nat {
        self.tiles.len()
    }

    /// One past the last column of the run.
    pub open spec fn end(self) -> int {
        self.start + self.tiles.len()
    }

    /// The run spans column `x`.
    pub open spec fn covers(self, x: int) -> bool {
        self.start <= x < self.end()
    }

    /// All tiles of the run are compatible with one another.
    pub open spec fn homogeneous(self) -> bool {
        forall|i: int, j: int|
            0 <= i < self.tiles.len() && 0 <= j < self.tiles.len() ==> compatible(
                #[trigger] self.tiles[i],
                #[trigger] self.tiles[j],
            )
    }
}

/// How rows are carved and records laid out.
#[derive(Clone, Copy, Debug, PartialEq, Eq, Structural)]
pub struct Config {
    /// Pixel width of one grid cell.
    pub tile_width: u32,
    /// Pixel height of one grid cell.
    pub tile_height: u32,
    /// Largest number of tiles in one run.
    pub max_run_length: usize,
    /// New blobs hold pixel bytes instead of index arrays.
    pub immediate: bool,
    /// Never address tile memory directly through the continuous shortcut.
    pub forbid_immediate: bool,
    /// List background runs in discovery order instead of reversed, in front.
    pub left_to_right: bool,
    /// Lay records out with 4- or 5-byte headers instead of 7-byte ones.
    pub direct: bool,
    /// In direct layout, use 4-byte headers after the first record of a row.
    pub four_bytes: bool,
    /// Constant added to every position of the direct layout.
    pub offset: u8,
}

/// The run-length limit used when none is configured: 31 for 8-pixel cells
/// with index-array blobs, 15 otherwise.
pub open spec fn spec_default_max_run_length(tile_width: u32, immediate: bool) -> usize {
    if tile_width == 8 && !immediate {
        31
    } else {
        15
    }
}

/// The run-length limit used when none is configured.
#[verifier::when_used_as_spec(spec_default_max_run_length)]
pub fn default_max_run_length(tile_width: u32, immediate: bool) -> (r: usize)
    ensures
        r == spec_default_max_run_length(tile_width, immediate),
{
    if tile_width == 8 && !immediate {
        31
    } else {
        15
    }
}

impl Config {
    /// The configuration is usable: runs may hold at least one tile, and
    /// every width that is computed of a run fits in a machine word.
    pub open spec fn valid(&self) -> bool {
        1 <= self.max_run_length <= usize::MAX / 36
    }

    /// Whether the configuration is usable.
    pub fn is_valid(&self) -> (r: bool)
        ensures
            r == self.valid(),
    {
        1 <= self.max_run_length && self.max_run_length <= usize::MAX / 36
    }

    /// Tile-memory units that one index-array slot advances by.
    pub open spec fn spec_bytes_per_tile(&self) -> usize {
        if self.tile_width == 8 {
            1
        } else {
            2
        }
    }

    /// Tile-memory units that one index-array slot advances by: 1 for
    /// 8-pixel cells, 2 otherwise.
    #[verifier::when_used_as_spec(spec_bytes_per_tile)]
    pub fn bytes_per_tile(&self) -> (r: usize)
        ensures
            r == self.spec_bytes_per_tile(),
    {
        if self.tile_width == 8 {
            1
        } else {
            2
        }
    }

    /// The continuous shortcut may be taken at all.
    pub open spec fn spec_shortcut_allowed(&self) -> bool {
        !self.forbid_immediate && !self.immediate
    }

    /// The continuous shortcut may be taken at all: neither forbidden nor
    /// displaced by immediate blobs.
    #[verifier::when_used_as_spec(spec_shortcut_allowed)]
    pub fn shortcut_allowed(&self) -> (r: bool)
        ensures
            r == self.spec_shortcut_allowed(),
    {
        !self.forbid_immediate && !self.immediate
    }

    /// The configuration with every option off, for cells of the given size
    /// and the default run-length limit.
    pub fn new(tile_width: u32, tile_height: u32) -> (c: Config)
        ensures
            c == (Config {
                tile_width,
                tile_height,
                max_run_length: spec_default_max_run_length(tile_width, false),
                immediate: false,
                forbid_immediate: false,
                left_to_right: false,
                direct: false,
                four_bytes: true,
                offset: 0,
            }),
            c.valid(),
    {
        Config {
            tile_width,
            tile_height,
            max_run_length: default_max_run_length(tile_width, false),
            immediate: false,
            forbid_immediate: false,
            left_to_right: false,
            direct: false,
            four_bytes: true,
            offset: 0,
        }
    }
}

/// The index-array slots of one tile: its index, and in the wide modes the
/// index one slot further.
pub open spec fn tile_indices(t: Tile, bytes_per_tile: int) -> Seq<u64> {
    if t.mode.narrow() {
        seq![t.index as u64]
    } else {
        seq![t.index as u64, (t.index + bytes_per_tile) as u64]
    }
}

/// The index array of a list of tiles: the slots of each tile, in order.
pub open spec fn run_indices(tiles: Seq<Tile>, bytes_per_tile: int) -> Seq<u64>
    decreases tiles.len(),
{
    if tiles.len() == 0 {
        Seq::empty()
    } else {
        run_indices(tiles.drop_last(), bytes_per_tile) + tile_indices(tiles.last(), bytes_per_tile)
    }
}

/// Successive tiles sit one stride apart in tile memory and none is fake.
pub open spec fn continuous(tiles: Seq<Tile>, tile_width: u32) -> bool {
    &&& forall|i: int| 0 <= i < tiles.len() ==> !(#[trigger] tiles[i]).fake
    &&& forall|i: int, j: int|
        0 <= i && j == i + 1 && j < tiles.len() ==> (#[trigger] tiles[i]).index + (
        #[trigger] tiles[j]).mode.spec_stride(tile_width) == tiles[j].index
}

/// The index array of `tiles`.
pub fn indices_of(tiles: &Vec<Tile>, config: &Config) -> (r: Vec<u64>)
    ensures
        r@ == run_indices(tiles@, config.spec_bytes_per_tile() as int),
{
    let bpt: u64 = config.bytes_per_tile() as u64;
    let mut out: Vec<u64> = Vec::new();
    let mut i: usize = 0;
    while i < tiles.len()
        invariant
            i <= tiles.len(),
            bpt == config.spec_bytes_per_tile(),
            out@ == run_indices(tiles@.take(i as int), bpt as int),
        decreases tiles.len() - i,
    {
        let t: Tile = tiles[i];
        proof {
            assert(tiles@.take(i + 1).drop_last() =~= tiles@.take(i as int));
            assert(tiles@.take(i + 1).last() == t);
        }
        out.push(t.index as u64);
        if t.mode.slots() == 2 {
            out.push(t.index as u64 + bpt);
        }
        assert(out@ =~= run_indices(tiles@.take(i as int), bpt as int) + tile_indices(
            t,
            bpt as int,
        ));
        i += 1;
    }
    assert(tiles@.take(tiles.len() as int) =~= tiles@);
    out
}

/// Whether the tiles sit one stride apart in tile memory with none fake.
pub fn is_continuous(tiles: &Vec<Tile>, config: &Config) -> (r: bool)
    ensures
        r == continuous(tiles@, config.tile_width),
{
    let mut i: usize = 0;
    while i < tiles.len()
        invariant
            i <= tiles.len(),
            forall|k: int| 0 <= k < i ==> !(#[trigger] tiles@[k]).fake,
            forall|k: int, m: int|
                0 <= k && m == k + 1 && m < i ==> (#[trigger] tiles@[k]).index + (
                #[trigger] tiles@[m]).mode.spec_stride(config.tile_width) == tiles@[m].index,
        decreases tiles.len() - i,
    {
        let t: Tile = tiles[i];
        if t.fake {
            return false;
        }
        if i > 0 {
            let prev: Tile = tiles[i - 1];
            if prev.index as u64 + t.mode.stride(config.tile_width) as u64 != t.index as u64 {
                assert(tiles@[i - 1].index + tiles@[i as int].mode.spec_stride(config.tile_width)
                    != tiles@[i as int].index);
                return false;
            }
        }
        i += 1;
    }
    true
}

} // verus!
