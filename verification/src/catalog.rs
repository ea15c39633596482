//! The tile catalog: resolves the tile definitions of a sheet, in order,
//! into tiles addressed by grid value and by tile-memory index.

use crate::mode::{Mirror, Mode};
use crate::names::{bound, label, label_text, NameTable};
use crate::payload::{cell_bytes, cut_cell, payload_views, product};
use crate::tile::{Cell, Tile};
use std::collections::HashMap;
use vstd::prelude::*;
use vstd::std_specs::hash::*;

verus! {

broadcast use vstd::std_specs::hash::group_hash_axioms;

/// The measures of a sheet and of the cells of the grid drawn from it.
#[derive(Clone, Copy, Debug, PartialEq, Eq, Structural)]
pub struct Geometry {
    /// Pixel width of one cell.
    pub tile_width: u32,
    /// Pixel height of one cell.
    pub tile_height: u32,
    /// Pixel width of the sheet.
    pub image_width: u32,
    /// Pixel height of the sheet.
    pub image_height: u32,
    /// Mode of the definitions that name none.
    pub mode: Mode,
    /// Mirroring declared for the whole sheet.
    pub mirror: Option<Mirror>,
}

/// One named tile definition of a sheet.
#[derive(Debug)]
pub struct TileDefinition {
    pub name: String,
    pub top: u32,
    pub left: u32,
    pub width: u32,
    pub height: u32,
    pub mode: Option<Mode>,
    pub palette: u8,
    /// Name of the definition whose tile-memory index this one reuses.
    pub alias: Option<String>,
    pub mirror: Option<Mirror>,
    /// Name of the definition that lies under this one.
    pub background: Option<String>,
    pub fake: bool,
    /// The encoded pixel bytes of the whole definition.
    pub gfx: Vec<u8>,
}

/// The mathematical value of a [`TileDefinition`].
pub struct DefinitionView {
    pub name: Seq<char>,
    pub top: u32,
    pub left: u32,
    pub width: u32,
    pub height: u32,
    pub mode: Option<Mode>,
    pub palette: u8,
    pub alias: Option<Seq<char>>,
    pub mirror: Option<Mirror>,
    pub background: Option<Seq<char>>,
    pub fake: bool,
    pub gfx: Seq<u8>,
}

impl View for TileDefinition {
    type V = DefinitionView;

    open spec fn view(&self) -> DefinitionView {
        DefinitionView {
            name: self.name@,
            top: self.top,
            left: self.left,
            width: self.width,
            height: self.height,
            mode: self.mode,
            palette: self.palette,
            alias: match self.alias {
                Some(a) => Some(a@),
                None => None,
            },
            mirror: self.mirror,
            background: match self.background {
                Some(b) => Some(b@),
                None => None,
            },
            fake: self.fake,
            gfx: self.gfx@,
        }
    }
}

/// The values of a list of definitions, in order.
pub open spec fn definition_views(definitions: Seq<TileDefinition>) -> Seq<DefinitionView> {
    Seq::new(definitions.len(), |i: int| definitions[i]@)
}

/// The cell of a definition that lies at a tile-memory index: the number
/// of the definition and the offset of the cell in it.
#[derive(Clone, Copy, Debug, PartialEq, Eq, Structural)]
pub struct Label {
    pub definition: usize,
    pub offset: u32,
}

/// Why a sheet cannot be resolved.
#[derive(Clone, Copy, Debug, PartialEq, Eq, Structural)]
pub enum CatalogError {
    /// Cells of no width or no height.
    ZeroCell,
    /// A grid value or tile-memory index of this definition does not fit
    /// in 32 bits, or its mirror image falls outside the sheet.
    OutOfRange(usize),
    /// This definition is an alias of a name that no earlier definition
    /// bears.
    BadAlias(usize),
    /// The pixel bytes of this definition end before its cells do.
    ShortPayload(usize),
}

/// The mathematical value of a [`Catalog`].
pub struct CatalogView {
    /// Grid value to tile.
    pub tiles: Map<u32, Tile>,
    /// The pixel bytes of the tile cells, by handle.
    pub payloads: Seq<Seq<u8>>,
    /// Name to tile-memory index, for aliases.
    pub aliases: Seq<(Seq<char>, u32)>,
    /// Name to grid value.
    pub refs: Seq<(Seq<char>, u32)>,
    /// Tile-memory index to the cell that was given it last.
    pub labels: Map<u32, Label>,
    /// The names of the definitions, by number.
    pub names: Seq<Seq<char>>,
    /// The next free tile-memory index.
    pub next_index: u32,
}

/// The catalog before the first definition.
pub open spec fn empty_catalog() -> CatalogView {
    CatalogView {
        tiles: Map::empty(),
        payloads: Seq::empty(),
        aliases: Seq::empty(),
        refs: Seq::empty(),
        labels: Map::empty(),
        names: Seq::empty(),
        next_index: 0,
    }
}

/// The mode of a definition: its own, or that of the sheet.
pub open spec fn mode_of(g: Geometry, def: DefinitionView) -> Mode {
    match def.mode {
        Some(m) => m,
        None => g.mode,
    }
}

/// Grid values advance by this much from one line of cells to the
/// `j`-th line below it.
pub open spec fn shift(g: Geometry, j: int) -> int {
    (j * g.image_width) / (g.tile_width as int)
}

/// Lines of cells in the sheet.
pub open spec fn sheet_lines(g: Geometry) -> int {
    g.image_height as int / g.tile_height as int
}

/// The grid value of the first cell of a definition.
pub open spec fn origin(g: Geometry, def: DefinitionView) -> int {
    1 + def.left as int / g.tile_width as int + shift(g, def.top as int / g.tile_height as int)
}

/// The grid value of the mirror image of the first cell of a definition;
/// `None` where the definition lies below the last line of the sheet.
pub open spec fn mirror_origin(g: Geometry, def: DefinitionView) -> Option<int> {
    let up = sheet_lines(g) - 1 - def.top as int / g.tile_height as int;
    if up >= 0 {
        Some(1 + def.left as int / g.tile_width as int + shift(g, up))
    } else {
        None
    }
}

/// The grid value of the mirror image of the cell with grid value `b`.
pub open spec fn mirror_value(g: Geometry, b: u32) -> Option<u32> {
    let per = g.image_width as int / g.tile_width as int;
    if per == 0 || b == 0 {
        None
    } else {
        let line = (b - 1) / per;
        let column = (b - 1) - line * per;
        let up = sheet_lines(g) - 1 - line;
        if up >= 0 && 1 + column + shift(g, up) <= u32::MAX {
            Some((1 + column + shift(g, up)) as u32)
        } else {
            None
        }
    }
}

/// Bytes in one scanline of a cell of the given mode.
pub open spec fn cell_row(g: Geometry, mode: Mode) -> int {
    (if g.tile_width == 8 {
        1int
    } else {
        2int
    }) * mode.spec_slots()
}

/// What opening a definition settles for all its cells.
pub struct Start {
    /// Tile-memory index of the first cell.
    pub index: int,
    /// Grid value of the tile under the definition.
    pub background: Option<u32>,
}

/// The catalog after a definition has been opened: its name is bound to
/// the next free index, unless it is an alias, and to the grid value of
/// its first cell; its alias and its background are looked up.
pub open spec fn opened(c: CatalogView, g: Geometry, def: DefinitionView, d: int) -> Result<
    (CatalogView, Start),
    CatalogError,
> {
    if origin(g, def) > u32::MAX {
        Err(CatalogError::OutOfRange(d as usize))
    } else {
        let aliases = if def.alias is None {
            c.aliases.push((def.name, c.next_index))
        } else {
            c.aliases
        };
        let refs = c.refs.push((def.name, origin(g, def) as u32));
        let background = match def.background {
            Some(b) => bound(refs, b),
            None => None,
        };
        let after = CatalogView { aliases, refs, names: c.names.push(def.name), ..c };
        match def.alias {
            None => Ok((after, Start { index: c.next_index as int, background })),
            Some(a) => match bound(aliases, a) {
                None => Err(CatalogError::BadAlias(d as usize)),
                Some(i) => Ok(
                    (
                        after,
                        Start {
                            index: if def.mirror == Some(Mirror::Vertical) {
                                i + 1
                            } else {
                                i as int
                            },
                            background,
                        },
                    ),
                ),
            },
        }
    }
}

/// The catalog after the mirror image of a cell has been placed, where the
/// sheet is mirrored vertically: the same tile one index further, at the
/// mirrored grid value, over the mirrored background.
pub open spec fn reflected(
    c: CatalogView,
    g: Geometry,
    def: DefinitionView,
    tile: Tile,
    i: int,
    j: int,
) -> Option<CatalogView> {
    if g.mirror != Some(Mirror::Vertical) {
        Some(c)
    } else {
        let background = match tile.background {
            Some(b) => mirror_value(g, b),
            None => None,
        };
        match mirror_origin(g, def) {
            None => None,
            Some(m) => {
                let at = m + i - shift(g, j);
                if 0 <= at <= u32::MAX && tile.index < u32::MAX && (tile.background is Some
                    ==> background is Some) {
                    Some(
                        CatalogView {
                            tiles: c.tiles.insert(
                                at as u32,
                                Tile { index: (tile.index + 1) as u32, background, ..tile },
                            ),
                            ..c
                        },
                    )
                } else {
                    None
                }
            },
        }
    }
}

/// The catalog after cell `(i, j)` of definition `d` has been placed at
/// tile-memory index `at`, and the index of the next cell.
pub open spec fn placed(
    c: CatalogView,
    g: Geometry,
    def: DefinitionView,
    d: int,
    start: Start,
    i: int,
    j: int,
    at: int,
) -> Result<(CatalogView, int), CatalogError> {
    let mode = mode_of(g, def);
    let stride = mode.spec_stride(g.tile_width);
    let value = origin(g, def) + i + shift(g, j);
    let across = def.width as int / g.tile_width as int;
    match cell_bytes(def.gfx, i, j, across, g.tile_height as int, cell_row(g, mode)) {
        None => Err(CatalogError::ShortPayload(d as usize)),
        Some(bytes) => if value > u32::MAX || at > u32::MAX {
            Err(CatalogError::OutOfRange(d as usize))
        } else {
            let tile = Tile {
                index: at as u32,
                mode,
                palette: def.palette,
                fake: def.fake,
                background: start.background,
                payload: c.payloads.len() as usize,
            };
            let offset = (at - start.index) as u32;
            let text = label_text(def.name, offset);
            let own = def.alias is None;
            let held = CatalogView {
                tiles: c.tiles.insert(value as u32, tile),
                payloads: c.payloads.push(bytes),
                labels: c.labels.insert(
                    c.next_index,
                    Label { definition: d as usize, offset },
                ),
                aliases: if own {
                    c.aliases.push((text, c.next_index))
                } else {
                    c.aliases
                },
                refs: if own {
                    c.refs.push((text, value as u32))
                } else {
                    c.refs
                },
                ..c
            };
            match reflected(held, g, def, tile, i, j) {
                None => Err(CatalogError::OutOfRange(d as usize)),
                Some(both) => if own && c.next_index + stride > u32::MAX {
                    Err(CatalogError::OutOfRange(d as usize))
                } else {
                    Ok(
                        (
                            CatalogView {
                                next_index: if own {
                                    (c.next_index + stride) as u32
                                } else {
                                    c.next_index
                                },
                                ..both
                            },
                            at + stride,
                        ),
                    )
                },
            }
        },
    }
}

/// The catalog after the first `n` cells of line `j` of a definition.
pub open spec fn placed_line(
    c: CatalogView,
    g: Geometry,
    def: DefinitionView,
    d: int,
    start: Start,
    j: int,
    at: int,
    n: int,
) -> Result<(CatalogView, int), CatalogError>
    decreases n,
{
    if n <= 0 {
        Ok((c, at))
    } else {
        match placed_line(c, g, def, d, start, j, at, n - 1) {
            Err(e) => Err(e),
            Ok((held, next)) => placed(held, g, def, d, start, n - 1, j, next),
        }
    }
}

/// The catalog after the first `n` lines of cells of a definition.
pub open spec fn placed_lines(
    c: CatalogView,
    g: Geometry,
    def: DefinitionView,
    d: int,
    start: Start,
    n: int,
) -> Result<(CatalogView, int), CatalogError>
    decreases n,
{
    if n <= 0 {
        Ok((c, start.index))
    } else {
        match placed_lines(c, g, def, d, start, n - 1) {
            Err(e) => Err(e),
            Ok((held, next)) => placed_line(
                held,
                g,
                def,
                d,
                start,
                n - 1,
                next,
                def.width as int / g.tile_width as int,
            ),
        }
    }
}

/// The catalog after definition `d`: the definition is opened, then its
/// cells are placed line by line, each line from left to right.
pub open spec fn defined(c: CatalogView, g: Geometry, def: DefinitionView, d: int) -> Result<
    CatalogView,
    CatalogError,
> {
    match opened(c, g, def, d) {
        Err(e) => Err(e),
        Ok((held, start)) => match placed_lines(
            held,
            g,
            def,
            d,
            start,
            def.height as int / g.tile_height as int,
        ) {
            Err(e) => Err(e),
            Ok((after, _)) => Ok(after),
        },
    }
}

/// The catalog after the first `n` definitions.
pub open spec fn built_upto(g: Geometry, defs: Seq<DefinitionView>, n: int) -> Result<
    CatalogView,
    CatalogError,
>
    decreases n,
{
    if n <= 0 {
        Ok(empty_catalog())
    } else {
        match built_upto(g, defs, n - 1) {
            Err(e) => Err(e),
            Ok(c) => defined(c, g, defs[n - 1], n - 1),
        }
    }
}

/// The catalog of a sheet: its definitions resolved in order. Cells of no
/// width or height are refused before anything else.
pub open spec fn built(g: Geometry, defs: Seq<DefinitionView>) -> Result<CatalogView, CatalogError> {
    if g.tile_width == 0 || g.tile_height == 0 {
        Err(CatalogError::ZeroCell)
    } else {
        built_upto(g, defs, defs.len() as int)
    }
}

/// What the grid value `v` resolves to. The value 0 and values without a
/// tile are empty; a tile with a background that has no tile is an orphan;
/// a tile with a background lies over it; any other tile stands alone.
pub open spec fn resolved(tiles: Map<u32, Tile>, v: u32) -> Cell {
    if v == 0 || !tiles.contains_key(v) {
        Cell::Empty
    } else {
        match tiles[v].background {
            None => Cell::Single(tiles[v]),
            Some(b) => if tiles.contains_key(b) {
                Cell::Layered(tiles[b], tiles[v])
            } else {
                Cell::Orphan
            },
        }
    }
}

/// The resolved tiles of a sheet.
pub struct Catalog {
    tiles: HashMap<u32, Tile>,
    payloads: Vec<Vec<u8>>,
    aliases: NameTable,
    refs: NameTable,
    labels: HashMap<u32, Label>,
    names: Vec<String>,
    next_index: u32,
}

impl View for Catalog {
    type V = CatalogView;

    closed spec fn view(&self) -> CatalogView {
        CatalogView {
            tiles: self.tiles@,
            payloads: payload_views(self.payloads@),
            aliases: self.aliases@,
            refs: self.refs@,
            labels: self.labels@,
            names: Seq::new(self.names@.len(), |i: int| self.names@[i]@),
            next_index: self.next_index,
        }
    }
}

fn shift_of(g: &Geometry, j: u32) -> (r: u64)
    requires
        g.tile_width > 0,
    ensures
        r == shift(*g, j as int),
        r <= 0xffff_fffe_0000_0001,
{
    product(j, g.image_width) / (g.tile_width as u64)
}

fn origin_of(g: &Geometry, def: &TileDefinition) -> (r: u128)
    requires
        g.tile_width > 0,
        g.tile_height > 0,
    ensures
        r == origin(*g, def@),
        r <= 0x1_0000_0000_0000_0000,
{
    1 + (def.left / g.tile_width) as u128 + shift_of(g, def.top / g.tile_height) as u128
}

fn mirror_origin_of(g: &Geometry, def: &TileDefinition) -> (r: Option<u128>)
    requires
        g.tile_width > 0,
        g.tile_height > 0,
    ensures
        match r {
            Some(m) => mirror_origin(*g, def@) == Some(m as int) && m <= 0x1_0000_0000_0000_0000,
            None => mirror_origin(*g, def@).is_none(),
        },
{
    let lines: u32 = g.image_height / g.tile_height;
    let line: u32 = def.top / g.tile_height;
    if lines >= 1 && lines - 1 >= line {
        Some(1 + (def.left / g.tile_width) as u128 + shift_of(g, lines - 1 - line) as u128)
    } else {
        None
    }
}

fn mirror_value_of(g: &Geometry, b: u32) -> (r: Option<u32>)
    requires
        g.tile_width > 0,
        g.tile_height > 0,
    ensures
        r == mirror_value(*g, b),
{
    let per: u32 = g.image_width / g.tile_width;
    if per == 0 || b == 0 {
        return None;
    }
    let line: u32 = (b - 1) / per;
    assert(line * per <= b - 1) by (nonlinear_arith)
        requires
            line == (b - 1) / (per as int),
            per > 0,
            b >= 1,
    ;
    let column: u64 = (b - 1) as u64 - product(line, per);
    let lines: u32 = g.image_height / g.tile_height;
    if lines >= 1 && lines - 1 >= line {
        let v: u128 = 1 + column as u128 + shift_of(g, lines - 1 - line) as u128;
        if v <= 0xffff_ffff {
            Some(v as u32)
        } else {
            None
        }
    } else {
        None
    }
}

impl Catalog {
    /// The catalog without definitions.
    pub fn new() -> (c: Catalog)
        ensures
            c@ == empty_catalog(),
    {
        let c = Catalog {
            tiles: HashMap::new(),
            payloads: Vec::new(),
            aliases: NameTable::new(),
            refs: NameTable::new(),
            labels: HashMap::new(),
            names: Vec::new(),
            next_index: 0,
        };
        assert(c@.payloads =~= Seq::<Seq<u8>>::empty());
        assert(c@.names =~= Seq::<Seq<char>>::empty());
        c
    }

    /// The tile at grid value `v`, if there is one.
    pub fn tile(&self, v: u32) -> (r: Option<Tile>)
        ensures
            r == (if self@.tiles.contains_key(v) {
                Some(self@.tiles[v])
            } else {
                None
            }),
    {
        match self.tiles.get(&v) {
            Some(t) => Some(*t),
            None => None,
        }
    }

    /// What the grid value `v` resolves to.
    pub fn resolve(&self, v: u32) -> (r: Cell)
        ensures
            r == resolved(self@.tiles, v),
    {
        if v == 0 {
            return Cell::Empty;
        }
        match self.tile(v) {
            None => Cell::Empty,
            Some(t) => match t.background {
                None => Cell::Single(t),
                Some(b) => match self.tile(b) {
                    Some(under) => Cell::Layered(under, t),
                    None => Cell::Orphan,
                },
            },
        }
    }

    /// The grid value bound to a name.
    pub fn value_of(&self, name: &str) -> (r: Option<u32>)
        ensures
            r == bound(self@.refs, name@),
    {
        self.refs.get(name)
    }

    /// The cell that was last given the tile-memory index `index`.
    pub fn label_at(&self, index: u32) -> (r: Option<Label>)
        ensures
            r == (if self@.labels.contains_key(index) {
                Some(self@.labels[index])
            } else {
                None
            }),
    {
        match self.labels.get(&index) {
            Some(l) => Some(*l),
            None => None,
        }
    }

    /// The name of definition `d`.
    pub fn name(&self, d: usize) -> (r: &str)
        requires
            d < self@.names.len(),
        ensures
            r@ == self@.names[d as int],
    {
        self.names[d].as_str()
    }

    /// Number of definitions.
    pub fn definitions(&self) -> (n: usize)
        ensures
            n == self@.names.len(),
    {
        self.names.len()
    }

    /// The pixel bytes of the tile cells, by handle.
    pub fn payloads(&self) -> (r: &Vec<Vec<u8>>)
        ensures
            payload_views(r@) == self@.payloads,
    {
        &self.payloads
    }

    /// The next free tile-memory index.
    pub fn next_index(&self) -> (r: u32)
        ensures
            r == self@.next_index,
    {
        self.next_index
    }

    fn open(&mut self, g: &Geometry, def: &TileDefinition, d: usize) -> (r: Result<
        (u64, Option<u32>),
        CatalogError,
    >)
        requires
            g.tile_width > 0,
            g.tile_height > 0,
        ensures
            match opened(old(self)@, *g, def@, d as int) {
                Ok((after, start)) => r == Ok::<(u64, Option<u32>), CatalogError>(
                    (start.index as u64, start.background),
                ) && start.index == start.index as u64 && final(self)@ == after,
                Err(e) => r == Err::<(u64, Option<u32>), CatalogError>(e),
            },
    {
        let first: u128 = origin_of(g, def);
        if first > 0xffff_ffff {
            return Err(CatalogError::OutOfRange(d));
        }
        if def.alias.is_none() {
            self.aliases.bind(def.name.clone(), self.next_index);
        }
        self.refs.bind(def.name.clone(), first as u32);
        self.names.push(def.name.clone());
        assert(self@.names =~= old(self)@.names.push(def@.name));
        let background: Option<u32> = match &def.background {
            Some(b) => self.refs.get(b.as_str()),
            None => None,
        };
        match &def.alias {
            None => Ok((self.next_index as u64, background)),
            Some(a) => match self.aliases.get(a.as_str()) {
                None => Err(CatalogError::BadAlias(d)),
                Some(i) => {
                    let index: u64 = match def.mirror {
                        Some(Mirror::Vertical) => i as u64 + 1,
                        _ => i as u64,
                    };
                    Ok((index, background))
                },
            },
        }
    }

    fn reflect(&mut self, g: &Geometry, def: &TileDefinition, tile: Tile, i: u32, j: u32) -> (ok:
        bool)
        requires
            g.tile_width > 0,
            g.tile_height > 0,
        ensures
            match reflected(old(self)@, *g, def@, tile, i as int, j as int) {
                Some(after) => ok && final(self)@ == after,
                None => !ok,
            },
    {
        match g.mirror {
            Some(Mirror::Vertical) => {},
            _ => {
                return true;
            },
        }
        let background: Option<u32> = match tile.background {
            Some(b) => mirror_value_of(g, b),
            None => None,
        };
        match mirror_origin_of(g, def) {
            None => false,
            Some(m) => {
                let down: u128 = shift_of(g, j) as u128;
                let over: u128 = m + i as u128;
                if over < down || over - down > 0xffff_ffff || tile.index == 0xffff_ffff || (
                tile.background.is_some() && background.is_none()) {
                    return false;
                }
                let image = Tile {
                    index: tile.index + 1,
                    mode: tile.mode,
                    palette: tile.palette,
                    fake: tile.fake,
                    background,
                    payload: tile.payload,
                };
                self.tiles.insert((over - down) as u32, image);
                true
            },
        }
    }

    fn place(
        &mut self,
        g: &Geometry,
        def: &TileDefinition,
        d: usize,
        start: u64,
        background: Option<u32>,
        i: u32,
        j: u32,
        at: u64,
    ) -> (r: Result<u64, CatalogError>)
        requires
            g.tile_width > 0,
            g.tile_height > 0,
            start <= at <= 0x1_0000_0000 + 0x4000_0000,
        ensures
            match placed(
                old(self)@,
                *g,
                def@,
                d as int,
                Start { index: start as int, background },
                i as int,
                j as int,
                at as int,
            ) {
                Ok((after, next)) => r == Ok::<u64, CatalogError>(next as u64) && next == next as u64
                    && final(self)@ == after && next <= 0xffff_ffff + 0x4000_0000,
                Err(e) => r == Err::<u64, CatalogError>(e),
            },
    {
        let mode: Mode = match def.mode {
            Some(m) => m,
            None => g.mode,
        };
        let stride: u32 = mode.stride(g.tile_width);
        let value: u128 = origin_of(g, def) + i as u128 + shift_of(g, j) as u128;
        let across: u32 = def.width / g.tile_width;
        let unit: u8 = if g.tile_width == 8 {
            1
        } else {
            2
        };
        let w: u8 = unit * (mode.slots() as u8);
        let bytes = match cut_cell(&def.gfx, i, j, across, g.tile_height, w) {
            None => {
                return Err(CatalogError::ShortPayload(d));
            },
            Some(bytes) => bytes,
        };
        if value > 0xffff_ffff || at > 0xffff_ffff {
            return Err(CatalogError::OutOfRange(d));
        }
        let tile = Tile {
            index: at as u32,
            mode,
            palette: def.palette,
            fake: def.fake,
            background,
            payload: self.payloads.len(),
        };
        let offset: u32 = (at - start) as u32;
        let own: bool = def.alias.is_none();
        self.tiles.insert(value as u32, tile);
        self.payloads.push(bytes);
        assert(self@.payloads =~= old(self)@.payloads.push(bytes@));
        self.labels.insert(self.next_index, Label { definition: d, offset });
        if own {
            self.aliases.bind(label(def.name.as_str(), offset), self.next_index);
            self.refs.bind(label(def.name.as_str(), offset), value as u32);
        }
        if !self.reflect(g, def, tile, i, j) {
            return Err(CatalogError::OutOfRange(d));
        }
        if own {
            if self.next_index as u64 + stride as u64 > 0xffff_ffff {
                return Err(CatalogError::OutOfRange(d));
            }
            self.next_index = self.next_index + stride;
        }
        Ok(at + stride as u64)
    }

    /// Resolves one definition, the `d`-th of its sheet.
    pub fn define(&mut self, g: &Geometry, def: &TileDefinition, d: usize) -> (r: Result<
        (),
        CatalogError,
    >)
        requires
            g.tile_width > 0,
            g.tile_height > 0,
        ensures
            match defined(old(self)@, *g, def@, d as int) {
                Ok(after) => r.is_ok() && final(self)@ == after,
                Err(e) => r == Err::<(), CatalogError>(e),
            },
    {
        let (start, background) = match self.open(g, def, d) {
            Err(e) => {
                return Err(e);
            },
            Ok(s) => s,
        };
        let ghost held = self@;
        let ghost first = Start { index: start as int, background };
        let across: u32 = def.width / g.tile_width;
        let down: u32 = def.height / g.tile_height;
        let mut at: u64 = start;
        let mut j: u32 = 0;
        while j < down
            invariant
                j <= down,
                g.tile_width > 0,
                g.tile_height > 0,
                across == def.width / g.tile_width,
                down == def.height / g.tile_height,
                start <= at <= 0x1_0000_0000 + 0x4000_0000,
                first == (Start { index: start as int, background }),
                opened(old(self)@, *g, def@, d as int) == Ok::<(CatalogView, Start), CatalogError>(
                    (held, first),
                ),
                placed_lines(held, *g, def@, d as int, first, j as int) == Ok::<
                    (CatalogView, int),
                    CatalogError,
                >((self@, at as int)),
            decreases down - j,
        {
            let ghost line = self@;
            let ghost from = at;
            let mut i: u32 = 0;
            while i < across
                invariant
                    i <= across,
                    j < down,
                    g.tile_width > 0,
                    g.tile_height > 0,
                    start <= at <= 0x1_0000_0000 + 0x4000_0000,
                    first == (Start { index: start as int, background }),
                    across == def.width / g.tile_width,
                    down == def.height / g.tile_height,
                    opened(old(self)@, *g, def@, d as int) == Ok::<
                        (CatalogView, Start),
                        CatalogError,
                    >((held, first)),
                    placed_lines(held, *g, def@, d as int, first, j as int) == Ok::<
                        (CatalogView, int),
                        CatalogError,
                    >((line, from as int)),
                    placed_line(line, *g, def@, d as int, first, j as int, from as int, i as int)
                        == Ok::<(CatalogView, int), CatalogError>((self@, at as int)),
                decreases across - i,
            {
                match self.place(g, def, d, start, background, i, j, at) {
                    Err(e) => {
                        proof {
                            lemma_placed_line_fails(
                                line,
                                *g,
                                def@,
                                d as int,
                                first,
                                j as int,
                                from as int,
                                i + 1,
                                across as int,
                            );
                            lemma_placed_lines_fail(
                                held,
                                *g,
                                def@,
                                d as int,
                                first,
                                j + 1,
                                down as int,
                            );
                        }
                        return Err(e);
                    },
                    Ok(next) => {
                        at = next;
                    },
                }
                i += 1;
            }
            j += 1;
        }
        Ok(())
    }

    /// Resolves the definitions of a sheet, in order.
    pub fn build(g: &Geometry, definitions: &Vec<TileDefinition>) -> (r: Result<
        Catalog,
        CatalogError,
    >)
        ensures
            match built(*g, definition_views(definitions@)) {
                Ok(view) => r matches Ok(catalog) && catalog@ == view,
                Err(e) => r matches Err(x) && x == e,
            },
    {
        if g.tile_width == 0 || g.tile_height == 0 {
            return Err(CatalogError::ZeroCell);
        }
        let ghost views = definition_views(definitions@);
        let mut catalog = Catalog::new();
        let mut d: usize = 0;
        while d < definitions.len()
            invariant
                d <= definitions.len(),
                g.tile_width > 0,
                g.tile_height > 0,
                views == definition_views(definitions@),
                built_upto(*g, views, d as int) == Ok::<CatalogView, CatalogError>(catalog@),
            decreases definitions.len() - d,
        {
            assert(views[d as int] == definitions@[d as int]@);
            match catalog.define(g, &definitions[d], d) {
                Err(e) => {
                    proof {
                        lemma_built_fails(*g, views, d + 1, definitions.len() as int);
                    }
                    return Err(e);
                },
                Ok(()) => {},
            }
            d += 1;
        }
        Ok(catalog)
    }
}

/// Once a cell fails, its line fails with the same error.
pub proof fn lemma_placed_line_fails(
    c: CatalogView,
    g: Geometry,
    def: DefinitionView,
    d: int,
    start: Start,
    j: int,
    at: int,
    n: int,
    m: int,
)
    requires
        n <= m,
        placed_line(c, g, def, d, start, j, at, n).is_err(),
    ensures
        placed_line(c, g, def, d, start, j, at, m) == placed_line(c, g, def, d, start, j, at, n),
    decreases m - n,
{
    if n < m {
        lemma_placed_line_fails(c, g, def, d, start, j, at, n, m - 1);
    }
}

/// Once a line fails, the definition fails with the same error.
pub proof fn lemma_placed_lines_fail(
    c: CatalogView,
    g: Geometry,
    def: DefinitionView,
    d: int,
    start: Start,
    n: int,
    m: int,
)
    requires
        n <= m,
        placed_lines(c, g, def, d, start, n).is_err(),
    ensures
        placed_lines(c, g, def, d, start, m) == placed_lines(c, g, def, d, start, n),
    decreases m - n,
{
    if n < m {
        lemma_placed_lines_fail(c, g, def, d, start, n, m - 1);
    }
}

/// Once a definition fails, the sheet fails with the same error.
pub proof fn lemma_built_fails(g: Geometry, defs: Seq<DefinitionView>, n: int, m: int)
    requires
        n <= m,
        built_upto(g, defs, n).is_err(),
    ensures
        built_upto(g, defs, m) == built_upto(g, defs, n),
    decreases m - n,
{
    if n < m {
        lemma_built_fails(g, defs, n, m - 1);
    }
}

/// The cells of a line take consecutive tile-memory indices, one stride
/// apart; the next free index advances with them, unless the definition is
/// an alias.
pub proof fn lemma_placed_line_advances(
    c: CatalogView,
    g: Geometry,
    def: DefinitionView,
    d: int,
    start: Start,
    j: int,
    at: int,
    n: int,
)
    requires
        0 <= n,
        placed_line(c, g, def, d, start, j, at, n).is_ok(),
    ensures
        ({
            let (after, next) = placed_line(c, g, def, d, start, j, at, n).unwrap();
            let stride = mode_of(g, def).spec_stride(g.tile_width) as int;
            &&& next == at + n * stride
            &&& after.next_index == if def.alias is None {
                c.next_index + n * stride
            } else {
                c.next_index as int
            }
        }),
    decreases n,
{
    let stride = mode_of(g, def).spec_stride(g.tile_width) as int;
    if n > 0 {
        lemma_placed_line_advances(c, g, def, d, start, j, at, n - 1);
        assert(n * stride == (n - 1) * stride + stride) by (nonlinear_arith);
    } else {
        assert(n * stride == 0) by (nonlinear_arith)
            requires
                n == 0,
        ;
    }
}

/// The lines of a definition take consecutive tile-memory indices.
pub proof fn lemma_placed_lines_advance(
    c: CatalogView,
    g: Geometry,
    def: DefinitionView,
    d: int,
    start: Start,
    n: int,
)
    requires
        g.tile_width > 0,
        0 <= n,
        placed_lines(c, g, def, d, start, n).is_ok(),
    ensures
        ({
            let (after, next) = placed_lines(c, g, def, d, start, n).unwrap();
            let stride = mode_of(g, def).spec_stride(g.tile_width) as int;
            let across = def.width as int / g.tile_width as int;
            &&& next == start.index + n * across * stride
            &&& after.next_index == if def.alias is None {
                c.next_index + n * across * stride
            } else {
                c.next_index as int
            }
        }),
    decreases n,
{
    let stride = mode_of(g, def).spec_stride(g.tile_width) as int;
    let across = def.width as int / g.tile_width as int;
    if n > 0 {
        lemma_placed_lines_advance(c, g, def, d, start, n - 1);
        let (held, from) = placed_lines(c, g, def, d, start, n - 1).unwrap();
        assert(across >= 0);
        lemma_placed_line_advances(held, g, def, d, start, n - 1, from, across);
        assert(n * across * stride == (n - 1) * across * stride + across * stride)
            by (nonlinear_arith);
    } else {
        assert(n * across * stride == 0) by (nonlinear_arith)
            requires
                n == 0,
        ;
    }
}

/// A definition that is no alias starts at the next free tile-memory index
/// and advances it by one stride of its mode for each of its cells; an
/// alias leaves the next free index where it was.
pub proof fn lemma_defined_advances(c: CatalogView, g: Geometry, def: DefinitionView, d: int)
    requires
        g.tile_width > 0,
        g.tile_height > 0,
        defined(c, g, def, d).is_ok(),
    ensures
        ({
            let after = defined(c, g, def, d).unwrap();
            let cells = (def.height as int / g.tile_height as int) * (def.width as int
                / g.tile_width as int);
            let stride = mode_of(g, def).spec_stride(g.tile_width) as int;
            &&& opened(c, g, def, d).is_ok()
            &&& def.alias is None ==> opened(c, g, def, d).unwrap().1.index == c.next_index
            &&& after.next_index == if def.alias is None {
                c.next_index + cells * stride
            } else {
                c.next_index as int
            }
            &&& after.next_index >= c.next_index
        }),
{
    let (held, start) = opened(c, g, def, d).unwrap();
    let down = def.height as int / g.tile_height as int;
    let across = def.width as int / g.tile_width as int;
    let stride = mode_of(g, def).spec_stride(g.tile_width) as int;
    lemma_placed_lines_advance(held, g, def, d, start, down);
    assert(0 <= down * across * stride) by (nonlinear_arith)
        requires
            0 <= down,
            0 <= across,
            0 <= stride,
    ;
}

/// The next free tile-memory index never falls from one definition to the
/// next.
pub proof fn lemma_built_monotone(g: Geometry, defs: Seq<DefinitionView>, n: int, m: int)
    requires
        g.tile_width > 0,
        g.tile_height > 0,
        0 <= n <= m,
        built_upto(g, defs, m).is_ok(),
    ensures
        built_upto(g, defs, n).is_ok(),
        built_upto(g, defs, n).unwrap().next_index <= built_upto(g, defs, m).unwrap().next_index,
    decreases m - n,
{
    if n < m {
        lemma_built_monotone(g, defs, n, m - 1);
        lemma_defined_advances(built_upto(g, defs, m - 1).unwrap(), g, defs[m - 1], m - 1);
    }
}

} // verus!
