//! Pixel bytes: cutting the bytes of one tile cell out of the bytes of a
//! tile definition, and laying the bytes of a run out scanline by scanline.

use crate::tile::{Config, Tile};
use vstd::prelude::*;

verus! {

/// The product of two 32-bit numbers.
pub fn product(a: u32, b: u32) -> (r: u64)
    ensures
        r == a * b,
        r <= 0xffff_fffe_0000_0001,
{
    assert(a * b <= 0xffff_ffff * 0xffff_ffff) by (nonlinear_arith)
        requires
            0 <= a <= 0xffff_ffff,
            0 <= b <= 0xffff_ffff,
    ;
    (a as u64) * (b as u64)
}

/// `n` rows of `w` bytes each, taken from `gfx` every `pitch` bytes from
/// `base` on.
pub open spec fn rows_of(gfx: Seq<u8>, base: int, pitch: int, w: int, n: int) -> Seq<u8>
    decreases n,
{
    if n <= 0 {
        Seq::empty()
    } else {
        rows_of(gfx, base, pitch, w, n - 1) + gfx.subrange(
            base + (n - 1) * pitch,
            base + (n - 1) * pitch + w,
        )
    }
}

/// Offset of the first byte of cell `(i, j)` in the bytes of a definition
/// that is `across` cells wide, with cells of `w` bytes by `rows` scanlines.
pub open spec fn cell_base(i: int, j: int, across: int, rows: int, w: int) -> int {
    j * rows * (w * across) + i * w
}

/// The bytes of cell `(i, j)`: `rows` scanlines of `w` bytes. `None` where
/// the definition's bytes end before the cell does.
pub open spec fn cell_bytes(gfx: Seq<u8>, i: int, j: int, across: int, rows: int, w: int) -> Option<
    Seq<u8>,
> {
    let base = cell_base(i, j, across, rows, w);
    let pitch = w * across;
    if rows <= 0 {
        Some(Seq::empty())
    } else if base + (rows - 1) * pitch + w <= gfx.len() {
        Some(rows_of(gfx, base, pitch, w, rows))
    } else {
        None
    }
}

/// `n` rows of `w` bytes are `n * w` bytes.
pub proof fn lemma_rows_of_len(gfx: Seq<u8>, base: int, pitch: int, w: int, n: int)
    requires
        0 <= n,
        0 <= w,
        0 <= base,
        0 <= pitch,
        n > 0 ==> base + (n - 1) * pitch + w <= gfx.len(),
    ensures
        rows_of(gfx, base, pitch, w, n).len() == n * w,
    decreases n,
{
    if n > 0 {
        assert((n - 2) * pitch <= (n - 1) * pitch) by (nonlinear_arith)
            requires
                0 <= pitch,
        ;
        assert(0 <= (n - 1) * pitch) by (nonlinear_arith)
            requires
                0 <= pitch,
                1 <= n,
        ;
        lemma_rows_of_len(gfx, base, pitch, w, n - 1);
        assert(n * w == (n - 1) * w + w) by (nonlinear_arith);
    } else {
        assert(n * w == 0) by (nonlinear_arith)
            requires
                n == 0,
        ;
    }
}

/// Cuts the bytes of cell `(i, j)` out of the bytes of a definition.
pub fn cut_cell(gfx: &Vec<u8>, i: u32, j: u32, across: u32, rows: u32, w: u8) -> (r: Option<
    Vec<u8>,
>)
    requires
        1 <= w,
    ensures
        match r {
            Some(bytes) => cell_bytes(
                gfx@,
                i as int,
                j as int,
                across as int,
                rows as int,
                w as int,
            ) == Some(bytes@),
            None => cell_bytes(
                gfx@,
                i as int,
                j as int,
                across as int,
                rows as int,
                w as int,
            ).is_none(),
        },
        r matches Some(bytes) ==> bytes@.len() == rows * w,
{
    if rows == 0 {
        assert(rows * w == 0) by (nonlinear_arith)
            requires
                rows == 0,
        ;
        return Some(Vec::new());
    }
    let pitch: u64 = product(w as u32, across);
    let down: u64 = product(j, rows);
    let aside: u64 = product(i, w as u32);
    assert(pitch <= 0xff * 0xffff_ffff) by (nonlinear_arith)
        requires
            pitch == w * across,
            0 <= w <= 0xff,
            0 <= across <= 0xffff_ffff,
    ;
    assert(down * pitch <= 0xffff_ffff_ffff_ffff * 0xff_ffff_ffff) by (nonlinear_arith)
        requires
            0 <= down <= 0xffff_ffff_ffff_ffff,
            0 <= pitch <= 0xff_ffff_ffff,
    ;
    assert((rows - 1) * pitch <= 0xffff_ffff * 0xff_ffff_ffff) by (nonlinear_arith)
        requires
            0 <= rows - 1 <= 0xffff_ffff,
            0 <= pitch <= 0xff_ffff_ffff,
    ;
    assert(j * rows * (w * across) == down * pitch);
    let base: u128 = (down as u128) * (pitch as u128) + aside as u128;
    let end: u128 = base + ((rows - 1) as u128) * (pitch as u128) + (w as u128);
    if end > gfx.len() as u128 {
        return None;
    }
    proof {
        lemma_rows_of_len(gfx@, base as int, pitch as int, w as int, rows as int);
    }
    let mut out: Vec<u8> = Vec::new();
    let mut y: u32 = 0;
    let mut at: usize = base as usize;
    while y < rows
        invariant
            y <= rows,
            1 <= w,
            0 <= base,
            y < rows ==> at == base + y * pitch,
            base + (rows - 1) * pitch + w <= gfx.len(),
            out@ == rows_of(gfx@, base as int, pitch as int, w as int, y as int),
        decreases rows - y,
    {
        assert(y * pitch <= (rows - 1) * pitch) by (nonlinear_arith)
            requires
                y <= rows - 1,
                0 <= pitch,
        ;
        let mut c: usize = 0;
        let ghost before = out@;
        while c < w as usize
            invariant
                c <= w,
                at + w <= gfx.len(),
                out@ == before + gfx@.subrange(at as int, at + c),
            decreases w - c,
        {
            out.push(gfx[at + c]);
            assert(out@ =~= before + gfx@.subrange(at as int, at + c + 1));
            c += 1;
        }
        if y + 1 < rows {
            assert((y + 1) * pitch <= (rows - 1) * pitch) by (nonlinear_arith)
                requires
                    y + 1 <= rows - 1,
                    0 <= pitch,
            ;
            assert((y + 1) * pitch == y * pitch + pitch) by (nonlinear_arith);
            at = at + pitch as usize;
        }
        y += 1;
    }
    Some(out)
}

/// Bytes in one scanline of one tile: the bytes of one index slot times
/// the slots of the tile's mode.
pub open spec fn spec_row_bytes(t: Tile, config: Config) -> usize {
    (config.spec_bytes_per_tile() * t.mode.spec_slots()) as usize
}

/// Bytes in one scanline of one tile.
#[verifier::when_used_as_spec(spec_row_bytes)]
pub fn row_bytes(t: Tile, config: Config) -> (r: usize)
    ensures
        r == spec_row_bytes(t, config),
        1 <= r <= 4,
{
    config.bytes_per_tile() * t.mode.slots()
}

/// Scanline `y` of the first `n` tiles: for each tile in turn, the bytes
/// of row `y` of its payload.
pub open spec fn scanline(
    tiles: Seq<Tile>,
    payloads: Seq<Seq<u8>>,
    config: Config,
    y: int,
    n: int,
) -> Seq<u8>
    decreases n,
{
    if n <= 0 {
        Seq::empty()
    } else {
        let t = tiles[n - 1];
        let w = spec_row_bytes(t, config) as int;
        scanline(tiles, payloads, config, y, n - 1) + payloads[t.payload as int].subrange(
            y * w,
            y * w + w,
        )
    }
}

/// The first `n` scanlines of a run, one after the other.
pub open spec fn scanlines(tiles: Seq<Tile>, payloads: Seq<Seq<u8>>, config: Config, n: int) -> Seq<
    u8,
>
    decreases n,
{
    if n <= 0 {
        Seq::empty()
    } else {
        scanlines(tiles, payloads, config, n - 1) + scanline(
            tiles,
            payloads,
            config,
            n - 1,
            tiles.len() as int,
        )
    }
}

/// Every tile has a payload, with bytes for every scanline of a cell.
pub open spec fn payloads_cover(tiles: Seq<Tile>, payloads: Seq<Seq<u8>>, config: Config) -> bool {
    forall|k: int|
        0 <= k < tiles.len() ==> (#[trigger] tiles[k]).payload < payloads.len()
            && payloads[tiles[k].payload as int].len() >= config.tile_height * spec_row_bytes(
            tiles[k],
            config,
        )
}

/// The pixel bytes of an immediate blob: scanline by scanline, and within
/// a scanline tile by tile. `None` where a tile lacks bytes.
pub open spec fn blob_bytes(tiles: Seq<Tile>, payloads: Seq<Seq<u8>>, config: Config) -> Option<
    Seq<u8>,
> {
    if payloads_cover(tiles, payloads, config) {
        Some(scanlines(tiles, payloads, config, config.tile_height as int))
    } else {
        None
    }
}

/// The payloads of a list, as mathematical values.
pub open spec fn payload_views(payloads: Seq<Vec<u8>>) -> Seq<Seq<u8>> {
    Seq::new(payloads.len(), |i: int| payloads[i]@)
}

fn covered(tiles: &Vec<Tile>, payloads: &Vec<Vec<u8>>, config: &Config) -> (r: bool)
    ensures
        r == payloads_cover(tiles@, payload_views(payloads@), *config),
{
    let mut k: usize = 0;
    while k < tiles.len()
        invariant
            k <= tiles.len(),
            forall|m: int|
                0 <= m < k ==> (#[trigger] tiles@[m]).payload < payloads@.len() && payloads@[tiles@[m].payload as int]@.len()
                    >= config.tile_height * spec_row_bytes(tiles@[m], *config),
        decreases tiles.len() - k,
    {
        let t: Tile = tiles[k];
        if t.payload >= payloads.len() {
            return false;
        }
        let need: u64 = product(config.tile_height, row_bytes(t, *config) as u32);
        if (payloads[t.payload].len() as u64) < need {
            return false;
        }
        k += 1;
    }
    true
}

/// Lays out the pixel bytes of an immediate blob.
pub fn blob_payload(tiles: &Vec<Tile>, payloads: &Vec<Vec<u8>>, config: &Config) -> (r: Option<
    Vec<u8>,
>)
    ensures
        match r {
            Some(bytes) => blob_bytes(tiles@, payload_views(payloads@), *config) == Some(bytes@),
            None => blob_bytes(tiles@, payload_views(payloads@), *config).is_none(),
        },
{
    if !covered(tiles, payloads, config) {
        return None;
    }
    let ghost views = payload_views(payloads@);
    let mut out: Vec<u8> = Vec::new();
    let mut y: u32 = 0;
    while y < config.tile_height
        invariant
            y <= config.tile_height,
            views == payload_views(payloads@),
            payloads_cover(tiles@, views, *config),
            out@ == scanlines(tiles@, views, *config, y as int),
        decreases config.tile_height - y,
    {
        let ghost lines = out@;
        let mut k: usize = 0;
        while k < tiles.len()
            invariant
                k <= tiles.len(),
                y < config.tile_height,
                views == payload_views(payloads@),
                payloads_cover(tiles@, views, *config),
                out@ == lines + scanline(tiles@, views, *config, y as int, k as int),
            decreases tiles.len() - k,
        {
            let t: Tile = tiles[k];
            let w: usize = row_bytes(t, *config);
            let bytes = &payloads[t.payload];
            assert(bytes@ == views[t.payload as int]);
            assert(y * w + w <= config.tile_height * w) by (nonlinear_arith)
                requires
                    y + 1 <= config.tile_height,
                    0 <= w,
            ;
            let size: usize = bytes.len();
            assert(size >= config.tile_height * w);
            assert(0 <= y * w) by (nonlinear_arith)
                requires
                    0 <= y,
                    0 <= w,
            ;
            let from: usize = (y as usize) * w;
            let ghost held = out@;
            let mut b: usize = 0;
            while b < w
                invariant
                    b <= w,
                    size == bytes@.len(),
                    from + w <= size,
                    out@ == held + bytes@.subrange(from as int, from + b),
                decreases w - b,
            {
                out.push(bytes[from + b]);
                assert(out@ =~= held + bytes@.subrange(from as int, from + b + 1));
                b += 1;
            }
            assert(out@ =~= lines + scanline(tiles@, views, *config, y as int, k + 1));
            k += 1;
        }
        y += 1;
    }
    Some(out)
}

} // verus!
