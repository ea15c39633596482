//! The pixel encoder: turns the pixels of a sprite into the bytes of its
//! graphics mode, assigning palette entries to colours as it meets them.

use crate::mode::Mode;
use vstd::prelude::*;

verus! {

/// A colour without transparency.
#[derive(Clone, Copy, Debug, PartialEq, Eq, Structural)]
pub struct Rgb {
    pub r: u8,
    pub g: u8,
    pub b: u8,
}

/// A pixel: a colour and its opacity.
#[derive(Clone, Copy, Debug, PartialEq, Eq, Structural)]
pub struct Rgba {
    pub r: u8,
    pub g: u8,
    pub b: u8,
    pub a: u8,
}

/// Number of palette entries that the encoder keeps.
pub const PALETTE_SIZE: usize = 12;

/// The mathematical value of an [`Image`].
pub struct ImageView {
    pub width: nat,
    pub height: nat,
    /// The pixels, row after row.
    pub pixels: Seq<Rgba>,
}

/// The pixels of a sheet.
pub struct Image {
    width: u32,
    height: u32,
    pixels: Vec<Rgba>,
}

impl View for Image {
    type V = ImageView;

    closed spec fn view(&self) -> ImageView {
        ImageView { width: self.width as nat, height: self.height as nat, pixels: self.pixels@ }
    }
}

/// The pixel at `(x, y)`, if the image has one there.
pub open spec fn pixel_at(img: ImageView, x: int, y: int) -> Option<Rgba> {
    if 0 <= x < img.width && 0 <= y < img.height && 0 <= y * img.width + x < img.pixels.len() {
        Some(img.pixels[y * img.width + x])
    } else {
        None
    }
}

impl Image {
    #[verifier::type_invariant]
    spec fn sized(&self) -> bool {
        self.pixels@.len() == self.width * self.height
    }

    /// An image of `width` by `height` pixels; `None` unless `pixels` holds
    /// exactly `width * height` of them.
    pub fn new(width: u32, height: u32, pixels: Vec<Rgba>) -> (r: Option<Image>)
        ensures
            match r {
                Some(img) => pixels@.len() == width * height && img@ == (ImageView {
                    width: width as nat,
                    height: height as nat,
                    pixels: pixels@,
                }),
                None => pixels@.len() != width * height,
            },
    {
        let held: usize = pixels.len();
        assert(width * height <= 0xffff_ffff * 0xffff_ffff) by (nonlinear_arith)
            requires
                0 <= width <= 0xffff_ffff,
                0 <= height <= 0xffff_ffff,
        ;
        if (width as u64) * (height as u64) == held as u64 {
            Some(Image { width, height, pixels })
        } else {
            None
        }
    }

    /// Pixels in a row.
    pub fn width(&self) -> (w: u32)
        ensures
            w == self@.width,
    {
        self.width
    }

    /// Rows.
    pub fn height(&self) -> (h: u32)
        ensures
            h == self@.height,
    {
        self.height
    }

    /// The pixel at `(x, y)`, if the image has one there.
    pub fn get(&self, x: u64, y: u64) -> (r: Option<Rgba>)
        ensures
            r == pixel_at(self@, x as int, y as int),
    {
        proof {
            use_type_invariant(self);
        }
        if x < self.width as u64 && y < self.height as u64 {
            let held: usize = self.pixels.len();
            assert(0 <= y * self.width <= y * self.width + x < held) by (nonlinear_arith)
                requires
                    0 <= x < self.width,
                    0 <= y < self.height,
                    held == self.width * self.height,
            ;
            Some(self.pixels[(y * self.width as u64 + x) as usize])
        } else {
            None
        }
    }
}

/// What the encoder needs to know of a sprite.
#[derive(Clone, Copy, Debug, PartialEq, Eq, Structural)]
pub struct Sprite {
    pub left: u32,
    pub top: u32,
    pub width: u32,
    pub height: u32,
    pub mode: Mode,
    /// The sprite names a palette.
    pub named_palette: bool,
    /// The sprite lies over a background, which takes the colours that
    /// find no palette entry.
    pub has_background: bool,
}

/// Why a sprite cannot be encoded.
#[derive(Clone, Copy, Debug, PartialEq, Eq, Structural)]
pub enum GfxError {
    /// The palette holds more colours than the encoder keeps entries.
    PaletteTooLong,
    /// The sprite reaches outside the image at this pixel.
    PixelOutside(u64, u64),
    /// The sprite has more colours than its mode allows.
    TooManyColors,
    /// In mode 320C, the pixel pair that starts at this pixel of this row
    /// of the sprite holds two different colours.
    PairedPixels(u32, u32),
}

/// Width of one pixel of the mode, in pixels of the image.
pub open spec fn spec_pixel_width(mode: Mode) -> u32 {
    match mode {
        Mode::M160A | Mode::M160B => 2,
        _ => 1,
    }
}

/// Width of one pixel of the mode, in pixels of the image.
#[verifier::when_used_as_spec(spec_pixel_width)]
pub fn pixel_width(mode: Mode) -> (w: u32)
    ensures
        w == spec_pixel_width(mode),
{
    match mode {
        Mode::M160A | Mode::M160B => 2,
        _ => 1,
    }
}

/// The colour of a pixel.
pub open spec fn spec_rgb(p: Rgba) -> Rgb {
    Rgb { r: p.r, g: p.g, b: p.b }
}

/// Black, which also marks a palette entry as free.
pub open spec fn black() -> Rgb {
    Rgb { r: 0, g: 0, b: 0 }
}

/// The pixel counts as background: transparent or black.
pub open spec fn spec_blank(p: Rgba) -> bool {
    p.a == 0 || spec_rgb(p) == black()
}

/// The pixel is looked up in the palette: with a named palette every
/// pixel that is not transparent, without one every pixel that is not
/// black.
pub open spec fn spec_sought(p: Rgba, named: bool) -> bool {
    (p.a != 0 && named) || (!named && spec_rgb(p) != black())
}

/// The first of the entries from `from` up to `max` that holds `c`.
pub open spec fn entry_of(colors: Seq<Rgb>, c: Rgb, max: int, from: int) -> Option<int>
    decreases max - from,
{
    if from < 0 || from >= max || from >= colors.len() {
        None
    } else if colors[from] == c {
        Some(from)
    } else {
        entry_of(colors, c, max, from + 1)
    }
}

/// The palette before the first pixel: the given colours, where the mode
/// has more than one, and black in every other entry.
pub open spec fn initial_colors(palette: Seq<Rgb>, mode: Mode) -> Seq<Rgb> {
    Seq::new(
        PALETTE_SIZE as nat,
        |i: int|
            if mode.spec_max_colors() != 1 && i < palette.len() {
                palette[i]
            } else {
                black()
            },
    )
}

/// The colour code of a pixel and the palette after it. A pixel that is
/// sought and found gets the number of its entry plus one. Failing that, a
/// background pixel gets 0; any other colour takes the first free entry;
/// and when none is free, it gets 0 over a background and is an error
/// without one. The flag says whether the pixel got an entry.
pub open spec fn coded(colors: Seq<Rgb>, p: Rgba, sprite: Sprite) -> Result<
    (Seq<Rgb>, u8, bool),
    GfxError,
> {
    let max = sprite.mode.spec_max_colors() as int;
    let found = if spec_sought(p, sprite.named_palette) {
        entry_of(colors, spec_rgb(p), max, 0)
    } else {
        None
    };
    match found {
        Some(c) => Ok((colors, (c + 1) as u8, true)),
        None => if spec_blank(p) {
            Ok((colors, 0u8, false))
        } else {
            match entry_of(colors, black(), max, 0) {
                Some(c) => Ok((colors.update(c, spec_rgb(p)), (c + 1) as u8, true)),
                None => if sprite.has_background {
                    Ok((colors, 0u8, false))
                } else {
                    Err(GfxError::TooManyColors)
                },
            }
        },
    }
}

/// The bits of one pixel of mode 160B: the code's place in the sixteen
/// colours, its two low bits in bits 4 and 5, its two high bits in bits 0
/// and 1.
pub open spec fn spec_bits_160b(code: u8) -> u8 {
    let c: u8 = if code <= 3 {
        code
    } else if code <= 6 {
        (code + 1) as u8
    } else if code <= 9 {
        (code + 2) as u8
    } else if code <= 12 {
        (code + 3) as u8
    } else {
        0
    };
    (if c & 1 != 0 {
        16u8
    } else {
        0u8
    }) | (if c & 2 != 0 {
        32u8
    } else {
        0u8
    }) | (if c & 4 != 0 {
        1u8
    } else {
        0u8
    }) | (if c & 8 != 0 {
        2u8
    } else {
        0u8
    })
}

/// The bits of one pixel of mode 320B: the low bit of the code in bit 0,
/// the next in bit 4.
pub open spec fn spec_bits_320b(code: u8) -> u8 {
    (if code & 1 != 0 {
        1u8
    } else {
        0u8
    }) | (if code & 2 != 0 {
        16u8
    } else {
        0u8
    })
}

/// The byte in progress with pixel number `bits` of mode 320C added: a
/// pixel that is not background sets its own bit, from bit 7 down, and
/// writes its colour in bits 2 and 3 in the first pair of the byte, in
/// bits 0 and 1 in the second.
pub open spec fn spec_bits_320c(byte: u8, bits: u8, code: u8) -> u8 {
    if code == 0 || bits > 3 {
        byte
    } else if bits < 2 {
        byte | (1u8 << ((7 - bits) as u8)) | (((code - 1) as u8) << 2u8)
    } else {
        byte | (1u8 << ((7 - bits) as u8)) | ((code - 1) as u8)
    }
}

/// The packer's state inside a byte.
pub struct Packing {
    /// The byte in progress.
    pub byte: u8,
    /// How much of it is filled, in the unit of the mode.
    pub bits: u8,
    /// The byte that was completed, if one was.
    pub done: Option<u8>,
}

/// The packer after one pixel with colour code `code`.
pub open spec fn packed(mode: Mode, byte: u8, bits: u8, code: u8) -> Packing {
    match mode {
        Mode::M160A => {
            let b = byte | code;
            if bits + 2 == 8 {
                Packing { byte: 0, bits: 0, done: Some(b) }
            } else {
                Packing { byte: b << 2u8, bits: (bits + 2) as u8, done: None }
            }
        },
        Mode::M320A | Mode::M320D => {
            let b = byte | code;
            if bits + 1 == 8 {
                Packing { byte: 0, bits: 0, done: Some(b) }
            } else {
                Packing { byte: b << 1u8, bits: (bits + 1) as u8, done: None }
            }
        },
        Mode::M160B => {
            let b = byte | spec_bits_160b(code);
            if bits + 1 == 2 {
                Packing { byte: 0, bits: 0, done: Some(b) }
            } else {
                Packing { byte: b << 2u8, bits: (bits + 1) as u8, done: None }
            }
        },
        Mode::M320B => {
            let b = byte | spec_bits_320b(code);
            if bits + 1 == 4 {
                Packing { byte: 0, bits: 0, done: Some(b) }
            } else {
                Packing { byte: b << 1u8, bits: (bits + 1) as u8, done: None }
            }
        },
        Mode::M320C => {
            let b = spec_bits_320c(byte, bits, code);
            if bits + 1 == 4 {
                Packing { byte: 0, bits: 0, done: Some(b) }
            } else {
                Packing { byte: b, bits: (bits + 1) as u8, done: None }
            }
        },
    }
}

/// Fill levels that the packer of a mode can be at between two pixels.
pub open spec fn level(mode: Mode, bits: u8) -> bool {
    match mode {
        Mode::M160A => bits == 0 || bits == 2 || bits == 4 || bits == 6,
        Mode::M320A | Mode::M320D => bits < 8,
        Mode::M160B => bits < 2,
        Mode::M320B | Mode::M320C => bits < 4,
    }
}

/// The encoder's state between two pixels.
pub struct State {
    /// The palette so far.
    pub colors: Seq<Rgb>,
    /// The bytes completed so far.
    pub bytes: Seq<u8>,
    /// The byte in progress.
    pub byte: u8,
    /// How much of it is filled.
    pub bits: u8,
}

/// The state after pixel `x` of row `y` of the sprite. In mode 320C a
/// pixel at an even place that got a palette entry must be followed by a
/// background pixel or by a pixel equal to it.
pub open spec fn stepped(img: ImageView, sprite: Sprite, st: State, x: int, y: int) -> Result<
    State,
    GfxError,
> {
    let xp = sprite.left + x * spec_pixel_width(sprite.mode);
    let yp = sprite.top + y;
    match pixel_at(img, xp, yp) {
        None => Err(GfxError::PixelOutside(xp as u64, yp as u64)),
        Some(p) => match coded(st.colors, p, sprite) {
            Err(e) => Err(e),
            Ok((colors, code, entered)) => {
                let next = pixel_at(img, xp + 1, yp);
                if sprite.mode == Mode::M320C && entered && x % 2 == 0 && next.is_none() {
                    Err(GfxError::PixelOutside((xp + 1) as u64, yp as u64))
                } else if sprite.mode == Mode::M320C && entered && x % 2 == 0 && !spec_blank(
                    next.unwrap(),
                ) && next.unwrap() != p {
                    Err(GfxError::PairedPixels(x as u32, y as u32))
                } else {
                    let after = packed(sprite.mode, st.byte, st.bits, code);
                    Ok(
                        State {
                            colors,
                            bytes: match after.done {
                                Some(b) => st.bytes.push(b),
                                None => st.bytes,
                            },
                            byte: after.byte,
                            bits: after.bits,
                        },
                    )
                }
            },
        },
    }
}

/// The state after the first `n` pixels of row `y`.
pub open spec fn row_encoded(img: ImageView, sprite: Sprite, st: State, y: int, n: int) -> Result<
    State,
    GfxError,
>
    decreases n,
{
    if n <= 0 {
        Ok(st)
    } else {
        match row_encoded(img, sprite, st, y, n - 1) {
            Err(e) => Err(e),
            Ok(held) => stepped(img, sprite, held, n - 1, y),
        }
    }
}

/// Pixels of the mode in one row of the sprite.
pub open spec fn per_row(sprite: Sprite) -> int {
    sprite.width as int / spec_pixel_width(sprite.mode) as int
}

/// The palette and the bytes after the first `n` rows. Every row starts a
/// new byte; what is left of an unfinished byte at the end of a row is
/// dropped.
pub open spec fn rows_encoded(
    img: ImageView,
    sprite: Sprite,
    colors: Seq<Rgb>,
    n: int,
) -> Result<(Seq<Rgb>, Seq<u8>), GfxError>
    decreases n,
{
    if n <= 0 {
        Ok((colors, Seq::empty()))
    } else {
        match rows_encoded(img, sprite, colors, n - 1) {
            Err(e) => Err(e),
            Ok((held, bytes)) => match row_encoded(
                img,
                sprite,
                State { colors: held, bytes, byte: 0, bits: 0 },
                n - 1,
                per_row(sprite),
            ) {
                Err(e) => Err(e),
                Ok(st) => Ok((st.colors, st.bytes)),
            },
        }
    }
}

/// The bytes of a sprite.
pub open spec fn encoded_sprite(img: ImageView, sprite: Sprite, palette: Seq<Rgb>) -> Result<
    Seq<u8>,
    GfxError,
> {
    if palette.len() > PALETTE_SIZE {
        Err(GfxError::PaletteTooLong)
    } else {
        match rows_encoded(
            img,
            sprite,
            initial_colors(palette, sprite.mode),
            sprite.height as int,
        ) {
            Err(e) => Err(e),
            Ok((_, bytes)) => Ok(bytes),
        }
    }
}

/// Once a pixel fails, its row fails with the same error.
pub proof fn lemma_row_encoded_fails(
    img: ImageView,
    sprite: Sprite,
    st: State,
    y: int,
    n: int,
    m: int,
)
    requires
        n <= m,
        row_encoded(img, sprite, st, y, n).is_err(),
    ensures
        row_encoded(img, sprite, st, y, m) == row_encoded(img, sprite, st, y, n),
    decreases m - n,
{
    if n < m {
        lemma_row_encoded_fails(img, sprite, st, y, n, m - 1);
    }
}

/// Once a row fails, the sprite fails with the same error.
pub proof fn lemma_rows_encoded_fail(
    img: ImageView,
    sprite: Sprite,
    colors: Seq<Rgb>,
    n: int,
    m: int,
)
    requires
        n <= m,
        rows_encoded(img, sprite, colors, n).is_err(),
    ensures
        rows_encoded(img, sprite, colors, m) == rows_encoded(img, sprite, colors, n),
    decreases m - n,
{
    if n < m {
        lemma_rows_encoded_fail(img, sprite, colors, n, m - 1);
    }
}

fn rgb(p: Rgba) -> (c: Rgb)
    ensures
        c == spec_rgb(p),
{
    Rgb { r: p.r, g: p.g, b: p.b }
}

fn is_black(c: Rgb) -> (r: bool)
    ensures
        r == (c == black()),
{
    c.r == 0 && c.g == 0 && c.b == 0
}

fn blank(p: Rgba) -> (r: bool)
    ensures
        r == spec_blank(p),
{
    p.a == 0 || is_black(rgb(p))
}

fn find_entry(colors: &Vec<Rgb>, c: Rgb, max: usize) -> (r: Option<usize>)
    ensures
        match r {
            Some(i) => entry_of(colors@, c, max as int, 0) == Some(i as int) && i < max && i
                < colors@.len(),
            None => entry_of(colors@, c, max as int, 0).is_none(),
        },
{
    let mut i: usize = 0;
    while i < max && i < colors.len()
        invariant
            entry_of(colors@, c, max as int, 0) == entry_of(colors@, c, max as int, i as int),
        decreases max - i,
    {
        if colors[i] == c {
            return Some(i);
        }
        i += 1;
    }
    None
}

fn code_pixel(colors: &mut Vec<Rgb>, p: Rgba, sprite: &Sprite) -> (r: Result<(u8, bool), GfxError>)
    requires
        old(colors)@.len() == PALETTE_SIZE,
    ensures
        final(colors)@.len() == PALETTE_SIZE,
        match coded(old(colors)@, p, *sprite) {
            Ok((after, code, entered)) => r == Ok::<(u8, bool), GfxError>((code, entered))
                && final(colors)@ == after && code <= 12,
            Err(e) => r == Err::<(u8, bool), GfxError>(e),
        },
{
    let max: usize = sprite.mode.max_colors();
    let c: Rgb = rgb(p);
    let sought: bool = (p.a != 0 && sprite.named_palette) || (!sprite.named_palette && !is_black(c));
    let found: Option<usize> = if sought {
        find_entry(colors, c, max)
    } else {
        None
    };
    match found {
        Some(i) => Ok(((i + 1) as u8, true)),
        None => {
            if blank(p) {
                Ok((0, false))
            } else {
                match find_entry(colors, Rgb { r: 0, g: 0, b: 0 }, max) {
                    Some(i) => {
                        colors.set(i, c);
                        Ok(((i + 1) as u8, true))
                    },
                    None => {
                        if sprite.has_background {
                            Ok((0, false))
                        } else {
                            Err(GfxError::TooManyColors)
                        }
                    },
                }
            }
        },
    }
}

fn bits_160b(code: u8) -> (v: u8)
    ensures
        v == spec_bits_160b(code),
{
    let c: u8 = if code <= 3 {
        code
    } else if code <= 6 {
        code + 1
    } else if code <= 9 {
        code + 2
    } else if code <= 12 {
        code + 3
    } else {
        0
    };
    (if c & 1 != 0 {
        16u8
    } else {
        0u8
    }) | (if c & 2 != 0 {
        32u8
    } else {
        0u8
    }) | (if c & 4 != 0 {
        1u8
    } else {
        0u8
    }) | (if c & 8 != 0 {
        2u8
    } else {
        0u8
    })
}

fn bits_320b(code: u8) -> (v: u8)
    ensures
        v == spec_bits_320b(code),
{
    (if code & 1 != 0 {
        1u8
    } else {
        0u8
    }) | (if code & 2 != 0 {
        16u8
    } else {
        0u8
    })
}

fn bits_320c(byte: u8, bits: u8, code: u8) -> (v: u8)
    ensures
        v == spec_bits_320c(byte, bits, code),
{
    if code == 0 || bits > 3 {
        byte
    } else if bits < 2 {
        byte | (1u8 << (7 - bits)) | ((code - 1) << 2u8)
    } else {
        byte | (1u8 << (7 - bits)) | (code - 1)
    }
}

/// Adds one pixel to the byte in progress.
fn pack(mode: Mode, byte: u8, bits: u8, code: u8) -> (r: (u8, u8, Option<u8>))
    requires
        level(mode, bits),
    ensures
        r.0 == packed(mode, byte, bits, code).byte,
        r.1 == packed(mode, byte, bits, code).bits,
        r.2 == packed(mode, byte, bits, code).done,
        level(mode, r.1),
{
    match mode {
        Mode::M160A => {
            let b: u8 = byte | code;
            if bits + 2 == 8 {
                (0, 0, Some(b))
            } else {
                (b << 2u8, bits + 2, None)
            }
        },
        Mode::M320A | Mode::M320D => {
            let b: u8 = byte | code;
            if bits + 1 == 8 {
                (0, 0, Some(b))
            } else {
                (b << 1u8, bits + 1, None)
            }
        },
        Mode::M160B => {
            let b: u8 = byte | bits_160b(code);
            if bits + 1 == 2 {
                (0, 0, Some(b))
            } else {
                (b << 2u8, bits + 1, None)
            }
        },
        Mode::M320B => {
            let b: u8 = byte | bits_320b(code);
            if bits + 1 == 4 {
                (0, 0, Some(b))
            } else {
                (b << 1u8, bits + 1, None)
            }
        },
        Mode::M320C => {
            let b: u8 = bits_320c(byte, bits, code);
            if bits + 1 == 4 {
                (0, 0, Some(b))
            } else {
                (b, bits + 1, None)
            }
        },
    }
}

/// Index of the first palette that bears `name`.
pub open spec fn palette_index(names: Seq<Seq<char>>, name: Seq<char>, from: int) -> Option<int>
    decreases names.len() - from,
{
    if from < 0 || from >= names.len() {
        None
    } else if names[from] == name {
        Some(from)
    } else {
        palette_index(names, name, from + 1)
    }
}

/// The names of a list, as mathematical values.
pub open spec fn name_views(names: Seq<String>) -> Seq<Seq<char>> {
    Seq::new(names.len(), |i: int| names[i]@)
}

/// Finds the first palette that bears `name`.
pub fn find_palette(names: &Vec<String>, name: &str) -> (r: Option<usize>)
    ensures
        match r {
            Some(i) => palette_index(name_views(names@), name@, 0) == Some(i as int),
            None => palette_index(name_views(names@), name@, 0).is_none(),
        },
{
    let ghost views = name_views(names@);
    let wanted: String = name.to_string();
    let mut i: usize = 0;
    while i < names.len()
        invariant
            i <= names.len(),
            wanted@ == name@,
            views == name_views(names@),
            palette_index(views, name@, 0) == palette_index(views, name@, i as int),
        decreases names.len() - i,
    {
        assert(views[i as int] == names@[i as int]@);
        if names[i] == wanted {
            return Some(i);
        }
        i += 1;
    }
    None
}

fn start_colors(palette: &Vec<Rgb>, mode: Mode) -> (colors: Vec<Rgb>)
    requires
        palette@.len() <= PALETTE_SIZE,
    ensures
        colors@ == initial_colors(palette@, mode),
{
    let mut colors: Vec<Rgb> = Vec::new();
    let fill: bool = mode.max_colors() != 1;
    let mut i: usize = 0;
    while i < PALETTE_SIZE
        invariant
            i <= PALETTE_SIZE,
            fill == (mode.spec_max_colors() != 1),
            colors@.len() == i,
            forall|k: int|
                0 <= k < i ==> colors@[k] == (if fill && k < palette@.len() {
                    palette@[k]
                } else {
                    black()
                }),
        decreases PALETTE_SIZE - i,
    {
        if fill && i < palette.len() {
            colors.push(palette[i]);
        } else {
            colors.push(Rgb { r: 0, g: 0, b: 0 });
        }
        i += 1;
    }
    assert(colors@ =~= initial_colors(palette@, mode));
    colors
}

/// The encoder's working state.
struct Work {
    colors: Vec<Rgb>,
    bytes: Vec<u8>,
    byte: u8,
    bits: u8,
}

impl View for Work {
    type V = State;

    closed spec fn view(&self) -> State {
        State { colors: self.colors@, bytes: self.bytes@, byte: self.byte, bits: self.bits }
    }
}

fn step(img: &Image, sprite: &Sprite, work: &mut Work, x: u32, y: u32) -> (r: Result<(), GfxError>)
    requires
        old(work).colors@.len() == PALETTE_SIZE,
        level(sprite.mode, old(work).bits),
    ensures
        final(work).colors@.len() == PALETTE_SIZE,
        level(sprite.mode, final(work).bits),
        match stepped(img@, *sprite, old(work)@, x as int, y as int) {
            Ok(after) => r.is_ok() && final(work)@ == after,
            Err(e) => r == Err::<(), GfxError>(e),
        },
{
    let wide: u64 = crate::payload::product(x, pixel_width(sprite.mode));
    let xp: u64 = sprite.left as u64 + wide;
    let yp: u64 = sprite.top as u64 + y as u64;
    let p: Rgba = match img.get(xp, yp) {
        None => {
            return Err(GfxError::PixelOutside(xp, yp));
        },
        Some(p) => p,
    };
    let (code, entered) = match code_pixel(&mut work.colors, p, sprite) {
        Err(e) => {
            return Err(e);
        },
        Ok(r) => r,
    };
    if sprite.mode == Mode::M320C && entered && x % 2 == 0 {
        match img.get(xp + 1, yp) {
            None => {
                return Err(GfxError::PixelOutside(xp + 1, yp));
            },
            Some(next) => {
                if !blank(next) && next != p {
                    return Err(GfxError::PairedPixels(x, y));
                }
            },
        }
    }
    let (byte, bits, done) = pack(sprite.mode, work.byte, work.bits, code);
    match done {
        Some(b) => {
            work.bytes.push(b);
        },
        None => {},
    }
    work.byte = byte;
    work.bits = bits;
    Ok(())
}

/// Encodes the pixels of a sprite into the bytes of its mode. `palette`
/// holds the colours of the palette that the sprite names, where that
/// palette exists.
pub fn encode_sprite(img: &Image, sprite: &Sprite, palette: &Vec<Rgb>) -> (r: Result<
    Vec<u8>,
    GfxError,
>)
    ensures
        match encoded_sprite(img@, *sprite, palette@) {
            Ok(bytes) => r matches Ok(v) && v@ == bytes,
            Err(e) => r matches Err(x) && x == e,
        },
{
    if palette.len() > PALETTE_SIZE {
        return Err(GfxError::PaletteTooLong);
    }
    let ghost first = initial_colors(palette@, sprite.mode);
    let across: u32 = sprite.width / pixel_width(sprite.mode);
    let mut work = Work { colors: start_colors(palette, sprite.mode), bytes: Vec::new(), byte: 0, bits: 0 };
    let mut y: u32 = 0;
    while y < sprite.height
        invariant
            y <= sprite.height,
            across == per_row(*sprite),
            work.colors@.len() == PALETTE_SIZE,
            palette@.len() <= PALETTE_SIZE,
            first == initial_colors(palette@, sprite.mode),
            rows_encoded(img@, *sprite, first, y as int) == Ok::<(Seq<Rgb>, Seq<u8>), GfxError>(
                (work.colors@, work.bytes@),
            ),
        decreases sprite.height - y,
    {
        work.byte = 0;
        work.bits = 0;
        let ghost begun = work@;
        let mut x: u32 = 0;
        while x < across
            invariant
                x <= across,
                y < sprite.height,
                across == per_row(*sprite),
                work.colors@.len() == PALETTE_SIZE,
                palette@.len() <= PALETTE_SIZE,
                level(sprite.mode, work.bits),
                first == initial_colors(palette@, sprite.mode),
                rows_encoded(img@, *sprite, first, y as int) == Ok::<
                    (Seq<Rgb>, Seq<u8>),
                    GfxError,
                >((begun.colors, begun.bytes)),
                begun.byte == 0 && begun.bits == 0,
                row_encoded(img@, *sprite, begun, y as int, x as int) == Ok::<State, GfxError>(
                    work@,
                ),
            decreases across - x,
        {
            match step(img, sprite, &mut work, x, y) {
                Err(e) => {
                    proof {
                        lemma_row_encoded_fails(
                            img@,
                            *sprite,
                            begun,
                            y as int,
                            x + 1,
                            across as int,
                        );
                        lemma_rows_encoded_fail(img@, *sprite, first, y + 1, sprite.height as int);
                    }
                    return Err(e);
                },
                Ok(()) => {},
            }
            x += 1;
        }
        y += 1;
    }
    Ok(work.bytes)
}

} // verus!
