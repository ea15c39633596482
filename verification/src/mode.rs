//! The closed set of graphics modes and the constants that depend on them.

use vstd::prelude::*;

verus! {

/// A graphics encoding mode of the display hardware.
#[derive(Clone, Copy, Debug, PartialEq, Eq, Structural)]
pub enum Mode {
    M160A,
    M160B,
    M320A,
    M320B,
    M320C,
    M320D,
}

/// Sheet-level or tile-level mirroring policy.
#[derive(Clone, Copy, Debug, PartialEq, Eq, Structural)]
pub enum Mirror {
    Vertical,
    Horizontal,
    Both,
}

/// The text of each mode tag, as a sequence of characters.
pub open spec fn mode_tag(mode: Mode) -> Seq<char> {
    match mode {
        Mode::M160A => seq!['1', '6', '0', 'A'],
        Mode::M160B => seq!['1', '6', '0', 'B'],
        Mode::M320A => seq!['3', '2', '0', 'A'],
        Mode::M320B => seq!['3', '2', '0', 'B'],
        Mode::M320C => seq!['3', '2', '0', 'C'],
        Mode::M320D => seq!['3', '2', '0', 'D'],
    }
}

/// The mode that a tag names, if it names one.
pub open spec fn mode_of_tag(tag: Seq<char>) -> Option<Mode> {
    if tag == mode_tag(Mode::M160A) {
        Some(Mode::M160A)
    } else if tag == mode_tag(Mode::M160B) {
        Some(Mode::M160B)
    } else if tag == mode_tag(Mode::M320A) {
        Some(Mode::M320A)
    } else if tag == mode_tag(Mode::M320B) {
        Some(Mode::M320B)
    } else if tag == mode_tag(Mode::M320C) {
        Some(Mode::M320C)
    } else if tag == mode_tag(Mode::M320D) {
        Some(Mode::M320D)
    } else {
        None
    }
}

impl Mode {
    /// Whether one tile of this mode takes a single slot of an index array
    /// (two slots otherwise).
    pub open spec fn narrow(self) -> bool {
        self == Mode::M160A || self == Mode::M320A || self == Mode::M320D
    }

    /// Number of index-array slots that one tile of this mode takes.
    pub open spec fn spec_slots(self) -> usize {
        if self.narrow() {
            1
        } else {
            2
        }
    }

    /// Tile-memory stride of one tile cell of `tile_width` pixels.
    pub open spec fn spec_stride(self, tile_width: u32) -> u32 {
        if self.narrow() {
            tile_width / 8
        } else {
            tile_width / 4
        }
    }

    /// The mode bits of a record's mode/type byte, before the indirect flag.
    pub open spec fn spec_write_bits(self) -> u8 {
        if self.narrow() {
            0x40
        } else {
            0xc0
        }
    }

    /// Largest number of distinct colours a tile of this mode can hold.
    pub open spec fn spec_max_colors(self) -> usize {
        match self {
            Mode::M160A => 3,
            Mode::M160B => 12,
            Mode::M320A => 1,
            Mode::M320B => 3,
            Mode::M320C => 4,
            Mode::M320D => 1,
        }
    }

    /// Reads a mode tag; `None` for a string outside the closed set.
    pub fn parse(tag: &str) -> (r: Option<Mode>)
        ensures
            r == mode_of_tag(tag@),
    {
        proof {
            reveal_strlit("160A");
            reveal_strlit("160B");
            reveal_strlit("320A");
            reveal_strlit("320B");
            reveal_strlit("320C");
            reveal_strlit("320D");
        }
        if str_equal(tag, "160A") {
            assert("160A"@ =~= mode_tag(Mode::M160A));
            Some(Mode::M160A)
        } else if str_equal(tag, "160B") {
            assert("160B"@ =~= mode_tag(Mode::M160B));
            Some(Mode::M160B)
        } else if str_equal(tag, "320A") {
            assert("320A"@ =~= mode_tag(Mode::M320A));
            Some(Mode::M320A)
        } else if str_equal(tag, "320B") {
            assert("320B"@ =~= mode_tag(Mode::M320B));
            Some(Mode::M320B)
        } else if str_equal(tag, "320C") {
            assert("320C"@ =~= mode_tag(Mode::M320C));
            Some(Mode::M320C)
        } else if str_equal(tag, "320D") {
            assert("320D"@ =~= mode_tag(Mode::M320D));
            Some(Mode::M320D)
        } else {
            assert("160A"@ =~= mode_tag(Mode::M160A));
            assert("160B"@ =~= mode_tag(Mode::M160B));
            assert("320A"@ =~= mode_tag(Mode::M320A));
            assert("320B"@ =~= mode_tag(Mode::M320B));
            assert("320C"@ =~= mode_tag(Mode::M320C));
            assert("320D"@ =~= mode_tag(Mode::M320D));
            None
        }
    }

    /// The tag that names this mode.
    pub fn tag(self) -> (r: &'static str)
        ensures
            r@ == mode_tag(self),
    {
        proof {
            reveal_strlit("160A");
            reveal_strlit("160B");
            reveal_strlit("320A");
            reveal_strlit("320B");
            reveal_strlit("320C");
            reveal_strlit("320D");
        }
        match self {
            Mode::M160A => {
                assert("160A"@ =~= mode_tag(Mode::M160A));
                "160A"
            },
            Mode::M160B => {
                assert("160B"@ =~= mode_tag(Mode::M160B));
                "160B"
            },
            Mode::M320A => {
                assert("320A"@ =~= mode_tag(Mode::M320A));
                "320A"
            },
            Mode::M320B => {
                assert("320B"@ =~= mode_tag(Mode::M320B));
                "320B"
            },
            Mode::M320C => {
                assert("320C"@ =~= mode_tag(Mode::M320C));
                "320C"
            },
            Mode::M320D => {
                assert("320D"@ =~= mode_tag(Mode::M320D));
                "320D"
            },
        }
    }

    /// Number of index-array slots that one tile of this mode takes: 1 or 2.
    #[verifier::when_used_as_spec(spec_slots)]
    pub fn slots(self) -> (n: usize)
        ensures
            n == self.spec_slots(),
    {
        match self {
            Mode::M160A | Mode::M320A | Mode::M320D => 1,
            _ => 2,
        }
    }

    /// Tile-memory stride of one tile cell: an eighth of the cell's pixel
    /// width in the narrow modes, a quarter in the others.
    #[verifier::when_used_as_spec(spec_stride)]
    pub fn stride(self, tile_width: u32) -> (n: u32)
        ensures
            n == self.spec_stride(tile_width),
    {
        match self {
            Mode::M160A | Mode::M320A | Mode::M320D => tile_width / 8,
            _ => tile_width / 4,
        }
    }

    /// The mode bits of a record's mode/type byte: `0x40` in the narrow
    /// modes, `0xc0` in the others.
    #[verifier::when_used_as_spec(spec_write_bits)]
    pub fn write_bits(self) -> (b: u8)
        ensures
            b == self.spec_write_bits(),
    {
        match self {
            Mode::M160A | Mode::M320A | Mode::M320D => 0x40,
            _ => 0xc0,
        }
    }

    /// Largest number of distinct colours a tile of this mode can hold.
    #[verifier::when_used_as_spec(spec_max_colors)]
    pub fn max_colors(self) -> (n: usize)
        ensures
            n == self.spec_max_colors(),
    {
        match self {
            Mode::M160A => 3,
            Mode::M160B => 12,
            Mode::M320A => 1,
            Mode::M320B => 3,
            Mode::M320C => 4,
            Mode::M320D => 1,
        }
    }
}

/// Whether two strings hold the same characters.
pub fn str_equal(a: &str, b: &str) -> (r: bool)
    ensures
        r == (a@ == b@),
{
    let x: String = a.to_string();
    let y: String = b.to_string();
    x == y
}

/// Height in pixels of a sprite that declares none.
pub fn default_sprite_size() -> (r: u32)
    ensures
        r == 16,
{
    16
}

/// Whether a sprite that does not say so is laid out for holey DMA.
pub fn default_holeydma() -> (r: bool)
    ensures
        r,
{
    true
}

/// The mode tag of a sheet that declares none: `"160A"`.
pub fn default_mode() -> (r: String)
    ensures
        r@ == mode_tag(Mode::M160A),
{
    proof {
        reveal_strlit("160A");
        assert("160A"@ =~= mode_tag(Mode::M160A));
    }
    "160A".to_string()
}

} // verus!
