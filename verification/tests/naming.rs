use tiles7800::mode::{default_holeydma, default_mode, default_sprite_size, Mode};
use tiles7800::names::{label, parse_number, NameTable};
use tiles7800::tile::{default_max_run_length, Config};

#[test]
fn defaults_are_as_documented() {
    assert_eq!(default_sprite_size(), 16);
    assert!(default_holeydma());
    assert_eq!(default_mode(), "160A");
    assert_eq!(default_max_run_length(8, false), 31);
    assert_eq!(default_max_run_length(8, true), 15);
    assert_eq!(default_max_run_length(16, false), 15);
}

#[test]
fn every_mode_tag_is_read_back() {
    for m in [Mode::M160A, Mode::M160B, Mode::M320A, Mode::M320B, Mode::M320C, Mode::M320D] {
        assert_eq!(Mode::parse(m.tag()), Some(m));
    }
    assert_eq!(Mode::parse("160B"), Some(Mode::M160B));
    assert_eq!(Mode::M320C.tag(), "320C");
}

#[test]
fn unknown_mode_tag_is_refused() {
    assert_eq!(Mode::parse("160C"), None);
    assert_eq!(Mode::parse(""), None);
    assert_eq!(Mode::parse("160a"), None);
    assert_eq!(Mode::parse("160A "), None);
}

#[test]
fn mode_constants() {
    assert_eq!(Mode::M160A.slots(), 1);
    assert_eq!(Mode::M320D.slots(), 1);
    assert_eq!(Mode::M160B.slots(), 2);
    assert_eq!(Mode::M320C.slots(), 2);
    assert_eq!(Mode::M160A.stride(16), 2);
    assert_eq!(Mode::M160B.stride(16), 4);
    assert_eq!(Mode::M320B.stride(8), 2);
    assert_eq!(Mode::M320A.stride(7), 0);
    assert_eq!(Mode::M320A.write_bits(), 0x40);
    assert_eq!(Mode::M320C.write_bits(), 0xc0);
    assert_eq!(Mode::M160A.max_colors(), 3);
    assert_eq!(Mode::M160B.max_colors(), 12);
    assert_eq!(Mode::M320A.max_colors(), 1);
    assert_eq!(Mode::M320B.max_colors(), 3);
    assert_eq!(Mode::M320C.max_colors(), 4);
    assert_eq!(Mode::M320D.max_colors(), 1);
}

#[test]
fn config_limits() {
    let mut c = Config::new(8, 8);
    assert!(c.is_valid());
    assert_eq!(c.max_run_length, 31);
    assert_eq!(c.bytes_per_tile(), 1);
    assert!(c.shortcut_allowed());
    c.max_run_length = 0;
    assert!(!c.is_valid());
    c.max_run_length = usize::MAX;
    assert!(!c.is_valid());
    c.max_run_length = 1;
    c.tile_width = 16;
    assert!(c.is_valid());
    assert_eq!(c.bytes_per_tile(), 2);
    c.immediate = true;
    assert!(!c.shortcut_allowed());
}

#[test]
fn tile_numbers_are_read_as_the_standard_library_reads_them() {
    let samples = [
        "0", "7", "12", "007", "+7", "+0", "4294967295", "4294967296", "99999999999", "", "+",
        "-1", "1a", " 1", "1 ", "a", "++1", "+-1", "1+", "grass + 2", "0x10", "１",
    ];
    for s in samples {
        assert_eq!(parse_number(s), s.parse::<u32>().ok(), "reading {:?}", s);
    }
    assert_eq!(parse_number("12"), Some(12));
    assert_eq!(parse_number("+7"), Some(7));
    assert_eq!(parse_number("4294967295"), Some(u32::MAX));
    assert_eq!(parse_number("4294967296"), None);
    assert_eq!(parse_number("tree"), None);
}

#[test]
fn labels_are_name_plus_offset() {
    assert_eq!(label("grass", 0), "grass + 0");
    assert_eq!(label("grass", 12), "grass + 12");
    assert_eq!(label("", 907), " + 907");
    for n in [0u32, 9, 10, 99, 100, 1234567890, u32::MAX] {
        assert_eq!(label("t", n), format!("{} + {}", "t", n));
    }
}

#[test]
fn later_binding_of_a_name_hides_the_earlier_one() {
    let mut t = NameTable::new();
    assert_eq!(t.get("a"), None);
    t.bind("a".to_string(), 1);
    t.bind("b".to_string(), 2);
    assert_eq!(t.get("a"), Some(1));
    t.bind("a".to_string(), 3);
    assert_eq!(t.get("a"), Some(3));
    assert_eq!(t.get("b"), Some(2));
    assert_eq!(t.get("c"), None);
}
