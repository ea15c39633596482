use tiles7800::catalog::{Catalog, Geometry, TileDefinition};
use tiles7800::compile::{compile, is_used, CompileError};
use tiles7800::encode::{Encoding, Record};
use tiles7800::grid::Grid;
use tiles7800::layout::Item;
use tiles7800::mode::Mode;
use tiles7800::refine::refine_runs;
use tiles7800::sequence::{refer, register_sequences, resolve_sequence, SequenceDecl, SequenceError};
use tiles7800::store::{Blob, BlobName, Store};
use tiles7800::tile::{Config, Layer, Run, Tile};

fn strip(name: &str, left: u32, cells: u32) -> TileDefinition {
    TileDefinition {
        name: name.to_string(),
        top: 0,
        left: left * 8,
        width: cells * 8,
        height: 8,
        mode: None,
        palette: 0,
        alias: None,
        mirror: None,
        background: None,
        fake: false,
        gfx: vec![0; (cells * 8) as usize],
    }
}

/// Tiles with indices 0..22 at grid values 1..23: "pad" holds 0..10, "a"
/// holds 10 and 11, "gap" holds 12..20, "b" holds 20 and 21.
fn catalog() -> Catalog {
    let g = Geometry {
        tile_width: 8,
        tile_height: 8,
        image_width: 176,
        image_height: 8,
        mode: Mode::M160A,
        mirror: None,
    };
    let defs = vec![strip("pad", 0, 10), strip("a", 10, 2), strip("gap", 12, 8), strip("b", 20, 2)];
    Catalog::build(&g, &defs).unwrap()
}

fn decl(tiles: &[&str]) -> SequenceDecl {
    SequenceDecl {
        tiles: tiles.iter().map(|s| s.to_string()).collect(),
        prefix: None,
        postfix: None,
        repeat: 1,
        generate: true,
        ignored: false,
    }
}

fn tile(index: u32) -> Tile {
    Tile { index, mode: Mode::M160A, palette: 0, fake: false, background: None, payload: 0 }
}

fn run(start: usize, indices: &[u32]) -> Run {
    Run { layer: Layer::Foreground, start, tiles: indices.iter().map(|i| tile(*i)).collect() }
}

#[test]
fn grid_of_contiguous_tiles_compiles_to_one_continuous_run() {
    let grid = Grid::new(4, 1, vec![11, 12, 13, 14]).unwrap();
    let out = compile(&grid, &catalog(), &Vec::new(), &Config::new(8, 8)).unwrap();
    assert_eq!(
        out.rows,
        vec![vec![Record {
            first: 0,
            last: 3,
            mode: Mode::M160A,
            palette: 0,
            width: 4,
            encoding: Encoding::Continuous { base: 10 },
        }]]
    );
    assert_eq!(out.store.len(), 0);
    assert_eq!(out.table, vec![0]);
    assert_eq!(out.lists[0].len(), 7 + 2);
}

#[test]
fn tiles_of_one_kind_with_a_jump_in_their_indices_stay_one_run() {
    let grid = Grid::new(4, 1, vec![11, 12, 21, 22]).unwrap();
    let out = compile(&grid, &catalog(), &Vec::new(), &Config::new(8, 8)).unwrap();
    assert_eq!(out.rows[0].len(), 1);
    assert_eq!((out.rows[0][0].first, out.rows[0][0].last), (0, 3));
    assert_eq!(
        out.rows[0][0].encoding,
        Encoding::Indirect { blob: BlobName::Row(0, 0), slot: 0 }
    );
    assert_eq!(out.store.len(), 1);
    assert_eq!(out.store.entry(0).content, vec![10, 11, 20, 21]);
}

#[test]
fn runs_parted_at_column_two_register_a_blob_each() {
    let grid = Grid::new(5, 1, vec![11, 12, 0, 21, 22]).unwrap();
    let mut c = Config::new(8, 8);
    c.forbid_immediate = true;
    let out = compile(&grid, &catalog(), &Vec::new(), &c).unwrap();
    assert_eq!(out.rows[0].len(), 2);
    assert_eq!((out.rows[0][0].first, out.rows[0][0].last), (0, 1));
    assert_eq!((out.rows[0][1].first, out.rows[0][1].last), (3, 4));
    assert_eq!(
        out.rows[0][0].encoding,
        Encoding::Indirect { blob: BlobName::Row(0, 0), slot: 0 }
    );
    assert_eq!(
        out.rows[0][1].encoding,
        Encoding::Indirect { blob: BlobName::Row(0, 1), slot: 0 }
    );
    assert_eq!(out.store.len(), 2);
    assert_eq!(out.store.entry(0).content, vec![10, 11]);
    assert_eq!(out.store.entry(1).content, vec![20, 21]);
}

#[test]
fn second_row_reuses_the_entry_of_the_first_row() {
    let grid = Grid::new(4, 2, vec![11, 12, 21, 22, 11, 12, 0, 0]).unwrap();
    let mut c = Config::new(8, 8);
    c.forbid_immediate = true;
    let out = compile(&grid, &catalog(), &Vec::new(), &c).unwrap();
    assert_eq!(out.store.len(), 1);
    assert_eq!(out.store.entry(0).name, BlobName::Row(0, 0));
    assert_eq!(out.rows[1].len(), 1);
    assert_eq!((out.rows[1][0].first, out.rows[1][0].last), (0, 1));
    assert_eq!(
        out.rows[1][0].encoding,
        Encoding::Indirect { blob: BlobName::Row(0, 0), slot: 0 }
    );
    assert!(is_used(&out.rows, BlobName::Row(0, 0)));
    assert!(!is_used(&out.rows, BlobName::Row(1, 0)));
}

#[test]
fn grid_of_zeros_compiles_to_bare_terminators() {
    let grid = Grid::new(5, 3, vec![0; 15]).unwrap();
    let out = compile(&grid, &catalog(), &Vec::new(), &Config::new(8, 8)).unwrap();
    assert_eq!(out.rows, vec![Vec::new(), Vec::new(), Vec::new()]);
    assert_eq!(out.lists, vec![vec![Item::Byte(96), Item::Byte(0xff)]; 3]);
    assert_eq!(out.table, vec![0, 0, 0]);
    assert_eq!(out.store.len(), 0);
    let mut direct = Config::new(8, 8);
    direct.direct = true;
    let out = compile(&grid, &catalog(), &Vec::new(), &direct).unwrap();
    assert_eq!(out.lists, vec![vec![Item::Byte(0), Item::Byte(0)]; 3]);
}

#[test]
fn grid_of_unknown_values_compiles_like_an_empty_one() {
    let grid = Grid::new(2, 2, vec![500, 0, 77, 9000]).unwrap();
    let out = compile(&grid, &catalog(), &Vec::new(), &Config::new(8, 8)).unwrap();
    assert_eq!(out.rows, vec![Vec::new(), Vec::new()]);
    assert_eq!(out.table, vec![0, 0]);
}

#[test]
fn grid_without_rows_compiles_to_nothing() {
    let grid = Grid::new(4, 0, Vec::new()).unwrap();
    let out = compile(&grid, &catalog(), &Vec::new(), &Config::new(8, 8)).unwrap();
    assert!(out.rows.is_empty() && out.lists.is_empty() && out.table.is_empty());
}

#[test]
fn equal_rows_point_at_one_display_list() {
    let grid = Grid::new(2, 4, vec![11, 12, 0, 5, 11, 12, 0, 5]).unwrap();
    let out = compile(&grid, &catalog(), &Vec::new(), &Config::new(8, 8)).unwrap();
    assert_eq!(out.table, vec![0, 1, 0, 1]);
    assert_eq!(out.lists[0], out.lists[2]);
    assert_ne!(out.lists[0], out.lists[1]);
}

#[test]
fn configuration_without_room_for_a_tile_is_refused() {
    let grid = Grid::new(1, 1, vec![0]).unwrap();
    let mut c = Config::new(8, 8);
    c.max_run_length = 0;
    assert_eq!(
        compile(&grid, &catalog(), &Vec::new(), &c).err(),
        Some(CompileError::InvalidConfig)
    );
}

#[test]
fn long_row_is_cut_at_the_limit_and_every_piece_encoded() {
    let grid = Grid::new(10, 1, vec![1, 2, 3, 4, 5, 6, 7, 8, 9, 10]).unwrap();
    let mut c = Config::new(8, 8);
    c.max_run_length = 4;
    let out = compile(&grid, &catalog(), &Vec::new(), &c).unwrap();
    let spans: Vec<(usize, usize, usize)> =
        out.rows[0].iter().map(|r| (r.first, r.last, r.width)).collect();
    assert_eq!(spans, vec![(0, 3, 4), (4, 7, 4), (8, 9, 2)]);
    assert_eq!(out.rows[0][1].encoding, Encoding::Continuous { base: 4 });
}

#[test]
fn sequence_is_resolved_repeated_and_registered() {
    let c = catalog();
    let mut store = Store::new();
    let mut d = decl(&["a", "a + 1", "b"]);
    d.repeat = 2;
    d.prefix = Some("pad".to_string());
    d.postfix = Some("21".to_string());
    let r = register_sequences(&mut store, &c, &vec![d], &Config::new(8, 8));
    assert_eq!(r, Ok(()));
    assert_eq!(store.len(), 1);
    assert_eq!(store.entry(0).name, BlobName::Sequence(0));
    assert!(store.entry(0).immediate);
    assert_eq!(store.entry(0).content, vec![0, 10, 11, 20, 10, 11, 20, 21]);
    assert_eq!(store.entry(0).tiles.len(), 8);
}

#[test]
fn reference_may_be_a_name_a_label_or_an_index() {
    let c = catalog();
    assert_eq!(refer(&c, "a", 0).unwrap().index, 10);
    assert_eq!(refer(&c, "a + 1", 0).unwrap().index, 11);
    assert_eq!(refer(&c, "11", 0).unwrap().index, 11);
    assert_eq!(refer(&c, "+20", 0).unwrap().index, 20);
    assert_eq!(refer(&c, "0", 0).unwrap().index, 0);
}

#[test]
fn unknown_references_are_errors() {
    let c = catalog();
    assert_eq!(refer(&c, "tree", 4), Err(SequenceError::UnknownName(4)));
    assert_eq!(refer(&c, "a + 2", 4), Err(SequenceError::UnknownName(4)));
    assert_eq!(refer(&c, "22", 4), Err(SequenceError::UnknownNumber(4, 22)));
    assert_eq!(refer(&c, "", 1), Err(SequenceError::UnknownName(1)));
    assert_eq!(
        resolve_sequence(&c, &decl(&["a", "nope", "99"]), 2),
        Err(SequenceError::UnknownName(2))
    );
    let mut d = decl(&["a"]);
    d.postfix = Some("99".to_string());
    d.prefix = Some("nope".to_string());
    assert_eq!(resolve_sequence(&c, &d, 0), Err(SequenceError::UnknownName(0)));
    d.prefix = None;
    assert_eq!(resolve_sequence(&c, &d, 0), Err(SequenceError::UnknownNumber(0, 99)));
}

#[test]
fn ignored_sequences_are_passed_over_and_others_keep_their_number() {
    let c = catalog();
    let mut store = Store::new();
    let mut bad = decl(&["nope"]);
    bad.ignored = true;
    let mut quiet = decl(&["b"]);
    quiet.generate = false;
    let decls = vec![bad, quiet, decl(&["a"])];
    assert_eq!(register_sequences(&mut store, &c, &decls, &Config::new(8, 8)), Ok(()));
    assert_eq!(store.len(), 1);
    assert_eq!(store.entry(0).name, BlobName::Sequence(2));
    assert_eq!(store.entry(0).content, vec![10]);
}

#[test]
fn sequence_that_is_not_generated_is_still_resolved() {
    let c = catalog();
    let mut store = Store::new();
    let mut quiet = decl(&["nope"]);
    quiet.generate = false;
    assert_eq!(
        register_sequences(&mut store, &c, &vec![decl(&["a"]), quiet], &Config::new(8, 8)),
        Err(SequenceError::UnknownName(1))
    );
}

#[test]
fn sequence_with_no_repeat_holds_only_prefix_and_postfix() {
    let c = catalog();
    let mut d = decl(&["a"]);
    d.repeat = 0;
    d.prefix = Some("b".to_string());
    d.postfix = Some("b + 1".to_string());
    let tiles = resolve_sequence(&c, &d, 0).unwrap();
    let indices: Vec<u32> = tiles.iter().map(|t| t.index).collect();
    assert_eq!(indices, vec![20, 21]);
}

#[test]
fn taken_sequence_name_is_a_conflict() {
    let c = catalog();
    let mut store = Store::new();
    store
        .register(Blob {
            name: BlobName::Sequence(0),
            content: vec![1],
            immediate: true,
            tiles: Vec::new(),
        })
        .unwrap();
    assert_eq!(
        register_sequences(&mut store, &c, &vec![decl(&["a"])], &Config::new(8, 8)),
        Err(SequenceError::Conflict(BlobName::Sequence(0)))
    );
}

#[test]
fn failing_sequence_stops_the_compilation() {
    let grid = Grid::new(1, 1, vec![0]).unwrap();
    assert_eq!(
        compile(&grid, &catalog(), &vec![decl(&["a"]), decl(&["77"])], &Config::new(8, 8)).err(),
        Some(CompileError::Sequence(SequenceError::UnknownNumber(1, 77)))
    );
}

#[test]
fn run_found_in_a_sequence_points_into_it_and_marks_it_used() {
    let grid = Grid::new(3, 1, vec![12, 21, 22]).unwrap();
    let sequences = vec![decl(&["pad"]), decl(&["a", "a + 1", "b", "b + 1"])];
    let out = compile(&grid, &catalog(), &sequences, &Config::new(8, 8)).unwrap();
    assert_eq!(out.store.len(), 2);
    assert_eq!(
        out.rows[0],
        vec![Record {
            first: 0,
            last: 2,
            mode: Mode::M160A,
            palette: 0,
            width: 3,
            encoding: Encoding::Immediate { blob: BlobName::Sequence(1), slot: 1 },
        }]
    );
    assert!(is_used(&out.rows, BlobName::Sequence(1)));
    assert!(!is_used(&out.rows, BlobName::Sequence(0)));
}

#[test]
fn first_tile_is_split_off_when_the_rest_is_in_a_sequence() {
    let mut store = Store::new();
    store
        .register(Blob {
            name: BlobName::Sequence(0),
            content: vec![1, 2, 4, 8, 16],
            immediate: true,
            tiles: Vec::new(),
        })
        .unwrap();
    let c = Config::new(8, 8);
    let runs = refine_runs(&store, &vec![run(3, &[9, 1, 2, 4, 8, 16])], &c);
    assert_eq!(runs, vec![run(3, &[9]), run(4, &[1, 2, 4, 8, 16])]);
}

#[test]
fn last_tile_is_split_off_and_listed_first_when_the_rest_is_in_a_sequence() {
    let mut store = Store::new();
    store
        .register(Blob {
            name: BlobName::Sequence(0),
            content: vec![7, 1, 2, 4, 8, 16, 7],
            immediate: true,
            tiles: Vec::new(),
        })
        .unwrap();
    let c = Config::new(8, 8);
    let runs = refine_runs(&store, &vec![run(3, &[1, 2, 4, 8, 16, 9])], &c);
    assert_eq!(runs, vec![run(8, &[9]), run(3, &[1, 2, 4, 8, 16])]);
}

#[test]
fn runs_stay_whole_when_short_known_continuous_or_unmatched() {
    let mut store = Store::new();
    store
        .register(Blob {
            name: BlobName::Sequence(0),
            content: vec![1, 2, 4, 8, 16, 32],
            immediate: true,
            tiles: Vec::new(),
        })
        .unwrap();
    store
        .register(Blob {
            name: BlobName::Row(0, 0),
            content: vec![50, 60, 70, 80, 90],
            immediate: false,
            tiles: Vec::new(),
        })
        .unwrap();
    let c = Config::new(8, 8);
    let short = run(0, &[9, 2, 4, 8]);
    let known = run(0, &[2, 4, 8, 16, 32]);
    let continuous = run(0, &[0, 1, 2, 3, 4, 5]);
    let unmatched = run(0, &[5, 5, 5, 5, 5]);
    let indirect_only = run(0, &[9, 50, 60, 70, 80, 90]);
    let runs = refine_runs(
        &store,
        &vec![
            run(0, &[9, 2, 4, 8]),
            run(0, &[2, 4, 8, 16, 32]),
            run(0, &[0, 1, 2, 3, 4, 5]),
            run(0, &[5, 5, 5, 5, 5]),
            run(0, &[9, 50, 60, 70, 80, 90]),
        ],
        &c,
    );
    assert_eq!(runs, vec![short, known, continuous, unmatched, indirect_only]);
}

#[test]
fn continuous_run_is_refined_where_the_shortcut_is_forbidden() {
    let mut store = Store::new();
    store
        .register(Blob {
            name: BlobName::Sequence(0),
            content: vec![1, 2, 3, 4, 5],
            immediate: true,
            tiles: Vec::new(),
        })
        .unwrap();
    let mut c = Config::new(8, 8);
    let whole = refine_runs(&store, &vec![run(0, &[0, 1, 2, 3, 4, 5])], &c);
    assert_eq!(whole.len(), 1);
    c.forbid_immediate = true;
    let split = refine_runs(&store, &vec![run(0, &[0, 1, 2, 3, 4, 5])], &c);
    assert_eq!(split, vec![run(0, &[0]), run(1, &[1, 2, 3, 4, 5])]);
}

#[test]
fn sequence_with_the_content_of_an_earlier_one_is_not_registered() {
    let c = catalog();
    let mut store = Store::new();
    let decls = vec![decl(&["a", "b"]), decl(&["10", "20"]), decl(&["b"])];
    assert_eq!(register_sequences(&mut store, &c, &decls, &Config::new(8, 8)), Ok(()));
    assert_eq!(store.len(), 2);
    assert_eq!(store.entry(0).name, BlobName::Sequence(0));
    assert_eq!(store.entry(1).name, BlobName::Sequence(2));
}
