use tiles7800::mode::Mode;
use tiles7800::segment::{segment_row, Segmenter};
use tiles7800::tile::{Cell, Config, Layer, Run, Tile};

fn tile(index: u32, palette: u8) -> Tile {
    Tile { index, mode: Mode::M160A, palette, fake: false, background: None, payload: 0 }
}

fn config(max: usize) -> Config {
    let mut c = Config::new(8, 8);
    c.max_run_length = max;
    c
}

fn run(layer: Layer, start: usize, tiles: Vec<Tile>) -> Run {
    Run { layer, start, tiles }
}

#[test]
fn row_of_empty_cells_has_no_runs() {
    let cells = vec![Cell::Empty; 6];
    assert_eq!(segment_row(&cells, &config(31)), Vec::<Run>::new());
}

#[test]
fn row_without_cells_has_no_runs() {
    assert_eq!(segment_row(&Vec::new(), &config(31)), Vec::<Run>::new());
}

#[test]
fn compatible_span_is_one_foreground_run() {
    let cells = vec![
        Cell::Empty,
        Cell::Single(tile(4, 1)),
        Cell::Single(tile(9, 1)),
        Cell::Single(tile(2, 1)),
        Cell::Empty,
    ];
    let runs = segment_row(&cells, &config(31));
    assert_eq!(runs, vec![run(Layer::Foreground, 1, vec![tile(4, 1), tile(9, 1), tile(2, 1)])]);
}

#[test]
fn span_longer_than_the_limit_is_cut_into_chunks() {
    let mut cells = vec![Cell::Empty, Cell::Empty];
    for k in 0..7 {
        cells.push(Cell::Single(tile(k, 0)));
    }
    cells.push(Cell::Empty);
    let runs = segment_row(&cells, &config(3));
    assert_eq!(runs.len(), 3);
    assert_eq!(runs[0], run(Layer::Foreground, 2, vec![tile(0, 0), tile(1, 0), tile(2, 0)]));
    assert_eq!(runs[1], run(Layer::Foreground, 5, vec![tile(3, 0), tile(4, 0), tile(5, 0)]));
    assert_eq!(runs[2], run(Layer::Foreground, 8, vec![tile(6, 0)]));
    let total: usize = runs.iter().map(|r| r.tiles.len()).sum();
    assert_eq!(total, 7);
}

#[test]
fn span_of_exactly_the_limit_is_one_run() {
    let cells: Vec<Cell> = (0..4).map(|k| Cell::Single(tile(k, 0))).collect();
    let runs = segment_row(&cells, &config(4));
    assert_eq!(runs.len(), 1);
    assert_eq!(runs[0].tiles.len(), 4);
}

#[test]
fn palette_change_ends_the_run() {
    let cells = vec![
        Cell::Single(tile(1, 0)),
        Cell::Single(tile(2, 0)),
        Cell::Single(tile(3, 5)),
        Cell::Single(tile(4, 5)),
    ];
    let runs = segment_row(&cells, &config(31));
    assert_eq!(
        runs,
        vec![
            run(Layer::Foreground, 0, vec![tile(1, 0), tile(2, 0)]),
            run(Layer::Foreground, 2, vec![tile(3, 5), tile(4, 5)]),
        ]
    );
}

#[test]
fn mode_change_ends_the_run() {
    let wide = Tile { mode: Mode::M160B, ..tile(2, 0) };
    let cells = vec![Cell::Single(tile(1, 0)), Cell::Single(wide)];
    let runs = segment_row(&cells, &config(31));
    assert_eq!(
        runs,
        vec![run(Layer::Foreground, 0, vec![tile(1, 0)]), run(Layer::Foreground, 1, vec![wide])]
    );
}

#[test]
fn fake_flag_change_ends_the_run() {
    let fake = Tile { fake: true, ..tile(2, 0) };
    let cells = vec![Cell::Single(tile(1, 0)), Cell::Single(fake), Cell::Single(tile(3, 0))];
    let runs = segment_row(&cells, &config(31));
    assert_eq!(runs.len(), 3);
    assert_eq!(runs[1], run(Layer::Foreground, 1, vec![fake]));
}

#[test]
fn layered_cells_give_a_background_run_listed_first() {
    let cells = vec![
        Cell::Layered(tile(10, 0), tile(50, 3)),
        Cell::Layered(tile(11, 0), tile(51, 3)),
    ];
    let runs = segment_row(&cells, &config(31));
    assert_eq!(
        runs,
        vec![
            run(Layer::Background, 0, vec![tile(10, 0), tile(11, 0)]),
            run(Layer::Foreground, 0, vec![tile(50, 3), tile(51, 3)]),
        ]
    );
}

#[test]
fn background_runs_are_listed_in_reverse_by_default() {
    let cells = vec![
        Cell::Layered(tile(10, 0), tile(50, 3)),
        Cell::Layered(tile(20, 1), tile(51, 3)),
    ];
    let runs = segment_row(&cells, &config(31));
    assert_eq!(
        runs,
        vec![
            run(Layer::Background, 1, vec![tile(20, 1)]),
            run(Layer::Background, 0, vec![tile(10, 0)]),
            run(Layer::Foreground, 0, vec![tile(50, 3), tile(51, 3)]),
        ]
    );
}

#[test]
fn left_to_right_policy_lists_runs_as_they_end() {
    let cells = vec![
        Cell::Layered(tile(10, 0), tile(50, 3)),
        Cell::Layered(tile(20, 1), tile(51, 3)),
    ];
    let mut c = config(31);
    c.left_to_right = true;
    let runs = segment_row(&cells, &c);
    assert_eq!(
        runs,
        vec![
            run(Layer::Background, 0, vec![tile(10, 0)]),
            run(Layer::Background, 1, vec![tile(20, 1)]),
            run(Layer::Foreground, 0, vec![tile(50, 3), tile(51, 3)]),
        ]
    );
}

#[test]
fn single_tile_joins_a_compatible_background_and_defers_the_foreground() {
    let cells = vec![
        Cell::Layered(tile(10, 0), tile(50, 3)),
        Cell::Single(tile(11, 0)),
        Cell::Single(tile(60, 3)),
    ];
    let runs = segment_row(&cells, &config(31));
    assert_eq!(
        runs,
        vec![
            run(Layer::Background, 2, vec![tile(60, 3)]),
            run(Layer::Background, 0, vec![tile(10, 0), tile(11, 0)]),
            run(Layer::Foreground, 0, vec![tile(50, 3)]),
        ]
    );
}

#[test]
fn foreground_in_progress_is_absorbed_by_a_compatible_background() {
    let cells = vec![Cell::Single(tile(10, 0)), Cell::Layered(tile(11, 0), tile(50, 3))];
    let runs = segment_row(&cells, &config(31));
    assert_eq!(
        runs,
        vec![
            run(Layer::Background, 0, vec![tile(10, 0), tile(11, 0)]),
            run(Layer::Foreground, 1, vec![tile(50, 3)]),
        ]
    );
}

#[test]
fn absorbed_run_at_the_limit_is_finished_before_it_grows() {
    let cells = vec![
        Cell::Single(tile(10, 0)),
        Cell::Single(tile(11, 0)),
        Cell::Layered(tile(12, 0), tile(50, 3)),
    ];
    let runs = segment_row(&cells, &config(2));
    assert_eq!(
        runs,
        vec![
            run(Layer::Background, 2, vec![tile(12, 0)]),
            run(Layer::Background, 0, vec![tile(10, 0), tile(11, 0)]),
            run(Layer::Foreground, 2, vec![tile(50, 3)]),
        ]
    );
    assert!(runs.iter().all(|r| 1 <= r.tiles.len() && r.tiles.len() <= 2));
}

#[test]
fn orphan_cell_ends_runs_but_keeps_deferred_ones_back() {
    let cells = vec![
        Cell::Layered(tile(10, 0), tile(50, 3)),
        Cell::Single(tile(11, 0)),
        Cell::Orphan,
        Cell::Single(tile(70, 4)),
    ];
    let runs = segment_row(&cells, &config(31));
    assert_eq!(
        runs,
        vec![
            run(Layer::Background, 0, vec![tile(10, 0), tile(11, 0)]),
            run(Layer::Foreground, 3, vec![tile(70, 4)]),
            run(Layer::Foreground, 0, vec![tile(50, 3)]),
        ]
    );
}

#[test]
fn empty_cell_releases_deferred_runs() {
    let cells = vec![
        Cell::Layered(tile(10, 0), tile(50, 3)),
        Cell::Single(tile(11, 0)),
        Cell::Empty,
        Cell::Single(tile(70, 4)),
    ];
    let runs = segment_row(&cells, &config(31));
    assert_eq!(
        runs,
        vec![
            run(Layer::Background, 0, vec![tile(10, 0), tile(11, 0)]),
            run(Layer::Foreground, 0, vec![tile(50, 3)]),
            run(Layer::Foreground, 3, vec![tile(70, 4)]),
        ]
    );
}

#[test]
fn runs_cover_every_drawn_tile_once() {
    let cells = vec![
        Cell::Single(tile(1, 0)),
        Cell::Layered(tile(2, 0), tile(30, 1)),
        Cell::Empty,
        Cell::Layered(tile(3, 2), tile(31, 1)),
        Cell::Single(tile(4, 2)),
        Cell::Orphan,
        Cell::Single(tile(5, 0)),
    ];
    let runs = segment_row(&cells, &config(2));
    let mut placed: Vec<(usize, u32)> = Vec::new();
    for r in &runs {
        assert!(1 <= r.tiles.len() && r.tiles.len() <= 2);
        for (k, t) in r.tiles.iter().enumerate() {
            placed.push((r.start + k, t.index));
        }
    }
    placed.sort();
    assert_eq!(placed, vec![(0, 1), (1, 2), (1, 30), (3, 3), (3, 31), (4, 4), (6, 5)]);
}

#[test]
fn runs_of_a_row_of_single_tiles_do_not_overlap() {
    let cells: Vec<Cell> = (0..10u32).map(|k| Cell::Single(tile(k, (k / 3) as u8))).collect();
    let runs = segment_row(&cells, &config(2));
    let mut seen = vec![0usize; 10];
    for r in &runs {
        for k in 0..r.tiles.len() {
            seen[r.start + k] += 1;
        }
    }
    assert_eq!(seen, vec![1usize; 10]);
}

#[test]
fn stepping_by_hand_gives_what_the_row_function_gives() {
    let cells = vec![
        Cell::Single(tile(1, 0)),
        Cell::Layered(tile(2, 0), tile(30, 1)),
        Cell::Empty,
        Cell::Single(tile(5, 0)),
    ];
    let c = config(31);
    let mut s = Segmenter::new();
    for (x, cell) in cells.iter().enumerate() {
        s.step(*cell, x, &c);
    }
    assert_eq!(s.finish(&c), segment_row(&cells, &c));
}

#[test]
fn foreground_that_lies_over_a_background_is_never_absorbed() {
    let cells = vec![
        Cell::Layered(tile(10, 0), tile(50, 1)),
        Cell::Single(tile(51, 1)),
        Cell::Layered(tile(52, 1), tile(60, 2)),
    ];
    let runs = segment_row(&cells, &config(31));
    assert_eq!(
        runs,
        vec![
            run(Layer::Background, 2, vec![tile(52, 1)]),
            run(Layer::Background, 0, vec![tile(10, 0)]),
            run(Layer::Foreground, 0, vec![tile(50, 1), tile(51, 1)]),
            run(Layer::Foreground, 2, vec![tile(60, 2)]),
        ]
    );
}

#[test]
fn background_of_a_layered_cell_is_listed_before_the_tile_over_it() {
    let cells = vec![
        Cell::Single(tile(1, 0)),
        Cell::Layered(tile(2, 0), tile(30, 1)),
        Cell::Single(tile(31, 1)),
        Cell::Layered(tile(32, 1), tile(40, 2)),
        Cell::Layered(tile(3, 0), tile(41, 2)),
    ];
    for max in 1..6 {
        let runs = segment_row(&cells, &config(max));
        for (x, cell) in cells.iter().enumerate() {
            if let Cell::Layered(b, t) = cell {
                let place = |wanted: &Tile| {
                    runs.iter()
                        .position(|r| {
                            r.start <= x && x < r.start + r.tiles.len() && r.tiles[x - r.start] == *wanted
                        })
                        .unwrap()
                };
                assert!(place(b) < place(t), "column {} with limit {}", x, max);
                assert_eq!(runs[place(b)].layer, Layer::Background);
                assert_eq!(runs[place(t)].layer, Layer::Foreground);
            }
        }
    }
}
