use tiles7800::catalog::{Catalog, CatalogError, Geometry, Label, TileDefinition};
use tiles7800::grid::{Grid, GridError};
use tiles7800::mode::{Mirror, Mode};
use tiles7800::payload::{blob_payload, cut_cell};
use tiles7800::tile::{Cell, Config, Tile};

fn geometry() -> Geometry {
    Geometry {
        tile_width: 8,
        tile_height: 8,
        image_width: 32,
        image_height: 16,
        mode: Mode::M160A,
        mirror: None,
    }
}

fn definition(name: &str, top: u32, left: u32, width: u32, bytes: usize) -> TileDefinition {
    TileDefinition {
        name: name.to_string(),
        top,
        left,
        width,
        height: 8,
        mode: None,
        palette: 0,
        alias: None,
        mirror: None,
        background: None,
        fake: false,
        gfx: (0..bytes).map(|b| b as u8).collect(),
    }
}

fn sheet() -> Vec<TileDefinition> {
    let a = TileDefinition { palette: 1, ..definition("a", 0, 0, 16, 16) };
    let b = TileDefinition { mode: Some(Mode::M160B), palette: 3, ..definition("b", 8, 8, 8, 16) };
    let c = TileDefinition {
        alias: Some("a".to_string()),
        mirror: Some(Mirror::Vertical),
        ..definition("c", 8, 16, 8, 8)
    };
    let d = TileDefinition {
        background: Some("a".to_string()),
        fake: true,
        ..definition("d", 8, 24, 8, 8)
    };
    vec![a, b, c, d]
}

fn tile(index: u32, mode: Mode, palette: u8, payload: usize) -> Tile {
    Tile { index, mode, palette, fake: false, background: None, payload }
}

#[test]
fn definitions_get_increasing_indices_by_the_stride_of_their_mode() {
    let c = Catalog::build(&geometry(), &sheet()).unwrap();
    assert_eq!(c.tile(1), Some(tile(0, Mode::M160A, 1, 0)));
    assert_eq!(c.tile(2), Some(tile(1, Mode::M160A, 1, 1)));
    assert_eq!(c.tile(6), Some(tile(2, Mode::M160B, 3, 2)));
    assert_eq!(c.next_index(), 5);
    assert_eq!(c.definitions(), 4);
    assert_eq!(c.name(1), "b");
}

#[test]
fn alias_reuses_the_index_of_its_target() {
    let c = Catalog::build(&geometry(), &sheet()).unwrap();
    assert_eq!(c.tile(7), Some(tile(1, Mode::M160A, 0, 3)));
    let mut defs = sheet();
    defs[2].mirror = None;
    let plain = Catalog::build(&geometry(), &defs).unwrap();
    assert_eq!(plain.tile(7), Some(tile(0, Mode::M160A, 0, 3)));
    assert_eq!(plain.next_index(), 5);
}

#[test]
fn unresolved_alias_is_an_error() {
    let mut defs = sheet();
    defs[1].alias = Some("zzz".to_string());
    assert_eq!(Catalog::build(&geometry(), &defs).err(), Some(CatalogError::BadAlias(1)));
    let mut later = sheet();
    later[0].alias = Some("b".to_string());
    assert_eq!(Catalog::build(&geometry(), &later).err(), Some(CatalogError::BadAlias(0)));
}

#[test]
fn background_is_the_grid_value_of_the_named_definition() {
    let c = Catalog::build(&geometry(), &sheet()).unwrap();
    let d = Tile { fake: true, background: Some(1), ..tile(4, Mode::M160A, 0, 4) };
    assert_eq!(c.tile(8), Some(d));
    assert_eq!(c.resolve(8), Cell::Layered(tile(0, Mode::M160A, 1, 0), d));
}

#[test]
fn grid_values_resolve_to_cells() {
    let c = Catalog::build(&geometry(), &sheet()).unwrap();
    assert_eq!(c.resolve(0), Cell::Empty);
    assert_eq!(c.resolve(3), Cell::Empty);
    assert_eq!(c.resolve(4000), Cell::Empty);
    assert_eq!(c.resolve(2), Cell::Single(tile(1, Mode::M160A, 1, 1)));
}

#[test]
fn tile_over_a_background_without_tile_is_an_orphan() {
    let mut defs = sheet();
    defs.push(definition("none", 0, 16, 0, 0));
    defs.push(TileDefinition {
        background: Some("none".to_string()),
        ..definition("over", 0, 24, 8, 8)
    });
    let c = Catalog::build(&geometry(), &defs).unwrap();
    assert_eq!(c.value_of("none"), Some(3));
    assert_eq!(c.tile(3), None);
    assert_eq!(c.resolve(4), Cell::Orphan);
}

#[test]
fn unknown_background_name_leaves_the_tile_alone() {
    let mut defs = sheet();
    defs[3].background = Some("nowhere".to_string());
    let c = Catalog::build(&geometry(), &defs).unwrap();
    assert_eq!(c.tile(8).unwrap().background, None);
}

#[test]
fn names_and_labels_are_bound() {
    let c = Catalog::build(&geometry(), &sheet()).unwrap();
    assert_eq!(c.value_of("a"), Some(1));
    assert_eq!(c.value_of("a + 0"), Some(1));
    assert_eq!(c.value_of("a + 1"), Some(2));
    assert_eq!(c.value_of("b"), Some(6));
    assert_eq!(c.value_of("c"), Some(7));
    assert_eq!(c.value_of("c + 0"), None);
    assert_eq!(c.value_of("e"), None);
    assert_eq!(c.label_at(0), Some(Label { definition: 0, offset: 0 }));
    assert_eq!(c.label_at(1), Some(Label { definition: 0, offset: 1 }));
    assert_eq!(c.label_at(2), Some(Label { definition: 1, offset: 0 }));
    assert_eq!(c.label_at(3), None);
    assert_eq!(c.label_at(4), Some(Label { definition: 3, offset: 0 }));
}

#[test]
fn cells_of_a_definition_of_several_lines_follow_the_sheet() {
    let g = Geometry { image_height: 24, ..geometry() };
    let defs = vec![TileDefinition { height: 16, ..definition("big", 8, 8, 16, 32) }];
    let c = Catalog::build(&g, &defs).unwrap();
    assert_eq!(c.tile(6).unwrap().index, 0);
    assert_eq!(c.tile(7).unwrap().index, 1);
    assert_eq!(c.tile(10).unwrap().index, 2);
    assert_eq!(c.tile(11).unwrap().index, 3);
    assert_eq!(c.value_of("big + 3"), Some(11));
    assert_eq!(c.payloads()[2], vec![16, 18, 20, 22, 24, 26, 28, 30]);
    assert_eq!(c.payloads()[1], vec![1, 3, 5, 7, 9, 11, 13, 15]);
}

#[test]
fn vertical_mirror_adds_the_flipped_places_one_index_further() {
    let g = Geometry { mirror: Some(Mirror::Vertical), ..geometry() };
    let c = Catalog::build(&g, &sheet()).unwrap();
    assert_eq!(c.tile(1), Some(tile(0, Mode::M160A, 1, 0)));
    assert_eq!(c.tile(5), Some(tile(1, Mode::M160A, 1, 0)));
    assert_eq!(c.tile(6), Some(tile(2, Mode::M160B, 3, 2)));
    assert_eq!(c.tile(2), Some(tile(3, Mode::M160B, 3, 2)));
    assert_eq!(c.tile(7), Some(tile(1, Mode::M160A, 0, 3)));
    assert_eq!(c.tile(3), Some(tile(2, Mode::M160A, 0, 3)));
    let flipped = c.tile(4).unwrap();
    assert_eq!(flipped.index, 5);
    assert_eq!(flipped.background, Some(5));
    assert_eq!(c.tile(8).unwrap().background, Some(1));
}

#[test]
fn mirror_image_outside_the_sheet_is_an_error() {
    let g = Geometry { mirror: Some(Mirror::Vertical), image_height: 8, ..geometry() };
    assert_eq!(Catalog::build(&g, &sheet()).err(), Some(CatalogError::OutOfRange(1)));
}

#[test]
fn cells_without_size_are_refused() {
    let g = Geometry { tile_width: 0, ..geometry() };
    assert_eq!(Catalog::build(&g, &sheet()).err(), Some(CatalogError::ZeroCell));
    let h = Geometry { tile_height: 0, ..geometry() };
    assert_eq!(Catalog::build(&h, &Vec::new()).err(), Some(CatalogError::ZeroCell));
}

#[test]
fn short_pixel_bytes_are_an_error() {
    let mut defs = sheet();
    defs[1].gfx.pop();
    assert_eq!(Catalog::build(&geometry(), &defs).err(), Some(CatalogError::ShortPayload(1)));
}

#[test]
fn grid_value_beyond_32_bits_is_an_error() {
    let g = Geometry {
        tile_width: 1,
        tile_height: 1,
        image_width: u32::MAX,
        image_height: u32::MAX,
        mode: Mode::M160A,
        mirror: None,
    };
    let defs = vec![TileDefinition { height: 1, ..definition("far", u32::MAX, 0, 1, 2) }];
    assert_eq!(Catalog::build(&g, &defs).err(), Some(CatalogError::OutOfRange(0)));
}

#[test]
fn sheet_without_definitions_is_an_empty_catalog() {
    let c = Catalog::build(&geometry(), &Vec::new()).unwrap();
    assert_eq!(c.next_index(), 0);
    assert_eq!(c.definitions(), 0);
    assert_eq!(c.resolve(1), Cell::Empty);
    assert_eq!(c.payloads().len(), 0);
}

#[test]
fn cell_bytes_are_cut_row_by_row() {
    let gfx: Vec<u8> = (0..16).collect();
    assert_eq!(cut_cell(&gfx, 0, 0, 2, 8, 1), Some(vec![0, 2, 4, 6, 8, 10, 12, 14]));
    assert_eq!(cut_cell(&gfx, 1, 0, 2, 8, 1), Some(vec![1, 3, 5, 7, 9, 11, 13, 15]));
    assert_eq!(cut_cell(&gfx, 0, 1, 2, 2, 2), Some(vec![8, 9, 12, 13]));
    assert_eq!(cut_cell(&gfx, 0, 1, 2, 4, 2), None);
    assert_eq!(cut_cell(&gfx, 1, 1, 2, 2, 2), Some(vec![10, 11, 14, 15]));
    assert_eq!(cut_cell(&gfx, 0, 0, 1, 8, 2), Some(gfx.clone()));
    assert_eq!(cut_cell(&gfx, 0, 0, 1, 9, 2), None);
    assert_eq!(cut_cell(&gfx, 2, 0, 2, 8, 1), None);
    assert_eq!(cut_cell(&gfx, 7, 9, 2, 0, 1), Some(Vec::new()));
}

#[test]
fn blob_bytes_go_scanline_by_scanline() {
    let c = Config::new(8, 2);
    let payloads = vec![vec![1, 2], vec![3, 4], vec![5, 6, 7, 8]];
    let narrow = |p| tile(0, Mode::M160A, 0, p);
    let wide = tile(0, Mode::M160B, 0, 2);
    assert_eq!(blob_payload(&vec![narrow(0), narrow(1)], &payloads, &c), Some(vec![1, 3, 2, 4]));
    assert_eq!(
        blob_payload(&vec![narrow(1), wide, narrow(0)], &payloads, &c),
        Some(vec![3, 5, 6, 1, 4, 7, 8, 2])
    );
    assert_eq!(blob_payload(&Vec::new(), &payloads, &c), Some(Vec::new()));
    assert_eq!(blob_payload(&vec![narrow(3)], &payloads, &c), None);
    assert_eq!(blob_payload(&vec![tile(0, Mode::M160B, 0, 0)], &payloads, &c), None);
}

#[test]
fn grid_must_hold_width_times_height_values() {
    assert_eq!(Grid::new(2, 2, vec![1, 2, 3]).err(), Some(GridError::SizeMismatch));
    assert_eq!(Grid::new(usize::MAX, 2, Vec::new()).err(), Some(GridError::SizeMismatch));
    assert_eq!(Grid::new(0, 5, vec![1]).err(), Some(GridError::SizeMismatch));
    let g = Grid::new(3, 2, vec![1, 2, 3, 4, 5, 6]).unwrap();
    assert_eq!((g.width(), g.height()), (3, 2));
    assert_eq!(g.value(0, 0), 1);
    assert_eq!(g.value(2, 0), 3);
    assert_eq!(g.value(1, 1), 5);
    assert!(Grid::new(0, 0, Vec::new()).is_ok());
}

#[test]
fn grid_rows_are_resolved_through_the_catalog() {
    let c = Catalog::build(&geometry(), &sheet()).unwrap();
    let g = Grid::new(3, 2, vec![1, 0, 9, 2, 2, 6]).unwrap();
    assert_eq!(
        g.row(&c, 0),
        vec![Cell::Single(tile(0, Mode::M160A, 1, 0)), Cell::Empty, Cell::Empty]
    );
    assert_eq!(
        g.row(&c, 1),
        vec![
            Cell::Single(tile(1, Mode::M160A, 1, 1)),
            Cell::Single(tile(1, Mode::M160A, 1, 1)),
            Cell::Single(tile(2, Mode::M160B, 3, 2)),
        ]
    );
}
