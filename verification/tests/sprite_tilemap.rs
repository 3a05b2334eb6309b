use kiss3d::sprite::{nine_slice_faces, SpriteSheet};
use kiss3d::tilemap::{quad_faces, TileQuad, Tilemap, EMPTY};

#[test]
fn sprite_sheet_counts_frames() {
    let sheet = SpriteSheet::new(4, 3);
    assert_eq!(sheet.len(), 12);
    assert!(!sheet.is_empty());
}

#[test]
fn sprite_sheet_frame_cells_wrap() {
    let sheet = SpriteSheet::new(4, 3);
    assert_eq!(sheet.frame_cell(0), (0, 0));
    assert_eq!(sheet.frame_cell(5), (1, 1));
    assert_eq!(sheet.frame_cell(11), (3, 2));
    assert_eq!(sheet.frame_cell(12), (0, 0));
    assert_eq!(sheet.frame_cell(13), (1, 0));
}

#[test]
fn nine_slice_has_eighteen_faces() {
    let faces = nine_slice_faces();
    assert_eq!(faces.len(), 18);
    assert_eq!(faces[0], [0, 4, 5]);
    assert_eq!(faces[1], [0, 5, 1]);
    assert_eq!(faces[17], [10, 15, 11]);
}

#[test]
fn tilemap_starts_empty() {
    let map = Tilemap::new(3, 2, SpriteSheet::new(2, 2));
    assert_eq!(map.dimensions(), (3, 2));
    for row in 0..2 {
        for col in 0..3 {
            assert_eq!(map.tile(col, row), EMPTY);
        }
    }
    assert!(map.occupied_tiles().is_empty());
}

#[test]
fn tilemap_set_then_get() {
    let mut map = Tilemap::new(3, 2, SpriteSheet::new(2, 2));
    map.set_tile(2, 1, 7);
    assert_eq!(map.tile(2, 1), 7);
    assert_eq!(map.tile(1, 1), EMPTY);
    map.set_tile(3, 0, 5);
    map.set_tile(0, 2, 5);
    assert_eq!(map.tile(3, 0), EMPTY);
    assert_eq!(map.tile(0, 2), EMPTY);
    assert_eq!(map.occupied_tiles(), vec![TileQuad { col: 2, row: 1, frame: 7 }]);
}

#[test]
fn tilemap_fill_is_row_major_and_partial() {
    let mut map = Tilemap::new(2, 2, SpriteSheet::new(2, 2));
    map.set_tile(1, 1, 9);
    map.fill(&[1, EMPTY, 3]);
    assert_eq!(map.tile(0, 0), 1);
    assert_eq!(map.tile(1, 0), EMPTY);
    assert_eq!(map.tile(0, 1), 3);
    // The cell past the end of the slice is left empty.
    assert_eq!(map.tile(1, 1), EMPTY);
    assert_eq!(
        map.occupied_tiles(),
        vec![TileQuad { col: 0, row: 0, frame: 1 }, TileQuad { col: 0, row: 1, frame: 3 }]
    );
    // Entries past the last cell are ignored.
    map.fill(&[4, 4, 4, 4, 4]);
    assert_eq!(map.tile(1, 1), 4);
}

#[test]
fn tilemap_fill_short_slice_empties_the_rest() {
    let mut map = Tilemap::new(2, 1, SpriteSheet::new(1, 1));
    map.set_tile(1, 0, 5);
    map.fill(&[7]);
    assert_eq!(map.tile(0, 0), 7);
    assert_eq!(map.tile(1, 0), EMPTY);
}

#[test]
fn tilemap_quad_faces() {
    assert_eq!(quad_faces(0), vec![[0, 0, 0]]);
    assert_eq!(quad_faces(2), vec![[0, 1, 2], [0, 2, 3], [4, 5, 6], [4, 6, 7]]);
    let many = quad_faces(16385);
    assert_eq!(many[2 * 16383], [65532, 65533, 65534]);
    assert_eq!(many[2 * 16384], [0, 1, 2]);
}

#[test]
fn sprite_sheet_without_columns_is_empty() {
    assert!(SpriteSheet { columns: 0, rows: 3 }.is_empty());
    assert!(!SpriteSheet::new(2, 3).is_empty());
    // A sheet too large for a u32 frame count is still not empty.
    assert!(!SpriteSheet { columns: 1 << 20, rows: 1 << 20 }.is_empty());
}
