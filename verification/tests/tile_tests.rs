use pupsy_render::tile::{Rgb8, TileBuffer, TileGrid, TILE_SIZE};

#[test]
fn tile_counts_round_up() {
    let grid = TileGrid { width: 100, height: 50 };
    assert_eq!(grid.tiles_x(), 4);
    assert_eq!(grid.tiles_y(), 2);
    assert_eq!(grid.tile_count(), 8);

    let exact = TileGrid { width: 64, height: 32 };
    assert_eq!(exact.tiles_x(), 2);
    assert_eq!(exact.tiles_y(), 1);
    assert_eq!(exact.tile_count(), 2);
}

#[test]
fn tile_origin_walks_row_major() {
    let grid = TileGrid { width: 100, height: 50 };
    assert_eq!(grid.tile_origin(0), (0, 0));
    assert_eq!(grid.tile_origin(3), (96, 0));
    assert_eq!(grid.tile_origin(4), (0, 32));
    assert_eq!(grid.tile_origin(7), (96, 32));
}

#[test]
fn locate_pixel_matches_origin() {
    let grid = TileGrid { width: 100, height: 50 };
    // Pixel (97, 40) sits in the last tile, at local (1, 8).
    let (task, local) = grid.locate_pixel(97, 40);
    assert_eq!(task, 7);
    assert_eq!(local, 1 * TILE_SIZE + 8);
    // Pixel (0, 0) is the first slot of the first tile.
    assert_eq!(grid.locate_pixel(0, 0), (0, 0));
}

#[test]
fn every_pixel_has_exactly_one_slot() {
    let grid = TileGrid { width: 70, height: 40 };
    let count = grid.tile_count();
    let mut seen = vec![false; count * TILE_SIZE * TILE_SIZE];
    for y in 0..40u32 {
        for x in 0..70u32 {
            let (task, local) = grid.locate_pixel(x, y);
            let slot = task * TILE_SIZE * TILE_SIZE + local;
            assert!(!seen[slot], "pixel ({x}, {y}) shares a slot");
            seen[slot] = true;
        }
    }
}

#[test]
fn assemble_reads_each_tile_at_its_own_pixels() {
    let grid = TileGrid { width: 40, height: 33 };
    let count = grid.tile_count();
    assert_eq!(count, 4);
    let mut tiles = Vec::new();
    for task in 0..count {
        let mut pixels = Vec::with_capacity(TILE_SIZE * TILE_SIZE);
        for local in 0..TILE_SIZE * TILE_SIZE {
            pixels.push(Rgb8 {
                r: task as u8,
                g: (local / 256) as u8,
                b: (local % 256) as u8,
            });
        }
        tiles.push(TileBuffer { pixels });
    }
    let fb = grid.assemble(&tiles);
    assert_eq!(fb.len(), 40 * 33);
    for y in 0..33u32 {
        for x in 0..40u32 {
            let (task, local) = grid.locate_pixel(x, y);
            let got = fb[(y * 40 + x) as usize];
            assert_eq!(got.r, task as u8);
            assert_eq!(got.g, (local / 256) as u8);
            assert_eq!(got.b, (local % 256) as u8);
        }
    }
}
