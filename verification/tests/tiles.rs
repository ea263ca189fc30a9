use raytracing2::image::Tile;

fn check_partition(full_width: u32, full_height: u32, tile_width: u32, tile_height: u32) {
    let tiles = Tile::split_in_tiles(full_width, full_height, tile_width, tile_height);
    // Count how many tiles cover each pixel: exactly one for every pixel.
    let mut cover = vec![0u32; (full_width * full_height) as usize];
    for t in &tiles {
        assert!(t.width >= 1 && t.height >= 1);
        assert!(t.offset_i + t.width <= full_width);
        assert!(t.offset_j + t.height <= full_height);
        for y in t.offset_j..t.offset_j + t.height {
            for x in t.offset_i..t.offset_i + t.width {
                cover[(y * full_width + x) as usize] += 1;
            }
        }
    }
    for c in cover {
        assert_eq!(c, 1);
    }
}

#[test]
fn tiles_cover_exact_multiples() {
    check_partition(64, 32, 16, 16);
    let tiles = Tile::split_in_tiles(64, 32, 16, 16);
    assert_eq!(tiles.len(), 4 * 2);
    assert_eq!(tiles[0].offset_i, 0);
    assert_eq!(tiles[0].offset_j, 0);
    assert_eq!(tiles[0].width, 16);
    assert_eq!(tiles[0].height, 16);
}

#[test]
fn tiles_cover_non_multiples() {
    check_partition(10, 7, 4, 3);
    let tiles = Tile::split_in_tiles(10, 7, 4, 3);
    // ceil(10 / 4) = 3 columns, ceil(7 / 3) = 3 rows.
    assert_eq!(tiles.len(), 9);
    // The right and bottom edge tiles are clipped.
    assert_eq!(tiles[2].offset_i, 8);
    assert_eq!(tiles[2].width, 2);
    assert_eq!(tiles[8].offset_j, 6);
    assert_eq!(tiles[8].height, 1);
}

#[test]
fn tiles_larger_than_image() {
    check_partition(5, 4, 32, 32);
    let tiles = Tile::split_in_tiles(5, 4, 32, 32);
    assert_eq!(tiles.len(), 1);
    assert_eq!(tiles[0].width, 5);
    assert_eq!(tiles[0].height, 4);
}

#[test]
fn tiles_single_pixel_tiles() {
    check_partition(3, 2, 1, 1);
    assert_eq!(Tile::split_in_tiles(3, 2, 1, 1).len(), 6);
}

#[test]
fn tiles_empty_image() {
    assert_eq!(Tile::split_in_tiles(0, 5, 8, 8).len(), 0);
    assert_eq!(Tile::split_in_tiles(5, 0, 8, 8).len(), 0);
}

#[test]
fn tiles_row_major_order() {
    let tiles = Tile::split_in_tiles(8, 8, 4, 4);
    assert_eq!(tiles.len(), 4);
    assert_eq!((tiles[0].offset_i, tiles[0].offset_j), (0, 0));
    assert_eq!((tiles[1].offset_i, tiles[1].offset_j), (4, 0));
    assert_eq!((tiles[2].offset_i, tiles[2].offset_j), (0, 4));
    assert_eq!((tiles[3].offset_i, tiles[3].offset_j), (4, 4));
}
