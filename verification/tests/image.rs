use raytracing2::image::{blit, Array2d, Tile};

#[test]
fn array2d_dimensions_and_default_fill() {
    let image = Array2d::<u8>::new(4, 3);
    assert_eq!(image.width(), 4);
    assert_eq!(image.height(), 3);
    for j in 0..3 {
        for i in 0..4 {
            assert_eq!(*image.get(i, j), 0u8);
        }
    }
}

#[test]
fn array2d_set_then_get() {
    let mut image = Array2d::<u32>::new(5, 5);
    *image.get_mut(2, 3) = 77;
    *image.get_mut(4, 0) = 5;
    assert_eq!(*image.get(2, 3), 77);
    assert_eq!(*image.get(4, 0), 5);
    assert_eq!(*image.get(3, 2), 0);
}

#[test]
fn blit_writes_tile_and_keeps_the_rest() {
    let mut image = Array2d::<u8>::new(8, 6);
    let mut content = Array2d::<u8>::new(3, 2);
    *content.get_mut(0, 0) = 10;
    *content.get_mut(1, 0) = 11;
    *content.get_mut(2, 0) = 12;
    *content.get_mut(0, 1) = 20;
    *content.get_mut(1, 1) = 21;
    *content.get_mut(2, 1) = 22;
    let tile = Tile { offset_i: 4, offset_j: 3, width: 3, height: 2 };
    *image.get_mut(0, 0) = 99;
    blit(&mut image, &tile, &content);
    assert_eq!(*image.get(4, 3), 10);
    assert_eq!(*image.get(5, 3), 11);
    assert_eq!(*image.get(6, 3), 12);
    assert_eq!(*image.get(4, 4), 20);
    assert_eq!(*image.get(5, 4), 21);
    assert_eq!(*image.get(6, 4), 22);
    // Outside the tile nothing moved.
    assert_eq!(*image.get(0, 0), 99);
    assert_eq!(*image.get(7, 5), 0);
    assert_eq!(*image.get(3, 3), 0);
}

#[test]
fn blit_all_tiles_fills_whole_image() {
    let width = 10u32;
    let height = 7u32;
    let mut image = Array2d::<u8>::new(width, height);
    for tile in Tile::split_in_tiles(width, height, 4, 3) {
        let mut content = Array2d::<u8>::new(tile.width, tile.height);
        for j in 0..tile.height {
            for i in 0..tile.width {
                *content.get_mut(i, j) = 1;
            }
        }
        blit(&mut image, &tile, &content);
    }
    for j in 0..height {
        for i in 0..width {
            assert_eq!(*image.get(i, j), 1);
        }
    }
}
