use snodas_pipeline::chunk::{chunk_position, chunks_along, cog_tiles, merge_existing, read_tile, stage_chunk, CHUNK_LEN};
use snodas_pipeline::snodas::{MASKED_COLS, MASKED_ROWS, NODATA_VALUE};

const W: usize = MASKED_COLS as usize;
const H: usize = MASKED_ROWS as usize;

fn raster_with(pixels: &[(usize, usize, i16)]) -> Vec<i16> {
    let mut r = vec![NODATA_VALUE; W * H];
    for &(y, x, v) in pixels {
        r[y * W + x] = v;
    }
    r
}

fn idx(t: usize, r: usize, c: usize) -> usize {
    t * 65536 + r * 256 + c
}

#[test]
fn grid_of_the_masked_raster() {
    assert_eq!(chunks_along(H), 14);
    assert_eq!(chunks_along(W), 28);
    assert_eq!(chunks_along(256), 1);
    assert_eq!(chunks_along(0), 0);
    assert_eq!(chunk_position(364), (0, 364));
    assert_eq!(chunk_position(365), (1, 0));
}

#[test]
fn fresh_build_single_pixel() {
    let raster = raster_with(&[(1000, 2000, 100)]);
    let tiles = cog_tiles(&raster, W, H);
    assert_eq!(tiles.len(), 1);
    assert_eq!((tiles[0].chunk_y, tiles[0].chunk_x), (3, 7));
    let (tc, offset) = chunk_position(0);
    assert_eq!((tc, offset), (0, 0));
    let chunk = stage_chunk(&tiles[0], offset);
    assert_eq!(chunk.len(), CHUNK_LEN);
    assert_eq!(chunk[idx(0, 232, 208)], 100);
    assert_eq!(chunk.iter().filter(|v| **v != 0).count(), 1);
}

#[test]
fn append_second_date_keeps_first_slice() {
    let first = cog_tiles(&raster_with(&[(1000, 2000, 100)]), W, H);
    let stored = stage_chunk(&first[0], 0);
    let second = cog_tiles(&raster_with(&[(1000, 2000, 50)]), W, H);
    assert_eq!(second.len(), 1);
    let mut chunk = stage_chunk(&second[0], 1);
    merge_existing(&mut chunk, &stored);
    assert_eq!(chunk[idx(0, 232, 208)], 100);
    assert_eq!(chunk[idx(1, 232, 208)], 50);
    assert_eq!(chunk.iter().filter(|v| **v != 0).count(), 2);
    // merging the same slice again changes nothing
    let before = chunk.clone();
    let staged = stage_chunk(&second[0], 1);
    let mut again = staged.clone();
    merge_existing(&mut again, &before);
    assert_eq!(again, before);
}

#[test]
fn all_nodata_writes_nothing() {
    let raster = raster_with(&[]);
    assert!(cog_tiles(&raster, W, H).is_empty());
    let zeros = vec![0i16; 300 * 300];
    assert!(cog_tiles(&zeros, 300, 300).is_empty());
}

#[test]
fn nodata_is_masked_and_negatives_do_not_count() {
    // a 3 x 2 raster: NODATA, a negative value and a zero; no positive pixel
    let raster = vec![NODATA_VALUE, -5, 0, NODATA_VALUE, 0, -1];
    let (tile, has) = read_tile(&raster, 3, 2, 0, 0);
    assert!(!has);
    assert_eq!((tile.rows, tile.cols), (2, 3));
    assert_eq!(tile.data, vec![0, -5, 0, 0, 0, -1]);
    let raster2 = vec![NODATA_VALUE, 7, 0, 3, NODATA_VALUE, 1];
    let (tile2, has2) = read_tile(&raster2, 3, 2, 0, 0);
    assert!(has2);
    assert_eq!(tile2.data, vec![0, 7, 0, 3, 0, 1]);
    let chunk = stage_chunk(&tile2, 2);
    assert_eq!(chunk[idx(2, 0, 1)], 7);
    assert_eq!(chunk[idx(2, 1, 0)], 3);
    assert_eq!(chunk[idx(2, 1, 2)], 1);
    assert!(chunk.iter().all(|v| *v != NODATA_VALUE));
}

#[test]
fn edge_windows_are_short() {
    let raster = raster_with(&[(3350, 6934, 9)]);
    let tiles = cog_tiles(&raster, W, H);
    assert_eq!(tiles.len(), 1);
    assert_eq!((tiles[0].chunk_y, tiles[0].chunk_x), (13, 27));
    assert_eq!((tiles[0].rows, tiles[0].cols), (23, 23));
    let chunk = stage_chunk(&tiles[0], 364);
    assert_eq!(chunk[idx(364, 22, 22)], 9);
}

#[test]
fn tiles_come_in_row_major_order() {
    let raster = raster_with(&[(0, 300, 1), (0, 10, 2), (600, 0, 3)]);
    let tiles = cog_tiles(&raster, W, H);
    let coords: Vec<(usize, usize)> = tiles.iter().map(|t| (t.chunk_y, t.chunk_x)).collect();
    assert_eq!(coords, vec![(0, 0), (0, 1), (2, 0)]);
}

#[test]
fn merge_prefers_staged_non_zero() {
    let mut staged = vec![0i16, 5, 0, -3];
    let existing = vec![1i16, 2, 0, 4];
    merge_existing(&mut staged, &existing);
    assert_eq!(staged, vec![1, 5, 0, -3]);
}
