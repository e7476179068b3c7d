//! Geometry of the chunk grid and the merge of one raster into a chunk.
//!
//! A chunk covers 365 consecutive axis positions and a 256 × 256 tile of the
//! plane. Its elements are laid out row-major: slab (time offset) first, then
//! row, then column.
use vstd::prelude::*;
use vstd::arithmetic::div_mod::{lemma_fundamental_div_mod, lemma_fundamental_div_mod_converse, lemma_mod_pos_bound};
use crate::snodas::NODATA_VALUE;

verus! {

/// Axis positions covered by one chunk.
pub const CHUNK_TIME: usize = 365;

/// Rows of the plane covered by one chunk.
pub const CHUNK_Y: usize = 256;

/// Columns of the plane covered by one chunk.
pub const CHUNK_X: usize = 256;

/// Elements in one time slab of a chunk.
pub const SLAB_LEN: usize = 65536;

/// Elements in one chunk.
pub const CHUNK_LEN: usize = 23920640;

/// A raster value with the NODATA sentinel replaced by zero.
pub open spec fn masked(v: i16) -> i16 {
    if v == NODATA_VALUE { 0 } else { v }
}

/// Number of 256-wide chunks needed to cover `n` pixels.
pub open spec fn chunk_span(n: int) -> int {
    (n + 255) / 256
}

/// Extent of the window of chunk `k` along an axis of `n` pixels.
pub open spec fn window_len(n: int, k: int) -> int {
    if n - k * 256 < 256 { n - k * 256 } else { 256 }
}

/// The pixel at row `y`, column `x` of a row-major raster.
pub open spec fn pixel(raster: Seq<i16>, width: int, y: int, x: int) -> i16 {
    raster[y * width + x]
}

/// The pixel at row `r`, column `c` of the window of chunk `(cy, cx)`.
pub open spec fn window_pixel(raster: Seq<i16>, width: int, cy: int, cx: int, r: int, c: int) -> i16 {
    pixel(raster, width, cy * 256 + r, cx * 256 + c)
}

/// Whether the window of chunk `(cy, cx)` holds a strictly positive pixel.
pub open spec fn window_has_data(raster: Seq<i16>, width: int, height: int, cy: int, cx: int) -> bool {
    exists|r: int, c: int|
        0 <= r < window_len(height, cy) && 0 <= c < window_len(width, cx) && #[trigger] window_pixel(
            raster,
            width,
            cy,
            cx,
            r,
            c,
        ) > 0
}

/// The window of one spatial chunk, read from a raster with NODATA masked.
pub struct Tile {
    pub chunk_y: usize,
    pub chunk_x: usize,
    pub rows: usize,
    pub cols: usize,
    /// `rows × cols` values, row-major.
    pub data: Vec<i16>,
}

impl Tile {
    pub open spec fn wf(&self) -> bool {
        &&& self.rows <= 256
        &&& self.cols <= 256
        &&& self.data@.len() == self.rows * self.cols
    }

    /// The value at row `r`, column `c` of the tile.
    pub open spec fn at(&self, r: int, c: int) -> i16 {
        self.data@[r * self.cols + c]
    }
}

/// `t` is the masked window of chunk `(t.chunk_y, t.chunk_x)` of the raster.
pub open spec fn tile_matches(t: Tile, raster: Seq<i16>, width: int, height: int) -> bool {
    &&& t.wf()
    &&& t.chunk_y < chunk_span(height)
    &&& t.chunk_x < chunk_span(width)
    &&& t.rows == window_len(height, t.chunk_y as int)
    &&& t.cols == window_len(width, t.chunk_x as int)
    &&& forall|r: int, c: int|
        0 <= r < t.rows && 0 <= c < t.cols ==> #[trigger] t.at(r, c) == masked(
            window_pixel(raster, width, t.chunk_y as int, t.chunk_x as int, r, c),
        )
}

/// Position of element (slab `s`, row `r`, column `c`) in a chunk.
pub open spec fn chunk_index(s: int, r: int, c: int) -> int {
    s * 65536 + r * 256 + c
}

/// Element `i` of the chunk staged from tile `t` at time offset `offset`:
/// the tile in slab `offset`, zero everywhere else.
pub open spec fn staged_value(t: Tile, offset: int, i: int) -> i16 {
    let s = i / 65536;
    let r = (i % 65536) / 256;
    let c = i % 256;
    if s == offset && r < t.rows && c < t.cols {
        t.at(r, c)
    } else {
        0
    }
}

/// The chunk staged from tile `t` at time offset `offset`.
pub open spec fn staged_chunk(t: Tile, offset: int) -> Seq<i16> {
    Seq::new(CHUNK_LEN as nat, |i: int| staged_value(t, offset, i))
}

/// One element of a merge: a staged zero adopts the element already stored.
pub open spec fn merged_value(staged: i16, existing: i16) -> i16 {
    if staged == 0 { existing } else { staged }
}

/// The merge of a staged chunk with the chunk already stored.
pub open spec fn merged_chunk(staged: Seq<i16>, existing: Seq<i16>) -> Seq<i16> {
    Seq::new(staged.len(), |i: int| merged_value(staged[i], existing[i]))
}

proof fn lemma_row_major_bound(a: int, b: int, n: int, m: int)
    requires
        0 <= a < n,
        0 <= b < m,
    ensures
        0 <= a * m + b < n * m,
        a * m + b < (a + 1) * m,
{
    assert(0 <= a * m + b < n * m) by (nonlinear_arith)
        requires
            0 <= a < n,
            0 <= b < m,
    ;
    assert(a * m + b < (a + 1) * m) by (nonlinear_arith)
        requires
            0 <= b < m,
    ;
}

/// Row `r` and column `c` of a flat row-major index `r * cols + c`.
proof fn lemma_row_major_split(r: int, c: int, cols: int)
    requires
        0 <= c < cols,
        0 <= r,
    ensures
        (r * cols + c) / cols == r,
        (r * cols + c) % cols == c,
{
    lemma_fundamental_div_mod_converse(r * cols + c, cols, r, c);
}

/// A flat index below `rows * cols` splits into a row below `rows` and a column.
proof fn lemma_flat_split(k: int, rows: int, cols: int)
    requires
        0 <= k < rows * cols,
        0 < cols,
    ensures
        0 <= k / cols < rows,
        0 <= k % cols < cols,
        k == (k / cols) * cols + k % cols,
{
    lemma_fundamental_div_mod(k, cols);
    lemma_mod_pos_bound(k, cols);
    let q = k / cols;
    assert(0 <= q < rows) by (nonlinear_arith)
        requires
            k == cols * q + k % cols,
            0 <= k % cols < cols,
            0 <= k < rows * cols,
            0 < cols,
    ;
    assert(cols * q == q * cols) by (nonlinear_arith);
}

/// Chunk `k` of an axis of `n` pixels starts inside the axis, and its window
/// fits in the axis.
pub proof fn lemma_window_fits(n: int, k: int)
    requires
        0 <= n,
        0 <= k < chunk_span(n),
    ensures
        k * 256 < n,
        0 < window_len(n, k) <= 256,
        k * 256 + window_len(n, k) <= n,
{
    lemma_fundamental_div_mod(n + 255, 256);
    lemma_mod_pos_bound(n + 255, 256);
    let q = (n + 255) / 256;
    assert(k * 256 < n) by (nonlinear_arith)
        requires
            n + 255 == 256 * q + (n + 255) % 256,
            0 <= (n + 255) % 256 < 256,
            0 <= k < q,
    ;
}

/// The flat index of (slab, row, column) splits back into its parts.
pub proof fn lemma_chunk_index_split(s: int, r: int, c: int)
    requires
        0 <= s < 365,
        0 <= r < 256,
        0 <= c < 256,
    ensures
        0 <= chunk_index(s, r, c) < CHUNK_LEN,
        chunk_index(s, r, c) / 65536 == s,
        (chunk_index(s, r, c) % 65536) / 256 == r,
        chunk_index(s, r, c) % 256 == c,
{
    let i = chunk_index(s, r, c);
    lemma_row_major_bound(r, c, 256, 256);
    lemma_fundamental_div_mod_converse(i, 65536, s, r * 256 + c);
    lemma_row_major_split(r, c, 256);
    assert((s * 256 + r) * 256 + c == s * 65536 + r * 256 + c) by (nonlinear_arith);
    lemma_fundamental_div_mod_converse(i, 256, s * 256 + r, c);
    lemma_row_major_bound(s, r * 256 + c, 365, 65536);
}

/// Number of chunks needed to cover `n` pixels along one axis.
pub fn chunks_along(n: usize) -> (k: usize)
    ensures
        k == chunk_span(n as int),
{
    let q = n / 256;
    if n % 256 == 0 { q } else { q + 1 }
}

/// Reads the window of chunk `(cy, cx)` from a row-major raster, with NODATA
/// replaced by zero, and reports whether it holds a strictly positive pixel.
pub fn read_tile(raster: &Vec<i16>, width: usize, height: usize, cy: usize, cx: usize) -> (res: (
    Tile,
    bool,
))
    requires
        raster@.len() == width * height,
        cy < chunk_span(height as int),
        cx < chunk_span(width as int),
    ensures
        tile_matches(res.0, raster@, width as int, height as int),
        res.0.chunk_y == cy,
        res.0.chunk_x == cx,
        res.1 == window_has_data(raster@, width as int, height as int, cy as int, cx as int),
{
    proof {
        lemma_window_fits(height as int, cy as int);
        lemma_window_fits(width as int, cx as int);
    }
    let y0 = cy * 256;
    let x0 = cx * 256;
    let rows = if height - y0 < 256 { height - y0 } else { 256 };
    let cols = if width - x0 < 256 { width - x0 } else { 256 };
    assert(rows * cols <= 65536) by (nonlinear_arith)
        requires
            rows <= 256,
            cols <= 256,
    ;
    let n = rows * cols;
    let mut data: Vec<i16> = Vec::with_capacity(n);
    let mut has = false;
    let total = raster.len();
    let mut k: usize = 0;
    while k < n
        invariant
            n == rows * cols,
            rows == window_len(height as int, cy as int),
            cols == window_len(width as int, cx as int),
            0 < rows <= 256,
            0 < cols <= 256,
            y0 == cy * 256,
            x0 == cx * 256,
            y0 + rows <= height,
            x0 + cols <= width,
            raster@.len() == width * height,
            total == raster@.len(),
            k <= n,
            data@.len() == k,
            forall|j: int|
                0 <= j < k ==> #[trigger] data@[j] == masked(
                    window_pixel(raster@, width as int, cy as int, cx as int, j / cols as int, j % cols as int),
                ),
            has <==> exists|j: int| 0 <= j < k && #[trigger] data@[j] > 0,
        decreases n - k,
    {
        let r = k / cols;
        let c = k % cols;
        proof {
            lemma_flat_split(k as int, rows as int, cols as int);
            lemma_row_major_bound((y0 + r) as int, (x0 + c) as int, height as int, width as int);
            assert((height as int) * (width as int) == (width as int) * (height as int)) by (nonlinear_arith);
        }
        let v = raster[(y0 + r) * width + x0 + c];
        let m = if v == NODATA_VALUE { 0i16 } else { v };
        let ghost prev = data@;
        data.push(m);
        if m > 0 {
            has = true;
        }
        proof {
            assert(data@[k as int] == m);
            assert(forall|j: int| 0 <= j < k ==> data@[j] == prev[j]);
            if has && m <= 0 {
                let j = choose|j: int| 0 <= j < k && #[trigger] prev[j] > 0;
                assert(data@[j] > 0);
            }
        }
        k = k + 1;
    }
    let tile = Tile { chunk_y: cy, chunk_x: cx, rows, cols, data };
    proof {
        assert forall|r: int, c: int| 0 <= r < rows && 0 <= c < cols implies #[trigger] tile.at(r, c)
            == masked(window_pixel(raster@, width as int, cy as int, cx as int, r, c)) by {
            lemma_row_major_bound(r, c, rows as int, cols as int);
            lemma_row_major_split(r, c, cols as int);
        }
        if has {
            let j = choose|j: int| 0 <= j < n && #[trigger] data@[j] > 0;
            let r = j / cols as int;
            let c = j % cols as int;
            lemma_flat_split(j, rows as int, cols as int);
            assert(window_pixel(raster@, width as int, cy as int, cx as int, r, c) > 0);
        }
        if window_has_data(raster@, width as int, height as int, cy as int, cx as int) {
            let (r, c) = choose|r: int, c: int|
                0 <= r < window_len(height as int, cy as int) && 0 <= c < window_len(width as int, cx as int)
                    && #[trigger] window_pixel(raster@, width as int, cy as int, cx as int, r, c) > 0;
            lemma_row_major_bound(r, c, rows as int, cols as int);
            lemma_row_major_split(r, c, cols as int);
            assert(data@[r * cols + c] > 0);
        }
    }
    (tile, has)
}

/// Tile `a` comes before tile `b` in row-major chunk order.
pub open spec fn tile_before(a: Tile, b: Tile) -> bool {
    a.chunk_y < b.chunk_y || (a.chunk_y == b.chunk_y && a.chunk_x < b.chunk_x)
}

/// `tiles` lists, in row-major chunk order, exactly the masked windows of the
/// raster that hold a strictly positive pixel.
pub open spec fn tiles_of_raster(tiles: Seq<Tile>, raster: Seq<i16>, width: int, height: int) -> bool {
    &&& forall|j: int|
        0 <= j < tiles.len() ==> tile_matches(#[trigger] tiles[j], raster, width, height)
            && window_has_data(raster, width, height, tiles[j].chunk_y as int, tiles[j].chunk_x as int)
    &&& forall|cy: int, cx: int|
        0 <= cy < chunk_span(height) && 0 <= cx < chunk_span(width) && #[trigger] window_has_data(
            raster,
            width,
            height,
            cy,
            cx,
        ) ==> exists|j: int|
            0 <= j < tiles.len() && #[trigger] tiles[j].chunk_y == cy && tiles[j].chunk_x == cx
    &&& forall|i: int, j: int| 0 <= i < j < tiles.len() ==> tile_before(#[trigger] tiles[i], #[trigger] tiles[j])
}

/// Splits a row-major raster into the spatial chunks that hold a strictly
/// positive pixel; chunks with no such pixel are skipped.
pub fn cog_tiles(raster: &Vec<i16>, width: usize, height: usize) -> (tiles: Vec<Tile>)
    requires
        raster@.len() == width * height,
    ensures
        tiles_of_raster(tiles@, raster@, width as int, height as int),
{
    let ny = chunks_along(height);
    let nx = chunks_along(width);
    let mut tiles: Vec<Tile> = Vec::new();
    let mut cy: usize = 0;
    while cy < ny
        invariant
            ny == chunk_span(height as int),
            nx == chunk_span(width as int),
            raster@.len() == width * height,
            cy <= ny,
            forall|j: int|
                0 <= j < tiles@.len() ==> tile_matches(#[trigger] tiles@[j], raster@, width as int, height as int)
                    && window_has_data(raster@, width as int, height as int, tiles@[j].chunk_y as int, tiles@[j].chunk_x as int)
                    && tiles@[j].chunk_y < cy,
            forall|y: int, x: int|
                0 <= y < cy && 0 <= x < nx && #[trigger] window_has_data(raster@, width as int, height as int, y, x)
                    ==> exists|j: int| 0 <= j < tiles@.len() && #[trigger] tiles@[j].chunk_y == y && tiles@[j].chunk_x == x,
            forall|i: int, j: int| 0 <= i < j < tiles@.len() ==> tile_before(#[trigger] tiles@[i], #[trigger] tiles@[j]),
        decreases ny - cy,
    {
        let mut cx: usize = 0;
        while cx < nx
            invariant
                ny == chunk_span(height as int),
                nx == chunk_span(width as int),
                raster@.len() == width * height,
                cy < ny,
                cx <= nx,
                forall|j: int|
                    0 <= j < tiles@.len() ==> tile_matches(#[trigger] tiles@[j], raster@, width as int, height as int)
                        && window_has_data(raster@, width as int, height as int, tiles@[j].chunk_y as int, tiles@[j].chunk_x as int)
                        && (tiles@[j].chunk_y < cy || (tiles@[j].chunk_y == cy && tiles@[j].chunk_x < cx)),
                forall|y: int, x: int|
                    0 <= y <= cy && 0 <= x < nx && (y < cy || x < cx) && #[trigger] window_has_data(raster@, width as int, height as int, y, x)
                        ==> exists|j: int| 0 <= j < tiles@.len() && #[trigger] tiles@[j].chunk_y == y && tiles@[j].chunk_x == x,
                forall|i: int, j: int| 0 <= i < j < tiles@.len() ==> tile_before(#[trigger] tiles@[i], #[trigger] tiles@[j]),
            decreases nx - cx,
        {
            let (tile, has) = read_tile(raster, width, height, cy, cx);
            let ghost prev = tiles@;
            if has {
                tiles.push(tile);
                proof {
                    assert(tiles@[prev.len() as int].chunk_y == cy);
                    assert forall|y: int, x: int|
                        0 <= y <= cy && 0 <= x < nx && (y < cy || x < cx + 1) && #[trigger] window_has_data(raster@, width as int, height as int, y, x)
                        implies exists|j: int| 0 <= j < tiles@.len() && #[trigger] tiles@[j].chunk_y == y && tiles@[j].chunk_x == x by {
                        if y < cy || x < cx {
                            let j = choose|j: int| 0 <= j < prev.len() && #[trigger] prev[j].chunk_y == y && prev[j].chunk_x == x;
                            assert(tiles@[j] == prev[j]);
                        } else {
                            assert(tiles@[prev.len() as int].chunk_x == x);
                        }
                    }
                }
            } else {
                proof {
                    assert forall|y: int, x: int|
                        0 <= y <= cy && 0 <= x < nx && (y < cy || x < cx + 1) && #[trigger] window_has_data(raster@, width as int, height as int, y, x)
                        implies exists|j: int| 0 <= j < tiles@.len() && #[trigger] tiles@[j].chunk_y == y && tiles@[j].chunk_x == x by {
                        if y < cy || x < cx {
                        } else {
                            assert(x == cx && y == cy);
                        }
                    }
                }
            }
            cx = cx + 1;
        }
        cy = cy + 1;
    }
    tiles
}

/// Position of axis index `t` in the chunk grid: its time chunk and its slab
/// within that chunk.
pub fn chunk_position(t: usize) -> (res: (usize, usize))
    ensures
        res.0 == t / 365,
        res.1 == t % 365,
{
    (t / CHUNK_TIME, t % CHUNK_TIME)
}

/// Stages a tile as a full chunk: the tile's values fill the top-left corner
/// of slab `time_offset`, every other element is zero.
pub fn stage_chunk(tile: &Tile, time_offset: usize) -> (chunk: Vec<i16>)
    requires
        tile.wf(),
        time_offset < 365,
    ensures
        chunk@ == staged_chunk(*tile, time_offset as int),
{
    let mut chunk: Vec<i16> = Vec::with_capacity(CHUNK_LEN);
    let mut i: usize = 0;
    while i < CHUNK_LEN
        invariant
            tile.wf(),
            chunk@.len() == i,
            i <= CHUNK_LEN,
            forall|j: int| 0 <= j < i ==> #[trigger] chunk@[j] == staged_value(*tile, time_offset as int, j),
        decreases CHUNK_LEN - i,
    {
        let s = i / SLAB_LEN;
        let r = (i % SLAB_LEN) / CHUNK_X;
        let c = i % CHUNK_X;
        let v = if s == time_offset && r < tile.rows && c < tile.cols {
            proof {
                lemma_row_major_bound(r as int, c as int, tile.rows as int, tile.cols as int);
                assert(tile.rows * tile.cols <= 65536) by (nonlinear_arith)
                    requires
                        tile.rows <= 256,
                        tile.cols <= 256,
                ;
            }
            tile.data[r * tile.cols + c]
        } else {
            0
        };
        chunk.push(v);
        i = i + 1;
    }
    assert(chunk@ =~= staged_chunk(*tile, time_offset as int));
    chunk
}

/// Merges the chunk already stored into a staged chunk: every staged zero
/// adopts the stored element, every non-zero staged element stays.
pub fn merge_existing(staged: &mut Vec<i16>, existing: &Vec<i16>)
    requires
        old(staged)@.len() == existing@.len(),
    ensures
        final(staged)@ == merged_chunk(old(staged)@, existing@),
{
    let n = staged.len();
    let mut i: usize = 0;
    while i < n
        invariant
            n == staged@.len(),
            n == existing@.len(),
            i <= n,
            forall|j: int| 0 <= j < i ==> #[trigger] staged@[j] == merged_value(old(staged)@[j], existing@[j]),
            forall|j: int| i <= j < n ==> #[trigger] staged@[j] == old(staged)@[j],
        decreases n - i,
    {
        if staged[i] == 0 {
            staged.set(i, existing[i]);
        }
        i = i + 1;
    }
    assert(staged@ =~= merged_chunk(old(staged)@, existing@));
}

/// Where a staged chunk puts each value: the tile in slab `offset`, zero in
/// every other slab and in the padding of a short edge window.
pub proof fn lemma_staged_layout(t: Tile, offset: int, s: int, r: int, c: int)
    requires
        t.wf(),
        0 <= offset < 365,
        0 <= s < 365,
        0 <= r < 256,
        0 <= c < 256,
    ensures
        staged_chunk(t, offset)[chunk_index(s, r, c)] == (if s == offset && r < t.rows && c < t.cols {
            t.at(r, c)
        } else {
            0i16
        }),
{
    lemma_chunk_index_split(s, r, c);
}

/// A merge changes no slab but the staged one: every element of another slab
/// keeps the value already stored, so earlier dates of the chunk survive.
pub proof fn lemma_merge_preserves_other_slabs(t: Tile, offset: int, existing: Seq<i16>)
    requires
        t.wf(),
        0 <= offset < 365,
        existing.len() == CHUNK_LEN,
    ensures
        forall|s: int, r: int, c: int|
            0 <= s < 365 && s != offset && 0 <= r < 256 && 0 <= c < 256 ==> merged_chunk(
                staged_chunk(t, offset),
                existing,
            )[#[trigger] chunk_index(s, r, c)] == existing[chunk_index(s, r, c)],
{
    assert forall|s: int, r: int, c: int|
        0 <= s < 365 && s != offset && 0 <= r < 256 && 0 <= c < 256 implies merged_chunk(
            staged_chunk(t, offset),
            existing,
        )[#[trigger] chunk_index(s, r, c)] == existing[chunk_index(s, r, c)] by {
        lemma_staged_layout(t, offset, s, r, c);
        lemma_chunk_index_split(s, r, c);
    }
}

/// A stored element is either zero or the raster's own value, which is not
/// the NODATA sentinel.
pub open spec fn pixel_ok(v: i16, raster: Seq<i16>, width: int, y: int, x: int) -> bool {
    v == 0 || (v != NODATA_VALUE && v == pixel(raster, width, y, x))
}

/// Every element of chunk `(cy, cx)` of some time chunk is NODATA-free: in
/// slab `s`, an element over a pixel of the grid is zero or the non-NODATA
/// value of `cog_of(s)` at that pixel, the raster merged at that slab; an
/// element of the padding beyond a short edge window is zero.
pub open spec fn chunk_masked(
    chunk: Seq<i16>,
    cog_of: spec_fn(int) -> Seq<i16>,
    width: int,
    height: int,
    cy: int,
    cx: int,
) -> bool {
    forall|s: int, r: int, c: int|
        0 <= s < 365 && 0 <= r < 256 && 0 <= c < 256 ==> {
            let v = #[trigger] chunk[chunk_index(s, r, c)];
            if r < window_len(height, cy) && c < window_len(width, cx) {
                pixel_ok(v, cog_of(s), width, cy * 256 + r, cx * 256 + c)
            } else {
                v == 0
            }
        }
}

/// A chunk not stored yet reads as all zeros, which is NODATA-free.
pub proof fn lemma_empty_chunk_masked(cog_of: spec_fn(int) -> Seq<i16>, width: int, height: int, cy: int, cx: int)
    ensures
        chunk_masked(Seq::new(CHUNK_LEN as nat, |i: int| 0i16), cog_of, width, height, cy, cx),
{
    let z = Seq::new(CHUNK_LEN as nat, |i: int| 0i16);
    assert forall|s: int, r: int, c: int| 0 <= s < 365 && 0 <= r < 256 && 0 <= c < 256 implies {
        let v = #[trigger] z[chunk_index(s, r, c)];
        if r < window_len(height, cy) && c < window_len(width, cx) {
            pixel_ok(v, cog_of(s), width, cy * 256 + r, cx * 256 + c)
        } else {
            v == 0
        }
    } by {
        lemma_chunk_index_split(s, r, c);
    }
    assert(chunk_masked(z, cog_of, width, height, cy, cx));
}

/// NODATA never reaches the array: merging a raster's tile at slab `offset`
/// into a NODATA-free chunk leaves it NODATA-free, with that raster as the
/// one of slab `offset`. With the empty chunk as start, every chunk the
/// accumulator stores is NODATA-free.
pub proof fn lemma_nodata_masked(
    t: Tile,
    raster: Seq<i16>,
    width: int,
    height: int,
    offset: int,
    existing: Seq<i16>,
    cog_of: spec_fn(int) -> Seq<i16>,
)
    requires
        tile_matches(t, raster, width, height),
        0 <= offset < 365,
        existing.len() == CHUNK_LEN,
        cog_of(offset) == raster,
        chunk_masked(existing, cog_of, width, height, t.chunk_y as int, t.chunk_x as int),
    ensures
        chunk_masked(
            merged_chunk(staged_chunk(t, offset), existing),
            cog_of,
            width,
            height,
            t.chunk_y as int,
            t.chunk_x as int,
        ),
{
    let cy = t.chunk_y as int;
    let cx = t.chunk_x as int;
    let m = merged_chunk(staged_chunk(t, offset), existing);
    assert forall|s: int, r: int, c: int| 0 <= s < 365 && 0 <= r < 256 && 0 <= c < 256 implies {
        let v = #[trigger] m[chunk_index(s, r, c)];
        if r < window_len(height, cy) && c < window_len(width, cx) {
            pixel_ok(v, cog_of(s), width, cy * 256 + r, cx * 256 + c)
        } else {
            v == 0
        }
    } by {
        lemma_staged_layout(t, offset, s, r, c);
        lemma_chunk_index_split(s, r, c);
        let e = existing[chunk_index(s, r, c)];
        if s == offset && r < t.rows && c < t.cols {
            assert(t.at(r, c) == masked(window_pixel(raster, width, cy, cx, r, c)));
        }
    }
}

/// Merging the same staged chunk a second time changes nothing.
pub proof fn lemma_merge_idempotent(staged: Seq<i16>, existing: Seq<i16>)
    requires
        staged.len() == existing.len(),
    ensures
        merged_chunk(staged, merged_chunk(staged, existing)) == merged_chunk(staged, existing),
{
    assert(merged_chunk(staged, merged_chunk(staged, existing)) =~= merged_chunk(staged, existing));
}

/// A raster whose every pixel is NODATA yields no chunk to write.
pub proof fn lemma_all_nodata_no_tiles(tiles: Seq<Tile>, raster: Seq<i16>, width: int, height: int)
    requires
        0 <= width,
        0 <= height,
        raster.len() == width * height,
        tiles_of_raster(tiles, raster, width, height),
        forall|i: int| 0 <= i < raster.len() ==> raster[i] == NODATA_VALUE,
    ensures
        tiles.len() == 0,
{
    if tiles.len() > 0 {
        let t = tiles[0];
        assert(tile_matches(t, raster, width, height));
        let (r, c) = choose|r: int, c: int|
            0 <= r < window_len(height, t.chunk_y as int) && 0 <= c < window_len(width, t.chunk_x as int)
                && #[trigger] window_pixel(raster, width, t.chunk_y as int, t.chunk_x as int, r, c) > 0;
        lemma_window_fits(height, t.chunk_y as int);
        lemma_window_fits(width, t.chunk_x as int);
        lemma_row_major_bound(t.chunk_y * 256 + r, t.chunk_x * 256 + c, height, width);
        assert(height * width == width * height) by (nonlinear_arith);
    }
}

/// Row and column of a pixel are recovered from its row-major index.
proof fn lemma_row_major_unique(y1: int, x1: int, y2: int, x2: int, width: int)
    requires
        0 <= y1,
        0 <= y2,
        0 <= x1 < width,
        0 <= x2 < width,
        y1 * width + x1 == y2 * width + x2,
    ensures
        y1 == y2,
        x1 == x2,
{
    lemma_row_major_split(y1, x1, width);
    lemma_row_major_split(y2, x2, width);
}

/// A raster with one strictly positive pixel at `(y, x)`, and NODATA or zero
/// elsewhere, yields exactly one chunk to write, at `(y / 256, x / 256)`; staged
/// at any slab, that chunk is zero everywhere but at the pixel's own place.
pub proof fn lemma_single_pixel_one_tile(
    tiles: Seq<Tile>,
    raster: Seq<i16>,
    width: int,
    height: int,
    y: int,
    x: int,
    offset: int,
)
    requires
        raster.len() == width * height,
        tiles_of_raster(tiles, raster, width, height),
        0 <= y < height,
        0 <= x < width,
        0 <= offset < 365,
        pixel(raster, width, y, x) > 0,
        forall|i: int|
            0 <= i < raster.len() && i != y * width + x ==> #[trigger] raster[i] == NODATA_VALUE || raster[i] == 0,
    ensures
        tiles.len() == 1,
        tiles[0].chunk_y == y / 256,
        tiles[0].chunk_x == x / 256,
        forall|s: int, r: int, c: int|
            0 <= s < 365 && 0 <= r < 256 && 0 <= c < 256 ==> (staged_chunk(tiles[0], offset)[#[trigger] chunk_index(s, r, c)] != 0
                <==> (s == offset && r == y % 256 && c == x % 256)),
        staged_chunk(tiles[0], offset)[chunk_index(offset, y % 256, x % 256)] == pixel(raster, width, y, x),
{
    // Every listed tile holds the one positive pixel.
    assert forall|j: int| 0 <= j < tiles.len() implies #[trigger] tiles[j].chunk_y == y / 256 && tiles[j].chunk_x == x / 256 by {
        let t = tiles[j];
        assert(tile_matches(t, raster, width, height));
        let (r, c) = choose|r: int, c: int|
            0 <= r < window_len(height, t.chunk_y as int) && 0 <= c < window_len(width, t.chunk_x as int)
                && #[trigger] window_pixel(raster, width, t.chunk_y as int, t.chunk_x as int, r, c) > 0;
        lemma_window_fits(height, t.chunk_y as int);
        lemma_window_fits(width, t.chunk_x as int);
        lemma_row_major_bound(t.chunk_y * 256 + r, t.chunk_x * 256 + c, height, width);
        assert(height * width == width * height) by (nonlinear_arith);
        lemma_row_major_unique(t.chunk_y * 256 + r, t.chunk_x * 256 + c, y, x, width);
        lemma_row_major_split(t.chunk_y as int, r, 256);
        lemma_row_major_split(t.chunk_x as int, c, 256);
    }
    // The tile of that pixel has data, so it is listed.
    let cy = y / 256;
    let cx = x / 256;
    lemma_fundamental_div_mod(y, 256);
    lemma_mod_pos_bound(y, 256);
    lemma_fundamental_div_mod(x, 256);
    lemma_mod_pos_bound(x, 256);
    lemma_fundamental_div_mod(height + 255, 256);
    lemma_mod_pos_bound(height + 255, 256);
    lemma_fundamental_div_mod(width + 255, 256);
    lemma_mod_pos_bound(width + 255, 256);
    assert(cy < chunk_span(height)) by (nonlinear_arith)
        requires
            y == 256 * cy + y % 256,
            0 <= y % 256 < 256,
            y < height,
            height + 255 == 256 * ((height + 255) / 256) + (height + 255) % 256,
            0 <= (height + 255) % 256 < 256,
    ;
    assert(cx < chunk_span(width)) by (nonlinear_arith)
        requires
            x == 256 * cx + x % 256,
            0 <= x % 256 < 256,
            x < width,
            width + 255 == 256 * ((width + 255) / 256) + (width + 255) % 256,
            0 <= (width + 255) % 256 < 256,
    ;
    assert(window_pixel(raster, width, cy, cx, y % 256, x % 256) > 0);
    assert(window_has_data(raster, width, height, cy, cx));
    let j0 = choose|j: int| 0 <= j < tiles.len() && #[trigger] tiles[j].chunk_y == cy && tiles[j].chunk_x == cx;
    if tiles.len() > 1 {
        assert(tile_before(tiles[0], tiles[1]));
        assert(tiles[0].chunk_y == cy && tiles[1].chunk_y == cy);
        assert(tiles[0].chunk_x == cx && tiles[1].chunk_x == cx);
    }
    let t = tiles[0];
    assert(tile_matches(t, raster, width, height));
    assert forall|s: int, r: int, c: int| 0 <= s < 365 && 0 <= r < 256 && 0 <= c < 256 implies (staged_chunk(t, offset)[#[trigger] chunk_index(s, r, c)] != 0
        <==> (s == offset && r == y % 256 && c == x % 256)) by {
        lemma_staged_layout(t, offset, s, r, c);
        if s == offset && r < t.rows && c < t.cols {
            lemma_window_fits(height, cy);
            lemma_window_fits(width, cx);
            lemma_row_major_bound(cy * 256 + r, cx * 256 + c, height, width);
            assert(height * width == width * height) by (nonlinear_arith);
            assert(t.at(r, c) == masked(window_pixel(raster, width, cy, cx, r, c)));
            if r == y % 256 && c == x % 256 {
            } else {
                lemma_row_major_split(cy, r, 256);
                lemma_row_major_split(cx, c, 256);
                if (cy * 256 + r) * width + (cx * 256 + c) == y * width + x {
                    lemma_row_major_unique(cy * 256 + r, cx * 256 + c, y, x, width);
                }
            }
        }
    }
    lemma_staged_layout(t, offset, offset, y % 256, x % 256);
    assert(t.at(y % 256, x % 256) == masked(window_pixel(raster, width, cy, cx, y % 256, x % 256)));
}

} // verus!
