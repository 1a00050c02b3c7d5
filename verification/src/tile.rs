use vstd::prelude::*;

verus! {

/// Edge length, in pixels, of one square work tile.
pub const TILE_SIZE: usize = 32;

/// One pixel of the final image, already gamma-corrected and quantized.
#[derive(Clone, Copy, PartialEq, Eq, Structural, Debug)]
pub struct Rgb8 {
    pub r: u8,
    pub g: u8,
    pub b: u8,
}

/// The pixels one worker produced for one tile, in the tile's local
/// column-major order: local column `lx`, local row `ly` sits at
/// `lx * TILE_SIZE + ly`.
pub struct TileBuffer {
    pub pixels: Vec<Rgb8>,
}

/// Partition of a `width x height` framebuffer into fixed-size square tiles,
/// each an independent unit of work. Tiles are numbered row by row:
/// task `ty * tiles_x + tx` owns the pixel rectangle starting at
/// `(tx * TILE_SIZE, ty * TILE_SIZE)`.
pub struct TileGrid {
    pub width: u32,
    pub height: u32,
}

impl TileGrid {
    /// Number of tile columns: the image width divided by the tile edge,
    /// rounded up so a partial column at the right edge gets its own tile.
    pub open spec fn spec_tiles_x(&self) -> int {
        self.width as int / TILE_SIZE as int + if self.width as int % TILE_SIZE as int > 0 {
            1int
        } else {
            0int
        }
    }

    /// Number of tile rows, rounded up the same way.
    pub open spec fn spec_tiles_y(&self) -> int {
        self.height as int / TILE_SIZE as int + if self.height as int % TILE_SIZE as int > 0 {
            1int
        } else {
            0int
        }
    }

    /// Total number of work tiles.
    pub open spec fn spec_tile_count(&self) -> int {
        self.spec_tiles_x() * self.spec_tiles_y()
    }

    /// The task that owns pixel `(x, y)`.
    pub open spec fn spec_task_of_pixel(&self, x: int, y: int) -> int {
        (y / TILE_SIZE as int) * self.spec_tiles_x() + x / TILE_SIZE as int
    }

    /// Where pixel `(x, y)` sits inside its tile's buffer.
    pub open spec fn spec_local_index(x: int, y: int) -> int {
        (x % TILE_SIZE as int) * TILE_SIZE as int + y % TILE_SIZE as int
    }

    /// Machine limits: the tile counts and pixel indices of this grid fit
    /// in `usize` arithmetic.
    pub open spec fn spec_fits(&self) -> bool {
        &&& self.width as int + TILE_SIZE as int <= usize::MAX as int
        &&& self.height as int + TILE_SIZE as int <= usize::MAX as int
        &&& self.spec_tile_count() <= usize::MAX as int
    }

    pub fn tiles_x(&self) -> (r: usize)
        ensures
            r == self.spec_tiles_x(),
    {
        let w = self.width as usize;
        w / TILE_SIZE + if w % TILE_SIZE > 0 {
            1
        } else {
            0
        }
    }

    pub fn tiles_y(&self) -> (r: usize)
        ensures
            r == self.spec_tiles_y(),
    {
        let h = self.height as usize;
        h / TILE_SIZE + if h % TILE_SIZE > 0 {
            1
        } else {
            0
        }
    }

    pub fn tile_count(&self) -> (r: usize)
        requires
            self.spec_fits(),
        ensures
            r == self.spec_tile_count(),
    {
        proof {
            lemma_tiles_bound(self.width as int, TILE_SIZE as int);
            lemma_tiles_bound(self.height as int, TILE_SIZE as int);
        }
        self.tiles_x() * self.tiles_y()
    }

    /// The pixel at which the given task's tile starts.
    pub fn tile_origin(&self, task_index: usize) -> (r: (usize, usize))
        requires
            self.spec_fits(),
            task_index < self.spec_tile_count(),
        ensures
            r.0 == task_index as int % self.spec_tiles_x() * TILE_SIZE as int,
            r.1 == task_index as int / self.spec_tiles_x() * TILE_SIZE as int,
            r.1 < self.height as int + TILE_SIZE as int,
            r.0 < self.width as int + TILE_SIZE as int,
    {
        let tiles_x = self.tiles_x();
        proof {
            lemma_tiles_bound(self.width as int, TILE_SIZE as int);
            lemma_tiles_bound(self.height as int, TILE_SIZE as int);
            assert(self.spec_tiles_x() * self.spec_tiles_y() > 0 ==> self.spec_tiles_x() > 0) by (nonlinear_arith);
            vstd::arithmetic::div_mod::lemma_fundamental_div_mod(task_index as int, self.spec_tiles_x());
            let tx = task_index as int % self.spec_tiles_x();
            let ty = task_index as int / self.spec_tiles_x();
            assert(0 <= tx < self.spec_tiles_x()) by {
                vstd::arithmetic::div_mod::lemma_mod_division_less_than_divisor(task_index as int, self.spec_tiles_x());
            }
            assert(ty < self.spec_tiles_y()) by (nonlinear_arith)
                requires
                    task_index as int == self.spec_tiles_x() * ty + tx,
                    (task_index as int) < self.spec_tiles_x() * self.spec_tiles_y(),
                    0 <= tx,
                    self.spec_tiles_x() > 0,
            ;
            assert(0 <= ty) by (nonlinear_arith)
                requires
                    task_index as int == self.spec_tiles_x() * ty + tx,
                    0 <= task_index as int,
                    tx < self.spec_tiles_x(),
                    self.spec_tiles_x() > 0,
            ;
            assert((tx * TILE_SIZE as int) < self.spec_tiles_x() * TILE_SIZE as int) by (nonlinear_arith)
                requires
                    tx < self.spec_tiles_x(),
                    TILE_SIZE as int > 0,
            ;
            assert((ty * TILE_SIZE as int) < self.spec_tiles_y() * TILE_SIZE as int) by (nonlinear_arith)
                requires
                    ty < self.spec_tiles_y(),
                    TILE_SIZE as int > 0,
            ;
        }
        let tx = task_index % tiles_x;
        let ty = task_index / tiles_x;
        (tx * TILE_SIZE, ty * TILE_SIZE)
    }

    /// The task that owns pixel `(x, y)` and the pixel's slot in that
    /// tile's buffer.
    pub fn locate_pixel(&self, x: u32, y: u32) -> (r: (usize, usize))
        requires
            self.spec_fits(),
            x < self.width,
            y < self.height,
        ensures
            r.0 == self.spec_task_of_pixel(x as int, y as int),
            r.1 == Self::spec_local_index(x as int, y as int),
            r.0 < self.spec_tile_count(),
            r.1 < TILE_SIZE * TILE_SIZE,
    {
        proof {
            self.lemma_pixel_task_in_range(x as int, y as int);
        }
        let tiles_x = self.tiles_x();
        let tx = x as usize / TILE_SIZE;
        let ty = y as usize / TILE_SIZE;
        let lx = x as usize % TILE_SIZE;
        let ly = y as usize % TILE_SIZE;
        proof {
            assert(lx < TILE_SIZE && ly < TILE_SIZE) by {
                vstd::arithmetic::div_mod::lemma_mod_division_less_than_divisor(x as int, TILE_SIZE as int);
                vstd::arithmetic::div_mod::lemma_mod_division_less_than_divisor(y as int, TILE_SIZE as int);
            }
            assert(ty as int * tiles_x as int + tx as int == self.spec_task_of_pixel(
                x as int,
                y as int,
            ));
            assert(lx * TILE_SIZE as int + ly < TILE_SIZE * TILE_SIZE) by (nonlinear_arith)
                requires
                    0 <= lx < TILE_SIZE,
                    0 <= ly < TILE_SIZE,
            ;
        }
        (ty * tiles_x + tx, lx * TILE_SIZE + ly)
    }

    /// Every pixel of the image belongs to exactly one tile: its task index
    /// is a valid work-item number, and the pixel is recovered from the
    /// tile's origin and the pixel's local slot, so two distinct pixels
    /// never share a slot.
    pub proof fn lemma_pixel_task_in_range(&self, x: int, y: int)
        requires
            0 <= x < self.width,
            0 <= y < self.height,
        ensures
            0 <= self.spec_task_of_pixel(x, y) < self.spec_tile_count(),
            x == self.spec_task_of_pixel(x, y) % self.spec_tiles_x() * TILE_SIZE as int + x % TILE_SIZE as int,
            y == self.spec_task_of_pixel(x, y) / self.spec_tiles_x() * TILE_SIZE as int + y % TILE_SIZE as int,
    {
        let t = TILE_SIZE as int;
        let tx = x / t;
        let ty = y / t;
        let nx = self.spec_tiles_x();
        let ny = self.spec_tiles_y();
        lemma_tile_coord_bound(x, self.width as int, t);
        lemma_tile_coord_bound(y, self.height as int, t);
        assert(tx < nx && ty < ny);
        vstd::arithmetic::div_mod::lemma_fundamental_div_mod(x, t);
        vstd::arithmetic::div_mod::lemma_fundamental_div_mod(y, t);
        vstd::arithmetic::div_mod::lemma_div_pos_is_pos(x, t);
        vstd::arithmetic::div_mod::lemma_div_pos_is_pos(y, t);
        assert(0 <= ty * nx + tx < nx * ny) by (nonlinear_arith)
            requires
                0 <= tx < nx,
                0 <= ty < ny,
        ;
        // The task index decomposes back into the tile coordinates.
        assert((ty * nx + tx) % nx == tx && (ty * nx + tx) / nx == ty) by {
            vstd::arithmetic::div_mod::lemma_fundamental_div_mod_converse(
                ty * nx + tx,
                nx,
                ty,
                tx,
            );
        }
    }

    /// Assembles the completed tile buffers into one row-major framebuffer:
    /// pixel `(x, y)` of the result is the pixel the owning tile computed
    /// for it. Arrival order of the tiles does not matter: each one is read
    /// only at the pixels its own task owns.
    pub fn assemble(&self, tiles: &Vec<TileBuffer>) -> (fb: Vec<Rgb8>)
        requires
            tiles.len() == self.spec_tile_count(),
            forall|i: int|
                0 <= i < tiles.len() ==> #[trigger] tiles[i].pixels.len() == TILE_SIZE * TILE_SIZE,
            self.spec_fits(),
            self.width as int * self.height as int <= usize::MAX as int,
        ensures
            fb.len() == self.width as int * self.height as int,
            forall|x: int, y: int|
                0 <= x < self.width && 0 <= y < self.height ==> #[trigger] fb[y * self.width as int
                    + x] == tiles[self.spec_task_of_pixel(x, y)].pixels[Self::spec_local_index(
                    x,
                    y,
                )],
    {
        let w = self.width as usize;
        let h = self.height as usize;
        let mut fb: Vec<Rgb8> = Vec::new();
        let mut y: usize = 0;
        while y < h
            invariant
                y <= h,
                w == self.width,
                h == self.height,
                self.spec_fits(),
                self.width as int * self.height as int <= usize::MAX as int,
                tiles.len() == self.spec_tile_count(),
                forall|i: int|
                    0 <= i < tiles.len() ==> #[trigger] tiles[i].pixels.len() == TILE_SIZE
                        * TILE_SIZE,
                fb.len() == y * w,
                forall|xx: int, yy: int|
                    0 <= xx < self.width && 0 <= yy < y ==> #[trigger] fb[yy * self.width as int
                        + xx] == tiles[self.spec_task_of_pixel(xx, yy)].pixels[Self::spec_local_index(
                        xx,
                        yy,
                    )],
            decreases h - y,
        {
            let mut x: usize = 0;
            proof {
                assert((y + 1) * w == y * w + w) by (nonlinear_arith);
                assert(y * w + w <= h * w) by (nonlinear_arith)
                    requires
                        y < h,
                        0 <= w,
                ;
                assert(h * w == w * h) by (nonlinear_arith);
            }
            while x < w
                invariant
                    x <= w,
                    y < h,
                    w == self.width,
                    h == self.height,
                    self.spec_fits(),
                    y * w + w <= self.width as int * self.height as int <= usize::MAX as int,
                    tiles.len() == self.spec_tile_count(),
                    forall|i: int|
                        0 <= i < tiles.len() ==> #[trigger] tiles[i].pixels.len() == TILE_SIZE
                            * TILE_SIZE,
                    fb.len() == y * w + x,
                    forall|xx: int, yy: int|
                        0 <= xx < self.width && 0 <= yy < y ==> #[trigger] fb[yy * self.width as int
                            + xx] == tiles[self.spec_task_of_pixel(xx, yy)].pixels[Self::spec_local_index(
                            xx,
                            yy,
                        )],
                    forall|xx: int|
                        0 <= xx < x ==> #[trigger] fb[y * self.width as int + xx] == tiles[self.spec_task_of_pixel(
                            xx,
                            y as int,
                        )].pixels[Self::spec_local_index(xx, y as int)],
                decreases w - x,
            {
                let (task, local) = self.locate_pixel(x as u32, y as u32);
                proof {
                    assert(task < tiles.len());
                    assert(tiles[task as int].pixels.len() == TILE_SIZE * TILE_SIZE);
                    assert(local < TILE_SIZE * TILE_SIZE);
                    assert(fb.len() < usize::MAX);
                }
                fb.push(tiles[task].pixels[local]);
                x = x + 1;
                proof {
                    assert forall|yy: int, xx: int|
                        0 <= yy < y && 0 <= xx < w implies #[trigger] (yy * w as int + xx) < y * w as int by {
                        lemma_row_index_bound(yy, xx, y as int, w as int);
                    }
                }
            }
            y = y + 1;
            proof {
                assert(y * w == (y - 1) * w + w) by (nonlinear_arith);
                assert forall|yy: int, xx: int|
                    0 <= yy < y && 0 <= xx < w implies #[trigger] (yy * w as int + xx) < y * w as int by {
                    lemma_row_index_bound(yy, xx, y as int, w as int);
                }
            }
        }
        proof {
            assert(h as int * w as int == self.width as int * self.height as int)
                by (nonlinear_arith)
                requires
                    h == self.height,
                    w == self.width,
            ;
        }
        fb
    }
}

/// A pixel of a finished row sits below the write cursor of the current row.
proof fn lemma_row_index_bound(yy: int, xx: int, y: int, w: int)
    requires
        0 <= yy < y,
        0 <= xx < w,
    ensures
        yy * w + xx < y * w,
{
    assert(yy * w + xx < y * w) by (nonlinear_arith)
        requires
            0 <= yy < y,
            0 <= xx < w,
    ;
}

/// The rounded-up tile count per axis covers the whole axis:
/// `extent <= tiles * TILE_SIZE`, and the count is itself bounded.
proof fn lemma_tiles_bound(extent: int, t: int)
    requires
        0 <= extent,
        0 < t,
    ensures
        extent <= (extent / t + if extent % t > 0 {
            1int
        } else {
            0int
        }) * t,
        0 <= extent / t + if extent % t > 0 {
            1int
        } else {
            0int
        } <= extent + t,
{
    vstd::arithmetic::div_mod::lemma_fundamental_div_mod(extent, t);
    vstd::arithmetic::div_mod::lemma_mod_division_less_than_divisor(extent, t);
    vstd::arithmetic::div_mod::lemma_div_pos_is_pos(extent, t);
    let q = extent / t;
    assert((q + 1) * t == q * t + t) by (nonlinear_arith);
    assert(q * t == t * q) by (nonlinear_arith);
    assert(q <= extent) by (nonlinear_arith)
        requires
            extent == t * q + extent % t,
            0 <= extent % t,
            0 < t,
            0 <= q,
    ;
}

/// A pixel coordinate inside the image lands in a tile column (or row)
/// below the rounded-up count.
proof fn lemma_tile_coord_bound(x: int, extent: int, t: int)
    requires
        0 <= x < extent,
        0 < t,
    ensures
        x / t < extent / t + if extent % t > 0 {
            1int
        } else {
            0int
        },
{
    lemma_tiles_bound(extent, t);
    let n = extent / t + if extent % t > 0 {
        1int
    } else {
        0int
    };
    vstd::arithmetic::div_mod::lemma_fundamental_div_mod(x, t);
    vstd::arithmetic::div_mod::lemma_mod_division_less_than_divisor(x, t);
    assert(x / t * t <= x) by (nonlinear_arith)
        requires
            x == t * (x / t) + x % t,
            0 <= x % t,
    ;
    assert(x / t < n) by (nonlinear_arith)
        requires
            x / t * t <= x,
            x < extent,
            extent <= n * t,
            0 < t,
    ;
}

} // verus!
