use vstd::prelude::*;
use crate::integral_image::cell;

verus! {

/// Position of tile `(x, y)` in a list of tiles taken column by column,
/// `ny` tiles per column.
pub open spec fn tile_index(ny: int, x: int, y: int) -> int {
    x * ny + y
}

/// The `wl` by `wh` sub-buffer of a row-major buffer of row length `w`
/// whose top-left pixel is `(x0, y0)`.
pub fn crop(px: &Vec<u8>, w: usize, h: usize, x0: usize, y0: usize, wl: usize, wh: usize) -> (r: Vec<u8>)
    requires
        px@.len() == w * h,
        x0 + wl <= w,
        y0 + wh <= h,
    ensures
        r@.len() == wl * wh,
        forall|a: int, b: int|
            0 <= a < wl && 0 <= b < wh ==> #[trigger] r@[cell(wl as int, a, b)] == px@[cell(
                w as int,
                x0 + a,
                y0 + b,
            )],
{
    let n = px.len();
    assert(w * h <= usize::MAX);
    let mut r: Vec<u8> = Vec::new();
    let mut b: usize = 0;
    while b < wh
        invariant
            b <= wh,
            px@.len() == w * h,
            w * h <= usize::MAX,
            x0 + wl <= w,
            y0 + wh <= h,
            r@.len() == wl * b,
            forall|aa: int, bb: int|
                0 <= aa < wl && 0 <= bb < b ==> #[trigger] r@[cell(wl as int, aa, bb)] == px@[cell(
                    w as int,
                    x0 + aa,
                    y0 + bb,
                )],
        decreases wh - b,
    {
        let mut a: usize = 0;
        while a < wl
            invariant
                a <= wl,
                b < wh,
                px@.len() == w * h,
                w * h <= usize::MAX,
                x0 + wl <= w,
                y0 + wh <= h,
                r@.len() == wl * b + a,
                forall|aa: int, bb: int|
                    0 <= aa < wl && 0 <= bb < b ==> #[trigger] r@[cell(wl as int, aa, bb)] == px@[cell(
                        w as int,
                        x0 + aa,
                        y0 + bb,
                    )],
                forall|aa: int| 0 <= aa < a ==> #[trigger] r@[cell(wl as int, aa, b as int)] == px@[cell(
                    w as int,
                    x0 + aa,
                    y0 + b,
                )],
            decreases wl - a,
        {
            proof {
                assert((x0 + a) + w * (y0 + b) < w * h) by (nonlinear_arith)
                    requires
                        x0 + a < w,
                        y0 + b < h,
                ;
                assert(w * (y0 + b) <= w * h) by (nonlinear_arith)
                    requires
                        y0 + b < h,
                ;
            }
            let ghost before = r@;
            r.push(px[(x0 + a) + w * (y0 + b)]);
            proof {
                assert forall|aa: int, bb: int| 0 <= aa < wl && 0 <= bb < b implies r@[cell(wl as int, aa, bb)]
                    == before[cell(wl as int, aa, bb)] by {
                    assert(aa + wl * bb < wl * b) by (nonlinear_arith)
                        requires
                            0 <= aa < wl,
                            0 <= bb < b,
                    ;
                }
            }
            a = a + 1;
        }
        proof {
            assert(wl * b + wl == wl * (b + 1)) by (nonlinear_arith);
        }
        b = b + 1;
    }
    r
}

/// Cuts a `w` by `h` grayscale buffer into all the whole `wl` by `wh` tiles
/// of a grid starting at the top-left corner, column by column: tile
/// `(x, y)` has its top-left pixel at `(x * wl, y * wh)`.
pub fn slice_windows(px: &Vec<u8>, w: usize, h: usize, wl: usize, wh: usize) -> (tiles: Vec<Vec<u8>>)
    requires
        px@.len() == w * h,
        wl >= 1,
        wh >= 1,
    ensures
        tiles@.len() == (w / wl) * (h / wh),
        forall|x: int, y: int| 0 <= x < w / wl && 0 <= y < h / wh ==> (#[trigger] tiles@[tile_index((h / wh) as int, x, y)])@.len() == wl * wh,
        forall|x: int, y: int, a: int, b: int|
            0 <= x < w / wl && 0 <= y < h / wh && 0 <= a < wl && 0 <= b < wh ==> #[trigger] tiles@[tile_index((h / wh) as int, x, y)]@[cell(wl as int, a, b)] == px@[cell(
                    w as int,
                    x * wl + a,
                    y * wh + b,
                )],
{
    let nx = w / wl;
    let ny = h / wh;
    let mut tiles: Vec<Vec<u8>> = Vec::new();
    let mut x: usize = 0;
    proof {
        assert(nx * wl <= w) by (nonlinear_arith)
            requires
                nx == w / wl,
                wl >= 1,
        ;
        assert(ny * wh <= h) by (nonlinear_arith)
            requires
                ny == h / wh,
                wh >= 1,
        ;
    }
    while x < nx
        invariant
            x <= nx,
            nx == w / wl,
            ny == h / wh,
            nx * wl <= w,
            ny * wh <= h,
            px@.len() == w * h,
            tiles@.len() == x * ny,
            forall|xx: int, yy: int| 0 <= xx < x && 0 <= yy < ny ==> (#[trigger] tiles@[tile_index(ny as int, xx, yy)])@.len() == wl * wh,
            forall|xx: int, yy: int, a: int, b: int|
                0 <= xx < x && 0 <= yy < ny && 0 <= a < wl && 0 <= b < wh ==> #[trigger] tiles@[tile_index(ny as int, xx, yy)]@[cell(wl as int, a, b)] == px@[cell(
                        w as int,
                        xx * wl + a,
                        yy * wh + b,
                    )],
        decreases nx - x,
    {
        let mut y: usize = 0;
        while y < ny
            invariant
                x < nx,
                y <= ny,
                nx == w / wl,
                ny == h / wh,
                nx * wl <= w,
                ny * wh <= h,
                px@.len() == w * h,
                tiles@.len() == x * ny + y,
                forall|xx: int, yy: int| (0 <= xx < x && 0 <= yy < ny || xx == x && 0 <= yy < y) ==> (#[trigger] tiles@[tile_index(ny as int, xx, yy)])@.len() == wl * wh,
                forall|xx: int, yy: int, a: int, b: int|
                    (0 <= xx < x && 0 <= yy < ny || xx == x && 0 <= yy < y) && 0 <= a < wl && 0 <= b < wh ==> #[trigger] tiles@[tile_index(ny as int, xx, yy)]@[cell(wl as int, a, b)] == px@[cell(
                            w as int,
                            xx * wl + a,
                            yy * wh + b,
                        )],
            decreases ny - y,
        {
            proof {
                assert(x * wl + wl <= w) by (nonlinear_arith)
                    requires
                        x < nx,
                        nx * wl <= w,
                ;
                assert(y * wh + wh <= h) by (nonlinear_arith)
                    requires
                        y < ny,
                        ny * wh <= h,
                ;
            }
            let tile = crop(px, w, h, x * wl, y * wh, wl, wh);
            let ghost before = tiles@;
            tiles.push(tile);
            proof {
                assert forall|xx: int, yy: int|
                    (0 <= xx < x && 0 <= yy < ny || xx == x && 0 <= yy < y) implies tile_index(ny as int, xx, yy)
                    < before.len() by {
                    assert(xx * ny + yy < x * ny + y) by (nonlinear_arith)
                        requires
                            0 <= xx < x && 0 <= yy < ny || xx == x && 0 <= yy < y,
                    ;
                }
                assert(tile_index(ny as int, x as int, y as int) == before.len());
            }
            y = y + 1;
        }
        proof {
            assert(x * ny + ny == (x + 1) * ny) by (nonlinear_arith);
        }
        x = x + 1;
    }
    tiles
}

} // verus!
