//! Grid construction and rasterization.
//!
//! A `Canvas` ties a logical sampling rectangle of the plane to a pixel
//! raster through an affine bijection, kept independent of the sampling grid
//! resolution. `make_grid` releases one particle at rest on every grid
//! point; `rasterize` maps each settled particle's originating plane
//! position to the nearest pixel and writes its resolved color there, pixels
//! of unsettled particles staying at the background value. A rounded
//! coordinate that falls outside the raster is rejected: the write is
//! skipped.

use vstd::prelude::*;
use vstd::arithmetic::mul::{lemma_mul_inequality, lemma_mul_upper_bound, lemma_mul_nonnegative};
use vstd::arithmetic::div_mod::{
    lemma_div_pos_is_pos, lemma_div_is_ordered, lemma_div_multiples_vanish,
    lemma_fundamental_div_mod_converse_div, lemma_fundamental_div_mod_converse_mod,
};
use crate::vec2::{Vec2, V2i, abs_i};
use crate::sim::{
    Ball, BallModel, Color, Magnet, SimConfig, magnets_wf, ball_start_wf, sim_spec,
    run_simulation, lemma_sim_keeps_origin,
};

verus! {

/// One RGB pixel of the output buffer.
#[derive(Clone, Copy, PartialEq, Eq, Structural, Debug)]
pub struct Pixel {
    pub r: u8,
    pub g: u8,
    pub b: u8,
}

pub open spec fn pixel_of(c: Color) -> Pixel {
    match c {
        Color::Yellow => Pixel { r: 255, g: 255, b: 0 },
        Color::Red => Pixel { r: 255, g: 0, b: 0 },
        Color::Green => Pixel { r: 0, g: 255, b: 0 },
        Color::Blue => Pixel { r: 0, g: 0, b: 255 },
        Color::Black => Pixel { r: 0, g: 0, b: 0 },
    }
}

/// The default-initialized buffer value: black.
pub open spec fn background() -> Pixel {
    Pixel { r: 0, g: 0, b: 0 }
}

/// Canvas geometry: pixel raster dimensions, the logical plane rectangle in
/// raw fixed-point units, and the sampling grid resolution. Grid resolution
/// and pixel resolution are independent parameters.
pub struct Canvas {
    pub width: usize,
    pub height: usize,
    pub plane_x: i64,
    pub plane_y: i64,
    pub plane_w: i64,
    pub plane_h: i64,
    pub grid_size: usize,
}

impl Canvas {
    pub open spec fn wf(&self) -> bool {
        &&& 1 <= self.width <= 65536
        &&& 1 <= self.height <= 65536
        &&& abs_i(self.plane_x as int) <= 0x1000_0000_0000
        &&& abs_i(self.plane_y as int) <= 0x1000_0000_0000
        &&& 1 <= self.plane_w <= 0x1000_0000_0000
        &&& 1 <= self.plane_h <= 0x1000_0000_0000
        &&& 1 <= self.grid_size <= 65536
    }
}

/// The plane coordinate of grid line `idx` of `grid` along an axis that
/// starts at `origin` and spans `size` raw units.
pub open spec fn sample_coord(origin: int, size: int, idx: int, grid: int) -> int {
    origin + (idx * size) / grid
}

/// The particle released at rest on grid cell (`row`, `col`).
pub open spec fn grid_ball(c: Canvas, row: int, col: int) -> BallModel {
    let x = sample_coord(c.plane_x as int, c.plane_w as int, col, c.grid_size as int);
    let y = sample_coord(c.plane_y as int, c.plane_h as int, row, c.grid_size as int);
    BallModel {
        pos: V2i { x, y },
        vel: V2i { x: 0, y: 0 },
        init_pos: V2i { x, y },
        finished: false,
        final_color: None,
    }
}

proof fn lemma_sample_coord_bounds(origin: int, size: int, idx: int, grid: int)
    requires
        abs_i(origin) <= 0x1000_0000_0000,
        1 <= size <= 0x1000_0000_0000,
        0 <= idx <= grid,
        1 <= grid,
    ensures
        abs_i(sample_coord(origin, size, idx, grid)) <= 0x2000_0000_0000,
        0 <= (idx * size) / grid <= size,
{
    lemma_mul_nonnegative(idx, size);
    lemma_div_pos_is_pos(idx * size, grid);
    lemma_mul_inequality(idx, grid, size);
    lemma_div_is_ordered(idx * size, grid * size, grid);
    lemma_div_multiples_vanish(size, grid);
}

fn coord_exec(origin: i64, size: i64, idx: usize, grid: usize) -> (r: i64)
    requires
        abs_i(origin as int) <= 0x1000_0000_0000,
        1 <= size <= 0x1000_0000_0000,
        idx <= grid,
        1 <= grid <= 65536,
    ensures
        r as int == sample_coord(origin as int, size as int, idx as int, grid as int),
        abs_i(r as int) <= 0x2000_0000_0000,
{
    proof {
        lemma_sample_coord_bounds(origin as int, size as int, idx as int, grid as int);
        lemma_mul_upper_bound(idx as int, 65536, size as int, 0x1000_0000_0000);
    }
    let off: u128 = (idx as u128) * (size as u128) / (grid as u128);
    origin + (off as i64)
}

/// One particle per grid cell, in row-major order, each released at rest at
/// its sampled plane coordinate.
pub fn make_grid(c: &Canvas) -> (balls: Vec<Ball>)
    requires
        c.wf(),
    ensures
        balls@.len() == c.grid_size * c.grid_size,
        forall|i: int|
            0 <= i < balls@.len() ==> (#[trigger] balls@[i])@ == grid_ball(
                *c,
                i / (c.grid_size as int),
                i % (c.grid_size as int),
            ),
        forall|i: int|
            0 <= i < balls@.len() ==> abs_i((#[trigger] balls@[i])@.pos.x) <= 0x2000_0000_0000
                && abs_i(balls@[i]@.pos.y) <= 0x2000_0000_0000 && balls@[i]@.vel == (V2i {
                x: 0,
                y: 0,
            }) && !balls@[i]@.finished,
{
    let g = c.grid_size;
    let mut balls: Vec<Ball> = Vec::new();
    let mut wy: usize = 0;
    proof {
        lemma_mul_nonnegative(g as int, g as int);
    }
    while wy < g
        invariant
            c.wf(),
            g == c.grid_size,
            0 <= wy <= g,
            balls@.len() == wy * g,
            forall|i: int|
                0 <= i < balls@.len() ==> (#[trigger] balls@[i])@ == grid_ball(
                    *c,
                    i / (c.grid_size as int),
                    i % (c.grid_size as int),
                ),
            forall|i: int|
                0 <= i < balls@.len() ==> abs_i((#[trigger] balls@[i])@.pos.x) <= 0x2000_0000_0000
                    && abs_i(balls@[i]@.pos.y) <= 0x2000_0000_0000 && balls@[i]@.vel == (V2i {
                    x: 0,
                    y: 0,
                }) && !balls@[i]@.finished,
        decreases g - wy,
    {
        let y = coord_exec(c.plane_y, c.plane_h, wy, g);
        let mut wx: usize = 0;
        while wx < g
            invariant
                c.wf(),
                g == c.grid_size,
                0 <= wy < g,
                0 <= wx <= g,
                y as int == sample_coord(
                    c.plane_y as int,
                    c.plane_h as int,
                    wy as int,
                    c.grid_size as int,
                ),
                abs_i(y as int) <= 0x2000_0000_0000,
                balls@.len() == wy * g + wx,
                forall|i: int|
                    0 <= i < balls@.len() ==> (#[trigger] balls@[i])@ == grid_ball(
                        *c,
                        i / (c.grid_size as int),
                        i % (c.grid_size as int),
                    ),
                forall|i: int|
                    0 <= i < balls@.len() ==> abs_i((#[trigger] balls@[i])@.pos.x)
                        <= 0x2000_0000_0000 && abs_i(balls@[i]@.pos.y) <= 0x2000_0000_0000
                        && balls@[i]@.vel == (V2i { x: 0, y: 0 }) && !balls@[i]@.finished,
            decreases g - wx,
        {
            proof {
                lemma_mul_upper_bound(wy as int, 65536, g as int, 65536);
                lemma_fundamental_div_mod_converse_div(
                    (wy * g + wx) as int,
                    g as int,
                    wy as int,
                    wx as int,
                );
                lemma_fundamental_div_mod_converse_mod(
                    (wy * g + wx) as int,
                    g as int,
                    wy as int,
                    wx as int,
                );
            }
            let x = coord_exec(c.plane_x, c.plane_w, wx, g);
            let pos = Vec2::new(x, y);
            balls.push(Ball { pos, vel: Vec2::new(0, 0), init_pos: pos, finished: false, final_color: None });
            wx += 1;
        }
        proof {
            assert((wy as int + 1) * (g as int) == wy as int * (g as int) + g as int)
                by (nonlinear_arith);
        }
        wy += 1;
    }
    proof {
        assert(balls@.len() == (c.grid_size * c.grid_size) as int);
    }
    balls
}

/// `num / den` rounded to the nearest integer, halves away from zero.
pub open spec fn round_div(num: int, den: int) -> int {
    if num >= 0 {
        (2 * num + den) / (2 * den)
    } else {
        -((2 * (-num) + den) / (2 * den))
    }
}

/// The pixel coordinate a plane coordinate `ip` maps to along an axis that
/// starts at `origin` and spans `size` raw units over `pixels` pixels.
pub open spec fn pix_coord(ip: int, origin: int, size: int, pixels: int) -> int {
    round_div((ip - origin) * pixels, size)
}

/// One settled particle's write into the buffer: the resolved color at the
/// nearest pixel to its originating plane position; nothing for an
/// unsettled particle, a missing color, or a coordinate off the raster.
pub open spec fn write_ball(buf: Seq<Pixel>, b: BallModel, c: Canvas) -> Seq<Pixel> {
    if b.finished {
        match b.final_color {
            Some(col) => {
                let wx = pix_coord(b.init_pos.x, c.plane_x as int, c.plane_w as int, c.width as int);
                let wy = pix_coord(
                    b.init_pos.y,
                    c.plane_y as int,
                    c.plane_h as int,
                    c.height as int,
                );
                if 0 <= wx < c.width && 0 <= wy < c.height {
                    buf.update(wy * (c.width as int) + wx, pixel_of(col))
                } else {
                    buf
                }
            },
            None => buf,
        }
    } else {
        buf
    }
}

/// The full rasterization: a background buffer with every settled particle
/// written in order.
pub open spec fn raster_spec(balls: Seq<BallModel>, c: Canvas) -> Seq<Pixel>
    decreases balls.len(),
{
    if balls.len() == 0 {
        Seq::new((c.width * c.height) as nat, |i: int| background())
    } else {
        write_ball(raster_spec(balls.drop_last(), c), balls.last(), c)
    }
}

/// A write index built from in-range pixel coordinates lies within the
/// buffer.
proof fn lemma_write_idx_in_range(wx: int, wy: int, w: int, h: int)
    requires
        0 <= wx < w,
        0 <= wy < h,
    ensures
        0 <= wy * w + wx < w * h,
{
    lemma_mul_inequality(wy, h - 1, w);
    lemma_mul_nonnegative(wy, w);
    assert((h - 1) * w + w == w * h) by (nonlinear_arith);
}

pub proof fn lemma_raster_len(balls: Seq<BallModel>, c: Canvas)
    ensures
        raster_spec(balls, c).len() == c.width * c.height,
    decreases balls.len(),
{
    lemma_mul_nonnegative(c.width as int, c.height as int);
    if balls.len() > 0 {
        lemma_raster_len(balls.drop_last(), c);
        let last = balls[balls.len() - 1];
        if last.finished {
            match last.final_color {
                Some(col) => {
                    let wx = pix_coord(
                        last.init_pos.x,
                        c.plane_x as int,
                        c.plane_w as int,
                        c.width as int,
                    );
                    let wy = pix_coord(
                        last.init_pos.y,
                        c.plane_y as int,
                        c.plane_h as int,
                        c.height as int,
                    );
                    if 0 <= wx < c.width && 0 <= wy < c.height {
                        lemma_write_idx_in_range(wx, wy, c.width as int, c.height as int);
                    }
                },
                None => {},
            }
        }
    }
}

/// Every pixel of a rasterized buffer is the background value or the
/// resolved color of some settled particle: no other value can appear.
pub proof fn lemma_raster_colors(balls: Seq<BallModel>, c: Canvas, i: int)
    requires
        0 <= i < raster_spec(balls, c).len(),
    ensures
        raster_spec(balls, c)[i] == background() || (exists|j: int|
            0 <= j < balls.len() && (#[trigger] balls[j]).finished && (balls[j].final_color matches Some(col)
                && raster_spec(balls, c)[i] == pixel_of(col))),
    decreases balls.len(),
{
    lemma_raster_len(balls, c);
    if balls.len() == 0 {
    } else {
        let cur = raster_spec(balls, c);
        let prev = raster_spec(balls.drop_last(), c);
        lemma_raster_len(balls.drop_last(), c);
        let last = balls[balls.len() - 1];
        if cur[i] == prev[i] {
            lemma_raster_colors(balls.drop_last(), c, i);
            assert(forall|j: int|
                0 <= j < balls.len() - 1 ==> #[trigger] balls.drop_last()[j] == balls[j]);
        } else {
            assert(last.finished);
            match last.final_color {
                Some(col) => {
                    let wx = pix_coord(
                        last.init_pos.x,
                        c.plane_x as int,
                        c.plane_w as int,
                        c.width as int,
                    );
                    let wy = pix_coord(
                        last.init_pos.y,
                        c.plane_y as int,
                        c.plane_h as int,
                        c.height as int,
                    );
                    if 0 <= wx < c.width && 0 <= wy < c.height {
                        let idx = wy * (c.width as int) + wx;
                        lemma_write_idx_in_range(wx, wy, c.width as int, c.height as int);
                        assert(cur == prev.update(idx, pixel_of(col)));
                        if i == idx {
                            assert(cur[i] == pixel_of(col));
                            assert(0 <= balls.len() - 1 < balls.len() && balls[balls.len()
                                - 1].finished && (balls[balls.len() - 1].final_color matches Some(
                            col2) && cur[i] == pixel_of(col2)));
                        } else {
                            assert(cur[i] == prev[i]);
                        }
                    } else {
                        assert(cur == prev);
                    }
                },
                None => {
                    assert(cur == prev);
                },
            }
        }
    }
}

fn round_coord(ip: i64, origin: i64, size: i64, pixels: usize) -> (r: Option<usize>)
    requires
        abs_i(ip as int) <= 0x8_0000_0000_0000,
        abs_i(origin as int) <= 0x1000_0000_0000,
        1 <= size <= 0x1000_0000_0000,
        1 <= pixels <= 65536,
    ensures
        r matches Some(w) ==> 0 <= pix_coord(ip as int, origin as int, size as int, pixels as int)
            < pixels && w as int == pix_coord(ip as int, origin as int, size as int, pixels as int),
        r is None ==> !(0 <= pix_coord(ip as int, origin as int, size as int, pixels as int)
            < pixels),
{
    proof {
        assert(abs_i((ip as int - origin as int) * (pixels as int)) <= 0x9_0000_0000_0000 * 65536)
            by (nonlinear_arith)
            requires
                abs_i(ip as int - origin as int) <= 0x9_0000_0000_0000,
                0 <= pixels as int <= 65536,
        ;
    }
    let num: i128 = (ip as i128 - origin as i128) * (pixels as i128);
    if num < 0 {
        // A negative offset can still round to pixel zero when it is less
        // than half a pixel's worth of plane distance.
        let rm: u128 = ((2 * (-num)) as u128 + size as u128) / (2 * (size as u128));
        proof {
            assert(rm as int == (2 * (-(num as int)) + size as int) / (2 * (size as int)));
            lemma_div_pos_is_pos(2 * (-(num as int)) + size as int, 2 * (size as int));
        }
        if rm == 0 {
            return Some(0);
        }
        return None;
    }
    let rounded: u128 = ((2 * num) as u128 + size as u128) / (2 * (size as u128));
    proof {
        assert(rounded as int == round_div(num as int, size as int));
        lemma_div_pos_is_pos(2 * (num as int) + size as int, 2 * (size as int));
    }
    if rounded < pixels as u128 {
        Some(rounded as usize)
    } else {
        None
    }
}

/// Rasterize a completed particle collection: exactly `raster_spec`.
pub fn rasterize(balls: &Vec<Ball>, c: &Canvas) -> (buf: Vec<Pixel>)
    requires
        c.wf(),
        forall|i: int|
            0 <= i < balls@.len() ==> abs_i((#[trigger] balls@[i])@.init_pos.x)
                <= 0x8_0000_0000_0000 && abs_i(balls@[i]@.init_pos.y) <= 0x8_0000_0000_0000,
    ensures
        buf@ == raster_spec(balls@.map_values(|b: Ball| b@), *c),
        buf@.len() == c.width * c.height,
{
    proof {
        lemma_mul_nonnegative(c.width as int, c.height as int);
        lemma_mul_upper_bound(c.width as int, 65536, c.height as int, 65536);
    }
    let total: u64 = (c.width as u64) * (c.height as u64);
    let mut buf: Vec<Pixel> = Vec::new();
    while (buf.len() as u64) < total
        invariant
            total == c.width * c.height,
            buf@.len() <= total,
            forall|k: int| 0 <= k < buf@.len() ==> buf@[k] == background(),
        decreases total - buf@.len(),
    {
        buf.push(Pixel { r: 0, g: 0, b: 0 });
    }
    proof {
        assert(buf@ =~= raster_spec(balls@.take(0).map_values(|b: Ball| b@), *c));
    }
    let mut i: usize = 0;
    while i < balls.len()
        invariant
            c.wf(),
            forall|k: int|
                0 <= k < balls@.len() ==> abs_i((#[trigger] balls@[k])@.init_pos.x)
                    <= 0x8_0000_0000_0000 && abs_i(balls@[k]@.init_pos.y) <= 0x8_0000_0000_0000,
            0 <= i <= balls@.len(),
            buf@ == raster_spec(balls@.take(i as int).map_values(|b: Ball| b@), *c),
            buf@.len() == c.width * c.height,
        decreases balls@.len() - i,
    {
        proof {
            assert(balls@.take(i as int + 1).map_values(|b: Ball| b@).drop_last()
                =~= balls@.take(i as int).map_values(|b: Ball| b@));
            assert(balls@.take(i as int + 1).map_values(|b: Ball| b@).last() == balls@[i as int]@);
        }
        let b = &balls[i];
        if b.finished {
            if let Some(col) = b.final_color {
                let ox = round_coord(b.init_pos.x, c.plane_x, c.plane_w, c.width);
                let oy = round_coord(b.init_pos.y, c.plane_y, c.plane_h, c.height);
                if let (Some(wx), Some(wy)) = (ox, oy) {
                    let px = match col {
                        Color::Yellow => Pixel { r: 255, g: 255, b: 0 },
                        Color::Red => Pixel { r: 255, g: 0, b: 0 },
                        Color::Green => Pixel { r: 0, g: 255, b: 0 },
                        Color::Blue => Pixel { r: 0, g: 0, b: 255 },
                        Color::Black => Pixel { r: 0, g: 0, b: 0 },
                    };
                    proof {
                        lemma_write_idx_in_range(
                            wx as int,
                            wy as int,
                            c.width as int,
                            c.height as int,
                        );
                        lemma_mul_inequality(wy as int, c.height as int - 1, c.width as int);
                        lemma_mul_upper_bound(c.height as int - 1, 65535, c.width as int, 65536);
                    }
                    let idx = wy * c.width + wx;
                    buf[idx] = px;
                }
            }
        }
        i += 1;
    }
    proof {
        assert(balls@.take(balls@.len() as int) =~= balls@);
    }
    buf
}

/// The model of a full rendering: every grid particle run to completion
/// independently, then rasterized in row-major order.
pub open spec fn render_spec(c: Canvas, ms: Seq<Magnet>, cfg: SimConfig) -> Seq<Pixel> {
    let g = c.grid_size as int;
    raster_spec(
        Seq::new(
            (c.grid_size * c.grid_size) as nat,
            |i: int| sim_spec(grid_ball(c, i / g, i % g), ms, cfg, cfg.max_iters as nat),
        ),
        c,
    )
}

/// The whole pipeline: build the sampling grid, run every particle to
/// settlement or stagnation in parallel, rasterize the outcome. The result
/// is exactly `render_spec`.
pub fn render(c: &Canvas, magnets: &Vec<Magnet>, cfg: &SimConfig) -> (buf: Vec<Pixel>)
    requires
        c.wf(),
        cfg.wf(),
        magnets_wf(magnets@),
        magnets@.len() <= 65536,
    ensures
        buf@ == render_spec(*c, magnets@, *cfg),
        buf@.len() == c.width * c.height,
{
    let mut balls = make_grid(c);
    let ghost models0 = balls@.map_values(|b: Ball| b@);
    proof {
        assert forall|i: int| 0 <= i < balls@.len() implies ball_start_wf(
            (#[trigger] balls@[i])@,
            *cfg,
        ) by {
            assert(balls@[i]@ == grid_ball(*c, i / (c.grid_size as int), i % (c.grid_size as int)));
        }
    }
    run_simulation(&mut balls, magnets, cfg);
    proof {
        let g = c.grid_size as int;
        assert forall|i: int| 0 <= i < balls@.len() implies abs_i(
            (#[trigger] balls@[i])@.init_pos.x,
        ) <= 0x8_0000_0000_0000 && abs_i(balls@[i]@.init_pos.y) <= 0x8_0000_0000_0000 by {
            lemma_sim_keeps_origin(models0[i], magnets@, *cfg, cfg.max_iters as nat);
        }
        assert(balls@.map_values(|b: Ball| b@) =~= Seq::new(
            (c.grid_size * c.grid_size) as nat,
            |i: int| sim_spec(grid_ball(*c, i / g, i % g), magnets@, *cfg, cfg.max_iters as nat),
        ));
    }
    rasterize(&balls, c)
}

} // verus!
