use pendulum_fractal::vec2::{Vec2, SCALE};
use pendulum_fractal::sim::{Ball, Color, Magnet, SimConfig, run_simulation, simulate, step};
use pendulum_fractal::raster::{Canvas, Pixel, make_grid, rasterize, render};

fn ball_at(pos: Vec2) -> Ball {
    Ball { pos, vel: Vec2::new(0, 0), init_pos: pos, finished: false, final_color: None }
}

fn ring_magnets(cx: f64, cy: f64, radius: f64, colors: &[Color]) -> Vec<Magnet> {
    let n: usize = colors.len();
    let mut magnets = Vec::with_capacity(n);
    for i in 0..n {
        let ang = (i as f64) * std::f64::consts::TAU / (n as f64);
        let x = ((cx + radius * ang.cos()) * (SCALE as f64)).round() as i64;
        let y = ((cy + radius * ang.sin()) * (SCALE as f64)).round() as i64;
        let mut m = Magnet::new(Vec2::new(x, y));
        m.color = colors[i];
        magnets.push(m);
    }
    magnets
}

#[test]
fn vec2_limit() {
    let mut ten = Vec2::new(10 * SCALE, 0);
    ten = ten.limit(5 * SCALE);
    let five = Vec2::new(5 * SCALE, 0);
    assert_eq!(ten, five)
}

#[test]
fn vec2_normalize() {
    let mut ten = Vec2::new(10 * SCALE, 0);
    ten = ten.normalize();
    let one = Vec2::new(1 * SCALE, 0);
    assert_eq!(ten, one)
}

#[test]
fn vec2_arithmetic_exact() {
    let a = Vec2::new(3, -4);
    let b = Vec2::new(10, 7);
    assert_eq!(a.add(b), Vec2::new(13, 3));
    assert_eq!(b.sub(a), Vec2::new(7, 11));
    let mut c = a;
    c.add_assign(b);
    assert_eq!(c, Vec2::new(13, 3));
    assert_eq!(a.mag_sq(), 25);
    assert_eq!(Vec2::new(3 * SCALE, 4 * SCALE).mag(), 5 * SCALE);
    assert_eq!(Vec2::zero(), Vec2::new(1, 1));
    // scaling by the fixed-point scalar 2.0 doubles, rounding toward zero
    assert_eq!(Vec2::new(5, -5).mul(2 * SCALE), Vec2::new(10, -10));
    assert_eq!(Vec2::new(-65535, 1).mul_frac(99_999_999_999, 100_000_000_000), Vec2::new(-65534, 0));
}

#[test]
fn limit_long_vector_exact() {
    // magnitude 5 brought down to 2: components scaled by 2/5, toward zero
    let v = Vec2::new(3 * SCALE, 4 * SCALE);
    let c = v.limit(2 * SCALE);
    assert_eq!(c, Vec2::new(78643, 104857));
    // magnitude within 3 raw steps below the bound
    let m = c.mag();
    assert!(2 * SCALE - 3 <= m && m <= 2 * SCALE);
    // a vector already within the bound is untouched
    assert_eq!(v.limit(5 * SCALE), v);
    assert_eq!(v.limit(1000 * SCALE), v);
}

#[test]
fn normalize_exact_and_unit() {
    let v = Vec2::new(3 * SCALE, 4 * SCALE);
    let u = v.normalize();
    assert_eq!(u, Vec2::new(39321, 52428));
    // unit magnitude within 3 raw steps, same direction (signs)
    let m = u.mag();
    assert!(SCALE - 3 <= m && m <= SCALE);
    assert!(u.x > 0 && u.y > 0);
    let w = Vec2::new(-3 * SCALE, 4 * SCALE).normalize();
    assert!(w.x < 0 && w.y > 0);
}

#[test]
fn color_tables() {
    assert_eq!(Color::Yellow.to_rgb_u8(), [255, 255, 0]);
    assert_eq!(Color::Red.to_rgb_u8(), [255, 0, 0]);
    assert_eq!(Color::Green.to_rgb_u8(), [0, 255, 0]);
    assert_eq!(Color::Blue.to_rgb_u8(), [0, 0, 255]);
    assert_eq!(Color::Black.to_rgb_u8(), [0, 0, 0]);
    assert_eq!(Color::Red.to_string(), "red");
    assert_eq!(Color::Black.to_string(), "transparent");
    assert_eq!(Color::Yellow.to_string(), "yellow");
}

#[test]
fn magnet_defaults() {
    let m = Magnet::new(Vec2::new(5, 7));
    assert_eq!(m.pos, Vec2::new(5, 7));
    assert_eq!(m.f, 100 * SCALE);
    assert!(matches!(m.color, Color::Black));
}

#[test]
fn standard_config_values() {
    let cfg = SimConfig::standard();
    assert_eq!(cfg.force_cap, 5 * SCALE);
    assert_eq!(cfg.settle_d2, 100 * (SCALE as i128) * (SCALE as i128));
    assert_eq!(cfg.settle_v2, 16 * (SCALE as i128) * (SCALE as i128));
    assert_eq!(cfg.vel_cap, 1000 * SCALE);
    assert_eq!(cfg.damp_num, 99_999_999_999);
    assert_eq!(cfg.damp_den, 100_000_000_000);
    assert_eq!(cfg.max_iters, 500_000);
}

#[test]
fn inverse_square_first_step() {
    // single attractor, strength 100, particle at distance 10: uncapped
    // force magnitude 100/10^2 = 1 plane unit, directed toward the attractor
    let cfg = SimConfig::standard();
    let magnets = vec![Magnet::new(Vec2::new(0, 0))];
    let mut b = ball_at(Vec2::new(10 * SCALE, 0));
    step(&mut b, &magnets, &cfg);
    assert!(!b.finished);
    // force = seed (1,1) + (-SCALE, 0); after damping: (-65534, 0)
    assert_eq!(b.vel, Vec2::new(-65534, 0));
    assert_eq!(b.pos, Vec2::new(10 * SCALE - 65534, 0));
    assert_eq!(b.init_pos, Vec2::new(10 * SCALE, 0));
}

#[test]
fn particle_on_attractor_settles_without_moving() {
    // distance exactly zero: the degeneracy policy skips the force and the
    // particle, being slow, settles on that attractor in one step
    let cfg = SimConfig::standard();
    let pos = Vec2::new(5 * SCALE, 5 * SCALE);
    let mut m = Magnet::new(pos);
    m.color = Color::Green;
    let magnets = vec![m];
    let mut b = ball_at(pos);
    simulate(&mut b, &magnets, &cfg);
    assert!(b.finished);
    assert!(matches!(b.final_color, Some(Color::Green)));
    assert_eq!(b.pos, pos);
    assert_eq!(b.vel, Vec2::new(0, 0));
}

#[test]
fn stagnation_single_step_budget() {
    // one-step budget, started far from every attractor: ends unsettled,
    // color absent, after the single evaluated step
    let mut cfg = SimConfig::standard();
    cfg.max_iters = 1;
    let magnets = vec![Magnet::new(Vec2::new(1000 * SCALE, 0))];
    let mut b = ball_at(Vec2::new(0, 0));
    simulate(&mut b, &magnets, &cfg);
    assert!(!b.finished);
    assert!(b.final_color.is_none());
    // the one step was evaluated: the particle moved toward the attractor
    assert!(b.pos.x > 0);
}

#[test]
fn parallel_driver_runs_each_particle() {
    let cfg = SimConfig::standard();
    let mut m = Magnet::new(Vec2::new(7 * SCALE, -3 * SCALE));
    m.color = Color::Blue;
    let magnets = vec![m];
    let mut balls = vec![
        ball_at(Vec2::new(7 * SCALE, -3 * SCALE)),
        ball_at(Vec2::new(400 * SCALE, 400 * SCALE)),
    ];
    run_simulation(&mut balls, &magnets, &cfg);
    assert!(balls[0].finished);
    assert!(matches!(balls[0].final_color, Some(Color::Blue)));
}

#[test]
fn symmetric_attractors_split_evenly() {
    // three equal attractors at 120 degrees: across a rotationally symmetric
    // fan of start offsets the settled counts must be roughly equal
    let colors = [Color::Yellow, Color::Red, Color::Blue];
    let magnets = ring_magnets(200.0, 200.0, 50.0, &colors);
    let cfg = SimConfig {
        force_cap: 5 * SCALE,
        settle_d2: 400 * (SCALE as i128) * (SCALE as i128),
        settle_v2: 400 * (SCALE as i128) * (SCALE as i128),
        vel_cap: 1000 * SCALE,
        damp_num: 999_999,
        damp_den: 1_000_000,
        max_iters: 50_000,
    };
    let mut counts = [0usize; 3];
    let mut settled = 0usize;
    for k in 0..12usize {
        let ang = (k as f64 + 0.5) * std::f64::consts::TAU / 12.0;
        let x = ((200.0 + 5.0 * ang.cos()) * (SCALE as f64)).round() as i64;
        let y = ((200.0 + 5.0 * ang.sin()) * (SCALE as f64)).round() as i64;
        let mut b = ball_at(Vec2::new(x, y));
        simulate(&mut b, &magnets, &cfg);
        if b.finished {
            settled += 1;
            match b.final_color.unwrap() {
                Color::Yellow => counts[0] += 1,
                Color::Red => counts[1] += 1,
                Color::Blue => counts[2] += 1,
                other => panic!("settled on an attractor with no identity: {:?}", other),
            }
        }
    }
    assert!(settled >= 6, "too few settled: {} of 12", settled);
    let max = *counts.iter().max().unwrap();
    let min = *counts.iter().min().unwrap();
    assert!(
        max - min <= settled / 2,
        "lopsided split {:?} of {} settled",
        counts,
        settled
    );
}

#[test]
fn end_to_end_grid_pixels() {
    // 10x10 sampling grid over a 400x400 plane and canvas, three attractors
    // on a ring of radius 50 around the center: after a full run every
    // pixel is one of the three attractor colors or the background, and
    // settled + unsettled particles account for all 100 grid points
    let colors = [Color::Yellow, Color::Red, Color::Blue];
    let magnets = ring_magnets(200.0, 200.0, 50.0, &colors);
    let mut cfg = SimConfig::standard();
    cfg.max_iters = 3000;
    let canvas = Canvas {
        width: 400,
        height: 400,
        plane_x: 0,
        plane_y: 0,
        plane_w: 400 * SCALE,
        plane_h: 400 * SCALE,
        grid_size: 10,
    };
    let mut balls = make_grid(&canvas);
    assert_eq!(balls.len(), 100);
    run_simulation(&mut balls, &magnets, &cfg);
    let settled = balls.iter().filter(|b| b.finished).count();
    let unsettled = balls.iter().filter(|b| !b.finished).count();
    assert_eq!(settled + unsettled, 100);
    let buf = rasterize(&balls, &canvas);
    assert_eq!(buf.len(), 400 * 400);
    let allowed = [
        Pixel { r: 0, g: 0, b: 0 },
        Pixel { r: 255, g: 255, b: 0 },
        Pixel { r: 255, g: 0, b: 0 },
        Pixel { r: 0, g: 0, b: 255 },
    ];
    for px in buf.iter() {
        assert!(allowed.contains(px), "unexpected pixel value {:?}", px);
    }
    let colored = buf.iter().filter(|p| **p != allowed[0]).count();
    assert!(colored <= settled);
}

#[test]
fn render_writes_settled_pixel() {
    // a particle sampled exactly on an attractor settles there and its grid
    // point maps back to the matching pixel
    let mut m = Magnet::new(Vec2::new(8 * SCALE, 8 * SCALE));
    m.color = Color::Red;
    let magnets = vec![m];
    let mut cfg = SimConfig::standard();
    cfg.max_iters = 100;
    let canvas = Canvas {
        width: 20,
        height: 20,
        plane_x: 0,
        plane_y: 0,
        plane_w: 20 * SCALE,
        plane_h: 20 * SCALE,
        grid_size: 5,
    };
    let buf = render(&canvas, &magnets, &cfg);
    assert_eq!(buf.len(), 400);
    let red = Pixel { r: 255, g: 0, b: 0 };
    let black = Pixel { r: 0, g: 0, b: 0 };
    assert_eq!(buf[8 * 20 + 8], red);
    for px in buf.iter() {
        assert!(*px == red || *px == black);
    }
}
