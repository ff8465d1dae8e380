//! The force integrator: attractors, particles, and the per-particle
//! stepping loop with its convergence and stagnation policy.
//!
//! A particle is a two-state machine, unsettled or settled. While unsettled,
//! one step accumulates the capped inverse-square pull of every attractor,
//! tracks the nearest attractor, and either settles (near enough and slow
//! enough: the settling step moves nothing) or integrates velocity and
//! position. A particle that never settles within the step budget ends
//! unsettled with no resolved color: a defined outcome, not an error.
//!
//! The whole run is specified by the pure model functions `scan_spec`,
//! `step_spec` and `sim_spec`; the executable code is proved to compute
//! exactly them.

use vstd::prelude::*;
use vstd::arithmetic::mul::*;
use vstd::arithmetic::div_mod::*;
use rayon::iter::{IntoParallelRefMutIterator, ParallelIterator};
use crate::vec2::{
    Vec2, V2i, SCALE, abs_i, v_add, v_sub, v_msq, v_mag, v_scale, v_frac, v_norm, v_limit, v_seed,
    lemma_comp_le_mag, lemma_mul_div_le_scalar, lemma_mul_div_sign,
};

verus! {

broadcast use vstd::string::to_string_from_display_ensures_for_str;

/// Attractor identity used for final pixel coloring.
#[derive(Clone, Copy, PartialEq, Eq, Structural, Debug)]
pub enum Color {
    Yellow,
    Red,
    Green,
    Blue,
    Black,
}

pub open spec fn color_name(c: Color) -> Seq<char> {
    match c {
        Color::Red => "red"@,
        Color::Green => "green"@,
        Color::Blue => "blue"@,
        Color::Black => "transparent"@,
        Color::Yellow => "yellow"@,
    }
}

impl Color {
    pub fn to_string(&self) -> (r: String)
        ensures
            r@ == color_name(*self),
    {
        match self {
            Color::Red => "red".to_string(),
            Color::Green => "green".to_string(),
            Color::Blue => "blue".to_string(),
            Color::Black => "transparent".to_string(),
            Color::Yellow => "yellow".to_string(),
        }
    }

    pub fn to_rgb_u8(&self) -> (r: [u8; 3])
        ensures
            r@ == color_rgb(*self),
    {
        match self {
            Color::Yellow => [255, 255, 0],
            Color::Red => [255, 0, 0],
            Color::Green => [0, 255, 0],
            Color::Blue => [0, 0, 255],
            Color::Black => [0, 0, 0],
        }
    }
}

pub open spec fn color_rgb(c: Color) -> Seq<u8> {
    match c {
        Color::Yellow => seq![255u8, 255u8, 0u8],
        Color::Red => seq![255u8, 0u8, 0u8],
        Color::Green => seq![0u8, 255u8, 0u8],
        Color::Blue => seq![0u8, 0u8, 255u8],
        Color::Black => seq![0u8, 0u8, 0u8],
    }
}

/// Largest raw attractor / initial-particle coordinate magnitude (2^45).
pub const POS_LIMIT: i64 = 0x2000_0000_0000;

/// Largest raw particle coordinate magnitude during a run (2^51): the start
/// bound plus the largest distance the step budget can cover.
pub const STEP_POS_LIMIT: i64 = 0x8_0000_0000_0000;

/// Largest raw attractor strength (2^28).
pub const STRENGTH_LIMIT: i64 = 0x1000_0000;

/// Default attractor strength: 100 plane units.
pub const DEFAULT_STRENGTH: i64 = 6_553_600;

/// The sentinel "no attractor seen yet" squared distance, larger than any
/// real one.
pub const D2_UNSEEN: i128 = 0x7FFF_FFFF_FFFF_FFFF_FFFF_FFFF_FFFF_FFFF;

/// A fixed point attractor: position, force strength (raw fixed-point,
/// numerator of the inverse-square law) and identity tag. Immutable once
/// built; read-only during simulation.
pub struct Magnet {
    pub pos: Vec2,
    pub f: i64,
    pub color: Color,
}

pub open spec fn magnet_wf(m: Magnet) -> bool {
    &&& abs_i(m.pos@.x) <= POS_LIMIT
    &&& abs_i(m.pos@.y) <= POS_LIMIT
    &&& 0 <= m.f <= STRENGTH_LIMIT
}

pub open spec fn magnets_wf(ms: Seq<Magnet>) -> bool {
    forall|i: int| 0 <= i < ms.len() ==> magnet_wf(#[trigger] ms[i])
}

impl Magnet {
    /// A new attractor at `pos` with the default strength and no identity
    /// yet (black, the background tag).
    pub fn new(pos: Vec2) -> (r: Magnet)
        requires
            abs_i(pos@.x) <= POS_LIMIT,
            abs_i(pos@.y) <= POS_LIMIT,
        ensures
            r.pos == pos,
            r.f == DEFAULT_STRENGTH,
            r.color == Color::Black,
            magnet_wf(r),
    {
        Magnet { pos, f: DEFAULT_STRENGTH, color: Color::Black }
    }
}

/// A simulated particle: one per grid cell, exclusively owned by its worker.
/// `final_color` is set if and only if `finished` holds.
#[derive(Debug)]
pub struct Ball {
    pub pos: Vec2,
    pub vel: Vec2,
    pub init_pos: Vec2,
    pub finished: bool,
    pub final_color: Option<Color>,
}

/// Mathematical model of a particle.
pub struct BallModel {
    pub pos: V2i,
    pub vel: V2i,
    pub init_pos: V2i,
    pub finished: bool,
    pub final_color: Option<Color>,
}

impl View for Ball {
    type V = BallModel;

    open spec fn view(&self) -> BallModel {
        BallModel {
            pos: self.pos@,
            vel: self.vel@,
            init_pos: self.init_pos@,
            finished: self.finished,
            final_color: self.final_color,
        }
    }
}

/// Fixed run configuration, never mutated after construction and shared
/// read-only across all parallel particle computations.
pub struct SimConfig {
    /// Per-attractor force contribution ceiling (raw).
    pub force_cap: i64,
    /// Squared settling distance (raw^2): convergence needs the nearest
    /// attractor closer than this.
    pub settle_d2: i128,
    /// Squared settling speed (raw^2): convergence needs the velocity slower
    /// than this.
    pub settle_v2: i128,
    /// Velocity magnitude ceiling (raw).
    pub vel_cap: i64,
    /// Damping factor numerator and denominator: each step multiplies the
    /// velocity by `damp_num / damp_den`.
    pub damp_num: i64,
    pub damp_den: i64,
    /// Stagnation cutoff: a particle still unsettled after this many
    /// evaluated steps is abandoned, unsettled.
    pub max_iters: u32,
}

impl SimConfig {
    pub open spec fn wf(&self) -> bool {
        &&& 0 <= self.force_cap <= 0x8000_0000
        &&& 0 <= self.settle_d2
        &&& 0 <= self.settle_v2
        &&& 0 <= self.vel_cap <= 0x800_0000
        &&& 1 <= self.damp_den <= 0x100_0000_0000
        &&& 0 <= self.damp_num <= self.damp_den
        &&& self.max_iters <= 0x80_0000
    }

    /// The standard configuration: force cap 5 plane units, settling
    /// distance 10 units and speed 4 units (both stated squared, in raw^2:
    /// 100 * SCALE^2 and 16 * SCALE^2), velocity cap 1000 units, damping
    /// factor 0.99999999999, budget of 500000 steps.
    pub fn standard() -> (r: SimConfig)
        ensures
            r.force_cap == 5 * SCALE,
            r.settle_d2 == 429_496_729_600i128,
            r.settle_v2 == 68_719_476_736i128,
            r.vel_cap == 1000 * SCALE,
            r.damp_num == 99_999_999_999i64,
            r.damp_den == 100_000_000_000i64,
            r.max_iters == 500_000,
            r.wf(),
    {
        SimConfig {
            force_cap: 327_680,
            settle_d2: 429_496_729_600,
            settle_v2: 68_719_476_736,
            vel_cap: 65_536_000,
            damp_num: 99_999_999_999,
            damp_den: 100_000_000_000,
            max_iters: 500_000,
        }
    }
}

/// Inverse-square scalar: strength `f` over squared distance `d2`, as a
/// fixed-point scalar (`f * SCALE^2 / d2` raw).
pub open spec fn k_of(f: int, d2: int) -> int {
    (f * (SCALE as int) * (SCALE as int)) / d2
}

/// One attractor's capped force contribution on a particle at `p`. An
/// attractor at exactly zero distance contributes nothing: the degeneracy
/// policy that stands in for a division by zero.
pub open spec fn contrib_spec(m: Magnet, p: V2i, cap: int) -> V2i {
    let d = v_sub(m.pos@, p);
    let d2 = v_msq(d);
    if d2 == 0 {
        V2i { x: 0, y: 0 }
    } else {
        v_limit(v_scale(v_norm(d), k_of(m.f as int, d2)), cap)
    }
}

/// Accumulator of the per-step scan over the attractors: total force so far,
/// smallest squared distance seen, and the color of the first attractor that
/// attained it.
pub struct ScanState {
    pub force: V2i,
    pub min_d2: int,
    pub min_color: Option<Color>,
}

pub open spec fn scan_one(st: ScanState, m: Magnet, p: V2i, cap: int) -> ScanState {
    let d2 = v_msq(v_sub(m.pos@, p));
    ScanState {
        force: v_add(st.force, contrib_spec(m, p, cap)),
        min_d2: if d2 < st.min_d2 {
            d2
        } else {
            st.min_d2
        },
        min_color: if d2 < st.min_d2 {
            Some(m.color)
        } else {
            st.min_color
        },
    }
}

/// The scan of all attractors in construction order, seeded with the
/// reserved near-zero force vector.
pub open spec fn scan_spec(ms: Seq<Magnet>, p: V2i, cap: int) -> ScanState
    decreases ms.len(),
{
    if ms.len() == 0 {
        ScanState { force: v_seed(), min_d2: D2_UNSEEN as int, min_color: None }
    } else {
        scan_one(scan_spec(ms.drop_last(), p, cap), ms.last(), p, cap)
    }
}

/// One evaluation step of an unsettled particle: settle without moving if
/// near enough and slow enough, else integrate force into velocity (capped,
/// damped) and velocity into position.
pub open spec fn step_spec(b: BallModel, ms: Seq<Magnet>, cfg: SimConfig) -> BallModel {
    let sc = scan_spec(ms, b.pos, cfg.force_cap as int);
    if sc.min_d2 < cfg.settle_d2 && v_msq(b.vel) < cfg.settle_v2 {
        BallModel { finished: true, final_color: sc.min_color, ..b }
    } else {
        let v = v_frac(
            v_limit(v_add(b.vel, sc.force), cfg.vel_cap as int),
            cfg.damp_num as int,
            cfg.damp_den as int,
        );
        BallModel { pos: v_add(b.pos, v), vel: v, ..b }
    }
}

/// A full particle run: step until settled or the budget `fuel` runs out.
pub open spec fn sim_spec(b: BallModel, ms: Seq<Magnet>, cfg: SimConfig, fuel: nat) -> BallModel
    decreases fuel,
{
    if fuel == 0 || b.finished {
        b
    } else {
        sim_spec(step_spec(b, ms, cfg), ms, cfg, (fuel - 1) as nat)
    }
}

/// Bounds under which a particle may be handed to the integrator.
pub open spec fn ball_start_wf(b: BallModel, cfg: SimConfig) -> bool {
    &&& abs_i(b.pos.x) <= POS_LIMIT
    &&& abs_i(b.pos.y) <= POS_LIMIT
    &&& abs_i(b.vel.x) <= cfg.vel_cap
    &&& abs_i(b.vel.y) <= cfg.vel_cap
}

/// Bounds that hold of a particle between two steps of a run.
pub open spec fn ball_step_wf(b: BallModel, cfg: SimConfig) -> bool {
    &&& abs_i(b.pos.x) <= STEP_POS_LIMIT
    &&& abs_i(b.pos.y) <= STEP_POS_LIMIT
    &&& abs_i(b.vel.x) <= cfg.vel_cap
    &&& abs_i(b.vel.y) <= cfg.vel_cap
}

/// One executable integrator step, computing exactly `step_spec`.
pub fn step(ball: &mut Ball, magnets: &Vec<Magnet>, cfg: &SimConfig)
    requires
        cfg.wf(),
        magnets_wf(magnets@),
        magnets@.len() <= 65536,
        ball_step_wf(old(ball)@, *cfg),
        !old(ball)@.finished,
    ensures
        final(ball)@ == step_spec(old(ball)@, magnets@, *cfg),
        abs_i(final(ball)@.vel.x) <= cfg.vel_cap,
        abs_i(final(ball)@.vel.y) <= cfg.vel_cap,
        abs_i(final(ball)@.pos.x) <= abs_i(old(ball)@.pos.x) + cfg.vel_cap,
        abs_i(final(ball)@.pos.y) <= abs_i(old(ball)@.pos.y) + cfg.vel_cap,
{
    let ghost p = ball@.pos;
    let ghost cap = cfg.force_cap as int;
    let mut force = Vec2::zero();
    let mut min_d2: i128 = D2_UNSEEN;
    let mut min_color: Option<Color> = None;
    let mut i: usize = 0;
    while i < magnets.len()
        invariant
            cfg.wf(),
            magnets_wf(magnets@),
            magnets@.len() <= 65536,
            ball_step_wf(ball@, *cfg),
            !ball@.finished,
            *ball == *old(ball),
            p == ball@.pos,
            cap == cfg.force_cap as int,
            0 <= i <= magnets@.len(),
            force@ == scan_spec(magnets@.take(i as int), p, cap).force,
            min_d2 as int == scan_spec(magnets@.take(i as int), p, cap).min_d2,
            min_color == scan_spec(magnets@.take(i as int), p, cap).min_color,
            abs_i(force@.x) <= 1 + i as int * (cfg.force_cap as int),
            abs_i(force@.y) <= 1 + i as int * (cfg.force_cap as int),
        decreases magnets@.len() - i,
    {
        proof {
            assert(magnet_wf(magnets@[i as int]));
            lemma_mul_upper_bound(i as int, 65536, cfg.force_cap as int, 0x8000_0000);
        }
        let m = &magnets[i];
        let d = m.pos.sub(ball.pos);
        let d2 = d.mag_sq();
        proof {
            lemma_comp_le_mag(d@);
        }
        if d2 < min_d2 {
            min_d2 = d2;
            min_color = Some(m.color);
        }
        if d2 != 0 {
            let u = d.normalize();
            let k128: u128 = (m.f as u128) * 4_294_967_296u128 / (d2 as u128);
            proof {
                lemma_div_pos_is_pos(m.f as int * 4_294_967_296, d2 as int);
                lemma_div_nonincreasing(m.f as int * 4_294_967_296, d2 as int);
            }
            let k = k128 as i64;
            proof {
                assert(k as int == k_of(m.f as int, d2 as int));
                lemma_mul_div_le_scalar(u@.x, k as int, SCALE as int);
                lemma_mul_div_le_scalar(u@.y, k as int, SCALE as int);
            }
            let c = u.mul(k).limit(cfg.force_cap);
            force.add_assign(c);
        }
        proof {
            assert(magnets@.take(i as int + 1).drop_last() =~= magnets@.take(i as int));
            assert(magnets@.take(i as int + 1).last() == magnets@[i as int]);
            assert((i as int + 1) * (cfg.force_cap as int) == i as int * (cfg.force_cap as int)
                + cfg.force_cap as int) by (nonlinear_arith);
        }
        i += 1;
    }
    proof {
        assert(magnets@.take(magnets@.len() as int) =~= magnets@);
        lemma_mul_upper_bound(magnets@.len() as int, 65536, cfg.force_cap as int, 0x8000_0000);
    }
    let vmsq = ball.vel.mag_sq();
    if min_d2 < cfg.settle_d2 && vmsq < cfg.settle_v2 {
        ball.finished = true;
        ball.final_color = min_color;
    } else {
        let v1 = ball.vel.add(force);
        let v2 = v1.limit(cfg.vel_cap);
        let v3 = v2.mul_frac(cfg.damp_num, cfg.damp_den);
        ball.vel = v3;
        let np = ball.pos.add(v3);
        ball.pos = np;
    }
}

/// A full particle run to settlement or stagnation, computing exactly
/// `sim_spec` with the configured step budget.
pub fn simulate(ball: &mut Ball, magnets: &Vec<Magnet>, cfg: &SimConfig)
    requires
        cfg.wf(),
        magnets_wf(magnets@),
        magnets@.len() <= 65536,
        ball_start_wf(old(ball)@, *cfg),
    ensures
        final(ball)@ == sim_spec(old(ball)@, magnets@, *cfg, cfg.max_iters as nat),
{
    let ghost b0 = old(ball)@;
    let mut iters: u32 = 0;
    while !ball.finished && iters < cfg.max_iters
        invariant
            cfg.wf(),
            magnets_wf(magnets@),
            magnets@.len() <= 65536,
            0 <= iters <= cfg.max_iters,
            abs_i(ball@.pos.x) <= POS_LIMIT + iters as int * (cfg.vel_cap as int),
            abs_i(ball@.pos.y) <= POS_LIMIT + iters as int * (cfg.vel_cap as int),
            abs_i(ball@.vel.x) <= cfg.vel_cap,
            abs_i(ball@.vel.y) <= cfg.vel_cap,
            sim_spec(b0, magnets@, *cfg, cfg.max_iters as nat) == sim_spec(
                ball@,
                magnets@,
                *cfg,
                (cfg.max_iters - iters) as nat,
            ),
        decreases cfg.max_iters - iters,
    {
        proof {
            lemma_mul_upper_bound(iters as int, 0x80_0000, cfg.vel_cap as int, 0x800_0000);
        }
        let ghost before = ball@;
        step(ball, magnets, cfg);
        proof {
            assert(sim_spec(before, magnets@, *cfg, (cfg.max_iters - iters) as nat) == sim_spec(
                ball@,
                magnets@,
                *cfg,
                (cfg.max_iters - iters - 1) as nat,
            ));
            assert((iters as int + 1) * (cfg.vel_cap as int) == iters as int * (cfg.vel_cap as int)
                + cfg.vel_cap as int) by (nonlinear_arith);
        }
        iters += 1;
    }
}

/// With the cap out of the way, one attractor's pull is exactly the
/// inverse-square scalar `k_of(f, d2) = f * SCALE^2 / d2` — strength over
/// squared distance, in plane units — applied to the unit displacement
/// vector, and it points toward the attractor (each force component carries
/// the sign of the displacement component).
pub proof fn lemma_uncapped_force(m: Magnet, p: V2i, cap: int)
    requires
        0 <= m.f,
        v_msq(v_sub(m.pos@, p)) > 0,
        cap >= 2 * k_of(m.f as int, v_msq(v_sub(m.pos@, p))),
    ensures
        ({
            let d = v_sub(m.pos@, p);
            let w = v_scale(v_norm(d), k_of(m.f as int, v_msq(d)));
            &&& contrib_spec(m, p, cap) == w
            &&& (d.x >= 0 ==> w.x >= 0)
            &&& (d.x <= 0 ==> w.x <= 0)
            &&& (d.y >= 0 ==> w.y >= 0)
            &&& (d.y <= 0 ==> w.y <= 0)
        }),
{
    let d = v_sub(m.pos@, p);
    let d2 = v_msq(d);
    let k = k_of(m.f as int, d2);
    let u = v_norm(d);
    let w = v_scale(u, k);
    lemma_comp_le_mag(d);
    let m1 = v_mag(d);
    lemma_mul_nonnegative(m.f as int, SCALE as int);
    lemma_mul_nonnegative(m.f as int * (SCALE as int), SCALE as int);
    lemma_div_pos_is_pos(m.f as int * (SCALE as int) * (SCALE as int), d2);
    lemma_mul_div_le_scalar(d.x, SCALE as int, m1);
    lemma_mul_div_le_scalar(d.y, SCALE as int, m1);
    lemma_mul_div_sign(d.x, SCALE as int, m1);
    lemma_mul_div_sign(d.y, SCALE as int, m1);
    lemma_mul_div_le_scalar(u.x, k, SCALE as int);
    lemma_mul_div_le_scalar(u.y, k, SCALE as int);
    lemma_mul_div_sign(u.x, k, SCALE as int);
    lemma_mul_div_sign(u.y, k, SCALE as int);
    lemma_comp_le_mag(w);
    if v_mag(w) > cap {
        assert(v_mag(w) * v_mag(w) > (2 * k) * (2 * k)) by (nonlinear_arith)
            requires
                v_mag(w) > 2 * k >= 0,
        ;
        assert(w.x * w.x + w.y * w.y <= 2 * (k * k)) by (nonlinear_arith)
            requires
                abs_i(w.x) <= k,
                abs_i(w.y) <= k,
                0 <= k,
        ;
        assert((2 * k) * (2 * k) >= 2 * (k * k)) by (nonlinear_arith)
            requires
                0 <= k,
        ;
        assert(false);
    }
    assert(v_limit(w, cap) == w);
}

/// A particle standing exactly on an attractor follows the documented
/// degeneracy policy instead of dividing by zero: that attractor contributes
/// no force, and the distance to it being zero, a slow particle settles on
/// the first such attractor in this very step — without moving.
pub proof fn lemma_overlap_settles(b: BallModel, ms: Seq<Magnet>, cfg: SimConfig)
    requires
        !b.finished,
        ms.len() > 0,
        ms[0].pos@ == b.pos,
        cfg.settle_d2 > 0,
        v_msq(b.vel) < cfg.settle_v2,
    ensures
        step_spec(b, ms, cfg).finished,
        step_spec(b, ms, cfg).final_color == Some(ms[0].color),
        step_spec(b, ms, cfg).pos == b.pos,
        step_spec(b, ms, cfg).vel == b.vel,
{
    lemma_scan_first_overlap(ms, b.pos, cfg.force_cap as int);
}

proof fn lemma_scan_first_overlap(ms: Seq<Magnet>, p: V2i, cap: int)
    requires
        ms.len() > 0,
        ms[0].pos@ == p,
    ensures
        scan_spec(ms, p, cap).min_d2 == 0,
        scan_spec(ms, p, cap).min_color == Some(ms[0].color),
    decreases ms.len(),
{
    lemma_comp_le_mag(v_sub(ms.last().pos@, p));
    if ms.len() == 1 {
        assert(ms.last() == ms[0]);
        let d0 = v_sub(ms[0].pos@, p);
        assert(d0.x == 0 && d0.y == 0);
        assert(v_msq(d0) == d0.x * d0.x + d0.y * d0.y);
        assert(d0.x * d0.x + d0.y * d0.y == 0) by (nonlinear_arith)
            requires
                d0.x == 0,
                d0.y == 0,
        ;
        assert(ms.drop_last().len() == 0);
        assert(scan_spec(ms.drop_last(), p, cap).min_d2 == D2_UNSEEN as int);
        assert(scan_spec(ms, p, cap) == scan_one(scan_spec(ms.drop_last(), p, cap), ms.last(), p, cap));
    } else {
        assert(ms.drop_last()[0] == ms[0]);
        lemma_scan_first_overlap(ms.drop_last(), p, cap);
        assert(scan_spec(ms, p, cap) == scan_one(scan_spec(ms.drop_last(), p, cap), ms.last(), p, cap));
        assert(v_msq(v_sub(ms.last().pos@, p)) >= 0);
    }
}

proof fn lemma_scan_min_lower(ms: Seq<Magnet>, p: V2i, cap: int, t: int)
    requires
        forall|i: int| 0 <= i < ms.len() ==> v_msq(v_sub((#[trigger] ms[i]).pos@, p)) >= t,
        t <= D2_UNSEEN as int,
    ensures
        scan_spec(ms, p, cap).min_d2 >= t,
    decreases ms.len(),
{
    if ms.len() > 0 {
        assert(forall|i: int|
            0 <= i < ms.len() - 1 ==> #[trigger] ms.drop_last()[i] == ms[i]);
        lemma_scan_min_lower(ms.drop_last(), p, cap, t);
        assert(v_msq(v_sub(ms.last().pos@, p)) >= t);
    }
}

/// Stagnation: with a budget of one step, a particle too far from every
/// attractor to settle ends unsettled after that single evaluated step, its
/// resolved color still absent.
pub proof fn lemma_stagnates_far(b: BallModel, ms: Seq<Magnet>, cfg: SimConfig)
    requires
        !b.finished,
        b.final_color is None,
        cfg.max_iters == 1,
        forall|i: int|
            0 <= i < ms.len() ==> v_msq(v_sub((#[trigger] ms[i]).pos@, b.pos)) >= cfg.settle_d2,
    ensures
        !sim_spec(b, ms, cfg, cfg.max_iters as nat).finished,
        sim_spec(b, ms, cfg, cfg.max_iters as nat).final_color is None,
{
    lemma_scan_min_lower(ms, b.pos, cfg.force_cap as int, cfg.settle_d2 as int);
    let b1 = step_spec(b, ms, cfg);
    assert(sim_spec(b, ms, cfg, 1nat) == sim_spec(b1, ms, cfg, 0nat));
}

/// A run never moves a particle's originating grid position: only `pos`,
/// `vel` and the settling state change.
pub proof fn lemma_sim_keeps_origin(b: BallModel, ms: Seq<Magnet>, cfg: SimConfig, fuel: nat)
    ensures
        sim_spec(b, ms, cfg, fuel).init_pos == b.init_pos,
    decreases fuel,
{
    if fuel == 0 || b.finished {
    } else {
        lemma_sim_keeps_origin(step_spec(b, ms, cfg), ms, cfg, (fuel - 1) as nat);
    }
}

/// Relies on rayon's `par_iter_mut().for_each(..)` (the
/// `IntoParallelRefMutIterator` and `ParallelIterator` traits): the closure
/// runs exactly once on each element of the vector, each element exclusively
/// owned by its task, with no element added, removed or reordered, and
/// `for_each` returns only after every task has finished. The closure itself
/// is the verified `simulate`, whose contract gives each element's new value.
#[verifier::external_body]
fn par_each_simulate(balls: &mut Vec<Ball>, magnets: &Vec<Magnet>, cfg: &SimConfig)
    requires
        cfg.wf(),
        magnets_wf(magnets@),
        magnets@.len() <= 65536,
        forall|i: int|
            0 <= i < old(balls)@.len() ==> ball_start_wf(#[trigger] old(balls)@[i]@, *cfg),
    ensures
        final(balls)@.len() == old(balls)@.len(),
        forall|i: int|
            0 <= i < old(balls)@.len() ==> (#[trigger] final(balls)@[i])@ == sim_spec(
                old(balls)@[i]@,
                magnets@,
                *cfg,
                cfg.max_iters as nat,
            ),
{
    balls.par_iter_mut().for_each(|ball| simulate(ball, magnets, cfg));
}

/// The parallel driver: fans the integrator out over all particles, one
/// independent task each, and returns only once every particle has run to
/// completion (settled or stagnated). Each particle's result is exactly its
/// independent `sim_spec` run.
pub fn run_simulation(balls: &mut Vec<Ball>, magnets: &Vec<Magnet>, cfg: &SimConfig)
    requires
        cfg.wf(),
        magnets_wf(magnets@),
        magnets@.len() <= 65536,
        forall|i: int|
            0 <= i < old(balls)@.len() ==> ball_start_wf(#[trigger] old(balls)@[i]@, *cfg),
    ensures
        final(balls)@.len() == old(balls)@.len(),
        forall|i: int|
            0 <= i < old(balls)@.len() ==> (#[trigger] final(balls)@[i])@ == sim_spec(
                old(balls)@[i]@,
                magnets@,
                *cfg,
                cfg.max_iters as nat,
            ),
{
    par_each_simulate(balls, magnets, cfg);
}

} // verus!
