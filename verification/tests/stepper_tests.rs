use elastic_arena::errors::SimError;
use elastic_arena::particles::Particle;
use elastic_arena::rat::Rat;
use elastic_arena::sim::{bounce, in_bounds, Dim, Rect, Simulation};
use elastic_arena::vecn::{vec2, VecNd};

fn q(n: i64, d: i64) -> Rat {
    Rat::new(n, d)
}

fn arena() -> Rect {
    Rect::new(q(-100, 1), q(100, 1), q(100, 1), q(-100, 1)).unwrap()
}

fn body(x: i64, y: i64, vx: i64, vy: i64, radius: i64) -> Particle {
    Particle::new(
        vec2(q(x, 1), q(y, 1)),
        vec2(q(vx, 1), q(vy, 1)),
        q(radius, 1),
    )
    .unwrap()
}

fn zero_noise(n: usize) -> Vec<VecNd<2>> {
    let mut out = Vec::new();
    for _ in 0..n {
        out.push(VecNd::zero());
    }
    out
}

#[test]
fn rect_keeps_its_extents() {
    let rc = arena();
    assert_eq!(rc.left(), q(-100, 1));
    assert_eq!(rc.right(), q(100, 1));
    assert_eq!(rc.top(), q(100, 1));
    assert_eq!(rc.bottom(), q(-100, 1));
}

#[test]
fn in_bounds_reports_the_violated_axis() {
    let rc = arena();
    assert_eq!(in_bounds(&body(0, 0, 0, 0, 5), &rc), None);
    assert_eq!(in_bounds(&body(150, 0, 0, 0, 5), &rc), Some(Dim::X));
    assert_eq!(in_bounds(&body(0, -150, 0, 0, 5), &rc), Some(Dim::Y));
}

#[test]
fn bounce_flips_only_outward_motion() {
    let rc = arena();
    let mut outward_body = body(150, 0, 7, 3, 5);
    bounce(&mut outward_body, &rc, Dim::X);
    assert_eq!(outward_body.velocity().component(0), q(-7, 1));
    assert_eq!(outward_body.velocity().component(1), q(3, 1));
    let mut inward_body = body(150, 0, -7, 3, 5);
    bounce(&mut inward_body, &rc, Dim::X);
    assert_eq!(inward_body.velocity().component(0), q(-7, 1));
    assert_eq!(inward_body.velocity().component(1), q(3, 1));
}

#[test]
fn wall_bounce_reverses_horizontal_velocity() {
    let mut sim = Simulation::new(arena(), q(30, 1), vec![body(101, 0, 5, 0, 5)]);
    sim.update(&zero_noise(1));
    let states = sim.render_states();
    // the body integrated one step outward and was reflected
    assert_eq!(states[0].0, q(106, 1));
    sim.update(&zero_noise(1));
    let states2 = sim.render_states();
    // the next tick shows it moving leftward
    assert_eq!(states2[0].0, q(101, 1));
}

#[test]
fn speed_is_clamped_symmetrically() {
    let mut sim = Simulation::new(arena(), q(30, 1), vec![body(0, 0, 100, -50, 5)]);
    sim.update(&zero_noise(1));
    let states = sim.render_states();
    assert_eq!(states[0].0, q(30, 1));
    assert_eq!(states[0].1, q(-30, 1));
}

#[test]
fn perturbation_moves_through_the_clamp() {
    let mut sim = Simulation::new(arena(), q(30, 1), vec![body(0, 0, 1, 0, 5)]);
    let noise = vec![vec2(q(1, 2), q(-1, 2))];
    sim.update(&noise);
    let states = sim.render_states();
    assert_eq!(states[0].0, q(3, 2));
    assert_eq!(states[0].1, q(-1, 2));
}

#[test]
fn coinciding_pair_is_skipped_for_the_tick() {
    let a = body(10, 10, 0, 0, 5);
    let b = body(10, 10, 0, 0, 6);
    let mut sim = Simulation::new(arena(), q(30, 1), vec![a, b]);
    sim.update(&zero_noise(2));
    let states = sim.render_states();
    // both bodies stayed at rest where they were
    assert_eq!(states[0].0, q(10, 1));
    assert_eq!(states[0].1, q(10, 1));
    assert_eq!(states[1].0, q(10, 1));
    assert_eq!(states[1].1, q(10, 1));
}

#[test]
fn head_on_pair_swaps_velocities_in_a_tick() {
    // radius 10 bodies meeting head on; after integration they are 10
    // apart, so the sweep resolves them and equal masses swap velocities
    let a = body(-10, 0, 5, 0, 10);
    let b = body(10, 0, -5, 0, 10);
    let mut sim = Simulation::new(arena(), q(30, 1), vec![a, b]);
    sim.update(&zero_noise(2));
    let states = sim.render_states();
    assert_eq!(states[0].0, q(-5, 1));
    assert_eq!(states[1].0, q(5, 1));
    sim.update(&zero_noise(2));
    let after = sim.render_states();
    // they now move apart
    assert_eq!(after[0].0, q(-10, 1));
    assert_eq!(after[1].0, q(10, 1));
}

#[test]
fn populate_builds_the_requested_population() {
    let samples = vec![
        (q(0, 1), q(0, 1), q(0, 1)),
        (q(1, 2), q(1, 2), q(1, 2)),
        (q(1, 1), q(1, 1), q(1, 1)),
    ];
    let sim = Simulation::populate(arena(), q(30, 1), q(30, 1), q(60, 1), &samples).unwrap();
    assert_eq!(sim.len(), 3);
    let states = sim.render_states();
    assert_eq!(states.len(), 3);
    assert_eq!(states[0].0, q(-100, 1));
    assert_eq!(states[0].1, q(0, 1));
    assert_eq!(states[0].2, q(30, 1));
    assert_eq!(states[2].0, q(100, 1));
    assert_eq!(states[2].1, q(100, 1));
    assert_eq!(states[2].2, q(60, 1));
}

#[test]
fn rect_rejects_extents_beyond_the_machine_range() {
    let r = Rect::new(q(i64::MAX, 1), q(i64::MAX, 1), q(1, 1), q(-1, 1));
    assert_eq!(r.unwrap_err(), SimError::Overflow);
}
