use elastic_arena::errors::SimError;
use elastic_arena::particles::{elastic_collision, Particle};
use elastic_arena::rat::Rat;
use elastic_arena::vecn::{vec2, VecNd};

fn q(n: i64, d: i64) -> Rat {
    Rat::new(n, d)
}

fn body(x: i64, y: i64, vx: i64, vy: i64, radius: i64) -> Particle {
    Particle::new(
        vec2(q(x, 1), q(y, 1)),
        vec2(q(vx, 1), q(vy, 1)),
        q(radius, 1),
    )
    .unwrap()
}

#[test]
fn invalid_radius_is_rejected() {
    let zero: VecNd<2> = VecNd::zero();
    let at_rest: VecNd<2> = VecNd::zero();
    let r = Particle::new(zero, at_rest, q(0, 1));
    assert_eq!(r.unwrap_err(), SimError::InvalidRadius);
    let zero2: VecNd<2> = VecNd::zero();
    let at_rest2: VecNd<2> = VecNd::zero();
    let r2 = Particle::new(zero2, at_rest2, q(-3, 1));
    assert_eq!(r2.unwrap_err(), SimError::InvalidRadius);
}

#[test]
fn mass_follows_the_quadratic_law() {
    let p = body(0, 0, 0, 0, 10);
    assert_eq!(p.mass().unwrap(), q(1, 1));
    let p2 = body(0, 0, 0, 0, 30);
    assert_eq!(p2.mass().unwrap(), q(9, 1));
    let p3 = body(0, 0, 0, 0, 5);
    assert_eq!(p3.mass().unwrap(), q(1, 4));
}

#[test]
fn collides_includes_the_exact_boundary() {
    let a = body(0, 0, 0, 0, 1);
    let touching = body(2, 0, 0, 0, 1);
    assert!(a.collides(&touching).unwrap());
    let apart = Particle::new(vec2(q(201, 100), q(0, 1)), VecNd::zero(), q(1, 1)).unwrap();
    assert!(!a.collides(&apart).unwrap());
    let overlapping = body(1, 0, 0, 0, 1);
    assert!(a.collides(&overlapping).unwrap());
}

#[test]
fn equal_mass_head_on_swap() {
    let mut a = body(-5, 0, 5, 0, 10);
    let mut b = body(5, 0, -5, 0, 10);
    assert!(a.collides(&b).unwrap());
    a.smash(&mut b).unwrap();
    assert_eq!(a.velocity().component(0), q(-5, 1));
    assert_eq!(a.velocity().component(1), q(0, 1));
    assert_eq!(b.velocity().component(0), q(5, 1));
    assert_eq!(b.velocity().component(1), q(0, 1));
}

#[test]
fn degenerate_contact_is_reported_and_changes_nothing() {
    let mut a = body(3, 4, 1, 2, 5);
    let mut b = body(3, 4, -2, 7, 6);
    let r = a.smash(&mut b);
    assert_eq!(r.unwrap_err(), SimError::DegenerateContact);
    assert_eq!(a.velocity().component(0), q(1, 1));
    assert_eq!(a.velocity().component(1), q(2, 1));
    assert_eq!(b.velocity().component(0), q(-2, 1));
    assert_eq!(b.velocity().component(1), q(7, 1));
}

#[test]
fn elastic_resolver_rejects_coinciding_centers() {
    let v1 = vec2(q(1, 1), q(0, 1));
    let v2 = vec2(q(-1, 1), q(0, 1));
    let x = vec2(q(2, 1), q(3, 1));
    let x_same = vec2(q(2, 1), q(3, 1));
    let r = elastic_collision(&v1, &v2, &x, &x_same, q(1, 1), q(1, 1));
    assert_eq!(r.unwrap_err(), SimError::DegenerateContact);
}

#[test]
fn collision_conserves_momentum_and_energy_exactly() {
    let mut a = body(0, 0, 3, 1, 10);
    let mut b = body(5, 5, -1, 2, 20);
    let m1 = a.mass().unwrap();
    let m2 = b.mass().unwrap();
    let momentum = |p: &Particle, m: Rat, i: usize| m.mul(p.velocity().component(i)).unwrap();
    let energy = |p: &Particle, m: Rat| {
        let vx = p.velocity().component(0);
        let vy = p.velocity().component(1);
        let sq = vx.mul(vx).unwrap().add(vy.mul(vy).unwrap()).unwrap();
        m.mul(sq).unwrap()
    };
    let px_before = momentum(&a, m1, 0).add(momentum(&b, m2, 0)).unwrap();
    let py_before = momentum(&a, m1, 1).add(momentum(&b, m2, 1)).unwrap();
    let e_before = energy(&a, m1).add(energy(&b, m2)).unwrap();
    a.smash(&mut b).unwrap();
    let px_after = momentum(&a, m1, 0).add(momentum(&b, m2, 0)).unwrap();
    let py_after = momentum(&a, m1, 1).add(momentum(&b, m2, 1)).unwrap();
    let e_after = energy(&a, m1).add(energy(&b, m2)).unwrap();
    assert_eq!(px_before, px_after);
    assert_eq!(py_before, py_after);
    assert_eq!(e_before, e_after);
}

#[test]
fn sampled_body_lands_in_the_upper_half() {
    let half = q(1, 2);
    let p = Particle::new_rand(
        q(-100, 1),
        q(100, 1),
        q(100, 1),
        q(-100, 1),
        q(30, 1),
        q(60, 1),
        half,
        half,
        half,
    )
    .unwrap();
    assert_eq!(p.position().component(0), q(0, 1));
    assert_eq!(p.position().component(1), q(50, 1));
    assert_eq!(p.radius(), q(45, 1));
    assert_eq!(p.velocity().component(0), q(0, 1));
    assert_eq!(p.velocity().component(1), q(0, 1));
}
