//! The arena, boundary reflection, and the per-tick stepper.
//!
//! A tick runs three phases in order, for every body: perturb the velocity
//! by a supplied noise vector, clamp each velocity component to the
//! configured maximum speed, and integrate; reflect at the arena walls,
//! flipping only a velocity component that carries the body further
//! outward; then detect and resolve pairwise contacts against an immutable
//! snapshot taken after the first two phases, writing the first body of a
//! pair at once and the second at the end of the sweep. The random source
//! is passed in by the caller, which keeps a tick a pure function of its
//! inputs.

use crate::errors::SimError;
use crate::particles::{
    body_wf, coincident, lemma_body_view, mass_of, mcollides, melastic, msample, BodyQ, Particle,
};
use crate::rat::{
    lemma_qdiv_congruence, lemma_qeq_trans_gen, qadd, qchk, qdiv, qeq, qfits, qint, qle, qlt,
    qmul, qneg, qsub, qwf, qzero, Q, Rat,
};
use crate::vecn::{mv_add, vec2, VecNd};
use vstd::prelude::*;

verus! {

/// One axis of the arena rectangle.
#[derive(Clone, Copy, Debug, PartialEq, Eq, Structural)]
pub enum Dim {
    X,
    Y,
}

/// The mathematical state of the arena rectangle.
pub ghost struct RectQ {
    pub left: Q,
    pub right: Q,
    pub top: Q,
    pub bottom: Q,
    pub cx: Q,
    pub cy: Q,
}

/// Well-formed arena: ordered extents and a center that is the exact
/// midpoint on each axis.
pub open spec fn rect_wf(rc: RectQ) -> bool {
    &&& qwf(rc.left) && qwf(rc.right) && qwf(rc.top) && qwf(rc.bottom)
    &&& qwf(rc.cx) && qwf(rc.cy)
    &&& qfits(rc.left) && qfits(rc.right) && qfits(rc.top) && qfits(rc.bottom)
    &&& qfits(rc.cx) && qfits(rc.cy)
    &&& qle(rc.left, rc.right)
    &&& qle(rc.bottom, rc.top)
    &&& qeq(rc.cx, qdiv(qadd(rc.left, rc.right), qint(2)))
    &&& qeq(rc.cy, qdiv(qadd(rc.bottom, rc.top), qint(2)))
}

/// Machine mirror of the midpoint computation.
pub open spec fn mcenter(a: Q, b: Q) -> Option<Q> {
    match qchk(qadd(a, b)) {
        Option::Some(s) => qchk(qdiv(s, qint(2))),
        Option::None => Option::None,
    }
}

/// The arena rectangle. The center coordinates are computed once at
/// construction, so the per-tick boundary test needs no arithmetic that
/// could leave the machine range.
#[derive(Debug)]
pub struct Rect {
    left: Rat,
    right: Rat,
    top: Rat,
    bottom: Rat,
    cx: Rat,
    cy: Rat,
}

impl View for Rect {
    type V = RectQ;

    closed spec fn view(&self) -> RectQ {
        RectQ {
            left: self.left@,
            right: self.right@,
            top: self.top@,
            bottom: self.bottom@,
            cx: self.cx@,
            cy: self.cy@,
        }
    }
}

impl Rect {
    pub open spec fn wf(self) -> bool {
        rect_wf(self@)
    }

    /// An arena from its extents; `Overflow` exactly when a midpoint
    /// leaves the machine range.
    pub fn new(left: Rat, right: Rat, top: Rat, bottom: Rat) -> (r: Result<Rect, SimError>)
        requires
            left.wf(),
            right.wf(),
            top.wf(),
            bottom.wf(),
            qle(left@, right@),
            qle(bottom@, top@),
        ensures
            (r is Ok) == (mcenter(left@, right@) is Some && mcenter(bottom@, top@) is Some),
            r matches Ok(rc) ==> rc.wf() && rc@.left == left@ && rc@.right == right@ && rc@.top
                == top@ && rc@.bottom == bottom@,
            r matches Err(e) ==> e == SimError::Overflow,
    {
        let two = Rat::from_int(2);
        let sx = match left.add(right) {
            Some(s) => s,
            None => {
                return Err(SimError::Overflow);
            },
        };
        let cx = match sx.div(two) {
            Some(c) => c,
            None => {
                return Err(SimError::Overflow);
            },
        };
        let sy = match bottom.add(top) {
            Some(s) => s,
            None => {
                return Err(SimError::Overflow);
            },
        };
        let cy = match sy.div(two) {
            Some(c) => c,
            None => {
                return Err(SimError::Overflow);
            },
        };
        proof {
            let csx = qadd(left@, right@);
            let csy = qadd(bottom@, top@);
            assert(csx.d > 0 && csy.d > 0) by (nonlinear_arith)
                requires
                    csx.d == left@.d * right@.d,
                    csy.d == bottom@.d * top@.d,
                    left@.d > 0,
                    right@.d > 0,
                    bottom@.d > 0,
                    top@.d > 0,
            ;
            lemma_qdiv_congruence(sx@, qint(2), csx, qint(2));
            lemma_qeq_trans_gen(cx@, qdiv(sx@, qint(2)), qdiv(csx, qint(2)));
            lemma_qdiv_congruence(sy@, qint(2), csy, qint(2));
            lemma_qeq_trans_gen(cy@, qdiv(sy@, qint(2)), qdiv(csy, qint(2)));
        }
        Ok(Rect { left, right, top, bottom, cx, cy })
    }

    pub fn left(&self) -> (r: Rat)
        ensures
            r@ == self@.left,
    {
        self.left
    }

    pub fn right(&self) -> (r: Rat)
        ensures
            r@ == self@.right,
    {
        self.right
    }

    pub fn top(&self) -> (r: Rat)
        ensures
            r@ == self@.top,
    {
        self.top
    }

    pub fn bottom(&self) -> (r: Rat)
        ensures
            r@ == self@.bottom,
    {
        self.bottom
    }
}

/// The body's horizontal coordinate lies outside the arena.
pub open spec fn out_x(b: BodyQ, rc: RectQ) -> bool {
    qlt(b.pos[0], rc.left) || qlt(rc.right, b.pos[0])
}

/// The body's vertical coordinate lies outside the arena.
pub open spec fn out_y(b: BodyQ, rc: RectQ) -> bool {
    qlt(rc.top, b.pos[1]) || qlt(b.pos[1], rc.bottom)
}

/// The velocity component carries the coordinate further away from the
/// arena center on that axis.
pub open spec fn outward(v: Q, x: Q, c: Q) -> bool {
    qlt(qzero(), qmul(v, qsub(x, c)))
}

/// The outward test is a sign test: the product is positive exactly when
/// velocity and offset from the center are both positive or both negative.
pub proof fn lemma_outward_sign(v: Q, x: Q, c: Q)
    by (nonlinear_arith)
    requires
        v.d > 0,
        x.d > 0,
        c.d > 0,
    ensures
        outward(v, x, c) == ((qlt(qzero(), v) && qlt(c, x)) || (qlt(v, qzero()) && qlt(x, c))),
{
}

/// The first axis, if any, on which the body lies outside the arena;
/// the horizontal axis is reported first.
pub fn in_bounds(particle: &Particle, bounds: &Rect) -> (r: Option<Dim>)
    requires
        particle.wf(),
        bounds.wf(),
    ensures
        (r == Some(Dim::X)) == out_x(particle@, bounds@),
        (r == Some(Dim::Y)) == (!out_x(particle@, bounds@) && out_y(particle@, bounds@)),
        (r is None) == (!out_x(particle@, bounds@) && !out_y(particle@, bounds@)),
{
    let px = particle.position().component(0);
    let py = particle.position().component(1);
    if px.lt(bounds.left) || bounds.right.lt(px) {
        Some(Dim::X)
    } else if bounds.top.lt(py) || py.lt(bounds.bottom) {
        Some(Dim::Y)
    } else {
        None
    }
}

/// Reflects the body on one axis: the velocity component on that axis is
/// negated exactly when it carries the body further outward relative to
/// the arena center; a body already heading inward keeps its velocity.
pub fn bounce(particle: &mut Particle, bounds: &Rect, dim: Dim)
    requires
        old(particle).wf(),
        bounds.wf(),
    ensures
        final(particle).wf(),
        final(particle)@.pos == old(particle)@.pos,
        final(particle)@.rad == old(particle)@.rad,
        final(particle)@.vel.len() == 2,
        dim == Dim::X ==> {
            &&& final(particle)@.vel[1] == old(particle)@.vel[1]
            &&& (outward(old(particle)@.vel[0], old(particle)@.pos[0], bounds@.cx)
                ==> final(particle)@.vel[0] == qneg(old(particle)@.vel[0]))
            &&& (!outward(old(particle)@.vel[0], old(particle)@.pos[0], bounds@.cx)
                ==> *final(particle) == *old(particle))
        },
        dim == Dim::Y ==> {
            &&& final(particle)@.vel[0] == old(particle)@.vel[0]
            &&& (outward(old(particle)@.vel[1], old(particle)@.pos[1], bounds@.cy)
                ==> final(particle)@.vel[1] == qneg(old(particle)@.vel[1]))
            &&& (!outward(old(particle)@.vel[1], old(particle)@.pos[1], bounds@.cy)
                ==> *final(particle) == *old(particle))
        },
{
    proof {
        lemma_body_view(particle);
    }
    let vx = particle.velocity.component(0);
    let vy = particle.velocity.component(1);
    match dim {
        Dim::X => {
            let x = particle.position.component(0);
            proof {
                lemma_outward_sign(vx@, x@, bounds@.cx);
            }
            if (Rat::zero().lt(vx) && bounds.cx.lt(x)) || (vx.lt(Rat::zero()) && x.lt(bounds.cx)) {
                particle.velocity = vec2(vx.neg(), vy);
                proof {
                    lemma_body_view(particle);
                }
            }
        },
        Dim::Y => {
            let y = particle.position.component(1);
            proof {
                lemma_outward_sign(vy@, y@, bounds@.cy);
            }
            if (Rat::zero().lt(vy) && bounds.cy.lt(y)) || (vy.lt(Rat::zero()) && y.lt(bounds.cy)) {
                particle.velocity = vec2(vx, vy.neg());
                proof {
                    lemma_body_view(particle);
                }
            }
        },
    }
}

/// The velocity after boundary reflection: on each axis independently, a
/// component is negated exactly when the coordinate lies outside the arena
/// and the component carries the body further outward.
pub open spec fn reflect_q(b: BodyQ, rc: RectQ) -> BodyQ {
    let vx = if out_x(b, rc) && outward(b.vel[0], b.pos[0], rc.cx) {
        qneg(b.vel[0])
    } else {
        b.vel[0]
    };
    let vy = if out_y(b, rc) && outward(b.vel[1], b.pos[1], rc.cy) {
        qneg(b.vel[1])
    } else {
        b.vel[1]
    };
    BodyQ { pos: b.pos, vel: seq![vx, vy], rad: b.rad }
}

/// Boundary reflection, both axes tested independently.
pub fn reflect(particle: &mut Particle, bounds: &Rect)
    requires
        old(particle).wf(),
        bounds.wf(),
    ensures
        final(particle).wf(),
        final(particle)@ == reflect_q(old(particle)@, bounds@),
{
    proof {
        lemma_body_view(particle);
    }
    let px = particle.position.component(0);
    let py = particle.position.component(1);
    if px.lt(bounds.left) || bounds.right.lt(px) {
        bounce(particle, bounds, Dim::X);
    }
    if bounds.top.lt(py) || py.lt(bounds.bottom) {
        bounce(particle, bounds, Dim::Y);
    }
    proof {
        assert(particle@.vel =~= reflect_q(old(particle)@, bounds@).vel);
        assert(particle@ == reflect_q(old(particle)@, bounds@));
    }
}

/// A velocity component clamped symmetrically to `[-m, m]`.
pub open spec fn clamp_q(v: Q, m: Q) -> Q {
    if qlt(m, v) {
        m
    } else if qlt(v, qneg(m)) {
        qneg(m)
    } else {
        v
    }
}

/// The clamped value lies in `[-m, m]` for a nonnegative bound `m`.
pub proof fn lemma_clamp_bounds(v: Q, m: Q)
    by (nonlinear_arith)
    requires
        v.d > 0,
        m.d > 0,
        qle(qzero(), m),
    ensures
        qle(qneg(m), clamp_q(v, m)),
        qle(clamp_q(v, m), m),
{
}

/// The state of one body after the first phase of a tick: the velocity is
/// perturbed by the noise vector (left unchanged if the exact sum does not
/// fit the machine), each component is clamped to the maximum speed, and
/// the clamped velocity is added to the position (again left unchanged if
/// the exact sum does not fit).
pub open spec fn phase1_q(b: BodyQ, noise: Seq<Q>, m: Q) -> BodyQ {
    let perturbed = match mv_add(b.vel, noise) {
        Option::Some(w) => w,
        Option::None => b.vel,
    };
    let clamped = Seq::new(perturbed.len(), |i: int| clamp_q(perturbed[i], m));
    let moved = match mv_add(b.pos, clamped) {
        Option::Some(p) => p,
        Option::None => b.pos,
    };
    BodyQ { pos: moved, vel: clamped, rad: b.rad }
}

/// One clamped component.
fn clamp_speed(v: Rat, m: Rat) -> (r: Rat)
    requires
        v.wf(),
        m.wf(),
        qle(qzero(), m@),
    ensures
        r.wf(),
        r@ == clamp_q(v@, m@),
{
    if m.lt(v) {
        m
    } else if v.lt(m.neg()) {
        m.neg()
    } else {
        v
    }
}

/// The first phase of a tick for one body: perturb the velocity by the
/// noise vector, clamp each component to `[-max_speed, max_speed]`, then
/// add the velocity to the position. After this phase every velocity
/// component is within the clamp, whatever the noise was.
pub fn perturb_and_integrate(particle: &mut Particle, noise: &VecNd<2>, max_speed: Rat)
    requires
        old(particle).wf(),
        noise.wf(),
        max_speed.wf(),
        qle(qzero(), max_speed@),
    ensures
        final(particle).wf(),
        final(particle)@ == phase1_q(old(particle)@, noise@, max_speed@),
        final(particle)@.rad == old(particle)@.rad,
        forall|i: int|
            0 <= i < 2 ==> qle(qneg(max_speed@), #[trigger] final(particle)@.vel[i]) && qle(
                final(particle)@.vel[i],
                max_speed@,
            ),
{
    proof {
        lemma_body_view(particle);
    }
    let perturbed: VecNd<2> = match particle.velocity.add(noise) {
        Ok(w) => w,
        Err(_) => particle.velocity.duplicate(),
    };
    let cvx = clamp_speed(perturbed.component(0), max_speed);
    let cvy = clamp_speed(perturbed.component(1), max_speed);
    let clamped = vec2(cvx, cvy);
    proof {
        let p1 = phase1_q(old(particle)@, noise@, max_speed@);
        assert(clamped@ =~= p1.vel);
        lemma_clamp_bounds(perturbed@[0], max_speed@);
        lemma_clamp_bounds(perturbed@[1], max_speed@);
    }
    let moved: VecNd<2> = match particle.position.add(&clamped) {
        Ok(p) => p,
        Err(_) => particle.position.duplicate(),
    };
    particle.velocity = clamped;
    particle.position = moved;
    proof {
        lemma_body_view(particle);
        assert(particle@ == phase1_q(old(particle)@, noise@, max_speed@));
    }
}

/// What one unordered pair contributes to the sweep, computed entirely
/// from the snapshot: the pair of resolved velocities when the snapshot
/// says the two bodies are in contact and both resolutions succeed;
/// nothing when the contact test cannot be computed, the bodies are not
/// in contact, their centers coincide, or a resolution leaves the machine
/// range. A skipped pair changes neither body.
pub open spec fn pair_resolution(a: BodyQ, b: BodyQ) -> Option<(Seq<Q>, Seq<Q>)> {
    if mcollides(a, b) != Option::Some(true) {
        Option::None
    } else {
        match (mass_of(a.rad), mass_of(b.rad)) {
            (Option::Some(ma), Option::Some(mb)) => if coincident(a.pos, b.pos) {
                Option::None
            } else {
                match (melastic(a.vel, b.vel, a.pos, b.pos, ma, mb), melastic(
                    b.vel,
                    a.vel,
                    b.pos,
                    a.pos,
                    mb,
                    ma,
                )) {
                    (Option::Some(w1), Option::Some(w2)) => Option::Some((w1, w2)),
                    _ => Option::None,
                }
            },
            _ => Option::None,
        }
    }
}

/// One pair of the sweep: on resolution, the first body's velocity is
/// written into the live state at once and the second body's resolved
/// state is recorded for the end of the sweep, overwriting any earlier
/// record for that body.
pub open spec fn sweep_pair(
    snap: Seq<BodyQ>,
    live: Seq<BodyQ>,
    pend: Seq<Option<BodyQ>>,
    i: int,
    j: int,
) -> (Seq<BodyQ>, Seq<Option<BodyQ>>) {
    match pair_resolution(snap[i], snap[j]) {
        Option::Some(ws) => (
            live.update(i, BodyQ { pos: snap[i].pos, vel: ws.0, rad: snap[i].rad }),
            pend.update(
                j,
                Option::Some(BodyQ { pos: snap[j].pos, vel: ws.1, rad: snap[j].rad }),
            ),
        ),
        Option::None => (live, pend),
    }
}

/// The pairs `(i, j)` for `j` from its current value up.
pub open spec fn sweep_inner(
    snap: Seq<BodyQ>,
    live: Seq<BodyQ>,
    pend: Seq<Option<BodyQ>>,
    i: int,
    j: int,
) -> (Seq<BodyQ>, Seq<Option<BodyQ>>)
    decreases snap.len() - j,
{
    if j < 0 || j >= snap.len() {
        (live, pend)
    } else {
        let st = sweep_pair(snap, live, pend, i, j);
        sweep_inner(snap, st.0, st.1, i, j + 1)
    }
}

/// The unordered pairs in the stable order: for each `i` in turn, the
/// pairs `(i, j)` with `j > i`.
pub open spec fn sweep_outer(
    snap: Seq<BodyQ>,
    live: Seq<BodyQ>,
    pend: Seq<Option<BodyQ>>,
    i: int,
) -> (Seq<BodyQ>, Seq<Option<BodyQ>>)
    decreases snap.len() - i,
{
    if i < 0 || i >= snap.len() {
        (live, pend)
    } else {
        let st = sweep_inner(snap, live, pend, i, i + 1);
        sweep_outer(snap, st.0, st.1, i + 1)
    }
}

/// The end-of-sweep writes: every body that was recorded as the second
/// member of a colliding pair takes its last recorded state.
pub open spec fn apply_pending(live: Seq<BodyQ>, pend: Seq<Option<BodyQ>>) -> Seq<BodyQ> {
    Seq::new(
        live.len(),
        |k: int|
            match pend[k] {
                Option::Some(b) => b,
                Option::None => live[k],
            },
    )
}

/// The whole collision phase: an immutable snapshot of all bodies is the
/// sole input of every contact test and resolution; first-member writes
/// land at once, second-member writes at the end of the sweep, the last
/// colliding pair of a body deciding.
pub open spec fn collisions_q(bodies: Seq<BodyQ>) -> Seq<BodyQ> {
    let st = sweep_outer(bodies, bodies, Seq::new(bodies.len(), |k: int| Option::<BodyQ>::None), 0);
    apply_pending(st.0, st.1)
}

/// One whole tick: perturb, clamp and integrate every body, reflect every
/// body at the walls, then detect and resolve contacts against the
/// snapshot of the state all bodies then have.
pub open spec fn tick_model(s: SimQ, noise: Seq<Seq<Q>>) -> Seq<BodyQ> {
    collisions_q(
        Seq::new(
            s.bodies.len(),
            |k: int| reflect_q(phase1_q(s.bodies[k], noise[k], s.max_speed), s.bounds),
        ),
    )
}

/// The body states a particle list denotes.
pub open spec fn views_of(ps: Seq<Particle>) -> Seq<BodyQ> {
    ps.map_values(|p: Particle| p@)
}

pub open spec fn opt_body(o: Option<Particle>) -> Option<BodyQ> {
    match o {
        Option::Some(p) => Option::Some(p@),
        Option::None => Option::None,
    }
}

/// The recorded states a pending list denotes.
pub open spec fn pend_views(ps: Seq<Option<Particle>>) -> Seq<Option<BodyQ>> {
    ps.map_values(|o: Option<Particle>| opt_body(o))
}

/// A triple of well-formed weights, each in the unit interval.
pub open spec fn unit_sample(s: (Rat, Rat, Rat)) -> bool {
    &&& s.0.wf() && s.1.wf() && s.2.wf()
    &&& qle(qzero(), s.0@) && qle(s.0@, qint(1))
    &&& qle(qzero(), s.1@) && qle(s.1@, qint(1))
    &&& qle(qzero(), s.2@) && qle(s.2@, qint(1))
}

/// What construction guarantees of every sampled body: at rest, inside
/// the arena with the vertical coordinate in the upper half, the radius
/// inside the configured range.
pub open spec fn sampled_body_ok(b: BodyQ, rc: RectQ, rmin: Q, rmax: Q) -> bool {
    &&& b.vel.len() == 2 && b.vel[0] == qzero() && b.vel[1] == qzero()
    &&& qle(rc.left, b.pos[0]) && qle(b.pos[0], rc.right)
    &&& qle(qdiv(qadd(rc.bottom, rc.top), qint(2)), b.pos[1]) && qle(b.pos[1], rc.top)
    &&& qle(rmin, b.rad) && qle(b.rad, rmax)
}

/// The mathematical state of the whole simulation.
pub ghost struct SimQ {
    pub bodies: Seq<BodyQ>,
    pub bounds: RectQ,
    pub max_speed: Q,
}

pub open spec fn sim_wf(s: SimQ) -> bool {
    &&& rect_wf(s.bounds)
    &&& qwf(s.max_speed) && qfits(s.max_speed)
    &&& qle(qzero(), s.max_speed)
    &&& forall|k: int| 0 <= k < s.bodies.len() ==> body_wf(#[trigger] s.bodies[k])
}

/// The simulation: an ordered population of bodies inside an arena, with
/// the configured speed clamp. The population is fixed at construction;
/// only [`Simulation::update`] mutates the bodies.
#[derive(Debug)]
pub struct Simulation {
    particles: Vec<Particle>,
    bounds: Rect,
    max_speed: Rat,
}

impl View for Simulation {
    type V = SimQ;

    closed spec fn view(&self) -> SimQ {
        SimQ {
            bodies: self.particles@.map_values(|p: Particle| p@),
            bounds: self.bounds@,
            max_speed: self.max_speed@,
        }
    }
}

impl Simulation {
    pub open spec fn wf(self) -> bool {
        sim_wf(self@)
    }

    /// A simulation over the given population.
    pub fn new(bounds: Rect, max_speed: Rat, particles: Vec<Particle>) -> (r: Simulation)
        requires
            bounds.wf(),
            max_speed.wf(),
            qle(qzero(), max_speed@),
            forall|k: int| 0 <= k < particles@.len() ==> (#[trigger] particles@[k]).wf(),
        ensures
            r.wf(),
            r@.bounds == bounds@,
            r@.max_speed == max_speed@,
            r@.bodies.len() == particles@.len(),
            forall|k: int| 0 <= k < particles@.len() ==> r@.bodies[k] == (#[trigger] particles@[k])@,
    {
        let r = Simulation { particles, bounds, max_speed };
        proof {
            assert(forall|k: int|
                0 <= k < r@.bodies.len() ==> #[trigger] r@.bodies[k] == r.particles@[k]@);
        }
        r
    }

    /// A simulation whose population is sampled from unit weights, one
    /// triple of weights per body: horizontal position, vertical position
    /// in the upper half of the arena, and radius in the configured range,
    /// each body starting at rest.
    pub fn populate(
        bounds: Rect,
        max_speed: Rat,
        r_min: Rat,
        r_max: Rat,
        samples: &Vec<(Rat, Rat, Rat)>,
    ) -> (r: Result<Simulation, SimError>)
        requires
            bounds.wf(),
            max_speed.wf(),
            qle(qzero(), max_speed@),
            r_min.wf(),
            r_max.wf(),
            qlt(qzero(), r_min@),
            qle(r_min@, r_max@),
            forall|k: int|
                0 <= k < samples@.len() ==> unit_sample(#[trigger] samples@[k]),
        ensures
            (r is Ok) == (forall|k: int|
                0 <= k < samples@.len() ==> msample(
                    bounds@.left,
                    bounds@.right,
                    bounds@.top,
                    bounds@.bottom,
                    r_min@,
                    r_max@,
                    (#[trigger] samples@[k]).0@,
                    samples@[k].1@,
                    samples@[k].2@,
                ) is Some),
            r matches Ok(s) ==> {
                &&& s.wf()
                &&& s@.bounds == bounds@
                &&& s@.max_speed == max_speed@
                &&& s@.bodies.len() == samples@.len()
                &&& forall|t: int|
                    0 <= t < s@.bodies.len() ==> sampled_body_ok(
                        #[trigger] s@.bodies[t],
                        bounds@,
                        r_min@,
                        r_max@,
                    )
            },
            r matches Err(e) ==> e == SimError::Overflow,
    {
        let n = samples.len();
        let mut particles: Vec<Particle> = Vec::new();
        let mut k: usize = 0;
        while k < n
            invariant
                bounds.wf(),
                r_min.wf(),
                r_max.wf(),
                qlt(qzero(), r_min@),
                qle(r_min@, r_max@),
                forall|t: int| 0 <= t < samples@.len() ==> unit_sample(#[trigger] samples@[t]),
                n == samples@.len(),
                0 <= k <= n,
                particles@.len() == k,
                forall|t: int|
                    0 <= t < k ==> msample(
                        bounds@.left,
                        bounds@.right,
                        bounds@.top,
                        bounds@.bottom,
                        r_min@,
                        r_max@,
                        (#[trigger] samples@[t]).0@,
                        samples@[t].1@,
                        samples@[t].2@,
                    ) is Some,
                forall|t: int|
                    0 <= t < k ==> (#[trigger] particles@[t]).wf() && sampled_body_ok(
                        particles@[t]@,
                        bounds@,
                        r_min@,
                        r_max@,
                    ),
            decreases n - k,
        {
            let s = samples[k];
            let p = match Particle::new_rand(
                bounds.left,
                bounds.right,
                bounds.top,
                bounds.bottom,
                r_min,
                r_max,
                s.0,
                s.1,
                s.2,
            ) {
                Ok(p) => p,
                Err(_) => {
                    return Err(SimError::Overflow);
                },
            };
            particles.push(p);
            k += 1;
        }
        let sim = Simulation::new(bounds, max_speed, particles);
        proof {
            assert forall|t: int| 0 <= t < sim@.bodies.len() implies sampled_body_ok(
                #[trigger] sim@.bodies[t],
                bounds@,
                r_min@,
                r_max@,
            ) by {
                assert(sim@.bodies[t] == particles@[t]@);
            }
        }
        Ok(sim)
    }

    /// How many bodies the simulation holds.
    pub fn len(&self) -> (r: usize)
        ensures
            r == self@.bodies.len(),
    {
        self.particles.len()
    }

    /// The read-only per-tick output for a rendering collaborator: for
    /// each body in order, its position coordinates and radius.
    pub fn render_states(&self) -> (r: Vec<(Rat, Rat, Rat)>)
        requires
            self.wf(),
        ensures
            r@.len() == self@.bodies.len(),
            forall|k: int|
                0 <= k < r@.len() ==> (#[trigger] r@[k]).0@ == self@.bodies[k].pos[0] && r@[k].1@
                    == self@.bodies[k].pos[1] && r@[k].2@ == self@.bodies[k].rad,
    {
        let n = self.particles.len();
        let mut out: Vec<(Rat, Rat, Rat)> = Vec::new();
        let mut k: usize = 0;
        while k < n
            invariant
                self.wf(),
                n == self.particles@.len(),
                0 <= k <= n,
                out@.len() == k,
                forall|t: int|
                    0 <= t < k ==> (#[trigger] out@[t]).0@ == self@.bodies[t].pos[0] && out@[t].1@
                        == self@.bodies[t].pos[1] && out@[t].2@ == self@.bodies[t].rad,
            decreases n - k,
        {
            proof {
                assert(self@.bodies[k as int] == self.particles@[k as int]@);
            }
            let p = &self.particles[k];
            let x = p.position().component(0);
            let y = p.position().component(1);
            out.push((x, y, p.radius()));
            k += 1;
        }
        out
    }

    /// One pair of the sweep, exactly as [`sweep_pair`] describes it:
    /// the contact test and both resolutions read only the snapshot; on
    /// resolution the first body is written at once and the second body's
    /// resolved state is recorded; otherwise nothing changes.
    fn resolve_pair(
        &mut self,
        snap: &Vec<Particle>,
        pend: &mut Vec<Option<Particle>>,
        i: usize,
        j: usize,
    )
        requires
            old(self).wf(),
            i < j,
            j < snap@.len(),
            snap@.len() == old(self).particles@.len(),
            old(pend)@.len() == old(self).particles@.len(),
            forall|t: int| 0 <= t < snap@.len() ==> (#[trigger] snap@[t]).wf(),
            forall|t: int|
                0 <= t < old(pend)@.len() ==> (#[trigger] old(pend)@[t] matches Some(p)
                    ==> p.wf()),
        ensures
            final(self).wf(),
            final(self).bounds == old(self).bounds,
            final(self).max_speed == old(self).max_speed,
            final(self).particles@.len() == old(self).particles@.len(),
            final(pend)@.len() == old(pend)@.len(),
            forall|t: int|
                0 <= t < final(pend)@.len() ==> (#[trigger] final(pend)@[t] matches Some(p)
                    ==> p.wf()),
            (views_of(final(self).particles@), pend_views(final(pend)@)) == sweep_pair(
                views_of(snap@),
                views_of(old(self).particles@),
                pend_views(old(pend)@),
                i as int,
                j as int,
            ),
    {
        let ghost snapq = views_of(snap@);
        let ghost live_before = views_of(old(self).particles@);
        let ghost pend_before = pend_views(old(pend)@);
        proof {
            assert forall|t: int| 0 <= t < snap@.len() implies body_wf(#[trigger] snapq[t]) by {
                assert(snapq[t] == snap@[t]@);
            }
            assert forall|t: int|
                0 <= t < old(self).particles@.len() implies body_wf(#[trigger] live_before[t]) by {
                assert(live_before[t] == old(self).particles@[t]@);
                assert(old(self)@.bodies[t] == old(self).particles@[t]@);
            }
            assert(snapq[i as int] == snap@[i as int]@);
            assert(snapq[j as int] == snap@[j as int]@);
        }
        let contact_test = snap[i].collides(&snap[j]);
        let hit = match contact_test {
            Ok(b) => b,
            Err(_) => false,
        };
        if hit {
            let mut a = snap[i].duplicate();
            let mut b = snap[j].duplicate();
            let resolved = a.smash(&mut b);
            match resolved {
                Ok(()) => {
                    self.particles[i] = a;
                    pend[j] = Some(b);
                    proof {
                        let ws = pair_resolution(snapq[i as int], snapq[j as int]);
                        assert(ws is Some);
                        assert(views_of(self.particles@) =~= live_before.update(
                            i as int,
                            BodyQ {
                                pos: snapq[i as int].pos,
                                vel: ws->Some_0.0,
                                rad: snapq[i as int].rad,
                            },
                        ));
                        assert(pend_views(pend@) =~= pend_before.update(
                            j as int,
                            Option::Some(
                                BodyQ {
                                    pos: snapq[j as int].pos,
                                    vel: ws->Some_0.1,
                                    rad: snapq[j as int].rad,
                                },
                            ),
                        ));
                        assert forall|t: int|
                            0 <= t < self.particles@.len() implies body_wf(
                            #[trigger] self@.bodies[t],
                        ) by {
                            assert(self@.bodies[t] == self.particles@[t]@);
                            if t != i as int {
                                assert(self.particles@[t] == old(self).particles@[t]);
                            }
                        }
                    }
                },
                Err(_) => {
                    proof {
                        assert(pair_resolution(snapq[i as int], snapq[j as int]) is None);
                    }
                },
            }
        } else {
            proof {
                assert(pair_resolution(snapq[i as int], snapq[j as int]) is None);
            }
        }
    }

    /// The end-of-sweep writes, exactly as [`apply_pending`] describes
    /// them: every recorded body replaces its live counterpart.
    fn apply_writes(&mut self, pend: Vec<Option<Particle>>)
        requires
            old(self).wf(),
            pend@.len() == old(self).particles@.len(),
            forall|t: int|
                0 <= t < pend@.len() ==> (#[trigger] pend@[t] matches Some(p) ==> p.wf()),
        ensures
            final(self).wf(),
            final(self).bounds == old(self).bounds,
            final(self).max_speed == old(self).max_speed,
            views_of(final(self).particles@) == apply_pending(
                views_of(old(self).particles@),
                pend_views(pend@),
            ),
    {
        let ghost live_final = views_of(old(self).particles@);
        let ghost pend_final = pend_views(pend@);
        let mut pend = pend;
        let n = self.particles.len();
        proof {
            assert(live_final.len() == n);
            assert(pend_final.len() == n);
            assert forall|t: int| 0 <= t < n implies #[trigger] views_of(self.particles@)[t]
                == live_final[t] by {
                assert(views_of(self.particles@)[t] == self.particles@[t]@);
            }
        }
        let mut k2: usize = n;
        while k2 > 0
            invariant
                n == self.particles@.len(),
                n == live_final.len(),
                n == pend_final.len(),
                self.bounds == old(self).bounds,
                self.max_speed == old(self).max_speed,
                self.wf(),
                0 <= k2 <= n,
                pend@.len() == k2,
                forall|t: int| 0 <= t < k2 ==> pend_views(pend@)[t] == pend_final[t],
                forall|t: int|
                    0 <= t < k2 ==> (#[trigger] pend@[t] matches Some(p) ==> p.wf()),
                forall|t: int|
                    0 <= t < k2 ==> #[trigger] views_of(self.particles@)[t] == live_final[t],
                forall|t: int|
                    k2 <= t < n ==> #[trigger] views_of(self.particles@)[t] == apply_pending(
                        live_final,
                        pend_final,
                    )[t],
            decreases k2,
        {
            k2 -= 1;
            proof {
                assert forall|t: int| 0 <= t < n implies body_wf(
                    #[trigger] self.particles@[t]@,
                ) by {
                    assert(self@.bodies[t] == self.particles@[t]@);
                }
            }
            let ghost pre_particles = self.particles@;
            let ghost pend_pre = pend@;
            let slot = pend.pop().unwrap();
            proof {
                assert(pend_views(pend_pre)[k2 as int] == pend_final[k2 as int]);
                assert(opt_body(slot) == pend_final[k2 as int]);
                assert forall|t: int| 0 <= t < k2 implies pend_views(pend@)[t]
                    == pend_final[t] by {
                    assert(pend@[t] == pend_pre[t]);
                    assert(pend_views(pend@)[t] == opt_body(pend@[t]));
                    assert(pend_views(pend_pre)[t] == opt_body(pend_pre[t]));
                }
                assert(apply_pending(live_final, pend_final)[k2 as int] == (match pend_final[
                    k2 as int] {
                    Option::Some(b) => b,
                    Option::None => live_final[k2 as int],
                }));
            }
            match slot {
                Some(p) => {
                    proof {
                        assert(pend_pre[k2 as int] matches Some(q) ==> q.wf());
                        assert(p.wf());
                    }
                    self.particles[k2] = p;
                },
                None => {},
            }
            proof {
                assert forall|t: int|
                    0 <= t < k2 implies #[trigger] views_of(self.particles@)[t]
                    == live_final[t] by {
                    assert(views_of(self.particles@)[t] == self.particles@[t]@);
                    assert(self.particles@[t] == pre_particles[t]);
                    assert(views_of(pre_particles)[t] == pre_particles[t]@);
                }
                assert forall|t: int|
                    k2 <= t < n implies #[trigger] views_of(self.particles@)[t] == apply_pending(
                    live_final,
                    pend_final,
                )[t] by {
                    assert(views_of(self.particles@)[t] == self.particles@[t]@);
                    if t != k2 as int {
                        assert(self.particles@[t] == pre_particles[t]);
                        assert(views_of(pre_particles)[t] == pre_particles[t]@);
                    }
                }
                assert forall|t: int| 0 <= t < n implies body_wf(#[trigger] self@.bodies[t]) by {
                    assert(self@.bodies[t] == self.particles@[t]@);
                    if t != k2 as int {
                        assert(self.particles@[t] == pre_particles[t]);
                    }
                }
            }
        }
        proof {
            assert(views_of(self.particles@) =~= apply_pending(live_final, pend_final));
        }
    }

    /// The collision phase of a tick: takes an immutable snapshot of all
    /// bodies, tests every unordered pair against the snapshot, resolves
    /// colliding pairs elastically, writes the first body of a pair at
    /// once and the second at the end of the sweep. A pair whose contact
    /// test or resolution cannot be computed is skipped for this tick and
    /// changes nothing.
    pub fn collisions(&mut self)
        requires
            old(self).wf(),
        ensures
            final(self).wf(),
            final(self)@.bounds == old(self)@.bounds,
            final(self)@.max_speed == old(self)@.max_speed,
            final(self)@.bodies == collisions_q(old(self)@.bodies),
    {
        let n = self.particles.len();
        let mut snap: Vec<Particle> = Vec::new();
        let mut k: usize = 0;
        while k < n
            invariant
                self == old(self),
                self.wf(),
                n == self.particles@.len(),
                0 <= k <= n,
                snap@.len() == k,
                forall|t: int|
                    0 <= t < k ==> (#[trigger] snap@[t])@ == self.particles@[t]@ && snap@[t].wf(),
            decreases n - k,
        {
            proof {
                assert(self@.bodies[k as int] == self.particles@[k as int]@);
            }
            snap.push(self.particles[k].duplicate());
            k += 1;
        }
        let ghost snapq: Seq<BodyQ> = views_of(snap@);
        proof {
            assert(snapq =~= old(self)@.bodies);
        }
        let mut pend: Vec<Option<Particle>> = Vec::new();
        k = 0;
        while k < n
            invariant
                0 <= k <= n,
                pend@.len() == k,
                forall|t: int| 0 <= t < k ==> #[trigger] pend@[t] is None,
            decreases n - k,
        {
            pend.push(None);
            k += 1;
        }
        let ghost pend0: Seq<Option<BodyQ>> = Seq::new(n as nat, |t: int| Option::<BodyQ>::None);
        let ghost goal = sweep_outer(snapq, snapq, pend0, 0);
        proof {
            assert(pend_views(pend@) =~= pend0);
            assert(views_of(self.particles@) =~= snapq);
        }
        let mut i: usize = 0;
        while i < n
            invariant
                n == self.particles@.len(),
                n == snap@.len(),
                n == pend@.len(),
                self.bounds == old(self).bounds,
                self.max_speed == old(self).max_speed,
                self.wf(),
                0 <= i <= n,
                snapq == views_of(snap@),
                forall|t: int| 0 <= t < n ==> (#[trigger] snap@[t]).wf(),
                forall|t: int|
                    0 <= t < n ==> (#[trigger] pend@[t] matches Some(p) ==> p.wf()),
                goal == sweep_outer(snapq, views_of(self.particles@), pend_views(pend@), i as int),
            decreases n - i,
        {
            let mut j: usize = i + 1;
            while j < n
                invariant
                    n == self.particles@.len(),
                    n == snap@.len(),
                    n == pend@.len(),
                    self.bounds == old(self).bounds,
                    self.max_speed == old(self).max_speed,
                    self.wf(),
                    0 <= i < n,
                    i + 1 <= j <= n,
                    snapq == views_of(snap@),
                    forall|t: int| 0 <= t < n ==> (#[trigger] snap@[t]).wf(),
                    forall|t: int|
                        0 <= t < n ==> (#[trigger] pend@[t] matches Some(p) ==> p.wf()),
                    goal == ({
                        let st = sweep_inner(
                            snapq,
                            views_of(self.particles@),
                            pend_views(pend@),
                            i as int,
                            j as int,
                        );
                        sweep_outer(snapq, st.0, st.1, i as int + 1)
                    }),
                decreases n - j,
            {
                let ghost live_before = views_of(self.particles@);
                let ghost pend_before = pend_views(pend@);
                self.resolve_pair(&snap, &mut pend, i, j);
                proof {
                    assert((views_of(self.particles@), pend_views(pend@)) == sweep_pair(
                        snapq,
                        live_before,
                        pend_before,
                        i as int,
                        j as int,
                    ));
                }
                j += 1;
            }
            i += 1;
        }
        proof {
            assert(goal == (views_of(self.particles@), pend_views(pend@)));
        }
        self.apply_writes(pend);
        proof {
            assert(pend0 =~= Seq::new(
                old(self)@.bodies.len(),
                |t: int| Option::<BodyQ>::None,
            ));
            assert(self@.bodies =~= views_of(self.particles@));
            assert(self@.bodies == collisions_q(old(self)@.bodies));
        }
    }

    /// One tick: perturb, clamp and integrate every body with its noise
    /// vector, reflect every body at the walls, then run the collision
    /// sweep on the snapshot of the resulting state.
    pub fn update(&mut self, noise: &Vec<VecNd<2>>)
        requires
            old(self).wf(),
            noise@.len() == old(self)@.bodies.len(),
            forall|k: int| 0 <= k < noise@.len() ==> (#[trigger] noise@[k]).wf(),
        ensures
            final(self).wf(),
            final(self)@.bounds == old(self)@.bounds,
            final(self)@.max_speed == old(self)@.max_speed,
            final(self)@.bodies == tick_model(
                old(self)@,
                noise@.map_values(|v: VecNd<2>| v@),
            ),
    {
        let n = self.particles.len();
        let ghost noiseq: Seq<Seq<Q>> = noise@.map_values(|v: VecNd<2>| v@);
        let mut k: usize = 0;
        while k < n
            invariant
                n == self.particles@.len(),
                n == noise@.len(),
                noiseq == noise@.map_values(|v: VecNd<2>| v@),
                forall|t: int| 0 <= t < n ==> (#[trigger] noise@[t]).wf(),
                self.bounds == old(self).bounds,
                self.max_speed == old(self).max_speed,
                old(self).wf(),
                self.wf(),
                0 <= k <= n,
                n == old(self).particles@.len(),
                forall|t: int|
                    k <= t < n ==> #[trigger] self.particles@[t] == old(self).particles@[t],
                forall|t: int|
                    0 <= t < k ==> #[trigger] self.particles@[t]@ == reflect_q(
                        phase1_q(old(self)@.bodies[t], noiseq[t], old(self)@.max_speed),
                        old(self)@.bounds,
                    ),
            decreases n - k,
        {
            proof {
                assert(old(self)@.bodies[k as int] == old(self).particles@[k as int]@);
                assert(self@.bodies[k as int] == self.particles@[k as int]@);
                assert(noiseq[k as int] == noise@[k as int]@);
                assert forall|t: int| 0 <= t < n implies body_wf(
                    #[trigger] self.particles@[t]@,
                ) by {
                    assert(self@.bodies[t] == self.particles@[t]@);
                }
            }
            let ghost pre_particles = self.particles@;
            let max_speed = self.max_speed;
            let p = &mut self.particles[k];
            perturb_and_integrate(p, &noise[k], max_speed);
            reflect(p, &self.bounds);
            proof {
                assert forall|t: int| 0 <= t < n implies body_wf(#[trigger] self@.bodies[t]) by {
                    assert(self@.bodies[t] == self.particles@[t]@);
                    if t != k as int {
                        assert(self.particles@[t] == pre_particles[t]);
                    }
                }
            }
            k += 1;
        }
        proof {
            assert(self@.bodies =~= Seq::new(
                old(self)@.bodies.len(),
                |t: int| reflect_q(
                    phase1_q(old(self)@.bodies[t], noiseq[t], old(self)@.max_speed),
                    old(self)@.bounds,
                ),
            ));
        }
        self.collisions();
    }
}

} // verus!
