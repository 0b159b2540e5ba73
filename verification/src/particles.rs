//! Circular bodies: construction, the contact test, and elastic collision
//! resolution.
//!
//! A body has a two-dimensional position and velocity and a positive
//! radius; its mass is the fixed quadratic law `radius^2 / 100`. Two bodies
//! are in contact when the distance of their centers is at most the sum of
//! their radii, tangential contact included; the test compares squared
//! distances, which is equivalent and stays inside exact rational
//! arithmetic. Contact of two bodies whose centers coincide cannot be
//! resolved and is reported as `DegenerateContact`.

use crate::errors::SimError;
use crate::rat::{
    lemma_le_iff_square_le, lemma_lerp_value_bounds, lemma_midpoint_bounds, lemma_qadd_congruence,
    lemma_qdiv_congruence, lemma_qeq_sign, lemma_qeq_trans_gen, lemma_qle_congruence,
    lemma_qlt_qle_trans, lemma_qmul_congruence, lemma_qneg_congruence, opt_q, qadd, qchk, qdiv,
    qeq, qfits, qint, qle, qlt, qmul, qneg, qsub, qwf, qzero, Q, Rat,
};
use crate::vecn::{
    lemma_vq_dot_congruence, lemma_vq_dot_den_pos, lemma_vq_dot_self_nonneg, lemma_vq_dot_self_pos,
    mv_dot, mv_scale, mv_sub, vec2, vq_dot, vq_sub, vq_wf, VecNd,
};
use vstd::prelude::*;

verus! {

/// The mathematical state of one body.
pub ghost struct BodyQ {
    pub pos: Seq<Q>,
    pub vel: Seq<Q>,
    pub rad: Q,
}

/// Well-formed body state: two-dimensional, storable components, positive
/// radius.
pub open spec fn body_wf(b: BodyQ) -> bool {
    &&& b.pos.len() == 2
    &&& b.vel.len() == 2
    &&& vq_wf(b.pos)
    &&& vq_wf(b.vel)
    &&& qwf(b.rad)
    &&& qfits(b.rad)
    &&& qlt(qzero(), b.rad)
}

/// The centers coincide componentwise.
pub open spec fn coincident(x1: Seq<Q>, x2: Seq<Q>) -> bool {
    forall|i: int| 0 <= i < x1.len() ==> qeq(#[trigger] x1[i], x2[i])
}

/// The two bodies touch or overlap: the squared center distance is at
/// most the squared sum of the radii (boundary inclusive). For nonnegative
/// quantities this says exactly that the distance is at most the sum of
/// the radii.
pub open spec fn contact(a: BodyQ, b: BodyQ) -> bool {
    qle(
        vq_dot(vq_sub(a.pos, b.pos), vq_sub(a.pos, b.pos)),
        qmul(qadd(a.rad, b.rad), qadd(a.rad, b.rad)),
    )
}

/// The mass law `radius^2 / 100`.
pub open spec fn body_mass(b: BodyQ) -> Q {
    qdiv(qmul(b.rad, b.rad), qint(100))
}

/// Machine mirror of the mass computation.
pub open spec fn mass_of(rad: Q) -> Option<Q> {
    match qchk(qmul(rad, rad)) {
        Option::Some(sq) => qchk(qdiv(sq, qint(100))),
        Option::None => Option::None,
    }
}

/// Machine mirror of the contact test.
pub open spec fn mcollides(a: BodyQ, b: BodyQ) -> Option<bool> {
    match mv_sub(a.pos, b.pos) {
        Option::Some(d) => match mv_dot(d, d) {
            Option::Some(s) => match qchk(qadd(a.rad, b.rad)) {
                Option::Some(rs) => match qchk(qmul(rs, rs)) {
                    Option::Some(sq) => Option::Some(qle(s, sq)),
                    Option::None => Option::None,
                },
                Option::None => Option::None,
            },
            Option::None => Option::None,
        },
        Option::None => Option::None,
    }
}

/// The post-collision velocity of body 1 in the standard two-body elastic
/// collision law:
/// `v1 - (2 m2 / (m1 + m2)) * (dot(v1 - v2, x1 - x2) / |x1 - x2|^2) * (x1 - x2)`.
pub open spec fn elastic_formula(
    v1: Seq<Q>,
    v2: Seq<Q>,
    x1: Seq<Q>,
    x2: Seq<Q>,
    m1: Q,
    m2: Q,
) -> Seq<Q> {
    let d = vq_sub(x1, x2);
    let coef = qmul(
        qdiv(qmul(qint(2), m2), qadd(m1, m2)),
        qdiv(vq_dot(vq_sub(v1, v2), d), vq_dot(d, d)),
    );
    Seq::new(v1.len(), |i: int| qsub(v1[i], qmul(coef, d[i])))
}

/// Machine mirror of the elastic resolution, step for step in the order
/// the code computes them; it reports nothing as soon as one reduced
/// intermediate leaves the machine range.
pub open spec fn melastic(
    v1: Seq<Q>,
    v2: Seq<Q>,
    x1: Seq<Q>,
    x2: Seq<Q>,
    m1: Q,
    m2: Q,
) -> Option<Seq<Q>> {
    match mv_sub(x1, x2) {
        Option::Some(d) => match mv_sub(v1, v2) {
            Option::Some(vd) => match mv_dot(vd, d) {
                Option::Some(k) => match mv_dot(d, d) {
                    Option::Some(s) => match qchk(qmul(qint(2), m2)) {
                        Option::Some(tm) => match qchk(qadd(m1, m2)) {
                            Option::Some(msum) => match qchk(qdiv(tm, msum)) {
                                Option::Some(afac) => match qchk(qdiv(k, s)) {
                                    Option::Some(bfac) => match qchk(qmul(afac, bfac)) {
                                        Option::Some(coef) => match mv_scale(coef, d) {
                                            Option::Some(cd) => mv_sub(v1, cd),
                                            Option::None => Option::None,
                                        },
                                        Option::None => Option::None,
                                    },
                                    Option::None => Option::None,
                                },
                                Option::None => Option::None,
                            },
                            Option::None => Option::None,
                        },
                        Option::None => Option::None,
                    },
                    Option::None => Option::None,
                },
                Option::None => Option::None,
            },
            Option::None => Option::None,
        },
        Option::None => Option::None,
    }
}

/// Machine mirror of the linear interpolation `lo + u * (hi - lo)`.
pub open spec fn mlerp(lo: Q, hi: Q, u: Q) -> Option<Q> {
    match qchk(qsub(hi, lo)) {
        Option::Some(d) => match qchk(qmul(u, d)) {
            Option::Some(p) => qchk(qadd(lo, p)),
            Option::None => Option::None,
        },
        Option::None => Option::None,
    }
}

/// Machine mirror of sampling a body: the horizontal coordinate
/// interpolated across the full width, the vertical coordinate across the
/// upper half, and the radius across the configured range.
pub open spec fn msample(
    left: Q,
    right: Q,
    top: Q,
    bottom: Q,
    rmin: Q,
    rmax: Q,
    ux: Q,
    uy: Q,
    ur: Q,
) -> Option<(Q, Q, Q)> {
    match mlerp(left, right, ux) {
        Option::Some(x) => match qchk(qadd(bottom, top)) {
            Option::Some(s) => match qchk(qdiv(s, qint(2))) {
                Option::Some(mid) => match mlerp(mid, top, uy) {
                    Option::Some(y) => match mlerp(rmin, rmax, ur) {
                        Option::Some(rad) => Option::Some((x, y, rad)),
                        Option::None => Option::None,
                    },
                    Option::None => Option::None,
                },
                Option::None => Option::None,
            },
            Option::None => Option::None,
        },
        Option::None => Option::None,
    }
}

/// Linear interpolation between two scalars with a weight in `[0, 1]`;
/// the result lies between the two.
fn lerp(lo: Rat, hi: Rat, u: Rat) -> (r: Option<Rat>)
    requires
        lo.wf(),
        hi.wf(),
        u.wf(),
        qle(lo@, hi@),
        qle(qzero(), u@),
        qle(u@, qint(1)),
    ensures
        opt_q(r) == mlerp(lo@, hi@, u@),
        r matches Some(s) ==> s.wf() && qle(lo@, s@) && qle(s@, hi@),
{
    let d = match hi.sub(lo) {
        Some(d) => d,
        None => {
            return None;
        },
    };
    let p = match u.mul(d) {
        Some(p) => p,
        None => {
            return None;
        },
    };
    let s = match lo.add(p) {
        Some(s) => s,
        None => {
            return None;
        },
    };
    proof {
        let cd = qsub(hi@, lo@);
        let cp = qmul(u@, cd);
        let cr = qadd(lo@, cp);
        lemma_lerp_value_bounds(lo@, hi@, u@);
        assert(cd.d > 0 && cp.d > 0) by (nonlinear_arith)
            requires
                cd.d == hi@.d * lo@.d,
                cp.d == u@.d * cd.d,
                hi@.d > 0,
                lo@.d > 0,
                u@.d > 0,
        ;
        assert(qmul(u@, d@).d > 0 && qadd(lo@, p@).d > 0) by (nonlinear_arith)
            requires
                qmul(u@, d@).d == u@.d * d@.d,
                qadd(lo@, p@).d == lo@.d * p@.d,
                u@.d > 0,
                d@.d > 0,
                lo@.d > 0,
                p@.d > 0,
        ;
        lemma_qmul_congruence(u@, d@, u@, cd);
        lemma_qeq_trans_gen(p@, qmul(u@, d@), cp);
        lemma_qadd_congruence(lo@, p@, lo@, cp);
        lemma_qeq_trans_gen(s@, qadd(lo@, p@), cr);
        lemma_qle_congruence(lo@, s@, lo@, cr);
        lemma_qle_congruence(s@, hi@, cr, hi@);
    }
    Some(s)
}

/// A circular body.
#[derive(Debug)]
pub struct Particle {
    pub(crate) position: VecNd<2>,
    pub(crate) velocity: VecNd<2>,
    pub(crate) radius: Rat,
}

impl View for Particle {
    type V = BodyQ;

    closed spec fn view(&self) -> BodyQ {
        BodyQ { pos: self.position@, vel: self.velocity@, rad: self.radius@ }
    }
}

/// The view of a body is the view of its fields.
pub(crate) proof fn lemma_body_view(p: &Particle)
    ensures
        p@.pos == p.position@,
        p@.vel == p.velocity@,
        p@.rad == p.radius@,
{
}

impl Particle {
    pub open spec fn wf(self) -> bool {
        body_wf(self@)
    }

    pub fn position(&self) -> (r: &VecNd<2>)
        ensures
            r@ == self@.pos,
    {
        &self.position
    }

    pub fn velocity(&self) -> (r: &VecNd<2>)
        ensures
            r@ == self@.vel,
    {
        &self.velocity
    }

    pub fn radius(&self) -> (r: Rat)
        ensures
            r@ == self@.rad,
    {
        self.radius
    }

    /// A fresh body with the same state.
    pub fn duplicate(&self) -> (r: Particle)
        requires
            self.wf(),
        ensures
            r.wf(),
            r@ == self@,
    {
        Particle {
            position: self.position.duplicate(),
            velocity: self.velocity.duplicate(),
            radius: self.radius,
        }
    }

    /// A body from position, velocity and radius; a radius that is not
    /// positive is rejected with `InvalidRadius`.
    pub fn new(position: VecNd<2>, velocity: VecNd<2>, radius: Rat) -> (r: Result<
        Particle,
        SimError,
    >)
        requires
            position.wf(),
            velocity.wf(),
            radius.wf(),
        ensures
            qlt(qzero(), radius@) ==> (r matches Ok(p) && p.wf() && p@.pos == position@ && p@.vel
                == velocity@ && p@.rad == radius@),
            !qlt(qzero(), radius@) ==> (r matches Err(e) && e == SimError::InvalidRadius),
    {
        if Rat::zero().lt(radius) {
            Ok(Particle { position, velocity, radius })
        } else {
            Err(SimError::InvalidRadius)
        }
    }

    /// A body sampled from unit weights: the position is interpolated
    /// inside the arena, restricted to the upper half on the vertical
    /// axis; the radius is interpolated inside the configured range; the
    /// velocity is zero. The weights come from whatever random source the
    /// caller uses, so a fixed seed replays a run exactly.
    pub fn new_rand(
        left: Rat,
        right: Rat,
        top: Rat,
        bottom: Rat,
        r_min: Rat,
        r_max: Rat,
        ux: Rat,
        uy: Rat,
        ur: Rat,
    ) -> (r: Result<Particle, SimError>)
        requires
            left.wf(),
            right.wf(),
            top.wf(),
            bottom.wf(),
            r_min.wf(),
            r_max.wf(),
            ux.wf(),
            uy.wf(),
            ur.wf(),
            qle(left@, right@),
            qle(bottom@, top@),
            qlt(qzero(), r_min@),
            qle(r_min@, r_max@),
            qle(qzero(), ux@) && qle(ux@, qint(1)),
            qle(qzero(), uy@) && qle(uy@, qint(1)),
            qle(qzero(), ur@) && qle(ur@, qint(1)),
        ensures
            (r is Ok) == (msample(
                left@,
                right@,
                top@,
                bottom@,
                r_min@,
                r_max@,
                ux@,
                uy@,
                ur@,
            ) is Some),
            r matches Ok(p) ==> {
                &&& p.wf()
                &&& p@.vel.len() == 2 && p@.vel[0] == qzero() && p@.vel[1] == qzero()
                &&& qle(left@, p@.pos[0]) && qle(p@.pos[0], right@)
                &&& qle(qdiv(qadd(bottom@, top@), qint(2)), p@.pos[1]) && qle(p@.pos[1], top@)
                &&& qle(r_min@, p@.rad) && qle(p@.rad, r_max@)
                &&& (msample(left@, right@, top@, bottom@, r_min@, r_max@, ux@, uy@, ur@) matches
                    Some(t) && p@.pos[0] == t.0 && p@.pos[1] == t.1 && p@.rad == t.2)
            },
            r matches Err(e) ==> e == SimError::Overflow,
    {
        let x = match lerp(left, right, ux) {
            Some(x) => x,
            None => {
                return Err(SimError::Overflow);
            },
        };
        let sum = match bottom.add(top) {
            Some(s) => s,
            None => {
                return Err(SimError::Overflow);
            },
        };
        let two = Rat::from_int(2);
        let mid = match sum.div(two) {
            Some(m) => m,
            None => {
                return Err(SimError::Overflow);
            },
        };
        proof {
            let csum = qadd(bottom@, top@);
            let cmid = qdiv(csum, qint(2));
            assert(csum.d > 0) by (nonlinear_arith)
                requires
                    csum.d == bottom@.d * top@.d,
                    bottom@.d > 0,
                    top@.d > 0,
            ;
            lemma_midpoint_bounds(bottom@, top@);
            lemma_qdiv_congruence(sum@, qint(2), csum, qint(2));
            lemma_qeq_trans_gen(mid@, qdiv(sum@, qint(2)), cmid);
            lemma_qle_congruence(mid@, top@, cmid, top@);
        }
        let y = match lerp(mid, top, uy) {
            Some(y) => y,
            None => {
                return Err(SimError::Overflow);
            },
        };
        let rad = match lerp(r_min, r_max, ur) {
            Some(rad) => rad,
            None => {
                return Err(SimError::Overflow);
            },
        };
        proof {
            lemma_qlt_qle_trans(qzero(), r_min@, rad@);
            let csum = qadd(bottom@, top@);
            let cmid = qdiv(csum, qint(2));
            lemma_qle_congruence(cmid, y@, mid@, y@);
        }
        let position = vec2(x, y);
        let velocity: VecNd<2> = VecNd::zero();
        let p = Particle { position, velocity, radius: rad };
        Ok(p)
    }

    /// The mass `radius^2 / 100`.
    pub fn mass(&self) -> (r: Option<Rat>)
        requires
            self.wf(),
        ensures
            opt_q(r) == mass_of(self@.rad),
            r matches Some(m) ==> m.wf() && qeq(m@, body_mass(self@)) && qlt(qzero(), m@),
    {
        let sq = match self.radius.mul(self.radius) {
            Some(sq) => sq,
            None => {
                return None;
            },
        };
        let hundred = Rat::from_int(100);
        let m = match sq.div(hundred) {
            Some(m) => m,
            None => {
                return None;
            },
        };
        proof {
            let rad = self@.rad;
            let cleansq = qmul(rad, rad);
            assert(cleansq.d > 0 && cleansq.n > 0) by (nonlinear_arith)
                requires
                    cleansq.n == rad.n * rad.n,
                    cleansq.d == rad.d * rad.d,
                    rad.d > 0,
                    0 * rad.d < rad.n * 1,
            ;
            lemma_qdiv_congruence(sq@, qint(100), cleansq, qint(100));
            lemma_qeq_trans_gen(m@, qdiv(sq@, qint(100)), qdiv(cleansq, qint(100)));
            let cm = qdiv(cleansq, qint(100));
            assert(cm.n > 0 && cm.d > 0) by (nonlinear_arith)
                requires
                    cm.n == cleansq.n * 1,
                    cm.d == cleansq.d * 100,
                    cleansq.n > 0,
                    cleansq.d > 0,
            ;
            lemma_qeq_sign(m@, cm);
            assert(qlt(qzero(), m@)) by (nonlinear_arith)
                requires
                    m@.n > 0,
                    m@.d > 0,
            ;
        }
        Some(m)
    }

    /// The contact test: `true` exactly when the distance of the centers
    /// is at most the sum of the radii, tangential contact included.
    pub fn collides(&self, other: &Particle) -> (r: Result<bool, SimError>)
        requires
            self.wf(),
            other.wf(),
        ensures
            (r is Ok) == (mcollides(self@, other@) is Some),
            r matches Ok(b) ==> b == mcollides(self@, other@)->Some_0 && b == contact(
                self@,
                other@,
            ),
            r matches Err(e) ==> e == SimError::Overflow,
    {
        let d = match self.position.sub(&other.position) {
            Ok(d) => d,
            Err(_) => {
                return Err(SimError::Overflow);
            },
        };
        let s = match d.dot(&d) {
            Ok(s) => s,
            Err(_) => {
                return Err(SimError::Overflow);
            },
        };
        let rs = match self.radius.add(other.radius) {
            Some(rs) => rs,
            None => {
                return Err(SimError::Overflow);
            },
        };
        let sq = match rs.mul(rs) {
            Some(sq) => sq,
            None => {
                return Err(SimError::Overflow);
            },
        };
        let r = s.le(sq);
        proof {
            let cd = vq_sub(self@.pos, other@.pos);
            assert(forall|i: int| 0 <= i < 2 ==> (#[trigger] cd[i]).d > 0) by {
                assert forall|i: int| 0 <= i < 2 implies (#[trigger] cd[i]).d > 0 by {
                    assert(cd[i].d == self@.pos[i].d * other@.pos[i].d);
                    assert(self@.pos[i].d * other@.pos[i].d > 0) by (nonlinear_arith)
                        requires
                            self@.pos[i].d > 0,
                            other@.pos[i].d > 0,
                    ;
                }
            }
            lemma_vq_dot_congruence(d@, d@, cd, cd);
            lemma_vq_dot_den_pos(cd, cd);
            lemma_vq_dot_den_pos(d@, d@);
            lemma_qeq_trans_gen(s@, vq_dot(d@, d@), vq_dot(cd, cd));
            let crs = qadd(self@.rad, other@.rad);
            assert(crs.d > 0) by (nonlinear_arith)
                requires
                    crs.d == self@.rad.d * other@.rad.d,
                    self@.rad.d > 0,
                    other@.rad.d > 0,
            ;
            lemma_qmul_congruence(rs@, rs@, crs, crs);
            assert(qmul(crs, crs).d > 0 && qmul(rs@, rs@).d > 0) by (nonlinear_arith)
                requires
                    qmul(crs, crs).d == crs.d * crs.d,
                    qmul(rs@, rs@).d == rs@.d * rs@.d,
                    crs.d > 0,
                    rs@.d > 0,
            ;
            lemma_qeq_trans_gen(sq@, qmul(rs@, rs@), qmul(crs, crs));
            lemma_qle_congruence(s@, sq@, vq_dot(cd, cd), qmul(crs, crs));
        }
        Ok(r)
    }
}

/// Positive denominators pass through an exact componentwise difference.
proof fn lemma_vq_sub_wf(a: Seq<Q>, b: Seq<Q>)
    requires
        a.len() == b.len(),
        forall|i: int| 0 <= i < a.len() ==> qwf(#[trigger] a[i]),
        forall|i: int| 0 <= i < b.len() ==> qwf(#[trigger] b[i]),
    ensures
        forall|i: int| 0 <= i < a.len() ==> qwf(#[trigger] vq_sub(a, b)[i]),
{
    assert forall|i: int| 0 <= i < a.len() implies qwf(#[trigger] vq_sub(a, b)[i]) by {
        assert(vq_sub(a, b)[i].d == a[i].d * b[i].d);
        assert(a[i].d * b[i].d > 0) by (nonlinear_arith)
            requires
                a[i].d > 0,
                b[i].d > 0,
        ;
    }
}

/// The post-collision velocity of body 1, by the standard elastic law.
///
/// Coinciding centers are rejected with `DegenerateContact`; otherwise the
/// result is the reduced exact value of the law, or `Overflow` exactly
/// when one reduced intermediate of the mirrored computation leaves the
/// machine range.
pub fn elastic_collision<const N: usize>(
    v1: &VecNd<N>,
    v2: &VecNd<N>,
    x1: &VecNd<N>,
    x2: &VecNd<N>,
    m1: Rat,
    m2: Rat,
) -> (r: Result<VecNd<N>, SimError>)
    requires
        v1.wf(),
        v2.wf(),
        x1.wf(),
        x2.wf(),
        m1.wf(),
        m2.wf(),
        qlt(qzero(), m1@),
        qlt(qzero(), m2@),
    ensures
        coincident(x1@, x2@) <==> (r matches Err(e) && e == SimError::DegenerateContact),
        !coincident(x1@, x2@) ==> ((r is Ok) == (melastic(v1@, v2@, x1@, x2@, m1@, m2@) is Some)),
        r matches Ok(w) ==> w.wf() && Option::Some(w@) == melastic(v1@, v2@, x1@, x2@, m1@, m2@)
            && (forall|i: int|
            0 <= i < N ==> qeq(
                #[trigger] w@[i],
                elastic_formula(v1@, v2@, x1@, x2@, m1@, m2@)[i],
            )),
        r matches Err(e) ==> e == SimError::DegenerateContact || e == SimError::Overflow,
{
    let mut same = true;
    let mut i: usize = 0;
    while i < N
        invariant
            x1.wf(),
            x2.wf(),
            0 <= i <= N,
            same ==> forall|k: int| 0 <= k < i ==> qeq(#[trigger] x1@[k], x2@[k]),
            !same ==> exists|k: int| 0 <= k < i && !qeq(#[trigger] x1@[k], x2@[k]),
        decreases N - i,
    {
        if !x1.component(i).eq_val(x2.component(i)) {
            same = false;
        }
        i += 1;
    }
    if same {
        return Err(SimError::DegenerateContact);
    }
    let d = match x1.sub(x2) {
        Ok(v) => v,
        Err(_) => {
            return Err(SimError::Overflow);
        },
    };
    let vd = match v1.sub(v2) {
        Ok(v) => v,
        Err(_) => {
            return Err(SimError::Overflow);
        },
    };
    let k = match vd.dot(&d) {
        Ok(v) => v,
        Err(_) => {
            return Err(SimError::Overflow);
        },
    };
    let s = match d.dot(&d) {
        Ok(v) => v,
        Err(_) => {
            return Err(SimError::Overflow);
        },
    };
    let ghost cd = vq_sub(x1@, x2@);
    let ghost cvd = vq_sub(v1@, v2@);
    proof {
        lemma_vq_sub_wf(x1@, x2@);
        lemma_vq_sub_wf(v1@, v2@);
        let j = choose|j: int| 0 <= j < N && !qeq(#[trigger] x1@[j], x2@[j]);
        assert(cd[j].n == x1@[j].n * x2@[j].d + (-x2@[j].n) * x1@[j].d);
        assert(cd[j].n != 0) by (nonlinear_arith)
            requires
                cd[j].n == x1@[j].n * x2@[j].d + (-x2@[j].n) * x1@[j].d,
                x1@[j].n * x2@[j].d != x2@[j].n * x1@[j].d,
        ;
        lemma_vq_dot_self_pos(cd);
        lemma_vq_dot_den_pos(d@, d@);
        lemma_vq_dot_den_pos(vd@, d@);
        lemma_vq_dot_den_pos(cvd, cd);
        lemma_vq_dot_congruence(d@, d@, cd, cd);
        lemma_vq_dot_congruence(vd@, d@, cvd, cd);
        lemma_qeq_trans_gen(s@, vq_dot(d@, d@), vq_dot(cd, cd));
        lemma_qeq_trans_gen(k@, vq_dot(vd@, d@), vq_dot(cvd, cd));
        lemma_qeq_sign(s@, vq_dot(cd, cd));
    }
    let two = Rat::from_int(2);
    let tm = match two.mul(m2) {
        Some(v) => v,
        None => {
            return Err(SimError::Overflow);
        },
    };
    let msum = match m1.add(m2) {
        Some(v) => v,
        None => {
            return Err(SimError::Overflow);
        },
    };
    let ghost ctm = qmul(qint(2), m2@);
    let ghost cmsum = qadd(m1@, m2@);
    proof {
        assert(cmsum.n > 0 && cmsum.d > 0 && ctm.d > 0) by (nonlinear_arith)
            requires
                cmsum.n == m1@.n * m2@.d + m2@.n * m1@.d,
                cmsum.d == m1@.d * m2@.d,
                ctm.d == 1 * m2@.d,
                m1@.d > 0,
                m2@.d > 0,
                0 * m1@.d < m1@.n * 1,
                0 * m2@.d < m2@.n * 1,
        ;
        lemma_qeq_sign(msum@, cmsum);
    }
    let afac = match tm.div(msum) {
        Some(v) => v,
        None => {
            return Err(SimError::Overflow);
        },
    };
    let bfac = match k.div(s) {
        Some(v) => v,
        None => {
            return Err(SimError::Overflow);
        },
    };
    let coef = match afac.mul(bfac) {
        Some(v) => v,
        None => {
            return Err(SimError::Overflow);
        },
    };
    let cdvec = match d.scale(coef) {
        Ok(v) => v,
        Err(_) => {
            return Err(SimError::Overflow);
        },
    };
    let w = match v1.sub(&cdvec) {
        Ok(v) => v,
        Err(_) => {
            return Err(SimError::Overflow);
        },
    };
    proof {
        let cafac = qdiv(ctm, cmsum);
        let cbfac = qdiv(vq_dot(cvd, cd), vq_dot(cd, cd));
        let ccoef = qmul(cafac, cbfac);
        lemma_qdiv_congruence(tm@, msum@, ctm, cmsum);
        lemma_qeq_trans_gen(afac@, qdiv(tm@, msum@), cafac);
        lemma_qdiv_congruence(k@, s@, vq_dot(cvd, cd), vq_dot(cd, cd));
        lemma_qeq_trans_gen(bfac@, qdiv(k@, s@), cbfac);
        assert(cafac.d > 0 && cbfac.d > 0) by (nonlinear_arith)
            requires
                cafac.d == ctm.d * qinv_den(cmsum),
                cbfac.d == vq_dot(cvd, cd).d * qinv_den(vq_dot(cd, cd)),
                qinv_den(cmsum) == cmsum.n,
                qinv_den(vq_dot(cd, cd)) == vq_dot(cd, cd).n,
                ctm.d > 0,
                cmsum.n > 0,
                vq_dot(cvd, cd).d > 0,
                vq_dot(cd, cd).n > 0,
        ;
        lemma_qmul_congruence(afac@, bfac@, cafac, cbfac);
        assert(qmul(afac@, bfac@).d > 0) by (nonlinear_arith)
            requires
                qmul(afac@, bfac@).d == afac@.d * bfac@.d,
                afac@.d > 0,
                bfac@.d > 0,
        ;
        lemma_qeq_trans_gen(coef@, qmul(afac@, bfac@), ccoef);
        assert(ccoef.d > 0) by (nonlinear_arith)
            requires
                ccoef.d == cafac.d * cbfac.d,
                cafac.d > 0,
                cbfac.d > 0,
        ;
        assert forall|i: int| 0 <= i < N implies qeq(
            #[trigger] w@[i],
            elastic_formula(v1@, v2@, x1@, x2@, m1@, m2@)[i],
        ) by {
            assert(qmul(ccoef, cd[i]).d > 0) by (nonlinear_arith)
                requires
                    qmul(ccoef, cd[i]).d == ccoef.d * cd[i].d,
                    ccoef.d > 0,
                    cd[i].d > 0,
            ;
            lemma_qmul_congruence(coef@, d@[i], ccoef, cd[i]);
            assert(qmul(coef@, d@[i]).d > 0 && qsub(v1@[i], cdvec@[i]).d > 0) by (nonlinear_arith)
                requires
                    qmul(coef@, d@[i]).d == coef@.d * d@[i].d,
                    qsub(v1@[i], cdvec@[i]).d == v1@[i].d * cdvec@[i].d,
                    coef@.d > 0,
                    d@[i].d > 0,
                    v1@[i].d > 0,
                    cdvec@[i].d > 0,
            ;
            lemma_qeq_trans_gen(cdvec@[i], qmul(coef@, d@[i]), qmul(ccoef, cd[i]));
            lemma_qneg_congruence(cdvec@[i], qmul(ccoef, cd[i]));
            lemma_qadd_congruence(v1@[i], qneg(cdvec@[i]), v1@[i], qneg(qmul(ccoef, cd[i])));
            lemma_qeq_trans_gen(w@[i], qsub(v1@[i], cdvec@[i]), qsub(v1@[i], qmul(ccoef, cd[i])));
            assert(elastic_formula(v1@, v2@, x1@, x2@, m1@, m2@)[i] == qsub(
                v1@[i],
                qmul(ccoef, cd[i]),
            ));
        }
    }
    Ok(w)
}

/// The denominator that taking a reciprocal produces.
pub open spec fn qinv_den(b: Q) -> int {
    if b.n >= 0 {
        b.n
    } else {
        -b.n
    }
}

/// The elastic law only depends on the rationals the masses denote, and
/// its components are well-formed fractions.
pub proof fn lemma_elastic_formula_mass_congruence(
    v1: Seq<Q>,
    v2: Seq<Q>,
    x1: Seq<Q>,
    x2: Seq<Q>,
    m1: Q,
    m2: Q,
    m1c: Q,
    m2c: Q,
)
    requires
        v1.len() == v2.len(),
        v1.len() == x1.len(),
        v1.len() == x2.len(),
        forall|i: int| 0 <= i < v1.len() ==> qwf(#[trigger] v1[i]),
        forall|i: int| 0 <= i < v2.len() ==> qwf(#[trigger] v2[i]),
        forall|i: int| 0 <= i < x1.len() ==> qwf(#[trigger] x1[i]),
        forall|i: int| 0 <= i < x2.len() ==> qwf(#[trigger] x2[i]),
        m1.d > 0,
        m2.d > 0,
        m1c.d > 0,
        m2c.d > 0,
        qeq(m1, m1c),
        qeq(m2, m2c),
        m1.n > 0,
        m2.n > 0,
        vq_dot(vq_sub(x1, x2), vq_sub(x1, x2)).n != 0,
    ensures
        forall|i: int|
            0 <= i < v1.len() ==> qeq(
                #[trigger] elastic_formula(v1, v2, x1, x2, m1, m2)[i],
                elastic_formula(v1, v2, x1, x2, m1c, m2c)[i],
            ),
        forall|i: int|
            0 <= i < v1.len() ==> (#[trigger] elastic_formula(v1, v2, x1, x2, m1, m2)[i]).d > 0
                && elastic_formula(v1, v2, x1, x2, m1c, m2c)[i].d > 0,
{
    let cd = vq_sub(x1, x2);
    let cvd = vq_sub(v1, v2);
    lemma_vq_sub_wf(x1, x2);
    lemma_vq_sub_wf(v1, v2);
    lemma_vq_dot_den_pos(cvd, cd);
    lemma_vq_dot_den_pos(cd, cd);
    let k = vq_dot(cvd, cd);
    let s = vq_dot(cd, cd);
    let bfac = qdiv(k, s);
    lemma_qeq_sign(m1, m1c);
    lemma_qeq_sign(m2, m2c);
    let tm = qmul(qint(2), m2);
    let tmc = qmul(qint(2), m2c);
    lemma_qmul_congruence(qint(2), m2, qint(2), m2c);
    let ms = qadd(m1, m2);
    let msc = qadd(m1c, m2c);
    lemma_qadd_congruence(m1, m2, m1c, m2c);
    assert(ms.d > 0 && msc.d > 0 && tm.d > 0 && tmc.d > 0 && ms.n > 0) by (nonlinear_arith)
        requires
            ms.d == m1.d * m2.d,
            msc.d == m1c.d * m2c.d,
            tm.d == 1 * m2.d,
            tmc.d == 1 * m2c.d,
            ms.n == m1.n * m2.d + m2.n * m1.d,
            m1.d > 0,
            m2.d > 0,
            m1c.d > 0,
            m2c.d > 0,
            m1.n > 0,
            m2.n > 0,
    ;
    lemma_qeq_sign(ms, msc);
    lemma_qdiv_congruence(tm, ms, tmc, msc);
    let af = qdiv(tm, ms);
    let afc = qdiv(tmc, msc);
    assert(af.d > 0 && afc.d > 0 && bfac.d > 0) by (nonlinear_arith)
        requires
            af.d == tm.d * qinv_den(ms),
            afc.d == tmc.d * qinv_den(msc),
            bfac.d == k.d * qinv_den(s),
            qinv_den(ms) == ms.n,
            qinv_den(msc) > 0,
            qinv_den(s) > 0,
            tm.d > 0,
            tmc.d > 0,
            ms.n > 0,
            k.d > 0,
    ;
    lemma_qmul_congruence(af, bfac, afc, bfac);
    let c1 = qmul(af, bfac);
    let c2 = qmul(afc, bfac);
    assert(c1.d > 0 && c2.d > 0) by (nonlinear_arith)
        requires
            c1.d == af.d * bfac.d,
            c2.d == afc.d * bfac.d,
            af.d > 0,
            afc.d > 0,
            bfac.d > 0,
    ;
    assert forall|i: int| 0 <= i < v1.len() implies qeq(
        #[trigger] elastic_formula(v1, v2, x1, x2, m1, m2)[i],
        elastic_formula(v1, v2, x1, x2, m1c, m2c)[i],
    ) && elastic_formula(v1, v2, x1, x2, m1, m2)[i].d > 0 && elastic_formula(
        v1,
        v2,
        x1,
        x2,
        m1c,
        m2c,
    )[i].d > 0 by {
        lemma_qmul_congruence(c1, cd[i], c2, cd[i]);
        assert(qmul(c1, cd[i]).d > 0 && qmul(c2, cd[i]).d > 0 && qsub(v1[i], qmul(c1, cd[i])).d > 0
            && qsub(v1[i], qmul(c2, cd[i])).d > 0) by (nonlinear_arith)
            requires
                qmul(c1, cd[i]).d == c1.d * cd[i].d,
                qmul(c2, cd[i]).d == c2.d * cd[i].d,
                qsub(v1[i], qmul(c1, cd[i])).d == v1[i].d * qmul(c1, cd[i]).d,
                qsub(v1[i], qmul(c2, cd[i])).d == v1[i].d * qmul(c2, cd[i]).d,
                c1.d > 0,
                c2.d > 0,
                cd[i].d > 0,
                v1[i].d > 0,
        ;
        lemma_qneg_congruence(qmul(c1, cd[i]), qmul(c2, cd[i]));
        lemma_qadd_congruence(v1[i], qneg(qmul(c1, cd[i])), v1[i], qneg(qmul(c2, cd[i])));
        assert(elastic_formula(v1, v2, x1, x2, m1, m2)[i] == qsub(v1[i], qmul(c1, cd[i])));
        assert(elastic_formula(v1, v2, x1, x2, m1c, m2c)[i] == qsub(v1[i], qmul(c2, cd[i])));
    }
}

impl Particle {
    /// Resolves one contact of two bodies: both velocities are replaced by
    /// the elastic law applied from either side, computed entirely from the
    /// state on entry; on any error both bodies are left unchanged.
    pub fn smash(&mut self, other: &mut Particle) -> (r: Result<(), SimError>)
        requires
            old(self).wf(),
            old(other).wf(),
        ensures
            final(self).wf(),
            final(other).wf(),
            final(self)@.pos == old(self)@.pos && final(self)@.rad == old(self)@.rad,
            final(other)@.pos == old(other)@.pos && final(other)@.rad == old(other)@.rad,
            r matches Err(_) ==> *final(self) == *old(self) && *final(other) == *old(other),
            r matches Err(e) ==> e == SimError::Overflow || e == SimError::DegenerateContact,
            (mass_of(old(self)@.rad) is None || mass_of(old(other)@.rad) is None) ==> (r matches
                Err(e) &&
            e == SimError::Overflow),
            mass_of(old(self)@.rad) is Some && mass_of(old(other)@.rad) is Some ==> (coincident(
                old(self)@.pos,
                old(other)@.pos,
            ) <==> (r matches Err(e) && e == SimError::DegenerateContact)),
            r is Ok <==> (mass_of(old(self)@.rad) is Some && mass_of(old(other)@.rad) is Some
                && !coincident(old(self)@.pos, old(other)@.pos) && melastic(
                old(self)@.vel,
                old(other)@.vel,
                old(self)@.pos,
                old(other)@.pos,
                mass_of(old(self)@.rad)->Some_0,
                mass_of(old(other)@.rad)->Some_0,
            ) is Some && melastic(
                old(other)@.vel,
                old(self)@.vel,
                old(other)@.pos,
                old(self)@.pos,
                mass_of(old(other)@.rad)->Some_0,
                mass_of(old(self)@.rad)->Some_0,
            ) is Some),
            r is Ok ==> final(self)@.vel == melastic(
                old(self)@.vel,
                old(other)@.vel,
                old(self)@.pos,
                old(other)@.pos,
                mass_of(old(self)@.rad)->Some_0,
                mass_of(old(other)@.rad)->Some_0,
            )->Some_0,
            r is Ok ==> final(other)@.vel == melastic(
                old(other)@.vel,
                old(self)@.vel,
                old(other)@.pos,
                old(self)@.pos,
                mass_of(old(other)@.rad)->Some_0,
                mass_of(old(self)@.rad)->Some_0,
            )->Some_0,
            r is Ok ==> (forall|i: int|
                0 <= i < 2 ==> qeq(
                    #[trigger] final(self)@.vel[i],
                    elastic_formula(
                        old(self)@.vel,
                        old(other)@.vel,
                        old(self)@.pos,
                        old(other)@.pos,
                        body_mass(old(self)@),
                        body_mass(old(other)@),
                    )[i],
                )),
            r is Ok ==> (forall|i: int|
                0 <= i < 2 ==> qeq(
                    #[trigger] final(other)@.vel[i],
                    elastic_formula(
                        old(other)@.vel,
                        old(self)@.vel,
                        old(other)@.pos,
                        old(self)@.pos,
                        body_mass(old(other)@),
                        body_mass(old(self)@),
                    )[i],
                )),
    {
        let m1 = match self.mass() {
            Some(m) => m,
            None => {
                return Err(SimError::Overflow);
            },
        };
        let m2 = match other.mass() {
            Some(m) => m,
            None => {
                return Err(SimError::Overflow);
            },
        };
        let w1 = match elastic_collision(
            &self.velocity,
            &other.velocity,
            &self.position,
            &other.position,
            m1,
            m2,
        ) {
            Ok(w) => w,
            Err(e) => {
                return Err(e);
            },
        };
        proof {
            assert(coincident(old(other)@.pos, old(self)@.pos) == coincident(
                old(self)@.pos,
                old(other)@.pos,
            )) by {
                if coincident(old(self)@.pos, old(other)@.pos) {
                    assert forall|i: int| 0 <= i < 2 implies qeq(
                        #[trigger] old(other)@.pos[i],
                        old(self)@.pos[i],
                    ) by {
                        assert(qeq(old(self)@.pos[i], old(other)@.pos[i]));
                    }
                }
                if coincident(old(other)@.pos, old(self)@.pos) {
                    assert forall|i: int| 0 <= i < 2 implies qeq(
                        #[trigger] old(self)@.pos[i],
                        old(other)@.pos[i],
                    ) by {
                        assert(qeq(old(other)@.pos[i], old(self)@.pos[i]));
                    }
                }
            }
        }
        let w2 = match elastic_collision(
            &other.velocity,
            &self.velocity,
            &other.position,
            &self.position,
            m2,
            m1,
        ) {
            Ok(w) => w,
            Err(e) => {
                return Err(e);
            },
        };
        proof {
            let p1 = old(self)@.pos;
            let p2 = old(other)@.pos;
            let cd = vq_sub(p1, p2);
            let cdr = vq_sub(p2, p1);
            lemma_vq_sub_wf(p1, p2);
            lemma_vq_sub_wf(p2, p1);
            let j = choose|j: int| 0 <= j < 2 && !qeq(#[trigger] p1[j], p2[j]);
            assert(cd[j].n != 0 && cdr[j].n != 0) by (nonlinear_arith)
                requires
                    cd[j].n == p1[j].n * p2[j].d + (-p2[j].n) * p1[j].d,
                    cdr[j].n == p2[j].n * p1[j].d + (-p1[j].n) * p2[j].d,
                    p1[j].n * p2[j].d != p2[j].n * p1[j].d,
            ;
            lemma_vq_dot_self_pos(cd);
            lemma_vq_dot_self_pos(cdr);
            let bm1 = body_mass(old(self)@);
            let bm2 = body_mass(old(other)@);
            let r1 = old(self)@.rad;
            let r2 = old(other)@.rad;
            assert(bm1.d > 0 && bm2.d > 0) by (nonlinear_arith)
                requires
                    bm1.d == (r1.d * r1.d) * 100,
                    bm2.d == (r2.d * r2.d) * 100,
                    r1.d > 0,
                    r2.d > 0,
            ;
            lemma_elastic_formula_mass_congruence(
                old(self)@.vel,
                old(other)@.vel,
                old(self)@.pos,
                old(other)@.pos,
                m1@,
                m2@,
                body_mass(old(self)@),
                body_mass(old(other)@),
            );
            lemma_elastic_formula_mass_congruence(
                old(other)@.vel,
                old(self)@.vel,
                old(other)@.pos,
                old(self)@.pos,
                m2@,
                m1@,
                body_mass(old(other)@),
                body_mass(old(self)@),
            );
            assert forall|i: int| 0 <= i < 2 implies qeq(
                #[trigger] w1@[i],
                elastic_formula(
                    old(self)@.vel,
                    old(other)@.vel,
                    old(self)@.pos,
                    old(other)@.pos,
                    body_mass(old(self)@),
                    body_mass(old(other)@),
                )[i],
            ) by {
                lemma_qeq_trans_gen(
                    w1@[i],
                    elastic_formula(
                        old(self)@.vel,
                        old(other)@.vel,
                        old(self)@.pos,
                        old(other)@.pos,
                        m1@,
                        m2@,
                    )[i],
                    elastic_formula(
                        old(self)@.vel,
                        old(other)@.vel,
                        old(self)@.pos,
                        old(other)@.pos,
                        body_mass(old(self)@),
                        body_mass(old(other)@),
                    )[i],
                );
            }
            assert forall|i: int| 0 <= i < 2 implies qeq(
                #[trigger] w2@[i],
                elastic_formula(
                    old(other)@.vel,
                    old(self)@.vel,
                    old(other)@.pos,
                    old(self)@.pos,
                    body_mass(old(other)@),
                    body_mass(old(self)@),
                )[i],
            ) by {
                lemma_qeq_trans_gen(
                    w2@[i],
                    elastic_formula(
                        old(other)@.vel,
                        old(self)@.vel,
                        old(other)@.pos,
                        old(self)@.pos,
                        m2@,
                        m1@,
                    )[i],
                    elastic_formula(
                        old(other)@.vel,
                        old(self)@.vel,
                        old(other)@.pos,
                        old(self)@.pos,
                        body_mass(old(other)@),
                        body_mass(old(self)@),
                    )[i],
                );
            }
        }
        self.velocity = w1;
        other.velocity = w2;
        proof {
            assert forall|i: int| 0 <= i < 2 implies qeq(
                #[trigger] self@.vel[i],
                elastic_formula(
                    old(self)@.vel,
                    old(other)@.vel,
                    old(self)@.pos,
                    old(other)@.pos,
                    body_mass(old(self)@),
                    body_mass(old(other)@),
                )[i],
            ) by {
                assert(self@.vel[i] == w1@[i]);
            }
            assert forall|i: int| 0 <= i < 2 implies qeq(
                #[trigger] other@.vel[i],
                elastic_formula(
                    old(other)@.vel,
                    old(self)@.vel,
                    old(other)@.pos,
                    old(self)@.pos,
                    body_mass(old(other)@),
                    body_mass(old(self)@),
                )[i],
            ) by {
                assert(other@.vel[i] == w2@[i]);
            }
        }
        Ok(())
    }
}

} // verus!
