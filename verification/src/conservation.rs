//! Momentum conservation of the elastic-collision law.
//!
//! The resolver hands body 1 the velocity `v1 - f1 * d` and body 2 the
//! velocity `v2 + f2 * d`, where `d` is the center offset `x1 - x2` and
//! `f1`, `f2` are the scalar factors of the law. The masses weight those
//! factors equally (`m1 * f1 = m2 * f2`), so the transfer moves the same
//! amount of momentum out of one body as into the other, and the
//! mass-weighted velocity sum is unchanged — proved here, component for
//! component, about the law itself.

use crate::particles::{coincident, elastic_formula};
use crate::rat::{
    lemma_qadd_cancel_pair, lemma_qadd_congruence, lemma_qdistrib, lemma_qdiv_congruence,
    lemma_qeq_trans_gen, lemma_qmul_assoc, lemma_qmul_congruence,
    lemma_qmul_neg_right, qadd, qdiv, qeq, qint, qlt, qmul, qneg, qsub, qwf, qzero, Q,
};
use crate::vecn::{
    lemma_vq_dot_den_pos, lemma_vq_dot_neg, lemma_vq_dot_self_pos, vq_dot, vq_neg, vq_sub,
};
use vstd::prelude::*;

verus! {

/// Momentum transfer for one velocity component: if the masses weight the
/// two factors equally, the weighted sum of the component is unchanged by
/// handing `f1 * dc` from body 1 to body 2.
pub proof fn lemma_momentum_component(v1c: Q, v2c: Q, dc: Q, m1: Q, m2: Q, f1: Q, f2: Q)
    requires
        qwf(v1c),
        qwf(v2c),
        qwf(dc),
        qwf(m1),
        qwf(m2),
        qwf(f1),
        qwf(f2),
        qeq(qmul(m1, f1), qmul(m2, f2)),
    ensures
        qeq(
            qadd(qmul(m1, qsub(v1c, qmul(f1, dc))), qmul(m2, qadd(v2c, qmul(f2, dc)))),
            qadd(qmul(m1, v1c), qmul(m2, v2c)),
        ),
{
    let x1 = qmul(f1, dc);
    let x2 = qmul(f2, dc);
    let t1 = qmul(m1, x1);
    let t2 = qmul(m2, x2);
    let p = qmul(m1, v1c);
    let q = qmul(m2, v2c);
    let lhs1 = qmul(m1, qsub(v1c, x1));
    let lhs2 = qmul(m2, qadd(v2c, x2));
    assert(x1.d > 0 && x2.d > 0 && t1.d > 0 && t2.d > 0 && p.d > 0 && q.d > 0 && lhs1.d > 0
        && lhs2.d > 0 && qmul(m1, f1).d > 0 && qmul(m2, f2).d > 0 && qadd(p, qneg(t1)).d > 0
        && qadd(q, t2).d > 0) by (nonlinear_arith)
        requires
            x1.d == f1.d * dc.d,
            x2.d == f2.d * dc.d,
            t1.d == m1.d * x1.d,
            t2.d == m2.d * x2.d,
            p.d == m1.d * v1c.d,
            q.d == m2.d * v2c.d,
            lhs1.d == m1.d * (v1c.d * x1.d),
            lhs2.d == m2.d * (v2c.d * x2.d),
            qmul(m1, f1).d == m1.d * f1.d,
            qmul(m2, f2).d == m2.d * f2.d,
            qadd(p, qneg(t1)).d == p.d * t1.d,
            qadd(q, t2).d == q.d * t2.d,
            m1.d > 0,
            m2.d > 0,
            f1.d > 0,
            f2.d > 0,
            dc.d > 0,
            v1c.d > 0,
            v2c.d > 0,
    ;
    // the transferred amounts are equal: m1 * (f1 * dc) = m2 * (f2 * dc)
    lemma_qmul_assoc(m1, f1, dc);
    lemma_qmul_assoc(m2, f2, dc);
    lemma_qmul_congruence(qmul(m1, f1), dc, qmul(m2, f2), dc);
    assert(qeq(t1, t2));
    // expand both weighted post-collision components
    lemma_qdistrib(m1, v1c, qneg(x1));
    lemma_qmul_neg_right(m1, x1);
    assert(qeq(lhs1, qadd(p, qneg(t1))));
    lemma_qdistrib(m2, v2c, x2);
    assert(qeq(lhs2, qadd(q, t2)));
    // the amounts cancel across the sum
    lemma_qadd_cancel_pair(p, q, t1, t2);
    lemma_qadd_congruence(lhs1, lhs2, qadd(p, qneg(t1)), qadd(q, t2));
    assert(qadd(qadd(p, qneg(t1)), qadd(q, t2)).d > 0) by (nonlinear_arith)
        requires
            qadd(qadd(p, qneg(t1)), qadd(q, t2)).d == qadd(p, qneg(t1)).d * qadd(q, t2).d,
            qadd(p, qneg(t1)).d > 0,
            qadd(q, t2).d > 0,
    ;
    lemma_qeq_trans_gen(
        qadd(lhs1, lhs2),
        qadd(qadd(p, qneg(t1)), qadd(q, t2)),
        qadd(p, q),
    );
}

/// Elastic collision conserves momentum: for bodies with positive masses
/// and distinct centers, the mass-weighted sum of each velocity component
/// is the same before and after applying the law from both sides.
pub proof fn lemma_elastic_conserves_momentum(
    v1: Seq<Q>,
    v2: Seq<Q>,
    x1: Seq<Q>,
    x2: Seq<Q>,
    m1: Q,
    m2: Q,
)
    requires
        v1.len() == 2,
        v2.len() == 2,
        x1.len() == 2,
        x2.len() == 2,
        forall|i: int| 0 <= i < 2 ==> qwf(#[trigger] v1[i]),
        forall|i: int| 0 <= i < 2 ==> qwf(#[trigger] v2[i]),
        forall|i: int| 0 <= i < 2 ==> qwf(#[trigger] x1[i]),
        forall|i: int| 0 <= i < 2 ==> qwf(#[trigger] x2[i]),
        qwf(m1),
        qwf(m2),
        qlt(qzero(), m1),
        qlt(qzero(), m2),
        !coincident(x1, x2),
    ensures
        forall|i: int|
            0 <= i < 2 ==> qeq(
                qadd(
                    qmul(m1, #[trigger] elastic_formula(v1, v2, x1, x2, m1, m2)[i]),
                    qmul(m2, elastic_formula(v2, v1, x2, x1, m2, m1)[i]),
                ),
                qadd(qmul(m1, v1[i]), qmul(m2, v2[i])),
            ),
{
    let d = vq_sub(x1, x2);
    let d2 = vq_sub(x2, x1);
    let vd = vq_sub(v1, v2);
    let vd2 = vq_sub(v2, v1);
    assert forall|i: int| 0 <= i < 2 implies (#[trigger] d[i]).d > 0 && d2[i] == qneg(d[i]) by {
        assert(x2[i].d * x1[i].d == x1[i].d * x2[i].d && x1[i].d * x2[i].d > 0 && (-x1[i].n)
            * x2[i].d == -(x1[i].n * x2[i].d) && (-x2[i].n) * x1[i].d == -(x2[i].n * x1[i].d))
            by (nonlinear_arith)
            requires
                x1[i].d > 0,
                x2[i].d > 0,
        ;
    }
    assert forall|i: int| 0 <= i < 2 implies (#[trigger] vd[i]).d > 0 && vd2[i] == qneg(
        vd[i],
    ) by {
        assert(v2[i].d * v1[i].d == v1[i].d * v2[i].d && v1[i].d * v2[i].d > 0 && (-v1[i].n)
            * v2[i].d == -(v1[i].n * v2[i].d) && (-v2[i].n) * v1[i].d == -(v2[i].n * v1[i].d))
            by (nonlinear_arith)
            requires
                v1[i].d > 0,
                v2[i].d > 0,
        ;
    }
    assert(d2 =~= vq_neg(d));
    assert(vd2 =~= vq_neg(vd));
    lemma_vq_dot_neg(vd, d);
    lemma_vq_dot_neg(d, d);
    let kk = vq_dot(vd, d);
    let s = vq_dot(d, d);
    assert(vq_dot(vd2, d2) == kk);
    assert(vq_dot(d2, d2) == s);
    lemma_vq_dot_den_pos(vd, d);
    // the centers differ, so the squared separation is positive
    let j = choose|j: int| 0 <= j < 2 && !qeq(#[trigger] x1[j], x2[j]);
    assert(d[j].n != 0) by (nonlinear_arith)
        requires
            d[j].n == x1[j].n * x2[j].d + (-x2[j].n) * x1[j].d,
            x1[j].n * x2[j].d != x2[j].n * x1[j].d,
    ;
    lemma_vq_dot_self_pos(d);
    // both denominator sums denote the same mass total
    let msum = qadd(m1, m2);
    let msum2 = qadd(m2, m1);
    assert(qeq(msum2, msum) && msum.n > 0 && msum.d > 0 && msum2.d > 0 && msum2.n > 0)
        by (nonlinear_arith)
        requires
            msum.n == m1.n * m2.d + m2.n * m1.d,
            msum.d == m1.d * m2.d,
            msum2.n == m2.n * m1.d + m1.n * m2.d,
            msum2.d == m2.d * m1.d,
            m1.d > 0,
            m2.d > 0,
            0 * m1.d < m1.n * 1,
            0 * m2.d < m2.n * 1,
    ;
    let tm2 = qmul(qint(2), m2);
    let tm1 = qmul(qint(2), m1);
    let bf = qdiv(kk, s);
    let af1 = qdiv(tm2, msum);
    let af2 = qdiv(tm1, msum);
    let f1 = qmul(af1, bf);
    let g2 = qmul(af2, bf);
    let coef2 = qmul(qdiv(tm1, msum2), bf);
    // the swapped coefficient denotes the same factor over the shared sum
    lemma_qdiv_congruence(tm1, msum2, tm1, msum);
    assert(bf.d > 0 && af1.d > 0 && af2.d > 0 && qdiv(tm1, msum2).d > 0 && f1.d > 0 && g2.d > 0
        && coef2.d > 0) by (nonlinear_arith)
        requires
            bf.d == kk.d * s.n,
            af1.d == (1 * m2.d) * msum.n,
            af2.d == (1 * m1.d) * msum.n,
            qdiv(tm1, msum2).d == (1 * m1.d) * msum2.n,
            f1.d == af1.d * bf.d,
            g2.d == af2.d * bf.d,
            coef2.d == qdiv(tm1, msum2).d * bf.d,
            kk.d > 0,
            s.n > 0,
            m1.d > 0,
            m2.d > 0,
            msum.n > 0,
            msum2.n > 0,
    ;
    lemma_qmul_congruence(qdiv(tm1, msum2), bf, af2, bf);
    assert(qeq(coef2, g2));
    // the masses weight the two factors equally
    lemma_qmul_assoc(m1, af1, bf);
    lemma_qmul_assoc(m2, af2, bf);
    let ma1 = qmul(m1, af1);
    let ma2 = qmul(m2, af2);
    assert(qeq(ma1, ma2) && ma1.d > 0 && ma2.d > 0) by (nonlinear_arith)
        requires
            ma1.n == m1.n * ((2 * m2.n) * msum.d),
            ma1.d == m1.d * ((1 * m2.d) * msum.n),
            ma2.n == m2.n * ((2 * m1.n) * msum.d),
            ma2.d == m2.d * ((1 * m1.d) * msum.n),
            m1.d > 0,
            m2.d > 0,
            msum.n > 0,
            msum.d > 0,
    ;
    lemma_qmul_congruence(ma1, bf, ma2, bf);
    assert(qeq(qmul(m1, f1), qmul(m2, g2)));
    // componentwise: body 1 keeps the law's shape, body 2's swapped law
    // is receiving the same transfer with the shared offset
    assert forall|i: int| 0 <= i < 2 implies qeq(
        qadd(
            qmul(m1, #[trigger] elastic_formula(v1, v2, x1, x2, m1, m2)[i]),
            qmul(m2, elastic_formula(v2, v1, x2, x1, m2, m1)[i]),
        ),
        qadd(qmul(m1, v1[i]), qmul(m2, v2[i])),
    ) by {
        let w1 = elastic_formula(v1, v2, x1, x2, m1, m2)[i];
        let w2 = elastic_formula(v2, v1, x2, x1, m2, m1)[i];
        assert(w1 == qsub(v1[i], qmul(f1, d[i])));
        assert(w2 == qsub(v2[i], qmul(coef2, d2[i])));
        crate::rat::lemma_qmul_neg_right(coef2, d[i]);
        assert(qmul(coef2, d2[i]) == qneg(qmul(coef2, d[i])));
        assert(w2 == qadd(v2[i], qmul(coef2, d[i])));
        assert(qmul(coef2, d[i]).d > 0 && qmul(g2, d[i]).d > 0) by (nonlinear_arith)
            requires
                qmul(coef2, d[i]).d == coef2.d * d[i].d,
                qmul(g2, d[i]).d == g2.d * d[i].d,
                coef2.d > 0,
                g2.d > 0,
                d[i].d > 0,
        ;
        lemma_qmul_congruence(coef2, d[i], g2, d[i]);
        lemma_qadd_congruence(v2[i], qmul(coef2, d[i]), v2[i], qmul(g2, d[i]));
        lemma_momentum_component(v1[i], v2[i], d[i], m1, m2, f1, g2);
        let sh2 = qadd(v2[i], qmul(g2, d[i]));
        assert(qmul(m2, w2).d > 0 && qmul(m2, sh2).d > 0 && sh2.d > 0 && w2.d > 0 && qmul(
            m1,
            w1,
        ).d > 0) by (nonlinear_arith)
            requires
                w2.d == v2[i].d * qmul(coef2, d[i]).d,
                sh2.d == v2[i].d * qmul(g2, d[i]).d,
                qmul(m2, w2).d == m2.d * w2.d,
                qmul(m2, sh2).d == m2.d * sh2.d,
                qmul(m1, w1).d == m1.d * w1.d,
                w1.d == v1[i].d * qmul(f1, d[i]).d,
                qmul(f1, d[i]).d == f1.d * d[i].d,
                qmul(coef2, d[i]).d > 0,
                qmul(g2, d[i]).d > 0,
                v1[i].d > 0,
                v2[i].d > 0,
                m1.d > 0,
                m2.d > 0,
                f1.d > 0,
                d[i].d > 0,
        ;
        lemma_qmul_congruence(m2, w2, m2, sh2);
        lemma_qadd_congruence(qmul(m1, w1), qmul(m2, w2), qmul(m1, w1), qmul(m2, sh2));
        assert(qadd(qmul(m1, w1), qmul(m2, sh2)).d > 0) by (nonlinear_arith)
            requires
                qadd(qmul(m1, w1), qmul(m2, sh2)).d == qmul(m1, w1).d * qmul(m2, sh2).d,
                qmul(m1, w1).d > 0,
                qmul(m2, sh2).d > 0,
        ;
        lemma_qeq_trans_gen(
            qadd(qmul(m1, w1), qmul(m2, w2)),
            qadd(qmul(m1, w1), qmul(m2, sh2)),
            qadd(qmul(m1, v1[i]), qmul(m2, v2[i])),
        );
    }
}

} // verus!
