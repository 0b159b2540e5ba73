//! Fixed-dimension vectors of exact rational components.
//!
//! The dimension is a compile-time parameter, so combining vectors of
//! unequal dimension is rejected before the program runs; building a vector
//! from a component list of the wrong length is rejected at run time with
//! `DimensionMismatch`. Componentwise arithmetic carries the exact-rational
//! contracts of [`crate::rat`] up to sequences: every operation is pinned to
//! a machine-level mirror (`mv_add` and friends), and on success each
//! component denotes the exact rational result.

use crate::errors::SimError;
use crate::rat::{
    lemma_qadd_congruence, lemma_qeq_sign, lemma_qmul_congruence, opt_q, qadd, qchk, qeq, qfits,
    qle, qlt, qmul, qneg, qsub, qwf, qzero, Q, Rat,
};
use vstd::prelude::*;

verus! {

/// Every component is a well-formed stored fraction.
pub open spec fn vq_wf(s: Seq<Q>) -> bool {
    forall|i: int| 0 <= i < s.len() ==> qwf(#[trigger] s[i]) && qfits(s[i])
}

/// Componentwise exact sum.
pub open spec fn vq_add(a: Seq<Q>, b: Seq<Q>) -> Seq<Q> {
    Seq::new(a.len(), |i: int| qadd(a[i], b[i]))
}

/// Componentwise negation.
pub open spec fn vq_neg(a: Seq<Q>) -> Seq<Q> {
    Seq::new(a.len(), |i: int| qneg(a[i]))
}

/// Componentwise exact difference.
pub open spec fn vq_sub(a: Seq<Q>, b: Seq<Q>) -> Seq<Q> {
    Seq::new(a.len(), |i: int| qsub(a[i], b[i]))
}

/// Componentwise exact product.
pub open spec fn vq_mul(a: Seq<Q>, b: Seq<Q>) -> Seq<Q> {
    Seq::new(a.len(), |i: int| qmul(a[i], b[i]))
}

/// Exact product with a scalar.
pub open spec fn vq_scale(c: Q, a: Seq<Q>) -> Seq<Q> {
    Seq::new(a.len(), |i: int| qmul(c, a[i]))
}

/// Exact dot product, summed from the first component up.
pub open spec fn vq_dot(a: Seq<Q>, b: Seq<Q>) -> Q
    decreases a.len(),
{
    if a.len() == 0 {
        qzero()
    } else {
        qadd(vq_dot(a.drop_last(), b.drop_last()), qmul(a.last(), b.last()))
    }
}

/// Machine mirror of a componentwise operation: each component is the
/// reduced exact result, or the whole operation reports nothing as soon as
/// one reduced component leaves the machine range.
pub open spec fn mv_chk(s: Seq<Q>) -> Option<Seq<Q>>
    decreases s.len(),
{
    if s.len() == 0 {
        Option::Some(Seq::empty())
    } else {
        match mv_chk(s.drop_last()) {
            Option::Some(p) => match qchk(s.last()) {
                Option::Some(x) => Option::Some(p.push(x)),
                Option::None => Option::None,
            },
            Option::None => Option::None,
        }
    }
}

pub open spec fn mv_add(a: Seq<Q>, b: Seq<Q>) -> Option<Seq<Q>> {
    mv_chk(vq_add(a, b))
}

pub open spec fn mv_sub(a: Seq<Q>, b: Seq<Q>) -> Option<Seq<Q>> {
    mv_chk(vq_sub(a, b))
}

pub open spec fn mv_mul(a: Seq<Q>, b: Seq<Q>) -> Option<Seq<Q>> {
    mv_chk(vq_mul(a, b))
}

pub open spec fn mv_scale(c: Q, a: Seq<Q>) -> Option<Seq<Q>> {
    mv_chk(vq_scale(c, a))
}

/// Machine mirror of the dot product: multiply and accumulate from the
/// first component up, reducing at every step, or report nothing as soon as
/// one reduced intermediate leaves the machine range.
pub open spec fn mv_dot(a: Seq<Q>, b: Seq<Q>) -> Option<Q>
    decreases a.len(),
{
    if a.len() == 0 {
        Option::Some(qzero())
    } else {
        match mv_dot(a.drop_last(), b.drop_last()) {
            Option::Some(acc) => match qchk(qmul(a.last(), b.last())) {
                Option::Some(p) => qchk(qadd(acc, p)),
                Option::None => Option::None,
            },
            Option::None => Option::None,
        }
    }
}

/// A fixed-dimension vector of exact rational components.
#[derive(Debug)]
pub struct VecNd<const N: usize> {
    data: Vec<Rat>,
}

impl<const N: usize> View for VecNd<N> {
    type V = Seq<Q>;

    closed spec fn view(&self) -> Seq<Q> {
        self.data@.map_values(|r: Rat| r@)
    }
}

/// Vector equality is componentwise equality of the denoted rationals.
impl<const N: usize> PartialEq for VecNd<N> {
    fn eq(&self, other: &VecNd<N>) -> (r: bool) {
        proof {
            assert(self.data@.len() == self@.len());
            assert(other.data@.len() == other@.len());
        }
        if self.data.len() != other.data.len() {
            return false;
        }
        let mut i: usize = 0;
        while i < self.data.len()
            invariant
                0 <= i <= self.data.len(),
                self.data@.len() == self@.len(),
                other.data@.len() == other@.len(),
                self.data@.len() == other.data@.len(),
                forall|k: int| 0 <= k < i ==> qeq(self@[k], #[trigger] other@[k]),
            decreases self.data.len() - i,
        {
            let same = self.data[i] == other.data[i];
            proof {
                assert(self@[i as int] == self.data@[i as int]@);
                assert(other@[i as int] == other.data@[i as int]@);
            }
            if !same {
                return false;
            }
            i += 1;
        }
        true
    }
}

impl<const N: usize> vstd::std_specs::cmp::PartialEqSpecImpl for VecNd<N> {
    open spec fn obeys_eq_spec() -> bool {
        true
    }

    open spec fn eq_spec(&self, other: &VecNd<N>) -> bool {
        self@.len() == other@.len() && forall|i: int|
            0 <= i < self@.len() ==> qeq(self@[i], #[trigger] other@[i])
    }
}

impl<const N: usize> VecNd<N> {
    /// The stored components are well formed and there are `N` of them.
    pub open spec fn wf(self) -> bool {
        self@.len() == N && vq_wf(self@)
    }

    /// A vector from its component list; the list must have length `N`.
    pub fn from_vec(v: Vec<Rat>) -> (r: Result<VecNd<N>, SimError>)
        requires
            forall|i: int| 0 <= i < v@.len() ==> (#[trigger] v@[i]).wf(),
        ensures
            v@.len() == N ==> (r matches Ok(w) && w.wf() && w@ == v@.map_values(|x: Rat| x@)),
            v@.len() != N ==> (r matches Err(e) && e == SimError::DimensionMismatch),
    {
        if v.len() == N {
            let w = VecNd { data: v };
            proof {
                assert forall|i: int| 0 <= i < w@.len() implies qwf(#[trigger] w@[i]) && qfits(
                    w@[i],
                ) by {
                    assert(w@[i] == v@[i]@);
                }
            }
            Ok(w)
        } else {
            Err(SimError::DimensionMismatch)
        }
    }

    /// The zero vector.
    pub fn zero() -> (r: VecNd<N>)
        ensures
            r.wf(),
            forall|i: int| 0 <= i < N ==> r@[i] == qzero(),
    {
        let mut data: Vec<Rat> = Vec::new();
        let mut i: usize = 0;
        while i < N
            invariant
                0 <= i <= N,
                data@.len() == i,
                forall|k: int| 0 <= k < i ==> (#[trigger] data@[k])@ == qzero(),
            decreases N - i,
        {
            data.push(Rat::zero());
            i += 1;
        }
        let r = VecNd { data };
        proof {
            assert(forall|k: int| 0 <= k < N ==> r@[k] == qzero());
        }
        r
    }

    /// Component `i`.
    pub fn component(&self, i: usize) -> (r: Rat)
        requires
            self.wf(),
            i < N,
        ensures
            r@ == self@[i as int],
            r.wf(),
    {
        proof {
            assert(self@[i as int] == self.data@[i as int]@);
        }
        self.data[i]
    }

    /// Componentwise negation; exact and total.
    pub fn neg(&self) -> (r: VecNd<N>)
        requires
            self.wf(),
        ensures
            r.wf(),
            r@ == vq_neg(self@),
    {
        let mut data: Vec<Rat> = Vec::new();
        let mut i: usize = 0;
        while i < N
            invariant
                self.wf(),
                0 <= i <= N,
                data@.len() == i,
                forall|k: int| 0 <= k < i ==> (#[trigger] data@[k])@ == qneg(self@[k]) && data@[k].wf(),
            decreases N - i,
        {
            proof {
                assert(self@[i as int] == self.data@[i as int]@);
            }
            data.push(self.data[i].neg());
            i += 1;
        }
        let r = VecNd { data };
        proof {
            assert(r@ =~= vq_neg(self@));
        }
        r
    }

    /// Componentwise exact sum.
    pub fn add(&self, other: &VecNd<N>) -> (r: Result<VecNd<N>, SimError>)
        requires
            self.wf(),
            other.wf(),
        ensures
            (r is Ok) == (mv_add(self@, other@) is Some),
            r matches Ok(w) ==> w.wf() && Option::Some(w@) == mv_add(self@, other@) && (forall|
                i: int,
            |
                0 <= i < N ==> qeq(#[trigger] w@[i], qadd(self@[i], other@[i]))),
            r matches Err(e) ==> e == SimError::Overflow,
    {
        let ghost whole = vq_add(self@, other@);
        let mut data: Vec<Rat> = Vec::new();
        let mut i: usize = 0;
        while i < N
            invariant
                self.wf(),
                other.wf(),
                whole == vq_add(self@, other@),
                0 <= i <= N,
                data@.len() == i,
                mv_chk(whole.take(i as int)) == Option::Some(data@.map_values(|r: Rat| r@)),
                forall|k: int|
                    0 <= k < i ==> (#[trigger] data@[k]).wf() && qeq(
                        data@[k]@,
                        qadd(self@[k], other@[k]),
                    ),
            decreases N - i,
        {
            proof {
                assert(self@[i as int] == self.data@[i as int]@);
                assert(other@[i as int] == other.data@[i as int]@);
                assert(whole.take(i + 1).drop_last() =~= whole.take(i as int));
                assert(whole.take(i + 1).last() == qadd(self@[i as int], other@[i as int]));
            }
            let s = self.data[i].add(other.data[i]);
            match s {
                Some(x) => {
                    data.push(x);
                    proof {
                        assert(data@.map_values(|r: Rat| r@) =~= data@.drop_last().map_values(
                            |r: Rat| r@,
                        ).push(x@));
                    }
                },
                None => {
                    proof {
                        lemma_mv_chk_prefix_none(whole, i + 1);
                    }
                    return Err(SimError::Overflow);
                },
            }
            i += 1;
        }
        proof {
            assert(whole.take(N as int) =~= whole);
        }
        Ok(VecNd { data })
    }

    /// Componentwise exact difference.
    pub fn sub(&self, other: &VecNd<N>) -> (r: Result<VecNd<N>, SimError>)
        requires
            self.wf(),
            other.wf(),
        ensures
            (r is Ok) == (mv_sub(self@, other@) is Some),
            r matches Ok(w) ==> w.wf() && Option::Some(w@) == mv_sub(self@, other@) && (forall|
                i: int,
            |
                0 <= i < N ==> qeq(#[trigger] w@[i], qsub(self@[i], other@[i]))),
            r matches Err(e) ==> e == SimError::Overflow,
    {
        let negated = other.neg();
        proof {
            assert(vq_add(self@, negated@) =~= vq_sub(self@, other@));
        }
        self.add(&negated)
    }

    /// Componentwise exact product.
    pub fn mul(&self, other: &VecNd<N>) -> (r: Result<VecNd<N>, SimError>)
        requires
            self.wf(),
            other.wf(),
        ensures
            (r is Ok) == (mv_mul(self@, other@) is Some),
            r matches Ok(w) ==> w.wf() && Option::Some(w@) == mv_mul(self@, other@) && (forall|
                i: int,
            |
                0 <= i < N ==> qeq(#[trigger] w@[i], qmul(self@[i], other@[i]))),
            r matches Err(e) ==> e == SimError::Overflow,
    {
        let ghost whole = vq_mul(self@, other@);
        let mut data: Vec<Rat> = Vec::new();
        let mut i: usize = 0;
        while i < N
            invariant
                self.wf(),
                other.wf(),
                whole == vq_mul(self@, other@),
                0 <= i <= N,
                data@.len() == i,
                mv_chk(whole.take(i as int)) == Option::Some(data@.map_values(|r: Rat| r@)),
                forall|k: int|
                    0 <= k < i ==> (#[trigger] data@[k]).wf() && qeq(
                        data@[k]@,
                        qmul(self@[k], other@[k]),
                    ),
            decreases N - i,
        {
            proof {
                assert(self@[i as int] == self.data@[i as int]@);
                assert(other@[i as int] == other.data@[i as int]@);
                assert(whole.take(i + 1).drop_last() =~= whole.take(i as int));
                assert(whole.take(i + 1).last() == qmul(self@[i as int], other@[i as int]));
            }
            let s = self.data[i].mul(other.data[i]);
            match s {
                Some(x) => {
                    data.push(x);
                    proof {
                        assert(data@.map_values(|r: Rat| r@) =~= data@.drop_last().map_values(
                            |r: Rat| r@,
                        ).push(x@));
                    }
                },
                None => {
                    proof {
                        lemma_mv_chk_prefix_none(whole, i + 1);
                    }
                    return Err(SimError::Overflow);
                },
            }
            i += 1;
        }
        proof {
            assert(whole.take(N as int) =~= whole);
        }
        Ok(VecNd { data })
    }

    /// Exact product with the scalar `c`.
    pub fn scale(&self, c: Rat) -> (r: Result<VecNd<N>, SimError>)
        requires
            self.wf(),
            c.wf(),
        ensures
            (r is Ok) == (mv_scale(c@, self@) is Some),
            r matches Ok(w) ==> w.wf() && Option::Some(w@) == mv_scale(c@, self@) && (forall|
                i: int,
            |
                0 <= i < N ==> qeq(#[trigger] w@[i], qmul(c@, self@[i]))),
            r matches Err(e) ==> e == SimError::Overflow,
    {
        let ghost whole = vq_scale(c@, self@);
        let mut data: Vec<Rat> = Vec::new();
        let mut i: usize = 0;
        while i < N
            invariant
                self.wf(),
                c.wf(),
                whole == vq_scale(c@, self@),
                0 <= i <= N,
                data@.len() == i,
                mv_chk(whole.take(i as int)) == Option::Some(data@.map_values(|r: Rat| r@)),
                forall|k: int|
                    0 <= k < i ==> (#[trigger] data@[k]).wf() && qeq(data@[k]@, qmul(c@, self@[k])),
            decreases N - i,
        {
            proof {
                assert(self@[i as int] == self.data@[i as int]@);
                assert(whole.take(i + 1).drop_last() =~= whole.take(i as int));
                assert(whole.take(i + 1).last() == qmul(c@, self@[i as int]));
            }
            let s = c.mul(self.data[i]);
            match s {
                Some(x) => {
                    data.push(x);
                    proof {
                        assert(data@.map_values(|r: Rat| r@) =~= data@.drop_last().map_values(
                            |r: Rat| r@,
                        ).push(x@));
                    }
                },
                None => {
                    proof {
                        lemma_mv_chk_prefix_none(whole, i + 1);
                    }
                    return Err(SimError::Overflow);
                },
            }
            i += 1;
        }
        proof {
            assert(whole.take(N as int) =~= whole);
        }
        Ok(VecNd { data })
    }

    /// Exact dot product.
    pub fn dot(&self, other: &VecNd<N>) -> (r: Result<Rat, SimError>)
        requires
            self.wf(),
            other.wf(),
        ensures
            (r is Ok) == (mv_dot(self@, other@) is Some),
            r matches Ok(s) ==> s.wf() && Option::Some(s@) == mv_dot(self@, other@) && qeq(
                s@,
                vq_dot(self@, other@),
            ),
            r matches Err(e) ==> e == SimError::Overflow,
    {
        let mut acc: Rat = Rat::zero();
        let mut i: usize = 0;
        while i < N
            invariant
                self.wf(),
                other.wf(),
                0 <= i <= N,
                acc.wf(),
                Option::Some(acc@) == mv_dot(self@.take(i as int), other@.take(i as int)),
                qeq(acc@, vq_dot(self@.take(i as int), other@.take(i as int))),
            decreases N - i,
        {
            proof {
                assert(self@[i as int] == self.data@[i as int]@);
                assert(other@[i as int] == other.data@[i as int]@);
                assert(self@.take(i + 1).drop_last() =~= self@.take(i as int));
                assert(other@.take(i + 1).drop_last() =~= other@.take(i as int));
                assert(self@.take(i + 1).last() == self@[i as int]);
                assert(other@.take(i + 1).last() == other@[i as int]);
            }
            let p = match self.data[i].mul(other.data[i]) {
                Some(p) => p,
                None => {
                    proof {
                        lemma_mv_dot_prefix_none(self@, other@, i + 1);
                    }
                    return Err(SimError::Overflow);
                },
            };
            let next = match acc.add(p) {
                Some(n) => n,
                None => {
                    proof {
                        lemma_mv_dot_prefix_none(self@, other@, i + 1);
                    }
                    return Err(SimError::Overflow);
                },
            };
            proof {
                lemma_vq_dot_den_pos(self@.take(i as int), other@.take(i as int));
                assert(qmul(self@[i as int], other@[i as int]).d > 0 && qadd(acc@, p@).d > 0)
                    by (nonlinear_arith)
                    requires
                        self@[i as int].d > 0,
                        other@[i as int].d > 0,
                        acc@.d > 0,
                        p@.d > 0,
                ;
                lemma_qadd_congruence(
                    acc@,
                    p@,
                    vq_dot(self@.take(i as int), other@.take(i as int)),
                    qmul(self@[i as int], other@[i as int]),
                );
                crate::rat::lemma_qeq_trans_gen(
                    next@,
                    qadd(acc@, p@),
                    qadd(
                        vq_dot(self@.take(i as int), other@.take(i as int)),
                        qmul(self@[i as int], other@[i as int]),
                    ),
                );
            }
            acc = next;
            i += 1;
        }
        proof {
            assert(self@.take(N as int) =~= self@);
            assert(other@.take(N as int) =~= other@);
        }
        Ok(acc)
    }

    /// The Euclidean norm, rounded down to a fixed step of `2^-31`: the
    /// result `r` is the largest multiple of `2^-31` with `r * r <= s`,
    /// where `s` is the exact dot product of the vector with itself. So
    /// `r * r <= s < (r + 2^-31)^2`: the square of the norm misses the
    /// dot product by less than `(2 r + 2^-31) * 2^-31`, far inside any
    /// floating tolerance, and the norm of a zero vector is zero.
    pub fn norm(&self) -> (r: Result<Rat, SimError>)
        requires
            self.wf(),
        ensures
            (r is Ok) == (mv_dot(self@, self@) is Some),
            r matches Err(e) ==> e == SimError::Overflow,
            r matches Ok(s) ==> {
                let dotv = mv_dot(self@, self@)->Some_0;
                &&& s.wf()
                &&& s@.d == 0x80000000
                &&& s@.n >= 0
                &&& (s@.n * s@.n) * dotv.d <= dotv.n * 0x4000000000000000
                &&& dotv.n * 0x4000000000000000 < ((s@.n + 1) * (s@.n + 1)) * dotv.d
                &&& qle(qmul(s@, s@), dotv)
                &&& qlt(
                    dotv,
                    qmul(
                        qadd(s@, Q { n: 1, d: 0x80000000 }),
                        qadd(s@, Q { n: 1, d: 0x80000000 }),
                    ),
                )
            },
    {
        let s = match self.dot(self) {
            Ok(s) => s,
            Err(e) => {
                return Err(e);
            },
        };
        proof {
            lemma_vq_dot_self_nonneg(self@);
            lemma_qeq_sign(s@, vq_dot(self@, self@));
        }
        let sn = s.num();
        let sd = s.den();
        proof {
            assert(0 <= sn as int && sn as int == s@.n);
            assert((sn as u128) as int == s@.n && (sd as u128) as int == s@.d);
            assert(((sn as u128) as int) * 0x4000000000000000
                < 0x20000000000000000000000000000000) by (nonlinear_arith)
                requires
                    0 <= ((sn as u128) as int) < 0x8000000000000000,
            ;
        }
        let scaled: u128 = (sn as u128) * 0x4000000000000000;
        let t: u128 = scaled / (sd as u128);
        proof {
            vstd::arithmetic::div_mod::lemma_fundamental_div_mod(
                scaled as int,
                (sd as u128) as int,
            );
            vstd::arithmetic::div_mod::lemma_mod_bound(scaled as int, (sd as u128) as int);
            assert((t as int) <= scaled as int) by (nonlinear_arith)
                requires
                    scaled as int == ((sd as u128) as int) * (t as int) + (scaled as int) % ((
                    sd as u128) as int),
                    (scaled as int) % (((sd as u128)) as int) >= 0,
                    ((sd as u128) as int) >= 1,
                    t as int >= 0,
            ;
        }
        let root: u64 = isqrt_u128(t);
        let out = Rat::raw_frac(root as i64, 0x80000000);
        proof {
            let dotv = s@;
            let rem = (scaled as int) % ((sd as u128) as int);
            assert(out@.n == root as int && out@.d == 0x80000000);
            assert((out@.n * out@.n) * dotv.d <= dotv.n * 0x4000000000000000 && dotv.n
                * 0x4000000000000000 < ((out@.n + 1) * (out@.n + 1)) * dotv.d)
                by (nonlinear_arith)
                requires
                    out@.n == root as int,
                    (root as int) * (root as int) <= t as int,
                    (t as int) < ((root as int) + 1) * ((root as int) + 1),
                    dotv.n * 0x4000000000000000 == dotv.d * (t as int) + rem,
                    0 <= rem < dotv.d,
                    dotv.d >= 1,
            ;
            assert(qle(qmul(out@, out@), dotv) && qlt(
                dotv,
                qmul(
                    qadd(out@, Q { n: 1, d: 0x80000000 }),
                    qadd(out@, Q { n: 1, d: 0x80000000 }),
                ),
            )) by (nonlinear_arith)
                requires
                    out@.d == 0x80000000,
                    out@.n >= 0,
                    dotv.d > 0,
                    (out@.n * out@.n) * dotv.d <= dotv.n * 0x4000000000000000,
                    dotv.n * 0x4000000000000000 < ((out@.n + 1) * (out@.n + 1)) * dotv.d,
            ;
        }
        Ok(out)
    }
}

/// A two-dimensional vector from its components.
pub fn vec2(x: Rat, y: Rat) -> (r: VecNd<2>)
    requires
        x.wf(),
        y.wf(),
    ensures
        r.wf(),
        r@.len() == 2,
        r@[0] == x@,
        r@[1] == y@,
{
    let mut data: Vec<Rat> = Vec::new();
    data.push(x);
    data.push(y);
    VecNd { data }
}

impl<const N: usize> VecNd<N> {
    /// A fresh vector with the same components.
    pub fn duplicate(&self) -> (r: VecNd<N>)
        requires
            self.wf(),
        ensures
            r.wf(),
            r@ == self@,
    {
        let mut data: Vec<Rat> = Vec::new();
        let mut i: usize = 0;
        while i < N
            invariant
                self.wf(),
                0 <= i <= N,
                data@.len() == i,
                forall|k: int| 0 <= k < i ==> (#[trigger] data@[k])@ == self@[k],
            decreases N - i,
        {
            proof {
                assert(self@[i as int] == self.data@[i as int]@);
            }
            data.push(self.data[i]);
            i += 1;
        }
        let r = VecNd { data };
        proof {
            assert(r@ =~= self@);
        }
        r
    }
}

/// Once a prefix of the componentwise results fails to fit, the whole
/// operation reports nothing.
proof fn lemma_mv_chk_prefix_none(s: Seq<Q>, i: int)
    requires
        0 <= i <= s.len(),
        mv_chk(s.take(i)) is None,
    ensures
        mv_chk(s) is None,
    decreases s.len() - i,
{
    if i < s.len() {
        assert(s.take(i + 1).drop_last() =~= s.take(i));
        assert(mv_chk(s.take(i + 1)) is None);
        lemma_mv_chk_prefix_none(s, i + 1);
    } else {
        assert(s.take(i) =~= s);
    }
}

/// Once a prefix of the accumulation fails to fit, the whole dot product
/// reports nothing.
proof fn lemma_mv_dot_prefix_none(a: Seq<Q>, b: Seq<Q>, i: int)
    requires
        a.len() == b.len(),
        0 <= i <= a.len(),
        mv_dot(a.take(i), b.take(i)) is None,
    ensures
        mv_dot(a, b) is None,
    decreases a.len() - i,
{
    if i < a.len() {
        assert(a.take(i + 1).drop_last() =~= a.take(i));
        assert(b.take(i + 1).drop_last() =~= b.take(i));
        assert(mv_dot(a.take(i + 1), b.take(i + 1)) is None);
        lemma_mv_dot_prefix_none(a, b, i + 1);
    } else {
        assert(a.take(i) =~= a);
        assert(b.take(i) =~= b);
    }
}

/// The exact dot product of vectors with positive component denominators
/// has a positive denominator.
pub proof fn lemma_vq_dot_den_pos(a: Seq<Q>, b: Seq<Q>)
    requires
        a.len() == b.len(),
        forall|i: int| 0 <= i < a.len() ==> qwf(#[trigger] a[i]),
        forall|i: int| 0 <= i < b.len() ==> qwf(#[trigger] b[i]),
    ensures
        vq_dot(a, b).d > 0,
    decreases a.len(),
{
    if a.len() > 0 {
        lemma_vq_dot_den_pos(a.drop_last(), b.drop_last());
        let acc = vq_dot(a.drop_last(), b.drop_last());
        assert(qadd(acc, qmul(a.last(), b.last())).d > 0) by (nonlinear_arith)
            requires
                acc.d > 0,
                a.last().d > 0,
                b.last().d > 0,
        ;
    }
}

/// The exact dot product of a vector with itself is a nonnegative fraction
/// over a positive denominator.
pub proof fn lemma_vq_dot_self_nonneg(a: Seq<Q>)
    requires
        forall|i: int| 0 <= i < a.len() ==> qwf(#[trigger] a[i]),
    ensures
        vq_dot(a, a).d > 0,
        vq_dot(a, a).n >= 0,
    decreases a.len(),
{
    if a.len() == 0 {
    } else {
        lemma_vq_dot_self_nonneg(a.drop_last());
        let acc = vq_dot(a.drop_last(), a.drop_last());
        let x = a.last();
        assert(qmul(x, x).n >= 0 && qmul(x, x).d > 0 && qadd(acc, qmul(x, x)).n >= 0 && qadd(
            acc,
            qmul(x, x),
        ).d > 0) by (nonlinear_arith)
            requires
                acc.n >= 0,
                acc.d > 0,
                x.d > 0,
        ;
    }
}

/// The exact dot product of a vector with itself is strictly positive
/// once any component is nonzero.
pub proof fn lemma_vq_dot_self_pos(a: Seq<Q>)
    requires
        forall|i: int| 0 <= i < a.len() ==> qwf(#[trigger] a[i]),
        exists|i: int| 0 <= i < a.len() && #[trigger] a[i].n != 0,
    ensures
        vq_dot(a, a).d > 0,
        vq_dot(a, a).n > 0,
    decreases a.len(),
{
    let j = choose|j: int| 0 <= j < a.len() && #[trigger] a[j].n != 0;
    lemma_vq_dot_self_nonneg(a.drop_last());
    let acc = vq_dot(a.drop_last(), a.drop_last());
    let x = a.last();
    if x.n != 0 {
        assert(qadd(acc, qmul(x, x)).n > 0 && qadd(acc, qmul(x, x)).d > 0) by (nonlinear_arith)
            requires
                acc.n >= 0,
                acc.d > 0,
                x.d > 0,
                x.n != 0,
        ;
    } else {
        assert(0 <= j < a.len() - 1);
        assert(a.drop_last()[j] == a[j]);
        lemma_vq_dot_self_pos(a.drop_last());
        assert(qadd(acc, qmul(x, x)).n > 0 && qadd(acc, qmul(x, x)).d > 0) by (nonlinear_arith)
            requires
                acc.n > 0,
                acc.d > 0,
                x.d > 0,
                x.n == 0,
        ;
    }
}

/// The exact dot product only depends on the rationals the components
/// denote.
pub proof fn lemma_vq_dot_congruence(a: Seq<Q>, b: Seq<Q>, a2: Seq<Q>, b2: Seq<Q>)
    requires
        a.len() == b.len(),
        a.len() == a2.len(),
        a.len() == b2.len(),
        forall|i: int| 0 <= i < a.len() ==> qwf(#[trigger] a[i]),
        forall|i: int| 0 <= i < b.len() ==> qwf(#[trigger] b[i]),
        forall|i: int| 0 <= i < a2.len() ==> qwf(#[trigger] a2[i]),
        forall|i: int| 0 <= i < b2.len() ==> qwf(#[trigger] b2[i]),
        forall|i: int| 0 <= i < a.len() ==> qeq(#[trigger] a[i], a2[i]),
        forall|i: int| 0 <= i < b.len() ==> qeq(#[trigger] b[i], b2[i]),
    ensures
        qeq(vq_dot(a, b), vq_dot(a2, b2)),
    decreases a.len(),
{
    if a.len() > 0 {
        lemma_vq_dot_congruence(a.drop_last(), b.drop_last(), a2.drop_last(), b2.drop_last());
        lemma_vq_dot_den_pos(a.drop_last(), b.drop_last());
        lemma_vq_dot_den_pos(a2.drop_last(), b2.drop_last());
        lemma_qmul_congruence(a.last(), b.last(), a2.last(), b2.last());
        assert(qmul(a.last(), b.last()).d > 0 && qmul(a2.last(), b2.last()).d > 0)
            by (nonlinear_arith)
            requires
                a.last().d > 0,
                b.last().d > 0,
                a2.last().d > 0,
                b2.last().d > 0,
        ;
        lemma_qadd_congruence(
            vq_dot(a.drop_last(), b.drop_last()),
            qmul(a.last(), b.last()),
            vq_dot(a2.drop_last(), b2.drop_last()),
            qmul(a2.last(), b2.last()),
        );
    }
}

/// Negating both vectors leaves the exact dot product unchanged.
pub proof fn lemma_vq_dot_neg(a: Seq<Q>, b: Seq<Q>)
    requires
        a.len() == b.len(),
    ensures
        vq_dot(vq_neg(a), vq_neg(b)) == vq_dot(a, b),
    decreases a.len(),
{
    if a.len() > 0 {
        assert(vq_neg(a).drop_last() =~= vq_neg(a.drop_last()));
        assert(vq_neg(b).drop_last() =~= vq_neg(b.drop_last()));
        lemma_vq_dot_neg(a.drop_last(), b.drop_last());
        crate::rat::lemma_qmul_neg_neg(a.last(), b.last());
        assert(vq_neg(a).last() == qneg(a.last()));
        assert(vq_neg(b).last() == qneg(b.last()));
    }
}

/// A successful componentwise machine result holds, at each index, the
/// machine-level result of that component.
pub proof fn lemma_mv_chk_index(x: Seq<Q>, y: Seq<Q>)
    requires
        mv_chk(x) == Option::Some(y),
    ensures
        y.len() == x.len(),
        forall|i: int| 0 <= i < x.len() ==> qchk(#[trigger] x[i]) == Option::Some(y[i]),
    decreases x.len(),
{
    if x.len() > 0 {
        let p = mv_chk(x.drop_last())->Some_0;
        lemma_mv_chk_index(x.drop_last(), p);
        assert(y == p.push(qchk(x.last())->Some_0));
        assert forall|i: int| 0 <= i < x.len() implies qchk(#[trigger] x[i]) == Option::Some(
            y[i],
        ) by {
            if i < x.len() - 1 {
                assert(x.drop_last()[i] == x[i]);
                assert(y[i] == p[i]);
            } else {
                assert(x.last() == x[i]);
            }
        }
    }
}

/// Vector addition is commutative: the two machine computations return
/// the very same result, failing together or agreeing componentwise.
pub proof fn lemma_vec_add_commutes(a: Seq<Q>, b: Seq<Q>)
    requires
        a.len() == b.len(),
    ensures
        mv_add(a, b) == mv_add(b, a),
{
    assert forall|i: int| 0 <= i < a.len() implies #[trigger] vq_add(a, b)[i] == vq_add(
        b,
        a,
    )[i] by {
        assert(a[i].d * b[i].d == b[i].d * a[i].d) by (nonlinear_arith);
    }
    assert(vq_add(a, b) =~= vq_add(b, a));
}

/// Round trip: subtracting `b` from an exact machine sum `a + b` gives
/// back a vector that denotes `a`, whenever both operations succeed.
pub proof fn lemma_add_sub_round_trip(a: Seq<Q>, b: Seq<Q>, s: Seq<Q>, t: Seq<Q>)
    requires
        a.len() == b.len(),
        forall|i: int| 0 <= i < a.len() ==> qwf(#[trigger] a[i]),
        forall|i: int| 0 <= i < b.len() ==> qwf(#[trigger] b[i]),
        mv_add(a, b) == Option::Some(s),
        mv_sub(s, b) == Option::Some(t),
    ensures
        t.len() == a.len(),
        forall|i: int| 0 <= i < a.len() ==> qeq(#[trigger] t[i], a[i]),
{
    lemma_mv_chk_index(vq_add(a, b), s);
    lemma_mv_chk_index(vq_sub(s, b), t);
    assert forall|i: int| 0 <= i < a.len() implies qeq(#[trigger] t[i], a[i]) by {
        let sum = qadd(a[i], b[i]);
        let dif = qsub(s[i], b[i]);
        assert(vq_add(a, b)[i] == sum);
        assert(qchk(sum) == Option::Some(s[i]));
        assert(sum.d > 0) by (nonlinear_arith)
            requires
                sum.d == a[i].d * b[i].d,
                a[i].d > 0,
                b[i].d > 0,
        ;
        crate::rat::lemma_qchk_keeps_value(sum);
        assert(vq_sub(s, b)[i] == dif);
        assert(qchk(dif) == Option::Some(t[i]));
        assert(dif.d > 0) by (nonlinear_arith)
            requires
                dif.d == s[i].d * b[i].d,
                s[i].d > 0,
                b[i].d > 0,
        ;
        crate::rat::lemma_qchk_keeps_value(dif);
        crate::rat::lemma_sub_of_sum_cancels(a[i], b[i], s[i], t[i]);
    }
}

/// Integer square root by bisection: the returned `r` satisfies
/// `r^2 <= x < (r + 1)^2`.
fn isqrt_u128(x: u128) -> (r: u64)
    requires
        x < 0x40000000000000000000000000000000,
    ensures
        (r as int) * (r as int) <= x as int,
        (x as int) < ((r as int) + 1) * ((r as int) + 1),
        r < 0x8000000000000000,
{
    let mut lo: u64 = 0;
    let mut hi: u64 = 0x8000000000000000;
    proof {
        assert((hi as int) * (hi as int) == 0x40000000000000000000000000000000)
            by (nonlinear_arith)
            requires
                hi == 0x8000000000000000,
        ;
    }
    while lo + 1 < hi
        invariant
            lo < hi <= 0x8000000000000000,
            (lo as int) * (lo as int) <= x as int,
            (x as int) < (hi as int) * (hi as int),
        decreases hi - lo,
    {
        let mid: u64 = lo + (hi - lo) / 2;
        proof {
            assert((mid as u128) as int == mid as int);
            assert((mid as int) * (mid as int) < 0x80000000000000000000000000000000)
                by (nonlinear_arith)
                requires
                    mid <= 0x8000000000000000,
            ;
        }
        let sq: u128 = (mid as u128) * (mid as u128);
        if sq <= x {
            lo = mid;
        } else {
            hi = mid;
        }
    }
    lo
}

} // verus!
