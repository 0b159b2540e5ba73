use elastic_arena::errors::SimError;
use elastic_arena::rat::Rat;
use elastic_arena::vecn::VecNd;

fn q(n: i64, d: i64) -> Rat {
    Rat::new(n, d)
}

#[test]
fn vec_defn() {
    let v = vec![q(3, 10), q(2, 10), q(17, 10)];
    let result: VecNd<3> = VecNd::from_vec(v).unwrap();
    assert_eq!(
        result,
        VecNd::from_vec(vec![q(3, 10), q(2, 10), q(17, 10)]).unwrap()
    );
}

#[test]
fn add() {
    let v: VecNd<3> = VecNd::from_vec(vec![q(3, 10), q(2, 10), q(17, 10)]).unwrap();
    let w: VecNd<3> = VecNd::from_vec(vec![q(14, 10), q(22, 10), q(3, 10)]).unwrap();
    let result = v.add(&w).unwrap();
    assert_eq!(
        result,
        VecNd::from_vec(vec![q(17, 10), q(24, 10), q(2, 1)]).unwrap()
    );
}

#[test]
fn from_vec_wrong_length_is_dimension_mismatch() {
    let r: Result<VecNd<2>, SimError> = VecNd::from_vec(vec![q(1, 1)]);
    assert_eq!(r.unwrap_err(), SimError::DimensionMismatch);
}

#[test]
fn rat_arithmetic_is_exact_and_reduced() {
    let s = q(1, 2).add(q(1, 3)).unwrap();
    assert_eq!(s.num(), 5);
    assert_eq!(s.den(), 6);
    let p = q(2, 3).mul(q(3, 4)).unwrap();
    assert_eq!(p.num(), 1);
    assert_eq!(p.den(), 2);
    let d = q(1, 2).div(q(1, 4)).unwrap();
    assert_eq!(d.num(), 2);
    assert_eq!(d.den(), 1);
}

#[test]
fn rat_overflow_is_reported() {
    let big = q(i64::MAX, 1);
    assert!(big.mul(big).is_none());
    assert!(big.add(q(-1, 1)).is_some());
    assert!(big.add(big).is_none());
}

#[test]
fn vector_addition_commutes() {
    let a: VecNd<2> = VecNd::from_vec(vec![q(1, 3), q(-7, 5)]).unwrap();
    let b: VecNd<2> = VecNd::from_vec(vec![q(2, 7), q(9, 4)]).unwrap();
    assert_eq!(a.add(&b).unwrap(), b.add(&a).unwrap());
}

#[test]
fn add_then_subtract_round_trips() {
    let a: VecNd<2> = VecNd::from_vec(vec![q(5, 6), q(-3, 8)]).unwrap();
    let b: VecNd<2> = VecNd::from_vec(vec![q(7, 2), q(11, 9)]).unwrap();
    let s = a.add(&b).unwrap();
    assert_eq!(s.sub(&b).unwrap(), a);
}

#[test]
fn dot_and_norm_agree() {
    let v: VecNd<2> = VecNd::from_vec(vec![q(3, 1), q(4, 1)]).unwrap();
    let d = v.dot(&v).unwrap();
    assert_eq!(d.num(), 25);
    assert_eq!(d.den(), 1);
    // a perfect square has its exact root
    let n = v.norm().unwrap();
    assert_eq!(n, q(5, 1));
    // the norm squared never exceeds the dot product
    let nn = n.mul(n).unwrap();
    assert!(nn.le(d));
}

#[test]
fn norm_squared_stays_within_tolerance() {
    // sqrt(2) is irrational; the rounded norm still squares back to the
    // dot product within far less than any floating tolerance
    let v: VecNd<2> = VecNd::from_vec(vec![q(1, 1), q(1, 1)]).unwrap();
    let d = v.dot(&v).unwrap();
    assert_eq!(d, q(2, 1));
    let n = v.norm().unwrap();
    let nn = n.mul(n).unwrap();
    assert!(nn.le(d));
    let gap = d.sub(nn).unwrap();
    assert!(gap.lt(q(1, 100_000_000)));
}

#[test]
fn norm_of_zero_vector_is_zero() {
    let v: VecNd<2> = VecNd::zero();
    let n = v.norm().unwrap();
    assert_eq!(n.num(), 0);
}

#[test]
fn elementwise_multiply_and_scale() {
    let a: VecNd<2> = VecNd::from_vec(vec![q(2, 1), q(3, 1)]).unwrap();
    let b: VecNd<2> = VecNd::from_vec(vec![q(5, 1), q(7, 1)]).unwrap();
    let m = a.mul(&b).unwrap();
    assert_eq!(m.component(0), q(10, 1));
    assert_eq!(m.component(1), q(21, 1));
    let s = a.scale(q(1, 2)).unwrap();
    assert_eq!(s.component(0), q(1, 1));
    assert_eq!(s.component(1), q(3, 2));
}
