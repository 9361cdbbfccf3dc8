use unit_system::dimension_math::ExponentVector;
use unit_system::errors::ResolveError;

fn v(exponents: Vec<i64>) -> ExponentVector {
    ExponentVector { exponents }
}

#[test]
fn multiply_identity() {
    let a = v(vec![2, -1, 3]);
    let zero = ExponentVector::none(3);
    assert_eq!(a.multiply(&zero), a);
}

#[test]
fn divide_self_is_dimensionless() {
    let a = v(vec![5, 0, -7]);
    assert_eq!(a.divide(&a), ExponentVector::none(3));
}

#[test]
fn invert_twice_is_identity() {
    let a = v(vec![1, -4, 9]);
    assert_eq!(a.invert().invert(), a);
}

#[test]
fn multiply_commutes() {
    let a = v(vec![1, 2, -3]);
    let b = v(vec![-5, 7, 11]);
    assert_eq!(a.multiply(&b), b.multiply(&a));
}

#[test]
fn power_scales_components() {
    let a = v(vec![1, -2, 0]);
    assert_eq!(a.power(3), v(vec![3, -6, 0]));
}

#[test]
fn sqrt_of_even_vector() {
    let a = v(vec![4, -2, 0]);
    assert_eq!(a.sqrt(), Ok(v(vec![2, -1, 0])));
}

#[test]
fn sqrt_of_square_is_identity() {
    let a = v(vec![3, -1, 7]);
    let squared = a.multiply(&a);
    assert_eq!(squared.sqrt(), Ok(a));
}

#[test]
fn sqrt_of_odd_component_fails() {
    let a = v(vec![2, 3, 4]);
    assert_eq!(
        a.sqrt(),
        Err(ResolveError::InvalidRootOperation { axis: 1, exponent: 3 })
    );
}

#[test]
fn cbrt_of_divisible_vector() {
    let a = v(vec![3, -6, 0]);
    assert_eq!(a.cbrt(), Ok(v(vec![1, -2, 0])));
}

#[test]
fn cbrt_of_non_divisible_component_fails() {
    let a = v(vec![3, 2]);
    assert_eq!(
        a.cbrt(),
        Err(ResolveError::InvalidRootOperation { axis: 1, exponent: 2 })
    );
}

#[test]
fn base_vector_has_one_axis() {
    let b = ExponentVector::base(3, 1);
    assert_eq!(b, v(vec![0, 1, 0]));
}
