//! Exact dimension algebra.
//!
//! A dimension is an `ExponentVector`: one signed exponent per base dimension,
//! every vector indexed identically over the fixed, ordered set of base
//! dimensions.  All operations are exact integer arithmetic; roots carry a
//! divisibility guard and fail loudly on a non-divisible component.

use vstd::prelude::*;
use crate::errors::{ResolveError, ResolveErrorValue};

verus! {

/// The exponent of a single base dimension.
pub type Exponent = i64;

/// A dimension as signed exponents over the base dimensions.
#[derive(Debug, PartialEq, Eq)]
pub struct ExponentVector {
    pub exponents: Vec<i64>,
}

impl Clone for ExponentVector {
    fn clone(&self) -> (r: Self)
        ensures
            r@ == self@,
    {
        let n = self.exponents.len();
        let mut v: Vec<i64> = Vec::new();
        let mut i: usize = 0;
        while i < n
            invariant
                i <= n,
                n == self.exponents@.len(),
                v@.len() == i,
                forall|j: int| 0 <= j < i ==> v@[j] == self.exponents@[j],
            decreases n - i,
        {
            v.push(self.exponents[i]);
            i += 1;
        }
        let r = ExponentVector { exponents: v };
        proof {
            assert(r@ =~= self@);
        }
        r
    }
}

impl View for ExponentVector {
    type V = Seq<int>;

    closed spec fn view(&self) -> Seq<int> {
        self.exponents@.map_values(|e: i64| e as int)
    }
}

/// The all-zero vector of the given width: dimensionless.
pub open spec fn zero_vector(n: nat) -> Seq<int> {
    Seq::new(n, |i: int| 0)
}

/// The vector with exponent one on `axis` and zero elsewhere.
pub open spec fn unit_vector(n: nat, axis: int) -> Seq<int> {
    Seq::new(n, |i: int| if i == axis { 1int } else { 0int })
}

/// Component-wise sum.
pub open spec fn vector_sum(a: Seq<int>, b: Seq<int>) -> Seq<int> {
    Seq::new(a.len(), |i: int| a[i] + b[i])
}

/// Component-wise difference.
pub open spec fn vector_difference(a: Seq<int>, b: Seq<int>) -> Seq<int> {
    Seq::new(a.len(), |i: int| a[i] - b[i])
}

/// Component-wise negation.
pub open spec fn vector_negation(a: Seq<int>) -> Seq<int> {
    Seq::new(a.len(), |i: int| -a[i])
}

/// Component-wise multiple.
pub open spec fn vector_scaled(a: Seq<int>, n: int) -> Seq<int> {
    Seq::new(a.len(), |i: int| a[i] * n)
}

/// Every component lies within the exponent type.
pub open spec fn fits_exponents(a: Seq<int>) -> bool {
    forall|i: int| 0 <= i < a.len() ==> i64::MIN <= #[trigger] a[i] <= i64::MAX
}

/// Every component is divisible by `d`.
pub open spec fn all_divisible(a: Seq<int>, d: int) -> bool {
    forall|i: int| 0 <= i < a.len() ==> #[trigger] a[i] % d == 0
}

/// The least index whose component is not divisible by `d`.
pub open spec fn first_non_divisible(a: Seq<int>, d: int) -> int {
    choose|i: int| 0 <= i < a.len() && a[i] % d != 0 && all_divisible(a.take(i), d)
}

/// Component-wise exact division by `d`.
pub open spec fn vector_root(a: Seq<int>, d: int) -> Seq<int> {
    Seq::new(a.len(), |i: int| a[i] / d)
}

impl ExponentVector {
    /// How many base dimensions the vector ranges over.
    pub fn len(&self) -> (n: usize)
        ensures
            n == self@.len(),
    {
        self.exponents.len()
    }

    /// The exponent of the base dimension with the given index.
    pub fn exponent(&self, i: usize) -> (e: i64)
        requires
            i < self@.len(),
        ensures
            e == self@[i as int],
    {
        self.exponents[i]
    }

    /// The zero vector: dimensionless.
    pub fn none(n: usize) -> (r: ExponentVector)
        ensures
            r@ == zero_vector(n as nat),
    {
        let mut v: Vec<i64> = Vec::new();
        let mut i: usize = 0;
        while i < n
            invariant
                i <= n,
                v@.len() == i,
                forall|j: int| 0 <= j < i ==> v@[j] == 0,
            decreases n - i,
        {
            v.push(0);
            i += 1;
        }
        let r = ExponentVector { exponents: v };
        proof {
            assert(r@ =~= zero_vector(n as nat));
        }
        r
    }

    /// The vector of a single fresh base dimension: one on `axis`, zero
    /// elsewhere.
    pub fn base(n: usize, axis: usize) -> (r: ExponentVector)
        requires
            axis < n,
        ensures
            r@ == unit_vector(n as nat, axis as int),
    {
        let mut v: Vec<i64> = Vec::new();
        let mut i: usize = 0;
        while i < n
            invariant
                i <= n,
                v@.len() == i,
                forall|j: int| 0 <= j < i ==> v@[j] == (if j == axis { 1i64 } else { 0i64 }),
            decreases n - i,
        {
            if i == axis {
                v.push(1);
            } else {
                v.push(0);
            }
            i += 1;
        }
        let r = ExponentVector { exponents: v };
        proof {
            assert(r@ =~= unit_vector(n as nat, axis as int));
        }
        r
    }

    /// Component-wise sum, `None` where a component leaves the exponent type.
    pub fn checked_multiply(&self, other: &ExponentVector) -> (r: Option<ExponentVector>)
        requires
            self@.len() == other@.len(),
        ensures
            fits_exponents(vector_sum(self@, other@)) ==> (r is Some && r->0@ == vector_sum(
                self@,
                other@,
            )),
            !fits_exponents(vector_sum(self@, other@)) ==> r is None,
    {
        let n = self.exponents.len();
        let mut v: Vec<i64> = Vec::new();
        let mut i: usize = 0;
        while i < n
            invariant
                i <= n,
                n == self@.len() == other@.len(),
                self@.len() == self.exponents@.len(),
                other@.len() == other.exponents@.len(),
                v@.len() == i,
                forall|j: int| 0 <= j < i ==> v@[j] == self@[j] + other@[j],
            decreases n - i,
        {
            let s = self.exponents[i].checked_add(other.exponents[i]);
            match s {
                Some(x) => v.push(x),
                None => {
                    proof {
                        assert(vector_sum(self@, other@)[i as int] == self@[i as int]
                            + other@[i as int]);
                        assert(!fits_exponents(vector_sum(self@, other@)));
                    }
                    return None;
                },
            }
            i += 1;
        }
        let r = ExponentVector { exponents: v };
        proof {
            assert(r@ =~= vector_sum(self@, other@));
            assert(fits_exponents(vector_sum(self@, other@)));
        }
        Some(r)
    }

    /// Component-wise sum over vectors of equal width.
    pub fn multiply(&self, other: &ExponentVector) -> (r: ExponentVector)
        requires
            self@.len() == other@.len(),
            fits_exponents(vector_sum(self@, other@)),
        ensures
            r@ == vector_sum(self@, other@),
    {
        let r = self.checked_multiply(other);
        match r {
            Some(v) => v,
            None => {
                proof {
                    assert(false);
                }
                ExponentVector { exponents: Vec::new() }
            },
        }
    }

    /// Component-wise difference, `None` where a component leaves the
    /// exponent type.
    pub fn checked_divide(&self, other: &ExponentVector) -> (r: Option<ExponentVector>)
        requires
            self@.len() == other@.len(),
        ensures
            fits_exponents(vector_difference(self@, other@)) ==> (r is Some && r->0@
                == vector_difference(self@, other@)),
            !fits_exponents(vector_difference(self@, other@)) ==> r is None,
    {
        let n = self.exponents.len();
        let mut v: Vec<i64> = Vec::new();
        let mut i: usize = 0;
        while i < n
            invariant
                i <= n,
                n == self@.len() == other@.len(),
                self@.len() == self.exponents@.len(),
                other@.len() == other.exponents@.len(),
                v@.len() == i,
                forall|j: int| 0 <= j < i ==> v@[j] == self@[j] - other@[j],
            decreases n - i,
        {
            let s = self.exponents[i].checked_sub(other.exponents[i]);
            match s {
                Some(x) => v.push(x),
                None => {
                    proof {
                        assert(vector_difference(self@, other@)[i as int] == self@[i as int]
                            - other@[i as int]);
                        assert(!fits_exponents(vector_difference(self@, other@)));
                    }
                    return None;
                },
            }
            i += 1;
        }
        let r = ExponentVector { exponents: v };
        proof {
            assert(r@ =~= vector_difference(self@, other@));
            assert(fits_exponents(vector_difference(self@, other@)));
        }
        Some(r)
    }

    /// Component-wise difference over vectors of equal width.
    pub fn divide(&self, other: &ExponentVector) -> (r: ExponentVector)
        requires
            self@.len() == other@.len(),
            fits_exponents(vector_difference(self@, other@)),
        ensures
            r@ == vector_difference(self@, other@),
    {
        let r = self.checked_divide(other);
        match r {
            Some(v) => v,
            None => {
                proof {
                    assert(false);
                }
                ExponentVector { exponents: Vec::new() }
            },
        }
    }

    /// Component-wise negation.
    pub fn invert(&self) -> (r: ExponentVector)
        requires
            fits_exponents(vector_negation(self@)),
        ensures
            r@ == vector_negation(self@),
    {
        let n = self.exponents.len();
        let mut v: Vec<i64> = Vec::new();
        let mut i: usize = 0;
        while i < n
            invariant
                i <= n,
                n == self@.len() == self.exponents@.len(),
                fits_exponents(vector_negation(self@)),
                v@.len() == i,
                forall|j: int| 0 <= j < i ==> v@[j] == -self@[j],
            decreases n - i,
        {
            proof {
                assert(vector_negation(self@)[i as int] == -self@[i as int]);
            }
            v.push(-self.exponents[i]);
            i += 1;
        }
        let r = ExponentVector { exponents: v };
        proof {
            assert(r@ =~= vector_negation(self@));
        }
        r
    }

    /// Component-wise multiple, `None` where a component leaves the exponent
    /// type.
    pub fn checked_power(&self, n: i64) -> (r: Option<ExponentVector>)
        ensures
            fits_exponents(vector_scaled(self@, n as int)) ==> (r is Some && r->0@
                == vector_scaled(self@, n as int)),
            !fits_exponents(vector_scaled(self@, n as int)) ==> r is None,
    {
        let ln = self.exponents.len();
        let mut v: Vec<i64> = Vec::new();
        let mut i: usize = 0;
        while i < ln
            invariant
                i <= ln,
                ln == self@.len() == self.exponents@.len(),
                v@.len() == i,
                forall|j: int| 0 <= j < i ==> v@[j] == self@[j] * (n as int),
            decreases ln - i,
        {
            let s = self.exponents[i].checked_mul(n);
            match s {
                Some(x) => v.push(x),
                None => {
                    proof {
                        assert(vector_scaled(self@, n as int)[i as int] == self@[i as int] * (
                        n as int));
                        assert(!fits_exponents(vector_scaled(self@, n as int)));
                    }
                    return None;
                },
            }
            i += 1;
        }
        let r = ExponentVector { exponents: v };
        proof {
            assert(r@ =~= vector_scaled(self@, n as int));
            assert(fits_exponents(vector_scaled(self@, n as int)));
        }
        Some(r)
    }

    /// Component-wise multiple by an integer exponent.
    pub fn power(&self, n: i64) -> (r: ExponentVector)
        requires
            fits_exponents(vector_scaled(self@, n as int)),
        ensures
            r@ == vector_scaled(self@, n as int),
    {
        let r = self.checked_power(n);
        match r {
            Some(v) => v,
            None => {
                proof {
                    assert(false);
                }
                ExponentVector { exponents: Vec::new() }
            },
        }
    }

    /// Exact root: component-wise division by `d`, or the least offending
    /// index and its exponent where some component is not divisible.
    fn root(&self, d: i64) -> (r: Result<ExponentVector, ResolveError>)
        requires
            d == 2 || d == 3,
        ensures
            all_divisible(self@, d as int) ==> (r is Ok && r->Ok_0@ == vector_root(
                self@,
                d as int,
            )),
            !all_divisible(self@, d as int) ==> {
                let i = first_non_divisible(self@, d as int);
                &&& r is Err
                &&& 0 <= i < self@.len()
                &&& self@[i] % (d as int) != 0
                &&& all_divisible(self@.take(i), d as int)
                &&& r->Err_0@ == (ResolveErrorValue::InvalidRootOperation {
                    axis: i,
                    exponent: self@[i],
                })
            },
    {
        let n = self.exponents.len();
        let mut v: Vec<i64> = Vec::new();
        let mut i: usize = 0;
        while i < n
            invariant
                i <= n,
                d == 2 || d == 3,
                n == self@.len() == self.exponents@.len(),
                v@.len() == i,
                all_divisible(self@.take(i as int), d as int),
                forall|j: int| 0 <= j < i ==> v@[j] == self@[j] / (d as int),
            decreases n - i,
        {
            let e = self.exponents[i];
            if e % d != 0 {
                proof {
                    assert(self@.take(i as int + 1).last() == self@[i as int]);
                    assert(!all_divisible(self@, d as int));
                    let w = first_non_divisible(self@, d as int);
                    assert(0 <= w < self@.len() && self@[w] % (d as int) != 0 && all_divisible(
                        self@.take(w),
                        d as int,
                    )) by {
                        assert(0 <= i < self@.len() && self@[i as int] % (d as int) != 0
                            && all_divisible(self@.take(i as int), d as int));
                    }
                    assert(w == i) by {
                        if w < i {
                            assert(self@.take(i as int)[w] == self@[w]);
                        }
                        if w > i {
                            assert(self@.take(w)[i as int] == self@[i as int]);
                        }
                    }
                }
                return Err(ResolveError::InvalidRootOperation { axis: i, exponent: e });
            }
            v.push(e / d);
            proof {
                assert forall|j: int| 0 <= j < i + 1 implies #[trigger] self@.take(i as int + 1)[j]
                    % (d as int) == 0 by {
                    assert(self@.take(i as int + 1)[j] == self@[j]);
                    if j < i {
                        assert(self@.take(i as int)[j] == self@[j]);
                    }
                }
            }
            i += 1;
        }
        let r = ExponentVector { exponents: v };
        proof {
            assert(self@.take(n as int) =~= self@);
            assert(r@ =~= vector_root(self@, d as int));
        }
        Ok(r)
    }

    /// Square root: every component must be divisible by two; fails with the
    /// least offending base-dimension index and its exponent otherwise.
    pub fn sqrt(&self) -> (r: Result<ExponentVector, ResolveError>)
        ensures
            all_divisible(self@, 2) ==> (r is Ok && r->Ok_0@ == vector_root(self@, 2)),
            !all_divisible(self@, 2) ==> {
                let i = first_non_divisible(self@, 2);
                &&& r is Err
                &&& 0 <= i < self@.len()
                &&& self@[i] % 2 != 0
                &&& r->Err_0@ == (ResolveErrorValue::InvalidRootOperation {
                    axis: i,
                    exponent: self@[i],
                })
            },
    {
        self.root(2)
    }

    /// Cube root: every component must be divisible by three; fails with the
    /// least offending base-dimension index and its exponent otherwise.
    pub fn cbrt(&self) -> (r: Result<ExponentVector, ResolveError>)
        ensures
            all_divisible(self@, 3) ==> (r is Ok && r->Ok_0@ == vector_root(self@, 3)),
            !all_divisible(self@, 3) ==> {
                let i = first_non_divisible(self@, 3);
                &&& r is Err
                &&& 0 <= i < self@.len()
                &&& self@[i] % 3 != 0
                &&& r->Err_0@ == (ResolveErrorValue::InvalidRootOperation {
                    axis: i,
                    exponent: self@[i],
                })
            },
    {
        self.root(3)
    }
}

/// Multiplying by the dimensionless vector changes nothing.
pub proof fn lemma_multiply_identity(a: Seq<int>)
    ensures
        vector_sum(a, zero_vector(a.len())) == a,
{
    assert(vector_sum(a, zero_vector(a.len())) =~= a);
}

/// Dividing a vector by itself gives the dimensionless vector.
pub proof fn lemma_divide_self(a: Seq<int>)
    ensures
        vector_difference(a, a) == zero_vector(a.len()),
{
    assert(vector_difference(a, a) =~= zero_vector(a.len()));
}

/// Inverting twice changes nothing.
pub proof fn lemma_invert_involution(a: Seq<int>)
    ensures
        vector_negation(vector_negation(a)) == a,
{
    assert(vector_negation(vector_negation(a)) =~= a);
}

/// Multiplication of dimensions is commutative.
pub proof fn lemma_multiply_commutes(a: Seq<int>, b: Seq<int>)
    requires
        a.len() == b.len(),
    ensures
        vector_sum(a, b) == vector_sum(b, a),
{
    assert(vector_sum(a, b) =~= vector_sum(b, a));
}

/// The square root of a square is the original vector: `multiply(a, a)` is
/// everywhere even, and halving it restores `a`.
pub proof fn lemma_sqrt_of_square(a: Seq<int>)
    ensures
        all_divisible(vector_sum(a, a), 2),
        vector_root(vector_sum(a, a), 2) == a,
{
    assert forall|i: int| 0 <= i < a.len() implies #[trigger] vector_sum(a, a)[i] % 2 == 0 by {
        assert(vector_sum(a, a)[i] == 2 * a[i]);
    }
    assert forall|i: int| 0 <= i < a.len() implies #[trigger] vector_root(vector_sum(a, a), 2)[i]
        == a[i] by {
        assert(vector_sum(a, a)[i] == 2 * a[i]);
    }
    assert(vector_root(vector_sum(a, a), 2) =~= a);
}

} // verus!
