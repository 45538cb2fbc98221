//! The integer part of the point-set constructors: which input points become
//! control points (closing and periodic wrapping), the uniform knot vectors,
//! and the Greville parameters of interpolation, as exact rationals.
use vstd::prelude::*;
use crate::text::{chars_of, string_from_chars};

verus! {

/// Default polynomial degree of curves built from point sets.
pub fn default_degree() -> (d: usize)
    ensures
        d == 3,
{
    3
}

/// Why a point set was refused.
#[derive(Clone, Copy, Debug, PartialEq, Eq)]
pub enum ConstructError {
    DegreeOutOfRange,
    InvalidPoints,
    TooFewPoints,
    TooManyPoints,
}

pub open spec fn construct_error_message(e: ConstructError) -> Seq<char> {
    match e {
        ConstructError::DegreeOutOfRange => "degree must be between 1 and 8"@,
        ConstructError::InvalidPoints => "points must have a consistent dimension of 2 or 3 and finite coordinates"@,
        ConstructError::TooFewPoints => "provide at least degree + 1 points (excluding the repeated periodic endpoint)"@,
        ConstructError::TooManyPoints => "interpolation supports at most 512 points"@,
    }
}

impl ConstructError {
    /// The text of the error.
    pub fn message(&self) -> (m: String)
        ensures
            m@ == construct_error_message(*self),
    {
        let v = match self {
            ConstructError::DegreeOutOfRange => chars_of("degree must be between 1 and 8"),
            ConstructError::InvalidPoints => chars_of(
                "points must have a consistent dimension of 2 or 3 and finite coordinates",
            ),
            ConstructError::TooFewPoints => chars_of(
                "provide at least degree + 1 points (excluding the repeated periodic endpoint)",
            ),
            ConstructError::TooManyPoints => chars_of("interpolation supports at most 512 points"),
        };
        string_from_chars(v)
    }
}

pub open spec fn indices(n: nat) -> Seq<usize> {
    Seq::new(n, |i: int| i as usize)
}

/// Which input points, by index, the constructors use, or why none: `dims`
/// are the lengths of the input points, `finite` whether all coordinates are
/// finite, and `ends_equal` whether the first and the last point are equal.
pub open spec fn prepared_points(
    dims: Seq<usize>,
    finite: bool,
    ends_equal: bool,
    degree: usize,
    close: bool,
    periodic: bool,
) -> Result<Seq<usize>, ConstructError> {
    let dim = if dims.len() > 0 {
        dims[0]
    } else {
        0
    };
    if !(1 <= degree <= 8) {
        Err(ConstructError::DegreeOutOfRange)
    } else if !(2 <= dim <= 3) || (exists|i: int| 0 <= i < dims.len() && dims[i] != dim)
        || !finite {
        Err(ConstructError::InvalidPoints)
    } else {
        let n = if periodic && dims.len() > 1 && ends_equal {
            (dims.len() - 1) as nat
        } else {
            dims.len()
        };
        if n < degree + 1 {
            Err(ConstructError::TooFewPoints)
        } else if close && !periodic && !ends_equal {
            Ok(indices(n).push(0))
        } else {
            Ok(indices(n))
        }
    }
}

/// The input points the constructors keep, by index: a repeated periodic
/// endpoint is dropped, and a closed open curve gets its first point again.
pub fn prepare_points(
    dims: &[usize],
    finite: bool,
    ends_equal: bool,
    degree: usize,
    close: bool,
    periodic: bool,
) -> (r: Result<Vec<usize>, ConstructError>)
    ensures
        match r {
            Ok(v) => prepared_points(dims@, finite, ends_equal, degree, close, periodic) == Ok::<
                Seq<usize>,
                ConstructError,
            >(v@),
            Err(e) => prepared_points(dims@, finite, ends_equal, degree, close, periodic) == Err::<
                Seq<usize>,
                ConstructError,
            >(e),
        },
{
    if !(1 <= degree && degree <= 8) {
        return Err(ConstructError::DegreeOutOfRange);
    }
    let dim: usize = if dims.len() > 0 {
        dims[0]
    } else {
        0
    };
    if !(2 <= dim && dim <= 3) || !finite {
        return Err(ConstructError::InvalidPoints);
    }
    let mut i: usize = 0;
    while i < dims.len()
        invariant
            i <= dims@.len(),
            dims@.len() > 0,
            dim == dims@[0],
            2 <= dim <= 3,
            1 <= degree <= 8,
            finite,
            forall|j: int| 0 <= j < i ==> dims@[j] == dim,
        decreases dims@.len() - i,
    {
        if dims[i] != dim {
            assert(dims@[i as int] != dim);
            return Err(ConstructError::InvalidPoints);
        }
        i += 1;
    }
    let n: usize = if periodic && dims.len() > 1 && ends_equal {
        dims.len() - 1
    } else {
        dims.len()
    };
    if n < degree + 1 {
        return Err(ConstructError::TooFewPoints);
    }
    let mut v: Vec<usize> = Vec::new();
    let mut k: usize = 0;
    while k < n
        invariant
            k <= n,
            v@ == indices(k as nat),
        decreases n - k,
    {
        v.push(k);
        k += 1;
        assert(v@ =~= indices(k as nat));
    }
    if close && !periodic && !ends_equal {
        v.push(0);
    }
    Ok(v)
}

/// The most points that interpolation solves for.
pub const MAX_INTERPOLATION_POINTS: usize = 512;

/// The points that interpolation passes through, or why none: the prepared
/// points, at most `MAX_INTERPOLATION_POINTS` of them.
pub open spec fn interpolated_points(
    dims: Seq<usize>,
    finite: bool,
    ends_equal: bool,
    degree: usize,
    close: bool,
    periodic: bool,
) -> Result<Seq<usize>, ConstructError> {
    match prepared_points(dims, finite, ends_equal, degree, close, periodic) {
        Ok(v) => if v.len() > MAX_INTERPOLATION_POINTS {
            Err(ConstructError::TooManyPoints)
        } else {
            Ok(v)
        },
        Err(e) => Err(e),
    }
}

/// The input points of interpolation, by index, as `prepare_points` keeps
/// them, refused where more than `MAX_INTERPOLATION_POINTS` remain.
pub fn interpolation_points(
    dims: &[usize],
    finite: bool,
    ends_equal: bool,
    degree: usize,
    close: bool,
    periodic: bool,
) -> (r: Result<Vec<usize>, ConstructError>)
    ensures
        match r {
            Ok(v) => interpolated_points(dims@, finite, ends_equal, degree, close, periodic)
                == Ok::<Seq<usize>, ConstructError>(v@),
            Err(e) => interpolated_points(dims@, finite, ends_equal, degree, close, periodic)
                == Err::<Seq<usize>, ConstructError>(e),
        },
{
    let points = prepare_points(dims, finite, ends_equal, degree, close, periodic)?;
    if points.len() > MAX_INTERPOLATION_POINTS {
        return Err(ConstructError::TooManyPoints);
    }
    Ok(points)
}

/// The control points of the curve data, as indices into `count` points: for a
/// periodic curve, the first `degree` points are repeated at the end.
pub open spec fn wrapped_points(count: nat, degree: nat, periodic: bool) -> Seq<usize> {
    if periodic {
        indices(count) + indices(degree)
    } else {
        indices(count)
    }
}

/// The control point order of the curve data built from `count` points.
pub fn wrap_points(count: usize, degree: usize, periodic: bool) -> (v: Vec<usize>)
    requires
        degree <= count,
        count + degree <= usize::MAX,
    ensures
        v@ == wrapped_points(count as nat, degree as nat, periodic),
{
    let mut v: Vec<usize> = Vec::new();
    let mut k: usize = 0;
    while k < count
        invariant
            k <= count,
            v@ == indices(k as nat),
        decreases count - k,
    {
        v.push(k);
        k += 1;
        assert(v@ =~= indices(k as nat));
    }
    if periodic {
        let mut j: usize = 0;
        while j < degree
            invariant
                j <= degree,
                v@ == indices(count as nat) + indices(j as nat),
            decreases degree - j,
        {
            v.push(j);
            j += 1;
            assert(v@ =~= indices(count as nat) + indices(j as nat));
        }
    }
    v
}

/// Knot `i` of the uniform vector for `count` control points: periodic
/// vectors count up from `-degree`; open ones are clamped, with `degree + 1`
/// knots at 0 and at `count - degree`.
pub open spec fn uniform_knot(i: int, count: int, degree: int, periodic: bool) -> int {
    if periodic {
        i - degree
    } else if i <= degree {
        0
    } else if i >= count {
        count - degree
    } else {
        i - degree
    }
}

pub open spec fn uniform_knot_count(count: nat, degree: nat, periodic: bool) -> nat {
    if periodic {
        count + 2 * degree + 1
    } else {
        count + degree + 1
    }
}

pub open spec fn uniform_knot_seq(count: nat, degree: nat, periodic: bool) -> Seq<i64> {
    Seq::new(
        uniform_knot_count(count, degree, periodic),
        |i: int| uniform_knot(i, count as int, degree as int, periodic) as i64,
    )
}

/// The uniform knot vector of the point-set constructors.
pub fn uniform_knots(count: usize, degree: usize, periodic: bool) -> (k: Vec<i64>)
    requires
        degree <= count,
        count + 2 * degree + 1 <= i64::MAX,
        count + 2 * degree + 1 <= usize::MAX,
    ensures
        k@ == uniform_knot_seq(count as nat, degree as nat, periodic),
{
    let total: usize = if periodic {
        count + 2 * degree + 1
    } else {
        count + degree + 1
    };
    let mut k: Vec<i64> = Vec::new();
    let mut i: usize = 0;
    while i < total
        invariant
            i <= total,
            total == uniform_knot_count(count as nat, degree as nat, periodic),
            count + 2 * degree + 1 <= i64::MAX,
            degree <= count,
            k@.len() == i,
            forall|j: int|
                0 <= j < i ==> #[trigger] k@[j] == uniform_knot(
                    j,
                    count as int,
                    degree as int,
                    periodic,
                ) as i64,
        decreases total - i,
    {
        let value: i64 = if periodic {
            i as i64 - degree as i64
        } else if i <= degree {
            0
        } else if i >= count {
            (count - degree) as i64
        } else {
            (i - degree) as i64
        };
        k.push(value);
        i += 1;
    }
    assert(k@ =~= uniform_knot_seq(count as nat, degree as nat, periodic));
    k
}

/// A parameter value `numerator / denominator`.
#[derive(Clone, Copy, Debug, PartialEq, Eq)]
pub struct Parameter {
    pub numerator: i64,
    pub denominator: i64,
}

/// The sum of knots `i + 1 ..= i + j`.
pub open spec fn knot_window_sum(knots: Seq<i64>, i: int, j: int) -> int
    decreases j,
{
    if j <= 0 {
        0
    } else {
        knot_window_sum(knots, i, j - 1) + knots[i + j]
    }
}

/// The parameter at which point `i` is interpolated: the Greville abscissa
/// (the average of the `degree` knots after knot `i`), or, on the periodic
/// grid, `i`, shifted by a half for even degrees.
pub open spec fn greville_parameter(
    knots: Seq<i64>,
    i: int,
    degree: int,
    periodic: bool,
) -> (int, int) {
    if periodic {
        if degree % 2 == 0 {
            (2 * i + 1, 2)
        } else {
            (i, 1)
        }
    } else {
        (knot_window_sum(knots, i, degree), degree)
    }
}

proof fn lemma_uniform_knot_bounds(i: int, count: int, degree: int, periodic: bool)
    requires
        0 <= degree <= count,
        0 <= i,
    ensures
        -degree <= uniform_knot(i, count, degree, periodic) <= i,
{
}

/// The interpolation parameters of `count` points, as exact fractions.
pub fn greville_parameters(count: usize, degree: usize, knots: &[i64], periodic: bool) -> (r: Vec<
    Parameter,
>)
    requires
        1 <= degree <= 8,
        degree <= count,
        count + 2 * degree + 1 <= i64::MAX / 16,
        count + 2 * degree + 1 <= usize::MAX,
        knots@ == uniform_knot_seq(count as nat, degree as nat, periodic),
    ensures
        r@.len() == count,
        forall|i: int|
            0 <= i < count ==> ((#[trigger] r@[i]).numerator as int, r@[i].denominator as int) == (
            greville_parameter(knots@, i, degree as int, periodic)),
{
    let mut r: Vec<Parameter> = Vec::new();
    let mut i: usize = 0;
    while i < count
        invariant
            i <= count,
            1 <= degree <= 8,
            degree <= count,
            count + 2 * degree + 1 <= i64::MAX / 16,
            count + 2 * degree + 1 <= usize::MAX,
            knots@ == uniform_knot_seq(count as nat, degree as nat, periodic),
            r@.len() == i,
            forall|j: int|
                0 <= j < i ==> ((#[trigger] r@[j]).numerator as int, r@[j].denominator as int) == (
                greville_parameter(knots@, j, degree as int, periodic)),
        decreases count - i,
    {
        let p = if periodic {
            if degree % 2 == 0 {
                Parameter { numerator: 2 * i as i64 + 1, denominator: 2 }
            } else {
                Parameter { numerator: i as i64, denominator: 1 }
            }
        } else {
            let mut sum: i64 = 0;
            let mut j: usize = 1;
            while j <= degree
                invariant
                    1 <= j <= degree + 1,
                    i < count,
                    1 <= degree <= 8,
                    degree <= count,
                    count + 2 * degree + 1 <= i64::MAX / 16,
                    count + 2 * degree + 1 <= usize::MAX,
                    knots@ == uniform_knot_seq(count as nat, degree as nat, periodic),
                    !periodic,
                    sum == knot_window_sum(knots@, i as int, j - 1),
                    -(degree as int) * (j - 1) <= sum <= (i + degree) * (j - 1),
                decreases degree + 1 - j,
            {
                proof {
                    lemma_uniform_knot_bounds(
                        i + j,
                        count as int,
                        degree as int,
                        periodic,
                    );
                    assert(knots@[i + j] == uniform_knot(
                        i + j,
                        count as int,
                        degree as int,
                        periodic,
                    ));
                    assert(-(degree as int) * j <= sum + knots@[i + j] <= (i + degree) * j)
                        by (nonlinear_arith)
                        requires
                            -(degree as int) * (j - 1) <= sum <= (i + degree) * (j - 1),
                            -(degree as int) <= knots@[i + j] <= i + j,
                            j <= degree,
                            0 <= i,
                    ;
                    assert((i + degree) * j <= (count + degree) * 8) by (nonlinear_arith)
                        requires
                            i < count,
                            j <= degree,
                            degree <= 8,
                    ;
                }
                sum = sum + knots[i + j];
                j += 1;
            }
            Parameter { numerator: sum, denominator: degree as i64 }
        };
        r.push(p);
        i += 1;
    }
    r
}

/// The constructors' knot vectors are what a curve accepts: nondecreasing,
/// with a nonempty active domain `knots[degree] < knots[count]`; open vectors
/// are clamped, with `degree + 1` knots at 0 and at `count - degree`.
pub proof fn law_uniform_knots_valid(count: nat, degree: nat, periodic: bool)
    requires
        1 <= degree < count,
        count + 2 * degree + 1 <= i64::MAX,
    ensures
        ({
            let k = uniform_knot_seq(count, degree, periodic);
            &&& forall|i: int, j: int| 0 <= i <= j < k.len() ==> k[i] <= k[j]
            &&& k[degree as int] < k[count as int]
            &&& !periodic ==> forall|i: int| 0 <= i <= degree ==> k[i] == 0
            &&& !periodic ==> forall|i: int|
                count <= i < k.len() ==> k[i] == count - degree
        }),
{
    let k = uniform_knot_seq(count, degree, periodic);
    assert forall|i: int, j: int| 0 <= i <= j < k.len() implies k[i] <= k[j] by {
        lemma_uniform_knot_bounds(i, count as int, degree as int, periodic);
        lemma_uniform_knot_bounds(j, count as int, degree as int, periodic);
        assert(k[i] == uniform_knot(i, count as int, degree as int, periodic));
        assert(k[j] == uniform_knot(j, count as int, degree as int, periodic));
    }
}

proof fn lemma_window_bounds(knots: Seq<i64>, i: int, j: int, lo: int, hi: int)
    requires
        0 <= j,
        0 <= i,
        i + j < knots.len(),
        forall|m: int| i < m <= i + j ==> lo <= #[trigger] knots[m] <= hi,
    ensures
        lo * j <= knot_window_sum(knots, i, j) <= hi * j,
    decreases j,
{
    if j > 0 {
        lemma_window_bounds(knots, i, j - 1, lo, hi);
        assert(lo * j == lo * (j - 1) + lo) by (nonlinear_arith);
        assert(hi * j == hi * (j - 1) + hi) by (nonlinear_arith);
    }
}

/// The interpolation parameters of an open curve lie in its active domain
/// `[0, count - degree]`.
pub proof fn law_greville_in_domain(count: nat, degree: nat, i: int)
    requires
        1 <= degree < count,
        count + 2 * degree + 1 <= i64::MAX,
        0 <= i < count,
    ensures
        ({
            let k = uniform_knot_seq(count, degree, false);
            let (num, den) = greville_parameter(k, i, degree as int, false);
            &&& den == degree
            &&& 0 <= num <= (count - degree) * degree
        }),
{
    let k = uniform_knot_seq(count, degree, false);
    assert forall|m: int| i < m <= i + degree implies 0 <= #[trigger] k[m] <= count - degree by {
        lemma_uniform_knot_bounds(m, count as int, degree as int, false);
        assert(k[m] == uniform_knot(m, count as int, degree as int, false));
    }
    lemma_window_bounds(k, i, degree as int, 0, count - degree);
}

proof fn lemma_window_shift(knots: Seq<i64>, i: int, j: int)
    requires
        0 <= j,
    ensures
        knot_window_sum(knots, i + 1, j) + knots[i + 1] == knot_window_sum(knots, i, j) + knots[i
            + 1 + j],
    decreases j,
{
    if j > 0 {
        lemma_window_shift(knots, i, j - 1);
    }
}

/// The interpolation parameters strictly increase from one point to the
/// next, so that no two points are interpolated at the same parameter.
pub proof fn law_greville_increasing(count: nat, degree: nat, periodic: bool, i: int)
    requires
        1 <= degree < count,
        count + 2 * degree + 1 <= i64::MAX,
        0 <= i,
        i + 1 < count,
    ensures
        ({
            let k = uniform_knot_seq(count, degree, periodic);
            let (a, d) = greville_parameter(k, i, degree as int, periodic);
            let (b, e) = greville_parameter(k, i + 1, degree as int, periodic);
            &&& d == e
            &&& d > 0
            &&& a < b
        }),
{
    if !periodic {
        let k = uniform_knot_seq(count, degree, false);
        lemma_window_shift(k, i, degree as int);
        assert(k[i + 1] == uniform_knot(i + 1, count as int, degree as int, false));
        assert(k[i + 1 + degree] == uniform_knot(i + 1 + degree, count as int, degree as int, false));
    }
}

proof fn lemma_periodic_window(count: nat, degree: nat, i: int, j: int)
    requires
        1 <= degree < count,
        0 <= i < count,
        0 <= j <= degree,
        count + 2 * degree + 1 <= i64::MAX,
    ensures
        2 * knot_window_sum(uniform_knot_seq(count, degree, true), i, j) == 2 * j * (i - degree) + j
            * (j + 1),
    decreases j,
{
    let k = uniform_knot_seq(count, degree, true);
    if j > 0 {
        lemma_periodic_window(count, degree, i, j - 1);
        assert(k[i + j] == uniform_knot(i + j, count as int, degree as int, true) as i64);
        assert(k[i + j] == i + j - degree);
        let a = knot_window_sum(k, i, j - 1);
        let w = knot_window_sum(k, i, j);
        assert(w == a + k[i + j]);
        let dd = degree as int;
        assert(2 * w == 2 * j * (i - dd) + j * (j + 1)) by (nonlinear_arith)
            requires
                2 * a == 2 * (j - 1) * (i - dd) + (j - 1) * ((j - 1) + 1),
                w == a + (i + j - dd),
        ;
    } else {
        assert(2 * j * (i - degree) + j * (j + 1) == 0) by (nonlinear_arith)
            requires
                j == 0,
        ;
    }
}

/// On a periodic curve, the parameter of point `i` is the Greville abscissa
/// of the knots (the average of the `degree` knots after knot `i`) moved by a
/// whole number of knot spans into `[i, i + 1)`: a half-integer for even
/// degrees, where interpolating at the knots themselves would be singular,
/// and an integer for odd ones.
pub proof fn law_periodic_parameter_is_shifted_greville(count: nat, degree: nat, i: int)
    requires
        1 <= degree < count,
        count + 2 * degree + 1 <= i64::MAX,
        0 <= i < count,
    ensures
        ({
            let k = uniform_knot_seq(count, degree, true);
            let (num, den) = greville_parameter(k, i, degree as int, true);
            &&& den > 0
            &&& den * i <= num < den * (i + 1)
            &&& (num * degree - den * knot_window_sum(k, i, degree as int)) % (den * degree) == 0
        }),
{
    let k = uniform_knot_seq(count, degree, true);
    let w = knot_window_sum(k, i, degree as int);
    lemma_periodic_window(count, degree, i, degree as int);
    let d = degree as int;
    if d % 2 == 0 {
        let z = d / 2;
        assert((2 * i + 1) * d - 2 * w == z * (2 * d)) by (nonlinear_arith)
            requires
                2 * w == 2 * d * (i - d) + d * (d + 1),
                d == 2 * z,
        ;
        vstd::arithmetic::div_mod::lemma_mod_multiples_basic(z, 2 * d);
    } else {
        let z = (d - 1) / 2;
        assert(i * d - 1 * w == z * (1 * d)) by (nonlinear_arith)
            requires
                2 * w == 2 * d * (i - d) + d * (d + 1),
                d == 2 * z + 1,
        ;
        vstd::arithmetic::div_mod::lemma_mod_multiples_basic(z, 1 * d);
    }
}

/// A set of valid points is accepted exactly when, after a repeated periodic
/// endpoint is dropped, at least `degree + 1` remain: the points are kept in
/// order, and an open curve that is closed and does not end where it starts
/// gets its first point again.
pub proof fn law_prepare_accepts_enough_points(
    dims: Seq<usize>,
    finite: bool,
    ends_equal: bool,
    degree: usize,
    close: bool,
    periodic: bool,
)
    requires
        0 < dims.len() <= usize::MAX,
        2 <= dims[0] <= 3,
        forall|i: int| 0 <= i < dims.len() ==> #[trigger] dims[i] == dims[0],
        finite,
        1 <= degree <= 8,
    ensures
        ({
            let kept: int = if periodic && dims.len() > 1 && ends_equal {
                dims.len() - 1
            } else {
                dims.len() as int
            };
            let r = prepared_points(dims, finite, ends_equal, degree, close, periodic);
            &&& r is Ok <==> kept >= degree + 1
            &&& r is Err ==> r == Err::<Seq<usize>, ConstructError>(ConstructError::TooFewPoints)
            &&& r matches Ok(v) ==> {
                &&& v.len() == kept + if close && !periodic && !ends_equal {
                    1int
                } else {
                    0int
                }
                &&& forall|j: int| 0 <= j < kept ==> v[j] == j
                &&& v.len() > kept ==> v[kept] == 0
            }
        }),
{
    assert(!(exists|i: int| 0 <= i < dims.len() && #[trigger] dims[i] != dims[0]));
    let kept: int = if periodic && dims.len() > 1 && ends_equal {
        dims.len() - 1
    } else {
        dims.len() as int
    };
    let v = indices(kept as nat);
    assert forall|j: int| 0 <= j < kept implies v[j] == j by {}
    if close && !periodic && !ends_equal {
        assert(v.push(0)[kept] == 0);
        assert forall|j: int| 0 <= j < kept implies v.push(0)[j] == j by {
            assert(v.push(0)[j] == v[j]);
        }
    }
}

} // verus!
