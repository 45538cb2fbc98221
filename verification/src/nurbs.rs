//! The integer bookkeeping of standalone NURBS input: which degree the knot and
//! control point counts imply, the Rhino knot convention, and style colors.
use vstd::prelude::*;
use crate::text::{append_chars, chars_of, push_decimal, string_from_chars, decimal};

verus! {

/// How a knot vector is stored: the full repeated vector, or Rhino's, which
/// omits one knot at each end.
#[derive(Clone, Copy, Debug, PartialEq, Eq)]
pub enum KnotFormat {
    Full,
    Rhino,
}

impl Default for KnotFormat {
    fn default() -> (f: Self)
        ensures
            f == KnotFormat::Full,
    {
        KnotFormat::Full
    }
}

/// Why the knot and control point counts were refused.
#[derive(Clone, Copy, Debug, PartialEq, Eq)]
pub enum CurveError {
    DegreeOutOfRange,
    DegreeConflict(usize),
    TooFewControlPoints,
}

pub open spec fn curve_error_message(e: CurveError) -> Seq<char> {
    match e {
        CurveError::DegreeOutOfRange => "knots and control_points must imply a degree between 1 and 8"@,
        CurveError::DegreeConflict(d) => "degree conflicts with degree "@ + decimal(d as nat)
            + " inferred from knots and control_points"@,
        CurveError::TooFewControlPoints => "control_points must contain at least degree + 1 points"@,
    }
}

impl CurveError {
    /// The text of the error.
    pub fn message(&self) -> (m: String)
        ensures
            m@ == curve_error_message(*self),
    {
        let v = match self {
            CurveError::DegreeOutOfRange => chars_of(
                "knots and control_points must imply a degree between 1 and 8",
            ),
            CurveError::DegreeConflict(d) => {
                let mut v = chars_of("degree conflicts with degree ");
                push_decimal(&mut v, *d as u64);
                append_chars(&mut v, &chars_of(" inferred from knots and control_points"));
                v
            },
            CurveError::TooFewControlPoints => chars_of(
                "control_points must contain at least degree + 1 points",
            ),
        };
        string_from_chars(v)
    }
}

/// The degree that `knots` knots and `count` control points imply.
pub open spec fn implied_degree(format: KnotFormat, knots: int, count: int) -> int {
    match format {
        KnotFormat::Full => knots - count - 1,
        KnotFormat::Rhino => knots + 1 - count,
    }
}

/// The degree of the curve, or why the counts are refused.
pub open spec fn degree_result(
    format: KnotFormat,
    knots: nat,
    count: nat,
    explicit: Option<usize>,
) -> Result<nat, CurveError> {
    let d = implied_degree(format, knots as int, count as int);
    if !(1 <= d <= 8) {
        Err(CurveError::DegreeOutOfRange)
    } else if explicit is Some && explicit->0 != d {
        Err(CurveError::DegreeConflict(d as usize))
    } else if count < d + 1 {
        Err(CurveError::TooFewControlPoints)
    } else {
        Ok(d as nat)
    }
}

/// The degree implied by the knot and control point counts, checked against
/// an explicit degree where one is given.
pub fn infer_degree(
    format: KnotFormat,
    knot_count: usize,
    control_count: usize,
    explicit: Option<usize>,
) -> (r: Result<usize, CurveError>)
    requires
        knot_count < usize::MAX,
        control_count < usize::MAX,
    ensures
        match r {
            Ok(d) => degree_result(format, knot_count as nat, control_count as nat, explicit)
                == Ok::<nat, CurveError>(d as nat),
            Err(e) => degree_result(format, knot_count as nat, control_count as nat, explicit)
                == Err::<nat, CurveError>(e),
        },
{
    let degree = match format {
        KnotFormat::Full => knot_count.checked_sub(control_count + 1),
        KnotFormat::Rhino => (knot_count + 1).checked_sub(control_count),
    };
    let degree = match degree {
        Some(p) if 1 <= p && p <= 8 => p,
        _ => {
            return Err(CurveError::DegreeOutOfRange);
        },
    };
    match explicit {
        Some(e) if e != degree => {
            return Err(CurveError::DegreeConflict(degree));
        },
        _ => {},
    }
    if control_count < degree + 1 {
        return Err(CurveError::TooFewControlPoints);
    }
    Ok(degree)
}

/// Rhino's knots with the two omitted outer knots restored: the first and the
/// last knot repeated once more.
pub open spec fn rhino_to_full<T>(knots: Seq<T>) -> Seq<T> {
    seq![knots[0]] + knots + seq![knots.last()]
}

/// The full knot vector for knots stored in the Rhino convention.
pub fn rhino_full_knots<T: Copy>(knots: &[T]) -> (full: Vec<T>)
    requires
        knots@.len() > 0,
        knots@.len() + 2 <= usize::MAX,
    ensures
        full@ == rhino_to_full(knots@),
{
    let mut full: Vec<T> = Vec::new();
    full.push(knots[0]);
    let mut i: usize = 0;
    while i < knots.len()
        invariant
            i <= knots@.len(),
            knots@.len() > 0,
            full@ == seq![knots@[0]] + knots@.take(i as int),
        decreases knots@.len() - i,
    {
        full.push(knots[i]);
        i += 1;
        assert(full@ =~= seq![knots@[0]] + knots@.take(i as int));
    }
    full.push(knots[knots.len() - 1]);
    assert(full@ =~= rhino_to_full(knots@));
    full
}

/// Rhino knots are the full vector without its two ends: the same degree is
/// inferred from both, or the same error is reported.
pub proof fn law_rhino_and_full_agree(knots: nat, count: nat, explicit: Option<usize>)
    ensures
        degree_result(KnotFormat::Rhino, knots, count, explicit) == degree_result(
            KnotFormat::Full,
            knots + 2,
            count,
            explicit,
        ),
{
}

/// An accepted degree lies in 1..=8, leaves at least degree + 1 control
/// points, and the full knot vector has exactly count + degree + 1 knots, so
/// that the active domain `knots[degree]..knots[count]` can be read.
pub proof fn law_accepted_degree_fits(
    format: KnotFormat,
    knots: nat,
    count: nat,
    explicit: Option<usize>,
)
    requires
        degree_result(format, knots, count, explicit) is Ok,
    ensures
        ({
            let d = degree_result(format, knots, count, explicit)->Ok_0;
            let full = match format {
                KnotFormat::Full => knots,
                KnotFormat::Rhino => knots + 2,
            };
            &&& 1 <= d <= 8
            &&& count >= d + 1
            &&& full == count + d + 1
            &&& explicit is Some ==> explicit->0 == d
        }),
{
}

pub open spec fn is_hex_digit(c: char) -> bool {
    let u = c as u32;
    ||| 48 <= u <= 57
    ||| 65 <= u <= 70
    ||| 97 <= u <= 102
}

/// A `#RRGGBB` color: `#` and six ASCII hexadecimal digits.
pub open spec fn is_hex_color(s: Seq<char>) -> bool {
    &&& s.len() == 7
    &&& s[0] == '#'
    &&& forall|i: int| 1 <= i < 7 ==> is_hex_digit(#[trigger] s[i])
}

/// Whether `color` is written `#RRGGBB`.
pub fn valid_hex_color(color: &str) -> (b: bool)
    ensures
        b == is_hex_color(color@),
{
    let c = chars_of(color);
    if c.len() != 7 || c[0] != '#' {
        return false;
    }
    let mut i: usize = 1;
    while i < 7
        invariant
            1 <= i <= 7,
            c@.len() == 7,
            c@ == color@,
            forall|j: int| 1 <= j < i ==> is_hex_digit(#[trigger] c@[j]),
        decreases 7 - i,
    {
        let u = c[i] as u32;
        if !((48 <= u && u <= 57) || (65 <= u && u <= 70) || (97 <= u && u <= 102)) {
            assert(!is_hex_digit(c@[i as int]));
            return false;
        }
        i += 1;
    }
    true
}

/// The first of the three style colors that is not `#RRGGBB`, by its name.
pub open spec fn color_error(stroke: Seq<char>, polygon: Seq<char>, fill: Seq<char>) -> Option<
    Seq<char>,
> {
    if !is_hex_color(stroke) {
        Some("stroke"@)
    } else if !is_hex_color(polygon) {
        Some("control_polygon_stroke"@)
    } else if !is_hex_color(fill) {
        Some("control_point_fill"@)
    } else {
        None
    }
}

/// Checks the three colors of a curve style, in order.
pub fn validate_colors(stroke: &str, control_polygon_stroke: &str, control_point_fill: &str) -> (r:
    Result<(), String>)
    ensures
        match color_error(stroke@, control_polygon_stroke@, control_point_fill@) {
            None => r is Ok,
            Some(name) => r matches Err(m) && m@ == name + " must be a #RRGGBB color"@,
        },
{
    let name = if !valid_hex_color(stroke) {
        "stroke"
    } else if !valid_hex_color(control_polygon_stroke) {
        "control_polygon_stroke"
    } else if !valid_hex_color(control_point_fill) {
        "control_point_fill"
    } else {
        return Ok(());
    };
    let mut m = chars_of(name);
    append_chars(&mut m, &chars_of(" must be a #RRGGBB color"));
    Err(string_from_chars(m))
}

/// A control point given as two or three finite numbers.
pub open spec fn point_ok(dims: Seq<usize>, finite: Seq<bool>, i: int) -> bool {
    (dims[i] == 2 || dims[i] == 3) && finite[i]
}

pub open spec fn point_error_message(i: nat) -> Seq<char> {
    "control_points["@ + decimal(i) + "] must contain 2 or 3 finite numbers"@
}

/// Checks the control points, given the number of coordinates of each and
/// whether they are all finite; the first bad point is reported.
pub fn check_control_points(dims: &[usize], finite: &[bool]) -> (r: Result<(), String>)
    requires
        dims@.len() == finite@.len(),
    ensures
        r is Ok <==> forall|i: int| 0 <= i < dims@.len() ==> point_ok(dims@, finite@, i),
        r matches Err(m) ==> exists|i: int|
            0 <= i < dims@.len() && !point_ok(dims@, finite@, i) && (forall|j: int|
                0 <= j < i ==> point_ok(dims@, finite@, j)) && m@ == point_error_message(i as nat),
{
    let n = dims.len();
    let mut i: usize = 0;
    while i < n
        invariant
            i <= n,
            n == dims@.len(),
            n == finite@.len(),
            forall|j: int| 0 <= j < i ==> point_ok(dims@, finite@, j),
        decreases n - i,
    {
        if !((dims[i] == 2 || dims[i] == 3) && finite[i]) {
            let mut m = chars_of("control_points[");
            push_decimal(&mut m, i as u64);
            append_chars(&mut m, &chars_of("] must contain 2 or 3 finite numbers"));
            assert(!point_ok(dims@, finite@, i as int));
            return Err(string_from_chars(m));
        }
        i += 1;
    }
    Ok(())
}

/// Every degree from 1 to 8 is accepted when the counts imply it, enough
/// control points are given, and no other degree is asked for: `count + d + 1`
/// full knots, or two fewer in the Rhino convention.
pub proof fn law_supported_degrees_are_accepted(
    format: KnotFormat,
    knots: nat,
    count: nat,
    explicit: Option<usize>,
    d: nat,
)
    requires
        1 <= d <= 8,
        count >= d + 1,
        format == KnotFormat::Full ==> knots == count + d + 1,
        format == KnotFormat::Rhino ==> knots + 2 == count + d + 1,
        explicit matches Some(e) ==> e == d,
    ensures
        degree_result(format, knots, count, explicit) == Ok::<nat, CurveError>(d),
{
}

/// A color is accepted exactly when it is `#` followed by six characters, each
/// one of the ASCII hexadecimal digits `0`-`9`, `a`-`f` and `A`-`F`.
pub proof fn law_hex_colors_are_hash_and_six_hex_digits(s: Seq<char>)
    ensures
        is_hex_color(s) <==> (s.len() == 7 && s[0] == '#' && forall|i: int|
            1 <= i < 7 ==> "0123456789abcdefABCDEF"@.contains(#[trigger] s[i])),
{
    reveal_strlit("0123456789abcdefABCDEF");
    let digits = "0123456789abcdefABCDEF"@;
    assert forall|c: char| digits.contains(c) <==> is_hex_digit(c) by {
        if is_hex_digit(c) {
            let u = c as u32;
            vstd::utf8::char_u32_cast(c, u);
            if u == 48 {
                vstd::utf8::char_u32_cast(digits[0], u);
                assert(digits[0] == c);
            } else if u == 49 {
                vstd::utf8::char_u32_cast(digits[1], u);
                assert(digits[1] == c);
            } else if u == 50 {
                vstd::utf8::char_u32_cast(digits[2], u);
                assert(digits[2] == c);
            } else if u == 51 {
                vstd::utf8::char_u32_cast(digits[3], u);
                assert(digits[3] == c);
            } else if u == 52 {
                vstd::utf8::char_u32_cast(digits[4], u);
                assert(digits[4] == c);
            } else if u == 53 {
                vstd::utf8::char_u32_cast(digits[5], u);
                assert(digits[5] == c);
            } else if u == 54 {
                vstd::utf8::char_u32_cast(digits[6], u);
                assert(digits[6] == c);
            } else if u == 55 {
                vstd::utf8::char_u32_cast(digits[7], u);
                assert(digits[7] == c);
            } else if u == 56 {
                vstd::utf8::char_u32_cast(digits[8], u);
                assert(digits[8] == c);
            } else if u == 57 {
                vstd::utf8::char_u32_cast(digits[9], u);
                assert(digits[9] == c);
            } else if u == 97 {
                vstd::utf8::char_u32_cast(digits[10], u);
                assert(digits[10] == c);
            } else if u == 98 {
                vstd::utf8::char_u32_cast(digits[11], u);
                assert(digits[11] == c);
            } else if u == 99 {
                vstd::utf8::char_u32_cast(digits[12], u);
                assert(digits[12] == c);
            } else if u == 100 {
                vstd::utf8::char_u32_cast(digits[13], u);
                assert(digits[13] == c);
            } else if u == 101 {
                vstd::utf8::char_u32_cast(digits[14], u);
                assert(digits[14] == c);
            } else if u == 102 {
                vstd::utf8::char_u32_cast(digits[15], u);
                assert(digits[15] == c);
            } else if u == 65 {
                vstd::utf8::char_u32_cast(digits[16], u);
                assert(digits[16] == c);
            } else if u == 66 {
                vstd::utf8::char_u32_cast(digits[17], u);
                assert(digits[17] == c);
            } else if u == 67 {
                vstd::utf8::char_u32_cast(digits[18], u);
                assert(digits[18] == c);
            } else if u == 68 {
                vstd::utf8::char_u32_cast(digits[19], u);
                assert(digits[19] == c);
            } else if u == 69 {
                vstd::utf8::char_u32_cast(digits[20], u);
                assert(digits[20] == c);
            } else if u == 70 {
                vstd::utf8::char_u32_cast(digits[21], u);
                assert(digits[21] == c);
            }
        }
    }
}

} // verus!
