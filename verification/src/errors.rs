//! The errors of hull construction and of hull checking.

use vstd::prelude::*;
use vstd::string::StringExecFns;

verus! {

/// All errors that can happen when vertices are handed over.
#[derive(Debug, Clone, Copy, PartialEq, Eq, Structural)]
pub enum ConvexHullError {
    /// Fewer than four vertices were supplied.
    TooFewVertices {
        /// The number of vertices found.
        count: usize,
    },
    /// All vertices lie in a common plane (or on a line or a point).
    DegenerateInput,
    /// A vertex contains a non-finite coordinate.
    NonFiniteVertex {
        /// The index of the vertex that was not finite.
        index: usize,
    },
}

/// The findings of a consistency check of a computed hull.
#[derive(Debug, Clone, Copy, PartialEq, Eq, Structural, Hash)]
pub enum ConsistencyError {
    /// There is a point outside the convex hull, given by its index.
    PointOutsideConvexHull(usize),
    /// The surface is not closed.
    HullNotClosed,
    /// The relation F = 2V - 4 between faces and vertices does not hold.
    EulerRelationError,
}

} // verus!

verus! {

/// The character of a decimal digit.
pub open spec fn digit_char(d: nat) -> char {
    (d + 48) as char
}

/// The decimal digits of a number, most significant first, with no sign, no
/// leading zeros and no padding.
pub open spec fn decimal(n: nat) -> Seq<char>
    decreases n,
{
    if n < 10 {
        seq![digit_char(n)]
    } else {
        decimal(n / 10).push(digit_char(n % 10))
    }
}

/// The number a string of decimal digits denotes, most significant first.
pub open spec fn numeral_value(s: Seq<char>) -> int
    decreases s.len(),
{
    if s.len() == 0 {
        0
    } else {
        numeral_value(s.drop_last()) * 10 + (s.last() as int - 48)
    }
}

/// The decimal digits of a number are digits from `0` to `9` that denote the
/// number, with no leading zero.
pub proof fn lemma_decimal_denotes(n: nat)
    ensures
        decimal(n).len() >= 1,
        forall|k: int| 0 <= k < decimal(n).len() ==> '0' <= #[trigger] decimal(n)[k] <= '9',
        numeral_value(decimal(n)) == n,
        decimal(n)[0] == '0' ==> n == 0,
    decreases n,
{
    if n < 10 {
        let d = decimal(n);
        assert(d.drop_last() =~= Seq::<char>::empty());
        assert(numeral_value(d.drop_last()) == 0);
        assert(digit_char(n) as int == n + 48);
    } else {
        lemma_decimal_denotes(n / 10);
        let d = decimal(n);
        let h = decimal(n / 10);
        assert(d.drop_last() =~= h);
        assert forall|k: int| 0 <= k < d.len() implies '0' <= #[trigger] d[k] <= '9' by {
            if k < h.len() {
                assert(d[k] == h[k]);
            }
        }
        assert(d[0] == h[0]);
        assert(d.last() == digit_char((n % 10) as nat));
        assert(digit_char((n % 10) as nat) as int == n % 10 + 48);
        assert(numeral_value(d) == numeral_value(h) * 10 + (n % 10));
        assert(n == (n / 10) * 10 + n % 10) by (nonlinear_arith);
    }
}

/// The one-character string of a decimal digit.
fn digit_str(d: usize) -> (r: &'static str)
    requires
        d < 10,
    ensures
        r@ == seq![digit_char(d as nat)],
{
    let digits = "0123456789";
    proof {
        reveal_strlit("0123456789");
    }
    let r = digits.substring_char(d, d + 1);
    assert(r@ =~= seq![digit_char(d as nat)]) by {
        assert(r@[0] == digits@[d as int]);
        if d == 0 {} else if d == 1 {} else if d == 2 {} else if d == 3 {} else if d == 4 {}
        else if d == 5 {} else if d == 6 {} else if d == 7 {} else if d == 8 {} else {}
    }
    r
}

/// The decimal digits of a number, as `Display` writes a `usize`.
pub fn decimal_string(n: usize) -> (r: String)
    ensures
        r@ == decimal(n as nat),
        r@.len() >= 1,
        forall|k: int| 0 <= k < r@.len() ==> '0' <= #[trigger] r@[k] <= '9',
        numeral_value(r@) == n,
        r@[0] == '0' ==> n == 0,
    decreases n,
{
    let r = if n < 10 {
        String::from_str(digit_str(n))
    } else {
        let mut s = decimal_string(n / 10);
        let d = digit_str(n % 10);
        s.append(d);
        assert(s@ =~= decimal(n as nat));
        s
    };
    proof {
        lemma_decimal_denotes(n as nat);
        assert(r@ == decimal(n as nat));
    }
    r
}

/// The message that describes an error of hull construction.
pub open spec fn convex_hull_message(e: ConvexHullError) -> Seq<char> {
    match e {
        ConvexHullError::TooFewVertices { count } => "Too few vertices: "@ + decimal(count as nat),
        ConvexHullError::DegenerateInput => "All vertices are coplanar"@,
        ConvexHullError::NonFiniteVertex { index } => "Non finite vertex: "@ + decimal(index as nat),
    }
}

/// The message that describes a finding of the consistency check.
pub open spec fn consistency_message(e: ConsistencyError) -> Seq<char> {
    match e {
        ConsistencyError::PointOutsideConvexHull(index) => "Point outside convex hull at index "@
            + decimal(index as nat),
        ConsistencyError::HullNotClosed => "Hull not closed"@,
        ConsistencyError::EulerRelationError => "Euler relation between triangles and vertices not given. F = 2 * V - 4"@,
    }
}

impl ConvexHullError {
    /// The message that describes the error.
    pub fn message(&self) -> (r: String)
        ensures
            r@ == convex_hull_message(*self),
    {
        match self {
            ConvexHullError::TooFewVertices { count } => {
                let mut s = String::from_str("Too few vertices: ");
                let d = decimal_string(*count);
                s.append(d.as_str());
                s
            },
            ConvexHullError::DegenerateInput => String::from_str("All vertices are coplanar"),
            ConvexHullError::NonFiniteVertex { index } => {
                let mut s = String::from_str("Non finite vertex: ");
                let d = decimal_string(*index);
                s.append(d.as_str());
                s
            },
        }
    }
}

impl ConsistencyError {
    /// The message that describes the finding.
    pub fn message(&self) -> (r: String)
        ensures
            r@ == consistency_message(*self),
    {
        match self {
            ConsistencyError::PointOutsideConvexHull(index) => {
                let mut s = String::from_str("Point outside convex hull at index ");
                let d = decimal_string(*index);
                s.append(d.as_str());
                s
            },
            ConsistencyError::HullNotClosed => String::from_str("Hull not closed"),
            ConsistencyError::EulerRelationError => String::from_str(
                "Euler relation between triangles and vertices not given. F = 2 * V - 4",
            ),
        }
    }
}

} // verus!
