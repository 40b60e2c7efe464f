//! Coefficients of an interpolant: the data values, extended by ghost values beyond each
//! boundary. Here: the boundary conditions, the stencil half-width of a kernel, which
//! extrapolation rule each boundary uses, how many values next to it are read, and where the
//! ghost values go.
use vstd::prelude::*;
use vstd::math::{max, min};
use crate::text::{debug_text, message_with_name, same_text};

verus! {

/// Boundary condition at one end of the data.
#[derive(Clone, Copy, Debug, PartialEq, Eq, Structural)]
pub enum Boundary {
    /// Polynomial extrapolation, of the degree the kernel reproduces
    Poly,
    /// Linear extrapolation
    Linear,
    /// Quadratic extrapolation
    Quadratic,
    /// Polynomial if the data near the boundary allow it, otherwise linear
    Detect,
}

/// The boundary condition that a name denotes: "poly", "linear", "quadratic" or "detect".
pub open spec fn boundary_named(name: Seq<char>) -> Option<Boundary> {
    if name == "poly"@ {
        Some(Boundary::Poly)
    } else if name == "linear"@ {
        Some(Boundary::Linear)
    } else if name == "quadratic"@ {
        Some(Boundary::Quadratic)
    } else if name == "detect"@ {
        Some(Boundary::Detect)
    } else {
        None
    }
}

/// The error message for a name that denotes no boundary condition.
pub open spec fn unknown_boundary_message(name: Seq<char>) -> Seq<char> {
    "unknown boundary condition "@ + debug_text(name)
        + " (expected poly, linear, quadratic or detect)"@
}

impl Boundary {
    /// Parse a boundary condition name: "poly", "linear", "quadratic" or "detect".
    /// Returns an error message for anything else.
    pub fn parse(name: &str) -> (r: Result<Boundary, String>)
        ensures
            match r {
                Ok(b) => boundary_named(name@) == Some(b),
                Err(msg) => boundary_named(name@).is_none()
                    && msg@ == unknown_boundary_message(name@),
            },
            r == Ok::<Boundary, String>(Boundary::Poly) <==> name@ == "poly"@,
            r == Ok::<Boundary, String>(Boundary::Linear) <==> name@ == "linear"@,
            r == Ok::<Boundary, String>(Boundary::Quadratic) <==> name@ == "quadratic"@,
            r == Ok::<Boundary, String>(Boundary::Detect) <==> name@ == "detect"@,
            r is Err <==> (name@ != "poly"@ && name@ != "linear"@ && name@ != "quadratic"@
                && name@ != "detect"@),
            r matches Err(msg) ==> msg@ == "unknown boundary condition "@ + debug_text(name@)
                + " (expected poly, linear, quadratic or detect)"@,
    {
        proof {
            lemma_names_distinct();
        }
        if same_text(name, "poly") {
            Ok(Boundary::Poly)
        } else if same_text(name, "linear") {
            Ok(Boundary::Linear)
        } else if same_text(name, "quadratic") {
            Ok(Boundary::Quadratic)
        } else if same_text(name, "detect") {
            Ok(Boundary::Detect)
        } else {
            Err(message_with_name(
                "unknown boundary condition ",
                name,
                " (expected poly, linear, quadratic or detect)",
            ))
        }
    }
}

/// Stencil half-width of a kernel, given the column count of its value table (order 0) in the
/// kernel catalogue, or `None` when the catalogue has no such table: nearest neighbour ("a0")
/// has one coefficient on each side and no table; every other kernel has half as many as its
/// table has columns.
pub open spec fn half_width(kernel: Seq<char>, value_columns: Option<usize>) -> Option<int> {
    if kernel == "a0"@ {
        Some(1)
    } else {
        match value_columns {
            Some(columns) => Some((columns / 2) as int),
            None => None,
        }
    }
}

/// The error message for a kernel that the catalogue does not know.
pub open spec fn unknown_kernel_message(kernel: Seq<char>) -> Seq<char> {
    "unknown kernel "@ + debug_text(kernel)
}

/// Stencil half-width `eqs` of a kernel: each point is weighted with eqs coefficients on each
/// side. `value_columns` is the column count of the kernel's value table (derivative order 0)
/// in the kernel catalogue, `None` when the catalogue has none.
pub fn stencil_half_width(kernel: &str, value_columns: Option<usize>) -> (r: Result<usize, String>)
    ensures
        match r {
            Ok(eqs) => half_width(kernel@, value_columns) == Some(eqs as int),
            Err(msg) => half_width(kernel@, value_columns).is_none()
                && msg@ == unknown_kernel_message(kernel@),
        },
        kernel@ == "a0"@ ==> r == Ok::<usize, String>(1),
        kernel@ != "a0"@ ==> (r is Err <==> value_columns is None),
        kernel@ != "a0"@ ==> (r matches Ok(eqs) ==> value_columns matches Some(c) && 2 * eqs <= c
            && c < 2 * eqs + 2),
        r matches Err(msg) ==> msg@ == "unknown kernel "@ + debug_text(kernel@),
{
    if same_text(kernel, "a0") {
        return Ok(1);
    }
    match value_columns {
        Some(columns) => Ok(columns / 2),
        None => {
            let msg = message_with_name("unknown kernel ", kernel, "");
            proof {
                reveal_strlit("");
                assert(msg@ =~= unknown_kernel_message(kernel@));
            }
            Err(msg)
        },
    }
}

/// Law of the boundary names: each of the four names denotes its own boundary condition, and
/// no other name denotes one.
pub proof fn lemma_boundary_names(name: Seq<char>)
    ensures
        name == "poly"@ <==> boundary_named(name) == Some(Boundary::Poly),
        name == "linear"@ <==> boundary_named(name) == Some(Boundary::Linear),
        name == "quadratic"@ <==> boundary_named(name) == Some(Boundary::Quadratic),
        name == "detect"@ <==> boundary_named(name) == Some(Boundary::Detect),
{
    lemma_names_distinct();
}

/// The four boundary names differ from one another.
proof fn lemma_names_distinct()
    ensures
        "poly"@ != "linear"@,
        "poly"@ != "quadratic"@,
        "poly"@ != "detect"@,
        "linear"@ != "quadratic"@,
        "linear"@ != "detect"@,
        "quadratic"@ != "detect"@,
{
    reveal_strlit("poly");
    reveal_strlit("linear");
    reveal_strlit("quadratic");
    reveal_strlit("detect");
    assert("poly"@.len() == 4);
    assert("linear"@.len() == 6);
    assert("quadratic"@.len() == 9);
    assert("detect"@.len() == 6);
    assert("linear"@[0] != "detect"@[0]);
}

/// Law of the stencil half-width: a kernel other than nearest neighbour weighs each point with
/// half the columns of its value table on each side, so that its 2·eqs stencil coefficients
/// are its c columns (one left over for an odd count); nearest neighbour weighs one on each
/// side; a kernel without a value table has none.
pub proof fn lemma_half_width_is_half_the_columns(kernel: Seq<char>, value_columns: Option<usize>)
    ensures
        kernel == "a0"@ ==> half_width(kernel, value_columns) == Some(1int),
        kernel != "a0"@ ==> (half_width(kernel, value_columns) is None <==> value_columns is None),
        kernel != "a0"@ ==> (value_columns matches Some(c) ==> half_width(kernel, value_columns)
            matches Some(eqs) && 2 * eqs <= c && c < 2 * eqs + 2),
{
}

/// The extrapolation rule that gives the ghost values at one boundary.
#[derive(Clone, Copy, Debug, PartialEq, Eq, Structural)]
pub enum GhostRule {
    /// The kernel's polynomial ghost matrix
    Polynomial,
    /// Linear extrapolation
    Linear,
    /// Quadratic extrapolation
    Quadratic,
}

/// The rule for one boundary. `few_points`: the data are shorter than the polynomial rule
/// needs. `poly_accepted`: the :detect test accepts polynomial extrapolation on the data next
/// to this boundary (consulted only for `Boundary::Detect`). The polynomial rule is used when
/// the boundary condition asks for it and the data allow it; otherwise :quadratic gives the
/// quadratic rule, and every other condition (:linear, and :poly or :detect that fall back)
/// the linear one.
pub fn choose_ghost_rule(bc: Boundary, few_points: bool, poly_accepted: bool) -> (r: GhostRule)
    ensures
        r == GhostRule::Polynomial <==> !few_points && (bc == Boundary::Poly || (bc
            == Boundary::Detect && poly_accepted)),
        r == GhostRule::Quadratic <==> bc == Boundary::Quadratic,
        r == GhostRule::Linear <==> !(r == GhostRule::Polynomial) && bc != Boundary::Quadratic,
{
    let use_poly = !few_points && match bc {
        Boundary::Poly => true,
        Boundary::Detect => poly_accepted,
        _ => false,
    };
    if use_poly {
        GhostRule::Polynomial
    } else {
        match bc {
            Boundary::Quadratic => GhostRule::Quadratic,
            _ => GhostRule::Linear,
        }
    }
}

/// How many data values next to each boundary are read, for `n` data values, stencil
/// half-width `eqs` and a polynomial rule that uses `poly_cols` values: all of them, or
/// max(poly_cols + 3, eqs) if there are more (the :detect test needs poly_cols + 3). Also
/// whether the data are too few for the polynomial rule.
pub fn boundary_window(n: usize, eqs: usize, poly_cols: usize) -> (r: (usize, bool))
    requires
        poly_cols + 3 <= usize::MAX,
    ensures
        r.0 == min(n as int, max(poly_cols + 3, eqs as int)),
        r.0 <= n,
        r.1 == (n < poly_cols),
{
    let reach: usize = if poly_cols + 3 >= eqs { poly_cols + 3 } else { eqs };
    let window: usize = if n <= reach { n } else { reach };
    (window, n < poly_cols)
}

/// The extended coefficients: `left.len()` ghost values, the data, `right.len()` ghost values
/// (both sides have the same number). Ghost value j (1-based) of each side lies j positions
/// beyond the data value at that end: `left[j − 1]` j positions left of the first one,
/// `right[j − 1]` j positions right of the last one.
pub fn extend_with_ghosts<T: Copy>(values: &[T], left: &[T], right: &[T]) -> (c: Vec<T>)
    requires
        left@.len() == right@.len(),
        values@.len() + 2 * left@.len() <= usize::MAX,
    ensures
        c@.len() == values@.len() + 2 * left@.len(),
        forall|k: int| 0 <= k < values@.len() ==> c@[left@.len() + k] == values@[k],
        forall|j: int|
            1 <= j <= left@.len() ==> #[trigger] c@[left@.len() - j] == left@[j - 1],
        forall|j: int|
            1 <= j <= right@.len() ==> #[trigger] c@[left@.len() + values@.len() - 1 + j]
                == right@[j - 1],
{
    let n: usize = values.len();
    let g: usize = left.len();
    let mut c: Vec<T> = Vec::new();
    // the left ghosts, farthest first
    let mut i: usize = 0;
    while i < g
        invariant
            0 <= i <= g,
            g == left@.len(),
            c@.len() == i,
            forall|p: int| 0 <= p < i ==> c@[p] == left@[g - 1 - p],
        decreases g - i,
    {
        c.push(left[g - 1 - i]);
        i += 1;
    }
    // the data
    let mut k: usize = 0;
    while k < n
        invariant
            0 <= k <= n,
            g == left@.len(),
            n == values@.len(),
            c@.len() == g + k,
            forall|p: int| 0 <= p < g ==> c@[p] == left@[g - 1 - p],
            forall|p: int| 0 <= p < k ==> c@[g + p] == values@[p],
        decreases n - k,
    {
        c.push(values[k]);
        k += 1;
    }
    // the right ghosts, nearest first
    let mut j: usize = 0;
    while j < g
        invariant
            0 <= j <= g,
            g == left@.len(),
            g == right@.len(),
            n == values@.len(),
            n + 2 * g <= usize::MAX,
            c@.len() == g + n + j,
            forall|p: int| 0 <= p < g ==> c@[p] == left@[g - 1 - p],
            forall|p: int| 0 <= p < n ==> c@[g + p] == values@[p],
            forall|p: int| 0 <= p < j ==> c@[g + n + p] == right@[p],
        decreases g - j,
    {
        c.push(right[j]);
        j += 1;
    }
    assert forall|jj: int| 1 <= jj <= g implies #[trigger] c@[g - jj] == left@[jj - 1] by {
        assert(c@[g - jj] == left@[g - 1 - (g - jj)]);
    }
    assert forall|jj: int| 1 <= jj <= g implies #[trigger] c@[g + n - 1 + jj] == right@[jj - 1] by {
        assert(c@[g + n + (jj - 1)] == right@[jj - 1]);
    }
    c
}

} // verus!
