//! Where the stencil of a point starts in the extended coefficients.
use vstd::prelude::*;

verus! {

/// The cell of a point clamped so that its stencil stays inside the extended coefficients:
/// cells eqs − 1 … n_coefs − eqs − 1.
pub open spec fn clamped_cell(cell: int, eqs: int, n_coefs: int) -> int {
    if cell < eqs - 1 {
        eqs - 1
    } else if cell > n_coefs - eqs - 1 {
        n_coefs - eqs - 1
    } else {
        cell
    }
}

/// The stencil of the cell containing a point: `cell` is the index of that cell among the
/// extended coefficients (the floor of the point's position in index units), `eqs` the stencil
/// half-width and `n_coefs` the number of extended coefficients. Returns the first stencil
/// coefficient and the cell after clamping; the stencil is the 2·eqs coefficients from the
/// first one on, the clamped cell being its eqs-th.
pub fn locate_cell(cell: isize, eqs: usize, n_coefs: usize) -> (r: (usize, usize))
    requires
        eqs >= 1,
        2 * eqs <= n_coefs,
        n_coefs <= isize::MAX,
    ensures
        r.1 == clamped_cell(cell as int, eqs as int, n_coefs as int),
        r.0 == r.1 + 1 - eqs,
        r.0 + 2 * eqs <= n_coefs,
        eqs - 1 <= r.1 <= n_coefs - eqs - 1,
        eqs - 1 <= cell <= n_coefs - eqs - 1 ==> r.1 == cell,
        cell < eqs - 1 ==> r.1 == eqs - 1,
        cell > n_coefs - eqs - 1 ==> r.1 == n_coefs - eqs - 1,
{
    let lowest: isize = (eqs - 1) as isize;
    let highest: isize = (n_coefs - eqs - 1) as isize;
    let i: usize = if cell < lowest {
        lowest as usize
    } else if cell > highest {
        highest as usize
    } else {
        cell as usize
    };
    (i + 1 - eqs, i)
}

/// Law of the clamping: a cell whose stencil lies inside keeps it; one too far left or right
/// takes the first or last cell whose stencil lies inside.
pub proof fn lemma_clamped_cell(cell: int, eqs: int, n_coefs: int)
    requires
        eqs >= 1,
        2 * eqs <= n_coefs,
    ensures
        eqs - 1 <= clamped_cell(cell, eqs, n_coefs) <= n_coefs - eqs - 1,
        eqs - 1 <= cell <= n_coefs - eqs - 1 ==> clamped_cell(cell, eqs, n_coefs) == cell,
        cell < eqs - 1 ==> clamped_cell(cell, eqs, n_coefs) == eqs - 1,
        cell > n_coefs - eqs - 1 ==> clamped_cell(cell, eqs, n_coefs) == n_coefs - eqs - 1,
{
}

/// Law of the extension and the stencil: extending n ≥ 2 data values by eqs − 1 ghost values on
/// each side leaves room for a stencil of 2·eqs coefficients, and a cell of the data range (the
/// cells eqs − 1 … eqs + n − 2 between the first and the last knot) keeps its own stencil, but
/// the cell of the last knot itself, which takes the stencil of the cell before it.
pub proof fn lemma_data_cells_keep_their_stencil(n: int, eqs: int, cell: int)
    requires
        n >= 2,
        eqs >= 1,
        eqs - 1 <= cell <= eqs + n - 2,
    ensures
        2 * eqs <= n + 2 * (eqs - 1),
        clamped_cell(cell, eqs, n + 2 * (eqs - 1)) == (if cell == eqs + n - 2 {
            cell - 1
        } else {
            cell
        }),
{
}

} // verus!
