use vstd::prelude::*;

verus! {

/// The assignment that `hungarian::minimize` computes for a row-major
/// `height x width` cost matrix. Which optimal assignment it picks among
/// equally cheap ones is fixed by the algorithm and is not written out here.
pub uninterp spec fn hungarian_assignment(costs: Seq<i32>, height: nat, width: nat) -> Seq<
    Option<usize>,
>;

/// Every assigned column is in range and no column is assigned twice.
pub open spec fn is_partial_matching(a: Seq<Option<usize>>, width: nat) -> bool {
    &&& forall|i: int| 0 <= i < a.len() && (#[trigger] a[i]) is Some ==> a[i]->0 < width
    &&& forall|i: int, j: int|
        0 <= i < a.len() && 0 <= j < a.len() && i != j && (#[trigger] a[i]) is Some
            && (#[trigger] a[j]) is Some ==> a[i] != a[j]
}

/// Number of rows that receive a column.
pub open spec fn assigned_count(a: Seq<Option<usize>>) -> nat
    decreases a.len(),
{
    if a.len() == 0 {
        0
    } else {
        assigned_count(a.drop_last()) + if a.last() is Some {
            1nat
        } else {
            0nat
        }
    }
}

/// Total cost of an assignment over a row-major matrix of the given width.
pub open spec fn assignment_cost(costs: Seq<i32>, width: nat, a: Seq<Option<usize>>) -> int
    decreases a.len(),
{
    if a.len() == 0 {
        0
    } else {
        let row = a.len() - 1;
        assignment_cost(costs, width, a.drop_last()) + match a.last() {
            Some(j) => costs[row * width + j] as int,
            None => 0int,
        }
    }
}

/// A full assignment: one entry per row, a matching, as many pairs as the
/// smaller side of the matrix allows.
pub open spec fn is_full_assignment(a: Seq<Option<usize>>, height: nat, width: nat) -> bool {
    &&& a.len() == height
    &&& is_partial_matching(a, width)
    &&& assigned_count(a) == if height <= width {
        height
    } else {
        width
    }
}

/// Minimum-cost assignment of rows to columns by `hungarian::minimize`.
///
/// Claimed of the crate's function (version 1.1.1), from its documentation
/// and source: for an empty matrix it returns an empty vector; otherwise one
/// entry per row, `Some(j)` assigning row `i` to column `j`, no column twice,
/// `min(height, width)` rows assigned (`None` only when `width < height`),
/// and no other such assignment is cheaper. The source indexes
/// `matrix[width * i + j]`, so the length must be `height * width`. While it
/// runs it adds the least uncovered entry to covered rows; the costs are kept
/// within `0..=1000`, the range the tracker produces, so that this arithmetic
/// stays far from the `i32` limits. Which of several optimal assignments is
/// returned is left to the name `hungarian_assignment`.
#[verifier::external_body]
pub(crate) fn minimize_assignment(costs: &Vec<i32>, height: usize, width: usize) -> (r: Vec<
    Option<usize>,
>)
    requires
        costs.len() == height * width,
        forall|k: int| 0 <= k < costs.len() ==> 0 <= #[trigger] costs[k] <= 1000,
    ensures
        r@ == hungarian_assignment(costs@, height as nat, width as nat),
        height == 0 || width == 0 ==> r.len() == 0,
        height > 0 && width > 0 ==> is_full_assignment(r@, height as nat, width as nat),
        height > 0 && width > 0 ==> forall|other: Seq<Option<usize>>|
            is_full_assignment(other, height as nat, width as nat) ==> assignment_cost(
                costs@,
                width as nat,
                r@,
            ) <= #[trigger] assignment_cost(costs@, width as nat, other),
{
    hungarian::minimize(costs.as_slice(), height, width)
}

} // verus!
