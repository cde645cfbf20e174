//! The layout of the rotation matrices about a coordinate axis.
//!
//! A rotation by an angle θ about an axis has `cos θ`, `sin θ` and
//! `-sin θ` in the plane orthogonal to the axis, 1 on the axis and in the
//! homogeneous corner, and 0 elsewhere. The layout is given here; the cosine
//! and sine themselves are filled in by the caller.

use vstd::prelude::*;

verus! {

/// A coordinate axis.
#[derive(Clone, Copy, PartialEq, Eq, Structural, Debug)]
pub enum Axis {
    X,
    Y,
    Z,
}

/// What stands in one cell of a rotation matrix.
#[derive(Clone, Copy, PartialEq, Eq, Structural, Debug)]
pub enum Entry {
    Zero,
    One,
    Cos,
    Sin,
    NegSin,
}

/// The index of the coordinate that an axis stands for.
pub open spec fn axis_index(axis: Axis) -> int {
    match axis {
        Axis::X => 0,
        Axis::Y => 1,
        Axis::Z => 2,
    }
}

/// The two coordinates that a rotation about `axis` moves, in cyclic order
/// after the axis: `(y, z)` for X, `(z, x)` for Y, `(x, y)` for Z.
pub open spec fn plane(axis: Axis) -> (int, int) {
    match axis {
        Axis::X => (1, 2),
        Axis::Y => (2, 0),
        Axis::Z => (0, 1),
    }
}

/// The entry in row `i`, column `j` of the rotation matrix about `axis`:
/// for the plane `(p, q)` it moves, `cos` at `(p, p)` and `(q, q)`, `sin`
/// at `(p, q)`, `-sin` at `(q, p)`; 1 elsewhere on the diagonal, 0
/// elsewhere.
pub open spec fn rotation_entry(axis: Axis, i: int, j: int) -> Entry {
    let (p, q) = plane(axis);
    if (i == p && j == p) || (i == q && j == q) {
        Entry::Cos
    } else if i == p && j == q {
        Entry::Sin
    } else if i == q && j == p {
        Entry::NegSin
    } else if i == j {
        Entry::One
    } else {
        Entry::Zero
    }
}

/// The layout of the rotation matrix about `axis`, row by row.
pub fn rotation_layout(axis: Axis) -> (r: [[Entry; 4]; 4])
    ensures
        forall|i: int, j: int|
            0 <= i < 4 && 0 <= j < 4 ==> #[trigger] r@[i]@[j] == rotation_entry(axis, i, j),
{
    let r = match axis {
        Axis::X => [
            [Entry::One, Entry::Zero, Entry::Zero, Entry::Zero],
            [Entry::Zero, Entry::Cos, Entry::Sin, Entry::Zero],
            [Entry::Zero, Entry::NegSin, Entry::Cos, Entry::Zero],
            [Entry::Zero, Entry::Zero, Entry::Zero, Entry::One],
        ],
        Axis::Y => [
            [Entry::Cos, Entry::Zero, Entry::NegSin, Entry::Zero],
            [Entry::Zero, Entry::One, Entry::Zero, Entry::Zero],
            [Entry::Sin, Entry::Zero, Entry::Cos, Entry::Zero],
            [Entry::Zero, Entry::Zero, Entry::Zero, Entry::One],
        ],
        Axis::Z => [
            [Entry::Cos, Entry::Sin, Entry::Zero, Entry::Zero],
            [Entry::NegSin, Entry::Cos, Entry::Zero, Entry::Zero],
            [Entry::Zero, Entry::Zero, Entry::One, Entry::Zero],
            [Entry::Zero, Entry::Zero, Entry::Zero, Entry::One],
        ],
    };
    r
}

/// The value of an entry for the cosine `c` and the sine `s`.
pub open spec fn entry_value(e: Entry, c: int, s: int) -> int {
    match e {
        Entry::Zero => 0,
        Entry::One => 1,
        Entry::Cos => c,
        Entry::Sin => s,
        Entry::NegSin => -s,
    }
}

/// The product of the values of two entries, written out so that only the
/// products `c * c`, `c * s` and `s * s` appear.
pub open spec fn entry_product(a: Entry, b: Entry, c: int, s: int) -> int {
    match (a, b) {
        (Entry::Zero, _) => 0,
        (_, Entry::Zero) => 0,
        (Entry::One, _) => entry_value(b, c, s),
        (_, Entry::One) => entry_value(a, c, s),
        (Entry::Cos, Entry::Cos) => c * c,
        (Entry::Cos, Entry::Sin) => c * s,
        (Entry::Sin, Entry::Cos) => c * s,
        (Entry::Cos, Entry::NegSin) => -(c * s),
        (Entry::NegSin, Entry::Cos) => -(c * s),
        (Entry::Sin, Entry::Sin) => s * s,
        (Entry::NegSin, Entry::NegSin) => s * s,
        (Entry::Sin, Entry::NegSin) => -(s * s),
        (Entry::NegSin, Entry::Sin) => -(s * s),
    }
}

/// [`entry_product`] is the product of the two values.
pub proof fn lemma_entry_product(a: Entry, b: Entry, c: int, s: int)
    ensures
        entry_product(a, b, c, s) == entry_value(a, c, s) * entry_value(b, c, s),
{
    assert(s * c == c * s) by (nonlinear_arith);
    assert(c * (-s) == -(c * s)) by (nonlinear_arith);
    assert((-s) * c == -(c * s)) by (nonlinear_arith);
    assert((-s) * (-s) == s * s) by (nonlinear_arith);
    assert(s * (-s) == -(s * s)) by (nonlinear_arith);
    assert((-s) * s == -(s * s)) by (nonlinear_arith);
}

/// The product of rows `i` and `j` of the rotation matrix about `axis`,
/// for the cosine `c` and the sine `s`.
pub open spec fn row_dot(axis: Axis, c: int, s: int, i: int, j: int) -> int {
    entry_product(rotation_entry(axis, i, 0), rotation_entry(axis, j, 0), c, s) + entry_product(
        rotation_entry(axis, i, 1),
        rotation_entry(axis, j, 1),
        c,
        s,
    ) + entry_product(rotation_entry(axis, i, 2), rotation_entry(axis, j, 2), c, s)
        + entry_product(rotation_entry(axis, i, 3), rotation_entry(axis, j, 3), c, s)
}

/// What [`row_dot`] is for an orthogonal matrix whose two moved rows have
/// squared length `c² + s²`.
pub open spec fn expected_dot(axis: Axis, c: int, s: int, i: int, j: int) -> int {
    if i != j {
        0
    } else if i == axis_index(axis) || i == 3 {
        1
    } else {
        c * c + s * s
    }
}

/// The value of the entry in row `i`, column `j` of the rotation matrix
/// about `axis`, for the cosine `c` and the sine `s`.
pub open spec fn cell(axis: Axis, c: int, s: int, i: int, j: int) -> int {
    entry_value(rotation_entry(axis, i, j), c, s)
}

/// The determinant of the upper-left 3×3 block of the rotation matrix
/// about `axis` (the block that acts on `x`, `y`, `z`), expanded along its
/// first row.
pub open spec fn det3(axis: Axis, c: int, s: int) -> int {
    cell(axis, c, s, 0, 0) * (cell(axis, c, s, 1, 1) * cell(axis, c, s, 2, 2) - cell(axis, c, s, 1, 2)
        * cell(axis, c, s, 2, 1)) - cell(axis, c, s, 0, 1) * (cell(axis, c, s, 1, 0) * cell(
        axis,
        c,
        s,
        2,
        2,
    ) - cell(axis, c, s, 1, 2) * cell(axis, c, s, 2, 0)) + cell(axis, c, s, 0, 2) * (cell(
        axis,
        c,
        s,
        1,
        0,
    ) * cell(axis, c, s, 2, 1) - cell(axis, c, s, 1, 1) * cell(axis, c, s, 2, 0))
}

proof fn lemma_det3(axis: Axis, c: int, s: int)
    ensures
        det3(axis, c, s) == c * c + s * s,
{
    match axis {
        Axis::X => {
            assert(det3(axis, c, s) == 1 * (c * c - s * (-s)) - 0 * (0 * c - s * 0) + 0 * (0 * (-s)
                - c * 0));
            assert(1 * (c * c - s * (-s)) - 0 * (0 * c - s * 0) + 0 * (0 * (-s) - c * 0) == c * c + s
                * s) by (nonlinear_arith);
        },
        Axis::Y => {
            assert(det3(axis, c, s) == c * (1 * c - 0 * 0) - 0 * (0 * c - 0 * s) + (-s) * (0 * 0 - 1
                * s));
            assert(c * (1 * c - 0 * 0) - 0 * (0 * c - 0 * s) + (-s) * (0 * 0 - 1 * s) == c * c + s
                * s) by (nonlinear_arith);
        },
        Axis::Z => {
            assert(det3(axis, c, s) == c * (c * 1 - 0 * 0) - s * ((-s) * 1 - 0 * 0) + 0 * ((-s) * 0
                - c * 0));
            assert(c * (c * 1 - 0 * 0) - s * ((-s) * 1 - 0 * 0) + 0 * ((-s) * 0 - c * 0) == c * c + s
                * s) by (nonlinear_arith);
        },
    }
}

/// The rotation matrix about an axis keeps that axis: its row and column
/// for the axis are 1 on the diagonal and 0 elsewhere. Its rows are
/// orthogonal, the row for the axis and the homogeneous row have length 1,
/// and the two others have squared length `c² + s²`; the determinant of its
/// 3×3 block is `c² + s²` too. Both are 1 when `c` and `s` are the cosine and
/// sine of one angle: the matrix is a rotation.
pub proof fn law_rotation_orthogonal(axis: Axis, c: int, s: int)
    ensures
        forall|k: int|
            0 <= k < 4 ==> #[trigger] rotation_entry(axis, axis_index(axis), k) == if k
                == axis_index(axis) {
                Entry::One
            } else {
                Entry::Zero
            },
        forall|k: int|
            0 <= k < 4 ==> #[trigger] rotation_entry(axis, k, axis_index(axis)) == if k
                == axis_index(axis) {
                Entry::One
            } else {
                Entry::Zero
            },
        forall|i: int, j: int|
            0 <= i < 4 && 0 <= j < 4 ==> #[trigger] row_dot(axis, c, s, i, j) == expected_dot(
                axis,
                c,
                s,
                i,
                j,
            ),
        det3(axis, c, s) == c * c + s * s,
{
    lemma_det3(axis, c, s);
    assert forall|i: int, j: int| 0 <= i < 4 && 0 <= j < 4 implies #[trigger] row_dot(
        axis,
        c,
        s,
        i,
        j,
    ) == expected_dot(axis, c, s, i, j) by {
        match axis {
            Axis::X => {},
            Axis::Y => {},
            Axis::Z => {},
        }
    }
}

/// The product of the value of `a` for the cosine `c1` and sine `s1` with
/// the value of `b` for `c2` and `s2`, written out so that only the products
/// `c1 * c2`, `c1 * s2`, `s1 * c2` and `s1 * s2` appear.
pub open spec fn entry_times(a: Entry, c1: int, s1: int, b: Entry, c2: int, s2: int) -> int {
    match (a, b) {
        (Entry::Zero, _) => 0,
        (_, Entry::Zero) => 0,
        (Entry::One, _) => entry_value(b, c2, s2),
        (_, Entry::One) => entry_value(a, c1, s1),
        (Entry::Cos, Entry::Cos) => c1 * c2,
        (Entry::Cos, Entry::Sin) => c1 * s2,
        (Entry::Cos, Entry::NegSin) => -(c1 * s2),
        (Entry::Sin, Entry::Cos) => s1 * c2,
        (Entry::NegSin, Entry::Cos) => -(s1 * c2),
        (Entry::Sin, Entry::Sin) => s1 * s2,
        (Entry::NegSin, Entry::NegSin) => s1 * s2,
        (Entry::Sin, Entry::NegSin) => -(s1 * s2),
        (Entry::NegSin, Entry::Sin) => -(s1 * s2),
    }
}

/// [`entry_times`] is the product of the two values.
pub proof fn lemma_entry_times(a: Entry, c1: int, s1: int, b: Entry, c2: int, s2: int)
    ensures
        entry_times(a, c1, s1, b, c2, s2) == entry_value(a, c1, s1) * entry_value(b, c2, s2),
{
    assert(c1 * (-s2) == -(c1 * s2)) by (nonlinear_arith);
    assert((-s1) * c2 == -(s1 * c2)) by (nonlinear_arith);
    assert((-s1) * (-s2) == s1 * s2) by (nonlinear_arith);
    assert(s1 * (-s2) == -(s1 * s2)) by (nonlinear_arith);
    assert((-s1) * s2 == -(s1 * s2)) by (nonlinear_arith);
}

/// The entry in row `i`, column `j` of the product of the rotation about
/// `axis` for `(c1, s1)` with the rotation about `axis` for `(c2, s2)`.
pub open spec fn product_cell(
    axis: Axis,
    c1: int,
    s1: int,
    c2: int,
    s2: int,
    i: int,
    j: int,
) -> int {
    entry_times(rotation_entry(axis, i, 0), c1, s1, rotation_entry(axis, 0, j), c2, s2)
        + entry_times(rotation_entry(axis, i, 1), c1, s1, rotation_entry(axis, 1, j), c2, s2)
        + entry_times(rotation_entry(axis, i, 2), c1, s1, rotation_entry(axis, 2, j), c2, s2)
        + entry_times(rotation_entry(axis, i, 3), c1, s1, rotation_entry(axis, 3, j), c2, s2)
}

/// Rotations about one axis compose by adding their angles, and commute:
/// the product of the rotation for `(c1, s1)` with the one for `(c2, s2)`,
/// in either order, is the rotation for
/// `(c1·c2 − s1·s2, s1·c2 + c1·s2)`, which are the cosine and sine of the
/// sum of the two angles when `(c1, s1)` and `(c2, s2)` are the cosines and
/// sines of the two.
pub proof fn law_rotation_composition(axis: Axis, c1: int, s1: int, c2: int, s2: int)
    ensures
        forall|i: int, j: int|
            0 <= i < 4 && 0 <= j < 4 ==> #[trigger] product_cell(axis, c1, s1, c2, s2, i, j)
                == cell(axis, c1 * c2 - s1 * s2, s1 * c2 + c1 * s2, i, j),
        forall|i: int, j: int|
            0 <= i < 4 && 0 <= j < 4 ==> #[trigger] product_cell(axis, c1, s1, c2, s2, i, j)
                == product_cell(axis, c2, s2, c1, s1, i, j),
{
    assert(c2 * c1 == c1 * c2) by (nonlinear_arith);
    assert(s2 * s1 == s1 * s2) by (nonlinear_arith);
    assert(c2 * s1 == s1 * c2) by (nonlinear_arith);
    assert(s2 * c1 == c1 * s2) by (nonlinear_arith);
    assert forall|i: int, j: int| 0 <= i < 4 && 0 <= j < 4 implies #[trigger] product_cell(
        axis,
        c1,
        s1,
        c2,
        s2,
        i,
        j,
    ) == cell(axis, c1 * c2 - s1 * s2, s1 * c2 + c1 * s2, i, j) && product_cell(
        axis,
        c1,
        s1,
        c2,
        s2,
        i,
        j,
    ) == product_cell(axis, c2, s2, c1, s1, i, j) by {
        match axis {
            Axis::X => {},
            Axis::Y => {},
            Axis::Z => {},
        }
    }
}

/// The sense of each rotation: about X the `y` row holds `sin` in the `z`
/// column, about Y the `z` row holds `sin` in the `x` column, about Z the
/// `x` row holds `sin` in the `y` column, and `-sin` stands at the mirrored
/// place; every other entry of the moved plane is `cos`.
pub proof fn law_rotation_sense()
    ensures
        rotation_entry(Axis::X, 1, 2) == Entry::Sin,
        rotation_entry(Axis::X, 2, 1) == Entry::NegSin,
        rotation_entry(Axis::X, 1, 1) == Entry::Cos,
        rotation_entry(Axis::X, 2, 2) == Entry::Cos,
        rotation_entry(Axis::Y, 2, 0) == Entry::Sin,
        rotation_entry(Axis::Y, 0, 2) == Entry::NegSin,
        rotation_entry(Axis::Y, 0, 0) == Entry::Cos,
        rotation_entry(Axis::Y, 2, 2) == Entry::Cos,
        rotation_entry(Axis::Z, 0, 1) == Entry::Sin,
        rotation_entry(Axis::Z, 1, 0) == Entry::NegSin,
        rotation_entry(Axis::Z, 0, 0) == Entry::Cos,
        rotation_entry(Axis::Z, 1, 1) == Entry::Cos,
{
}

} // verus!
