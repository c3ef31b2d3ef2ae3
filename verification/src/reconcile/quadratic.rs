//! Solving `z^2 + z = t` in the binary field.
//!
//! The map `z -> z^2 + z` is linear over the two-element field, so its
//! solutions come from a reduced system of 64 equations in 64 unknown bits.

use vstd::prelude::*;
use vstd::std_specs::bits::{axiom_u64_trailing_zeros, u64_trailing_zeros};
use super::algebraic::gf64_mul;
use super::field::{
    bit, bit_mask, bit_xor, bits_equal, low, low_step, product_one, product_zero, square,
    square_add, xor_exchange, xor_self, xor_zero,
};

verus! {

/// One linear equation: the parity of the selected unknown bits is `rhs`.
#[derive(Clone, Copy)]
pub struct Row {
    pub coefficients: u64,
    pub rhs: bool,
}

/// The parity of the first `n` bits of `c & z`.
pub open spec fn dot(c: u64, z: u64, n: nat) -> bool
    decreases n,
{
    if n == 0 {
        false
    } else {
        let m = (n - 1) as nat;
        dot(c, z, m) != (bit(c, m) && bit(z, m))
    }
}

/// The equation holds of the bits of `z`.
pub open spec fn row_holds(row: Row, z: u64) -> bool {
    dot(row.coefficients, z, 64) == row.rhs
}

/// Every equation holds of the bits of `z`.
pub open spec fn satisfied(rows: Seq<Row>, z: u64) -> bool {
    forall|r: int| 0 <= r < rows.len() ==> row_holds(#[trigger] rows[r], z)
}

/// `z^2 + z`.
pub open spec fn artin_schreier(z: u64) -> u64 {
    square(z) ^ z
}

pub proof fn artin_schreier_add(a: u64, b: u64)
    ensures
        artin_schreier(a ^ b) == artin_schreier(a) ^ artin_schreier(b),
        artin_schreier(0) == 0,
{
    square_add(a, b);
    xor_exchange(square(a), square(b), a, b);
    product_zero(0);
    xor_zero(0);
}

proof fn dot_xor(a: u64, b: u64, z: u64, n: nat)
    requires
        n <= 64,
    ensures
        dot(a ^ b, z, n) == (dot(a, z, n) != dot(b, z, n)),
    decreases n,
{
    if n > 0 {
        dot_xor(a, b, z, (n - 1) as nat);
        bit_xor(a, b, (n - 1) as nat);
    }
}

proof fn dot_zero(c: u64, z: u64, n: nat)
    requires
        forall|i: nat| i < n ==> !(#[trigger] bit(c, i) && bit(z, i)),
    ensures
        !dot(c, z, n),
    decreases n,
{
    if n > 0 {
        dot_zero(c, z, (n - 1) as nat);
        assert(!(bit(c, (n - 1) as nat) && bit(z, (n - 1) as nat)));
    }
}

proof fn dot_single(c: u64, z: u64, p: nat, n: nat)
    requires
        p < n,
        forall|i: nat| i < n && i != p ==> !(#[trigger] bit(c, i) && bit(z, i)),
    ensures
        dot(c, z, n) == (bit(c, p) && bit(z, p)),
    decreases n,
{
    let m = (n - 1) as nat;
    if p == m {
        dot_zero(c, z, m);
    } else {
        dot_single(c, z, p, m);
        assert(!(bit(c, m) && bit(z, m)));
    }
}

/// The equations of one output bit of `z^2 + z`.
proof fn image_bit(c: u64, z: u64, r: nat, n: nat)
    requires
        r < 64,
        n <= 64,
        forall|i: nat|
            i < 64 ==> #[trigger] bit(c, i) == bit(artin_schreier(1u64 << (i as u64)), r),
    ensures
        dot(c, z, n) == bit(artin_schreier(low(z, n)), r),
    decreases n,
{
    artin_schreier_add(0, 0);
    bit_mask(0, r, r);
    if n == 0 {
        low_step(z, 0);
    } else {
        let m = (n - 1) as nat;
        image_bit(c, z, r, m);
        low_step(z, m);
        assert(bit(c, m) == bit(artin_schreier(1u64 << (m as u64)), r));
        let t: u64 = if bit(z, m) {
            1u64 << (m as u64)
        } else {
            0
        };
        artin_schreier_add(low(z, m), t);
        bit_xor(artin_schreier(low(z, m)), artin_schreier(t), r);
    }
}

/// The equations say that `z^2 + z` is the target.
spec fn equivalent(rows: Seq<Row>, target: u64) -> bool {
    forall|z: u64| #[trigger] satisfied(rows, z) <==> artin_schreier(z) == target
}

spec fn initial(rows: Seq<Row>, target: u64) -> bool {
    &&& rows.len() == 64
    &&& forall|r: int, i: nat|
        #![trigger bit(rows[r].coefficients, i)]
        0 <= r < 64 && i < 64 ==> bit(rows[r].coefficients, i) == bit(
            artin_schreier(1u64 << (i as u64)),
            r as nat,
        )
    &&& forall|r: int| 0 <= r < 64 ==> (#[trigger] rows[r]).rhs == bit(target, r as nat)
}

proof fn initial_equivalent(rows: Seq<Row>, target: u64)
    requires
        initial(rows, target),
    ensures
        equivalent(rows, target),
{
    assert forall|z: u64| #[trigger] satisfied(rows, z) <==> artin_schreier(z) == target by {
        assert forall|r: int| 0 <= r < 64 implies dot((#[trigger] rows[r]).coefficients, z, 64)
            == bit(artin_schreier(z), r as nat) by {
            image_bit(rows[r].coefficients, z, r as nat, 64);
        }
        if satisfied(rows, z) {
            assert forall|i: nat| i < 64 implies #[trigger] bit(artin_schreier(z), i) == bit(
                target,
                i,
            ) by {
                assert(row_holds(rows[i as int], z));
            }
            bits_equal(artin_schreier(z), target, 64);
        }
    }
}

/// Progress of the elimination: each pivot column is set in its own row only,
/// no row has bits before its pivot, and the rows past the rank have none in
/// the columns already handled.
spec fn reduced(rows: Seq<Row>, pivots: Seq<nat>, columns: nat) -> bool {
    &&& rows.len() == 64
    &&& pivots.len() <= columns
    &&& forall|i: int|
        0 <= i < pivots.len() ==> #[trigger] pivots[i] < columns && bit(
            rows[i].coefficients,
            pivots[i],
        )
    &&& forall|i: int, j: int|
        #![trigger pivots[i], rows[j]]
        0 <= i < pivots.len() && 0 <= j < 64 && j != i ==> !bit(rows[j].coefficients, pivots[i])
    &&& forall|i: int, c: nat|
        #![trigger pivots[i], bit(rows[i].coefficients, c)]
        0 <= i < pivots.len() && c < pivots[i] ==> !bit(rows[i].coefficients, c)
    &&& forall|j: int, c: nat|
        #![trigger bit(rows[j].coefficients, c)]
        pivots.len() <= j < 64 && c < columns ==> !bit(rows[j].coefficients, c)
}

proof fn swap_keeps(before: Seq<Row>, after: Seq<Row>, a: int, b: int, target: u64)
    requires
        equivalent(before, target),
        before.len() == 64,
        0 <= a < 64,
        0 <= b < 64,
        after == before.update(a, before[b]).update(b, before[a]),
    ensures
        equivalent(after, target),
{
    assert forall|z: u64| #[trigger] satisfied(after, z) <==> artin_schreier(z) == target by {
        assert(satisfied(before, z) <==> artin_schreier(z) == target);
        if satisfied(after, z) {
            assert forall|r: int| 0 <= r < 64 implies row_holds(#[trigger] before[r], z) by {
                let s = if r == a {
                    b
                } else if r == b {
                    a
                } else {
                    r
                };
                assert(row_holds(after[s], z));
            }
        }
        if satisfied(before, z) {
            assert forall|r: int| 0 <= r < 64 implies row_holds(#[trigger] after[r], z) by {
                assert(row_holds(before[a], z) && row_holds(before[b], z) && row_holds(
                    before[r],
                    z,
                ));
            }
        }
    }
}

proof fn add_row_keeps(before: Seq<Row>, after: Seq<Row>, from: int, to: int, target: u64)
    requires
        equivalent(before, target),
        before.len() == 64,
        0 <= from < 64,
        0 <= to < 64,
        from != to,
        after == before.update(
            to,
            (Row {
                coefficients: before[to].coefficients ^ before[from].coefficients,
                rhs: before[to].rhs != before[from].rhs,
            }),
        ),
    ensures
        equivalent(after, target),
{
    assert forall|z: u64| #[trigger] satisfied(after, z) <==> artin_schreier(z) == target by {
        assert(satisfied(before, z) <==> artin_schreier(z) == target);
        dot_xor(before[to].coefficients, before[from].coefficients, z, 64);
        if satisfied(after, z) {
            assert forall|r: int| 0 <= r < 64 implies row_holds(#[trigger] before[r], z) by {
                assert(row_holds(after[r], z) && row_holds(after[from], z));
            }
        }
        if satisfied(before, z) {
            assert forall|r: int| 0 <= r < 64 implies row_holds(#[trigger] after[r], z) by {
                assert(row_holds(before[r], z) && row_holds(before[from], z));
            }
        }
    }
}

/// The matrix of the map with the target as its right-hand side.
fn build_rows(target: u64) -> (rows: Vec<Row>)
    ensures
        initial(rows@, target),
        equivalent(rows@, target),
{
    let mut rows: Vec<Row> = Vec::new();
    let mut row: u32 = 0;
    while row < 64
        invariant
            row <= 64,
            rows.len() == row,
            forall|r: int, i: nat|
                #![trigger bit(rows@[r].coefficients, i)]
                0 <= r < row && i < 64 ==> bit(rows@[r].coefficients, i) == bit(
                    artin_schreier(1u64 << (i as u64)),
                    r as nat,
                ),
            forall|r: int| 0 <= r < row ==> (#[trigger] rows@[r]).rhs == bit(target, r as nat),
        decreases 64 - row,
    {
        let mut coefficients: u64 = 0;
        let mut column: u32 = 0;
        proof {
            assert forall|i: nat| i < 64 implies !(#[trigger] bit(0u64, i)) by {
                bit_mask(0, i, i);
            }
        }
        while column < 64
            invariant
                column <= 64,
                row < 64,
                forall|i: nat|
                    i < 64 ==> (#[trigger] bit(coefficients, i) <==> i < column && bit(
                        artin_schreier(1u64 << (i as u64)),
                        row as nat,
                    )),
            decreases 64 - column,
        {
            let basis: u64 = 1u64 << column;
            let image: u64 = gf64_mul(basis, basis) ^ basis;
            let ghost before = coefficients;
            proof {
                bit_mask(image, row as nat, 0);
            }
            if image & (1u64 << row) != 0 {
                coefficients = coefficients | (1u64 << column);
                proof {
                    assert forall|i: nat| i < 64 implies (#[trigger] bit(coefficients, i) <==> bit(
                        before,
                        i,
                    ) || i == column) by {
                        bit_mask(before, column as nat, i);
                    }
                }
            }
            column = column + 1;
        }
        let rhs: bool = target & (1u64 << row) != 0;
        proof {
            bit_mask(target, row as nat, 0);
        }
        rows.push(Row { coefficients, rhs });
        row = row + 1;
    }
    proof {
        initial_equivalent(rows@, target);
    }
    rows
}

/// Clears a column in every row but the pivot's.
fn clear_column(
    rows: &mut Vec<Row>,
    rank: usize,
    column: u32,
    pivots: Ghost<Seq<nat>>,
    target: Ghost<u64>,
)
    requires
        equivalent(old(rows)@, target@),
        reduced(old(rows)@, pivots@, column as nat),
        rank == pivots@.len(),
        rank < 64,
        column < 64,
        bit(old(rows)@[rank as int].coefficients, column as nat),
    ensures
        equivalent(final(rows)@, target@),
        reduced(final(rows)@, pivots@.push(column as nat), (column + 1) as nat),
{
    let ghost start = rows@;
    let pivot: Row = rows[rank];
    let mut row: usize = 0;
    while row < 64
        invariant
            row <= 64,
            rank < 64,
            column < 64,
            start.len() == 64,
            pivot == start[rank as int],
            rows.len() == 64,
            equivalent(rows@, target@),
            rows@[rank as int] == pivot,
            forall|j: int| row <= j < 64 ==> #[trigger] rows@[j] == start[j],
            forall|j: int|
                0 <= j < row && j != rank ==> (#[trigger] rows@[j]).coefficients == if bit(
                    start[j].coefficients,
                    column as nat,
                ) {
                    start[j].coefficients ^ pivot.coefficients
                } else {
                    start[j].coefficients
                },
        decreases 64 - row,
    {
        let current: Row = rows[row];
        proof {
            bit_mask(current.coefficients, column as nat, 0);
        }
        if row != rank && current.coefficients & (1u64 << column) != 0 {
            let ghost before = rows@;
            let next: Row = Row {
                coefficients: current.coefficients ^ pivot.coefficients,
                rhs: current.rhs != pivot.rhs,
            };
            rows.set(row, next);
            proof {
                add_row_keeps(before, rows@, rank as int, row as int, target@);
            }
        }
        row = row + 1;
    }
    proof {
        let end = rows@;
        let p = pivots@;
        let q = p.push(column as nat);
        let c = (column + 1) as nat;
        assert forall|j: int, i: nat|
            #![trigger bit(end[j].coefficients, i)]
            0 <= j < 64 && i < 64 implies bit(end[j].coefficients, i) == (bit(
            start[j].coefficients,
            i,
        ) != (j != rank && bit(start[j].coefficients, column as nat) && bit(
            pivot.coefficients,
            i,
        ))) by {
            bit_xor(start[j].coefficients, pivot.coefficients, i);
            assert(end[j] == end[j]);
        }
        assert forall|i: nat| i < column implies !(#[trigger] bit(pivot.coefficients, i)) by {
            assert(!bit(start[rank as int].coefficients, i));
        }
        assert forall|i: int| 0 <= i < q.len() implies #[trigger] q[i] < c && bit(
            end[i].coefficients,
            q[i],
        ) by {
            if i < p.len() {
                assert(q[i] == p[i]);
                assert(bit(start[i].coefficients, p[i]));
                assert(bit(end[i].coefficients, p[i]));
            }
        }
        assert forall|i: int, j: int|
            #![trigger q[i], end[j]]
            0 <= i < q.len() && 0 <= j < 64 && j != i implies !bit(end[j].coefficients, q[i]) by {
            if i < p.len() {
                assert(q[i] == p[i]);
                assert(!bit(start[j].coefficients, p[i])) by {
                    let witness = start[j];
                }
                assert(bit(end[j].coefficients, p[i]) == bit(end[j].coefficients, p[i]));
            } else {
                assert(bit(end[j].coefficients, column as nat) == bit(
                    end[j].coefficients,
                    column as nat,
                ));
            }
        }
        assert forall|i: int, k: nat|
            #![trigger q[i], bit(end[i].coefficients, k)]
            0 <= i < q.len() && k < q[i] implies !bit(end[i].coefficients, k) by {
            if i < p.len() {
                assert(q[i] == p[i]);
                assert(!bit(start[i].coefficients, k));
            } else {
                assert(!bit(start[i].coefficients, k));
            }
        }
        assert forall|j: int, k: nat|
            #![trigger bit(end[j].coefficients, k)]
            q.len() <= j < 64 && k < c implies !bit(end[j].coefficients, k) by {
            if k < column {
                assert(!bit(start[j].coefficients, k));
            }
        }
    }
}

/// The first row from `rank` on whose coefficient in the column is set.
fn find_pivot(rows: &Vec<Row>, rank: usize, column: u32) -> (pivot: Option<usize>)
    requires
        rows.len() == 64,
        rank <= 64,
        column < 64,
    ensures
        pivot matches Some(p) ==> rank <= p < 64 && bit(rows@[p as int].coefficients, column as nat),
        pivot is None ==> forall|j: int|
            rank <= j < 64 ==> !bit((#[trigger] rows@[j]).coefficients, column as nat),
{
    let mut row: usize = rank;
    while row < 64
        invariant
            rows.len() == 64,
            column < 64,
            rank <= row <= 64,
            forall|j: int|
                rank <= j < row ==> !bit((#[trigger] rows@[j]).coefficients, column as nat),
        decreases 64 - row,
    {
        proof {
            bit_mask(rows@[row as int].coefficients, column as nat, 0);
        }
        if rows[row].coefficients & (1u64 << column) != 0 {
            return Some(row);
        }
        row = row + 1;
    }
    None
}

/// A solution of `z^2 + z = target`, where there is one.
pub fn solve_quadratic_form(target: u64) -> (result: Option<u64>)
    ensures
        result matches Some(z) ==> artin_schreier(z) == target && !bit(z, 0),
        result is None <==> forall|z: u64| #[trigger] artin_schreier(z) != target,
{
    let mut rows: Vec<Row> = build_rows(target);
    let ghost mut pivots = Seq::<nat>::empty();
    let mut rank: usize = 0;
    let mut column: u32 = 0;
    while column < 64
        invariant
            column <= 64,
            rank == pivots.len(),
            reduced(rows@, pivots, column as nat),
            equivalent(rows@, target),
            column == 0 ==> initial(rows@, target),
            forall|i: int| 0 <= i < pivots.len() ==> #[trigger] pivots[i] > 0,
        decreases 64 - column,
    {
        match find_pivot(&rows, rank, column) {
            None => {
                proof {
                    assert forall|j: int, c: nat|
                        #![trigger bit(rows@[j].coefficients, c)]
                        pivots.len() <= j < 64 && c < column + 1 implies !bit(
                        rows@[j].coefficients,
                        c,
                    ) by {
                        if c == column {
                            let witness = rows@[j];
                        }
                    }
                }
            },
            Some(pivot) => {
                let ghost before = rows@;
                proof {
                    if column == 0 {
                        assert(1u64 << 0u64 == 1u64) by (bit_vector);
                        product_one(1);
                        xor_self(1);
                        bit_mask(0, pivot as nat, pivot as nat);
                        assert(!bit(before[pivot as int].coefficients, 0));
                    }
                }
                let upper: Row = rows[rank];
                let lower: Row = rows[pivot];
                rows.set(rank, lower);
                rows.set(pivot, upper);
                proof {
                    swap_keeps(before, rows@, rank as int, pivot as int, target);
                    swap_reduced(before, rows@, rank as int, pivot as int, pivots, column as nat);
                }
                clear_column(&mut rows, rank, column, Ghost(pivots), Ghost(target));
                proof {
                    pivots = pivots.push(column as nat);
                }
                rank = rank + 1;
            },
        }
        column = column + 1;
    }
    let mut index: usize = 0;
    while index < 64
        invariant
            index <= 64,
            rows.len() == 64,
            equivalent(rows@, target),
            forall|j: int| 0 <= j < index ==> !((#[trigger] rows@[j]).coefficients == 0
                && rows@[j].rhs),
        decreases 64 - index,
    {
        if rows[index].coefficients == 0 && rows[index].rhs {
            proof {
                assert forall|z: u64| #[trigger] artin_schreier(z) != target by {
                    assert(satisfied(rows@, z) <==> artin_schreier(z) == target);
                    assert forall|i: nat| i < 64 implies !(#[trigger] bit(0u64, i) && bit(
                        z,
                        i,
                    )) by {
                        bit_mask(0, i, i);
                    }
                    dot_zero(0, z, 64);
                    assert(!row_holds(rows@[index as int], z));
                }
            }
            return None;
        }
        index = index + 1;
    }
    let solution: u64 = read_solution(&rows, rank, Ghost(pivots));
    proof {
        solution_satisfies(rows@, pivots, solution);
        assert(!bit(solution, 0));
        assert(satisfied(rows@, solution) <==> artin_schreier(solution) == target);
    }
    if gf64_mul(solution, solution) ^ solution == target {
        Some(solution)
    } else {
        None
    }
}

proof fn swap_reduced(
    before: Seq<Row>,
    after: Seq<Row>,
    a: int,
    b: int,
    pivots: Seq<nat>,
    columns: nat,
)
    requires
        reduced(before, pivots, columns),
        pivots.len() <= a < 64,
        pivots.len() <= b < 64,
        after == before.update(a, before[b]).update(b, before[a]),
    ensures
        reduced(after, pivots, columns),
{
    assert forall|i: int|
        0 <= i < pivots.len() implies #[trigger] pivots[i] < columns && bit(
        after[i].coefficients,
        pivots[i],
    ) by {
        assert(after[i] == before[i]);
    }
    assert forall|i: int, j: int|
        #![trigger pivots[i], after[j]]
        0 <= i < pivots.len() && 0 <= j < 64 && j != i implies !bit(
        after[j].coefficients,
        pivots[i],
    ) by {
        let s = if j == a {
            b
        } else if j == b {
            a
        } else {
            j
        };
        assert(after[j] == before[s]);
    }
    assert forall|i: int, c: nat|
        #![trigger pivots[i], bit(after[i].coefficients, c)]
        0 <= i < pivots.len() && c < pivots[i] implies !bit(after[i].coefficients, c) by {
        assert(after[i] == before[i]);
        assert(!bit(before[i].coefficients, c));
    }
    assert forall|j: int, c: nat|
        #![trigger bit(after[j].coefficients, c)]
        pivots.len() <= j < 64 && c < columns implies !bit(after[j].coefficients, c) by {
        let s = if j == a {
            b
        } else if j == b {
            a
        } else {
            j
        };
        assert(after[j] == before[s]);
        assert(!bit(before[s].coefficients, c));
    }
}

/// The solution read off a reduced system: pivot bits from the right-hand sides.
spec fn reads(rows: Seq<Row>, pivots: Seq<nat>, n: nat, solution: u64) -> bool {
    forall|c: nat|
        c < 64 ==> (#[trigger] bit(solution, c) <==> exists|i: int|
            0 <= i < n && #[trigger] pivots[i] == c && rows[i].rhs)
}

fn read_solution(rows: &Vec<Row>, rank: usize, pivots: Ghost<Seq<nat>>) -> (solution: u64)
    requires
        reduced(rows@, pivots@, 64),
        rank == pivots@.len(),
    ensures
        reads(rows@, pivots@, rank as nat, solution),
{
    let mut solution: u64 = 0;
    let mut index: usize = 0;
    proof {
        assert forall|c: nat| c < 64 implies !(#[trigger] bit(0u64, c)) by {
            bit_mask(0, c, c);
        }
    }
    while index < rank
        invariant
            index <= rank,
            rank == pivots@.len(),
            reduced(rows@, pivots@, 64),
            reads(rows@, pivots@, index as nat, solution),
        decreases rank - index,
    {
        let row: Row = rows[index];
        let pivot: u32 = row.coefficients.trailing_zeros();
        let ghost p = pivots@[index as int];
        proof {
            axiom_u64_trailing_zeros(row.coefficients);
            let t = u64_trailing_zeros(row.coefficients);
            assert(bit(rows@[index as int].coefficients, p));
            if t < 64 {
                assert(bit(row.coefficients, t as nat));
            }
            assert(row.coefficients != 0) by {
                bit_mask(0, p, p);
            }
            if (t as nat) < p {
                assert(!bit(rows@[index as int].coefficients, t as nat));
            }
            if p < t as nat {
                assert((row.coefficients >> (p as u64)) & 1u64 == 0u64);
            }
            assert(t as nat == p);
        }
        let ghost before = solution;
        if row.rhs {
            solution = solution | (1u64 << pivot);
        }
        proof {
            assert forall|c: nat| c < 64 implies (#[trigger] bit(solution, c) <==> exists|i: int|
                0 <= i < index + 1 && #[trigger] pivots@[i] == c && rows@[i].rhs) by {
                bit_mask(before, p, c);
                assert(bit(before, c) <==> exists|i: int|
                    0 <= i < index && #[trigger] pivots@[i] == c && rows@[i].rhs);
                if c == p && row.rhs {
                    assert(pivots@[index as int] == c);
                }
            }
        }
        index = index + 1;
    }
    solution
}

proof fn solution_satisfies(rows: Seq<Row>, pivots: Seq<nat>, solution: u64)
    requires
        reduced(rows, pivots, 64),
        reads(rows, pivots, pivots.len(), solution),
        forall|j: int| 0 <= j < 64 ==> !((#[trigger] rows[j]).coefficients == 0 && rows[j].rhs),
    ensures
        satisfied(rows, solution),
{
    assert forall|r: int| 0 <= r < 64 implies row_holds(#[trigger] rows[r], solution) by {
        let c = rows[r].coefficients;
        if r < pivots.len() {
            let p = pivots[r];
            assert forall|i: nat| i < 64 && i != p implies !(#[trigger] bit(c, i) && bit(
                solution,
                i,
            )) by {
                if bit(solution, i) {
                    let k = choose|k: int|
                        0 <= k < pivots.len() && #[trigger] pivots[k] == i && rows[k].rhs;
                    assert(k != r);
                    assert(!bit(rows[r].coefficients, pivots[k]));
                }
            }
            dot_single(c, solution, p, 64);
            assert(bit(solution, p) <==> rows[r].rhs) by {
                if rows[r].rhs {
                    assert(pivots[r] == p);
                }
                if bit(solution, p) {
                    let k = choose|k: int|
                        0 <= k < pivots.len() && #[trigger] pivots[k] == p && rows[k].rhs;
                    if k != r {
                        assert(!bit(rows[r].coefficients, pivots[k]));
                    }
                }
            }
        } else {
            assert forall|i: nat| i < 64 implies #[trigger] bit(c, i) == bit(0u64, i) by {
                bit_mask(0, i, i);
                assert(!bit(rows[r].coefficients, i));
            }
            bits_equal(c, 0, 64);
            assert forall|i: nat| i < 64 implies !(#[trigger] bit(c, i) && bit(
                solution,
                i,
            )) by {
                bit_mask(0, i, i);
            }
            dot_zero(c, solution, 64);
        }
    }
}

} // verus!
