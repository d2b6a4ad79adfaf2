//! Column buffers and row-group batching.
//!
//! Decoded rows are accumulated column-wise into one `ColumnBuffer` per
//! field and cut into `RowGroup`s of at most `block_size` rows; only the
//! final group may be shorter. Within a group every buffer holds one cell
//! per row, at the row's index: the positional-alignment invariant.

use vstd::prelude::*;

use crate::schema::Schema;
use crate::value::{LogicalType, Value, cell_model, cells_model, spec_matches_type};

verus! {

/// One column of a row group: the committed type and one optional value
/// per row (a `None` cell is a null; this is the validity map).
#[derive(Debug)]
pub struct ColumnBuffer {
    pub ty: LogicalType,
    pub cells: Vec<Option<Value>>,
}

/// A present value is a member of the column's type; a null always fits.
pub open spec fn cell_ok(c: Option<Value>, t: LogicalType) -> bool {
    match c {
        Option::Some(v) => spec_matches_type(v@, t),
        Option::None => true,
    }
}

impl ColumnBuffer {
    /// Every present value is a member of the column's type.
    pub open spec fn wf(self) -> bool {
        forall|i: int| 0 <= i < self.cells@.len() ==> cell_ok(#[trigger] self.cells@[i], self.ty)
    }
}

/// A bounded batch of rows, stored column-wise.
#[derive(Debug)]
pub struct RowGroup {
    pub n_rows: usize,
    pub columns: Vec<ColumnBuffer>,
}

impl RowGroup {
    /// One well-typed buffer per schema field, each holding exactly one
    /// cell per row of the group.
    pub open spec fn wf(self, schema: Schema) -> bool {
        &&& self.columns@.len() == schema.fields@.len()
        &&& forall|j: int|
            0 <= j < self.columns@.len() ==> self.columns@[j].ty == schema.fields@[j].ty
        &&& forall|j: int|
            0 <= j < self.columns@.len() ==> self.columns@[j].cells@.len() == self.n_rows
        &&& forall|j: int| 0 <= j < self.columns@.len() ==> self.columns@[j].wf()
    }
}

/// A decoded row is aligned to the schema and well-typed.
pub open spec fn row_wf(row: Seq<Option<Value>>, schema: Schema) -> bool {
    &&& row.len() == schema.fields@.len()
    &&& forall|j: int| 0 <= j < row.len() ==> cell_ok(#[trigger] row[j], schema.fields@[j].ty)
}

/// Cuts the decoded rows into row groups of at most `block_size` rows, in
/// input order; every group but the last is exactly full, and cell `i` of
/// column `j` of group `g` is cell `j` of input row `g * block_size + i`.
pub fn build_row_groups(schema: &Schema, rows: &Vec<Vec<Option<Value>>>, block_size: usize) -> (r:
    Vec<RowGroup>)
    requires
        block_size >= 1,
        forall|k: int| 0 <= k < rows@.len() ==> #[trigger] row_wf(rows@[k]@, *schema),
    ensures
        r@.len() == 0 <==> rows@.len() == 0,
        forall|g: int| 0 <= g < r@.len() ==> (#[trigger] r@[g]).wf(*schema),
        forall|g: int| 0 <= g < r@.len() ==> (#[trigger] r@[g]).n_rows <= block_size,
        forall|g: int| 0 <= g < r@.len() ==> (#[trigger] r@[g]).n_rows >= 1,
        forall|g: int| 0 <= g < r@.len() - 1 ==> (#[trigger] r@[g]).n_rows == block_size,
        forall|g: int|
            0 <= g < r@.len() ==> g * block_size + (#[trigger] r@[g]).n_rows <= rows@.len(),
        r@.len() > 0 ==> (r@.len() - 1) * block_size + r@[r@.len() - 1].n_rows == rows@.len(),
        forall|g: int, i: int, j: int|
            0 <= g < r@.len() && 0 <= i < r@[g].n_rows && 0 <= j < r@[g].columns@.len()
                ==> cell_model(#[trigger] r@[g].columns@[j].cells@[i]) == cell_model(
                rows@[g * block_size + i]@[j],
            ),
{
    let len = rows.len();
    let nf = schema.fields.len();
    let mut groups: Vec<RowGroup> = Vec::new();
    let mut start: usize = 0;
    while start < len
        invariant
            len == rows@.len(),
            nf == schema.fields@.len(),
            block_size >= 1,
            start <= len,
            forall|k: int| 0 <= k < rows@.len() ==> #[trigger] row_wf(rows@[k]@, *schema),
            groups@.len() == 0 ==> start == 0,
            groups@.len() > 0 ==> start == (groups@.len() - 1) * block_size + groups@[groups@.len()
                - 1].n_rows,
            forall|g: int| 0 <= g < groups@.len() ==> (#[trigger] groups@[g]).wf(*schema),
            forall|g: int| 0 <= g < groups@.len() ==> (#[trigger] groups@[g]).n_rows <= block_size,
            forall|g: int| 0 <= g < groups@.len() ==> (#[trigger] groups@[g]).n_rows >= 1,
            forall|g: int|
                0 <= g < groups@.len() - 1 ==> (#[trigger] groups@[g]).n_rows == block_size,
            forall|g: int|
                0 <= g < groups@.len() ==> g * block_size + (#[trigger] groups@[g]).n_rows
                    <= rows@.len(),
            forall|g: int, i: int, j: int|
                0 <= g < groups@.len() && 0 <= i < groups@[g].n_rows && 0 <= j
                    < groups@[g].columns@.len() ==> cell_model(
                    #[trigger] groups@[g].columns@[j].cells@[i],
                ) == cell_model(rows@[g * block_size + i]@[j]),
            groups@.len() > 0 && start < len ==> groups@[groups@.len() - 1].n_rows == block_size,
        decreases len - start,
    {
        let take: usize = if len - start < block_size {
            len - start
        } else {
            block_size
        };
        let mut cols: Vec<ColumnBuffer> = Vec::new();
        for j in 0..nf
            invariant
                nf == schema.fields@.len(),
                cols@.len() == j,
                forall|j2: int|
                    0 <= j2 < j ==> (#[trigger] cols@[j2]).ty == schema.fields@[j2].ty
                        && cols@[j2].cells@.len() == 0,
        {
            cols.push(ColumnBuffer { ty: schema.fields[j].ty, cells: Vec::new() });
        }
        for i in 0..take
            invariant
                len == rows@.len(),
                nf == schema.fields@.len(),
                start + take <= len,
                take >= 1,
                forall|k: int| 0 <= k < rows@.len() ==> #[trigger] row_wf(rows@[k]@, *schema),
                cols@.len() == nf,
                forall|j2: int|
                    0 <= j2 < nf ==> (#[trigger] cols@[j2]).ty == schema.fields@[j2].ty,
                forall|j2: int| 0 <= j2 < nf ==> (#[trigger] cols@[j2]).cells@.len() == i,
                forall|j2: int| 0 <= j2 < nf ==> (#[trigger] cols@[j2]).wf(),
                forall|i2: int, j2: int|
                    0 <= i2 < i && 0 <= j2 < nf ==> cell_model(
                        #[trigger] cols@[j2].cells@[i2],
                    ) == cell_model(rows@[start + i2]@[j2]),
        {
            let row = &rows[start + i];
            proof {
                assert(row_wf(rows@[start + i as int]@, *schema));
            }
            for j in 0..nf
                invariant
                    len == rows@.len(),
                    nf == schema.fields@.len(),
                    start + i < len,
                    row_wf(rows@[start + i as int]@, *schema),
                    row == rows@[start + i as int],
                    cols@.len() == nf,
                    forall|j2: int|
                        0 <= j2 < nf ==> (#[trigger] cols@[j2]).ty == schema.fields@[j2].ty,
                    forall|j2: int|
                        0 <= j2 < j ==> (#[trigger] cols@[j2]).cells@.len() == i + 1,
                    forall|j2: int|
                        j <= j2 < nf ==> (#[trigger] cols@[j2]).cells@.len() == i,
                    forall|j2: int| 0 <= j2 < nf ==> (#[trigger] cols@[j2]).wf(),
                    forall|i2: int, j2: int|
                        0 <= i2 < i && 0 <= j2 < nf ==> cell_model(
                            #[trigger] cols@[j2].cells@[i2],
                        ) == cell_model(rows@[start + i2]@[j2]),
                    forall|j2: int|
                        0 <= j2 < j ==> cell_model(#[trigger] cols@[j2].cells@[i as int])
                            == cell_model(rows@[start + i as int]@[j2]),
            {
                let cell: Option<Value> = match &row[j] {
                    Option::None => Option::None,
                    Option::Some(v) => Option::Some(v.dup()),
                };
                proof {
                    assert(cell_model(cell) == cell_model(rows@[start + i as int]@[j as int]));
                }
                cols[j].cells.push(cell);
            }
        }
        let ghost groups_old = groups@;
        groups.push(RowGroup { n_rows: take, columns: cols });
        start = start + take;
        proof {
            let g_new = groups@.len() - 1;
            assert(groups@[g_new].n_rows == take);
            assert(forall|g: int| 0 <= g < g_new ==> groups@[g] == groups_old[g]);
            assert(g_new * block_size == (g_new - 1) * block_size + block_size) by (nonlinear_arith);
        }
    }
    proof {
        assert(start == len);
        if rows@.len() > 0 {
            assert(groups@.len() > 0);
        }
        if groups@.len() > 0 {
            assert(0 * block_size + groups@[0].n_rows <= rows@.len());
            assert(rows@.len() > 0);
        }
        if groups@.len() > 0 {
            assert((groups@.len() - 1) * block_size + groups@[groups@.len() - 1].n_rows
                == rows@.len());
        }
    }
    groups
}


/// Reconstructs the rows that a sequence of row groups stands for, in
/// original order. Its preconditions are exactly what `build_row_groups`
/// guarantees of its result, so rebuilding the rows of built groups
/// yields the original row sequence: batching round-trips.
pub fn rows_of_groups(
    groups: &Vec<RowGroup>,
    block_size: usize,
    Ghost(orig): Ghost<Seq<Vec<Option<Value>>>>,
    Ghost(width): Ghost<int>,
) -> (r: Vec<Vec<Option<Value>>>)
    requires
        block_size >= 1,
        groups@.len() == 0 <==> orig.len() == 0,
        forall|g: int| 0 <= g < groups@.len() ==> (#[trigger] groups@[g]).n_rows >= 1,
        forall|g: int| 0 <= g < groups@.len() ==> (#[trigger] groups@[g]).n_rows <= block_size,
        forall|g: int|
            0 <= g < groups@.len() - 1 ==> (#[trigger] groups@[g]).n_rows == block_size,
        forall|g: int|
            0 <= g < groups@.len() ==> g * block_size + (#[trigger] groups@[g]).n_rows
                <= orig.len(),
        groups@.len() > 0 ==> (groups@.len() - 1) * block_size + groups@[groups@.len()
            - 1].n_rows == orig.len(),
        forall|g: int| 0 <= g < groups@.len() ==> (#[trigger] groups@[g]).columns@.len() == width,
        forall|k: int| 0 <= k < orig.len() ==> (#[trigger] orig[k])@.len() == width,
        forall|g: int, j: int|
            0 <= g < groups@.len() && 0 <= j < width
                ==> (#[trigger] groups@[g].columns@[j]).cells@.len() == groups@[g].n_rows,
        forall|g: int, i: int, j: int|
            0 <= g < groups@.len() && 0 <= i < groups@[g].n_rows && 0 <= j < width
                ==> cell_model(#[trigger] groups@[g].columns@[j].cells@[i]) == cell_model(
                orig[g * block_size + i]@[j],
            ),
    ensures
        r@.len() == orig.len(),
        forall|k: int|
            0 <= k < orig.len() ==> cells_model((#[trigger] r@[k])@) == cells_model(orig[k]@),
{
    let ng = groups.len();
    let mut out: Vec<Vec<Option<Value>>> = Vec::new();
    proof {
        assert(0 * block_size == 0) by (nonlinear_arith);
    }
    for g in 0..ng
        invariant
            ng == groups@.len(),
            block_size >= 1,
            forall|g2: int| 0 <= g2 < ng ==> (#[trigger] groups@[g2]).n_rows >= 1,
            forall|g2: int| 0 <= g2 < ng ==> (#[trigger] groups@[g2]).n_rows <= block_size,
            forall|g2: int| 0 <= g2 < ng - 1 ==> (#[trigger] groups@[g2]).n_rows == block_size,
            forall|g2: int|
                0 <= g2 < ng ==> g2 * block_size + (#[trigger] groups@[g2]).n_rows <= orig.len(),
            ng > 0 ==> (ng - 1) * block_size + groups@[ng - 1].n_rows == orig.len(),
            forall|g2: int| 0 <= g2 < ng ==> (#[trigger] groups@[g2]).columns@.len() == width,
            forall|k: int| 0 <= k < orig.len() ==> (#[trigger] orig[k])@.len() == width,
            forall|g2: int, j: int|
                0 <= g2 < ng && 0 <= j < width
                    ==> (#[trigger] groups@[g2].columns@[j]).cells@.len() == groups@[g2].n_rows,
            forall|g2: int, i: int, j: int|
                0 <= g2 < ng && 0 <= i < groups@[g2].n_rows && 0 <= j < width
                    ==> cell_model(#[trigger] groups@[g2].columns@[j].cells@[i]) == cell_model(
                    orig[g2 * block_size + i]@[j],
                ),
            g < ng ==> out@.len() == g * block_size,
            g == ng ==> out@.len() == orig.len(),
            out@.len() <= orig.len(),
            forall|k: int|
                0 <= k < out@.len() ==> cells_model((#[trigger] out@[k])@) == cells_model(
                    orig[k]@,
                ),
    {
        let nr = groups[g].n_rows;
        let nc = groups[g].columns.len();
        for i in 0..nr
            invariant
                g < ng,
                ng == groups@.len(),
                nr == groups@[g as int].n_rows,
                nc == groups@[g as int].columns@.len(),
                nc == width,
                g * block_size + nr <= orig.len(),
                out@.len() == g * block_size + i,
                forall|k: int| 0 <= k < orig.len() ==> (#[trigger] orig[k])@.len() == width,
                forall|j: int|
                    0 <= j < width
                        ==> (#[trigger] groups@[g as int].columns@[j]).cells@.len() == nr,
                forall|i2: int, j: int|
                    0 <= i2 < nr && 0 <= j < width
                        ==> cell_model(#[trigger] groups@[g as int].columns@[j].cells@[i2])
                        == cell_model(orig[g * block_size + i2]@[j]),
                forall|k: int|
                    0 <= k < out@.len() ==> cells_model((#[trigger] out@[k])@) == cells_model(
                        orig[k]@,
                    ),
        {
            let mut row: Vec<Option<Value>> = Vec::new();
            for j in 0..nc
                invariant
                    g < ng,
                    i < nr,
                    ng == groups@.len(),
                    nr == groups@[g as int].n_rows,
                    nc == groups@[g as int].columns@.len(),
                    nc == width,
                    row@.len() == j,
                    forall|j2: int|
                        0 <= j2 < width
                            ==> (#[trigger] groups@[g as int].columns@[j2]).cells@.len() == nr,
                    forall|i2: int, j2: int|
                        0 <= i2 < nr && 0 <= j2 < width
                            ==> cell_model(#[trigger] groups@[g as int].columns@[j2].cells@[i2])
                            == cell_model(orig[g * block_size + i2]@[j2]),
                    forall|j2: int|
                        0 <= j2 < j ==> cell_model(#[trigger] row@[j2]) == cell_model(
                            groups@[g as int].columns@[j2].cells@[i as int],
                        ),
            {
                let cell: Option<Value> = match &groups[g].columns[j].cells[i] {
                    Option::None => Option::None,
                    Option::Some(v) => Option::Some(v.dup()),
                };
                row.push(cell);
            }
            proof {
                let k = g * block_size + i;
                assert(orig[k]@.len() == width);
                assert(cells_model(row@) =~= cells_model(orig[k]@));
            }
            out.push(row);
        }
        proof {
            if g + 1 < ng {
                assert(groups@[g as int].n_rows == block_size);
                assert((g + 1) * block_size == g * block_size + block_size) by (nonlinear_arith);
            }
        }
    }
    out
}

} // verus!
