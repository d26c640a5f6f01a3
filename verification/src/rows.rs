//! Rows of a column: a value's bytes or a null, and how the values alone stand for them.

use crate::bytes::concat;
use crate::bytes::lemma_concat_push;
use crate::bytes::lemma_concat_uniform;
use crate::validity::lemma_valid_count_bounds;
use crate::validity::lemma_valid_count_subrange;
use crate::validity::valid_count;
use vstd::prelude::*;

verus! {

/// The rows of a column: `None` for a null.
pub type Rows = Seq<Option<Seq<u8>>>;

/// The values of the rows that hold one, in their order.
pub open spec fn present(rows: Rows) -> Seq<Seq<u8>>
    decreases rows.len(),
{
    if rows.len() == 0 {
        Seq::empty()
    } else {
        match rows.last() {
            None => present(rows.drop_last()),
            Some(value) => present(rows.drop_last()).push(value),
        }
    }
}

/// Which rows hold a value.
pub open spec fn row_mask(rows: Rows) -> Seq<bool> {
    Seq::new(rows.len(), |i: int| rows[i] is Some)
}

/// The rows that hold the given values, one behind the other, where the mask says so.
pub open spec fn spread(values: Seq<Seq<u8>>, mask: Seq<bool>) -> Rows {
    Seq::new(
        mask.len(),
        |i: int|
            if mask[i] {
                Some(values[valid_count(mask, i) as int])
            } else {
                None
            },
    )
}

/// The `i`th of a row of cells of one width.
pub open spec fn cell(bytes: Seq<u8>, width: nat, i: int) -> Seq<u8> {
    bytes.subrange(i * width, i * width + width)
}

/// The first `n` of a row of cells of one width.
pub open spec fn cells(bytes: Seq<u8>, width: nat, n: nat) -> Seq<Seq<u8>> {
    Seq::new(n, |i: int| cell(bytes, width, i))
}

/// A cell that is all zeros.
pub open spec fn zero_cell(width: nat) -> Seq<u8> {
    Seq::new(width, |i: int| 0u8)
}

/// For each row the cell that holds its value, and a cell of zeros for a null.
pub open spec fn scattered_cells(packed: Seq<u8>, mask: Seq<bool>, width: nat) -> Seq<Seq<u8>> {
    Seq::new(
        mask.len(),
        |i: int|
            if mask[i] {
                cell(packed, width, valid_count(mask, i) as int)
            } else {
                zero_cell(width)
            },
    )
}

/// There are as many present values as set flags.
pub proof fn lemma_present_len(rows: Rows)
    ensures
        present(rows).len() == valid_count(row_mask(rows), rows.len() as int),
    decreases rows.len(),
{
    if rows.len() > 0 {
        lemma_present_len(rows.drop_last());
        crate::validity::lemma_valid_count_prefix(
            row_mask(rows.drop_last()),
            row_mask(rows),
            rows.len() - 1,
        );
    }
}

/// What holds of the value of every row holds of every present value.
pub proof fn lemma_present_all(rows: Rows, p: spec_fn(Seq<u8>) -> bool)
    requires
        forall|i: int| 0 <= i < rows.len() ==> ((#[trigger] rows[i]) matches Some(v) ==> p(v)),
    ensures
        forall|k: int| 0 <= k < present(rows).len() ==> p(#[trigger] present(rows)[k]),
    decreases rows.len(),
{
    if rows.len() > 0 {
        lemma_present_all(rows.drop_last(), p);
        let front = present(rows.drop_last());
        assert forall|k: int| 0 <= k < present(rows).len() implies p(#[trigger] present(rows)[k]) by {
            if k < front.len() {
                assert(present(rows)[k] == front[k]);
            } else {
                assert(rows[rows.len() - 1] == Some(present(rows)[k]));
            }
        }
    }
}

/// The present values of two rows of rows.
pub proof fn lemma_present_add(a: Rows, b: Rows)
    ensures
        present(a + b) == present(a) + present(b),
    decreases b.len(),
{
    if b.len() == 0 {
        assert(a + b =~= a);
        assert(present(a) + present(b) =~= present(a));
    } else {
        lemma_present_add(a, b.drop_last());
        assert((a + b).drop_last() =~= a + b.drop_last());
        assert(present(a + b) =~= present(a) + present(b));
    }
}

/// The values that a slice of the rows holds.
pub proof fn lemma_present_subrange(rows: Rows, start: int, stop: int)
    requires
        0 <= start <= stop <= rows.len(),
    ensures
        valid_count(row_mask(rows), start) <= valid_count(row_mask(rows), stop)
            <= present(rows).len(),
        present(rows.subrange(start, stop)) == present(rows).subrange(
            valid_count(row_mask(rows), start) as int,
            valid_count(row_mask(rows), stop) as int,
        ),
{
    let mask = row_mask(rows);
    lemma_present_len(rows);
    lemma_valid_count_bounds(mask, start, stop);
    lemma_valid_count_bounds(mask, stop, rows.len() as int);
    assert(rows =~= rows.take(start) + rows.subrange(start, stop) + rows.skip(stop));
    lemma_present_add(rows.take(start) + rows.subrange(start, stop), rows.skip(stop));
    lemma_present_add(rows.take(start), rows.subrange(start, stop));
    lemma_present_len(rows.take(start));
    lemma_present_len(rows.subrange(start, stop));
    assert(row_mask(rows.take(start)) =~= mask.subrange(0, start));
    assert(row_mask(rows.subrange(start, stop)) =~= mask.subrange(start, stop));
    lemma_valid_count_subrange(mask, 0, start, start);
    lemma_valid_count_subrange(mask, start, stop, stop - start);
    assert(present(rows.subrange(start, stop)) =~= present(rows).subrange(
        valid_count(mask, start) as int,
        valid_count(mask, stop) as int,
    ));
}

/// The values of a column and the mask of its rows are all there is to the column: spreading the
/// values over the rows that hold one gives the rows back.
pub proof fn law_spread_present(rows: Rows)
    ensures
        spread(present(rows), row_mask(rows)) == rows,
{
    let mask = row_mask(rows);
    assert forall|i: int| 0 <= i < rows.len() implies #[trigger] spread(present(rows), mask)[i]
        == rows[i] by {
        if mask[i] {
            lemma_present_subrange(rows, i, i + 1);
            let one = rows.subrange(i, i + 1);
            assert(one.drop_last() =~= Seq::<Option<Seq<u8>>>::empty());
            assert(present(one.drop_last()).len() == 0);
            assert(present(one)[0] == rows[i]->0);
            assert(present(one)[0] == present(rows)[valid_count(mask, i) as int]);
        }
    }
    assert(spread(present(rows), mask) =~= rows);
}

/// A cell within its bytes.
pub proof fn lemma_cell_bounds(i: int, n: int, width: nat)
    requires
        0 <= i < n,
    ensures
        0 <= i * width,
        i * width + width <= n * width,
        (i + 1) * width == i * width + width,
{
    assert(0 <= i * width) by (nonlinear_arith)
        requires
            0 <= i,
    ;
    assert((i + 1) * width == i * width + width) by (nonlinear_arith);
    assert((i + 1) * width <= n * width) by (nonlinear_arith)
        requires
            i + 1 <= n,
    ;
}

/// Cells that fill their bytes are, one behind the other, those bytes.
pub proof fn lemma_concat_cells(bytes: Seq<u8>, width: nat, n: nat)
    requires
        n * width <= bytes.len(),
    ensures
        concat(cells(bytes, width, n)) == bytes.take((n * width) as int),
    decreases n,
{
    if n > 0 {
        let m = (n - 1) as nat;
        lemma_cell_bounds(m as int, n as int, width);
        lemma_concat_cells(bytes, width, m);
        assert(cells(bytes, width, n) =~= cells(bytes, width, m).push(
            cell(bytes, width, m as int),
        ));
        lemma_concat_push(cells(bytes, width, m), cell(bytes, width, m as int));
        assert(bytes.take((m * width) as int) + cell(bytes, width, m as int) =~= bytes.take(
            (n * width) as int,
        ));
    } else {
        assert(n * width == 0) by (nonlinear_arith)
            requires
                n == 0,
        ;
        assert(cells(bytes, width, n) =~= Seq::<Seq<u8>>::empty());
        assert(bytes.take(0) =~= Seq::<u8>::empty());
    }
}

/// The cells of the concatenation of parts of one width are the parts.
pub proof fn lemma_cells_concat(parts: Seq<Seq<u8>>, width: nat)
    requires
        forall|i: int| 0 <= i < parts.len() ==> (#[trigger] parts[i]).len() == width,
    ensures
        concat(parts).len() == parts.len() * width,
        cells(concat(parts), width, parts.len()) == parts,
    decreases parts.len(),
{
    lemma_concat_uniform(parts, width);
    let n = parts.len();
    if n > 0 {
        let front = parts.drop_last();
        lemma_cells_concat(front, width);
        let all = concat(parts);
        assert forall|i: int| 0 <= i < n implies #[trigger] cell(all, width, i) == parts[i] by {
            lemma_cell_bounds(i, n as int, width);
            if i < n - 1 {
                lemma_cell_bounds(i, n - 1, width);
                assert(cells(concat(front), width, front.len())[i] == front[i]);
                assert(cell(all, width, i) =~= cell(concat(front), width, i));
            } else {
                assert(cell(all, width, i) =~= parts.last());
            }
        }
        assert(cells(all, width, n) =~= parts);
    } else {
        assert(cells(concat(parts), width, n) =~= parts);
    }
}

/// Where every row holds a value, scattering changes nothing.
pub proof fn lemma_scatter_all(packed: Seq<u8>, mask: Seq<bool>, width: nat)
    requires
        packed.len() == mask.len() * width,
        forall|i: int| 0 <= i < mask.len() ==> mask[i],
    ensures
        concat(scattered_cells(packed, mask, width)) == packed,
{
    assert forall|i: int| 0 <= i < mask.len() implies #[trigger] scattered_cells(
        packed,
        mask,
        width,
    )[i] == cell(packed, width, i) by {
        crate::validity::lemma_valid_count_constant(mask, i, true);
    }
    assert(scattered_cells(packed, mask, width) =~= cells(packed, width, mask.len()));
    lemma_concat_cells(packed, width, mask.len());
    assert(packed.take((mask.len() * width) as int) =~= packed);
}

/// The rows of scattered cells are the packed cells, spread over the rows.
pub proof fn lemma_scattered_rows(packed: Seq<u8>, mask: Seq<bool>, width: nat)
    requires
        packed.len() == valid_count(mask, mask.len() as int) * width,
    ensures
        concat(scattered_cells(packed, mask, width)).len() == mask.len() * width,
        forall|i: int|
            0 <= i < mask.len() && mask[i] ==> #[trigger] cell(
                concat(scattered_cells(packed, mask, width)),
                width,
                i,
            ) == cell(packed, width, valid_count(mask, i) as int),
{
    let parts = scattered_cells(packed, mask, width);
    assert forall|i: int| 0 <= i < parts.len() implies (#[trigger] parts[i]).len() == width by {
        if mask[i] {
            lemma_valid_count_bounds(mask, i + 1, mask.len() as int);
            lemma_cell_bounds(
                valid_count(mask, i) as int,
                valid_count(mask, mask.len() as int) as int,
                width,
            );
        }
    }
    lemma_cells_concat(parts, width);
    assert forall|i: int| 0 <= i < mask.len() && mask[i] implies #[trigger] cell(
        concat(parts),
        width,
        i,
    ) == cell(packed, width, valid_count(mask, i) as int) by {
        assert(cells(concat(parts), width, parts.len())[i] == parts[i]);
    }
}

/// The present values of rows: of no rows none, of a null none, of a row with a value that value,
/// and of two runs of rows first those of the one and then those of the other.
pub proof fn law_present(value: Seq<u8>, a: Rows, b: Rows)
    ensures
        present(Seq::empty()) == Seq::<Seq<u8>>::empty(),
        present(seq![None]) == Seq::<Seq<u8>>::empty(),
        present(seq![Some(value)]) == seq![value],
        present(a + b) == present(a) + present(b),
{
    let null: Rows = seq![None];
    let one: Rows = seq![Some(value)];
    assert(null.drop_last() =~= Seq::<Option<Seq<u8>>>::empty());
    assert(one.drop_last() =~= Seq::<Option<Seq<u8>>>::empty());
    assert(present(Seq::empty()) =~= Seq::<Seq<u8>>::empty());
    assert(present(one) =~= seq![value]);
    lemma_present_add(a, b);
}

/// Spreading values over the rows that a mask sets puts the values there in their order: it leaves
/// the other rows null, and the present values are the ones that were spread.
pub proof fn law_present_spread(values: Seq<Seq<u8>>, mask: Seq<bool>)
    requires
        values.len() == valid_count(mask, mask.len() as int),
    ensures
        spread(values, mask).len() == mask.len(),
        forall|i: int|
            0 <= i < mask.len() ==> ((#[trigger] spread(values, mask)[i]) is Some <==> mask[i]),
        present(spread(values, mask)) == values,
{
    lemma_present_spread_prefix(values, mask, mask.len() as int);
    assert(spread(values, mask).take(mask.len() as int) =~= spread(values, mask));
    assert(values.take(values.len() as int) =~= values);
}

/// The present values of the first rows over which values were spread.
proof fn lemma_present_spread_prefix(values: Seq<Seq<u8>>, mask: Seq<bool>, n: int)
    requires
        values.len() == valid_count(mask, mask.len() as int),
        0 <= n <= mask.len(),
    ensures
        valid_count(mask, n) <= values.len(),
        present(spread(values, mask).take(n)) == values.take(valid_count(mask, n) as int),
    decreases n,
{
    let rows = spread(values, mask);
    lemma_valid_count_bounds(mask, n, mask.len() as int);
    if n == 0 {
        assert(rows.take(0) =~= Seq::<Option<Seq<u8>>>::empty());
        assert(present(rows.take(0)) =~= values.take(0));
    } else {
        lemma_present_spread_prefix(values, mask, n - 1);
        assert(rows.take(n).drop_last() =~= rows.take(n - 1));
        assert(rows.take(n).last() == rows[n - 1]);
        assert(present(rows.take(n)) =~= values.take(valid_count(mask, n) as int));
    }
}

/// Cells stand one behind the other, each `width` bytes long: the `j`th byte of the `i`th cell is
/// the byte `i * width + j`.
pub proof fn law_cell_bytes(bytes: Seq<u8>, width: nat, n: nat, i: int, j: int)
    requires
        bytes.len() == n * width,
        0 <= i < n,
        0 <= j < width,
    ensures
        cell(bytes, width, i).len() == width,
        0 <= i * width + j < bytes.len(),
        cell(bytes, width, i)[j] == bytes[i * width + j],
        cells(bytes, width, n).len() == n,
        cells(bytes, width, n)[i] == cell(bytes, width, i),
{
    lemma_cell_bounds(i, n as int, width);
}

/// Scattering packed cells over the rows that a mask sets: each byte of a set row is the byte at
/// the same place of the cell that is packed behind as many cells as there are set rows before it,
/// and each byte of another row is 0.
pub proof fn law_scattered_bytes(packed: Seq<u8>, mask: Seq<bool>, width: nat, i: int, j: int)
    requires
        packed.len() == valid_count(mask, mask.len() as int) * width,
        0 <= i < mask.len(),
        0 <= j < width,
    ensures
        concat(scattered_cells(packed, mask, width)).len() == mask.len() * width,
        mask[i] ==> concat(scattered_cells(packed, mask, width))[i * width + j]
            == packed[valid_count(mask, i) * width + j],
        !mask[i] ==> concat(scattered_cells(packed, mask, width))[i * width + j] == 0,
{
    let parts = scattered_cells(packed, mask, width);
    assert forall|k: int| 0 <= k < parts.len() implies (#[trigger] parts[k]).len() == width by {
        if mask[k] {
            lemma_valid_count_bounds(mask, k + 1, mask.len() as int);
            lemma_cell_bounds(
                valid_count(mask, k) as int,
                valid_count(mask, mask.len() as int) as int,
                width,
            );
        }
    }
    lemma_cells_concat(parts, width);
    lemma_cell_bounds(i, mask.len() as int, width);
    assert(cells(concat(parts), width, parts.len())[i] == parts[i]);
    assert(cell(concat(parts), width, i)[j] == concat(parts)[i * width + j]);
    assert(parts[i][j] == concat(parts)[i * width + j]);
    if mask[i] {
        lemma_valid_count_bounds(mask, i + 1, mask.len() as int);
        lemma_cell_bounds(
            valid_count(mask, i) as int,
            valid_count(mask, mask.len() as int) as int,
            width,
        );
    }
}

} // verus!
