//! The layout of what a decode returns.

use vstd::prelude::*;

verus! {

/// The greatest of the numbers, and zero if there is none above it.
pub open spec fn greatest(lengths: Seq<i32>) -> int
    decreases lengths.len(),
{
    if lengths.len() == 0 {
        0
    } else {
        let before = greatest(lengths.drop_last());
        if lengths.last() > before {
            lengths.last() as int
        } else {
            before
        }
    }
}

/// The length of the longest of the sequences.
pub open spec fn longest(items: Seq<Seq<i32>>) -> int
    decreases items.len(),
{
    if items.len() == 0 {
        0
    } else {
        let before = longest(items.drop_last());
        if items.last().len() > before {
            items.last().len() as int
        } else {
            before
        }
    }
}

/// A sequence as a row of the given width, filled up with zeros.
pub open spec fn padded_row(row: Seq<i32>, width: int) -> Seq<i32> {
    Seq::new(
        width as nat,
        |j: int|
            if j < row.len() {
                row[j]
            } else {
                0i32
            },
    )
}

/// The sequences as rows of one width, one behind the other.
pub open spec fn padded(items: Seq<Seq<i32>>, width: int) -> Seq<i32>
    decreases items.len(),
{
    if items.len() == 0 {
        Seq::empty()
    } else {
        padded(items.drop_last(), width) + padded_row(items.last(), width)
    }
}

/// The sequences are results for items of the given lengths: one for each
/// item, none longer than its item has time steps, of labels of the classes
/// other than the blank.
pub open spec fn shaped(
    items: Seq<Seq<i32>>,
    lengths: Seq<i32>,
    num_classes: i32,
    blank_idx: i32,
) -> bool {
    &&& items.len() == lengths.len()
    &&& forall|i: int| 0 <= i < items.len() ==> (#[trigger] items[i]).len() <= lengths[i]
    &&& forall|i: int, k: int|
        0 <= i < items.len() && 0 <= k < items[i].len() ==> 0 <= #[trigger] items[i][k]
            < num_classes && items[i][k] != blank_idx
}

/// The lengths of the sequences.
pub open spec fn lengths_of(items: Seq<Seq<i32>>) -> Seq<i32> {
    Seq::new(items.len(), |i: int| items[i].len() as i32)
}

/// No number is above the greatest, which is one of them or zero.
pub proof fn lemma_greatest(lengths: Seq<i32>, i: int)
    requires
        0 <= i < lengths.len(),
    ensures
        lengths[i] <= greatest(lengths),
    decreases lengths.len(),
{
    if i < lengths.len() - 1 {
        lemma_greatest(lengths.drop_last(), i);
    }
}

/// The greatest is not negative and is an `i32`.
pub proof fn lemma_greatest_range(lengths: Seq<i32>)
    ensures
        0 <= greatest(lengths) <= i32::MAX,
    decreases lengths.len(),
{
    if lengths.len() > 0 {
        lemma_greatest_range(lengths.drop_last());
    }
}

/// No sequence is longer than the longest.
pub proof fn lemma_longest(items: Seq<Seq<i32>>, i: int)
    requires
        0 <= i < items.len(),
    ensures
        items[i].len() <= longest(items),
    decreases items.len(),
{
    if i < items.len() - 1 {
        lemma_longest(items.drop_last(), i);
    }
}

/// The padded rows have `width` labels each, and label `j` of row `i` is
/// label `j` of sequence `i`, or zero behind its end.
pub proof fn lemma_padded(items: Seq<Seq<i32>>, width: int, i: int, j: int)
    requires
        0 <= i < items.len(),
        0 <= j < width,
    ensures
        padded(items, width).len() == items.len() * width,
        0 <= i * width + j < items.len() * width,
        padded(items, width)[i * width + j] == (if j < items[i].len() {
            items[i][j]
        } else {
            0i32
        }),
    decreases items.len(),
{
    lemma_padded_len(items, width);
    let n = items.len() as int;
    assert(i * width + j < n * width && 0 <= i * width) by (nonlinear_arith)
        requires
            0 <= i < n,
            0 <= j < width,
    ;
    lemma_padded_len(items.drop_last(), width);
    assert((n - 1) * width == n * width - width) by (nonlinear_arith);
    if i < n - 1 {
        lemma_padded(items.drop_last(), width, i, j);
    } else {
        assert(padded(items, width)[i * width + j] == padded_row(items.last(), width)[j]);
    }
}

/// The padded rows have `width` labels each.
pub proof fn lemma_padded_len(items: Seq<Seq<i32>>, width: int)
    requires
        0 <= width,
    ensures
        padded(items, width).len() == items.len() * width,
    decreases items.len(),
{
    if items.len() > 0 {
        lemma_padded_len(items.drop_last(), width);
        assert((items.len() - 1) * width + width == items.len() * width) by (nonlinear_arith);
    }
}

} // verus!
