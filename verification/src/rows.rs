//! Matrices stored row by row in one sequence.

use vstd::prelude::*;

verus! {

/// Row `r` of a matrix whose rows have `width` elements.
pub open spec fn row<T>(data: Seq<T>, width: int, r: int) -> Seq<T> {
    data.subrange(r * width, r * width + width)
}

/// A row lies within the matrix.
pub proof fn lemma_row_fits(r: int, rows: int, width: int)
    requires
        0 <= r < rows,
        0 <= width,
    ensures
        0 <= r * width,
        r * width + width <= rows * width,
        (r + 1) * width == r * width + width,
{
    assert(0 <= r * width && r * width + width <= rows * width && (r + 1) * width == r * width
        + width) by (nonlinear_arith)
        requires
            0 <= r < rows,
            0 <= width,
    ;
}

/// Different rows share no place.
pub proof fn lemma_rows_apart(r: int, s: int, width: int)
    requires
        r != s,
        0 <= width,
    ensures
        r * width + width <= s * width || s * width + width <= r * width,
{
    assert(r * width + width <= s * width || s * width + width <= r * width) by (nonlinear_arith)
        requires
            r != s,
            0 <= width,
    ;
}

/// The row of a pair of indices, `i` counting groups of `n` rows.
pub open spec fn place(i: int, n: int, j: int) -> int {
    i * n + j
}

/// The place of a pair is within its bounds.
pub proof fn lemma_place_fits(i: int, m: int, n: int, j: int)
    requires
        0 <= i < m,
        0 <= j < n,
    ensures
        0 <= i * n,
        0 <= place(i, n, j) < m * n,
{
    assert(0 <= i * n && i * n + j < m * n) by (nonlinear_arith)
        requires
            0 <= i < m,
            0 <= j < n,
    ;
}

/// A place belongs to one pair: its quotient and its remainder.
pub proof fn lemma_place_splits(r: int, m: int, n: int)
    requires
        0 <= r < m * n,
        0 <= m,
        0 <= n,
    ensures
        n > 0,
        0 <= r / n < m,
        0 <= r % n < n,
        place(r / n, n, r % n) == r,
{
    assert(n > 0) by (nonlinear_arith)
        requires
            0 <= r < m * n,
            0 <= m,
            0 <= n,
    ;
    assert(0 <= r / n < m && (r / n) * n + r % n == r) by (nonlinear_arith)
        requires
            0 <= r < m * n,
            n > 0,
    ;
}

/// The quotient and the remainder of a place give its pair back.
pub proof fn lemma_pair_of_place(i: int, n: int, j: int)
    requires
        0 <= i,
        0 <= j < n,
    ensures
        place(i, n, j) / n == i,
        place(i, n, j) % n == j,
{
    assert((i * n + j) / n == i && (i * n + j) % n == j) by (nonlinear_arith)
        requires
            0 <= i,
            0 <= j < n,
    ;
}

/// Different pairs have different places.
pub proof fn lemma_places_differ(i: int, j: int, k: int, l: int, n: int)
    requires
        0 <= i,
        0 <= k,
        0 <= j < n,
        0 <= l < n,
        i != k || j != l,
    ensures
        place(i, n, j) != place(k, n, l),
{
    lemma_pair_of_place(i, n, j);
    lemma_pair_of_place(k, n, l);
}

/// `n` copies of `x`.
pub(crate) fn filled<T: Copy>(n: usize, x: T) -> (v: Vec<T>)
    ensures
        v@ == Seq::new(n as nat, |i: int| x),
{
    let mut v: Vec<T> = Vec::with_capacity(n);
    let mut i: usize = 0;
    while i < n
        invariant
            i <= n,
            v@.len() == i,
            forall|j: int| 0 <= j < i ==> #[trigger] v@[j] == x,
        decreases n - i,
    {
        v.push(x);
        i = i + 1;
    }
    assert(v@ =~= Seq::new(n as nat, |i: int| x));
    v
}

/// Replaces row `r`.
pub(crate) fn write_row<T: Copy>(data: &mut Vec<T>, width: usize, r: usize, source: &[T])
    requires
        source@.len() == width,
        r * width + width <= old(data)@.len(),
    ensures
        final(data)@.len() == old(data)@.len(),
        row(final(data)@, width as int, r as int) == source@,
        forall|s: int|
            s != r && 0 <= s * width && s * width + width <= old(data)@.len() ==> #[trigger] row(
                final(data)@,
                width as int,
                s,
            ) == row(old(data)@, width as int, s),
{
    let len: usize = data.len();
    proof {
        assert(0 <= r * width) by (nonlinear_arith)
            requires
                0 <= r,
                0 <= width,
        ;
    }
    let base: usize = r * width;
    let mut i: usize = 0;
    while i < width
        invariant
            i <= width,
            len == data@.len(),
            data@.len() == old(data)@.len(),
            base == r * width,
            base + width <= len,
            source@.len() == width,
            forall|j: int| 0 <= j < i ==> #[trigger] data@[base + j] == source@[j],
            forall|p: int|
                0 <= p < data@.len() && !(base <= p < base + width) ==> #[trigger] data@[p]
                    == old(data)@[p],
        decreases width - i,
    {
        data.set(base + i, source[i]);
        i = i + 1;
    }
    proof {
        assert(row(data@, width as int, r as int) =~= source@) by {
            assert forall|j: int| 0 <= j < width implies #[trigger] row(
                data@,
                width as int,
                r as int,
            )[j] == source@[j] by {
                assert(data@[base + j] == source@[j]);
            }
        }
        assert forall|s: int|
            s != r && 0 <= s * width && s * width + width <= old(
                data,
            )@.len() implies #[trigger] row(data@, width as int, s) == row(
            old(data)@,
            width as int,
            s,
        ) by {
            lemma_rows_apart(r as int, s, width as int);
            assert(row(data@, width as int, s) =~= row(old(data)@, width as int, s));
        }
    }
}

/// Appends a row.
pub(crate) fn push_row<T: Copy>(data: &mut Vec<T>, width: usize, source: &[T], rows: Ghost<int>)
    requires
        source@.len() == width,
        rows@ >= 0,
        old(data)@.len() == rows@ * width,
    ensures
        final(data)@ == old(data)@ + source@,
        final(data)@.len() == (rows@ + 1) * width,
        row(final(data)@, width as int, rows@) == source@,
        forall|s: int|
            0 <= s < rows@ ==> #[trigger] row(final(data)@, width as int, s) == row(
                old(data)@,
                width as int,
                s,
            ),
{
    let mut i: usize = 0;
    while i < width
        invariant
            i <= width,
            source@.len() == width,
            data@ == old(data)@ + source@.take(i as int),
        decreases width - i,
    {
        data.push(source[i]);
        i = i + 1;
        assert(data@ =~= old(data)@ + source@.take(i as int));
    }
    proof {
        assert(source@.take(i as int) =~= source@);
        assert((rows@ + 1) * width == rows@ * width + width) by (nonlinear_arith);
        assert(row(data@, width as int, rows@) =~= source@);
        assert forall|s: int| 0 <= s < rows@ implies #[trigger] row(data@, width as int, s)
            == row(old(data)@, width as int, s) by {
            lemma_row_fits(s, rows@, width as int);
            assert(row(data@, width as int, s) =~= row(old(data)@, width as int, s));
        }
    }
}

/// Row `r` of a matrix of `rows` rows.
pub(crate) fn get_row<T>(data: &[T], width: usize, r: usize, rows: Ghost<int>) -> (s: &[T])
    requires
        r < rows@,
        rows@ * width <= data@.len(),
    ensures
        s@ == row(data@, width as int, r as int),
        s@.len() == width,
{
    let len: usize = data.len();
    proof {
        lemma_row_fits(r as int, rows@, width as int);
    }
    let base: usize = r * width;
    &data[base..base + width]
}

} // verus!
