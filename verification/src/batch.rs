//! The input batch: a rectangular block of coordinates, rows = points and
//! columns = dimensions, kept in an `ndarray` two-dimensional array.
//!
//! Verus cannot look inside `ndarray`'s array type, so the batch holds it
//! in an opaque wrapper, and two names stand for what the library reads
//! from it: the sequence of rows and the column count.  The trusted items
//! below tie those names to `ndarray`'s own constructor and accessors.

use vstd::prelude::*;

verus! {

/// A rectangular batch of points: `nrows` points of `ncols` coordinates
/// each, backed by an `ndarray::Array2<i32>`.
#[verifier::external_body]
pub struct PointBatch {
    inner: ndarray::Array2<i32>,
}

/// The shapes `ndarray` accepts when building an owned array from a flat
/// vector: the product of the non-zero axis lengths must stay within
/// `isize` (its allocation bound), and the element count must match the
/// data length exactly.
pub open spec fn shape_ok(rows: int, cols: int, len: int) -> bool {
    &&& (if rows == 0 {
        1int
    } else {
        rows
    }) * (if cols == 0 {
        1int
    } else {
        cols
    }) <= isize::MAX as int
    &&& rows * cols == len
}

/// What a batch holds: its rows, top to bottom, each a sequence of
/// coordinates.
pub uninterp spec fn batch_rows(b: PointBatch) -> Seq<Seq<i32>>;

/// The column count of a batch; every row has exactly this many entries.
pub uninterp spec fn batch_ncols(b: PointBatch) -> int;

impl PointBatch {
    /// Relies on `ndarray`'s `Array2::from_shape_vec` with a
    /// `(rows, cols)` shape: it succeeds exactly when the shape passes
    /// ndarray's allocation check (the product of non-zero axis lengths
    /// within `isize`) and `rows * cols == data.len()`, and it lays the
    /// data out row-major, so row `j` holds `data[j*cols .. (j+1)*cols]`.
    #[verifier::external_body]
    pub fn from_shape_vec(rows: usize, cols: usize, data: Vec<i32>) -> (r: Option<PointBatch>)
        ensures
            match r {
                Some(b) => {
                    &&& shape_ok(rows as int, cols as int, data@.len() as int)
                    &&& batch_rows(b).len() == rows as int
                    &&& batch_ncols(b) == cols as int
                    &&& forall|j: int|
                        0 <= j < rows as int ==> (#[trigger] batch_rows(b)[j]).len() == cols as int
                    &&& forall|j: int, k: int|
                        0 <= j < rows as int && 0 <= k < cols as int ==> #[trigger] batch_rows(
                            b,
                        )[j][k] == data@[j * (cols as int) + k]
                },
                None => !shape_ok(rows as int, cols as int, data@.len() as int),
            },
    {
        match ndarray::Array2::from_shape_vec((rows, cols), data) {
            Ok(inner) => Some(PointBatch { inner }),
            Err(_) => None,
        }
    }

    /// Relies on `ndarray`'s `nrows`: the number of rows of the batch.
    #[verifier::external_body]
    pub(crate) fn nrows(&self) -> (n: usize)
        ensures
            n as int == batch_rows(*self).len(),
    {
        self.inner.nrows()
    }

    /// Relies on `ndarray`'s `ncols`: the number of columns of the batch.
    /// An `Array2` is rectangular, so every row has exactly this many
    /// entries.
    #[verifier::external_body]
    pub(crate) fn ncols(&self) -> (n: usize)
        ensures
            n as int == batch_ncols(*self),
            forall|j: int|
                0 <= j < batch_rows(*self).len() ==> (#[trigger] batch_rows(*self)[j]).len()
                    == n as int,
    {
        self.inner.ncols()
    }

    /// Relies on `ndarray`'s `row` and `to_vec`: the row at `i`, copied out
    /// as a plain vector of coordinates.
    #[verifier::external_body]
    pub(crate) fn row(&self, i: usize) -> (row: Vec<i32>)
        requires
            (i as int) < batch_rows(*self).len(),
        ensures
            row@ == batch_rows(*self)[i as int],
    {
        self.inner.row(i).to_vec()
    }
}

} // verus!
