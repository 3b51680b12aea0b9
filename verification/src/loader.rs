//! The embedding loader: file content in, matrix out.

use vstd::prelude::*;
use crate::field::{check_numeric_field, is_numeric_field};
use crate::matrix::EmbeddingMatrix;
use crate::text::{lines_of, seq_views, split_bytes, split_lines, split_on, COMMA};

verus! {

/// Why a load (or, at the boundary, the surrounding read or write) failed.
#[derive(Clone, Copy, Debug, PartialEq, Eq, Structural)]
pub enum LoadError {
    /// The file could not be opened or read. `load_from_bytes` itself
    /// never returns this; the caller that reads the file does.
    IoError,
    /// Some field of the file is not a numeric literal.
    ParseError,
    /// Some line's field count differs from the first line's.
    ShapeError,
}

impl LoadError {
    /// A short description of the error.
    pub fn message(&self) -> (r: &'static str)
        ensures
            *self == LoadError::IoError ==> r@ == "the embedding file cannot be read"@,
            *self == LoadError::ParseError ==> r@ == "a field is not a number"@,
            *self == LoadError::ShapeError ==> r@ == "the rows have differing field counts"@,
    {
        match self {
            LoadError::IoError => "the embedding file cannot be read",
            LoadError::ParseError => "a field is not a number",
            LoadError::ShapeError => "the rows have differing field counts",
        }
    }
}

/// The fields of one line: the line split at every comma.
pub open spec fn fields_of(line: Seq<u8>) -> Seq<Seq<u8>> {
    split_on(line, COMMA)
}

/// The column count the file commits to: the field count of its first
/// line, or zero when the file has no lines.
pub open spec fn expected_cols(c: Seq<u8>) -> int {
    if lines_of(c).len() == 0 {
        0
    } else {
        fields_of(lines_of(c)[0]).len() as int
    }
}

/// Line `i` has the expected field count.
pub open spec fn row_shape_ok(c: Seq<u8>, i: int) -> bool {
    fields_of(lines_of(c)[i]).len() == expected_cols(c)
}

/// Every field of line `i` is numeric.
pub open spec fn row_numeric(c: Seq<u8>, i: int) -> bool {
    forall|j: int|
        0 <= j < fields_of(lines_of(c)[i]).len() ==> is_numeric_field(
            #[trigger] fields_of(lines_of(c)[i])[j],
        )
}

/// Line `i` is well-formed.
pub open spec fn row_ok(c: Seq<u8>, i: int) -> bool {
    row_shape_ok(c, i) && row_numeric(c, i)
}

/// The whole file is well-formed: rectangular with every field numeric.
pub open spec fn all_rows_ok(c: Seq<u8>) -> bool {
    forall|i: int| 0 <= i < lines_of(c).len() ==> row_ok(c, i)
}

/// The first ill-formed line at or after `i`, or the line count when all
/// lines from `i` on are well-formed.
pub open spec fn first_bad_row_from(c: Seq<u8>, i: int) -> int
    decreases lines_of(c).len() - i,
{
    if i < 0 || i >= lines_of(c).len() {
        i
    } else if !row_ok(c, i) {
        i
    } else {
        first_bad_row_from(c, i + 1)
    }
}

/// The first ill-formed line of the file.
pub open spec fn first_bad_row(c: Seq<u8>) -> int {
    first_bad_row_from(c, 0)
}

/// The error an ill-formed file is rejected with. The loader works line
/// by line and, within a line, checks the field count before the fields,
/// so the error comes from the first ill-formed line: `ShapeError` when
/// that line's field count is off, `ParseError` otherwise.
pub open spec fn load_error_of(c: Seq<u8>) -> LoadError {
    if row_shape_ok(c, first_bad_row(c)) {
        LoadError::ParseError
    } else {
        LoadError::ShapeError
    }
}

/// A prefix of well-formed lines followed by an ill-formed one (or the
/// end) pins down `first_bad_row`.
proof fn lemma_first_bad_row_from(c: Seq<u8>, lo: int, i: int)
    requires
        0 <= lo <= i <= lines_of(c).len(),
        forall|r: int| lo <= r < i ==> row_ok(c, r),
        i < lines_of(c).len() ==> !row_ok(c, i),
    ensures
        first_bad_row_from(c, lo) == i,
    decreases i - lo,
{
    if lo < i {
        lemma_first_bad_row_from(c, lo + 1, i);
    }
}

/// Loads an embedding matrix from the raw content of a comma-separated
/// file. Succeeds exactly on well-formed content: every line split into
/// the same number of fields as the first line, and every field a numeric
/// literal. On success, entry (i, j) of the matrix is field j of line i.
/// An ill-formed file is rejected with the error of its first ill-formed
/// line, the field count checked before the fields.
#[verifier::loop_isolation(false)]
pub fn load_from_bytes(content: &Vec<u8>) -> (r: Result<EmbeddingMatrix, LoadError>)
    ensures
        match r {
            Ok(m) => all_rows_ok(content@) && m.wf() && m.rows == lines_of(content@).len()
                && m.cols == expected_cols(content@) && forall|i: int, j: int|
                0 <= i < m.rows && 0 <= j < m.cols ==> m.spec_entry(i, j) == #[trigger] fields_of(
                    lines_of(content@)[i],
                )[j],
            Err(e) => !all_rows_ok(content@) && e == load_error_of(content@),
        },
{
    let ghost c = content@;
    let lines = split_lines(content);
    let rows = lines.len();
    let mut data: Vec<Vec<u8>> = Vec::new();
    let mut cols: usize = 0;
    let mut i: usize = 0;
    while i < rows
        invariant
            i <= rows,
            i > 0 ==> cols as int == expected_cols(c),
            i == 0 ==> cols == 0,
            data@.len() == i * cols,
            forall|r: int| 0 <= r < i ==> row_ok(c, r),
            forall|r: int, j: int|
                0 <= r < i && 0 <= j < cols ==> data@[r * cols + j]@ == #[trigger] fields_of(
                    lines_of(c)[r],
                )[j],
            forall|k: int| 0 <= k < data@.len() ==> is_numeric_field(#[trigger] data@[k]@),
        decreases rows - i,
    {
        let row: &Vec<u8> = &lines[i];
        proof {
            assert(lines_of(c)[i as int] == row@);
        }
        let mut fields = split_bytes(row, COMMA);
        proof {
            assert(seq_views(fields@) == fields_of(lines_of(c)[i as int]));
        }
        if i == 0 {
            cols = fields.len();
        } else if fields.len() != cols {
            proof {
                assert(!row_shape_ok(c, i as int));
                lemma_first_bad_row_from(c, 0, i as int);
            }
            return Err(LoadError::ShapeError);
        }
        let fcount = fields.len();
        proof {
            assert(fcount as int == expected_cols(c));
        }
        let mut j: usize = 0;
        while j < fcount
            invariant
                j <= fcount,
                forall|q: int|
                    0 <= q < j ==> is_numeric_field(#[trigger] fields_of(lines_of(c)[i as int])[q]),
            decreases fcount - j,
        {
            if !check_numeric_field(&fields[j]) {
                proof {
                    assert(seq_views(fields@)[j as int] == fields@[j as int]@);
                    assert(!is_numeric_field(fields_of(lines_of(c)[i as int])[j as int]));
                    assert(!row_numeric(c, i as int));
                    lemma_first_bad_row_from(c, 0, i as int);
                    assert(row_shape_ok(c, i as int));
                }
                return Err(LoadError::ParseError);
            }
            proof {
                assert(seq_views(fields@)[j as int] == fields@[j as int]@);
            }
            j += 1;
        }
        proof {
            assert(row_numeric(c, i as int));
            assert(row_ok(c, i as int));
        }
        let ghost old_data = data@;
        let ghost fvec = fields@;
        let ghost fs = seq_views(fields@);
        data.append(&mut fields);
        proof {
            assert((i as int + 1) * cols == i as int * cols + cols) by (nonlinear_arith);
            assert forall|r: int, j2: int|
                0 <= r < i as int + 1 && 0 <= j2 < cols implies data@[r * cols + j2]@
                == #[trigger] fields_of(lines_of(c)[r])[j2] by {
                if r < i as int {
                    assert(r * cols + j2 < i as int * cols) by (nonlinear_arith)
                        requires
                            0 <= r < i as int,
                            0 <= j2 < cols as int,
                    ;
                    assert(data@[r * cols + j2] == old_data[r * cols + j2]);
                } else {
                    assert(r * cols + j2 == old_data.len() + j2);
                    assert(data@[r * cols + j2] == fvec[j2]);
                    assert(fvec[j2]@ == fs[j2]);
                }
            }
            assert forall|k: int| 0 <= k < data@.len() implies is_numeric_field(
                #[trigger] data@[k]@,
            ) by {
                if k >= old_data.len() {
                    assert(data@[k] == fvec[k - old_data.len()]);
                    assert(fvec[k - old_data.len()]@ == fs[k - old_data.len()]);
                    assert(is_numeric_field(fields_of(lines_of(c)[i as int])[k - old_data.len()]));
                }
            }
        }
        i += 1;
    }
    let m = EmbeddingMatrix { rows, cols, data };
    proof {
        assert(m.wf());
    }
    Ok(m)
}

} // verus!
