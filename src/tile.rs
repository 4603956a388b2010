//! The scratch tile of a micro-kernel and its merge into the destination.
use vstd::prelude::*;
use vstd::arithmetic::div_mod::lemma_fundamental_div_mod_converse;

verus! {

/// Row, within a tile starting at `start` with rows `rs` apart, of position `j`.
pub open spec fn tile_row(j: int, start: int, rs: int) -> int {
    (j - start) / rs
}

/// Column, within a tile starting at `start` with rows `rs` apart, of position `j`.
pub open spec fn tile_col(j: int, start: int, rs: int) -> int {
    (j - start) % rs
}

/// Position `j` lies in the first `rows x cols` of a tile.
pub open spec fn in_tile(j: int, start: int, rs: int, rows: int, cols: int) -> bool {
    &&& j >= start
    &&& tile_row(j, start, rs) < rows
    &&& tile_col(j, start, rs) < cols
}

pub proof fn lemma_tile_position(start: int, rs: int, r: int, c: int)
    requires
        0 <= r,
        0 <= c < rs,
    ensures
        tile_row(start + r * rs + c, start, rs) == r,
        tile_col(start + r * rs + c, start, rs) == c,
{
    lemma_fundamental_div_mod_converse(r * rs + c, rs, r, c);
}

/// Position `j` was written once a merge has handled rows before `r` and
/// the first `c` columns of row `r`.
pub open spec fn tile_done(j: int, start: int, rs: int, cols: int, r: int, c: int) -> bool {
    &&& j >= start
    &&& tile_col(j, start, rs) < cols
    &&& (tile_row(j, start, rs) < r || (tile_row(j, start, rs) == r && tile_col(j, start, rs)
        < c))
}

/// Merge the first `used_rows x used_cols` of the scratch tile `tmp` (rows
/// `tmp_stride` apart) into `out` at `start` (rows `rs` apart): each value is
/// copied where `overwrite` holds, else combined with the value already
/// there as `combine(existing, computed)`. Nothing else of `out` changes.
pub fn accumulate_into<T: Copy, F: Fn(T, T) -> T>(
    tmp: &[T],
    tmp_stride: usize,
    out: &mut Vec<T>,
    start: usize,
    rs: usize,
    used_rows: usize,
    used_cols: usize,
    overwrite: bool,
    combine: F,
)
    requires
        rs > 0,
        used_cols <= tmp_stride,
        used_cols <= rs,
        used_rows * tmp_stride <= tmp@.len(),
        used_rows == 0 || start + (used_rows - 1) * rs + used_cols <= old(out)@.len(),
        !overwrite ==> forall|r: int, c: int|
            0 <= r < used_rows && 0 <= c < used_cols ==> #[trigger] combine.requires(
                (old(out)@[start + r * rs + c], tmp@[r * tmp_stride + c]),
            ),
    ensures
        final(out)@.len() == old(out)@.len(),
        forall|r: int, c: int|
            0 <= r < used_rows && 0 <= c < used_cols ==> if overwrite {
                final(out)@[start + r * rs + c] == tmp@[r * tmp_stride + c]
            } else {
                combine.ensures(
                    (old(out)@[start + r * rs + c], tmp@[r * tmp_stride + c]),
                    #[trigger] final(out)@[start + r * rs + c],
                )
            },
        forall|j: int|
            0 <= j < old(out)@.len() && !in_tile(j, start as int, rs as int, used_rows as int, used_cols as int)
                ==> #[trigger] final(out)@[j] == old(out)@[j],
{
    let ghost o = out@;
    let _ = out.len();
    let _ = tmp.len();
    let mut r: usize = 0;
    while r < used_rows
        invariant
            rs > 0,
            o.len() <= usize::MAX,
            tmp@.len() <= usize::MAX,
            used_cols <= tmp_stride,
            used_cols <= rs,
            used_rows * tmp_stride <= tmp@.len(),
            used_rows == 0 || start + (used_rows - 1) * rs + used_cols <= o.len(),
            !overwrite ==> forall|r2: int, c2: int|
                0 <= r2 < used_rows && 0 <= c2 < used_cols ==> #[trigger] combine.requires(
                    (o[start + r2 * rs + c2], tmp@[r2 * tmp_stride + c2]),
                ),
            r <= used_rows,
            out@.len() == o.len(),
            forall|r2: int, c2: int|
                0 <= r2 < r && 0 <= c2 < used_cols ==> if overwrite {
                    out@[start + r2 * rs + c2] == tmp@[r2 * tmp_stride + c2]
                } else {
                    combine.ensures(
                        (o[start + r2 * rs + c2], tmp@[r2 * tmp_stride + c2]),
                        #[trigger] out@[start + r2 * rs + c2],
                    )
                },
            forall|j: int|
                0 <= j < o.len() && !tile_done(j, start as int, rs as int, used_cols as int, r as int, 0)
                    ==> #[trigger] out@[j] == o[j],
        decreases used_rows - r,
    {
        proof {
            assert(r * rs + used_cols <= (used_rows - 1) * rs + used_cols) by (nonlinear_arith)
                requires
                    r < used_rows,
            ;
            assert(r * tmp_stride + tmp_stride <= used_rows * tmp_stride) by (nonlinear_arith)
                requires
                    r < used_rows,
            ;
        }
        let mut c: usize = 0;
        while c < used_cols
            invariant
                rs > 0,
                o.len() <= usize::MAX,
                tmp@.len() <= usize::MAX,
            tmp@.len() <= usize::MAX,
                used_cols <= tmp_stride,
                used_cols <= rs,
                r < used_rows,
                start + r * rs + used_cols <= o.len(),
                r * tmp_stride + tmp_stride <= tmp@.len(),
                !overwrite ==> forall|r2: int, c2: int|
                    0 <= r2 < used_rows && 0 <= c2 < used_cols ==> #[trigger] combine.requires(
                        (o[start + r2 * rs + c2], tmp@[r2 * tmp_stride + c2]),
                    ),
                c <= used_cols,
                out@.len() == o.len(),
                forall|r2: int, c2: int|
                    (0 <= r2 < r && 0 <= c2 < used_cols) || (r2 == r && 0 <= c2 < c) ==> if overwrite {
                        out@[start + r2 * rs + c2] == tmp@[r2 * tmp_stride + c2]
                    } else {
                        combine.ensures(
                            (o[start + r2 * rs + c2], tmp@[r2 * tmp_stride + c2]),
                            #[trigger] out@[start + r2 * rs + c2],
                        )
                    },
                forall|j: int|
                    0 <= j < o.len() && !tile_done(
                        j,
                        start as int,
                        rs as int,
                        used_cols as int,
                        r as int,
                        c as int,
                    ) ==> #[trigger] out@[j] == o[j],
            decreases used_cols - c,
        {
            let pos = start + r * rs + c;
            let t = tmp[r * tmp_stride + c];
            proof {
                lemma_tile_position(start as int, rs as int, r as int, c as int);
            }
            let v = if overwrite {
                t
            } else {
                combine(out[pos], t)
            };
            let ghost before = out@;
            out.set(pos, v);
            proof {
                assert forall|r2: int, c2: int|
                    (0 <= r2 < r && 0 <= c2 < used_cols) || (r2 == r && 0 <= c2 < c) implies #[trigger] out@[start + r2
                    * rs + c2] == before[start + r2 * rs + c2] by {
                    lemma_tile_position(start as int, rs as int, r2, c2);
                    assert(r2 * rs <= r * rs) by (nonlinear_arith)
                        requires
                            0 <= r2 <= r,
                            rs > 0,
                    ;
                }
                assert forall|j: int|
                    0 <= j < o.len() && !tile_done(
                        j,
                        start as int,
                        rs as int,
                        used_cols as int,
                        r as int,
                        c + 1,
                    ) implies #[trigger] out@[j] == o[j] by {
                    if j == pos {
                        assert(tile_done(j, start as int, rs as int, used_cols as int, r as int, c + 1));
                    }
                    assert(!tile_done(j, start as int, rs as int, used_cols as int, r as int, c as int));
                }
            }
            c += 1;
        }
        proof {
            assert forall|j: int|
                0 <= j < o.len() && !tile_done(j, start as int, rs as int, used_cols as int, r + 1, 0)
                    implies #[trigger] out@[j] == o[j] by {
                assert(!tile_done(
                    j,
                    start as int,
                    rs as int,
                    used_cols as int,
                    r as int,
                    used_cols as int,
                ));
            }
        }
        r += 1;
    }
    proof {
        assert forall|j: int|
            0 <= j < o.len() && !in_tile(j, start as int, rs as int, used_rows as int, used_cols as int)
                implies #[trigger] out@[j] == o[j] by {
            if j >= start {
                let x = j - start;
                let q = rs as int;
                assert(x % q >= 0) by (nonlinear_arith)
                    requires
                        q > 0,
                        x >= 0,
                ;
            }
            assert(!tile_done(j, start as int, rs as int, used_cols as int, used_rows as int, 0));
        }
    }
}

} // verus!
