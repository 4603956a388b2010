//! Vectorised map and fold over slices: the input is processed in windows of
//! a vector's lane count, and the final partial window is padded.
use vstd::prelude::*;
use vstd::arithmetic::div_mod::lemma_fundamental_div_mod_converse;

verus! {

/// Lanes `start .. start + width` of `xs`; lanes past the end hold `pad`.
pub open spec fn padded_window<T>(xs: Seq<T>, start: int, width: int, pad: T) -> Seq<T> {
    Seq::new(width as nat, |j: int| if start + j < xs.len() { xs[start + j] } else { pad })
}

/// Number of windows of `width` lanes that cover `n` elements.
pub open spec fn window_count(n: int, width: int) -> int {
    (n + width - 1) / width
}

/// Window `k` of `output` holds the lanes, as far as the input reaches, that
/// `op` returned for window `k` of `input` padded with `pad`.
pub open spec fn map_window_ok<T, Op: Fn(Vec<T>) -> Vec<T>>(
    op: Op,
    input: Seq<T>,
    output: Seq<T>,
    width: int,
    pad: T,
    k: int,
) -> bool {
    exists|v: Vec<T>, r: Vec<T>|
        #![trigger op.ensures((v,), r)]
        v@ == padded_window(input, k * width, width, pad) && op.ensures((v,), r) && forall|j: int|
            0 <= j < width && k * width + j < input.len() ==> output[k * width + j] == r@[j]
}

/// Step `k` of a fold: `accs[k + 1]` is what `op` returned for `accs[k]` and
/// window `k` of `xs` padded with `pad`.
pub open spec fn fold_step_ok<T, A, Op: Fn(A, Vec<T>) -> A>(
    op: Op,
    xs: Seq<T>,
    width: int,
    pad: T,
    accs: Seq<A>,
    k: int,
) -> bool {
    exists|v: Vec<T>|
        #![trigger op.ensures((accs[k], v), accs[k + 1])]
        v@ == padded_window(xs, k * width, width, pad) && op.ensures((accs[k], v), accs[k + 1])
}

/// `result` is the accumulator after folding `op` over the windows of `xs`,
/// the last one padded with `pad`, starting from `init`.
pub open spec fn fold_ok<T, A, Op: Fn(A, Vec<T>) -> A>(
    op: Op,
    xs: Seq<T>,
    width: int,
    pad: T,
    init: A,
    result: A,
) -> bool {
    exists|accs: Seq<A>|
        #![trigger accs.len()]
        accs.len() == window_count(xs.len() as int, width) + 1 && accs[0] == init && accs.last()
            == result && forall|k: int|
            0 <= k < window_count(xs.len() as int, width) ==> #[trigger] fold_step_ok(
                op,
                xs,
                width,
                pad,
                accs,
                k,
            )
}

/// Load `width` lanes of `xs` from `start`, filling lanes past the end with
/// `pad`.
pub fn load_padded<T: Copy>(xs: &[T], start: usize, width: usize, pad: T) -> (r: Vec<T>)
    requires
        start <= xs@.len(),
    ensures
        r@ == padded_window(xs@, start as int, width as int, pad),
{
    let len = xs.len();
    let avail = len - start;
    let mut r: Vec<T> = Vec::new();
    let mut j: usize = 0;
    while j < width
        invariant
            start <= xs@.len(),
            avail == xs@.len() - start,
            start + avail <= usize::MAX,
            j <= width,
            r@ =~= padded_window(xs@, start as int, width as int, pad).subrange(0, j as int),
        decreases width - j,
    {
        if j < avail {
            r.push(xs[start + j]);
        } else {
            r.push(pad);
        }
        j += 1;
    }
    r
}

/// Store the first `n` lanes of `v` into `out` from `start`; the rest of
/// `out` is unchanged.
pub fn store_prefix<T: Copy>(out: &mut Vec<T>, start: usize, v: &Vec<T>, n: usize)
    requires
        n <= v@.len(),
        start + n <= old(out)@.len(),
    ensures
        final(out)@.len() == old(out)@.len(),
        forall|i: int|
            0 <= i < old(out)@.len() ==> #[trigger] final(out)@[i] == if start <= i < start + n {
                v@[i - start]
            } else {
                old(out)@[i]
            },
{
    let _ = out.len();
    let mut j: usize = 0;
    while j < n
        invariant
            old(out)@.len() <= usize::MAX,
            n <= v@.len(),
            start + n <= old(out)@.len(),
            out@.len() == old(out)@.len(),
            j <= n,
            forall|i: int|
                0 <= i < old(out)@.len() ==> #[trigger] out@[i] == if start <= i < start + j {
                    v@[i - start]
                } else {
                    old(out)@[i]
                },
        decreases n - j,
    {
        out.set(start + j, v[j]);
        j += 1;
    }
}

/// Apply `op` to each window of `width` lanes of `input` and store the lanes
/// that it returns in `output`. The final window, where the length is not a
/// multiple of `width`, is padded with `pad`, and only the lanes that
/// correspond to input elements are stored.
pub fn simd_map<T: Copy, Op: Fn(Vec<T>) -> Vec<T>>(
    input: &[T],
    output: &mut Vec<T>,
    width: usize,
    op: Op,
    pad: T,
)
    requires
        width > 0,
        input@.len() == old(output)@.len(),
        forall|v: Vec<T>| v@.len() == width ==> #[trigger] op.requires((v,)),
        forall|v: Vec<T>, r: Vec<T>|
            v@.len() == width && #[trigger] op.ensures((v,), r) ==> r@.len() == width,
    ensures
        final(output)@.len() == input@.len(),
        forall|k: int|
            0 <= k < window_count(input@.len() as int, width as int) ==> #[trigger] map_window_ok(
                op,
                input@,
                final(output)@,
                width as int,
                pad,
                k,
            ),
{
    let n = input.len();
    let ghost w = width as int;
    let ghost mut vs: Seq<Vec<T>> = Seq::empty();
    let ghost mut rs: Seq<Vec<T>> = Seq::empty();
    let mut pos: usize = 0;
    let mut done: usize = 0;
    while pos < n
        invariant
            width > 0,
            w == width,
            n == input@.len() == output@.len(),
            forall|v: Vec<T>| v@.len() == width ==> #[trigger] op.requires((v,)),
            forall|v: Vec<T>, r: Vec<T>|
                v@.len() == width && #[trigger] op.ensures((v,), r) ==> r@.len() == width,
            pos <= n,
            done * width >= pos,
            pos < n ==> pos == done * width,
            done <= pos,
            vs.len() == done,
            rs.len() == done,
            forall|k: int|
                0 <= k < done ==> (#[trigger] vs[k])@ == padded_window(input@, k * w, w, pad)
                    && op.ensures((vs[k],), rs[k]) && rs[k]@.len() == w,
            forall|k: int, j: int|
                0 <= k < done && 0 <= j < w && k * w + j < n ==> output@[k * w + j] == #[trigger] rs[k]@[j],
        decreases n - pos,
    {
        let v = load_padded(input, pos, width, pad);
        let ghost gv = v;
        let r = op(v);
        let m = if n - pos < width {
            n - pos
        } else {
            width
        };
        let ghost before = output@;
        store_prefix(output, pos, &r, m);
        proof {
            vs = vs.push(gv);
            rs = rs.push(r);
            assert forall|k: int, j: int|
                0 <= k < done + 1 && 0 <= j < w && k * w + j < n implies output@[k * w + j] == #[trigger] rs[k]@[j] by {
                if k < done {
                    assert(k * w + j < done * w) by (nonlinear_arith)
                        requires
                            0 <= k < done,
                            0 <= j < w,
                    ;
                    assert(output@[k * w + j] == before[k * w + j]);
                } else {
                    assert(k * w == pos);
                }
            }
        }
        pos = pos + m;
        done = done + 1;
        assert(done * width == (done - 1) * width + width) by (nonlinear_arith);
        assert(done <= pos) by (nonlinear_arith)
            requires
                pos == (done - 1) * width + m,
                m >= 1,
                width >= 1,
                done >= 1,
        ;
    }
    proof {
        assert forall|k: int| 0 <= k < window_count(n as int, w) implies #[trigger] map_window_ok(
            op,
            input@,
            output@,
            w,
            pad,
            k,
        ) by {
            assert(k < done) by (nonlinear_arith)
                requires
                    0 <= k,
                    k < (n + w - 1) / w,
                    w > 0,
                    done * w >= n,
            ;
            let v = vs[k];
            let r = rs[k];
            assert(op.ensures((v,), r));
        }
    }
}

} // verus!

verus! {

/// Fold `op` over the windows of `width` lanes of `xs`, starting from
/// `accum`. The final window, where the length is not a multiple of
/// `width`, is padded with `pad`.
pub fn simd_fold<T: Copy, A, Op: Fn(A, Vec<T>) -> A>(
    xs: &[T],
    accum: A,
    width: usize,
    op: Op,
    pad: T,
) -> (r: A)
    requires
        width > 0,
        forall|a: A, v: Vec<T>| v@.len() == width ==> #[trigger] op.requires((a, v)),
    ensures
        fold_ok(op, xs@, width as int, pad, accum, r),
{
    let n = xs.len();
    let ghost w = width as int;
    let ghost init = accum;
    let ghost mut accs: Seq<A> = seq![accum];
    let mut acc = accum;
    let mut pos: usize = 0;
    let mut done: usize = 0;
    while pos < n
        invariant
            width > 0,
            w == width,
            n == xs@.len(),
            forall|a: A, v: Vec<T>| v@.len() == width ==> #[trigger] op.requires((a, v)),
            pos <= n,
            done * width >= pos,
            pos < n ==> pos == done * width,
            done <= pos,
            done > 0 ==> (done - 1) * width < pos,
            accs.len() == done + 1,
            accs[0] == init,
            accs.last() == acc,
            forall|k: int| 0 <= k < done ==> #[trigger] fold_step_ok(op, xs@, w, pad, accs, k),
        decreases n - pos,
    {
        let v = load_padded(xs, pos, width, pad);
        let ghost gv = v;
        let ghost prev = accs;
        acc = op(acc, v);
        proof {
            accs = accs.push(acc);
            assert(accs[done as int] == prev.last());
            assert(op.ensures((accs[done as int], gv), accs[done + 1]));
            assert(fold_step_ok(op, xs@, w, pad, accs, done as int));
            assert forall|k: int| 0 <= k < done + 1 implies #[trigger] fold_step_ok(
                op,
                xs@,
                w,
                pad,
                accs,
                k,
            ) by {
                if k < done {
                    assert(fold_step_ok(op, xs@, w, pad, prev, k));
                    assert(accs[k] == prev[k] && accs[k + 1] == prev[k + 1]);
                }
            }
        }
        let m = if n - pos < width {
            n - pos
        } else {
            width
        };
        pos = pos + m;
        done = done + 1;
        assert(done * width == (done - 1) * width + width) by (nonlinear_arith);
        assert(done <= pos) by (nonlinear_arith)
            requires
                pos == (done - 1) * width + m,
                m >= 1,
                width >= 1,
                done >= 1,
        ;
        assert((done - 1) * width < pos);
    }
    proof {
        assert(window_count(n as int, w) == done) by (nonlinear_arith)
            requires
                w > 0,
                done * w >= n,
                done <= n,
                n > 0 ==> (done - 1) * w < n,
                n == 0 ==> done == 0,
        ;
        assert(accs.len() == window_count(xs@.len() as int, w) + 1);
    }
    acc
}

/// Padding never reaches the output of a map whose operation works lane by
/// lane: where `op` transforms each lane by `f` alone, each output element
/// is `f` of its input element, whatever the padding value.
pub proof fn lemma_padding_invisible<T, Op: Fn(Vec<T>) -> Vec<T>>(
    op: Op,
    input: Seq<T>,
    output: Seq<T>,
    width: int,
    pad: T,
    f: spec_fn(T) -> T,
)
    requires
        width > 0,
        output.len() == input.len(),
        forall|k: int|
            0 <= k < window_count(input.len() as int, width) ==> #[trigger] map_window_ok(
                op,
                input,
                output,
                width,
                pad,
                k,
            ),
        forall|v: Vec<T>, r: Vec<T>|
            #[trigger] op.ensures((v,), r) ==> r@.len() == v@.len() && forall|j: int|
                0 <= j < v@.len() ==> r@[j] == f(v@[j]),
    ensures
        forall|i: int| 0 <= i < input.len() ==> output[i] == f(input[i]),
{
    assert forall|i: int| 0 <= i < input.len() implies output[i] == f(input[i]) by {
        let k = i / width;
        let j = i % width;
        assert(i == k * width + j && 0 <= j < width && 0 <= k) by (nonlinear_arith)
            requires
                width > 0,
                0 <= i,
                k == i / width,
                j == i % width,
        ;
        assert(k < window_count(input.len() as int, width)) by (nonlinear_arith)
            requires
                width > 0,
                i == k * width + j,
                0 <= j < width,
                i < input.len(),
        ;
        assert(map_window_ok(op, input, output, width, pad, k));
        let (v, r) = choose|v: Vec<T>, r: Vec<T>|
            #![trigger op.ensures((v,), r)]
            v@ == padded_window(input, k * width, width, pad) && op.ensures((v,), r) && forall|
                j2: int,
            |
                0 <= j2 < width && k * width + j2 < input.len() ==> output[k * width + j2]
                    == r@[j2];
        assert(output[k * width + j] == r@[j]);
        assert(v@[j] == input[i]);
    }
}

} // verus!
