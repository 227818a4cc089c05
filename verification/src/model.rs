//! The mathematical model of the board: row-major addressing of the flat
//! cell buffer, direction vectors, and the line-of-four win predicate.

use vstd::prelude::*;

use crate::game::Color;

verus! {

/// `3^n`, the number of vectors of length `n` over `{-1, 0, 1}`.
pub open spec fn pow3(n: nat) -> nat
    decreases n,
{
    if n == 0 {
        1
    } else {
        3 * pow3((n - 1) as nat)
    }
}

/// Total number of cells of a board whose dimension sizes are `dims`.
pub open spec fn capacity_of(dims: Seq<usize>) -> nat
    decreases dims.len(),
{
    if dims.len() == 0 {
        1
    } else {
        capacity_of(dims.drop_last()) * (dims.last() as nat)
    }
}

/// The coordinates of a stored position, as mathematical integers.
pub open spec fn pos_int(pos: Seq<usize>) -> Seq<int> {
    Seq::new(pos.len() as nat, |i: int| pos[i] as int)
}

/// A full coordinate lies inside the board.
pub open spec fn in_bounds(dims: Seq<usize>, p: Seq<int>) -> bool {
    &&& p.len() == dims.len()
    &&& forall|i: int| 0 <= i < p.len() ==> 0 <= #[trigger] p[i] < dims[i]
}

/// A partial coordinate fixes every axis but the last (the drop axis).
pub open spec fn partial_in_bounds(dims: Seq<usize>, pos: Seq<usize>) -> bool {
    &&& pos.len() + 1 == dims.len()
    &&& forall|i: int| 0 <= i < pos.len() ==> #[trigger] pos[i] < dims[i]
}

/// The full coordinate reached by fixing the drop axis of `pos` at `k`.
pub open spec fn column_pos(pos: Seq<usize>, k: int) -> Seq<int> {
    pos_int(pos).push(k)
}

/// Row-major flat index of a full coordinate (the last axis varies fastest).
pub open spec fn flat_index(dims: Seq<usize>, p: Seq<int>) -> int
    decreases dims.len(),
{
    if dims.len() == 0 {
        0
    } else {
        flat_index(dims.drop_last(), p.drop_last()) * dims.last() + p.last()
    }
}

/// The content of the cell at full coordinate `p`.
pub open spec fn cell_at(dims: Seq<usize>, cells: Seq<Option<Color>>, p: Seq<int>) -> Option<
    Color,
> {
    cells[flat_index(dims, p)]
}

/// A direction vector: length `n`, each component in `{-1, 0, 1}`.
pub open spec fn is_step_vec(d: Seq<isize>, n: nat) -> bool {
    &&& d.len() == n
    &&& forall|i: int| 0 <= i < d.len() ==> -1 <= #[trigger] d[i] <= 1
}

pub open spec fn is_zero_vec(d: Seq<isize>) -> bool {
    forall|i: int| 0 <= i < d.len() ==> #[trigger] d[i] == 0
}

/// The componentwise negation of a direction vector.
pub open spec fn neg_vec(d: Seq<isize>) -> Seq<isize> {
    Seq::new(d.len(), |i: int| (-d[i]) as isize)
}

/// The position reached from `p` after `t` steps in direction `d`.
pub open spec fn stepped(p: Seq<int>, d: Seq<isize>, t: int) -> Seq<int> {
    Seq::new(p.len(), |i: int| p[i] + t * d[i])
}

/// Steps `a ..= b` from `p` along `d` all land in bounds on a cell of `color`.
pub open spec fn colored_run(
    dims: Seq<usize>,
    cells: Seq<Option<Color>>,
    color: Color,
    p: Seq<int>,
    d: Seq<isize>,
    a: int,
    b: int,
) -> bool {
    forall|t: int|
        a <= t <= b ==> in_bounds(dims, #[trigger] stepped(p, d, t)) && cell_at(
            dims,
            cells,
            stepped(p, d, t),
        ) == Some(color)
}

/// Four consecutive cells of `color` along `d`, at steps `a ..= a + 3` from `p`.
pub open spec fn line_of_four(
    dims: Seq<usize>,
    cells: Seq<Option<Color>>,
    color: Color,
    p: Seq<int>,
    d: Seq<isize>,
    a: int,
) -> bool {
    colored_run(dims, cells, color, p, d, a, a + 3)
}

/// No straight line of four cells of `color` through `p` runs along `d`.
pub open spec fn no_line_in_dir(
    dims: Seq<usize>,
    cells: Seq<Option<Color>>,
    color: Color,
    p: Seq<int>,
    d: Seq<isize>,
) -> bool {
    forall|a: int| -3 <= a <= 0 ==> !#[trigger] line_of_four(dims, cells, color, p, d, a)
}

/// The placement at `p` lies on a line of four cells of `color`: somewhere a
/// run of four consecutive, equally colored, in-bounds cells passes through
/// `p` along a direction of the grid.
pub open spec fn wins_at(
    dims: Seq<usize>,
    cells: Seq<Option<Color>>,
    color: Color,
    p: Seq<int>,
) -> bool {
    exists|d: Seq<isize>, a: int|
        is_step_vec(d, dims.len()) && !is_zero_vec(d) && -3 <= a <= 0 && #[trigger] line_of_four(
            dims,
            cells,
            color,
            p,
            d,
            a,
        )
}

/// A full coordinate's flat index lies inside the cell buffer.
pub proof fn lemma_flat_index_bounds(dims: Seq<usize>, p: Seq<int>)
    requires
        in_bounds(dims, p),
    ensures
        0 <= flat_index(dims, p) < capacity_of(dims),
    decreases dims.len(),
{
    if dims.len() == 0 {
    } else {
        let df = dims.drop_last();
        let pf = p.drop_last();
        assert(in_bounds(df, pf)) by {
            assert forall|i: int| 0 <= i < pf.len() implies 0 <= #[trigger] pf[i] < df[i] by {
                assert(pf[i] == p[i]);
            }
        }
        lemma_flat_index_bounds(df, pf);
        let ff = flat_index(df, pf);
        let cf = capacity_of(df) as int;
        let ll = dims.last() as int;
        let pl = p.last();
        assert(0 <= pl < ll);
        assert(0 <= ff * ll + pl < cf * ll) by (nonlinear_arith)
            requires
                0 <= ff < cf,
                0 <= pl < ll,
        ;
    }
}

/// Row-major addressing is injective on in-bounds coordinates: two distinct
/// full coordinates never share a cell of the flat buffer.
pub proof fn lemma_flat_index_injective(dims: Seq<usize>, p: Seq<int>, q: Seq<int>)
    requires
        in_bounds(dims, p),
        in_bounds(dims, q),
        p != q,
    ensures
        flat_index(dims, p) != flat_index(dims, q),
    decreases dims.len(),
{
    if dims.len() == 0 {
        assert(p =~= q);
    } else {
        let df = dims.drop_last();
        let pf = p.drop_last();
        let qf = q.drop_last();
        assert(in_bounds(df, pf) && in_bounds(df, qf)) by {
            assert forall|i: int| 0 <= i < pf.len() implies 0 <= #[trigger] pf[i] < df[i] by {
                assert(pf[i] == p[i]);
            }
            assert forall|i: int| 0 <= i < qf.len() implies 0 <= #[trigger] qf[i] < df[i] by {
                assert(qf[i] == q[i]);
            }
        }
        lemma_flat_index_bounds(df, pf);
        lemma_flat_index_bounds(df, qf);
        let fp = flat_index(df, pf);
        let fq = flat_index(df, qf);
        let ll = dims.last() as int;
        let pl = p.last();
        let ql = q.last();
        if pl == ql {
            if pf =~= qf {
                assert forall|i: int| 0 <= i < p.len() implies p[i] == q[i] by {
                    if i < p.len() - 1 {
                        assert(p[i] == pf[i] && q[i] == qf[i]);
                    }
                }
                assert(p =~= q);
            } else {
                lemma_flat_index_injective(df, pf, qf);
                assert(fp * ll != fq * ll) by (nonlinear_arith)
                    requires
                        fp != fq,
                        ll >= 1,
                ;
            }
        } else {
            assert(fp * ll + pl != fq * ll + ql) by (nonlinear_arith)
                requires
                    0 <= pl < ll,
                    0 <= ql < ll,
                    pl != ql,
            ;
        }
    }
}

/// One more axis multiplies the capacity of the prefix by that axis's size.
pub proof fn lemma_capacity_take_succ(dims: Seq<usize>, j: int)
    requires
        0 <= j < dims.len(),
    ensures
        capacity_of(dims.take(j + 1)) == capacity_of(dims.take(j)) * dims[j],
{
    assert(dims.take(j + 1).drop_last() =~= dims.take(j));
    assert(dims.take(j + 1).last() == dims[j]);
}

/// With no zero-sized axis behind it, a prefix never exceeds the whole.
pub proof fn lemma_capacity_take_le(dims: Seq<usize>, k: int)
    requires
        0 <= k <= dims.len(),
        forall|i: int| k <= i < dims.len() ==> #[trigger] dims[i] >= 1,
    ensures
        capacity_of(dims.take(k)) <= capacity_of(dims),
    decreases dims.len() - k,
{
    if k == dims.len() {
        assert(dims.take(k) =~= dims);
    } else {
        lemma_capacity_take_succ(dims, k);
        let ck = capacity_of(dims.take(k)) as int;
        assert(ck <= ck * dims[k]) by (nonlinear_arith)
            requires
                ck >= 0,
                dims[k] >= 1,
        ;
        lemma_capacity_take_le(dims, k + 1);
    }
}

/// Stepping along the negated direction mirrors stepping the other way.
pub proof fn lemma_stepped_neg(p: Seq<int>, d: Seq<isize>, t: int)
    requires
        forall|i: int| 0 <= i < d.len() ==> -1 <= #[trigger] d[i] <= 1,
        p.len() == d.len(),
    ensures
        stepped(p, neg_vec(d), t) =~= stepped(p, d, -t),
{
    assert forall|i: int| 0 <= i < p.len() implies #[trigger] stepped(p, neg_vec(d), t)[i]
        == stepped(p, d, -t)[i] by {
        let di = d[i] as int;
        assert(t * (-di) == (-t) * di) by (nonlinear_arith);
    }
}

/// Negating a direction twice gives it back.
pub proof fn lemma_neg_vec_involution(d: Seq<isize>)
    requires
        forall|i: int| 0 <= i < d.len() ==> -1 <= #[trigger] d[i] <= 1,
    ensures
        neg_vec(neg_vec(d)) =~= d,
{
}

/// One further step extends a walk by a single application of the direction.
pub proof fn lemma_stepped_succ(p: Seq<int>, d: Seq<isize>, t: int)
    ensures
        stepped(p, d, t + 1) =~= stepped(stepped(p, d, t), d, 1),
{
    assert forall|i: int| 0 <= i < p.len() implies #[trigger] stepped(p, d, t + 1)[i] == stepped(
        stepped(p, d, t),
        d,
        1,
    )[i] by {
        let di = d[i] as int;
        assert((t + 1) * di == t * di + 1 * di) by (nonlinear_arith);
    }
}

/// Zero steps go nowhere.
pub proof fn lemma_stepped_zero(p: Seq<int>, d: Seq<isize>)
    ensures
        stepped(p, d, 0) =~= p,
{
}

/// A run read along `d` is the same run read along the negated direction.
pub proof fn lemma_run_reversed(
    dims: Seq<usize>,
    cells: Seq<Option<Color>>,
    color: Color,
    p: Seq<int>,
    d: Seq<isize>,
    a: int,
    b: int,
)
    requires
        forall|i: int| 0 <= i < d.len() ==> -1 <= #[trigger] d[i] <= 1,
        p.len() == d.len(),
    ensures
        colored_run(dims, cells, color, p, d, a, b) <==> colored_run(
            dims,
            cells,
            color,
            p,
            neg_vec(d),
            -b,
            -a,
        ),
{
    let nd = neg_vec(d);
    if colored_run(dims, cells, color, p, d, a, b) {
        assert forall|t: int| -b <= t <= -a implies in_bounds(dims, #[trigger] stepped(p, nd, t))
            && cell_at(dims, cells, stepped(p, nd, t)) == Some(color) by {
            lemma_stepped_neg(p, d, t);
            assert(a <= -t <= b);
            assert(stepped(p, nd, t) == stepped(p, d, -t));
        }
    }
    if colored_run(dims, cells, color, p, nd, -b, -a) {
        assert forall|t: int| a <= t <= b implies in_bounds(dims, #[trigger] stepped(p, d, t))
            && cell_at(dims, cells, stepped(p, d, t)) == Some(color) by {
            lemma_stepped_neg(p, d, -t);
            assert(-b <= -t <= -a);
            assert(stepped(p, nd, -t) == stepped(p, d, t));
        }
    }
}

/// When the two capped scans from `p` together find fewer than three further
/// disks, no line of four through `p` runs along the scanned direction, in
/// either orientation.
pub proof fn lemma_counts_give_no_line(
    dims: Seq<usize>,
    cells: Seq<Option<Color>>,
    color: Color,
    p: Seq<int>,
    d: Seq<isize>,
    fwd: int,
    bwd: int,
)
    requires
        forall|i: int| 0 <= i < d.len() ==> -1 <= #[trigger] d[i] <= 1,
        p.len() == d.len(),
        0 <= fwd <= 3,
        0 <= bwd <= 3,
        colored_run(dims, cells, color, p, d, 1, fwd),
        fwd < 3 ==> !(in_bounds(dims, stepped(p, d, fwd + 1)) && cell_at(
            dims,
            cells,
            stepped(p, d, fwd + 1),
        ) == Some(color)),
        colored_run(dims, cells, color, p, neg_vec(d), 1, bwd),
        bwd < 3 ==> !(in_bounds(dims, stepped(p, neg_vec(d), bwd + 1)) && cell_at(
            dims,
            cells,
            stepped(p, neg_vec(d), bwd + 1),
        ) == Some(color)),
        fwd + bwd < 3,
    ensures
        no_line_in_dir(dims, cells, color, p, d),
        no_line_in_dir(dims, cells, color, p, neg_vec(d)),
{
    let nd = neg_vec(d);
    assert forall|a: int| -3 <= a <= 0 implies !#[trigger] line_of_four(
        dims,
        cells,
        color,
        p,
        d,
        a,
    ) by {
        if line_of_four(dims, cells, color, p, d, a) {
            // the run reaches a + 3 forward steps, so the forward scan did too
            if fwd < a + 3 {
                assert(a <= fwd + 1 <= a + 3);
                assert(in_bounds(dims, stepped(p, d, fwd + 1)) && cell_at(
                    dims,
                    cells,
                    stepped(p, d, fwd + 1),
                ) == Some(color));
                assert(false);
            }
            // the run reaches -a backward steps, so the backward scan did too
            if bwd < -a {
                lemma_stepped_neg(p, d, bwd + 1);
                assert(a <= -(bwd + 1) <= a + 3);
                assert(in_bounds(dims, stepped(p, d, -(bwd + 1))) && cell_at(
                    dims,
                    cells,
                    stepped(p, d, -(bwd + 1)),
                ) == Some(color));
                assert(stepped(p, nd, bwd + 1) == stepped(p, d, -(bwd + 1)));
                assert(false);
            }
            assert(fwd + bwd >= 3);
            assert(false);
        }
    }
    assert forall|a: int| -3 <= a <= 0 implies !#[trigger] line_of_four(
        dims,
        cells,
        color,
        p,
        nd,
        a,
    ) by {
        if line_of_four(dims, cells, color, p, nd, a) {
            lemma_run_reversed(dims, cells, color, p, d, -(a + 3), -a);
            assert(colored_run(dims, cells, color, p, d, -(a + 3), -a));
            assert(line_of_four(dims, cells, color, p, d, -(a + 3)));
            assert(-3 <= -(a + 3) <= 0);
            assert(false);
        }
    }
}

/// When the two capped scans from `p` together find at least three further
/// disks, a line of four cells of `color` passes through `p` along the
/// scanned direction.
pub proof fn lemma_counts_give_line(
    dims: Seq<usize>,
    cells: Seq<Option<Color>>,
    color: Color,
    p: Seq<int>,
    d: Seq<isize>,
    fwd: int,
    bwd: int,
)
    requires
        is_step_vec(d, dims.len()),
        !is_zero_vec(d),
        in_bounds(dims, p),
        cell_at(dims, cells, p) == Some(color),
        0 <= fwd <= 3,
        0 <= bwd <= 3,
        colored_run(dims, cells, color, p, d, 1, fwd),
        colored_run(dims, cells, color, p, neg_vec(d), 1, bwd),
        fwd + bwd >= 3,
    ensures
        wins_at(dims, cells, color, p),
{
    let nd = neg_vec(d);
    let a = if fwd >= 3 {
        0
    } else {
        fwd - 3
    };
    assert(-3 <= a <= 0);
    assert forall|t: int| a <= t <= a + 3 implies in_bounds(dims, #[trigger] stepped(p, d, t))
        && cell_at(dims, cells, stepped(p, d, t)) == Some(color) by {
        if t == 0 {
            lemma_stepped_zero(p, d);
            assert(stepped(p, d, 0) == p);
        } else if t >= 1 {
            assert(1 <= t <= fwd);
        } else {
            assert(1 <= -t <= bwd);
            lemma_stepped_neg(p, d, -t);
            assert(stepped(p, nd, -t) == stepped(p, d, t));
        }
    }
    assert(line_of_four(dims, cells, color, p, d, a));
}

} // verus!
