//! The game engine: the board state, the move API, and the win scan.

use vstd::prelude::*;

use crate::dirs::check_vecs_ok;
use crate::dirs::generate_check_vecs;
use crate::dirs::leading_one;
use crate::dirs::lemma_coverage;
use crate::dirs::lemma_leading_one_nonzero;
use crate::dirs::lemma_leading_one_not_neg;
use crate::err::GameError;
use crate::model::capacity_of;
use crate::model::cell_at;
use crate::model::colored_run;
use crate::model::column_pos;
use crate::model::flat_index;
use crate::model::in_bounds;
use crate::model::is_step_vec;
use crate::model::is_zero_vec;
use crate::model::lemma_capacity_take_le;
use crate::model::lemma_capacity_take_succ;
use crate::model::lemma_counts_give_line;
use crate::model::lemma_counts_give_no_line;
use crate::model::lemma_flat_index_bounds;
use crate::model::lemma_flat_index_injective;
use crate::model::lemma_neg_vec_involution;
use crate::model::lemma_stepped_succ;
use crate::model::line_of_four;
use crate::model::neg_vec;
use crate::model::no_line_in_dir;
use crate::model::partial_in_bounds;
use crate::model::pos_int;
use crate::model::pow3;
use crate::model::stepped;
use crate::model::wins_at;

verus! {

/// The two players' disk colors.
#[derive(Debug, Copy, Clone, Eq, PartialEq, Structural)]
pub enum Color {
    Red,
    Yellow,
}

/// The mathematical content of a game state: the dimension sizes, the flat
/// cell buffer in row-major order, the canonical direction set, and the
/// round counter.
pub ghost struct GameView {
    pub dims: Seq<usize>,
    pub cells: Seq<Option<Color>>,
    pub check_dirs: Seq<Seq<isize>>,
    pub round: int,
}

/// A running game: the D-dimensional board, the precomputed direction set,
/// and the round counter.
#[derive(Debug, Clone, PartialEq)]
pub struct GameState {
    dims: Vec<usize>,
    cells: Vec<Option<Color>>,
    check_vecs: Vec<Vec<isize>>,
    round: usize,
}

impl View for GameState {
    type V = GameView;

    closed spec fn view(&self) -> GameView {
        GameView {
            dims: self.dims@,
            cells: self.cells@,
            check_dirs: self.check_vecs.deep_view(),
            round: self.round as int,
        }
    }
}

impl GameState {
    /// The structural invariant: at least two axes, a cell buffer of exactly
    /// the board's capacity, the canonical direction set for the dimension
    /// count, and a round counter inside its window.  The capacity bound
    /// keeps the round counter free of machine overflow.
    pub open spec fn wf(self) -> bool {
        &&& self@.dims.len() >= 2
        &&& self@.cells.len() == capacity_of(self@.dims)
        &&& capacity_of(self@.dims) < usize::MAX
        &&& 1 <= self@.round <= capacity_of(self@.dims) + 1
        &&& check_vecs_ok(self@.check_dirs, self@.dims.len())
    }

    /// Construct an all-empty board of the given shape together with its
    /// direction set.  Exactly the shapes with fewer than two axes are
    /// rejected.
    pub fn new(dims: &[usize]) -> (res: Result<GameState, GameError>)
        requires
            capacity_of(dims@) < usize::MAX,
        ensures
            match res {
                Ok(gs) => {
                    &&& dims@.len() >= 2
                    &&& gs.wf()
                    &&& gs@.dims == dims@
                    &&& gs@.round == 1
                    &&& gs@.cells.len() == capacity_of(dims@)
                    &&& forall|j: int| 0 <= j < gs@.cells.len() ==> gs@.cells[j] is None
                },
                Err(e) => e == GameError::TooFewDimensions && dims@.len() < 2,
            },
    {
        if dims.len() < 2 {
            return Err(GameError::TooFewDimensions);
        }
        let mut sizes: Vec<usize> = Vec::new();
        let mut i: usize = 0;
        while i < dims.len()
            invariant
                i <= dims@.len(),
                sizes@ =~= dims@.take(i as int),
            decreases dims@.len() - i,
        {
            sizes.push(dims[i]);
            i = i + 1;
        }
        proof {
            assert(dims@.take(dims@.len() as int) =~= dims@);
        }
        let cap = capacity_exec(&sizes);
        let mut cells: Vec<Option<Color>> = Vec::new();
        while cells.len() < cap
            invariant
                cells@.len() <= cap,
                forall|j: int| 0 <= j < cells@.len() ==> cells@[j] is None,
            decreases cap - cells@.len(),
        {
            cells.push(None);
        }
        let check_vecs = generate_check_vecs(sizes.len());
        let gs = GameState { dims: sizes, cells, check_vecs, round: 1 };
        Ok(gs)
    }

    /// Count, up to three, the consecutive disks of `color` met when walking
    /// from `pos` along `dir`, stopping at the board's edge or at any cell
    /// not holding that color.
    fn check_direction(&self, color: Color, pos: &[usize], dir: &Vec<isize>) -> (score: usize)
        requires
            self.wf(),
            in_bounds(self@.dims, pos_int(pos@)),
            is_step_vec(dir@, self@.dims.len()),
        ensures
            score <= 3,
            colored_run(self@.dims, self@.cells, color, pos_int(pos@), dir@, 1, score as int),
            score < 3 ==> !(in_bounds(self@.dims, stepped(pos_int(pos@), dir@, score as int + 1))
                && cell_at(
                self@.dims,
                self@.cells,
                stepped(pos_int(pos@), dir@, score as int + 1),
            ) == Some(color)),
    {
        let ghost p0 = pos_int(pos@);
        let mut cur = copy_pos(pos);
        let mut score: usize = 0;
        while score < 3
            invariant
                self.wf(),
                in_bounds(self@.dims, p0),
                is_step_vec(dir@, self@.dims.len()),
                p0 == pos_int(pos@),
                score <= 3,
                pos_int(cur@) == stepped(p0, dir@, score as int),
                in_bounds(self@.dims, pos_int(cur@)),
                colored_run(self@.dims, self@.cells, color, p0, dir@, 1, score as int),
            decreases 3 - score,
        {
            proof {
                lemma_stepped_succ(p0, dir@, score as int);
            }
            match step_position(&self.dims, &cur, dir) {
                None => {
                    proof {
                        assert(stepped(p0, dir@, score as int + 1) == stepped(
                            pos_int(cur@),
                            dir@,
                            1,
                        ));
                    }
                    return score;
                },
                Some(np) => {
                    proof {
                        assert(pos_int(np@) == stepped(p0, dir@, score as int + 1));
                        assert(self@.dims.take(self@.dims.len() as int) =~= self@.dims);
                        assert forall|i: int| 0 <= i < np@.len() implies #[trigger] np@[i]
                            < self@.dims[i] by {
                            assert(pos_int(np@)[i] == np@[i] as int);
                        }
                    }
                    let idx = flat_index_exec(&self.dims, np.as_slice());
                    let cell_ok = match self.cells[idx] {
                        Some(cc) => cc == color,
                        None => false,
                    };
                    if cell_ok {
                        proof {
                            assert(cell_at(self@.dims, self@.cells, pos_int(np@)) == Some(color));
                            assert forall|t: int| 1 <= t <= score as int + 1 implies in_bounds(
                                self@.dims,
                                #[trigger] stepped(p0, dir@, t),
                            ) && cell_at(self@.dims, self@.cells, stepped(p0, dir@, t)) == Some(
                                color,
                            ) by {
                                if t == score as int + 1 {
                                    assert(stepped(p0, dir@, t) == pos_int(np@));
                                }
                            }
                        }
                        score = score + 1;
                        cur = np;
                    } else {
                        proof {
                            assert(cell_at(
                                self@.dims,
                                self@.cells,
                                stepped(p0, dir@, score as int + 1),
                            ) != Some(color));
                        }
                        return score;
                    }
                },
            }
        }
        score
    }

    /// Decide whether the disk of `color` at `pos` lies on a completed line
    /// of four cells of its color, in any direction through the grid.
    fn is_win_position(&self, color: Color, pos: &[usize]) -> (win: bool)
        requires
            self.wf(),
            in_bounds(self@.dims, pos_int(pos@)),
            cell_at(self@.dims, self@.cells, pos_int(pos@)) == Some(color),
        ensures
            win == wins_at(self@.dims, self@.cells, color, pos_int(pos@)),
    {
        let ghost p0 = pos_int(pos@);
        let ghost dims = self@.dims;
        let ghost cells = self@.cells;
        let ghost cds = self@.check_dirs;
        let mut di: usize = 0;
        while di < self.check_vecs.len()
            invariant
                self.wf(),
                in_bounds(dims, p0),
                cell_at(dims, cells, p0) == Some(color),
                p0 == pos_int(pos@),
                dims == self@.dims,
                cells == self@.cells,
                cds == self@.check_dirs,
                di <= cds.len(),
                forall|j: int|
                    0 <= j < di ==> no_line_in_dir(dims, cells, color, p0, #[trigger] cds[j])
                        && no_line_in_dir(dims, cells, color, p0, neg_vec(cds[j])),
            decreases cds.len() - di,
        {
            let dir = &self.check_vecs[di];
            proof {
                assert(dir@ == cds[di as int]);
                assert(is_step_vec(dir@, dims.len()) && leading_one(dir@));
                lemma_leading_one_nonzero(dir@);
            }
            let fwd = self.check_direction(color, pos, dir);
            if fwd >= 3 {
                proof {
                    assert(colored_run(dims, cells, color, p0, neg_vec(dir@), 1, 0));
                    lemma_counts_give_line(dims, cells, color, p0, dir@, fwd as int, 0);
                }
                return true;
            }
            let ndir = negate_vec(dir);
            proof {
                assert(is_step_vec(ndir@, dims.len())) by {
                    assert forall|i: int| 0 <= i < ndir@.len() implies -1 <= #[trigger] ndir@[i]
                        <= 1 by {
                        assert(-1 <= dir@[i] <= 1);
                    }
                }
            }
            let bwd = self.check_direction(color, pos, &ndir);
            if fwd + bwd >= 3 {
                proof {
                    lemma_counts_give_line(dims, cells, color, p0, dir@, fwd as int, bwd as int);
                }
                return true;
            }
            proof {
                lemma_counts_give_no_line(dims, cells, color, p0, dir@, fwd as int, bwd as int);
            }
            di = di + 1;
        }
        proof {
            if wins_at(dims, cells, color, p0) {
                let (d, a) = choose|d: Seq<isize>, a: int|
                    is_step_vec(d, dims.len()) && !is_zero_vec(d) && -3 <= a <= 0
                        && #[trigger] line_of_four(dims, cells, color, p0, d, a);
                lemma_coverage(cds, dims.len(), d);
                let i = choose|i: int| 0 <= i < cds.len() && (cds[i] == d || cds[i] == neg_vec(d));
                if cds[i] == d {
                    assert(!line_of_four(dims, cells, color, p0, d, a));
                } else {
                    lemma_neg_vec_involution(d);
                    assert(neg_vec(cds[i]) == d);
                    assert(!line_of_four(dims, cells, color, p0, d, a));
                }
                assert(false);
            }
        }
        false
    }

    /// Drop a disk of `color` into the column above the partial coordinate
    /// `pos`: the lowest empty cell along the last axis receives it, and its
    /// index along that axis is appended to `pos`.  When the column has no
    /// empty cell, nothing changes.
    fn insert_disk(&mut self, color: Color, pos: &mut Vec<usize>) -> (res: Result<(), GameError>)
        requires
            old(self).wf(),
            partial_in_bounds(old(self)@.dims, old(pos)@),
        ensures
            final(self).wf(),
            final(self)@.dims == old(self)@.dims,
            final(self)@.check_dirs == old(self)@.check_dirs,
            final(self)@.round == old(self)@.round,
            match res {
                Ok(_) => {
                    &&& final(pos)@.len() == old(pos)@.len() + 1
                    &&& final(pos)@.drop_last() == old(pos)@
                    &&& (final(pos)@.last() as int) < old(self)@.dims.last() as int
                    &&& in_bounds(old(self)@.dims, column_pos(old(pos)@, final(pos)@.last() as int))
                    &&& cell_at(
                        old(self)@.dims,
                        old(self)@.cells,
                        column_pos(old(pos)@, final(pos)@.last() as int),
                    ) is None
                    &&& (forall|k: int|
                        0 <= k < final(pos)@.last() ==> cell_at(
                            old(self)@.dims,
                            old(self)@.cells,
                            column_pos(old(pos)@, k),
                        ) is Some)
                    &&& final(self)@.cells == old(self)@.cells.update(
                        flat_index(old(self)@.dims, column_pos(old(pos)@, final(pos)@.last() as int)),
                        Some(color),
                    )
                },
                Err(e) => {
                    &&& e == GameError::AxisFull
                    &&& final(self)@ == old(self)@
                    &&& final(pos)@ == old(pos)@
                    &&& (forall|k: int|
                        0 <= k < old(self)@.dims.last() ==> cell_at(
                            old(self)@.dims,
                            old(self)@.cells,
                            column_pos(old(pos)@, k),
                        ) is Some)
                },
            },
    {
        let ghost dims0 = self@.dims;
        let ghost cells0 = self@.cells;
        let ghost ppos = pos@;
        let ghost dl = dims0.len() as int;
        let d_len = self.dims[self.dims.len() - 1];
        if d_len == 0 {
            return Err(GameError::AxisFull);
        }
        proof {
            lemma_capacity_take_succ(dims0, dl - 1);
            assert(dims0.take(dl) =~= dims0);
            let cf = capacity_of(dims0.take(dl - 1)) as int;
            assert(cf <= cf * d_len) by (nonlinear_arith)
                requires
                    cf >= 0,
                    d_len >= 1,
            ;
        }
        let base = flat_index_exec(&self.dims, pos.as_slice());
        let mut k: usize = 0;
        while k < d_len
            invariant
                old(self).wf(),
                partial_in_bounds(dims0, ppos),
                dims0 == old(self)@.dims,
                cells0 == old(self)@.cells,
                ppos == old(pos)@,
                dl == dims0.len() as int,
                *self == *old(self),
                pos@ == old(pos)@,
                d_len == dims0.last(),
                d_len >= 1,
                base as int == flat_index(dims0.take(dl - 1), pos_int(ppos)),
                (base as nat) < capacity_of(dims0.take(dl - 1)),
                forall|kk: int|
                    0 <= kk < k ==> cell_at(dims0, cells0, #[trigger] column_pos(ppos, kk)) is Some,
            decreases d_len - k,
        {
            proof {
                lemma_capacity_take_succ(dims0, dl - 1);
                assert(dims0.take(dl) =~= dims0);
                let cf = capacity_of(dims0.take(dl - 1)) as int;
                assert(base * d_len + k < cf * d_len) by (nonlinear_arith)
                    requires
                        0 <= (base as int) < cf,
                        0 <= (k as int) < (d_len as int),
                ;
                let cp = column_pos(ppos, k as int);
                assert(cp.drop_last() =~= pos_int(ppos));
                assert(cp.last() == k as int);
                assert(dims0.drop_last() =~= dims0.take(dl - 1));
                assert(flat_index(dims0, cp) == base * d_len + k);
                assert(in_bounds(dims0, cp)) by {
                    assert forall|i: int| 0 <= i < cp.len() implies 0 <= #[trigger] cp[i]
                        < dims0[i] by {
                        if i < dl - 1 {
                            assert(cp[i] == ppos[i] as int);
                            assert(ppos[i] < dims0[i]);
                        }
                    }
                }
            }
            let idx = base * d_len + k;
            let is_empty = match self.cells[idx] {
                None => true,
                Some(_) => false,
            };
            if is_empty {
                self.cells[idx] = Some(color);
                pos.push(k);
                proof {
                    assert(pos@.drop_last() =~= ppos);
                    assert(self@.cells == cells0.update(idx as int, Some(color)));
                }
                return Ok(());
            }
            k = k + 1;
        }
        Err(GameError::AxisFull)
    }

    /// Play one move: reject it outright when the round counter has passed
    /// the board's capacity, otherwise drop the disk into the column above
    /// `pos`, append the landing index to `pos`, report whether the move
    /// completed a line of four, and advance the round counter when it did
    /// not.
    pub fn play_disk(&mut self, color: Color, pos: &mut Vec<usize>) -> (res: Result<
        bool,
        GameError,
    >)
        requires
            old(self).wf(),
            partial_in_bounds(old(self)@.dims, old(pos)@),
        ensures
            final(self).wf(),
            final(self)@.dims == old(self)@.dims,
            final(self)@.check_dirs == old(self)@.check_dirs,
            match res {
                Ok(win) => {
                    &&& old(self)@.round <= capacity_of(old(self)@.dims)
                    &&& final(pos)@.len() == old(pos)@.len() + 1
                    &&& final(pos)@.drop_last() == old(pos)@
                    &&& in_bounds(old(self)@.dims, column_pos(old(pos)@, final(pos)@.last() as int))
                    &&& cell_at(
                        old(self)@.dims,
                        old(self)@.cells,
                        column_pos(old(pos)@, final(pos)@.last() as int),
                    ) is None
                    &&& (forall|k: int|
                        0 <= k < final(pos)@.last() ==> cell_at(
                            old(self)@.dims,
                            old(self)@.cells,
                            column_pos(old(pos)@, k),
                        ) is Some)
                    &&& final(self)@.cells == old(self)@.cells.update(
                        flat_index(old(self)@.dims, column_pos(old(pos)@, final(pos)@.last() as int)),
                        Some(color),
                    )
                    &&& (forall|q: Seq<int>|
                        in_bounds(old(self)@.dims, q) && q != column_pos(
                            old(pos)@,
                            final(pos)@.last() as int,
                        ) ==> #[trigger] cell_at(final(self)@.dims, final(self)@.cells, q)
                            == cell_at(old(self)@.dims, old(self)@.cells, q))
                    &&& win == wins_at(
                        final(self)@.dims,
                        final(self)@.cells,
                        color,
                        column_pos(old(pos)@, final(pos)@.last() as int),
                    )
                    &&& final(self)@.round == if win {
                        old(self)@.round
                    } else {
                        old(self)@.round + 1
                    }
                },
                Err(e) => {
                    &&& final(self)@ == old(self)@
                    &&& final(pos)@ == old(pos)@
                    &&& (e == GameError::BoardFull || e == GameError::AxisFull)
                    &&& (e == GameError::BoardFull <==> old(self)@.round > capacity_of(
                        old(self)@.dims,
                    ))
                    &&& (e == GameError::AxisFull ==> (forall|k: int|
                        0 <= k < old(self)@.dims.last() ==> cell_at(
                            old(self)@.dims,
                            old(self)@.cells,
                            column_pos(old(pos)@, k),
                        ) is Some))
                },
            },
    {
        let ghost dims0 = self@.dims;
        let ghost cells0 = self@.cells;
        let ghost ppos = pos@;
        if self.round > self.cells.len() {
            return Err(GameError::BoardFull);
        }
        match self.insert_disk(color, pos) {
            Err(_) => {
                return Err(GameError::AxisFull);
            },
            Ok(_) => {},
        }
        let ghost landing = column_pos(ppos, pos@.last() as int);
        proof {
            assert(pos_int(pos@) =~= landing);
            lemma_flat_index_bounds(dims0, landing);
            assert(cell_at(self@.dims, self@.cells, pos_int(pos@)) == Some(color));
        }
        let win = self.is_win_position(color, pos.as_slice());
        if !win {
            self.round = self.round + 1;
        }
        proof {
            assert forall|q: Seq<int>| in_bounds(dims0, q) && q != landing implies #[trigger]
            cell_at(self@.dims, self@.cells, q) == cell_at(dims0, cells0, q) by {
                lemma_flat_index_injective(dims0, q, landing);
                lemma_flat_index_bounds(dims0, q);
            }
        }
        Ok(win)
    }

    /// The board's capacity: one round per cell can be played.
    pub fn max_rounds(&self) -> (r: usize)
        requires
            self.wf(),
        ensures
            r as nat == capacity_of(self@.dims),
    {
        self.cells.len()
    }

    /// The number of the round about to be played, starting at one.
    pub fn current_round(&self) -> (r: usize)
        ensures
            r as int == self@.round,
    {
        self.round
    }

    /// How many disks have been placed: always one less than the current
    /// round.
    pub fn disks_played(&self) -> (r: usize)
        requires
            self.wf(),
        ensures
            r as int == self@.round - 1,
    {
        self.round - 1
    }
}

/// The canonical direction set of a well-formed game holds, for dimension
/// count `D`, exactly `(3^D - 1) / 2` directions: none is the zero vector,
/// no two are equal, and no two are each other's negation.
pub proof fn lemma_direction_set_properties(gs: GameState)
    requires
        gs.wf(),
    ensures
        2 * gs@.check_dirs.len() + 1 == pow3(gs@.dims.len()),
        gs@.check_dirs.len() == (pow3(gs@.dims.len()) - 1) / 2,
        forall|i: int|
            0 <= i < gs@.check_dirs.len() ==> !is_zero_vec(#[trigger] gs@.check_dirs[i]),
        forall|i: int, j: int|
            0 <= i < gs@.check_dirs.len() && 0 <= j < gs@.check_dirs.len() && i != j
                ==> gs@.check_dirs[i] != gs@.check_dirs[j],
        forall|i: int, j: int|
            0 <= i < gs@.check_dirs.len() && 0 <= j < gs@.check_dirs.len()
                ==> gs@.check_dirs[i] != neg_vec(gs@.check_dirs[j]),
{
    let cds = gs@.check_dirs;
    assert forall|i: int| 0 <= i < cds.len() implies !is_zero_vec(#[trigger] cds[i]) by {
        lemma_leading_one_nonzero(cds[i]);
    }
    assert forall|i: int, j: int|
        0 <= i < cds.len() && 0 <= j < cds.len() implies cds[i] != neg_vec(cds[j]) by {
        lemma_leading_one_not_neg(cds[i], cds[j]);
    }
}

/// An exact copy of a position.
fn copy_pos(v: &[usize]) -> (r: Vec<usize>)
    ensures
        r@ == v@,
{
    let mut r: Vec<usize> = Vec::new();
    let mut i: usize = 0;
    while i < v.len()
        invariant
            i <= v.len(),
            r@ =~= v@.take(i as int),
        decreases v.len() - i,
    {
        r.push(v[i]);
        i = i + 1;
    }
    proof {
        assert(v@.take(v.len() as int) =~= v@);
    }
    r
}

/// The componentwise negation of a direction vector.
fn negate_vec(v: &Vec<isize>) -> (r: Vec<isize>)
    requires
        forall|i: int| 0 <= i < v@.len() ==> -1 <= #[trigger] v@[i] <= 1,
    ensures
        r@ == neg_vec(v@),
{
    let mut r: Vec<isize> = Vec::new();
    let mut i: usize = 0;
    while i < v.len()
        invariant
            i <= v.len(),
            forall|k: int| 0 <= k < v@.len() ==> -1 <= #[trigger] v@[k] <= 1,
            r@ =~= neg_vec(v@).take(i as int),
        decreases v.len() - i,
    {
        r.push(-v[i]);
        i = i + 1;
    }
    proof {
        assert(neg_vec(v@).take(v@.len() as int) =~= neg_vec(v@));
    }
    r
}

/// Row-major index over the first `pos.len()` axes, by Horner evaluation of
/// the strides.
fn flat_index_exec(dims: &Vec<usize>, pos: &[usize]) -> (idx: usize)
    requires
        pos@.len() <= dims@.len(),
        forall|i: int| 0 <= i < pos@.len() ==> #[trigger] pos@[i] < dims@[i],
        capacity_of(dims@.take(pos@.len() as int)) <= usize::MAX,
    ensures
        idx as int == flat_index(dims@.take(pos@.len() as int), pos_int(pos@)),
        (idx as nat) < capacity_of(dims@.take(pos@.len() as int)),
{
    let ghost plen = pos@.len() as int;
    let ghost dp = dims@.take(plen);
    let mut idx: usize = 0;
    let mut i: usize = 0;
    while i < pos.len()
        invariant
            i <= pos@.len() <= dims@.len(),
            forall|k: int| 0 <= k < pos@.len() ==> #[trigger] pos@[k] < dims@[k],
            capacity_of(dims@.take(plen)) <= usize::MAX,
            plen == pos@.len() as int,
            dp == dims@.take(plen),
            idx as int == flat_index(dims@.take(i as int), pos_int(pos@).take(i as int)),
            (idx as nat) < capacity_of(dims@.take(i as int)),
        decreases pos@.len() - i,
    {
        let ghost ii = i as int;
        let ghost pi = pos_int(pos@);
        proof {
            // the next prefix capacity bounds the updated index
            lemma_capacity_take_succ(dims@, ii);
            assert(dp.take(ii + 1) =~= dims@.take(ii + 1));
            assert forall|j: int| ii + 1 <= j < dp.len() implies #[trigger] dp[j] >= 1 by {
                assert(pos@[j] < dims@[j]);
            }
            lemma_capacity_take_le(dp, ii + 1);
            let cpre = capacity_of(dims@.take(ii)) as int;
            let cnext = capacity_of(dims@.take(ii + 1)) as int;
            let dd = dims@[ii] as int;
            assert(cnext == cpre * dd);
            assert(idx * dd + pos@[ii] < cnext) by (nonlinear_arith)
                requires
                    0 <= idx < cpre,
                    0 <= pos@[ii] < dd,
                    cnext == cpre * dd,
            ;
            // the updated index matches the spec on the longer prefix
            assert(dims@.take(ii + 1).drop_last() =~= dims@.take(ii));
            assert(pi.take(ii + 1).drop_last() =~= pi.take(ii));
            assert(pi.take(ii + 1).last() == pos@[ii] as int);
            assert(dims@.take(ii + 1).last() == dims@[ii]);
        }
        idx = idx * dims[i] + pos[i];
        i = i + 1;
    }
    proof {
        assert(pos_int(pos@).take(plen) =~= pos_int(pos@));
    }
    idx
}

/// One step from `cur` along `dir`; `None` when the step leaves the board.
fn step_position(dims: &Vec<usize>, cur: &Vec<usize>, dir: &Vec<isize>) -> (r: Option<Vec<usize>>)
    requires
        in_bounds(dims@, pos_int(cur@)),
        is_step_vec(dir@, dims@.len() as nat),
    ensures
        match r {
            Some(np) => pos_int(np@) == stepped(pos_int(cur@), dir@, 1) && in_bounds(
                dims@,
                pos_int(np@),
            ),
            None => !in_bounds(dims@, stepped(pos_int(cur@), dir@, 1)),
        },
{
    let ghost p0 = pos_int(cur@);
    let ghost sp = stepped(p0, dir@, 1);
    let mut np: Vec<usize> = Vec::new();
    let mut i: usize = 0;
    while i < cur.len()
        invariant
            i <= cur@.len(),
            in_bounds(dims@, pos_int(cur@)),
            is_step_vec(dir@, dims@.len() as nat),
            p0 == pos_int(cur@),
            sp == stepped(p0, dir@, 1),
            np@.len() == i,
            forall|k: int|
                0 <= k < i ==> #[trigger] (np@[k] as int) == sp[k] && np@[k] < dims@[k],
        decreases cur@.len() - i,
    {
        let c = cur[i];
        let d = dir[i];
        proof {
            assert(sp[i as int] == p0[i as int] + 1 * (dir@[i as int] as int));
            assert(1 * (dir@[i as int] as int) == dir@[i as int] as int);
        }
        if d == -1 {
            if c == 0 {
                proof {
                    assert(sp[i as int] < 0);
                }
                return None;
            }
            np.push(c - 1);
        } else if d == 0 {
            np.push(c);
        } else {
            proof {
                assert(dir@[i as int] == 1);
            }
            if c >= dims[i] - 1 {
                proof {
                    assert(sp[i as int] >= dims@[i as int]);
                }
                return None;
            }
            np.push(c + 1);
        }
        i = i + 1;
    }
    proof {
        assert(pos_int(np@) =~= sp);
    }
    Some(np)
}

/// The product of the dimension sizes, exact whenever it fits the machine.
fn capacity_exec(dims: &Vec<usize>) -> (cap: usize)
    requires
        capacity_of(dims@) < usize::MAX,
    ensures
        cap as nat == capacity_of(dims@),
{
    let mut cap: usize = 1;
    let mut i: usize = 0;
    while i < dims.len()
        invariant
            i <= dims@.len(),
            capacity_of(dims@) < usize::MAX,
            cap as nat == if capacity_of(dims@.take(i as int)) > usize::MAX as nat {
                usize::MAX as nat
            } else {
                capacity_of(dims@.take(i as int))
            },
        decreases dims@.len() - i,
    {
        let d = dims[i];
        let ghost prev = capacity_of(dims@.take(i as int)) as int;
        let ghost cap0 = cap as int;
        proof {
            lemma_capacity_take_succ(dims@, i as int);
        }
        cap = match cap.checked_mul(d) {
            Some(v) => v,
            None => usize::MAX,
        };
        proof {
            let now = capacity_of(dims@.take(i as int + 1)) as int;
            assert(now == prev * d);
            let mx = usize::MAX as int;
            if prev > mx {
                if d == 0 {
                    assert(prev * d == 0 && cap0 * d == 0) by (nonlinear_arith)
                        requires
                            d == 0,
                    ;
                } else {
                    assert(now >= prev) by (nonlinear_arith)
                        requires
                            prev >= 1,
                            d >= 1,
                            now == prev * d,
                    ;
                    assert(cap0 * d >= cap0) by (nonlinear_arith)
                        requires
                            d >= 1,
                            cap0 >= 0,
                    ;
                }
            }
        }
        i = i + 1;
    }
    proof {
        assert(dims@.take(dims@.len() as int) =~= dims@);
    }
    cap
}

} // verus!
