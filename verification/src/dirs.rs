//! Generation of the canonical direction set: of each pair `{d, -d}` of
//! nonzero vectors over `{-1, 0, 1}^D`, exactly the one whose first nonzero
//! component is `1` is retained.

use vstd::arithmetic::div_mod::lemma_fundamental_div_mod;
use vstd::arithmetic::div_mod::lemma_mod_bound;
use vstd::prelude::*;

use crate::model::is_step_vec;
use crate::model::is_zero_vec;
use crate::model::neg_vec;
use crate::model::pow3;

verus! {

/// The first nonzero component of `d` is `1`.
pub open spec fn leading_one(d: Seq<isize>) -> bool {
    exists|i: int|
        0 <= i < d.len() && d[i] == 1 && (forall|j: int| 0 <= j < i ==> #[trigger] d[j] == 0)
}

/// The generated direction set is exactly the set of length-`n` vectors over
/// `{-1, 0, 1}` whose first nonzero component is `1`, listed without
/// repetition.
pub open spec fn check_vecs_ok(r: Seq<Seq<isize>>, n: nat) -> bool {
    &&& forall|i: int| 0 <= i < r.len() ==> is_step_vec(#[trigger] r[i], n) && leading_one(r[i])
    &&& forall|d: Seq<isize>|
        is_step_vec(d, n) && #[trigger] leading_one(d) ==> exists|i: int|
            0 <= i < r.len() && r[i] == d
    &&& forall|i: int, j: int| 0 <= i < r.len() && 0 <= j < r.len() && i != j ==> r[i] != r[j]
    &&& 2 * r.len() + 1 == pow3(n)
}

/// A vector with a leading one is not the zero vector.
pub proof fn lemma_leading_one_nonzero(d: Seq<isize>)
    requires
        leading_one(d),
    ensures
        !is_zero_vec(d),
{
    let i = choose|i: int|
        0 <= i < d.len() && d[i] == 1 && (forall|j: int| 0 <= j < i ==> #[trigger] d[j] == 0);
    assert(d[i] != 0);
}

/// Every nonzero vector over `{-1, 0, 1}` has a leading one either itself or
/// in its negation.
pub proof fn lemma_leading_one_either(d: Seq<isize>)
    requires
        forall|i: int| 0 <= i < d.len() ==> -1 <= #[trigger] d[i] <= 1,
        !is_zero_vec(d),
    ensures
        leading_one(d) || leading_one(neg_vec(d)),
{
    let w = choose|i: int| 0 <= i < d.len() && d[i] != 0;
    lemma_first_nonzero(d, w);
}

/// Below any nonzero component there is a first one, and it is `1` in `d`
/// or in `neg_vec(d)`.
proof fn lemma_first_nonzero(d: Seq<isize>, w: int)
    requires
        forall|i: int| 0 <= i < d.len() ==> -1 <= #[trigger] d[i] <= 1,
        0 <= w < d.len(),
        d[w] != 0,
    ensures
        leading_one(d) || leading_one(neg_vec(d)),
    decreases w,
{
    if forall|j: int| 0 <= j < w ==> #[trigger] d[j] == 0 {
        if d[w] == 1 {
            assert(leading_one(d));
        } else {
            let nd = neg_vec(d);
            assert(nd[w] == 1);
            assert(forall|j: int| 0 <= j < w ==> #[trigger] nd[j] == 0);
            assert(leading_one(nd));
        }
    } else {
        let w2 = choose|j: int| 0 <= j < w && #[trigger] d[j] != 0;
        lemma_first_nonzero(d, w2);
    }
}

/// A vector with a leading one keeps it when a component is appended.
proof fn lemma_leading_one_push(t: Seq<isize>, c: isize)
    requires
        leading_one(t),
    ensures
        leading_one(t.push(c)),
{
    let i = choose|i: int|
        0 <= i < t.len() && t[i] == 1 && (forall|j: int| 0 <= j < i ==> #[trigger] t[j] == 0);
    let u = t.push(c);
    assert(u[i] == 1);
    assert(forall|j: int| 0 <= j < i ==> #[trigger] u[j] == 0);
}

/// Two vectors with a leading one are never each other's negation.
pub proof fn lemma_leading_one_not_neg(a: Seq<isize>, b: Seq<isize>)
    requires
        leading_one(a),
        leading_one(b),
    ensures
        a != neg_vec(b),
{
    if a == neg_vec(b) {
        let i = choose|i: int|
            0 <= i < a.len() && a[i] == 1 && (forall|j: int| 0 <= j < i ==> #[trigger] a[j] == 0);
        let k = choose|k: int|
            0 <= k < b.len() && b[k] == 1 && (forall|j: int| 0 <= j < k ==> #[trigger] b[j] == 0);
        assert(a[k] == -1);
        if i < k {
            assert(b[i] == 0);
            assert(a[i] == 0);
        } else if k < i {
            assert(a[k] == 0);
        }
        assert(false);
    }
}

/// Of every nonzero direction, a canonical set holds the vector itself or
/// its negation: scanning both orientations of each retained vector covers
/// every line through the grid.
pub proof fn lemma_coverage(r: Seq<Seq<isize>>, n: nat, e: Seq<isize>)
    requires
        check_vecs_ok(r, n),
        is_step_vec(e, n),
        !is_zero_vec(e),
    ensures
        exists|i: int| 0 <= i < r.len() && (r[i] == e || r[i] == neg_vec(e)),
{
    lemma_leading_one_either(e);
    if leading_one(e) {
        let i = choose|i: int| 0 <= i < r.len() && r[i] == e;
        assert(0 <= i < r.len() && (r[i] == e || r[i] == neg_vec(e)));
    } else {
        let ne = neg_vec(e);
        assert(is_step_vec(ne, n)) by {
            assert forall|i: int| 0 <= i < ne.len() implies -1 <= #[trigger] ne[i] <= 1 by {
                assert(-1 <= e[i] <= 1);
            }
        }
        let i = choose|i: int| 0 <= i < r.len() && r[i] == ne;
        assert(0 <= i < r.len() && (r[i] == e || r[i] == neg_vec(e)));
    }
}

/// The component appended to the tail numbered `j` in the entry numbered
/// `3 j + rem` of the assembled list.
spec fn appended_component(rem: int) -> isize {
    if rem == 0 {
        -1isize
    } else if rem == 1 {
        0isize
    } else {
        1isize
    }
}

/// Assembling, from the canonical set one dimension down, all three
/// extensions of each listed tail and then the vector with a trailing one
/// yields the canonical set.
proof fn lemma_assembled_set(tails: Seq<Seq<isize>>, dv: Seq<Seq<isize>>, zv: Seq<isize>, n: nat)
    requires
        n >= 1,
        check_vecs_ok(tails, (n - 1) as nat),
        dv.len() == 3 * tails.len() + 1,
        forall|j: int|
            0 <= j < tails.len() ==> dv[3 * j] == #[trigger] tails[j].push(-1isize) && dv[3 * j
                + 1] == tails[j].push(0isize) && dv[3 * j + 2] == tails[j].push(1isize),
        dv[3 * (tails.len() as int)] == zv,
        zv.len() == n,
        zv[n - 1] == 1,
        forall|k: int| 0 <= k < n - 1 ==> #[trigger] zv[k] == 0,
    ensures
        check_vecs_ok(dv, n),
{
    let m = tails.len() as int;
    assert(pow3(n) == 3 * pow3((n - 1) as nat));
    assert(is_step_vec(zv, n)) by {
        assert forall|i: int| 0 <= i < zv.len() implies -1 <= #[trigger] zv[i] <= 1 by {
            if i < n - 1 {
                assert(zv[i] == 0);
            }
        }
    }
    assert(leading_one(zv));
    // every entry but the last extends its tail by one component
    assert forall|i: int| 0 <= i < 3 * m implies dv[i] == tails[i / 3].push(
        appended_component(i % 3),
    ) && 0 <= i / 3 < m by {
        lemma_fundamental_div_mod(i, 3);
        lemma_mod_bound(i, 3);
        let j = i / 3;
        let rem = i % 3;
        assert(i == 3 * j + rem);
        assert(tails[j].push(-1isize) == dv[3 * j]);
    }
    // soundness: every entry is a canonical vector of length n
    assert forall|i: int| 0 <= i < dv.len() implies is_step_vec(#[trigger] dv[i], n)
        && leading_one(dv[i]) by {
        if i == 3 * m {
        } else {
            let tj = tails[i / 3];
            let c = appended_component(i % 3);
            assert(is_step_vec(tj, (n - 1) as nat) && leading_one(tj));
            lemma_leading_one_push(tj, c);
            assert(is_step_vec(tj.push(c), n)) by {
                assert forall|k: int| 0 <= k < tj.push(c).len() implies -1 <= #[trigger] tj.push(
                    c,
                )[k] <= 1 by {
                    if k < tj.len() {
                        assert(-1 <= tj[k] <= 1);
                    }
                }
            }
        }
    }
    // completeness: every canonical vector of length n is listed
    assert forall|d: Seq<isize>| is_step_vec(d, n) && #[trigger] leading_one(d) implies exists|
        i: int,
    | 0 <= i < dv.len() && dv[i] == d by {
        let w = choose|w: int|
            0 <= w < d.len() && d[w] == 1 && (forall|j: int| 0 <= j < w ==> #[trigger] d[j] == 0);
        let front = d.drop_last();
        assert(d =~= front.push(d.last()));
        if w < n - 1 {
            assert(front[w] == 1 && (forall|j: int| 0 <= j < w ==> #[trigger] front[j] == 0));
            assert(is_step_vec(front, (n - 1) as nat)) by {
                assert forall|i: int| 0 <= i < front.len() implies -1 <= #[trigger] front[i]
                    <= 1 by {
                    assert(-1 <= d[i] <= 1);
                }
            }
            assert(leading_one(front));
            let j = choose|j: int| 0 <= j < tails.len() && tails[j] == front;
            let c = d.last();
            assert(-1 <= c <= 1);
            if c == -1 {
                assert(dv[3 * j] == d);
            } else if c == 0 {
                assert(dv[3 * j + 1] == d);
            } else {
                assert(dv[3 * j + 2] == d);
            }
        } else {
            // the leading one is the last component: the front is all zeros
            assert(d.last() == 1);
            assert(zv =~= d) by {
                assert forall|k: int| 0 <= k < zv.len() implies zv[k] == d[k] by {
                    if k < n - 1 {
                        assert(d[k] == 0);
                        assert(zv[k] == 0);
                    }
                }
            }
            assert(dv[3 * m] == d);
        }
    }
    // no entry is listed twice
    assert forall|i1: int, i2: int|
        0 <= i1 < dv.len() && 0 <= i2 < dv.len() && i1 != i2 implies dv[i1] != dv[i2] by {
        if dv[i1] == dv[i2] {
            if i1 == 3 * m || i2 == 3 * m {
                let io = if i1 == 3 * m {
                    i2
                } else {
                    i1
                };
                let tj = tails[io / 3];
                assert(dv[io] == tj.push(appended_component(io % 3)));
                let w = choose|w: int|
                    0 <= w < tj.len() && tj[w] == 1 && (forall|k: int|
                        0 <= k < w ==> #[trigger] tj[k] == 0);
                assert(dv[io][w] == 1);
                assert(zv[w] == 0);
                assert(dv[io] != zv);
            } else {
                let j1 = i1 / 3;
                let j2 = i2 / 3;
                let c1 = appended_component(i1 % 3);
                let c2 = appended_component(i2 % 3);
                assert(dv[i1].last() == c1 && dv[i2].last() == c2);
                assert(c1 == c2);
                assert(i1 % 3 == i2 % 3);
                assert(j1 != j2);
                assert(tails[j1].push(c1).drop_last() =~= tails[j1]);
                assert(tails[j2].push(c2).drop_last() =~= tails[j2]);
                assert(tails[j1] == tails[j2]);
                assert(false);
            }
        }
    }
}

/// An exact copy of a direction vector.
fn copy_vec(v: &Vec<isize>) -> (r: Vec<isize>)
    ensures
        r@ == v@,
{
    let mut r: Vec<isize> = Vec::new();
    let mut i: usize = 0;
    while i < v.len()
        invariant
            i <= v.len(),
            r@ =~= v@.take(i as int),
        decreases v.len() - i,
    {
        r.push(v[i]);
        i = i + 1;
    }
    proof {
        assert(v@.take(v.len() as int) =~= v@);
    }
    r
}

/// The direction that moves only along the last of `n` axes, positively.
fn trailing_one_vec(n: usize) -> (z: Vec<isize>)
    requires
        n >= 1,
    ensures
        z@.len() == n,
        z@[n - 1] == 1isize,
        forall|k: int| 0 <= k < n - 1 ==> #[trigger] z@[k] == 0isize,
{
    let mut z: Vec<isize> = Vec::new();
    let mut zi: usize = 0;
    while zi < n - 1
        invariant
            n >= 1,
            zi <= n - 1,
            z@.len() == zi,
            forall|k: int| 0 <= k < z@.len() ==> #[trigger] z@[k] == 0isize,
        decreases n - 1 - zi,
    {
        z.push(0);
        zi = zi + 1;
    }
    z.push(1);
    z
}

/// Build the canonical direction set for `n_dims` dimensions: of each pair
/// of a nonzero vector over `{-1, 0, 1}` and its negation, exactly the one
/// whose first nonzero component is `1` is listed, each exactly once.
pub fn generate_check_vecs(n_dims: usize) -> (r: Vec<Vec<isize>>)
    ensures
        check_vecs_ok(r.deep_view(), n_dims as nat),
    decreases n_dims,
{
    let mut r: Vec<Vec<isize>> = Vec::new();
    if n_dims == 0 {
        proof {
            assert(r.deep_view() =~= Seq::<Seq<isize>>::empty());
            assert forall|d: Seq<isize>| is_step_vec(d, 0) && #[trigger] leading_one(d)
                implies false by {
                let i = choose|i: int|
                    0 <= i < d.len() && d[i] == 1 && (forall|j: int|
                        0 <= j < i ==> #[trigger] d[j] == 0);
            }
        }
        return r;
    }
    let tails = generate_check_vecs(n_dims - 1);
    let ghost tails_dv = tails.deep_view();
    let mut ti: usize = 0;
    while ti < tails.len()
        invariant
            ti <= tails.len(),
            tails.deep_view() == tails_dv,
            n_dims >= 1,
            check_vecs_ok(tails_dv, (n_dims - 1) as nat),
            r@.len() == 3 * ti,
            forall|j: int|
                0 <= j < ti ==> r.deep_view()[3 * j] == #[trigger] tails_dv[j].push(-1isize)
                    && r.deep_view()[3 * j + 1] == tails_dv[j].push(0isize) && r.deep_view()[3 * j
                    + 2] == tails_dv[j].push(1isize),
        decreases tails.len() - ti,
    {
        let ghost r0 = r.deep_view();
        let t = &tails[ti];
        proof {
            assert(t@ == tails_dv[ti as int]);
        }
        let mut a = copy_vec(t);
        a.push(-1);
        let mut b = copy_vec(t);
        b.push(0);
        let mut c = copy_vec(t);
        c.push(1);
        r.push(a);
        r.push(b);
        r.push(c);
        proof {
            let tv = tails_dv[ti as int];
            assert(r.deep_view() =~~= r0.push(tv.push(-1isize)).push(tv.push(0isize)).push(
                tv.push(1isize),
            ));
            let dvn = r.deep_view();
            assert forall|j: int| 0 <= j < ti + 1 implies dvn[3 * j] == #[trigger] tails_dv[j].push(
                -1isize,
            ) && dvn[3 * j + 1] == tails_dv[j].push(0isize) && dvn[3 * j + 2] == tails_dv[j].push(
                1isize,
            ) by {
                if j < ti {
                    assert(r0[3 * j] == tails_dv[j].push(-1isize));
                    assert(r0[3 * j + 1] == tails_dv[j].push(0isize));
                    assert(r0[3 * j + 2] == tails_dv[j].push(1isize));
                    assert(dvn[3 * j] == r0[3 * j]);
                    assert(dvn[3 * j + 1] == r0[3 * j + 1]);
                    assert(dvn[3 * j + 2] == r0[3 * j + 2]);
                } else {
                    assert(tails_dv[j].push(-1isize) == tv.push(-1isize));
                    assert(tails_dv[j].push(0isize) == tv.push(0isize));
                    assert(tails_dv[j].push(1isize) == tv.push(1isize));
                    assert(dvn[3 * j] == tv.push(-1isize));
                    assert(dvn[3 * j + 1] == tv.push(0isize));
                    assert(dvn[3 * j + 2] == tv.push(1isize));
                }
            }
        }
        ti = ti + 1;
    }
    let z = trailing_one_vec(n_dims);
    let ghost r1 = r.deep_view();
    let ghost zv = z@;
    r.push(z);
    proof {
        assert(r.deep_view() =~~= r1.push(zv));
        lemma_assembled_set(tails_dv, r.deep_view(), zv, n_dims as nat);
    }
    r
}

} // verus!
