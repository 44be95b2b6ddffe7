//! All-Pairs-Shortest-Paths propagation (Floyd–Warshall) over a square table
//! of optional distances, with negative-cycle detection.
//!
//! A table is modelled as a matrix `Seq<Seq<Option<int>>>`: `None` is a pair
//! with no known path (an implicit `+inf`), never materialized.
use vstd::prelude::*;

verus! {

/// Why a propagation stopped.
#[derive(Clone, Copy, Debug, PartialEq, Eq, Structural)]
pub enum StnError {
    /// The self-distance of this time point became negative: the network
    /// is infeasible.
    NegativeCycle(i32),
    /// A propagated distance does not fit in an `i64`.
    Overflow,
}

/// A table of `n` rows of `n` entries.
pub open spec fn is_square(d: Seq<Seq<Option<int>>>, n: int) -> bool {
    &&& d.len() == n
    &&& forall|i: int| 0 <= i < n ==> #[trigger] d[i].len() == n
}

/// `c <= a + b`, where a sum with an unknown term is `+inf`.
pub open spec fn le_sum(c: Option<int>, a: Option<int>, b: Option<int>) -> bool {
    (a is Some && b is Some) ==> (c is Some && c->0 <= a->0 + b->0)
}

/// `c <= a`, where an unknown distance is `+inf`.
pub open spec fn le(c: Option<int>, a: Option<int>) -> bool {
    a is Some ==> (c is Some && c->0 <= a->0)
}

/// An entry that is not a negative distance.
pub open spec fn not_negative(o: Option<int>) -> bool {
    o matches Some(x) ==> x >= 0
}

/// An entry that an `i64` can hold.
pub open spec fn fits(o: Option<int>) -> bool {
    o matches Some(x) ==> i64::MIN <= x <= i64::MAX
}

/// Entry `(i, j)` once paths through `k` are considered: the path through
/// `k` replaces the known distance only when it is strictly shorter.
pub open spec fn relax(d: Seq<Seq<Option<int>>>, k: int, i: int, j: int) -> Option<int> {
    relax_entry(d[i][k], d[k][j], d[i][j])
}

/// The known distance `c`, replaced by the path `a + b` when that is
/// strictly shorter.
pub open spec fn relax_entry(a: Option<int>, b: Option<int>, c: Option<int>) -> Option<int> {
    match (a, b) {
        (Some(x), Some(y)) => match c {
            Some(z) => if x + y < z { Some(x + y) } else { Some(z) },
            None => Some(x + y),
        },
        _ => c,
    }
}

/// The table once paths through `k` are considered.
pub open spec fn fw_round(d: Seq<Seq<Option<int>>>, k: int) -> Seq<Seq<Option<int>>> {
    Seq::new(d.len(), |i: int| Seq::new(d[i].len(), |j: int| relax(d, k, i, j)))
}

/// The table once paths through the intermediates `0 .. k` are considered.
pub open spec fn fw(seed: Seq<Seq<Option<int>>>, k: nat) -> Seq<Seq<Option<int>>>
    decreases k,
{
    if k == 0 {
        seed
    } else {
        fw_round(fw(seed, (k - 1) as nat), k - 1)
    }
}

/// Round `k` produces no negative self-distance and no entry beyond `i64`.
pub open spec fn round_ok(d: Seq<Seq<Option<int>>>, k: int) -> bool {
    &&& forall|i: int| 0 <= i < d.len() ==> not_negative(#[trigger] relax(d, k, i, i))
    &&& forall|i: int, j: int| 0 <= i < d.len() && 0 <= j < d.len() ==> fits(#[trigger] relax(d, k, i, j))
}

/// The first `k` rounds all succeed.
pub open spec fn fw_ok(seed: Seq<Seq<Option<int>>>, k: nat) -> bool {
    forall|r: nat| r < k ==> #[trigger] round_ok(fw(seed, r), r as int)
}

/// Every path through intermediates below `k` is no shorter than the known
/// distance: `d[i][j] <= d[i][m] + d[m][j]` for all `m < k`.
pub open spec fn triangle_through(d: Seq<Seq<Option<int>>>, k: int) -> bool {
    forall|i: int, j: int, m: int|
        0 <= i < d.len() && 0 <= j < d.len() && 0 <= m < k ==> le_sum(#[trigger] d[i][j], #[trigger] d[i][m], #[trigger] d[m][j])
}

/// A round never lengthens an entry, and never makes it longer than the
/// path through the pivot.
proof fn lemma_relax_bounds(d: Seq<Seq<Option<int>>>, k: int, i: int, j: int)
    ensures
        le(relax(d, k, i, j), d[i][j]),
        le_sum(relax(d, k, i, j), d[i][k], d[k][j]),
        relax(d, k, i, j) == d[i][j] || (d[i][k] is Some && d[k][j] is Some && relax(d, k, i, j) == Some(
            d[i][k]->0 + d[k][j]->0,
        )),
{
}

/// A successful round leaves a pivot whose self-distance is not negative.
proof fn lemma_round_ok_pivot(d: Seq<Seq<Option<int>>>, k: int)
    requires
        is_square(d, d.len() as int),
        0 <= k < d.len(),
        round_ok(d, k),
    ensures
        not_negative(d[k][k]),
{
    assert(not_negative(relax(d, k, k, k)));
}

/// One round keeps the triangle inequality through the earlier
/// intermediates and adds it through the pivot.
proof fn lemma_triangle_step(d: Seq<Seq<Option<int>>>, k: int, i: int, j: int, m: int)
    requires
        is_square(d, d.len() as int),
        0 <= k < d.len(),
        0 <= i < d.len(),
        0 <= j < d.len(),
        0 <= m <= k,
        not_negative(d[k][k]),
        triangle_through(d, k),
    ensures
        le_sum(fw_round(d, k)[i][j], fw_round(d, k)[i][m], fw_round(d, k)[m][j]),
{
    let e = fw_round(d, k);
    assert(e[i][j] == relax(d, k, i, j));
    assert(e[i][m] == relax(d, k, i, m));
    assert(e[m][j] == relax(d, k, m, j));
    lemma_relax_bounds(d, k, i, j);
    lemma_relax_bounds(d, k, i, m);
    lemma_relax_bounds(d, k, m, j);
    if m == k {
        lemma_round_keeps_pivot(d, k, i);
        lemma_round_keeps_pivot(d, k, j);
    } else {
        assert(le_sum(d[i][j], d[i][m], d[m][j]));
        assert(le_sum(d[k][j], d[k][m], d[m][j]));
        assert(le_sum(d[i][k], d[i][m], d[m][k]));
        assert(le_sum(d[k][k], d[k][m], d[m][k]));
    }
}

/// After `k` successful rounds, the triangle inequality holds through every
/// intermediate below `k`.
proof fn lemma_triangle_through(seed: Seq<Seq<Option<int>>>, k: nat)
    requires
        is_square(seed, seed.len() as int),
        k <= seed.len(),
        fw_ok(seed, k),
    ensures
        triangle_through(fw(seed, k), k as int),
    decreases k,
{
    if k > 0 {
        let p = (k - 1) as nat;
        assert(fw_ok(seed, p)) by {
            assert forall|r: nat| r < p implies #[trigger] round_ok(fw(seed, r), r as int) by {
                assert(round_ok(fw(seed, r), r as int));
            }
        }
        lemma_triangle_through(seed, p);
        lemma_fw_square(seed, p);
        let d = fw(seed, p);
        assert(round_ok(d, p as int));
        lemma_round_ok_pivot(d, p as int);
        assert forall|i: int, j: int, m: int|
            0 <= i < fw(seed, k).len() && 0 <= j < fw(seed, k).len() && 0 <= m < k as int implies le_sum(
            #[trigger] fw(seed, k)[i][j],
            #[trigger] fw(seed, k)[i][m],
            #[trigger] fw(seed, k)[m][j],
        ) by {
            lemma_triangle_step(d, p as int, i, j, m);
        }
    }
}

/// Propagation never makes a known distance longer.
pub proof fn lemma_fw_decreasing(seed: Seq<Seq<Option<int>>>, k: nat, i: int, j: int)
    requires
        is_square(seed, seed.len() as int),
        0 <= i < seed.len(),
        0 <= j < seed.len(),
        k <= seed.len(),
    ensures
        le(fw(seed, k)[i][j], seed[i][j]),
    decreases k,
{
    if k > 0 {
        let p = (k - 1) as nat;
        lemma_fw_decreasing(seed, p, i, j);
        lemma_fw_square(seed, p);
        lemma_relax_bounds(fw(seed, p), p as int, i, j);
    }
}

/// After a successful propagation no self-distance is negative.
pub proof fn lemma_fw_diagonal(seed: Seq<Seq<Option<int>>>, i: int)
    requires
        is_square(seed, seed.len() as int),
        0 <= i < seed.len(),
        fw_ok(seed, seed.len()),
    ensures
        not_negative(fw(seed, seed.len())[i][i]),
{
    let p = (seed.len() - 1) as nat;
    lemma_fw_square(seed, p);
    assert(round_ok(fw(seed, p), p as int));
    assert(not_negative(relax(fw(seed, p), p as int, i, i)));
}

/// Self-distance: after a successful propagation, a time point whose
/// self-loop weighs zero is at distance zero from itself.
pub proof fn lemma_self_distance(seed: Seq<Seq<Option<int>>>, i: int)
    requires
        is_square(seed, seed.len() as int),
        0 <= i < seed.len(),
        seed[i][i] == Some(0int),
        fw_ok(seed, seed.len()),
    ensures
        fw(seed, seed.len())[i][i] == Some(0int),
{
    lemma_fw_decreasing(seed, seed.len(), i, i);
    lemma_fw_diagonal(seed, i);
}

/// Triangle inequality: after a successful propagation,
/// `d[i][j] <= d[i][m] + d[m][j]` for all `i`, `j`, `m` whose two terms are
/// known; then `d[i][j]` is known too.
pub proof fn lemma_triangle(seed: Seq<Seq<Option<int>>>, i: int, j: int, m: int)
    requires
        is_square(seed, seed.len() as int),
        0 <= i < seed.len(),
        0 <= j < seed.len(),
        0 <= m < seed.len(),
        fw_ok(seed, seed.len()),
    ensures
        le_sum(fw(seed, seed.len())[i][j], fw(seed, seed.len())[i][m], fw(seed, seed.len())[m][j]),
{
    lemma_triangle_through(seed, seed.len());
    lemma_fw_square(seed, seed.len());
}

/// A walk along known entries: node indices in range, each step an entry
/// that is known.
pub open spec fn is_walk(d: Seq<Seq<Option<int>>>, w: Seq<int>) -> bool {
    &&& w.len() >= 2
    &&& forall|t: int| 0 <= t < w.len() ==> 0 <= #[trigger] w[t] < d.len()
    &&& forall|t: int| 0 <= t < w.len() - 1 ==> (#[trigger] d[w[t]][w[t + 1]]) is Some
}

/// The summed weight of a walk.
pub open spec fn walk_length(d: Seq<Seq<Option<int>>>, w: Seq<int>) -> int
    decreases w.len(),
{
    if w.len() < 2 {
        0
    } else {
        walk_length(d, w.drop_last()) + d[w[w.len() - 2]][w[w.len() - 1]]->0
    }
}

/// After a successful propagation, the distance between the ends of a walk
/// is known and at most the walk's length.
pub proof fn lemma_walk_bound(seed: Seq<Seq<Option<int>>>, w: Seq<int>)
    requires
        is_square(seed, seed.len() as int),
        fw_ok(seed, seed.len()),
        is_walk(seed, w),
    ensures
        le(fw(seed, seed.len())[w[0]][w[w.len() - 1]], Some(walk_length(seed, w))),
    decreases w.len(),
{
    let l = w.len() as int;
    lemma_fw_square(seed, seed.len());
    lemma_fw_decreasing(seed, seed.len(), w[l - 2], w[l - 1]);
    let v = w.drop_last();
    assert(walk_length(seed, w) == walk_length(seed, v) + seed[w[l - 2]][w[l - 1]]->0);
    assert(v[0] == w[0] && v[v.len() - 1] == w[l - 2]);
    let t = l - 2;
    assert(seed[w[t]][w[t + 1]] is Some);
    if l > 2 {
        assert(is_walk(seed, v)) by {
            assert forall|t: int| 0 <= t < v.len() - 1 implies (#[trigger] seed[v[t]][v[t + 1]]) is Some by {
                assert(v[t] == w[t] && v[t + 1] == w[t + 1]);
            }
        }
        lemma_walk_bound(seed, v);
        lemma_triangle(seed, w[0], w[l - 1], w[l - 2]);
    }
}

/// Infeasibility detection: a closed walk of negative length makes the
/// propagation fail.
pub proof fn lemma_negative_cycle_fails(seed: Seq<Seq<Option<int>>>, w: Seq<int>)
    requires
        is_square(seed, seed.len() as int),
        is_walk(seed, w),
        w[0] == w[w.len() - 1],
        walk_length(seed, w) < 0,
    ensures
        !fw_ok(seed, seed.len()),
{
    if fw_ok(seed, seed.len()) {
        lemma_walk_bound(seed, w);
        lemma_fw_diagonal(seed, w[0]);
    }
}

/// Some walk from `i` to `j` has length `x`.
pub open spec fn realized(d: Seq<Seq<Option<int>>>, i: int, j: int, x: int) -> bool {
    exists|w: Seq<int>| #[trigger] is_walk(d, w) && w[0] == i && w[w.len() - 1] == j && walk_length(d, w) == x
}

/// Joining a walk that ends where a second one starts adds their lengths.
proof fn lemma_walk_concat(d: Seq<Seq<Option<int>>>, w1: Seq<int>, w2: Seq<int>)
    requires
        is_walk(d, w1),
        is_walk(d, w2),
        w1[w1.len() - 1] == w2[0],
    ensures
        is_walk(d, w1 + w2.drop_first()),
        (w1 + w2.drop_first())[0] == w1[0],
        (w1 + w2.drop_first())[(w1 + w2.drop_first()).len() - 1] == w2[w2.len() - 1],
        walk_length(d, w1 + w2.drop_first()) == walk_length(d, w1) + walk_length(d, w2),
    decreases w2.len(),
{
    let w = w1 + w2.drop_first();
    let l1 = w1.len() as int;
    let l2 = w2.len() as int;
    assert(w.len() == l1 + l2 - 1);
    assert forall|t: int| 0 <= t < w.len() implies 0 <= #[trigger] w[t] < d.len() by {
        if t >= l1 {
            assert(w[t] == w2[t - l1 + 1]);
        }
    }
    assert forall|t: int| 0 <= t < w.len() - 1 implies (#[trigger] d[w[t]][w[t + 1]]) is Some by {
        if t < l1 - 1 {
            assert(w[t] == w1[t] && w[t + 1] == w1[t + 1]);
        } else {
            let u = t - l1 + 1;
            assert(w[t] == w2[u] && w[t + 1] == w2[u + 1]);
        }
    }
    assert(w.drop_last()[w.drop_last().len() - 1] == w[w.len() - 2]);
    if l2 == 2 {
        assert(w.drop_last() =~= w1);
        let v = w2.drop_last();
        assert(walk_length(d, v) == 0);
    } else {
        let v = w2.drop_last();
        assert(is_walk(d, v)) by {
            assert forall|t: int| 0 <= t < v.len() - 1 implies (#[trigger] d[v[t]][v[t + 1]]) is Some by {
                assert(v[t] == w2[t] && v[t + 1] == w2[t + 1]);
            }
        }
        lemma_walk_concat(d, w1, v);
        assert(w.drop_last() =~= w1 + v.drop_first());
        assert(w[w.len() - 2] == w2[l2 - 2]);
        assert(w[w.len() - 1] == w2[l2 - 1]);
        assert(v[v.len() - 1] == w2[l2 - 2]);
    }
}

/// Every known entry of a propagated table is the length of a walk in the
/// seed between its two time points.
pub proof fn lemma_fw_sound(seed: Seq<Seq<Option<int>>>, k: nat, i: int, j: int)
    requires
        is_square(seed, seed.len() as int),
        k <= seed.len(),
        0 <= i < seed.len(),
        0 <= j < seed.len(),
        fw(seed, k)[i][j] is Some,
    ensures
        realized(seed, i, j, fw(seed, k)[i][j]->0),
    decreases k,
{
    lemma_fw_square(seed, k);
    if k == 0 {
        let w = seq![i, j];
        assert(w.drop_last() =~= seq![i]);
        assert(walk_length(seed, w.drop_last()) == 0);
        assert(walk_length(seed, w) == seed[i][j]->0);
        assert(is_walk(seed, w));
    } else {
        let p = (k - 1) as nat;
        let d = fw(seed, p);
        lemma_fw_square(seed, p);
        lemma_relax_bounds(d, p as int, i, j);
        assert(fw(seed, k) == fw_round(d, p as int));
        assert(fw(seed, k)[i][j] == relax(d, p as int, i, j));
        if relax(d, p as int, i, j) == d[i][j] {
            lemma_fw_sound(seed, p, i, j);
        } else {
            lemma_fw_sound(seed, p, i, p as int);
            lemma_fw_sound(seed, p, p as int, j);
            let w1 = choose|w: Seq<int>| #[trigger] is_walk(seed, w) && w[0] == i && w[w.len() - 1] == p as int
                && walk_length(seed, w) == d[i][p as int]->0;
            let w2 = choose|w: Seq<int>| #[trigger] is_walk(seed, w) && w[0] == p as int && w[w.len() - 1] == j
                && walk_length(seed, w) == d[p as int][j]->0;
            lemma_walk_concat(seed, w1, w2);
            let w = w1 + w2.drop_first();
            assert(is_walk(seed, w) && w[0] == i && w[w.len() - 1] == j && walk_length(seed, w) == fw(seed, k)[i][j]->0);
        }
    }
}

/// Time point `i` lies on a closed walk of negative length.
pub open spec fn on_negative_cycle(d: Seq<Seq<Option<int>>>, i: int) -> bool {
    exists|w: Seq<int>| #[trigger] is_walk(d, w) && w[0] == i && w[w.len() - 1] == i && walk_length(d, w) < 0
}

/// The time point that a failed propagation reports lies on a closed walk of
/// negative length: its self-distance became negative in round `k`.
pub proof fn lemma_negative_self_distance_on_cycle(seed: Seq<Seq<Option<int>>>, k: int, i: int)
    requires
        is_square(seed, seed.len() as int),
        0 <= k < seed.len(),
        0 <= i < seed.len(),
        !not_negative(relax(fw(seed, k as nat), k, i, i)),
    ensures
        on_negative_cycle(seed, i),
{
    lemma_fw_square(seed, k as nat);
    assert(fw(seed, (k + 1) as nat)[i][i] == relax(fw(seed, k as nat), k, i, i));
    lemma_fw_sound(seed, (k + 1) as nat, i, i);
}

/// The number of known entries in a row.
pub open spec fn row_known(row: Seq<Option<int>>) -> nat
    decreases row.len(),
{
    if row.len() == 0 {
        0
    } else {
        row_known(row.drop_last()) + if row.last() is Some { 1nat } else { 0nat }
    }
}

/// The number of known entries in a table.
pub open spec fn table_known(d: Seq<Seq<Option<int>>>) -> nat
    decreases d.len(),
{
    if d.len() == 0 {
        0
    } else {
        table_known(d.drop_last()) + row_known(d.last())
    }
}

/// An `Option<i64>` read as an optional mathematical integer.
pub open spec fn opt_int(o: Option<i64>) -> Option<int> {
    match o {
        Some(x) => Some(x as int),
        None => None,
    }
}

/// Entry `(a, b)` of a row-major flat table with `n` columns.
pub open spec fn at(flat: Seq<Option<i64>>, n: int, a: int, b: int) -> Option<int> {
    opt_int(flat[a * n + b])
}

/// A row-major flat table read as a matrix.
pub open spec fn square(flat: Seq<Option<i64>>, n: int) -> Seq<Seq<Option<int>>> {
    Seq::new(n as nat, |a: int| Seq::new(n as nat, |b: int| at(flat, n, a, b)))
}

/// Row-major positions of an `n` by `n` table are in range and distinct.
pub proof fn lemma_flat_index(n: int, a: int, b: int, c: int, e: int)
    requires
        0 <= a < n,
        0 <= b < n,
        0 <= c < n,
        0 <= e < n,
    ensures
        0 <= a * n + b < n * n,
        a * n + b == c * n + e ==> a == c && b == e,
{
    assert(0 <= a * n + b < n * n) by (nonlinear_arith)
        requires
            0 <= a < n,
            0 <= b < n,
    ;
    if a * n + b == c * n + e {
        if a < c {
            assert(a * n + b < c * n + e) by (nonlinear_arith)
                requires
                    0 <= a < c,
                    0 <= b < n,
                    0 <= e,
            ;
        } else if c < a {
            assert(c * n + e < a * n + b) by (nonlinear_arith)
                requires
                    0 <= c < a,
                    0 <= e < n,
                    0 <= b,
            ;
        }
    }
}

/// Positions before `(i, j)` in row-major order come before it in a flat
/// table.
pub proof fn lemma_flat_order(n: int, a: int, b: int, i: int, j: int)
    requires
        0 <= b < n,
        0 <= j <= n,
        0 <= a,
        a < i || (a == i && b < j),
    ensures
        a * n + b < i * n + j,
{
    if a < i {
        assert(a * n + b < i * n) by (nonlinear_arith)
            requires
                0 <= a < i,
                0 <= b < n,
        ;
    }
}

/// Round `k` leaves row `k` and column `k` as they were, when the
/// self-distance of `k` is not negative.
pub proof fn lemma_round_keeps_pivot(d: Seq<Seq<Option<int>>>, k: int, a: int)
    requires
        is_square(d, d.len() as int),
        0 <= k < d.len(),
        0 <= a < d.len(),
        not_negative(d[k][k]),
    ensures
        relax(d, k, a, k) == d[a][k],
        relax(d, k, k, a) == d[k][a],
{
}

/// A table of `n` by `n` stays square through every round.
pub proof fn lemma_fw_square(seed: Seq<Seq<Option<int>>>, k: nat)
    requires
        is_square(seed, seed.len() as int),
    ensures
        is_square(fw(seed, k), seed.len() as int),
    decreases k,
{
    if k > 0 {
        lemma_fw_square(seed, (k - 1) as nat);
    }
}

/// The candidate entry for one step of the propagation, computed without
/// overflow.
fn relax_value(ik: Option<i64>, kj: Option<i64>, cur: Option<i64>) -> (r: Option<i128>)
    ensures
        relax_entry(opt_int(ik), opt_int(kj), opt_int(cur)) == match r {
            Some(x) => Some(x as int),
            None => None::<int>,
        },
{
    match (ik, kj) {
        (Some(a), Some(b)) => {
            let through: i128 = a as i128 + b as i128;
            match cur {
                Some(c) => if through < c as i128 {
                    Some(through)
                } else {
                    Some(c as i128)
                },
                None => Some(through),
            }
        },
        _ => match cur {
            Some(c) => Some(c as i128),
            None => None,
        },
    }
}

/// A round that fails makes the whole run fail.
proof fn lemma_round_fails(seed: Seq<Seq<Option<int>>>, k: nat, n: nat)
    requires
        k < n,
        !round_ok(fw(seed, k), k as int),
    ensures
        !fw_ok(seed, n),
{
}

/// Writing entry `(i, j)` of a flat table leaves every other entry alone.
proof fn lemma_set_entry(before: Seq<Option<i64>>, after: Seq<Option<i64>>, n: int, i: int, j: int, v: Option<i64>)
    requires
        0 <= i < n,
        0 <= j < n,
        before.len() == n * n,
        after == before.update(i * n + j, v),
    ensures
        at(after, n, i, j) == opt_int(v),
        forall|a: int, b: int| 0 <= a < n && 0 <= b < n && (a != i || b != j) ==> #[trigger] at(after, n, a, b) == at(before, n, a, b),
{
    lemma_flat_index(n, i, j, 0, 0);
    assert forall|a: int, b: int| 0 <= a < n && 0 <= b < n && (a != i || b != j) implies #[trigger] at(after, n, a, b) == at(before, n, a, b) by {
        lemma_flat_index(n, a, b, i, j);
    }
}

/// Run Floyd–Warshall in place on a row-major `n` by `n` table.
///
/// For each intermediate `k`, then each row `i`, then each column `j`, entry
/// `(i, j)` becomes `relax` of the table at that point. The run stops with
/// `NegativeCycle(ids[i])` as soon as a self-distance `(i, i)` would become
/// negative, and with `Overflow` as soon as an entry would leave `i64`. The
/// table is then only partly updated and must be discarded.
#[verifier::rlimit(50)]
pub fn floyd_warshall(table: &mut Vec<Option<i64>>, n: usize, ids: &Vec<i32>) -> (r: Result<(), StnError>)
    requires
        old(table)@.len() == n * n,
        ids@.len() == n,
    ensures
        final(table)@.len() == n * n,
        r is Ok <==> fw_ok(square(old(table)@, n as int), n as nat),
        r is Ok ==> square(final(table)@, n as int) == fw(square(old(table)@, n as int), n as nat),
        r matches Err(StnError::NegativeCycle(id)) ==> exists|k: int, i: int|
            0 <= k < n && 0 <= i < n && fw_ok(square(old(table)@, n as int), k as nat)
                && !not_negative(#[trigger] relax(fw(square(old(table)@, n as int), k as nat), k, i, i))
                && id == ids@[i],
        r matches Err(StnError::NegativeCycle(id)) ==> exists|i: int|
            0 <= i < n && id == ids@[i] && #[trigger] on_negative_cycle(square(old(table)@, n as int), i),
        r matches Err(StnError::Overflow) ==> exists|k: int, i: int, j: int|
            0 <= k < n && 0 <= i < n && 0 <= j < n && fw_ok(square(old(table)@, n as int), k as nat)
                && !fits(#[trigger] relax(fw(square(old(table)@, n as int), k as nat), k, i, j)),
{
    let ghost seed = square(table@, n as int);
    let ghost nn = n as int;
    let total = table.len();
    assert(nn * nn <= usize::MAX);
    assert(is_square(seed, nn));
    let mut k: usize = 0;
    while k < n
        invariant
            table@.len() == n * n,
            ids@.len() == n,
            seed == square(old(table)@, nn),
            nn == n as int,
            nn * nn <= usize::MAX,
            is_square(seed, nn),
            0 <= k <= n,
            square(table@, nn) == fw(seed, k as nat),
            fw_ok(seed, k as nat),
            k > 0 ==> forall|a: int| 0 <= a < n ==> not_negative(#[trigger] fw(seed, k as nat)[a][a]),
        decreases n - k,
    {
        let ghost dk = fw(seed, k as nat);
        proof {
            lemma_fw_square(seed, k as nat);
            assert forall|a: int, b: int| 0 <= a < n && 0 <= b < n implies at(table@, nn, a, b) == dk[a][b] by {
                assert(square(table@, nn)[a][b] == at(table@, nn, a, b));
            }
        }
        let mut i: usize = 0;
        while i < n
            invariant
                table@.len() == n * n,
                ids@.len() == n,
                nn == n as int,
                nn * nn <= usize::MAX,
                0 <= k < n,
                0 <= i <= n,
                dk == fw(seed, k as nat),
                seed == square(old(table)@, nn),
                is_square(dk, nn),
                fw_ok(seed, k as nat),
                k > 0 ==> forall|a: int| 0 <= a < n ==> not_negative(#[trigger] dk[a][a]),
                i > 0 ==> not_negative(dk[k as int][k as int]),
                forall|a: int, b: int| 0 <= a < n && 0 <= b < n ==> #[trigger] at(table@, nn, a, b) == if a < i {
                    relax(dk, k as int, a, b)
                } else {
                    dk[a][b]
                },
                forall|a: int| 0 <= a < i ==> not_negative(#[trigger] relax(dk, k as int, a, a)),
                forall|a: int, b: int| 0 <= a < i && 0 <= b < n ==> fits(#[trigger] relax(dk, k as int, a, b)),
            decreases n - i,
        {
            let mut j: usize = 0;
            while j < n
                invariant
                    table@.len() == n * n,
                    ids@.len() == n,
                    nn == n as int,
                    nn * nn <= usize::MAX,
                    0 <= k < n,
                    0 <= i < n,
                    0 <= j <= n,
                    dk == fw(seed, k as nat),
                    seed == square(old(table)@, nn),
                    is_square(dk, nn),
                    fw_ok(seed, k as nat),
                    k > 0 ==> forall|a: int| 0 <= a < n ==> not_negative(#[trigger] dk[a][a]),
                    (i > 0 || j > 0 || k > 0) ==> not_negative(dk[k as int][k as int]),
                    forall|a: int, b: int| 0 <= a < n && 0 <= b < n ==> #[trigger] at(table@, nn, a, b) == if a < i || (a == i && b < j) {
                        relax(dk, k as int, a, b)
                    } else {
                        dk[a][b]
                    },
                    forall|a: int| 0 <= a < i || (a == i && a < j) ==> not_negative(#[trigger] relax(dk, k as int, a, a)),
                    forall|a: int, b: int| (0 <= a < i && 0 <= b < n) || (a == i && 0 <= b < j) ==> fits(#[trigger] relax(dk, k as int, a, b)),
                decreases n - j,
            {
                proof {
                    lemma_flat_index(nn, i as int, k as int, 0, 0);
                    lemma_flat_index(nn, k as int, j as int, 0, 0);
                    lemma_flat_index(nn, i as int, j as int, 0, 0);
                    if k < j {
                        lemma_round_keeps_pivot(dk, k as int, i as int);
                    }
                    if k < i {
                        lemma_round_keeps_pivot(dk, k as int, j as int);
                    }
                }
                let pos = i * n + j;
                let ik = table[i * n + k];
                let kj = table[k * n + j];
                let cur = table[pos];
                assert(opt_int(ik) == dk[i as int][k as int]) by {
                    assert(at(table@, nn, i as int, k as int) == opt_int(ik));
                }
                assert(opt_int(kj) == dk[k as int][j as int]) by {
                    assert(at(table@, nn, k as int, j as int) == opt_int(kj));
                }
                assert(opt_int(cur) == dk[i as int][j as int]) by {
                    assert(at(table@, nn, i as int, j as int) == opt_int(cur));
                }
                let relaxed = relax_value(ik, kj, cur);
                let ghost want = relax(dk, k as int, i as int, j as int);
                assert(want == match relaxed {
                    Some(x) => Some(x as int),
                    None => None::<int>,
                });
                let ghost before = table@;
                if let Some(x) = relaxed {
                    if x < i64::MIN as i128 || x > i64::MAX as i128 {
                        proof {
                            assert(!fits(relax(fw(seed, k as nat), k as int, i as int, j as int)));
                            lemma_round_fails(seed, k as nat, n as nat);
                            let kk = k as int;
                            assert(fw(square(old(table)@, n as int), kk as nat) == dk);
                            assert(fw_ok(square(old(table)@, n as int), kk as nat));
                            assert(!fits(relax(fw(square(old(table)@, n as int), kk as nat), kk, i as int, j as int)));
                        }
                        return Err(StnError::Overflow);
                    }
                    if i == j && x < 0 {
                        proof {
                            assert(!not_negative(relax(fw(seed, k as nat), k as int, i as int, i as int)));
                            lemma_round_fails(seed, k as nat, n as nat);
                            let kk = k as int;
                            assert(fw(square(old(table)@, n as int), kk as nat) == dk);
                            assert(fw_ok(square(old(table)@, n as int), kk as nat));
                            assert(!not_negative(relax(fw(square(old(table)@, n as int), kk as nat), kk, i as int, i as int)));
                            lemma_negative_self_distance_on_cycle(seed, kk, i as int);
                            assert(on_negative_cycle(square(old(table)@, n as int), i as int));
                        }
                        return Err(StnError::NegativeCycle(ids[i]));
                    }
                    table.set(pos, Some(x as i64));
                    proof {
                        lemma_set_entry(before, table@, nn, i as int, j as int, Some(x as i64));
                    }
                }
                proof {
                    assert forall|a: int, b: int| 0 <= a < n && 0 <= b < n implies #[trigger] at(table@, nn, a, b) == if a < i || (a == i && b < j + 1) {
                        relax(dk, k as int, a, b)
                    } else {
                        dk[a][b]
                    } by {
                        assert(at(before, nn, a, b) == if a < i || (a == i && b < j) {
                            relax(dk, k as int, a, b)
                        } else {
                            dk[a][b]
                        });
                    }
                }
                j = j + 1;
            }
            i = i + 1;
        }
        proof {
            assert(round_ok(dk, k as int)) by {
                assert forall|a: int| 0 <= a < dk.len() implies not_negative(#[trigger] relax(dk, k as int, a, a)) by {}
            }
            assert(fw(seed, (k + 1) as nat) == fw_round(dk, k as int));
            assert(square(table@, nn) =~~= fw_round(dk, k as int)) by {
                assert forall|a: int| 0 <= a < nn implies #[trigger] square(table@, nn)[a] =~= fw_round(dk, k as int)[a] by {
                    assert forall|b: int| 0 <= b < nn implies #[trigger] square(table@, nn)[a][b] == fw_round(dk, k as int)[a][b] by {
                        assert(at(table@, nn, a, b) == relax(dk, k as int, a, b));
                    }
                }
            }
            assert forall|r: nat| r < k + 1 implies #[trigger] round_ok(fw(seed, r), r as int) by {
                if r < k {
                    assert(round_ok(fw(seed, r), r as int));
                }
            }
            assert forall|a: int| 0 <= a < n implies not_negative(#[trigger] fw(seed, (k + 1) as nat)[a][a]) by {
                assert(fw_round(dk, k as int)[a][a] == relax(dk, k as int, a, a));
            }
        }
        k = k + 1;
    }
    Ok(())
}

} // verus!
