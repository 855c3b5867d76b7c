//! The keep/drop resolver.
//!
//! A policy sorts the dice of a set — descending by value for `KeepHigh` and
//! `DropLow`, ascending for `KeepLow` and `DropHigh`, ties broken by original
//! position — and keeps a clamped number of dice from the front of that
//! order: `n` for the keeps, `k - n` for the drops, never fewer than 0 nor
//! more than `k`.  The total becomes the sum of the kept values.
//!
//! Rather than materialising the sorted order, [`resolve`] gives each die its
//! rank (how many dice sort strictly before it) and keeps exactly the dice
//! whose rank is below the clamped count, which marks the same dice.

use vstd::prelude::*;
use crate::dice::{DieRoll, DieRollV, RollSet, RollSetV, set_wf};
use crate::parse::KeepDrop;
use crate::{MAX_DICE, MAX_SIDES};

verus! {

/// The values of a set's dice, in order.
pub open spec fn die_values(dice: Seq<DieRollV>) -> Seq<u32> {
    dice.map(|i: int, d: DieRollV| d.value)
}

/// Policies that sort descending by value (highest first).
pub open spec fn hi_first(op: KeepDrop) -> bool {
    op == KeepDrop::KeepHigh || op == KeepDrop::DropLow
}

/// Whether die `i` sorts strictly before die `j` under `op`'s order: by value
/// in the policy's direction, ties broken by original position.
pub open spec fn sorts_before(vals: Seq<u32>, op: KeepDrop, i: int, j: int) -> bool {
    if hi_first(op) {
        vals[i] > vals[j] || (vals[i] == vals[j] && i < j)
    } else {
        vals[i] < vals[j] || (vals[i] == vals[j] && i < j)
    }
}

/// How many of the first `m` dice sort strictly before die `i`.
pub open spec fn rank_upto(vals: Seq<u32>, op: KeepDrop, i: int, m: int) -> int
    decreases m,
{
    if m <= 0 {
        0
    } else {
        rank_upto(vals, op, i, m - 1) + if sorts_before(vals, op, m - 1, i) {
            1int
        } else {
            0int
        }
    }
}

/// Die `i`'s position in the policy's sort order.
pub open spec fn rank(vals: Seq<u32>, op: KeepDrop, i: int) -> int {
    rank_upto(vals, op, i, vals.len() as int)
}

/// How many dice the policy keeps out of `k` when `n` were requested,
/// clamped into `[0, k]`: `min(n, k)` for the keeps, `max(k - n, 0)` for the
/// drops.
pub open spec fn keep_count(op: KeepDrop, n: int, k: int) -> int {
    let raw = if op == KeepDrop::KeepHigh || op == KeepDrop::KeepLow {
        n
    } else {
        k - n
    };
    if raw < 0 {
        0
    } else if raw > k {
        k
    } else {
        raw
    }
}

/// Whether die `i` is kept: its rank is below the clamped keep count.
pub open spec fn is_kept(vals: Seq<u32>, op: KeepDrop, n: int, i: int) -> bool {
    rank(vals, op, i) < keep_count(op, n, vals.len() as int)
}

/// Sum of the kept values among the first `m` dice.
pub open spec fn kept_sum_upto(vals: Seq<u32>, op: KeepDrop, n: int, m: int) -> int
    decreases m,
{
    if m <= 0 {
        0
    } else {
        kept_sum_upto(vals, op, n, m - 1) + if is_kept(vals, op, n, m - 1) {
            vals[m - 1] as int
        } else {
            0int
        }
    }
}

/// The resolved total: the sum of exactly the kept values.
pub open spec fn kept_total(vals: Seq<u32>, op: KeepDrop, n: int) -> int {
    kept_sum_upto(vals, op, n, vals.len() as int)
}

/// How many of the first `m` dice are kept.
pub open spec fn kept_count_upto(vals: Seq<u32>, op: KeepDrop, n: int, m: int) -> int
    decreases m,
{
    if m <= 0 {
        0
    } else {
        kept_count_upto(vals, op, n, m - 1) + if is_kept(vals, op, n, m - 1) {
            1int
        } else {
            0int
        }
    }
}

/// How many dice of the whole set are kept.
pub open spec fn kept_count(vals: Seq<u32>, op: KeepDrop, n: int) -> int {
    kept_count_upto(vals, op, n, vals.len() as int)
}

/// The state of a roll set after resolving it with `(op, n)`: values, order,
/// identifiers and source text untouched; every keep flag and the total are
/// functions of the values alone.
pub open spec fn resolved(sv: RollSetV, op: KeepDrop, n: int) -> RollSetV {
    let vals = die_values(sv.dice);
    RollSetV {
        dice: sv.dice.map(
            |i: int, d: DieRollV|
                DieRollV { value: d.value, keep: is_kept(vals, op, n, i), uuid: d.uuid },
        ),
        total: kept_total(vals, op, n) as u32,
        roll_string: sv.roll_string,
    }
}

/// The kept sum of well-bounded values stays far below `u32::MAX`.
pub proof fn lemma_kept_sum_bound(vals: Seq<u32>, op: KeepDrop, n: int, m: int)
    requires
        0 <= m <= vals.len(),
        forall|x: int| 0 <= x < vals.len() ==> #[trigger] vals[x] <= MAX_SIDES,
    ensures
        0 <= kept_sum_upto(vals, op, n, m) <= m * (MAX_SIDES as int),
    decreases m,
{
    if m > 0 {
        lemma_kept_sum_bound(vals, op, n, m - 1);
    }
}

fn keep_count_exec(op: KeepDrop, n: u32, k: usize) -> (kc: usize)
    requires
        k <= MAX_DICE,
    ensures
        kc as int == keep_count(op, n as int, k as int),
{
    let nn = n as usize;
    match op {
        KeepDrop::KeepHigh | KeepDrop::KeepLow => if nn < k {
            nn
        } else {
            k
        },
        KeepDrop::DropHigh | KeepDrop::DropLow => if nn <= k {
            k - nn
        } else {
            0
        },
    }
}

/// Applies the keep/drop policy `(op, n)` to `set` in place: re-tags every
/// die's keep flag and writes the sum of the kept values into `total`.
pub fn resolve(set: &mut RollSet, op: KeepDrop, n: u32)
    requires
        old(set).wf(),
    ensures
        final(set)@ == resolved(old(set)@, op, n as int),
        final(set).wf(),
{
    let ghost vals = die_values(old(set)@.dice);
    let k = set.dice.len();
    assert(vals.len() == k);
    let kc = keep_count_exec(op, n, k);
    let hi = match op {
        KeepDrop::KeepHigh | KeepDrop::DropLow => true,
        KeepDrop::KeepLow | KeepDrop::DropHigh => false,
    };
    let mut new_dice: Vec<DieRoll> = Vec::new();
    let mut total: u32 = 0;
    let mut i: usize = 0;
    while i < k
        invariant
            i <= k,
            *set == *old(set),
            old(set).wf(),
            k == set.dice@.len(),
            vals == die_values(old(set)@.dice),
            kc as int == keep_count(op, n as int, k as int),
            hi == hi_first(op),
            new_dice@.len() == i,
            forall|x: int|
                0 <= x < i ==> #[trigger] new_dice@[x]@ == resolved(old(set)@, op, n as int).dice[x],
            total as int == kept_sum_upto(vals, op, n as int, i as int),
            total as int <= i * (MAX_SIDES as int),
        decreases k - i,
    {
        let vi = set.dice[i].value;
        assert(vals[i as int] == vi);
        let mut cnt: usize = 0;
        let mut jj: usize = 0;
        while jj < k
            invariant
                jj <= k,
                i < k,
                *set == *old(set),
                k == set.dice@.len(),
                vals == die_values(old(set)@.dice),
                hi == hi_first(op),
                vi == vals[i as int],
                cnt as int == rank_upto(vals, op, i as int, jj as int),
                cnt <= jj,
            decreases k - jj,
        {
            let vj = set.dice[jj].value;
            assert(vals[jj as int] == vj);
            let before = if hi {
                vj > vi || (vj == vi && jj < i)
            } else {
                vj < vi || (vj == vi && jj < i)
            };
            assert(before == sorts_before(vals, op, jj as int, i as int));
            if before {
                cnt = cnt + 1;
            }
            jj = jj + 1;
        }
        let kept = cnt < kc;
        assert(kept == is_kept(vals, op, n as int, i as int));
        let u = set.dice[i].uuid.clone();
        new_dice.push(DieRoll { value: vi, keep: kept, uuid: u });
        if kept {
            proof {
                lemma_kept_sum_bound(vals, op, n as int, i as int);
                assert(vals[i as int] <= MAX_SIDES);
                assert((i + 1) * (MAX_SIDES as int) <= (MAX_DICE as int) * (MAX_SIDES as int));
            }
            total = total + vi;
        }
        i = i + 1;
        assert(total as int == kept_sum_upto(vals, op, n as int, i as int));
        assert(total as int <= i * (MAX_SIDES as int));
    }
    set.dice = new_dice;
    set.total = total;
    assert(set@.dice =~= resolved(old(set)@, op, n as int).dice);
    assert(set@ =~= resolved(old(set)@, op, n as int));
    assert(set.wf());
}

/// Resolving is idempotent: applying the same `(op, n)` to an
/// already-resolved set reproduces the identical keep flags and total,
/// because both are functions of the die values alone and resolving never
/// changes a value.
pub proof fn lemma_resolve_idempotent(sv: RollSetV, op: KeepDrop, n: int)
    ensures
        resolved(resolved(sv, op, n), op, n) == resolved(sv, op, n),
{
    let r1 = resolved(sv, op, n);
    assert(die_values(r1.dice) =~= die_values(sv.dice));
    assert(resolved(r1, op, n).dice =~= r1.dice);
    assert(resolved(r1, op, n) =~= r1);
}

// ---------------------------------------------------------------------------
// Counting: the ranks of a set's dice are exactly 0, 1, ..., k-1, so the
// policy keeps exactly the clamped number of dice.
// ---------------------------------------------------------------------------

proof fn lemma_rank_upto_bounds(vals: Seq<u32>, op: KeepDrop, i: int, m: int)
    requires
        m >= 0,
    ensures
        0 <= rank_upto(vals, op, i, m) <= m,
    decreases m,
{
    if m > 0 {
        lemma_rank_upto_bounds(vals, op, i, m - 1);
    }
}

/// If the dice sorting before `b` are exactly those sorting before `a` plus
/// `a` itself, then `b`'s rank is one more than `a`'s.
proof fn lemma_rank_upto_pair(vals: Seq<u32>, op: KeepDrop, a: int, b: int, m: int)
    requires
        m >= 0,
        forall|x: int|
            0 <= x < m ==> (sorts_before(vals, op, x, b) <==> (#[trigger] sorts_before(
                vals,
                op,
                x,
                a,
            ) || x == a)),
    ensures
        rank_upto(vals, op, b, m) == rank_upto(vals, op, a, m) + if 0 <= a < m {
            1int
        } else {
            0int
        },
    decreases m,
{
    if m > 0 {
        lemma_rank_upto_pair(vals, op, a, b, m - 1);
    }
}

/// A die before which every other die of `[0, m)` sorts has rank one short
/// of the whole range.
proof fn lemma_rank_upto_full(vals: Seq<u32>, op: KeepDrop, a: int, m: int)
    requires
        0 <= a < m,
        forall|x: int| 0 <= x < m && x != a ==> #[trigger] sorts_before(vals, op, x, a),
    ensures
        rank_upto(vals, op, a, m) == m - 1,
    decreases m,
{
    if m == a + 1 {
        lemma_rank_upto_all(vals, op, a, m - 1);
    } else {
        lemma_rank_upto_full(vals, op, a, m - 1);
    }
}

proof fn lemma_rank_upto_all(vals: Seq<u32>, op: KeepDrop, a: int, m: int)
    requires
        m >= 0,
        forall|x: int| 0 <= x < m ==> #[trigger] sorts_before(vals, op, x, a),
    ensures
        rank_upto(vals, op, a, m) == m,
    decreases m,
{
    if m > 0 {
        lemma_rank_upto_all(vals, op, a, m - 1);
    }
}

proof fn lemma_rank_upto_none(vals: Seq<u32>, op: KeepDrop, a: int, m: int)
    requires
        m >= 0,
        forall|x: int| 0 <= x < m ==> !(#[trigger] sorts_before(vals, op, x, a)),
    ensures
        rank_upto(vals, op, a, m) == 0,
    decreases m,
{
    if m > 0 {
        lemma_rank_upto_none(vals, op, a, m - 1);
    }
}

/// Whatever sorts before `a` (or is `a`) also sorts before `b`: `b`'s rank
/// strictly exceeds `a`'s when `a` lies in range.
proof fn lemma_rank_upto_mono_pair(vals: Seq<u32>, op: KeepDrop, a: int, b: int, m: int)
    requires
        m >= 0,
        forall|x: int|
            0 <= x < m ==> ((#[trigger] sorts_before(vals, op, x, a) || x == a) ==> sorts_before(
                vals,
                op,
                x,
                b,
            )),
    ensures
        rank_upto(vals, op, b, m) >= rank_upto(vals, op, a, m) + if 0 <= a < m {
            1int
        } else {
            0int
        },
    decreases m,
{
    if m > 0 {
        lemma_rank_upto_mono_pair(vals, op, a, b, m - 1);
    }
}

/// Sorting strictly before means a strictly smaller rank.
proof fn lemma_rank_strict_mono(vals: Seq<u32>, op: KeepDrop, i: int, j: int)
    requires
        0 <= i < vals.len(),
        0 <= j < vals.len(),
        sorts_before(vals, op, i, j),
    ensures
        rank(vals, op, i) < rank(vals, op, j),
{
    assert forall|x: int|
        0 <= x < vals.len() implies ((#[trigger] sorts_before(vals, op, x, i) || x == i)
        ==> sorts_before(vals, op, x, j)) by {}
    lemma_rank_upto_mono_pair(vals, op, i, j, vals.len() as int);
}

/// The index in `[0, m)` that sorts before every other one.
spec fn extremal_upto(vals: Seq<u32>, op: KeepDrop, m: int) -> int
    decreases m,
{
    if m <= 1 {
        0
    } else {
        if sorts_before(vals, op, m - 1, extremal_upto(vals, op, m - 1)) {
            m - 1
        } else {
            extremal_upto(vals, op, m - 1)
        }
    }
}

proof fn lemma_extremal(vals: Seq<u32>, op: KeepDrop, m: int)
    requires
        1 <= m,
    ensures
        0 <= extremal_upto(vals, op, m) < m,
        forall|x: int|
            0 <= x < m ==> !(#[trigger] sorts_before(vals, op, x, extremal_upto(vals, op, m))),
    decreases m,
{
    if m > 1 {
        lemma_extremal(vals, op, m - 1);
        let e0 = extremal_upto(vals, op, m - 1);
        let e = extremal_upto(vals, op, m);
        assert forall|x: int| 0 <= x < m implies !(#[trigger] sorts_before(vals, op, x, e)) by {
            assert(!sorts_before(vals, op, x, e0) || x == m - 1);
        }
    }
}

/// The first index of `[0, m)` that comes after `i` in the sort order, or -1
/// if none does.
spec fn succ_of(vals: Seq<u32>, op: KeepDrop, i: int, m: int) -> int
    decreases m,
{
    if m <= 0 {
        -1
    } else {
        let prev = succ_of(vals, op, i, m - 1);
        if sorts_before(vals, op, i, m - 1) {
            if prev == -1 {
                m - 1
            } else if sorts_before(vals, op, m - 1, prev) {
                m - 1
            } else {
                prev
            }
        } else {
            prev
        }
    }
}

proof fn lemma_succ(vals: Seq<u32>, op: KeepDrop, i: int, m: int)
    requires
        m >= 0,
    ensures
        succ_of(vals, op, i, m) == -1 ==> (forall|x: int|
            0 <= x < m ==> !(#[trigger] sorts_before(vals, op, i, x))),
        succ_of(vals, op, i, m) != -1 ==> 0 <= succ_of(vals, op, i, m) < m && sorts_before(
            vals,
            op,
            i,
            succ_of(vals, op, i, m),
        ) && (forall|x: int|
            0 <= x < m && #[trigger] sorts_before(vals, op, i, x) && x != succ_of(vals, op, i, m)
                ==> sorts_before(vals, op, succ_of(vals, op, i, m), x)),
    decreases m,
{
    if m > 0 {
        lemma_succ(vals, op, i, m - 1);
    }
}

/// Every rank in `[0, k)` is attained by some die.
proof fn lemma_rank_exists(vals: Seq<u32>, op: KeepDrop, c: int)
    requires
        0 <= c < vals.len(),
    ensures
        exists|i: int| 0 <= i < vals.len() && #[trigger] rank(vals, op, i) == c,
    decreases c,
{
    let k = vals.len() as int;
    if c == 0 {
        lemma_extremal(vals, op, k);
        let e = extremal_upto(vals, op, k);
        lemma_rank_upto_none(vals, op, e, k);
        assert(0 <= e < k && rank(vals, op, e) == 0);
    } else {
        lemma_rank_exists(vals, op, c - 1);
        let a = choose|i: int| 0 <= i < k && #[trigger] rank(vals, op, i) == c - 1;
        let sc = succ_of(vals, op, a, k);
        lemma_succ(vals, op, a, k);
        if sc == -1 {
            assert forall|x: int| 0 <= x < k && x != a implies #[trigger] sorts_before(
                vals,
                op,
                x,
                a,
            ) by {
                assert(!sorts_before(vals, op, a, x));
            }
            lemma_rank_upto_full(vals, op, a, k);
            assert(false);
        }
        assert forall|x: int|
            0 <= x < k implies (sorts_before(vals, op, x, sc) <==> (#[trigger] sorts_before(
            vals,
            op,
            x,
            a,
        ) || x == a)) by {
            if sorts_before(vals, op, x, sc) && x != a && !sorts_before(vals, op, x, a) {
                assert(sorts_before(vals, op, a, x));
                assert(x != sc ==> sorts_before(vals, op, sc, x));
            }
        }
        lemma_rank_upto_pair(vals, op, a, sc, k);
        assert(rank(vals, op, sc) == c);
    }
}

/// How many dice have a rank strictly below `c` among the first `m`.
spec fn rank_lt_count_upto(vals: Seq<u32>, op: KeepDrop, c: int, m: int) -> int
    decreases m,
{
    if m <= 0 {
        0
    } else {
        rank_lt_count_upto(vals, op, c, m - 1) + if rank(vals, op, m - 1) < c {
            1int
        } else {
            0int
        }
    }
}

/// How many dice have rank exactly `c` among the first `m`.
spec fn rank_eq_count_upto(vals: Seq<u32>, op: KeepDrop, c: int, m: int) -> int
    decreases m,
{
    if m <= 0 {
        0
    } else {
        rank_eq_count_upto(vals, op, c, m - 1) + if rank(vals, op, m - 1) == c {
            1int
        } else {
            0int
        }
    }
}

proof fn lemma_rank_lt_split(vals: Seq<u32>, op: KeepDrop, c: int, m: int)
    requires
        m >= 0,
    ensures
        rank_lt_count_upto(vals, op, c + 1, m) == rank_lt_count_upto(vals, op, c, m)
            + rank_eq_count_upto(vals, op, c, m),
    decreases m,
{
    if m > 0 {
        lemma_rank_lt_split(vals, op, c, m - 1);
    }
}

proof fn lemma_rank_lt_zero(vals: Seq<u32>, op: KeepDrop, m: int)
    requires
        m >= 0,
    ensures
        rank_lt_count_upto(vals, op, 0, m) == 0,
    decreases m,
{
    if m > 0 {
        lemma_rank_lt_zero(vals, op, m - 1);
        lemma_rank_upto_bounds(vals, op, m - 1, vals.len() as int);
    }
}

proof fn lemma_rank_eq_one(vals: Seq<u32>, op: KeepDrop, c: int, w: int, m: int)
    requires
        0 <= m <= vals.len(),
        0 <= w < vals.len(),
        rank(vals, op, w) == c,
        forall|x: int| 0 <= x < vals.len() && #[trigger] rank(vals, op, x) == c ==> x == w,
    ensures
        rank_eq_count_upto(vals, op, c, m) == if w < m {
            1int
        } else {
            0int
        },
    decreases m,
{
    if m > 0 {
        lemma_rank_eq_one(vals, op, c, w, m - 1);
        if rank(vals, op, m - 1) == c {
            assert(m - 1 == w);
        }
    }
}

/// Exactly `c` dice have a rank below `c`, for every `c` up to the set size.
proof fn lemma_rank_lt_count(vals: Seq<u32>, op: KeepDrop, c: int)
    requires
        0 <= c <= vals.len(),
    ensures
        rank_lt_count_upto(vals, op, c, vals.len() as int) == c,
    decreases c,
{
    let k = vals.len() as int;
    if c == 0 {
        lemma_rank_lt_zero(vals, op, k);
    } else {
        lemma_rank_lt_count(vals, op, c - 1);
        lemma_rank_exists(vals, op, c - 1);
        let w = choose|i: int| 0 <= i < k && #[trigger] rank(vals, op, i) == c - 1;
        assert forall|x: int|
            0 <= x < k && #[trigger] rank(vals, op, x) == c - 1 implies x == w by {
            if x != w {
                if sorts_before(vals, op, x, w) {
                    lemma_rank_strict_mono(vals, op, x, w);
                } else {
                    assert(sorts_before(vals, op, w, x));
                    lemma_rank_strict_mono(vals, op, w, x);
                }
            }
        }
        lemma_rank_eq_one(vals, op, c - 1, w, k);
        lemma_rank_lt_split(vals, op, c - 1, k);
    }
}

proof fn lemma_kept_is_rank_lt(vals: Seq<u32>, op: KeepDrop, n: int, m: int)
    requires
        m >= 0,
    ensures
        kept_count_upto(vals, op, n, m) == rank_lt_count_upto(
            vals,
            op,
            keep_count(op, n, vals.len() as int),
            m,
        ),
    decreases m,
{
    if m > 0 {
        lemma_kept_is_rank_lt(vals, op, n, m - 1);
    }
}

/// The policy keeps exactly `keep_count(op, n, k)` dice — `min(n, k)` for
/// `KeepHigh` and `KeepLow`, `max(k - n, 0)` for the drops — and every kept
/// die sorts before every dropped one, so the kept dice are exactly the
/// front of the policy's order, ties broken by original position.
pub proof fn lemma_resolve_keeps_exactly(vals: Seq<u32>, op: KeepDrop, n: int)
    requires
        n >= 0,
    ensures
        kept_count(vals, op, n) == keep_count(op, n, vals.len() as int),
        forall|i: int, j: int|
            0 <= i < vals.len() && 0 <= j < vals.len() && #[trigger] is_kept(vals, op, n, i) && !(
            #[trigger] is_kept(vals, op, n, j)) ==> sorts_before(vals, op, i, j),
{
    let k = vals.len() as int;
    let kc = keep_count(op, n, k);
    lemma_kept_is_rank_lt(vals, op, n, k);
    lemma_rank_lt_count(vals, op, kc);
    assert forall|i: int, j: int|
        0 <= i < k && 0 <= j < k && #[trigger] is_kept(vals, op, n, i) && !(#[trigger] is_kept(
        vals,
        op,
        n,
        j,
    )) implies sorts_before(vals, op, i, j) by {
        if !sorts_before(vals, op, i, j) {
            assert(i != j);
            assert(sorts_before(vals, op, j, i));
            lemma_rank_strict_mono(vals, op, j, i);
        }
    }
}

} // verus!
