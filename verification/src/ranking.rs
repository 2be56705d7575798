use vstd::prelude::*;

use std::cmp::Ordering;

use crate::summary::{Average, TileSummary};
use crate::types::Point;

verus! {

/// A tile with its summary.
#[derive(Clone, Copy, Debug)]
pub struct RankedTileSummary {
    pub tile: Point,
    pub summary: TileSummary,
}

/// Numerator of an average's value (its fallback when it has no count).
pub open spec fn avg_num(a: Average) -> int {
    if a.count == 0 { a.fallback as int } else { a.sum as int }
}

/// Denominator of an average's value.
pub open spec fn avg_den(a: Average) -> int {
    if a.count == 0 { 1 } else { a.count as int }
}

/// Whether one average's value is below another's.
pub open spec fn avg_below(a: Average, b: Average) -> bool {
    avg_num(a) * avg_den(b) < avg_num(b) * avg_den(a)
}

/// Whether a ranked tile comes strictly before another: lower average damage, then
/// fewer average ticks, then the smaller column, then the smaller row.
pub open spec fn ranks_before(a: RankedTileSummary, b: RankedTileSummary) -> bool {
    if avg_below(a.summary.avg_damage, b.summary.avg_damage) {
        true
    } else if avg_below(b.summary.avg_damage, a.summary.avg_damage) {
        false
    } else if avg_below(a.summary.avg_ticks, b.summary.avg_ticks) {
        true
    } else if avg_below(b.summary.avg_ticks, a.summary.avg_ticks) {
        false
    } else if a.tile.x < b.tile.x {
        true
    } else if b.tile.x < a.tile.x {
        false
    } else {
        a.tile.y < b.tile.y
    }
}

/// Whether one average's value is below another's, by cross-multiplication.
pub fn average_below(a: Average, b: Average) -> (r: bool)
    ensures
        r == avg_below(a, b),
{
    let an: i128 = if a.count == 0 { a.fallback as i128 } else { a.sum as i128 };
    let ad: i128 = if a.count == 0 { 1 } else { a.count as i128 };
    let bn: i128 = if b.count == 0 { b.fallback as i128 } else { b.sum as i128 };
    let bd: i128 = if b.count == 0 { 1 } else { b.count as i128 };
    assert(-0x8000_0000_0000_0000 * 0xFFFF_FFFF_FFFF_FFFF <= an * bd <= 0x7FFF_FFFF_FFFF_FFFF * 0xFFFF_FFFF_FFFF_FFFF) by (nonlinear_arith)
        requires -0x8000_0000_0000_0000 <= an <= 0x7FFF_FFFF_FFFF_FFFF, 0 < bd <= 0xFFFF_FFFF_FFFF_FFFF;
    assert(-0x8000_0000_0000_0000 * 0xFFFF_FFFF_FFFF_FFFF <= bn * ad <= 0x7FFF_FFFF_FFFF_FFFF * 0xFFFF_FFFF_FFFF_FFFF) by (nonlinear_arith)
        requires -0x8000_0000_0000_0000 <= bn <= 0x7FFF_FFFF_FFFF_FFFF, 0 < ad <= 0xFFFF_FFFF_FFFF_FFFF;
    an * bd < bn * ad
}

/// Whether `a` ranks strictly before `b`.
pub fn ranked_before(a: &RankedTileSummary, b: &RankedTileSummary) -> (r: bool)
    ensures
        r == ranks_before(*a, *b),
{
    if average_below(a.summary.avg_damage, b.summary.avg_damage) {
        true
    } else if average_below(b.summary.avg_damage, a.summary.avg_damage) {
        false
    } else if average_below(a.summary.avg_ticks, b.summary.avg_ticks) {
        true
    } else if average_below(b.summary.avg_ticks, a.summary.avg_ticks) {
        false
    } else if a.tile.x < b.tile.x {
        true
    } else if b.tile.x < a.tile.x {
        false
    } else {
        a.tile.y < b.tile.y
    }
}

/// Three-way comparison of two ranked tiles, in ranking order.
pub fn compare_tile_summary(a_tile: Point, a_summary: &TileSummary, b_tile: Point, b_summary: &TileSummary)
    -> (r: Ordering)
    ensures
        (r == Ordering::Less) == ranks_before(
            (RankedTileSummary { tile: a_tile, summary: *a_summary }),
            (RankedTileSummary { tile: b_tile, summary: *b_summary })),
        (r == Ordering::Greater) == ranks_before(
            (RankedTileSummary { tile: b_tile, summary: *b_summary }),
            (RankedTileSummary { tile: a_tile, summary: *a_summary })),
{
    let a = RankedTileSummary { tile: a_tile, summary: *a_summary };
    let b = RankedTileSummary { tile: b_tile, summary: *b_summary };
    proof { lemma_ranks_before_order(a, b, a); }
    if ranked_before(&a, &b) {
        Ordering::Less
    } else if ranked_before(&b, &a) {
        Ordering::Greater
    } else {
        Ordering::Equal
    }
}

/// Tiles rank by the value of their average damage, a sum over a count of simulations:
/// with simulations on both sides, a tile whose damage per simulation is lower
/// (`sum_a / count_a < sum_b / count_b`) ranks first, whatever the two counts; and two
/// tiles with the same damage per simulation are ranked by their ticks per simulation.
pub proof fn law_rank_by_average_damage(a: RankedTileSummary, b: RankedTileSummary)
    requires
        a.summary.avg_damage.count > 0,
        b.summary.avg_damage.count > 0,
    ensures
        a.summary.avg_damage.sum * b.summary.avg_damage.count < b.summary.avg_damage.sum * a.summary.avg_damage.count
            ==> ranks_before(a, b) && !ranks_before(b, a),
        a.summary.avg_damage.sum * b.summary.avg_damage.count == b.summary.avg_damage.sum * a.summary.avg_damage.count
            && a.summary.avg_ticks.count > 0 && b.summary.avg_ticks.count > 0
            && a.summary.avg_ticks.sum * b.summary.avg_ticks.count < b.summary.avg_ticks.sum * a.summary.avg_ticks.count
            ==> ranks_before(a, b) && !ranks_before(b, a),
{
}

/// An average with simulations has the value `sum / count`: it lies below another with
/// simulations exactly when `sum_a * count_b < sum_b * count_a`, and two averages over
/// different counts with the same value are neither below the other.
pub proof fn law_average_value(a: Average, b: Average)
    requires
        a.count > 0,
        b.count > 0,
    ensures
        avg_below(a, b) <==> a.sum * b.count < b.sum * a.count,
        a.sum * b.count == b.sum * a.count ==> !avg_below(a, b) && !avg_below(b, a),
{
}

/// An average over no simulations takes its fallback as its value.
pub proof fn law_average_fallback(a: Average, b: Average)
    ensures
        a.count == 0 && b.count > 0 ==> (avg_below(a, b) <==> a.fallback * b.count < b.sum),
        a.count > 0 && b.count == 0 ==> (avg_below(a, b) <==> a.sum < b.fallback * a.count),
        a.count == 0 && b.count == 0 ==> (avg_below(a, b) <==> a.fallback < b.fallback),
{
}

/// Tiles with the same damage and ticks per simulation rank by column, then by row; a
/// tile never ranks before itself.
pub proof fn law_rank_ties_by_position(a: RankedTileSummary, b: RankedTileSummary)
    requires
        !avg_below(a.summary.avg_damage, b.summary.avg_damage),
        !avg_below(b.summary.avg_damage, a.summary.avg_damage),
        !avg_below(a.summary.avg_ticks, b.summary.avg_ticks),
        !avg_below(b.summary.avg_ticks, a.summary.avg_ticks),
    ensures
        ranks_before(a, b) <==> (a.tile.x < b.tile.x || (a.tile.x == b.tile.x && a.tile.y < b.tile.y)),
        !ranks_before(a, a),
{
}

/// Being below is a strict weak order on averages: never both ways, and "not below"
/// chains.
pub proof fn lemma_avg_below_order(a: Average, b: Average, c: Average)
    ensures
        !(avg_below(a, b) && avg_below(b, a)),
        !avg_below(b, a) && !avg_below(c, b) ==> !avg_below(c, a),
        !avg_below(a, b) && !avg_below(b, a) && !avg_below(b, c) && !avg_below(c, b) ==> !avg_below(a, c) && !avg_below(c, a),
{
    let (x, p) = (avg_num(a), avg_den(a));
    let (y, q) = (avg_num(b), avg_den(b));
    let (z, s) = (avg_num(c), avg_den(c));
    assert(p > 0 && q > 0 && s > 0);
    assert(x * q <= y * p && y * s <= z * q ==> x * s <= z * p) by (nonlinear_arith)
        requires p > 0, q > 0, s > 0;
    assert(x * q == y * p && y * s == z * q ==> x * s == z * p) by (nonlinear_arith)
        requires p > 0, q > 0, s > 0;
}

/// Ranking is a strict weak order: never both ways, and "not before" chains.
pub proof fn lemma_ranks_before_order(a: RankedTileSummary, b: RankedTileSummary, c: RankedTileSummary)
    ensures
        !(ranks_before(a, b) && ranks_before(b, a)),
        !ranks_before(b, a) && !ranks_before(c, b) ==> !ranks_before(c, a),
{
    let (da, db, dc) = (a.summary.avg_damage, b.summary.avg_damage, c.summary.avg_damage);
    let (ta, tb, tc) = (a.summary.avg_ticks, b.summary.avg_ticks, c.summary.avg_ticks);
    lemma_avg_below_order(da, db, dc);
    lemma_avg_below_order(da, dc, db);
    lemma_avg_below_order(db, da, dc);
    lemma_avg_below_order(db, dc, da);
    lemma_avg_below_order(dc, da, db);
    lemma_avg_below_order(dc, db, da);
    lemma_avg_below_order(ta, tb, tc);
    lemma_avg_below_order(ta, tc, tb);
    lemma_avg_below_order(tb, ta, tc);
    lemma_avg_below_order(tb, tc, ta);
    lemma_avg_below_order(tc, ta, tb);
    lemma_avg_below_order(tc, tb, ta);
}

/// Where a tile goes into a ranking: after every entry it does not rank before, before
/// every entry it ranks before.
pub open spec fn insert_point(top: Seq<RankedTileSummary>, item: RankedTileSummary, p: int) -> bool {
    &&& 0 <= p <= top.len()
    &&& forall|i: int| 0 <= i < p ==> !ranks_before(item, #[trigger] top[i])
    &&& forall|i: int| p <= i < top.len() ==> ranks_before(item, #[trigger] top[i])
}

/// A ranking in which no tile ranks before an earlier one.
pub open spec fn ranking_sorted(top: Seq<RankedTileSummary>) -> bool {
    forall|i: int, j: int| 0 <= i < j < top.len() ==> !ranks_before(#[trigger] top[j], #[trigger] top[i])
}

/// Whether `top` holds the best of `seen`: a seen tile that ranks before a kept one is
/// kept itself, and while fewer than `limit` are kept, every seen tile is.
pub open spec fn top_of(top: Seq<RankedTileSummary>, seen: Seq<RankedTileSummary>, limit: int) -> bool {
    &&& forall|j: int, i: int| 0 <= j < seen.len() && 0 <= i < top.len() && #[trigger] ranks_before(seen[j], top[i])
        ==> top.contains(seen[j])
    &&& top.len() < limit ==> forall|j: int| 0 <= j < seen.len() ==> top.contains(#[trigger] seen[j])
}

/// Ranking is transitive.
proof fn lemma_ranks_before_trans(a: RankedTileSummary, b: RankedTileSummary, c: RankedTileSummary)
    requires
        ranks_before(a, b),
        ranks_before(b, c),
    ensures
        ranks_before(a, c),
{
    lemma_ranks_before_order(a, b, c);
    lemma_ranks_before_order(a, c, b);
    lemma_ranks_before_order(b, c, a);
    lemma_ranks_before_order(c, a, b);
    lemma_ranks_before_order(b, a, c);
    lemma_ranks_before_order(c, b, a);
}

/// Inserting at an insertion point keeps a ranking sorted.
proof fn lemma_insert_sorted(top: Seq<RankedTileSummary>, item: RankedTileSummary, p: int)
    requires
        ranking_sorted(top),
        insert_point(top, item, p),
    ensures
        ranking_sorted(top.insert(p, item)),
{
    let s = top.insert(p, item);
    assert forall|i: int, j: int| 0 <= i < j < s.len() implies !ranks_before(#[trigger] s[j], #[trigger] s[i]) by {
        if i == p {
            assert(s[j] == top[j - 1]);
            assert(ranks_before(item, top[j - 1]));
            lemma_ranks_before_order(item, top[j - 1], item);
        } else if j == p {
            assert(s[i] == top[i]);
        } else {
            let i0 = if i < p { i } else { i - 1 };
            let j0 = if j < p { j } else { j - 1 };
            assert(s[i] == top[i0] && s[j] == top[j0]);
        }
    }
}

/// Inserting the next seen tile keeps the ranking the best of the seen tiles.
pub proof fn lemma_insert_keeps_best(top: Seq<RankedTileSummary>, seen: Seq<RankedTileSummary>, item: RankedTileSummary,
    limit: int, p: int, new: Seq<RankedTileSummary>)
    requires
        ranking_sorted(top),
        top.len() <= limit,
        top_of(top, seen, limit),
        insert_point(top, item, p),
        p < limit ==> new == top.insert(p, item).take(if top.len() + 1 > limit { limit } else { top.len() + 1int }),
        p >= limit ==> new == top,
    ensures
        top_of(new, seen.push(item), limit),
{
    let sn = seen.push(item);
    if p >= limit {
        assert forall|j: int, i: int| 0 <= j < sn.len() && 0 <= i < new.len() && #[trigger] ranks_before(sn[j], new[i])
            implies new.contains(sn[j]) by {
            if j < seen.len() {
                assert(sn[j] == seen[j]);
            } else {
                assert(sn[j] == item);
                assert(!ranks_before(item, top[i]));
            }
        }
    } else {
        let ins = top.insert(p, item);
        let m = if top.len() + 1 > limit { limit } else { top.len() + 1int };
        lemma_insert_sorted(top, item, p);
        assert(new[p] == item);
        assert forall|m0: int| 0 <= m0 < p implies new[m0] == #[trigger] top[m0] by {}
        assert forall|j: int, i: int| 0 <= j < sn.len() && 0 <= i < new.len() && #[trigger] ranks_before(sn[j], new[i])
            implies new.contains(sn[j]) by {
            let x = sn[j];
            if j == seen.len() {
                assert(x == item);
            } else {
                assert(x == seen[j]);
                if i == p {
                    if p < top.len() {
                        assert(ranks_before(item, top[p]));
                        lemma_ranks_before_trans(x, item, top[p]);
                        assert(ranks_before(seen[j], top[p]));
                        assert(top.contains(x));
                    } else {
                        assert(top.len() < limit);
                        assert(top.contains(seen[j]));
                    }
                    let mm = choose|mm: int| 0 <= mm < top.len() && top[mm] == x;
                    if mm >= p {
                        assert(ranks_before(item, top[mm]));
                        lemma_ranks_before_order(x, item, x);
                    }
                    assert(new[mm] == x);
                } else {
                    let i0 = if i < p { i } else { i - 1 };
                    assert(new[i] == ins[i] && ins[i] == top[i0]);
                    assert(ranks_before(seen[j], top[i0]));
                    assert(top.contains(x));
                    let mm = choose|mm: int| 0 <= mm < top.len() && top[mm] == x;
                    let k = if mm < p { mm } else { mm + 1 };
                    assert(ins[k] == x);
                    if k < m {
                        assert(new[k] == x);
                    } else {
                        assert(k == top.len() && m == limit && i < k);
                        assert(!ranks_before(ins[k], ins[i]));
                    }
                }
            }
        }
        if new.len() < limit {
            assert(top.len() < limit);
            assert forall|j: int| 0 <= j < sn.len() implies new.contains(#[trigger] sn[j]) by {
                if j < seen.len() {
                    assert(sn[j] == seen[j]);
                    assert(top.contains(seen[j]));
                    let mm = choose|mm: int| 0 <= mm < top.len() && top[mm] == seen[j];
                    let k = if mm < p { mm } else { mm + 1 };
                    assert(new[k] == ins[k]);
                } else {
                    assert(sn[j] == item);
                }
            }
        }
    }
}

/// Inserts a ranked tile into a ranking kept to `limit` entries: after every entry it
/// does not rank before (so equal tiles keep their arrival order); an entry pushed past
/// the limit drops out, and a tile that would land past it is not inserted.
pub fn insert_ranked_tile_summary(top: &mut Vec<RankedTileSummary>, limit: usize, item: RankedTileSummary)
    requires
        ranking_sorted(old(top)@),
        old(top)@.len() <= limit,
    ensures
        ranking_sorted(final(top)@),
        final(top)@.len() <= limit,
        final(top)@.len() == if old(top)@.len() < limit { old(top)@.len() + 1int } else { limit as int },
        forall|k: int| 0 <= k < final(top)@.len() ==> #[trigger] final(top)@[k] == item || old(top)@.contains(final(top)@[k]),
        exists|p: int| #[trigger] insert_point(old(top)@, item, p),
        ({
            let p = choose|p: int| #[trigger] insert_point(old(top)@, item, p);
            &&& p < limit ==> final(top)@ == old(top)@.insert(p, item).take(
                if old(top)@.len() + 1 > limit { limit as int } else { old(top)@.len() + 1int })
            &&& p >= limit ==> final(top)@ == old(top)@
        }),
{
    if limit == 0 {
        proof {
            assert(insert_point(top@, item, 0));
        }
        return;
    }
    let ghost t0 = top@;
    let mut insert_at: usize = top.len();
    while insert_at > 0 && ranked_before(&item, &top[insert_at - 1])
        invariant
            insert_at <= top@.len(),
            top@ == t0,
            forall|i: int| insert_at <= i < t0.len() ==> ranks_before(item, #[trigger] t0[i]),
        decreases insert_at,
    {
        insert_at = insert_at - 1;
    }
    proof {
        assert forall|i: int| 0 <= i < insert_at implies !ranks_before(item, #[trigger] t0[i]) by {
            lemma_ranks_before_order(t0[i], t0[insert_at - 1], item);
            if i < insert_at - 1 {
                assert(!ranks_before(t0[insert_at - 1], t0[i]));
            }
        }
        assert(insert_point(t0, item, insert_at as int));
        let p = choose|p: int| #[trigger] insert_point(t0, item, p);
        assert(p == insert_at) by {
            if p < insert_at {
                assert(ranks_before(item, t0[p]));
            } else if p > insert_at {
                assert(ranks_before(item, t0[insert_at as int]));
            }
        }
    }
    if insert_at >= limit {
        return;
    }
    top.insert(insert_at, item);
    proof {
        let t1 = top@;
        assert(t1 == t0.insert(insert_at as int, item));
        assert forall|i: int, j: int| 0 <= i < j < t1.len() implies !ranks_before(#[trigger] t1[j], #[trigger] t1[i]) by {
            if j < insert_at {
                assert(t1[i] == t0[i] && t1[j] == t0[j]);
            } else if j == insert_at {
                assert(t1[i] == t0[i]);
            } else if i < insert_at {
                assert(t1[i] == t0[i] && t1[j] == t0[j - 1]);
                lemma_ranks_before_order(t0[i], item, t0[j - 1]);
                lemma_ranks_before_order(item, t0[j - 1], t0[j - 1]);
            } else if i == insert_at {
                assert(t1[j] == t0[j - 1]);
                lemma_ranks_before_order(item, t0[j - 1], item);
            } else {
                assert(t1[i] == t0[i - 1] && t1[j] == t0[j - 1]);
            }
        }
    }
    proof {
        let t1 = top@;
        assert forall|k: int| 0 <= k < t1.len() implies #[trigger] t1[k] == item || t0.contains(t1[k]) by {
            if k < insert_at {
                assert(t1[k] == t0[k]);
            } else if k > insert_at {
                assert(t1[k] == t0[k - 1]);
            }
        }
    }
    if top.len() > limit {
        let ghost t1 = top@;
        top.pop();
        proof {
            assert(top@ =~= t0.insert(insert_at as int, item).take(limit as int));
            assert forall|k: int| 0 <= k < top@.len() implies #[trigger] top@[k] == item || t0.contains(top@[k]) by {
                assert(top@[k] == t1[k]);
            }
        }
    } else {
        proof {
            assert(top@ =~= t0.insert(insert_at as int, item).take(t0.len() + 1int));
        }
    }
}

} // verus!
