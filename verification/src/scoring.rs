use vstd::prelude::*;

use crate::constants::DAMAGE_BUCKETS;

verus! {

/// Slot of the four-tick prayer cycle that a tick falls in: `tick mod 4`.
pub open spec fn prayer_slot_spec(tick: int) -> int {
    tick % 4
}

/// Slot of the four-tick prayer cycle that a tick falls in.
pub fn prayer_slot(tick: i32) -> (r: usize)
    ensures
        r == prayer_slot_spec(tick as int),
        r < 4,
{
    // The low two bits of the tick, read as unsigned.
    let t: i64 = tick as i64 + 0x1_0000_0000i64;
    proof {
        vstd::arithmetic::div_mod::lemma_mod_multiples_vanish(0x4000_0000, tick as int, 4);
    }
    (t % 4) as usize
}

/// Slots repeat every four ticks.
pub proof fn lemma_prayer_slot_period(tick: int)
    ensures
        prayer_slot_spec(tick + 4) == prayer_slot_spec(tick),
        0 <= prayer_slot_spec(tick) < 4,
{
    vstd::arithmetic::div_mod::lemma_mod_add_multiples_vanish(tick, 4);
}

/// Histogram bucket of a damage: `floor(damage * 20 / max(max_damage, 1))`, clamped to `0..20`.
pub open spec fn damage_bucket_spec(damage: int, max_damage: int) -> int {
    let m = if max_damage >= 1 { max_damage } else { 1 };
    let q = (damage * (DAMAGE_BUCKETS as int)) / m;
    if q < 0 { 0 } else if q > DAMAGE_BUCKETS - 1 { DAMAGE_BUCKETS - 1 } else { q }
}

/// Histogram bucket of a damage relative to the largest damage.
pub fn damage_bucket(damage: i32, max_damage: i32) -> (r: usize)
    ensures
        r == damage_bucket_spec(damage as int, max_damage as int),
        r < DAMAGE_BUCKETS,
{
    let m: i64 = if max_damage >= 1 { max_damage as i64 } else { 1 };
    let num: i64 = (damage as i64) * 20;
    if num < 0 {
        proof {
            assert((num as int) / (m as int) < 0) by (nonlinear_arith)
                requires num < 0, m >= 1;
        }
        return 0;
    }
    let q: i64 = num / m;
    if q > 19 {
        19
    } else {
        q as usize
    }
}

/// A larger damage never falls in a lower bucket.
pub proof fn lemma_damage_bucket_monotonic(d1: int, d2: int, max_damage: int)
    requires
        d1 <= d2,
    ensures
        damage_bucket_spec(d1, max_damage) <= damage_bucket_spec(d2, max_damage),
{
    let m = if max_damage >= 1 { max_damage } else { 1 };
    assert(d1 * 20 <= d2 * 20);
    vstd::arithmetic::div_mod::lemma_div_is_ordered(d1 * 20, d2 * 20, m);
}

/// The slot that a vote count picks: the first slot with the strictly greatest
/// positive count, or none when no count is positive.
pub open spec fn best_vote_slot_spec(votes: Seq<i32>, r: Option<usize>) -> bool {
    match r {
        Some(i) => i < 4 && votes[i as int] > 0
            && (forall|j: int| 0 <= j < i ==> #[trigger] votes[j] < votes[i as int])
            && (forall|j: int| i < j < 4 ==> #[trigger] votes[j] <= votes[i as int]),
        None => forall|j: int| 0 <= j < 4 ==> #[trigger] votes[j] <= 0,
    }
}

/// The first slot with the strictly greatest positive vote count.
pub fn best_vote_slot(votes: &[i32; 4]) -> (r: Option<usize>)
    ensures
        best_vote_slot_spec(votes@, r),
{
    let mut best: Option<usize> = None;
    let mut best_count: i32 = 0;
    let mut idx: usize = 0;
    while idx < 4
        invariant
            idx <= 4,
            votes@.len() == 4,
            best is None ==> best_count == 0 && forall|j: int| 0 <= j < idx ==> #[trigger] votes@[j] <= 0,
            best matches Some(b) ==> b < idx && best_count == votes@[b as int] && best_count > 0
                && (forall|j: int| 0 <= j < b ==> #[trigger] votes@[j] < best_count)
                && (forall|j: int| b < j < idx ==> #[trigger] votes@[j] <= best_count),
        decreases 4 - idx,
    {
        let count: i32 = votes[idx];
        if count > best_count {
            best_count = count;
            best = Some(idx);
        }
        idx = idx + 1;
    }
    best
}

} // verus!
