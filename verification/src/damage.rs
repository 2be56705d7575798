use vstd::prelude::*;

use crate::constants::{MAX_MOB_IDS, MOB_TYPE_COUNT};
use crate::events::{AttackEvent, MobInit, decode_id_spec, decode_i16_spec, decode_style_spec};
use crate::loadout::{AttackStats, attack_stats_ok, Loadout, loadout_ok, attack_style_idx, attack_style_index, blood_max_hp_spec,
    blood_heal_fraction, loadout_blood_heal, loadout_blood_max_hp};
use crate::queue::{first_where, DamageResult, PendingMobRemoval, PendingMobRemovalQueue, PendingHit,
    PendingPlayerHitQueue, PendingRecoilQueue, SmallQueue};
use crate::rng::{roll_below, scale_roll, scale_roll_spec};
use crate::scoring::{prayer_slot, prayer_slot_spec};
use crate::types::{Prayer, Style};

verus! {

/// Whether a per-id flag is set (ids beyond the table are unset).
pub open spec fn flag_at(t: Seq<bool>, id: int) -> bool {
    0 <= id < t.len() && t[id]
}

fn flag_get(t: &[bool; 64], id: usize) -> (r: bool)
    ensures
        r == flag_at(t@, id as int),
{
    if id < 64 { t[id] } else { false }
}

// ---------------------------------------------------------------- pending removals

/// Position, in a sequence of removals, of the first one for a monster id.
pub open spec fn first_removal_of(items: Seq<PendingMobRemoval>, mob_id: usize) -> int {
    choose|k: int| 0 <= k < items.len() && items[k].mob_id == mob_id
        && forall|j: int| 0 <= j < k ==> #[trigger] items[j].mob_id != mob_id
}

/// Whether some removal is pending for a monster id.
pub open spec fn removal_pending(items: Seq<PendingMobRemoval>, mob_id: usize) -> bool {
    exists|k: int| 0 <= k < items.len() && #[trigger] items[k].mob_id == mob_id
}

/// The parts of a queue after pushing an item.
pub open spec fn pushed_parts<T: Copy, const N: usize>(q: SmallQueue<T, N>, item: T) -> (Seq<T>, Seq<T>) {
    if q.inline@.len() < N { (q.inline@.push(item), q.overflow@) } else { (q.inline@, q.overflow@.push(item)) }
}

/// Where the first item that names a monster is a queued removal, it is the first
/// removal of that monster.
proof fn lemma_first_removal_where(items: Seq<PendingMobRemoval>, mob_id: usize, p: spec_fn(PendingMobRemoval) -> bool)
    requires
        forall|r: PendingMobRemoval| #[trigger] p(r) == (r.mob_id == mob_id),
        0 <= first_where(items, p) < items.len(),
    ensures
        removal_pending(items, mob_id),
        first_removal_of(items, mob_id) == first_where(items, p),
{
    let k = first_where(items, p);
    assert(p(items[k]) && forall|j: int| 0 <= j < k ==> !p(#[trigger] items[j]));
    assert(items[k].mob_id == mob_id);
    assert(removal_pending(items, mob_id));
    assert forall|j: int| 0 <= j < k implies #[trigger] items[j].mob_id != mob_id by {
        assert(!p(items[j]));
    }
    let f = first_removal_of(items, mob_id);
    if f < k { assert(items[f].mob_id != mob_id); }
    if f > k { assert(items[k].mob_id == mob_id); }
}

/// The parts of the removal queue after scheduling monster `id`'s removal one tick after
/// `hit_tick`: nothing for a dead monster; its first pending removal keeps the earlier
/// tick; else a new removal goes to the inline part while it has room, else overflows.
pub open spec fn schedule_parts(inl: Seq<PendingMobRemoval>, ovf: Seq<PendingMobRemoval>, dead: Seq<bool>, id: usize,
    hit_tick: int) -> (Seq<PendingMobRemoval>, Seq<PendingMobRemoval>)
{
    let items = inl + ovf;
    if flag_at(dead, id as int) {
        (inl, ovf)
    } else if removal_pending(items, id) {
        let k = first_removal_of(items, id);
        let old_t = items[k].tick;
        let r = PendingMobRemoval { tick: if old_t <= hit_tick + 1 { old_t } else { (hit_tick + 1) as i32 }, mob_id: id };
        if k < inl.len() { (inl.update(k, r), ovf) } else { (inl, ovf.update(k - inl.len(), r)) }
    } else {
        let r = PendingMobRemoval { tick: (hit_tick + 1) as i32, mob_id: id };
        if inl.len() < 16 { (inl.push(r), ovf) } else { (inl, ovf.push(r)) }
    }
}

/// Schedules the removal of monster `mob_id` one tick after `hit_tick`, unless it is
/// already dead: an earlier pending removal of it keeps the earlier tick.
pub fn schedule_mob_removal(mob_id: usize, hit_tick: i32, dead_mobs: &[bool; 64], pending_mob_removals: &mut PendingMobRemovalQueue)
    requires
        old(pending_mob_removals).wf(),
        hit_tick < i32::MAX,
    ensures
        final(pending_mob_removals).wf(),
        flag_at(dead_mobs@, mob_id as int) ==> *final(pending_mob_removals) == *old(pending_mob_removals),
        !flag_at(dead_mobs@, mob_id as int) && removal_pending(old(pending_mob_removals).items(), mob_id) ==> {
            let k = first_removal_of(old(pending_mob_removals).items(), mob_id);
            let old_t = old(pending_mob_removals).items()[k].tick;
            &&& final(pending_mob_removals).items() == old(pending_mob_removals).items().update(
                k, PendingMobRemoval { tick: if old_t <= hit_tick + 1 { old_t } else { (hit_tick + 1) as i32 }, mob_id })
            &&& final(pending_mob_removals).inline@.len() == old(pending_mob_removals).inline@.len()
        },
        !flag_at(dead_mobs@, mob_id as int) && !removal_pending(old(pending_mob_removals).items(), mob_id) ==>
            (final(pending_mob_removals).inline@, final(pending_mob_removals).overflow@)
                == pushed_parts(*old(pending_mob_removals), PendingMobRemoval { tick: (hit_tick + 1) as i32, mob_id }),
        (final(pending_mob_removals).inline@, final(pending_mob_removals).overflow@) == schedule_parts(
            old(pending_mob_removals).inline@, old(pending_mob_removals).overflow@, dead_mobs@, mob_id, hit_tick as int),
{
    if flag_get(dead_mobs, mob_id) {
        return;
    }
    let remove_tick: i32 = hit_tick + 1;
    let ghost items = pending_mob_removals.items();
    let ghost p = |r: PendingMobRemoval| r.mob_id == mob_id;
    match pending_mob_removals.first_mut(
        |r: PendingMobRemoval| -> (b: bool) ensures b == (r.mob_id == mob_id) { r.mob_id == mob_id },
        Ghost(p),
    ) {
        Some(existing) => {
            proof { lemma_first_removal_where(items, mob_id, p); }
            if remove_tick < existing.tick {
                existing.tick = remove_tick;
            }
            proof {
                let q0 = *old(pending_mob_removals);
                let q1 = *pending_mob_removals;
                let k = first_removal_of(items, mob_id);
                let r = q1.items()[k];
                assert(q1.items() == items.update(k, r));
                if k < q0.inline@.len() {
                    assert(q1.inline@ =~= q0.inline@.update(k, r)) by {
                        assert forall|j: int| 0 <= j < q1.inline@.len() implies q1.inline@[j] == q0.inline@.update(k, r)[j] by {
                            assert(q1.inline@[j] == q1.items()[j]);
                            assert(q0.inline@[j] == items[j]);
                        }
                    }
                    assert(q1.overflow@ =~= q0.overflow@) by {
                        assert forall|j: int| 0 <= j < q1.overflow@.len() implies q1.overflow@[j] == q0.overflow@[j] by {
                            assert(q1.overflow@[j] == q1.items()[q1.inline@.len() + j]);
                            assert(q0.overflow@[j] == items[q0.inline@.len() + j]);
                        }
                    }
                } else {
                    assert(q1.inline@ =~= q0.inline@) by {
                        assert forall|j: int| 0 <= j < q1.inline@.len() implies q1.inline@[j] == q0.inline@[j] by {
                            assert(q1.inline@[j] == q1.items()[j]);
                            assert(q0.inline@[j] == items[j]);
                        }
                    }
                    assert(q1.overflow@ =~= q0.overflow@.update(k - q0.inline@.len(), r)) by {
                        assert forall|j: int| 0 <= j < q1.overflow@.len() implies
                            q1.overflow@[j] == q0.overflow@.update(k - q0.inline@.len(), r)[j] by {
                            assert(q1.overflow@[j] == q1.items()[q1.inline@.len() + j]);
                            assert(q0.overflow@[j] == items[q0.inline@.len() + j]);
                        }
                    }
                }
            }
        },
        None => {
            proof {
                assert forall|k: int| 0 <= k < items.len() implies #[trigger] items[k].mob_id != mob_id by {
                    assert(!p(items[k]));
                }
            }
            pending_mob_removals.push(PendingMobRemoval { tick: remove_tick, mob_id });
        },
    }
}

/// A sequence without its item `i`, the last item taking its place.
pub open spec fn swap_removed<T>(s: Seq<T>, i: int) -> Seq<T> {
    s.update(i, s.last()).drop_last()
}

/// Goes through the first `i` removals of `part` from the last to the first: a removal
/// due by `tick` marks its monster dead and leaves the part (the part's last removal
/// taking its place); the rest stay.
pub open spec fn drain_removals(part: Seq<PendingMobRemoval>, dead: Seq<bool>, i: int, tick: int)
    -> (Seq<PendingMobRemoval>, Seq<bool>)
    decreases i,
{
    if i <= 0 || i > part.len() {
        (part, dead)
    } else {
        let r = part[i - 1];
        if r.tick <= tick {
            let dead2 = if r.mob_id < 64 { dead.update(r.mob_id as int, true) } else { dead };
            drain_removals(swap_removed(part, i - 1), dead2, i - 1, tick)
        } else {
            drain_removals(part, dead, i - 1, tick)
        }
    }
}

/// Marks dead the monsters of every removal in `part` that is due by `current_tick`,
/// and removes those removals (the last one of the part takes a removed one's place).
fn apply_due_removals(part: &mut Vec<PendingMobRemoval>, current_tick: i32, dead_mobs: &mut [bool; 64])
    ensures
        final(part)@.len() <= old(part)@.len(),
        forall|k: int| 0 <= k < final(part)@.len() ==> (#[trigger] final(part)@[k]).tick > current_tick
            && old(part)@.contains(final(part)@[k]),
        forall|k: int| 0 <= k < old(part)@.len() && (#[trigger] old(part)@[k]).tick > current_tick
            ==> final(part)@.contains(old(part)@[k]),
        forall|id: int| 0 <= id < 64 ==> #[trigger] final(dead_mobs)@[id] == (old(dead_mobs)@[id]
            || exists|k: int| 0 <= k < old(part)@.len() && (#[trigger] old(part)@[k]).tick <= current_tick && old(part)@[k].mob_id == id),
        (final(part)@, final(dead_mobs)@)
            == drain_removals(old(part)@, old(dead_mobs)@, old(part)@.len() as int, current_tick as int),
{
    let ghost orig = part@;
    let ghost dead0 = dead_mobs@;
    let mut i: usize = part.len();
    while i > 0
        invariant
            i <= part@.len(),
            part@.len() <= orig.len(),
            forall|k: int| 0 <= k < i ==> #[trigger] part@[k] == orig[k],
            forall|k: int| i <= k < part@.len() ==> (#[trigger] part@[k]).tick > current_tick && orig.contains(part@[k]),
            forall|k: int| i <= k < orig.len() && (#[trigger] orig[k]).tick > current_tick ==> part@.subrange(i as int, part@.len() as int).contains(orig[k]),
            forall|id: int| 0 <= id < 64 ==> #[trigger] dead_mobs@[id] == (dead0[id]
                || exists|k: int| i <= k < orig.len() && (#[trigger] orig[k]).tick <= current_tick && orig[k].mob_id == id),
            drain_removals(orig, dead0, orig.len() as int, current_tick as int)
                == drain_removals(part@, dead_mobs@, i as int, current_tick as int),
        decreases i,
    {
        i = i - 1;
        let r: PendingMobRemoval = part[i];
        assert(r == orig[i as int]);
        let ghost before = part@;
        let ghost dbefore = dead_mobs@;
        if r.tick <= current_tick {
            if r.mob_id < 64 {
                dead_mobs[r.mob_id] = true;
            }
            part.swap_remove(i);
            proof {
                let len = before.len();
                assert forall|k: int| i <= k < orig.len() && (#[trigger] orig[k]).tick > current_tick implies
                    part@.subrange(i as int, part@.len() as int).contains(orig[k]) by {
                    assert(k != i);
                    let w = choose|w: int| 0 <= w < before.subrange(i + 1, len as int).len() && #[trigger] before.subrange(i + 1, len as int)[w] == orig[k];
                    let pos = i + 1 + w;
                    if pos == len - 1 {
                        assert(part@.subrange(i as int, part@.len() as int)[0] == orig[k]);
                    } else {
                        assert(part@.subrange(i as int, part@.len() as int)[pos - i] == orig[k]);
                    }
                }
                assert forall|id: int| 0 <= id < 64 implies #[trigger] dead_mobs@[id] == (dead0[id]
                    || exists|k: int| i <= k < orig.len() && (#[trigger] orig[k]).tick <= current_tick && orig[k].mob_id == id) by {
                    if id == r.mob_id {
                        assert(orig[i as int].tick <= current_tick && orig[i as int].mob_id == id);
                    } else {
                        if exists|k: int| i <= k < orig.len() && (#[trigger] orig[k]).tick <= current_tick && orig[k].mob_id == id {
                            let k = choose|k: int| i <= k < orig.len() && (#[trigger] orig[k]).tick <= current_tick && orig[k].mob_id == id;
                            assert(k != i);
                        }
                    }
                }
            }
        } else {
            proof {
                let len = before.len();
                assert forall|k: int| i <= k < orig.len() && (#[trigger] orig[k]).tick > current_tick implies
                    part@.subrange(i as int, part@.len() as int).contains(orig[k]) by {
                    if k == i {
                        assert(part@.subrange(i as int, part@.len() as int)[0] == orig[k]);
                    } else {
                        let w = choose|w: int| 0 <= w < before.subrange(i + 1, len as int).len() && #[trigger] before.subrange(i + 1, len as int)[w] == orig[k];
                        assert(part@.subrange(i as int, part@.len() as int)[w + 1] == orig[k]);
                    }
                }
                assert forall|id: int| 0 <= id < 64 implies #[trigger] dead_mobs@[id] == (dead0[id]
                    || exists|k: int| i <= k < orig.len() && (#[trigger] orig[k]).tick <= current_tick && orig[k].mob_id == id) by {
                    if exists|k: int| i <= k < orig.len() && (#[trigger] orig[k]).tick <= current_tick && orig[k].mob_id == id {
                        let k = choose|k: int| i <= k < orig.len() && (#[trigger] orig[k]).tick <= current_tick && orig[k].mob_id == id;
                        assert(k != i);
                    }
                }
                assert(orig.contains(part@[i as int]));
            }
        }
    }
    proof {
        assert forall|k: int| 0 <= k < orig.len() && (#[trigger] orig[k]).tick > current_tick implies part@.contains(orig[k]) by {
            let w = choose|w: int| 0 <= w < part@.subrange(0, part@.len() as int).len() && #[trigger] part@.subrange(0, part@.len() as int)[w] == orig[k];
            assert(part@[w] == orig[k]);
        }
    }
}

/// The removal queue's parts and the dead flags after the removals due by `tick` take
/// effect: the overflow part first, then the inline part.
pub open spec fn deaths_step(inl: Seq<PendingMobRemoval>, ovf: Seq<PendingMobRemoval>, dead: Seq<bool>, tick: int)
    -> (Seq<PendingMobRemoval>, Seq<PendingMobRemoval>, Seq<bool>)
{
    let a = drain_removals(ovf, dead, ovf.len() as int, tick);
    let b = drain_removals(inl, a.1, inl.len() as int, tick);
    (b.0, a.0, b.1)
}

/// Marks dead the monsters whose removal is due by `current_tick` and drops those
/// removals; without recoil tracking nothing changes.
pub fn apply_pending_deaths(current_tick: i32, has_recoil: bool, pending_mob_removals: &mut PendingMobRemovalQueue, dead_mobs: &mut [bool; 64])
    requires
        old(pending_mob_removals).wf(),
    ensures
        final(pending_mob_removals).wf(),
        !has_recoil ==> *final(pending_mob_removals) == *old(pending_mob_removals) && final(dead_mobs)@ == old(dead_mobs)@,
        has_recoil ==> {
            &&& forall|k: int| 0 <= k < final(pending_mob_removals).items().len() ==>
                (#[trigger] final(pending_mob_removals).items()[k]).tick > current_tick
                && old(pending_mob_removals).items().contains(final(pending_mob_removals).items()[k])
            &&& forall|k: int| 0 <= k < old(pending_mob_removals).items().len()
                && (#[trigger] old(pending_mob_removals).items()[k]).tick > current_tick
                ==> final(pending_mob_removals).items().contains(old(pending_mob_removals).items()[k])
            &&& forall|id: int| 0 <= id < 64 ==> #[trigger] final(dead_mobs)@[id] == (old(dead_mobs)@[id]
                || exists|k: int| 0 <= k < old(pending_mob_removals).items().len()
                    && (#[trigger] old(pending_mob_removals).items()[k]).tick <= current_tick
                    && old(pending_mob_removals).items()[k].mob_id == id)
        },
        has_recoil ==> (final(pending_mob_removals).inline@, final(pending_mob_removals).overflow@, final(dead_mobs)@)
            == deaths_step(old(pending_mob_removals).inline@, old(pending_mob_removals).overflow@, old(dead_mobs)@,
                current_tick as int),
{
    if !has_recoil {
        return;
    }
    let ghost items0 = pending_mob_removals.items();
    let ghost in0 = pending_mob_removals.inline@;
    let ghost of0 = pending_mob_removals.overflow@;
    let ghost dead0 = dead_mobs@;
    apply_due_removals(&mut pending_mob_removals.overflow, current_tick, dead_mobs);
    let ghost dead1 = dead_mobs@;
    apply_due_removals(&mut pending_mob_removals.inline, current_tick, dead_mobs);
    proof {
        let fin = pending_mob_removals.items();
        let in1 = pending_mob_removals.inline@;
        let of1 = pending_mob_removals.overflow@;
        assert forall|k: int| 0 <= k < fin.len() implies (#[trigger] fin[k]).tick > current_tick && items0.contains(fin[k]) by {
            if k < in1.len() {
                assert(fin[k] == in1[k]);
                let w = choose|w: int| 0 <= w < in0.len() && #[trigger] in0[w] == in1[k];
                assert(items0[w] == in0[w]);
            } else {
                assert(fin[k] == of1[k - in1.len()]);
                let w = choose|w: int| 0 <= w < of0.len() && #[trigger] of0[w] == of1[k - in1.len()];
                assert(items0[in0.len() + w] == of0[w]);
            }
        }
        assert forall|k: int| 0 <= k < items0.len() && (#[trigger] items0[k]).tick > current_tick implies fin.contains(items0[k]) by {
            if k < in0.len() {
                assert(items0[k] == in0[k]);
                let w = choose|w: int| 0 <= w < in1.len() && #[trigger] in1[w] == in0[k];
                assert(fin[w] == in1[w]);
            } else {
                assert(items0[k] == of0[k - in0.len()]);
                let w = choose|w: int| 0 <= w < of1.len() && #[trigger] of1[w] == of0[k - in0.len()];
                assert(fin[in1.len() + w] == of1[w]);
            }
        }
        assert forall|id: int| 0 <= id < 64 implies #[trigger] dead_mobs@[id] == (dead0[id]
            || exists|k: int| 0 <= k < items0.len() && (#[trigger] items0[k]).tick <= current_tick && items0[k].mob_id == id) by {
            if exists|k: int| 0 <= k < items0.len() && (#[trigger] items0[k]).tick <= current_tick && items0[k].mob_id == id {
                let k = choose|k: int| 0 <= k < items0.len() && (#[trigger] items0[k]).tick <= current_tick && items0[k].mob_id == id;
                if k < in0.len() {
                    assert(in0[k] == items0[k]);
                } else {
                    assert(of0[k - in0.len()] == items0[k]);
                }
            }
            if exists|k: int| 0 <= k < in0.len() && (#[trigger] in0[k]).tick <= current_tick && in0[k].mob_id == id {
                let k = choose|k: int| 0 <= k < in0.len() && (#[trigger] in0[k]).tick <= current_tick && in0[k].mob_id == id;
                assert(items0[k] == in0[k]);
            }
            if exists|k: int| 0 <= k < of0.len() && (#[trigger] of0[k]).tick <= current_tick && of0[k].mob_id == id {
                let k = choose|k: int| 0 <= k < of0.len() && (#[trigger] of0[k]).tick <= current_tick && of0[k].mob_id == id;
                assert(items0[in0.len() + k] == of0[k]);
            }
        }
    }
}


// ---------------------------------------------------------------- pending hits

/// Pending hits whose damage is not negative and whose tick leaves room for a removal tick.
pub open spec fn hits_ok(items: Seq<PendingHit>) -> bool {
    forall|k: int| 0 <= k < items.len() ==> (#[trigger] items[k]).damage >= 0 && items[k].tick < i32::MAX
}

/// Both parts of a queue of pending hits hold only such hits.
pub open spec fn queue_hits_ok<const N: usize>(q: SmallQueue<PendingHit, N>) -> bool {
    hits_ok(q.inline@) && hits_ok(q.overflow@)
}

/// Goes through the first `i` hits of `part` from the last to the first: a hit due by
/// `tick` on a live, known monster with hitpoints left takes its damage off them, and a
/// hit that brings them to zero or below schedules the monster's removal; every due hit
/// leaves the part (the part's last hit taking its place); the rest stay. The result is
/// the part, the hitpoints and the removal queue's two parts.
pub open spec fn drain_hits(part: Seq<PendingHit>, hp: Seq<i32>, inl: Seq<PendingMobRemoval>, ovf: Seq<PendingMobRemoval>,
    exists: Seq<bool>, dead: Seq<bool>, i: int, tick: int)
    -> (Seq<PendingHit>, Seq<i32>, Seq<PendingMobRemoval>, Seq<PendingMobRemoval>)
    decreases i,
{
    if i <= 0 || i > part.len() {
        (part, hp, inl, ovf)
    } else {
        let h = part[i - 1];
        if h.tick <= tick {
            let applies = !flag_at(dead, h.mob_id as int) && flag_at(exists, h.mob_id as int) && hp[h.mob_id as int] > 0;
            let left = hp[h.mob_id as int] - h.damage;
            let hp2 = if applies { hp.update(h.mob_id as int, left as i32) } else { hp };
            let q2 = if applies && left <= 0 { schedule_parts(inl, ovf, dead, h.mob_id, h.tick as int) } else { (inl, ovf) };
            drain_hits(swap_removed(part, i - 1), hp2, q2.0, q2.1, exists, dead, i - 1, tick)
        } else {
            drain_hits(part, hp, inl, ovf, exists, dead, i - 1, tick)
        }
    }
}

/// Applies, from last to first, the hits of `part` that are due by `current_tick` to the
/// hitpoints of live, known monsters with hitpoints left, schedules the removal of each
/// monster that a hit brings to zero, and drops the applied hits (the last one of the
/// part takes a dropped one's place).
fn apply_due_hits(
    part: &mut Vec<PendingHit>,
    current_tick: i32,
    mob_hp: &mut [i32; 64],
    mob_exists: &[bool; 64],
    dead_mobs: &[bool; 64],
    removals: &mut PendingMobRemovalQueue,
)
    requires
        hits_ok(old(part)@),
        old(removals).wf(),
    ensures
        final(removals).wf(),
        hits_ok(final(part)@),
        final(part)@.len() <= old(part)@.len(),
        forall|k: int| 0 <= k < final(part)@.len() ==> (#[trigger] final(part)@[k]).tick > current_tick
            && old(part)@.contains(final(part)@[k]),
        forall|k: int| 0 <= k < old(part)@.len() && (#[trigger] old(part)@[k]).tick > current_tick
            ==> final(part)@.contains(old(part)@[k]),
        forall|id: int| 0 <= id < 64 ==> #[trigger] final(mob_hp)@[id] <= old(mob_hp)@[id],
        forall|id: int| 0 <= id < 64 && (flag_at(dead_mobs@, id) || !flag_at(mob_exists@, id))
            ==> #[trigger] final(mob_hp)@[id] == old(mob_hp)@[id],
        (final(part)@, final(mob_hp)@, final(removals).inline@, final(removals).overflow@) == drain_hits(old(part)@,
            old(mob_hp)@, old(removals).inline@, old(removals).overflow@, mob_exists@, dead_mobs@, old(part)@.len() as int,
            current_tick as int),
{
    let ghost orig = part@;
    let ghost hp0 = mob_hp@;
    let ghost rin0 = removals.inline@;
    let ghost rof0 = removals.overflow@;
    let mut i: usize = part.len();
    while i > 0
        invariant
            i <= part@.len(),
            part@.len() <= orig.len(),
            hits_ok(orig),
            removals.wf(),
            forall|k: int| 0 <= k < i ==> #[trigger] part@[k] == orig[k],
            forall|k: int| i <= k < part@.len() ==> (#[trigger] part@[k]).tick > current_tick && orig.contains(part@[k]),
            forall|k: int| i <= k < orig.len() && (#[trigger] orig[k]).tick > current_tick
                ==> part@.subrange(i as int, part@.len() as int).contains(orig[k]),
            forall|id: int| 0 <= id < 64 ==> #[trigger] mob_hp@[id] <= hp0[id],
            forall|id: int| 0 <= id < 64 && (flag_at(dead_mobs@, id) || !flag_at(mob_exists@, id))
                ==> #[trigger] mob_hp@[id] == hp0[id],
            drain_hits(orig, hp0, rin0, rof0, mob_exists@, dead_mobs@, orig.len() as int, current_tick as int)
                == drain_hits(part@, mob_hp@, removals.inline@, removals.overflow@, mob_exists@, dead_mobs@, i as int,
                    current_tick as int),
        decreases i,
    {
        i = i - 1;
        let h: PendingHit = part[i];
        assert(h == orig[i as int]);
        let ghost before = part@;
        if h.tick <= current_tick {
            if !flag_get(dead_mobs, h.mob_id) && flag_get(mob_exists, h.mob_id) && mob_hp[h.mob_id] > 0 {
                let left: i32 = mob_hp[h.mob_id] - h.damage;
                mob_hp[h.mob_id] = left;
                if left <= 0 {
                    schedule_mob_removal(h.mob_id, h.tick, dead_mobs, removals);
                }
            }
            part.swap_remove(i);
            proof {
                let len = before.len();
                assert forall|k: int| i <= k < orig.len() && (#[trigger] orig[k]).tick > current_tick implies
                    part@.subrange(i as int, part@.len() as int).contains(orig[k]) by {
                    assert(k != i);
                    let w = choose|w: int| 0 <= w < before.subrange(i + 1, len as int).len() && #[trigger] before.subrange(i + 1, len as int)[w] == orig[k];
                    let pos = i + 1 + w;
                    if pos == len - 1 {
                        assert(part@.subrange(i as int, part@.len() as int)[0] == orig[k]);
                    } else {
                        assert(part@.subrange(i as int, part@.len() as int)[pos - i] == orig[k]);
                    }
                }
            }
        } else {
            proof {
                let len = before.len();
                assert forall|k: int| i <= k < orig.len() && (#[trigger] orig[k]).tick > current_tick implies
                    part@.subrange(i as int, part@.len() as int).contains(orig[k]) by {
                    if k == i {
                        assert(part@.subrange(i as int, part@.len() as int)[0] == orig[k]);
                    } else {
                        let w = choose|w: int| 0 <= w < before.subrange(i + 1, len as int).len() && #[trigger] before.subrange(i + 1, len as int)[w] == orig[k];
                        assert(part@.subrange(i as int, part@.len() as int)[w + 1] == orig[k]);
                    }
                }
                assert(orig.contains(part@[i as int]));
            }
        }
    }
    proof {
        assert forall|k: int| 0 <= k < orig.len() && (#[trigger] orig[k]).tick > current_tick implies part@.contains(orig[k]) by {
            let w = choose|w: int| 0 <= w < part@.subrange(0, part@.len() as int).len() && #[trigger] part@.subrange(0, part@.len() as int)[w] == orig[k];
            assert(part@[w] == orig[k]);
        }
        assert forall|k: int| 0 <= k < part@.len() implies (#[trigger] part@[k]).damage >= 0 && part@[k].tick < i32::MAX by {
            let w = choose|w: int| 0 <= w < orig.len() && #[trigger] orig[w] == part@[k];
            assert(orig[w].damage >= 0);
        }
    }
}

/// The player hits' parts, the monsters' hitpoints and the removal queue's parts after
/// the player hits due by `tick` land: the overflow part first, then the inline part.
pub open spec fn player_hits_step(hin: Seq<PendingHit>, hof: Seq<PendingHit>, hp: Seq<i32>, rin: Seq<PendingMobRemoval>,
    rof: Seq<PendingMobRemoval>, exists: Seq<bool>, dead: Seq<bool>, tick: int)
    -> (Seq<PendingHit>, Seq<PendingHit>, Seq<i32>, Seq<PendingMobRemoval>, Seq<PendingMobRemoval>)
{
    let a = drain_hits(hof, hp, rin, rof, exists, dead, hof.len() as int, tick);
    let b = drain_hits(hin, a.1, a.2, a.3, exists, dead, hin.len() as int, tick);
    (b.0, a.0, b.1, b.2, b.3)
}

/// Applies the player hits due by `current_tick` (overflow part first, each part from
/// last to first) and drops them; without recoil tracking nothing changes.
pub fn apply_pending_player_hits(
    current_tick: i32,
    has_recoil: bool,
    pending_player_hits: &mut PendingPlayerHitQueue,
    mob_hp: &mut [i32; 64],
    mob_exists: &[bool; 64],
    dead_mobs: &mut [bool; 64],
    pending_mob_removals: &mut PendingMobRemovalQueue,
)
    requires
        old(pending_player_hits).wf(),
        queue_hits_ok(*old(pending_player_hits)),
        old(pending_mob_removals).wf(),
    ensures
        final(pending_player_hits).wf(),
        queue_hits_ok(*final(pending_player_hits)),
        final(pending_mob_removals).wf(),
        final(dead_mobs)@ == old(dead_mobs)@,
        !has_recoil ==> *final(pending_player_hits) == *old(pending_player_hits)
            && final(mob_hp)@ == old(mob_hp)@ && *final(pending_mob_removals) == *old(pending_mob_removals),
        has_recoil ==> forall|k: int| 0 <= k < final(pending_player_hits).items().len()
            ==> (#[trigger] final(pending_player_hits).items()[k]).tick > current_tick
                && old(pending_player_hits).items().contains(final(pending_player_hits).items()[k]),
        has_recoil ==> forall|k: int| 0 <= k < old(pending_player_hits).items().len()
            && (#[trigger] old(pending_player_hits).items()[k]).tick > current_tick
            ==> final(pending_player_hits).items().contains(old(pending_player_hits).items()[k]),
        forall|id: int| 0 <= id < 64 ==> #[trigger] final(mob_hp)@[id] <= old(mob_hp)@[id],
        has_recoil ==> (final(pending_player_hits).inline@, final(pending_player_hits).overflow@, final(mob_hp)@,
            final(pending_mob_removals).inline@, final(pending_mob_removals).overflow@) == player_hits_step(
                old(pending_player_hits).inline@, old(pending_player_hits).overflow@, old(mob_hp)@,
                old(pending_mob_removals).inline@, old(pending_mob_removals).overflow@, mob_exists@, old(dead_mobs)@,
                current_tick as int),
{
    if !has_recoil || pending_player_hits.is_empty() {
        proof {
            if has_recoil {
                assert(pending_player_hits.items().len() == 0);
            }
        }
        return;
    }
    let ghost in0 = pending_player_hits.inline@;
    let ghost of0 = pending_player_hits.overflow@;
    let ghost items0 = pending_player_hits.items();
    let ghost hp0 = mob_hp@;
    let ghost hp_mid: Seq<i32>;
    {
        let dead: &[bool; 64] = dead_mobs;
        apply_due_hits(&mut pending_player_hits.overflow, current_tick, mob_hp, mob_exists, dead, pending_mob_removals);
        proof { hp_mid = mob_hp@; }
        apply_due_hits(&mut pending_player_hits.inline, current_tick, mob_hp, mob_exists, dead, pending_mob_removals);
    }
    proof {
        let fin = pending_player_hits.items();
        let in1 = pending_player_hits.inline@;
        let of1 = pending_player_hits.overflow@;
        assert forall|id: int| 0 <= id < 64 implies #[trigger] mob_hp@[id] <= hp0[id] by {
            assert(mob_hp@[id] <= hp_mid[id]);
        }
        assert forall|k: int| 0 <= k < fin.len() implies (#[trigger] fin[k]).tick > current_tick && items0.contains(fin[k]) by {
            if k < in1.len() {
                assert(fin[k] == in1[k]);
                let w = choose|w: int| 0 <= w < in0.len() && #[trigger] in0[w] == in1[k];
                assert(items0[w] == in0[w]);
            } else {
                assert(fin[k] == of1[k - in1.len()]);
                let w = choose|w: int| 0 <= w < of0.len() && #[trigger] of0[w] == of1[k - in1.len()];
                assert(items0[in0.len() + w] == of0[w]);
            }
        }
        assert forall|k: int| 0 <= k < items0.len() && (#[trigger] items0[k]).tick > current_tick implies fin.contains(items0[k]) by {
            if k < in0.len() {
                assert(items0[k] == in0[k]);
                let w = choose|w: int| 0 <= w < in1.len() && #[trigger] in1[w] == in0[k];
                assert(fin[w] == in1[w]);
            } else {
                assert(items0[k] == of0[k - in0.len()]);
                let w = choose|w: int| 0 <= w < of1.len() && #[trigger] of1[w] == of0[k - in0.len()];
                assert(fin[in1.len() + w] == of1[w]);
            }
        }
    }
}


// ---------------------------------------------------------------- damage counts

/// The style an attack lands as: its recorded style or, for a blob attack (which
/// records none), range when the prayer on its scan tick was magic, else magic.
pub open spec fn landed_style(atk: AttackEvent, seq: Seq<Prayer>) -> Style {
    match decode_style_spec(atk.style) {
        Some(s) => s,
        None => if seq[prayer_slot_spec(atk.scan_tick as int)] == Prayer::Mage { Style::Range } else { Style::Magic },
    }
}

/// Whether a prayer protects against a style.
pub open spec fn prayer_blocks(style: Style, p: Prayer) -> bool {
    ||| style == Style::Magic && p == Prayer::Mage
    ||| style == Style::Range && p == Prayer::Range
    ||| style == Style::Melee && p == Prayer::Melee
}

/// Damage that a monster's attack deals when it is not skipped: nothing when the prayer
/// on its tick protects against it, when its kind is unknown, when the kind has no attack
/// in that style or the accuracy draw misses; else the damage draw scaled onto
/// `0..=max`.
pub open spec fn landed_hit(atk: AttackEvent, seq: Seq<Prayer>, l: Loadout) -> int {
    let style = landed_style(atk, seq);
    if prayer_blocks(style, seq[prayer_slot_spec(atk.tick as int)]) || atk.mob_type >= MOB_TYPE_COUNT {
        0
    } else {
        match l.monster_atk_fast@[atk.mob_type as int]@[attack_style_index(style) as int] {
            None => 0,
            Some(stats) => if (atk.acc_roll as int) < stats.acc {
                let d = scale_roll_spec(atk.dmg_roll, stats.max + 1);
                if d > 0 { d } else { 0 }
            } else {
                0
            },
        }
    }
}

/// Whether a log entry is not a monster's attack on the player: a player attack, a
/// revive, a scan, or an entry without an attacker.
pub open spec fn is_skipped(atk: AttackEvent) -> bool {
    atk.is_player_attack || atk.is_revive || atk.is_scan || decode_id_spec(atk.mob_id) is None
}

/// Damage that a log entry deals to the player under a prayer sequence.
pub open spec fn attack_hit(atk: AttackEvent, seq: Seq<Prayer>, l: Loadout) -> int {
    if is_skipped(atk) { 0 } else { landed_hit(atk, seq, l) }
}

/// Sum of the damage that a log deals to the player.
pub open spec fn hits_total(attacks: Seq<AttackEvent>, seq: Seq<Prayer>, l: Loadout) -> int
    decreases attacks.len(),
{
    if attacks.len() == 0 {
        0
    } else {
        hits_total(attacks.drop_last(), seq, l) + attack_hit(attacks.last(), seq, l)
    }
}

/// The damage count without recoil or healing: the player dies once the damage reaches
/// the starting hitpoints, and then counts as having taken all of them.
pub open spec fn no_recoil_result(attacks: Seq<AttackEvent>, seq: Seq<Prayer>, l: Loadout) -> DamageResult {
    let total = hits_total(attacks, seq, l);
    if total >= l.starting_hp {
        DamageResult { damage: l.starting_hp, died: true }
    } else {
        DamageResult { damage: total as i32, died: false }
    }
}

/// Attacks as a simulation logs them: ticks leave room for the ticks derived from them,
/// and the player's damage is never negative.
pub open spec fn attacks_ok(attacks: Seq<AttackEvent>) -> bool {
    forall|k: int| 0 <= k < attacks.len() ==> (#[trigger] attacks[k]).tick <= i32::MAX - 8
        && attacks[k].player_dmg >= 0
}

/// Hits are never negative and add up along a log.
pub proof fn lemma_hits_total_prefix(attacks: Seq<AttackEvent>, seq: Seq<Prayer>, l: Loadout, i: int, j: int)
    requires
        0 <= i <= j <= attacks.len(),
    ensures
        0 <= hits_total(attacks.take(i), seq, l) <= hits_total(attacks.take(j), seq, l),
    decreases j,
{
    if j > 0 {
        assert(attacks.take(j).drop_last() =~= attacks.take(j - 1));
        if i < j {
            lemma_hits_total_prefix(attacks, seq, l, i, j - 1);
        } else {
            lemma_hits_total_prefix(attacks, seq, l, j - 1, j - 1);
        }
    } else {
        assert(attacks.take(0).len() == 0);
    }
}

/// Damage a monster's attack deals, once the caller has found it is not skipped.
#[verifier::spinoff_prover]
fn landed_damage(atk: &AttackEvent, prayer_seq: &[Prayer; 4], loadout: &Loadout) -> (r: i32)
    requires
        loadout_ok(*loadout),
    ensures
        r == landed_hit(*atk, prayer_seq@, *loadout),
        r >= 0,
{
    let pray_on_tick: Prayer = prayer_seq[prayer_slot(atk.tick)];
    let atk_style: Style = match atk.style() {
        Some(style) => style,
        None => {
            let pray_on_scan: Prayer = prayer_seq[prayer_slot(atk.scan_tick)];
            if pray_on_scan == Prayer::Mage { Style::Range } else { Style::Magic }
        },
    };
    let blocked: bool = (atk_style == Style::Magic && pray_on_tick == Prayer::Mage)
        || (atk_style == Style::Range && pray_on_tick == Prayer::Range)
        || (atk_style == Style::Melee && pray_on_tick == Prayer::Melee);
    if blocked {
        return 0;
    }
    let mob_type_idx: usize = atk.mob_type as usize;
    if mob_type_idx >= MOB_TYPE_COUNT {
        return 0;
    }
    let col: usize = attack_style_idx(atk_style);
    let entry: Option<AttackStats> = loadout.monster_atk_fast[mob_type_idx][col];
    assert(entry == loadout.monster_atk_fast@[mob_type_idx as int]@[col as int]);
    match entry {
        None => 0,
        Some(stats) => {
            assert(attack_stats_ok(loadout.monster_atk_fast@[mob_type_idx as int]@[col as int]));
            if roll_below(atk.acc_roll, stats.acc) {
                let d: i64 = scale_roll(atk.dmg_roll, stats.max as i64 + 1);
                if d > 0 { d as i32 } else { 0 }
            } else {
                0
            }
        },
    }
}

/// The damage count without recoil: the log's hits under `prayer_seq` add up until
/// the player dies.
pub fn calc_sim_damage_no_recoil(attacks: &[AttackEvent], prayer_seq: &[Prayer; 4], loadout: &Loadout) -> (r: DamageResult)
    requires
        loadout_ok(*loadout),
    ensures
        r == no_recoil_result(attacks@, prayer_seq@, *loadout),
{
    let start_hp: i32 = loadout.starting_hp;
    let mut hp: i32 = start_hp;
    let mut i: usize = 0;
    while i < attacks.len()
        invariant
            i <= attacks@.len(),
            loadout_ok(*loadout),
            start_hp == loadout.starting_hp,
            hp == start_hp - hits_total(attacks@.take(i as int), prayer_seq@, *loadout),
            0 < hp <= start_hp,
        decreases attacks@.len() - i,
    {
        let atk: AttackEvent = attacks[i];
        proof {
            assert(attacks@.take(i + 1).drop_last() =~= attacks@.take(i as int));
            assert(attacks@.take(i + 1).last() == atk);
        }
        if atk.is_player_attack || atk.is_revive || atk.is_scan || atk.mob_id().is_none() {
            i = i + 1;
            continue;
        }
        let dmg: i32 = landed_damage(&atk, prayer_seq, loadout);
        if dmg > 0 {
            hp = hp - dmg;
            if hp <= 0 {
                proof {
                    lemma_hits_total_prefix(attacks@, prayer_seq@, *loadout, i + 1, attacks@.len() as int);
                    assert(attacks@.take(attacks@.len() as int) =~= attacks@);
                }
                return DamageResult { damage: start_hp, died: true };
            }
        }
        i = i + 1;
    }
    proof {
        assert(attacks@.take(attacks@.len() as int) =~= attacks@);
        lemma_hits_total_prefix(attacks@, prayer_seq@, *loadout, 0, attacks@.len() as int);
    }
    DamageResult { damage: start_hp - hp, died: false }
}


/// The hitpoint cap of a count: the starting hitpoints or the blood-barrage cap,
/// whichever is higher.
pub open spec fn count_max_hp(l: Loadout) -> int {
    if l.starting_hp >= blood_max_hp_spec(l) { l.starting_hp as int } else { blood_max_hp_spec(l) }
}

/// One log entry of a count without recoil tracking, on the state (hitpoints, lowest
/// hitpoints so far, died): a death ends the count; a player hit under blood barrage
/// heals up to the cap; a monster's hit lowers the hitpoints.
pub open spec fn plain_step(st: (int, int, bool), atk: AttackEvent, seq: Seq<Prayer>, l: Loadout) -> (int, int, bool) {
    let (hp, low, died) = st;
    if died {
        st
    } else if atk.is_player_attack {
        if l.is_blood_barrage && atk.player_dmg > 0 && hp < count_max_hp(l) {
            let healed = hp + atk.player_dmg * blood_heal_fraction(l).0 / blood_heal_fraction(l).1;
            (if healed < count_max_hp(l) { healed } else { count_max_hp(l) }, low, false)
        } else {
            st
        }
    } else {
        let d = attack_hit(atk, seq, l);
        if d > 0 {
            let h = hp - d;
            (h, if h < low { h } else { low }, h <= 0)
        } else {
            st
        }
    }
}

/// Under blood barrage a player hit of `p > 0` damage heals `floor(p * 0.275)` with the
/// blood sceptre and `floor(p / 4)` without, up to a cap of 108 hitpoints with the
/// sceptre and 99 without (or the starting hitpoints when higher); at or above the cap
/// nothing is healed. So with the sceptre a count at 99 hitpoints healed by a hit of at
/// least 4 damage stands above 99 hitpoints afterwards. Both counts (with and without
/// recoil tracking) heal alike.
pub proof fn law_blood_barrage_heal_cap(l: Loadout, hp: int, low: int, atk: AttackEvent, seq: Seq<Prayer>,
    st: RecoilCount, init: Seq<Option<MobInit>>)
    requires
        l.is_blood_barrage,
        atk.is_player_attack,
        atk.player_dmg > 0,
        st.hp == hp,
    ensures
        ({
            let cap: int = if l.has_blood_sceptre {
                if l.starting_hp > 108 { l.starting_hp as int } else { 108 }
            } else {
                if l.starting_hp > 99 { l.starting_hp as int } else { 99 }
            };
            let heal: int = if l.has_blood_sceptre { atk.player_dmg * 11 / 40 } else { atk.player_dmg / 4 };
            let healed: int = if hp < cap { if hp + heal < cap { hp + heal } else { cap } } else { hp };
            &&& plain_step((hp, low, false), atk, seq, l) == (healed, low, false)
            &&& count_entry(st, atk, seq, l, init).hp == healed
            &&& l.has_blood_sceptre && hp == 99 && l.starting_hp <= 99 && atk.player_dmg >= 4 ==> healed > 99
        }),
{
}

/// The state of a count without recoil tracking after a log.
pub open spec fn plain_fold(attacks: Seq<AttackEvent>, seq: Seq<Prayer>, l: Loadout) -> (int, int, bool)
    decreases attacks.len(),
{
    if attacks.len() == 0 {
        (l.starting_hp as int, l.starting_hp as int, false)
    } else {
        plain_step(plain_fold(attacks.drop_last(), seq, l), attacks.last(), seq, l)
    }
}

/// The result of a count without recoil tracking: all the starting hitpoints on a
/// death; under blood barrage the deepest drop below the start; else the hitpoints lost.
pub open spec fn plain_result(attacks: Seq<AttackEvent>, seq: Seq<Prayer>, l: Loadout) -> DamageResult {
    let (hp, low, died) = plain_fold(attacks, seq, l);
    if died {
        DamageResult { damage: l.starting_hp, died: true }
    } else if l.is_blood_barrage {
        DamageResult { damage: (if l.starting_hp - low > 0 { l.starting_hp - low } else { 0 }) as i32, died: false }
    } else {
        DamageResult { damage: (if l.starting_hp - hp > 0 { l.starting_hp - hp } else { 0 }) as i32, died: false }
    }
}

/// Once the player has died, the rest of the log changes nothing.
proof fn lemma_plain_fold_dead(attacks: Seq<AttackEvent>, seq: Seq<Prayer>, l: Loadout, i: int, j: int)
    requires
        0 <= i <= j <= attacks.len(),
        plain_fold(attacks.take(i), seq, l).2,
    ensures
        plain_fold(attacks.take(j), seq, l) == plain_fold(attacks.take(i), seq, l),
    decreases j - i,
{
    if j > i {
        lemma_plain_fold_dead(attacks, seq, l, i, j - 1);
        assert(attacks.take(j).drop_last() =~= attacks.take(j - 1));
    }
}

/// While the player lives, a count without recoil keeps its hitpoints and its lowest
/// hitpoints positive, the latter no higher than the start.
pub proof fn lemma_plain_fold_bounds(attacks: Seq<AttackEvent>, seq: Seq<Prayer>, l: Loadout)
    requires
        loadout_ok(l),
    ensures
        !plain_fold(attacks, seq, l).2 ==> 0 < plain_fold(attacks, seq, l).1 <= l.starting_hp
            && 0 < plain_fold(attacks, seq, l).0,
    decreases attacks.len(),
{
    if attacks.len() > 0 {
        lemma_plain_fold_bounds(attacks.drop_last(), seq, l);
        let atk = attacks.last();
        if atk.is_player_attack && atk.player_dmg > 0 {
            let f = blood_heal_fraction(l);
            assert(atk.player_dmg * f.0 / f.1 >= 0) by (nonlinear_arith)
                requires atk.player_dmg > 0, f.0 >= 1, f.1 >= 1;
        }
    }
}

/// Without blood barrage the count dies exactly when the hits add up to the starting
/// hitpoints, and until then has lost exactly their sum.
proof fn lemma_plain_fold_sum(attacks: Seq<AttackEvent>, seq: Seq<Prayer>, l: Loadout)
    requires
        !l.is_blood_barrage,
        l.starting_hp >= 1,
    ensures
        plain_fold(attacks, seq, l).2 == (hits_total(attacks, seq, l) >= l.starting_hp),
        !plain_fold(attacks, seq, l).2 ==> plain_fold(attacks, seq, l).0 == l.starting_hp - hits_total(attacks, seq, l),
    decreases attacks.len(),
{
    if attacks.len() > 0 {
        lemma_plain_fold_sum(attacks.drop_last(), seq, l);
        lemma_hits_total_prefix(attacks.drop_last(), seq, l, 0, attacks.drop_last().len() as int);
        assert(attacks.drop_last().take(attacks.drop_last().len() as int) =~= attacks.drop_last());
    }
}

/// Without recoil tracking and without blood barrage, the count with healing and the
/// plain sum of hits give the same result.
pub proof fn lemma_plain_matches_no_recoil(attacks: Seq<AttackEvent>, seq: Seq<Prayer>, l: Loadout)
    requires
        !l.is_blood_barrage,
        loadout_ok(l),
    ensures
        plain_result(attacks, seq, l) == no_recoil_result(attacks, seq, l),
{
    lemma_plain_fold_sum(attacks, seq, l);
    lemma_hits_total_prefix(attacks, seq, l, 0, attacks.len() as int);
    assert(attacks.take(attacks.len() as int) =~= attacks);
}

/// Hits that satisfy [`hits_ok`] still do after filtering.
proof fn lemma_hits_ok_filter(s: Seq<PendingHit>, pred: spec_fn(PendingHit) -> bool)
    requires
        hits_ok(s),
    ensures
        hits_ok(s.filter(pred)),
{
    assert forall|k: int| 0 <= k < s.filter(pred).len() implies (#[trigger] s.filter(pred)[k]).damage >= 0
        && s.filter(pred)[k].tick < i32::MAX by {
        assert(s.filter(pred).contains(s.filter(pred)[k]));
        s.lemma_filter_contains_rev(pred, s.filter(pred)[k]);
        let w = choose|w: int| 0 <= w < s.len() && #[trigger] s[w] == s.filter(pred)[k];
        assert(s[w].damage >= 0);
    }
}

// ---------------------------------------------------------------- counts with recoil

/// The state of a damage count that tracks recoil: the player's hitpoints, lowest
/// hitpoints and whether it died; the monsters' hitpoints, which ids are known and which
/// are dead; the echo boots' cooldown; and the queues of recoil hits, player hits and
/// removals, each as its inline and overflow parts.
pub struct RecoilCount {
    pub hp: int,
    pub low: int,
    pub died: bool,
    pub mob_hp: Seq<i32>,
    pub exists: Seq<bool>,
    pub dead: Seq<bool>,
    pub echo_cooldown: int,
    pub rec_in: Seq<PendingHit>,
    pub rec_of: Seq<PendingHit>,
    pub hit_in: Seq<PendingHit>,
    pub hit_of: Seq<PendingHit>,
    pub rem_in: Seq<PendingMobRemoval>,
    pub rem_of: Seq<PendingMobRemoval>,
}

/// A queue's parts after an item joins: the inline part while it has fewer than `cap`
/// items, else the overflow part.
pub open spec fn push_parts<T>(inl: Seq<T>, ovf: Seq<T>, cap: int, item: T) -> (Seq<T>, Seq<T>) {
    if inl.len() < cap { (inl.push(item), ovf) } else { (inl, ovf.push(item)) }
}

/// Half of a value, rounded towards zero.
pub open spec fn half_toward_zero(v: int) -> int {
    if v >= 0 { v / 2 } else { -((-v) / 2) }
}

/// The start of a count with recoil: full hitpoints, the known monsters' starting
/// hitpoints (ids up to 64), nobody dead, no cooldown and empty queues.
pub open spec fn recoil_start(l: Loadout, init: Seq<Option<MobInit>>) -> RecoilCount {
    RecoilCount {
        hp: l.starting_hp as int,
        low: l.starting_hp as int,
        died: false,
        mob_hp: Seq::new(64, |id: int| if id < init.len() && init[id] is Some { init[id]->Some_0.hp } else { 0i32 }),
        exists: Seq::new(64, |id: int| id < init.len() && init[id] is Some),
        dead: Seq::new(64, |id: int| false),
        echo_cooldown: 0,
        rec_in: Seq::empty(),
        rec_of: Seq::empty(),
        hit_in: Seq::empty(),
        hit_of: Seq::empty(),
        rem_in: Seq::empty(),
        rem_of: Seq::empty(),
    }
}

/// What happens before a log entry on `tick` is counted: the player hits due by then
/// land and the removals due by then take effect; then, if any recoil is pending, the
/// recoil due by then lands and the removals take effect again.
pub open spec fn count_prelude(st: RecoilCount, tick: int) -> RecoilCount {
    let ph = player_hits_step(st.hit_in, st.hit_of, st.mob_hp, st.rem_in, st.rem_of, st.exists, st.dead, tick);
    let d1 = deaths_step(ph.3, ph.4, st.dead, tick);
    let s2 = RecoilCount { hit_in: ph.0, hit_of: ph.1, mob_hp: ph.2, rem_in: d1.0, rem_of: d1.1, dead: d1.2, ..st };
    if s2.rec_in.len() + s2.rec_of.len() > 0 {
        let a = drain_hits(s2.rec_of, s2.mob_hp, s2.rem_in, s2.rem_of, s2.exists, s2.dead, s2.rec_of.len() as int, tick);
        let b = drain_hits(s2.rec_in, a.1, a.2, a.3, s2.exists, s2.dead, s2.rec_in.len() as int, tick);
        let d = deaths_step(b.2, b.3, s2.dead, tick);
        RecoilCount { rec_in: b.0, rec_of: a.0, mob_hp: b.1, rem_in: d.0, rem_of: d.1, dead: d.2, ..s2 }
    } else {
        s2
    }
}

/// Counts one log entry with recoil tracking (after its prelude): a player hit heals
/// under blood barrage and, on a known monster, joins the player hits; a revive brings a
/// monster back (its logged hitpoints, else half its starting ones) and drops everything
/// pending for it; a monster's hit on the player, unless the monster is dead, lowers the
/// hitpoints and queues the ring's recoil (a tenth of the damage plus one) and the echo
/// boots' (one point, next allowed four ticks later) for the tick after it lands.
pub open spec fn count_entry(st: RecoilCount, atk: AttackEvent, seq: Seq<Prayer>, l: Loadout, init: Seq<Option<MobInit>>)
    -> RecoilCount
{
    if atk.is_player_attack {
        let healed = if l.is_blood_barrage && atk.player_dmg > 0 && st.hp < count_max_hp(l) {
            let h = st.hp + atk.player_dmg * blood_heal_fraction(l).0 / blood_heal_fraction(l).1;
            if h < count_max_hp(l) { h } else { count_max_hp(l) }
        } else {
            st.hp
        };
        let st2 = RecoilCount { hp: healed, ..st };
        match decode_id_spec(atk.target_mob_id) {
            Some(id) => if flag_at(st.exists, id as int) {
                let t = match decode_i16_spec(atk.hit_tick) { Some(t) => t, None => atk.tick };
                let q = push_parts(st.hit_in, st.hit_of, 32, PendingHit { tick: t, mob_id: id, damage: atk.player_dmg });
                RecoilCount { hit_in: q.0, hit_of: q.1, ..st2 }
            } else {
                st2
            },
            None => st2,
        }
    } else if atk.is_revive {
        match decode_id_spec(atk.mob_id) {
            Some(id) => if id < 64 {
                let rhp: i32 = match decode_i16_spec(atk.revive_hp) {
                    Some(v) => v,
                    None => if id < init.len() {
                        match init[id as int] {
                            Some(m) => half_toward_zero(m.hp as int) as i32,
                            None => 0i32,
                        }
                    } else {
                        0i32
                    },
                };
                RecoilCount {
                    dead: st.dead.update(id as int, false),
                    mob_hp: st.mob_hp.update(id as int, rhp),
                    rem_in: st.rem_in.filter(|r: PendingMobRemoval| r.mob_id != id),
                    rem_of: st.rem_of.filter(|r: PendingMobRemoval| r.mob_id != id),
                    hit_in: st.hit_in.filter(|h: PendingHit| h.mob_id != id),
                    hit_of: st.hit_of.filter(|h: PendingHit| h.mob_id != id),
                    rec_in: st.rec_in.filter(|h: PendingHit| h.mob_id != id),
                    rec_of: st.rec_of.filter(|h: PendingHit| h.mob_id != id),
                    ..st
                }
            } else {
                st
            },
            None => st,
        }
    } else if atk.is_scan {
        st
    } else {
        match decode_id_spec(atk.mob_id) {
            None => st,
            Some(id) => if flag_at(st.dead, id as int) {
                st
            } else {
                let d = landed_hit(atk, seq, l);
                if d > 0 {
                    let h = st.hp - d;
                    let recoil_tick = (match decode_i16_spec(atk.hit_tick) { Some(t) => t as int, None => atk.tick + 1 }) + 1;
                    let r1 = if l.has_ring_recoil {
                        push_parts(st.rec_in, st.rec_of, 16, PendingHit { tick: recoil_tick as i32, mob_id: id, damage: (d / 10 + 1) as i32 })
                    } else {
                        (st.rec_in, st.rec_of)
                    };
                    let dist = match decode_i16_spec(atk.dist_at_fire) { Some(x) => x as int, None => 99 };
                    let echo = l.has_echo_boots && dist <= 1 && recoil_tick >= st.echo_cooldown;
                    let r2 = if echo { push_parts(r1.0, r1.1, 16, PendingHit { tick: recoil_tick as i32, mob_id: id, damage: 1 }) } else { r1 };
                    RecoilCount {
                        hp: h,
                        low: if h < st.low { h } else { st.low },
                        died: h <= 0,
                        rec_in: r2.0,
                        rec_of: r2.1,
                        echo_cooldown: if echo { recoil_tick + 4 } else { st.echo_cooldown },
                        ..st
                    }
                } else {
                    st
                }
            },
        }
    }
}

/// The state of a count with recoil tracking after a log; a death ends the count.
pub open spec fn recoil_fold(attacks: Seq<AttackEvent>, seq: Seq<Prayer>, l: Loadout, init: Seq<Option<MobInit>>) -> RecoilCount
    decreases attacks.len(),
{
    if attacks.len() == 0 {
        recoil_start(l, init)
    } else {
        let st = recoil_fold(attacks.drop_last(), seq, l, init);
        if st.died {
            st
        } else {
            count_entry(count_prelude(st, attacks.last().tick as int), attacks.last(), seq, l, init)
        }
    }
}

/// The result of a count with recoil tracking: all the starting hitpoints on a death;
/// under blood barrage the deepest drop below the start; else the hitpoints lost.
pub open spec fn recoil_result(attacks: Seq<AttackEvent>, seq: Seq<Prayer>, l: Loadout, init: Seq<Option<MobInit>>) -> DamageResult {
    let st = recoil_fold(attacks, seq, l, init);
    if st.died {
        DamageResult { damage: l.starting_hp, died: true }
    } else if l.is_blood_barrage {
        DamageResult { damage: (if l.starting_hp - st.low > 0 { l.starting_hp - st.low } else { 0 }) as i32, died: false }
    } else {
        DamageResult { damage: (if l.starting_hp - st.hp > 0 { l.starting_hp - st.hp } else { 0 }) as i32, died: false }
    }
}

/// Once the player has died, the rest of the log changes nothing in a count with recoil.
proof fn lemma_recoil_fold_dead(attacks: Seq<AttackEvent>, seq: Seq<Prayer>, l: Loadout, init: Seq<Option<MobInit>>, i: int, j: int)
    requires
        0 <= i <= j <= attacks.len(),
        recoil_fold(attacks.take(i), seq, l, init).died,
    ensures
        recoil_fold(attacks.take(j), seq, l, init) == recoil_fold(attacks.take(i), seq, l, init),
    decreases j - i,
{
    if j > i {
        lemma_recoil_fold_dead(attacks, seq, l, init, i, j - 1);
        assert(attacks.take(j).drop_last() =~= attacks.take(j - 1));
    }
}

/// The damage count of a log as a simulation's scoring does it: with recoil tracking
/// when the loadout has recoil and the monsters' starting hitpoints are known, else
/// without.
pub open spec fn sim_damage(attacks: Seq<AttackEvent>, seq: Seq<Prayer>, l: Loadout, init: Seq<Option<MobInit>>) -> DamageResult {
    if l.has_recoil && init.len() > 0 { recoil_result(attacks, seq, l, init) } else { plain_result(attacks, seq, l) }
}

/// While the player lives, a count with recoil keeps its hitpoints and its lowest
/// hitpoints positive, the latter no higher than the start.
proof fn lemma_recoil_fold_bounds(attacks: Seq<AttackEvent>, seq: Seq<Prayer>, l: Loadout, init: Seq<Option<MobInit>>)
    requires
        loadout_ok(l),
    ensures
        !recoil_fold(attacks, seq, l, init).died ==> 0 < recoil_fold(attacks, seq, l, init).low <= l.starting_hp
            && 0 < recoil_fold(attacks, seq, l, init).hp,
    decreases attacks.len(),
{
    if attacks.len() > 0 {
        lemma_recoil_fold_bounds(attacks.drop_last(), seq, l, init);
        let atk = attacks.last();
        if atk.is_player_attack && atk.player_dmg > 0 {
            let f = blood_heal_fraction(l);
            assert(atk.player_dmg * f.0 / f.1 >= 0) by (nonlinear_arith)
                requires atk.player_dmg > 0, f.0 >= 1, f.1 >= 1;
        }
    }
}

/// A damage count is never negative and never above the starting hitpoints.
pub proof fn lemma_sim_damage_bounds(attacks: Seq<AttackEvent>, seq: Seq<Prayer>, l: Loadout, init: Seq<Option<MobInit>>)
    requires
        loadout_ok(l),
    ensures
        0 <= sim_damage(attacks, seq, l, init).damage <= l.starting_hp,
{
    lemma_plain_fold_bounds(attacks, seq, l);
    lemma_recoil_fold_bounds(attacks, seq, l, init);
}

/// Damage taken over one simulation's attack log under a prayer sequence. With recoil
/// (when the loadout has it and the monsters' starting hitpoints are known) player hits
/// and recoil wear monsters down, and the attacks of dead monsters are skipped; under
/// blood barrage player hits heal and the deepest drop counts.
pub fn calc_sim_damage(
    attacks: &[AttackEvent],
    prayer_seq: &[Prayer; 4],
    loadout: &Loadout,
    mob_init_hp: &[Option<MobInit>],
) -> (r: DamageResult)
    requires
        loadout_ok(*loadout),
        attacks_ok(attacks@),
    ensures
        0 <= r.damage <= loadout.starting_hp,
        r.died ==> r.damage == loadout.starting_hp,
        !(loadout.has_recoil && mob_init_hp@.len() > 0) ==> r == plain_result(attacks@, prayer_seq@, *loadout),
        r.damage <= plain_result(attacks@, prayer_seq@, *loadout).damage,
        r.died ==> plain_result(attacks@, prayer_seq@, *loadout).died,
        !(loadout.has_recoil && mob_init_hp@.len() > 0) && !loadout.is_blood_barrage
            ==> r == no_recoil_result(attacks@, prayer_seq@, *loadout),
        loadout.has_recoil && mob_init_hp@.len() > 0 ==> r == recoil_result(attacks@, prayer_seq@, *loadout, mob_init_hp@),
        r == sim_damage(attacks@, prayer_seq@, *loadout, mob_init_hp@),
{
    let has_recoil: bool = loadout.has_recoil && mob_init_hp.len() > 0;
    if !has_recoil && !loadout.is_blood_barrage {
        let r = calc_sim_damage_no_recoil(attacks, prayer_seq, loadout);
        proof {
            lemma_plain_matches_no_recoil(attacks@, prayer_seq@, *loadout);
            lemma_hits_total_prefix(attacks@, prayer_seq@, *loadout, 0, attacks@.len() as int);
            assert(attacks@.take(attacks@.len() as int) =~= attacks@);
        }
        return r;
    }
    let start_hp: i32 = loadout.starting_hp;
    let mut hp: i32 = start_hp;
    let cap: i32 = loadout_blood_max_hp(loadout);
    let max_hp: i32 = if start_hp >= cap { start_hp } else { cap };
    let mut min_hp: i32 = start_hp;
    let mut mob_hp: [i32; 64] = [0i32; 64];
    let mut mob_exists: [bool; 64] = [false; 64];
    if has_recoil {
        let mut id: usize = 0;
        while id < mob_init_hp.len() && id < MAX_MOB_IDS
            invariant
                id <= mob_init_hp@.len(),
                id <= 64,
                forall|k: int| 0 <= k < 64 ==> #[trigger] mob_hp@[k] == (if k < id && mob_init_hp@[k] is Some {
                    mob_init_hp@[k]->Some_0.hp } else { 0i32 }),
                forall|k: int| 0 <= k < 64 ==> #[trigger] mob_exists@[k] == (k < id && mob_init_hp@[k] is Some),
            decreases mob_init_hp@.len() - id,
        {
            if let Some(init) = mob_init_hp[id] {
                mob_hp[id] = init.hp;
                mob_exists[id] = true;
            }
            id = id + 1;
        }
    }
    let mut dead_mobs: [bool; 64] = [false; 64];
    let mut echo_boots_cooldown: i32 = 0;
    let mut pending_recoil: PendingRecoilQueue = SmallQueue::new();
    let mut pending_player_hits: PendingPlayerHitQueue = SmallQueue::new();
    let mut pending_mob_removals: PendingMobRemovalQueue = SmallQueue::new();
    let mut i: usize = 0;
    proof {
        assert(attacks@.take(0) =~= Seq::<AttackEvent>::empty());
        if has_recoil {
            let st = recoil_start(*loadout, mob_init_hp@);
            assert(mob_hp@ =~= st.mob_hp);
            assert(mob_exists@ =~= st.exists);
            assert(dead_mobs@ =~= st.dead);
        }
    }
    while i < attacks.len()
        invariant
            i <= attacks@.len(),
            loadout_ok(*loadout),
            attacks_ok(attacks@),
            has_recoil == (loadout.has_recoil && mob_init_hp@.len() > 0),
            has_recoil || loadout.is_blood_barrage,
            start_hp == loadout.starting_hp,
            max_hp == count_max_hp(*loadout),
            0 < hp <= max_hp <= 115,
            0 < min_hp <= start_hp,
            !has_recoil ==> plain_fold(attacks@.take(i as int), prayer_seq@, *loadout)
                == (hp as int, min_hp as int, false),
            !plain_fold(attacks@.take(i as int), prayer_seq@, *loadout).2 ==>
                hp >= plain_fold(attacks@.take(i as int), prayer_seq@, *loadout).0
                && min_hp >= plain_fold(attacks@.take(i as int), prayer_seq@, *loadout).1,
            pending_recoil.wf(),
            pending_player_hits.wf(),
            pending_mob_removals.wf(),
            queue_hits_ok(pending_recoil),
            queue_hits_ok(pending_player_hits),
            has_recoil ==> recoil_fold(attacks@.take(i as int), prayer_seq@, *loadout, mob_init_hp@) == (RecoilCount {
                hp: hp as int, low: min_hp as int, died: false, mob_hp: mob_hp@, exists: mob_exists@, dead: dead_mobs@,
                echo_cooldown: echo_boots_cooldown as int, rec_in: pending_recoil.inline@, rec_of: pending_recoil.overflow@,
                hit_in: pending_player_hits.inline@, hit_of: pending_player_hits.overflow@,
                rem_in: pending_mob_removals.inline@, rem_of: pending_mob_removals.overflow@ }),
        decreases attacks@.len() - i,
    {
        let atk: AttackEvent = attacks[i];
        assert(attacks_ok(attacks@) ==> atk.tick <= i32::MAX - 8 && atk.player_dmg >= 0) by {
            assert(attacks@[i as int] == atk);
        }
        proof {
            assert(attacks@.take(i + 1).drop_last() =~= attacks@.take(i as int));
            assert(attacks@.take(i + 1).last() == atk);
        }
        let ghost st0 = RecoilCount {
            hp: hp as int, low: min_hp as int, died: false, mob_hp: mob_hp@, exists: mob_exists@, dead: dead_mobs@,
            echo_cooldown: echo_boots_cooldown as int, rec_in: pending_recoil.inline@, rec_of: pending_recoil.overflow@,
            hit_in: pending_player_hits.inline@, hit_of: pending_player_hits.overflow@,
            rem_in: pending_mob_removals.inline@, rem_of: pending_mob_removals.overflow@ };
        apply_pending_player_hits(atk.tick, has_recoil, &mut pending_player_hits, &mut mob_hp, &mob_exists,
            &mut dead_mobs, &mut pending_mob_removals);
        apply_pending_deaths(atk.tick, has_recoil, &mut pending_mob_removals, &mut dead_mobs);
        if has_recoil && !pending_recoil.is_empty() {
            apply_due_hits(&mut pending_recoil.overflow, atk.tick, &mut mob_hp, &mob_exists, &dead_mobs,
                &mut pending_mob_removals);
            apply_due_hits(&mut pending_recoil.inline, atk.tick, &mut mob_hp, &mob_exists, &dead_mobs,
                &mut pending_mob_removals);
            apply_pending_deaths(atk.tick, has_recoil, &mut pending_mob_removals, &mut dead_mobs);
        }
        let ghost st1 = count_prelude(st0, atk.tick as int);
        proof {
            if has_recoil {
                assert(st1 == (RecoilCount {
                    hp: hp as int, low: min_hp as int, died: false, mob_hp: mob_hp@, exists: mob_exists@, dead: dead_mobs@,
                    echo_cooldown: echo_boots_cooldown as int, rec_in: pending_recoil.inline@, rec_of: pending_recoil.overflow@,
                    hit_in: pending_player_hits.inline@, hit_of: pending_player_hits.overflow@,
                    rem_in: pending_mob_removals.inline@, rem_of: pending_mob_removals.overflow@ }));
            }
        }
        if atk.is_player_attack {
            if loadout.is_blood_barrage && atk.player_dmg > 0 && hp < max_hp {
                let heal: i32 = loadout_blood_heal(loadout, atk.player_dmg);
                let healed: i64 = hp as i64 + heal as i64;
                hp = if healed < max_hp as i64 { healed as i32 } else { max_hp };
            }
            if has_recoil {
                if let Some(mob_id) = atk.target_mob_id() {
                    if flag_get(&mob_exists, mob_id) {
                        let t: i32 = match atk.hit_tick() {
                            Some(t) => t,
                            None => atk.tick,
                        };
                        let ghost before = pending_player_hits;
                        pending_player_hits.push(PendingHit { tick: t, mob_id, damage: atk.player_dmg });
                        assert(queue_hits_ok(pending_player_hits)) by {
                            assert(hits_ok(before.inline@) && hits_ok(before.overflow@));
                        }
                    }
                }
            }
            i = i + 1;
            continue;
        }
        if atk.is_revive {
            if has_recoil {
                if let Some(mob_id) = atk.mob_id() {
                    if mob_id < MAX_MOB_IDS {
                        dead_mobs[mob_id] = false;
                        let revive_hp: i32 = match atk.revive_hp() {
                            Some(v) => v,
                            None => if mob_id < mob_init_hp.len() {
                                match mob_init_hp[mob_id] {
                                    Some(m) => m.hp / 2,
                                    None => 0,
                                }
                            } else {
                                0
                            },
                        };
                        mob_hp[mob_id] = revive_hp;
                        let ghost keep_removal = |r: PendingMobRemoval| r.mob_id != mob_id;
                        let ghost keep_hit = |h: PendingHit| h.mob_id != mob_id;
                        pending_mob_removals.retain(
                            |r: PendingMobRemoval| -> (b: bool) ensures b == (r.mob_id != mob_id) { r.mob_id != mob_id },
                            Ghost(keep_removal));
                        let ghost hits_before = pending_player_hits;
                        pending_player_hits.retain(
                            |h: PendingHit| -> (b: bool) ensures b == (h.mob_id != mob_id) { h.mob_id != mob_id },
                            Ghost(keep_hit));
                        let ghost recoil_before = pending_recoil;
                        pending_recoil.retain(
                            |h: PendingHit| -> (b: bool) ensures b == (h.mob_id != mob_id) { h.mob_id != mob_id },
                            Ghost(keep_hit));
                        proof {
                            lemma_hits_ok_filter(hits_before.inline@, keep_hit);
                            lemma_hits_ok_filter(hits_before.overflow@, keep_hit);
                            lemma_hits_ok_filter(recoil_before.inline@, keep_hit);
                            lemma_hits_ok_filter(recoil_before.overflow@, keep_hit);
                        }
                    }
                }
            }
            i = i + 1;
            continue;
        }
        if atk.is_scan {
            i = i + 1;
            continue;
        }
        let mob_id: usize = match atk.mob_id() {
            Some(m) => m,
            None => {
                i = i + 1;
                continue;
            },
        };
        if has_recoil && flag_get(&dead_mobs, mob_id) {
            i = i + 1;
            continue;
        }
        let dmg: i32 = landed_damage(&atk, prayer_seq, loadout);
        if dmg > 0 {
            hp = hp - dmg;
            if hp < min_hp {
                min_hp = hp;
            }
            if has_recoil {
                let recoil_tick: i32 = match atk.hit_tick() {
                    Some(t) => t,
                    None => atk.tick + 1,
                } + 1;
                if loadout.has_ring_recoil {
                    let ring_dmg: i32 = dmg / 10 + 1;
                    let ghost before = pending_recoil;
                    pending_recoil.push(PendingHit { tick: recoil_tick, mob_id, damage: ring_dmg });
                    assert(queue_hits_ok(pending_recoil)) by {
                        assert(hits_ok(before.inline@) && hits_ok(before.overflow@));
                    }
                }
                let dist: i32 = match atk.dist_at_fire() {
                    Some(d) => d,
                    None => 99,
                };
                if loadout.has_echo_boots && dist <= 1 && recoil_tick >= echo_boots_cooldown {
                    let ghost before = pending_recoil;
                    pending_recoil.push(PendingHit { tick: recoil_tick, mob_id, damage: 1 });
                    assert(queue_hits_ok(pending_recoil)) by {
                        assert(hits_ok(before.inline@) && hits_ok(before.overflow@));
                    }
                    echo_boots_cooldown = recoil_tick + 4;
                }
            }
            if hp <= 0 {
                proof {
                    assert(!is_skipped(atk));
                    assert(plain_fold(attacks@.take(i + 1), prayer_seq@, *loadout).2);
                    lemma_plain_fold_dead(attacks@, prayer_seq@, *loadout, i + 1, attacks@.len() as int);
                    assert(attacks@.take(attacks@.len() as int) =~= attacks@);
                    if has_recoil {
                        assert(recoil_fold(attacks@.take(i + 1), prayer_seq@, *loadout, mob_init_hp@).died);
                        lemma_recoil_fold_dead(attacks@, prayer_seq@, *loadout, mob_init_hp@, i + 1, attacks@.len() as int);
                    }
                }
                return DamageResult { damage: start_hp, died: true };
            }
        }
        i = i + 1;
    }
    proof {
        assert(attacks@.take(attacks@.len() as int) =~= attacks@);
    }
    let damage: i32 = if loadout.is_blood_barrage {
        if start_hp - min_hp > 0 { start_hp - min_hp } else { 0 }
    } else {
        if start_hp - hp > 0 { start_hp - hp } else { 0 }
    };
    proof {
        lemma_plain_fold_bounds(attacks@, prayer_seq@, *loadout);
        let p = plain_fold(attacks@, prayer_seq@, *loadout);
        if !p.2 {
            assert(hp >= p.0 && min_hp >= p.1);
        }
    }
    DamageResult { damage, died: false }
}

} // verus!
