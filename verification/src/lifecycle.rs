use vstd::prelude::*;

use crate::constants::{ARENA_CELLS, DEATH_ANIM_TICKS, MAX_MOB_IDS};
use crate::mechanics::{occupancy_consistent, update_mob_occupancy};
use crate::runtime::{Mob, mob_geom_ok};
use crate::setup::{fresh_mob, hl_create_mob, lemma_fresh_mob_ok, set_id_to_idx, set_mob_init};
use crate::state::{DelayedBlobletSpawn, State, blob_id_ok, dead_total, ids_ok, lemma_dead_total_update, lemma_dead_total_push,
    lemma_dead_total_bound, lemma_occupancy_push, lemma_occupancy_replace, lemma_replace_same_footprint, lemma_wf_update_mob, mob_idx_by_id,
    mob_ok, mob_pos_ok, mobs_ok, same_frame};
use crate::types::MobType;

verus! {

/// A corpse on tick `tick`: once its removal tick has come it becomes dead (and leaves
/// the board); until then `dying` counts the ticks left.
pub open spec fn corpse_step(m: Mob, tick: int) -> Mob {
    if m.dead || m.dying <= 0 {
        m
    } else {
        let remain = (match m.corpse_removal_tick { Some(t) => t as int, None => tick }) - tick;
        if remain <= 0 {
            Mob { dead: true, dying: 0i32, corpse_removal_tick: None, pending_removal_tick: None, ..m }
        } else {
            Mob { dying: remain as i32, ..m }
        }
    }
}

/// One corpse step of monster `idx`, with the grid and the dead count kept in step.
#[verifier::rlimit(100)]
fn expire_corpse(state: &mut State, idx: usize, tick: i32)
    requires
        old(state).wf(),
        tick == old(state).tick,
        idx < old(state).mobs@.len(),
    ensures
        final(state).wf(),
        same_frame(*final(state), *old(state)),
        final(state).mobs@ == old(state).mobs@.update(idx as int, corpse_step(old(state).mobs@[idx as int], tick as int)),
        final(state).player == old(state).player,
        final(state).id_to_idx == old(state).id_to_idx,
        final(state).delayed_bloblet_spawns@ == old(state).delayed_bloblet_spawns@,
        final(state).dead_mobs@ == old(state).dead_mobs@,
{
    let ghost a = *state;
    proof {
        a.lemma_wf_mob(idx as int);
        a.lemma_wf_frame_links();
    }
    let ghost m0 = a.mobs@[idx as int];
    if state.mobs[idx].dead || state.mobs[idx].dying <= 0 {
        assert(state.mobs@ =~= a.mobs@.update(idx as int, m0));
        return;
    }
    let removal: i32 = match state.mobs[idx].corpse_removal_tick {
        Some(t) => t,
        None => tick,
    };
    let remain: i32 = removal - tick;
    if remain <= 0 {
        update_mob_occupancy(&mut state.mob_occupancy, idx, &state.mobs[idx], false);
        let ghost occ1 = state.mob_occupancy@;
        proof {
            lemma_dead_total_bound(a.mobs@.update(idx as int, Mob { dead: true, ..m0 }));
            lemma_dead_total_update(a.mobs@, idx as int, Mob { dead: true, ..m0 });
        }
        state.mobs[idx].dead = true;
        state.dead_count = state.dead_count + 1;
        state.mobs[idx].dying = 0;
        state.mobs[idx].corpse_removal_tick = None;
        state.mobs[idx].pending_removal_tick = None;
        proof {
            let m = state.mobs@[idx as int];
            assert(state.mobs@ =~= a.mobs@.update(idx as int, m));
            lemma_occupancy_replace(a.mobs@, a.mob_occupancy@, occ1, occ1, idx as int, m);
            lemma_dead_total_update(a.mobs@, idx as int, m);
            lemma_wf_update_mob(a, *state, idx as int);
        }
    } else {
        state.mobs[idx].dying = remain;
        proof {
            let m = state.mobs@[idx as int];
            assert(state.mobs@ =~= a.mobs@.update(idx as int, m));
            lemma_replace_same_footprint(a.mobs@, a.mob_occupancy@, a.id_to_idx@, idx as int, m);
            lemma_wf_update_mob(a, *state, idx as int);
        }
    }
}

/// Turns corpses whose removal tick has come into dead monsters, counting them, and
/// counts down the others.
pub fn hl_process_corpse_expiry(state: &mut State, tick: i32)
    requires
        old(state).wf(),
        tick == old(state).tick,
    ensures
        final(state).wf(),
        same_frame(*final(state), *old(state)),
        final(state).mobs@.len() == old(state).mobs@.len(),
        forall|i: int| 0 <= i < old(state).mobs@.len() ==> #[trigger] final(state).mobs@[i]
            == corpse_step(old(state).mobs@[i], tick as int),
        final(state).player == old(state).player,
        final(state).id_to_idx == old(state).id_to_idx,
        final(state).delayed_bloblet_spawns@ == old(state).delayed_bloblet_spawns@,
        final(state).dead_mobs@ == old(state).dead_mobs@,
{
    let len: usize = state.mobs.len();
    let mut idx: usize = 0;
    while idx < len
        invariant
            idx <= len,
            len == state.mobs@.len(),
            state.wf(),
            same_frame(*state, *old(state)),
            tick == state.tick,
            forall|i: int| 0 <= i < idx ==> #[trigger] state.mobs@[i] == corpse_step(old(state).mobs@[i], tick as int),
            forall|i: int| idx <= i < len ==> #[trigger] state.mobs@[i] == old(state).mobs@[i],
            state.player == old(state).player,
            state.id_to_idx == old(state).id_to_idx,
            state.delayed_bloblet_spawns@ == old(state).delayed_bloblet_spawns@,
            state.dead_mobs@ == old(state).dead_mobs@,
        decreases len - idx,
    {
        expire_corpse(state, idx, tick);
        idx = idx + 1;
    }
}

/// Kinds that are not revived and release nothing when they die.
pub open spec fn is_minor_kind(t: MobType) -> bool {
    t == MobType::BlobletMage || t == MobType::BlobletRange || t == MobType::BlobletMelee || t == MobType::Nibbler
}

/// What a death changes besides the monster: a blob schedules its bloblets for the next
/// tick; a monster that may still be revived joins the list of the dead; the player drops
/// it as target and as last attacker.
pub fn hl_on_death(idx: usize, state: &mut State, tick: i32)
    requires
        old(state).wf(),
        idx < old(state).mobs@.len(),
        tick == old(state).tick,
    ensures
        final(state).wf(),
        same_frame(*final(state), *old(state)),
        final(state).mobs@ == old(state).mobs@,
        final(state).delayed_bloblet_spawns@ == if old(state).mobs@[idx as int].is_blob {
            old(state).delayed_bloblet_spawns@.push(DelayedBlobletSpawn { tick: (tick + 1) as i32, blob_id: old(state).mobs@[idx as int].id })
        } else {
            old(state).delayed_bloblet_spawns@
        },
        final(state).dead_mobs@ == if !is_minor_kind(old(state).mobs@[idx as int].mob_type) && !old(state).mobs@[idx as int].revived_once {
            old(state).dead_mobs@.push(old(state).mobs@[idx as int].id)
        } else {
            old(state).dead_mobs@
        },
        final(state).player.aggro == if old(state).player.aggro == Some(old(state).mobs@[idx as int].id) {
            None
        } else {
            old(state).player.aggro
        },
        final(state).player.last_attacker == if old(state).player.last_attacker == Some(old(state).mobs@[idx as int].id) {
            None
        } else {
            old(state).player.last_attacker
        },
        final(state).player.x == old(state).player.x,
        final(state).player.y == old(state).player.y,
        final(state).player.attack_delay == old(state).player.attack_delay,
{
    proof {
        reveal(State::wf);
    }
    let mob_type: MobType = state.mobs[idx].mob_type;
    let mob_id: usize = state.mobs[idx].id;
    if state.mobs[idx].is_blob {
        state.delayed_bloblet_spawns.push(DelayedBlobletSpawn { tick: tick + 1, blob_id: mob_id });
    }
    let minor: bool = mob_type == MobType::BlobletMage || mob_type == MobType::BlobletRange
        || mob_type == MobType::BlobletMelee || mob_type == MobType::Nibbler;
    if !minor && !state.mobs[idx].revived_once {
        state.dead_mobs.push(mob_id);
    }
    if state.player.aggro == Some(mob_id) {
        state.player.aggro = None;
    }
    if state.player.last_attacker == Some(mob_id) {
        state.player.last_attacker = None;
    }
}

/// A monster whose removal tick has come on tick `tick` starts dying: its corpse stays
/// for the death animation.
pub open spec fn death_step(m: Mob, tick: int) -> Mob {
    if !m.dead && m.dying <= 0 && (m.pending_removal_tick matches Some(t) && t <= tick) {
        Mob {
            pending_removal_tick: None,
            dying: DEATH_ANIM_TICKS,
            corpse_removal_tick: Some((tick + DEATH_ANIM_TICKS) as i32),
            ..m
        }
    } else {
        m
    }
}

/// The death step of monster `idx`, with its side effects.
fn start_death(state: &mut State, idx: usize, tick: i32)
    requires
        old(state).wf(),
        tick == old(state).tick,
        idx < old(state).mobs@.len(),
    ensures
        final(state).wf(),
        same_frame(*final(state), *old(state)),
        final(state).mobs@ == old(state).mobs@.update(idx as int, death_step(old(state).mobs@[idx as int], tick as int)),
        final(state).player.x == old(state).player.x,
        final(state).player.y == old(state).player.y,
        final(state).player.attack_delay == old(state).player.attack_delay,
{
    let ghost a = *state;
    proof {
        a.lemma_wf_mob(idx as int);
        a.lemma_wf_frame_links();
    }
    if state.mobs[idx].dead || state.mobs[idx].dying > 0 {
        assert(state.mobs@ =~= a.mobs@.update(idx as int, a.mobs@[idx as int]));
        return;
    }
    let due: bool = match state.mobs[idx].pending_removal_tick {
        Some(t) => t <= tick,
        None => false,
    };
    if !due {
        assert(state.mobs@ =~= a.mobs@.update(idx as int, a.mobs@[idx as int]));
        return;
    }
    state.mobs[idx].pending_removal_tick = None;
    state.mobs[idx].dying = DEATH_ANIM_TICKS;
    state.mobs[idx].corpse_removal_tick = Some(tick + DEATH_ANIM_TICKS);
    proof {
        let m = state.mobs@[idx as int];
        assert(state.mobs@ =~= a.mobs@.update(idx as int, m));
        lemma_replace_same_footprint(a.mobs@, a.mob_occupancy@, a.id_to_idx@, idx as int, m);
        lemma_wf_update_mob(a, *state, idx as int);
    }
    hl_on_death(idx, state, tick);
}

/// Starts the death of every monster whose removal tick has come, with its side effects.
pub fn hl_process_pending_mob_deaths(state: &mut State, tick: i32)
    requires
        old(state).wf(),
        tick == old(state).tick,
    ensures
        final(state).wf(),
        same_frame(*final(state), *old(state)),
        final(state).mobs@.len() == old(state).mobs@.len(),
        forall|i: int| 0 <= i < old(state).mobs@.len() ==> #[trigger] final(state).mobs@[i]
            == death_step(old(state).mobs@[i], tick as int),
        final(state).player.x == old(state).player.x,
        final(state).player.y == old(state).player.y,
        final(state).player.attack_delay == old(state).player.attack_delay,
{
    let len: usize = state.mobs.len();
    let mut idx: usize = 0;
    while idx < len
        invariant
            idx <= len,
            len == state.mobs@.len(),
            state.wf(),
            same_frame(*state, *old(state)),
            tick == state.tick,
            forall|i: int| 0 <= i < idx ==> #[trigger] state.mobs@[i] == death_step(old(state).mobs@[i], tick as int),
            forall|i: int| idx <= i < len ==> #[trigger] state.mobs@[i] == old(state).mobs@[i],
            state.player.x == old(state).player.x,
            state.player.y == old(state).player.y,
            state.player.attack_delay == old(state).player.attack_delay,
        decreases len - idx,
    {
        start_death(state, idx, tick);
        idx = idx + 1;
    }
}

/// The three bloblets that a blob at `(x, y)` releases.
pub open spec fn bloblets_of(ms: Seq<Mob>, blob_x: int, blob_y: int, blob_id: usize, first_id: usize) -> bool {
    &&& ms.len() == 3
    &&& fresh_bloblet(ms[0], MobType::BlobletMage, blob_x + 2, blob_y - 2, first_id, blob_id)
    &&& fresh_bloblet(ms[1], MobType::BlobletRange, blob_x + 1, blob_y - 1, first_id.wrapping_add(1), blob_id)
    &&& fresh_bloblet(ms[2], MobType::BlobletMelee, blob_x, blob_y, first_id.wrapping_add(1).wrapping_add(1), blob_id)
}

/// A freshly released bloblet: frozen for a tick, attacking after four, with its parent.
pub open spec fn fresh_bloblet(m: Mob, t: MobType, x: int, y: int, id: usize, parent: usize) -> bool {
    &&& fresh_mob(Mob { frozen: 0i32, attack_delay: 0i32, parent_blob_id: None, ..m }, t, x as i32, y as i32, id)
    &&& m.x == x && m.y == y
    &&& m.frozen == 1
    &&& m.attack_delay == 4
    &&& m.parent_blob_id == Some(parent)
}

/// Appends a released bloblet with the next id, recording its starting hitpoints, its
/// index and its cells.
fn push_bloblet(state: &mut State, mob: Mob)
    requires
        old(state).wf(),
        mob_ok(mob, old(state).tick as int, old(state).loadout.max_hit as int),
        !mob.dead,
        mob.id == old(state).id_counter,
        mob.mob_type != MobType::Blob,
    ensures
        final(state).wf(),
        same_frame(*final(state), *old(state)),
        final(state).mobs@ == old(state).mobs@.push(mob),
        final(state).player == old(state).player,
        final(state).delayed_bloblet_spawns@ == old(state).delayed_bloblet_spawns@,
        final(state).id_counter == old(state).id_counter + 1,
{
    proof {
        reveal(State::wf);
    }
    set_mob_init(&mut state.mob_init_hp, &mut state.mob_init_len, mob.id, mob.hp);
    let new_idx: usize = state.mobs.len();
    let ghost mobs0 = state.mobs@;
    let ghost occ0 = state.mob_occupancy@;
    set_id_to_idx(&mut state.id_to_idx, mob.id, new_idx);
    state.mobs.push(mob);
    state.id_counter = state.mobs.len();
    assert(mob_geom_ok(state.mobs@[new_idx as int]));
    update_mob_occupancy(&mut state.mob_occupancy, new_idx, &state.mobs[new_idx], true);
    proof {
        lemma_occupancy_push(mobs0, occ0, state.mob_occupancy@, mob);
        lemma_dead_total_push(mobs0, mob);
        assert(mobs_ok(state.mobs@, state.tick as int, state.loadout.max_hit as int));
        assert(ids_ok(state.id_to_idx@, state.mobs@));
        assert forall|k: int| 0 <= k < state.delayed_bloblet_spawns@.len() implies
            -10 <= (#[trigger] state.delayed_bloblet_spawns@[k]).tick <= state.tick + 10
            && blob_id_ok(state.mobs@, state.delayed_bloblet_spawns@[k].blob_id) by {
            assert(blob_id_ok(mobs0, state.delayed_bloblet_spawns@[k].blob_id));
        }
    }
}

/// Releases the three bloblets of the blob with id `blob_id` (nothing when the id is
/// unknown): a mage bloblet two tiles right and down, a range bloblet one tile, a melee
/// bloblet on the blob's tile; each frozen for a tick, attacking after four, with the
/// next three ids.
pub fn hl_spawn_bloblets_from_blob(state: &mut State, blob_id: usize)
    requires
        old(state).wf(),
        forall|i: int| 0 <= i < old(state).mobs@.len() && (#[trigger] old(state).mobs@[i]).id == blob_id
            ==> old(state).mobs@[i].mob_type == MobType::Blob,
    ensures
        final(state).wf(),
        same_frame(*final(state), *old(state)),
        final(state).player == old(state).player,
        final(state).delayed_bloblet_spawns@ == old(state).delayed_bloblet_spawns@,
        (if blob_id < MAX_MOB_IDS { old(state).id_to_idx@[blob_id as int] } else { None }) matches Some(b) ==> {
            let blob = old(state).mobs@[b as int];
            &&& final(state).mobs@.subrange(0, old(state).mobs@.len() as int) == old(state).mobs@
            &&& bloblets_of(final(state).mobs@.subrange(old(state).mobs@.len() as int, final(state).mobs@.len() as int),
                blob.x as int, blob.y as int, blob_id, old(state).id_counter)
        },
        (if blob_id < MAX_MOB_IDS { old(state).id_to_idx@[blob_id as int] } else { None }) is None ==>
            final(state).mobs@ == old(state).mobs@,
        fresh_tail(old(state).mobs@, final(state).mobs@),
{
    let blob_idx: usize = match mob_idx_by_id(state, blob_id) {
        Some(i) => i,
        None => {
            assert(state.mobs@.subrange(0, state.mobs@.len() as int) =~= state.mobs@);
            return;
        },
    };
    let blob_x: i32 = state.mobs[blob_idx].x;
    let blob_y: i32 = state.mobs[blob_idx].y;
    proof {
        state.lemma_wf_mob(blob_idx as int);
        reveal(State::wf);
        assert(state.mobs@[blob_idx as int].mob_type == MobType::Blob);
    }
    let ghost mobs0 = state.mobs@;
    let ghost c0 = state.id_counter;
    let mut bm: Mob = hl_create_mob(MobType::BlobletMage, blob_x + 2, blob_y - 2, state.id_counter);
    bm.frozen = 1;
    bm.attack_delay = 4;
    bm.parent_blob_id = Some(blob_id);
    push_bloblet(state, bm);
    let mut br: Mob = hl_create_mob(MobType::BlobletRange, blob_x + 1, blob_y - 1, state.id_counter);
    br.frozen = 1;
    br.attack_delay = 4;
    br.parent_blob_id = Some(blob_id);
    push_bloblet(state, br);
    let mut bx: Mob = hl_create_mob(MobType::BlobletMelee, blob_x, blob_y, state.id_counter);
    bx.frozen = 1;
    bx.attack_delay = 4;
    bx.parent_blob_id = Some(blob_id);
    push_bloblet(state, bx);
    proof {
        assert(state.mobs@.subrange(0, mobs0.len() as int) =~= mobs0);
        assert(state.mobs@.subrange(mobs0.len() as int, state.mobs@.len() as int) =~= seq![bm, br, bx]);
        assert(state.mobs@ =~= mobs0.push(bm).push(br).push(bx));
        assert(c0 + 1 == c0.wrapping_add(1));
        assert((c0 + 1) as usize + 1 == ((c0 + 1) as usize).wrapping_add(1));
    }
}


/// Monsters that were just released as bloblets: new sight count, attack in four ticks.
pub open spec fn fresh_tail(before: Seq<Mob>, after: Seq<Mob>) -> bool {
    &&& before.len() <= after.len()
    &&& after.subrange(0, before.len() as int) == before
    &&& forall|k: int| before.len() <= k < after.len() ==> (#[trigger] after[k]).no_los_ticks == 0
        && after[k].attack_delay == 4
}

/// Releases the bloblets whose tick has come and keeps the others waiting, in order.
pub fn hl_process_delayed_bloblet_spawns(state: &mut State, tick: i32)
    requires
        old(state).wf(),
        tick == old(state).tick,
    ensures
        final(state).wf(),
        same_frame(*final(state), *old(state)),
        final(state).player == old(state).player,
        fresh_tail(old(state).mobs@, final(state).mobs@),
        final(state).delayed_bloblet_spawns@ == old(state).delayed_bloblet_spawns@.filter(|d: DelayedBlobletSpawn| d.tick > tick),
{
    let ghost orig = state.delayed_bloblet_spawns@;
    let ghost mobs0 = state.mobs@;
    if state.delayed_bloblet_spawns.len() == 0 {
        proof {
            assert(orig.filter(|d: DelayedBlobletSpawn| d.tick > tick) =~= orig);
            assert(state.mobs@.subrange(0, mobs0.len() as int) =~= mobs0);
        }
        return;
    }
    let ghost keep = |d: DelayedBlobletSpawn| d.tick > tick;
    assert(state.mobs@.subrange(0, mobs0.len() as int) =~= mobs0);
    assert(orig.subrange(0, 0).filter(keep) =~= Seq::<DelayedBlobletSpawn>::empty());
    let len: usize = state.delayed_bloblet_spawns.len();
    let mut write: usize = 0;
    let mut read: usize = 0;
    while read < len
        invariant
            write <= read <= len,
            len == orig.len(),
            state.delayed_bloblet_spawns@.len() == len,
            state.wf(),
            same_frame(*state, *old(state)),
            tick == state.tick,
            state.player == old(state).player,
            fresh_tail(mobs0, state.mobs@),
            forall|k: int| read <= k < len ==> #[trigger] state.delayed_bloblet_spawns@[k] == orig[k],
            keep == (|d: DelayedBlobletSpawn| d.tick > tick),
            state.delayed_bloblet_spawns@.subrange(0, write as int) == orig.subrange(0, read as int).filter(keep),
        decreases len - read,
    {
        let item: DelayedBlobletSpawn = state.delayed_bloblet_spawns[read];
        proof {
            reveal(State::wf);
            assert(orig.subrange(0, read + 1).drop_last() =~= orig.subrange(0, read as int));
            reveal_with_fuel(Seq::<_>::filter, 1);
        }
        if item.tick <= tick {
            let ghost m1 = state.mobs@;
            hl_spawn_bloblets_from_blob(state, item.blob_id);
            proof {
                assert(item == orig[read as int]);
                assert(state.mobs@.subrange(0, mobs0.len() as int) =~= m1.subrange(0, mobs0.len() as int)) by {
                    assert forall|k: int| 0 <= k < mobs0.len() implies state.mobs@[k] == m1[k] by {
                        assert(state.mobs@.subrange(0, m1.len() as int)[k] == m1[k]);
                    }
                }
                assert forall|k: int| mobs0.len() <= k < state.mobs@.len() implies (#[trigger] state.mobs@[k]).no_los_ticks == 0
                    && state.mobs@[k].attack_delay == 4 by {
                    if k < m1.len() {
                        assert(state.mobs@.subrange(0, m1.len() as int)[k] == m1[k]);
                    }
                }
            }
        } else {
            let ghost before = *state;
            state.delayed_bloblet_spawns.set(write, item);
            proof {
                reveal(State::wf);
                assert(state.delayed_bloblet_spawns@.subrange(0, write + 1) =~= before.delayed_bloblet_spawns@.subrange(0, write as int).push(item));
                assert forall|k: int| 0 <= k < state.delayed_bloblet_spawns@.len() implies
                    -10 <= (#[trigger] state.delayed_bloblet_spawns@[k]).tick <= state.tick + 10
                    && crate::state::blob_id_ok(state.mobs@, state.delayed_bloblet_spawns@[k].blob_id) by {
                    if k != write {
                        assert(state.delayed_bloblet_spawns@[k] == before.delayed_bloblet_spawns@[k]);
                    }
                }
            }
            write = write + 1;
        }
        proof {
            assert(orig[read as int] == item);
            assert(orig.subrange(0, read + 1) =~= orig.subrange(0, read as int).push(item));
            orig.subrange(0, read as int).lemma_filter_push(item, keep);
            if item.tick <= tick {
                assert(!keep(item));
                assert(orig.subrange(0, read + 1).filter(keep) == orig.subrange(0, read as int).filter(keep));
            } else {
                assert(keep(item));
                assert(orig.subrange(0, read + 1).filter(keep) == orig.subrange(0, read as int).filter(keep).push(item));
            }
            assert(state.delayed_bloblet_spawns@.subrange(0, write as int) == orig.subrange(0, read + 1).filter(keep));
        }
        read = read + 1;
    }
    let ghost before = *state;
    state.delayed_bloblet_spawns.truncate(write);
    proof {
        reveal(State::wf);
        assert(orig.subrange(0, len as int) =~= orig);
        assert(state.delayed_bloblet_spawns@ =~= before.delayed_bloblet_spawns@.subrange(0, write as int));
        assert forall|k: int| 0 <= k < state.delayed_bloblet_spawns@.len() implies
            -10 <= (#[trigger] state.delayed_bloblet_spawns@[k]).tick <= state.tick + 10
            && crate::state::blob_id_ok(state.mobs@, state.delayed_bloblet_spawns@[k].blob_id) by {
            assert(state.delayed_bloblet_spawns@[k] == before.delayed_bloblet_spawns@[k]);
        }
    }
}

} // verus!
