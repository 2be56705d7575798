use vstd::prelude::*;

use crate::dig::is_under_mob;
use crate::events::{AttackEvent, EVENT_NONE_I16, event_i16, event_i16_spec, event_id, event_id_spec, event_mob_type,
    event_mob_type_spec, event_style, event_style_spec};
use crate::mechanics::{collides_spec, dist_to_mob, mob_style_spec, dist_to_mob_spec, mob_style, monster_projectile_delay,
    monster_projectile_delay_spec, update_mob_occupancy};
use crate::queue::{MobProjectile, SmallQueue};
use crate::rng::{HALF_THRESHOLD, TENTH_THRESHOLD, mulberry_next_state, mulberry_output, roll_below};
use crate::runtime::Mob;
use crate::setup::find_respawn_location;
use crate::sight::{can_use_secondary_melee, mob_has_los, mob_los_spec};
use crate::state::{State, can_set_last_attacker_spec, has_dead_mob_for_revive, lemma_dead_total_bound, lemma_dead_total_update, lemma_occupancy_replace,
    lemma_replace_same_footprint, lemma_wf_player, lemma_wf_relevant, lemma_wf_update_mob, mob_idx_by_id,
    mob_projectiles_ok, pop_dead_mob_for_revive, same_frame, set_player_last_attacker, wf_relevant_eq};
use crate::types::{MobType, Style};

verus! {

/// What an attack changes besides the log and the player's incoming projectiles and
/// last attacker: nothing about the monsters, the player's position or its target.
pub open spec fn attack_frame(a: State<'_>, b: State<'_>) -> bool {
    &&& same_frame(b, a)
    &&& b.mobs@ == a.mobs@
    &&& b.player.x == a.player.x
    &&& b.player.y == a.player.y
    &&& b.player.aggro == a.player.aggro
    &&& b.player.attack_delay == a.player.attack_delay
}

/// How an attack of monster `m` is fired before any melee switch: whether it is a
/// blob's attack (given as [`Style::Blob`]), the style it logs, and the style its
/// projectile travels with. A blob's attack uses the style its scan picked (magic when
/// none); any other the given style, else the monster's current or own style.
pub open spec fn fire_style(m: Mob, style_or_blob: Option<Style>) -> (bool, Option<Style>, Style) {
    let is_blob = style_or_blob == Some(Style::Blob);
    let style0 = match style_or_blob {
        Some(Style::Blob) => None,
        Some(s) => Some(s),
        None => match m.current_style {
            Some(s) => Some(s),
            None => Some(mob_style_spec(m.mob_type)),
        },
    };
    let style1 = if style0 == Some(Style::Blob) {
        match m.current_style {
            Some(s) => Some(s),
            None => Some(Style::Magic),
        }
    } else {
        style0
    };
    let proj = if is_blob {
        match m.current_style {
            Some(s) => s,
            None => Style::Magic,
        }
    } else {
        match style1 {
            Some(s) => s,
            None => Style::Magic,
        }
    };
    (is_blob, style1, proj)
}

/// Whether monster `m` may switch to melee against the player on `(px, py)`: a mager,
/// ranger or blob standing next to the player.
pub open spec fn may_switch_melee(m: Mob, px: int, py: int) -> bool {
    (m.mob_type == MobType::Mager || m.mob_type == MobType::Ranger || m.mob_type == MobType::Blob)
        && dist_to_mob_spec(px, py, m) == 1
}

/// The attack that monster `idx` fires from state `a` with the generator at `s0`,
/// logged as `e` with the generator left at `s_end` and a projectile of delay `pd`
/// queued: a monster that may switch to
/// melee draws once and switches below the even-chance threshold; then the accuracy and
/// damage rolls are the next two draws, and the attack lands after the projectile delay
/// of its style.
pub open spec fn fired(a: State<'_>, s0: u32, idx: int, tick: i32, style_or_blob: Option<Style>, scan_tick: Option<i32>,
    e: AttackEvent, s_end: u32, pd: i32) -> bool {
    let m = a.mobs@[idx];
    let f = fire_style(m, style_or_blob);
    let can = may_switch_melee(m, a.player.x as int, a.player.y as int);
    let s1 = if can { mulberry_next_state(s0) } else { s0 };
    let switched = can && mulberry_output(s1) < HALF_THRESHOLD;
    let blob = f.0 && !switched;
    let style = if switched { Some(Style::Melee) } else { f.1 };
    let proj = if switched { Style::Melee } else { f.2 };
    let delay = monster_projectile_delay_spec(m, proj, a.player.x as int, a.player.y as int);
    let s2 = mulberry_next_state(s1);
    let s3 = mulberry_next_state(s2);
    &&& e.acc_roll == mulberry_output(s2)
    &&& e.dmg_roll == mulberry_output(s3)
    &&& s_end == s3
    &&& e.hit_tick == event_i16_spec(Some((tick + delay) as i32))
    &&& e.style == event_style_spec(if blob { None } else { style })
    &&& e.scan_tick == (if blob { match scan_tick { Some(t) => t, None => (tick - 3) as i32 } } else { -1i32 })
    &&& pd == delay + 1
}

/// Whether two snapshots of a monster fire alike: same kind, style and footprint.
pub open spec fn fires_alike(m1: Mob, m2: Mob) -> bool {
    &&& m1.mob_type == m2.mob_type
    &&& m1.current_style == m2.current_style
    &&& m1.x == m2.x
    &&& m1.y == m2.y
    &&& m1.size == m2.size
}

/// An attack fired from state `c` is the one fired from `a` where monster `idx` fires
/// alike and the player stands on the same tile.
proof fn lemma_fired_alike(a: State<'_>, c: State<'_>, s0: u32, idx: int, tick: i32, style_or_blob: Option<Style>,
    scan_tick: Option<i32>, e: AttackEvent, s_end: u32)
    requires
        0 <= idx < a.mobs@.len(),
        0 <= idx < c.mobs@.len(),
        fires_alike(a.mobs@[idx], c.mobs@[idx]),
        a.player.x == c.player.x,
        a.player.y == c.player.y,
        exists|pd: i32| #[trigger] fired(c, s0, idx, tick, style_or_blob, scan_tick, e, s_end, pd),
    ensures
        exists|pd: i32| #[trigger] fired(a, s0, idx, tick, style_or_blob, scan_tick, e, s_end, pd),
{
    let pd = choose|pd: i32| #[trigger] fired(c, s0, idx, tick, style_or_blob, scan_tick, e, s_end, pd);
    let m = a.mobs@[idx];
    let n = c.mobs@[idx];
    assert(fire_style(m, style_or_blob) == fire_style(n, style_or_blob));
    assert(dist_to_mob_spec(a.player.x as int, a.player.y as int, m) == dist_to_mob_spec(c.player.x as int, c.player.y as int, n));
    assert(forall|st: Style| monster_projectile_delay_spec(m, st, a.player.x as int, a.player.y as int)
        == #[trigger] monster_projectile_delay_spec(n, st, c.player.x as int, c.player.y as int));
    assert(fired(a, s0, idx, tick, style_or_blob, scan_tick, e, s_end, pd));
}

/// Fires an attack of monster `idx` at the player. The style is the given one, or for a
/// blob's attack (given as [`Style::Blob`]) the style its scan picked; a monster standing
/// next to the player may instead (even chance) strike in melee. The projectile is queued
/// towards the player, the monster may become the player's last attacker, and the attack
/// is logged with its accuracy and damage draws, its distance and the tick it lands.
pub fn hl_fire_attack(idx: usize, state: &mut State, tick: i32, style_or_blob: Option<Style>, scan_tick: Option<i32>)
    requires
        old(state).wf(),
        idx < old(state).mobs@.len(),
        tick == old(state).tick,
    ensures
        final(state).wf(),
        attack_frame(*old(state), *final(state)),
        final(state).attacks@.len() == old(state).attacks@.len() + 1,
        final(state).attacks@.subrange(0, old(state).attacks@.len() as int) == old(state).attacks@,
        ({
            let e = final(state).attacks@.last();
            let m = old(state).mobs@[idx as int];
            &&& e.tick == tick
            &&& e.mob_id == event_id_spec(Some(m.id))
            &&& e.target_mob_id == event_id_spec(None)
            &&& e.mob_type == event_mob_type_spec(Some(m.mob_type))
            &&& !e.is_scan && !e.is_player_attack && !e.is_revive
            &&& e.player_dmg == 0
            &&& e.dist_at_fire == event_i16_spec(Some(dist_to_mob_spec(old(state).player.x as int, old(state).player.y as int, m) as i32))
            &&& e.revive_hp == EVENT_NONE_I16
            &&& style_or_blob matches Some(st) ==> (st != Style::Blob ==>
                (e.style == event_style_spec(Some(st)) || e.style == event_style_spec(Some(Style::Melee))))
        }),
        final(state).player.incoming_projectiles.items().len() == old(state).player.incoming_projectiles.items().len() + 1,
        exists|pd: i32| #[trigger] fired(*old(state), old(state).rng.s, idx as int, tick, style_or_blob, scan_tick, final(state).attacks@.last(),
            final(state).rng.s, pd) && final(state).player.incoming_projectiles.items().to_multiset()
            == old(state).player.incoming_projectiles.items().to_multiset().insert(MobProjectile { delay: pd }),
        final(state).player.last_attacker == if can_set_last_attacker_spec(*old(state), old(state).mobs@[idx as int].id) {
            Some(old(state).mobs@[idx as int].id)
        } else {
            old(state).player.last_attacker
        },
{
    let ghost a = *state;
    proof {
        a.lemma_wf_mob(idx as int);
        a.lemma_wf_frame_links();
    }
    let mut is_blob_attack: bool = false;
    let mut style: Option<Style> = match style_or_blob {
        Some(Style::Blob) => {
            is_blob_attack = true;
            None
        },
        Some(s) => Some(s),
        None => match state.mobs[idx].current_style {
            Some(s) => Some(s),
            None => Some(mob_style(state.mobs[idx].mob_type)),
        },
    };
    if style == Some(Style::Blob) {
        style = match state.mobs[idx].current_style {
            Some(s) => Some(s),
            None => Some(Style::Magic),
        };
    }
    let mut projectile_style: Style = if is_blob_attack {
        match state.mobs[idx].current_style {
            Some(s) => s,
            None => Style::Magic,
        }
    } else {
        match style {
            Some(s) => s,
            None => Style::Magic,
        }
    };
    if can_use_secondary_melee(&state.mobs[idx], &state.player) {
        let roll: u32 = state.rng.next_u32();
        if roll_below(roll, HALF_THRESHOLD) {
            projectile_style = Style::Melee;
            style = Some(Style::Melee);
            is_blob_attack = false;
        }
    }
    let delay: i32 = monster_projectile_delay(&state.mobs[idx], projectile_style, &state.player);
    let edge_dist: i32 = dist_to_mob(state.player.x, state.player.y, &state.mobs[idx]);
    let mob_id: usize = state.mobs[idx].id;
    let mob_type: MobType = state.mobs[idx].mob_type;
    let ghost b = *state;
    let ghost items0 = state.player.incoming_projectiles.items();
    let ghost in0 = state.player.incoming_projectiles.inline@;
    let ghost of0 = state.player.incoming_projectiles.overflow@;
    state.player.incoming_projectiles.push(MobProjectile { delay: delay + 1 });
    proof {
        lemma_wf_relevant(a, b);
        let items = state.player.incoming_projectiles.items();
        assert(mob_projectiles_ok(items0));
        assert forall|k: int| 0 <= k < items.len() implies -10 <= (#[trigger] items[k]).delay <= 10 by {
            let in1 = state.player.incoming_projectiles.inline@;
            let of1 = state.player.incoming_projectiles.overflow@;
            if in0.len() < 32 {
                if k < in0.len() {
                    assert(items[k] == items0[k]);
                } else if k > in0.len() {
                    assert(items[k] == of0[k - in0.len() - 1]);
                    assert(items0[k - 1] == of0[k - in0.len() - 1]);
                }
            } else {
                if k < items0.len() {
                    if k < in0.len() {
                        assert(items[k] == items0[k]);
                    } else {
                        assert(items[k] == of1[k - in0.len()]);
                        assert(items0[k] == of0[k - in0.len()]);
                    }
                }
            }
        }
        lemma_wf_player(b, *state);
    }
    set_player_last_attacker(state, mob_id);
    let acc_roll: u32 = state.rng.next_u32();
    let dmg_roll: u32 = state.rng.next_u32();
    let event: AttackEvent = AttackEvent {
        tick,
        mob_id: event_id(Some(mob_id)),
        target_mob_id: event_id(None),
        mob_type: event_mob_type(Some(mob_type)),
        style: event_style(if is_blob_attack { None } else { style }),
        is_scan: false,
        scan_tick: if is_blob_attack {
            match scan_tick {
                Some(t) => t,
                None => tick - 3,
            }
        } else {
            -1
        },
        acc_roll,
        dmg_roll,
        dist_at_fire: event_i16(Some(edge_dist)),
        hit_tick: event_i16(Some(tick + delay)),
        is_player_attack: false,
        player_dmg: 0,
        is_revive: false,
        revive_hp: event_i16(None),
    };
    let ghost c = *state;
    proof {
        c.lemma_wf_attacks();
        c.lemma_wf_player_pos();
        crate::state::lemma_attacks_push(c.attacks@, event);
    }
    state.attacks.push(event);
    proof {
        lemma_wf_relevant(c, *state);
        assert(state.attacks@.subrange(0, a.attacks@.len() as int) =~= a.attacks@);
        assert(fired(a, a.rng.s, idx as int, tick, style_or_blob, scan_tick, state.attacks@.last(), state.rng.s, (delay + 1) as i32));
    }
}


/// A monster brought back to life with `hp` hitpoints, attacking after its period
/// and one tick, not stunned or frozen, and marked as revived.
pub open spec fn revived(m: Mob, hp: i32) -> Mob {
    Mob {
        revived_once: true,
        hp,
        dead: false,
        dying: -1i32,
        pending_removal_tick: None,
        corpse_removal_tick: None,
        attack_delay: (m.atk_speed + 1) as i32,
        stunned: 0i32,
        frozen: 0i32,
        ..m
    }
}

fn reset_for_revive(m: &mut Mob, hp: i32)
    requires
        old(m).atk_speed < i32::MAX,
    ensures
        *final(m) == revived(*old(m), hp),
{
    m.revived_once = true;
    m.hp = hp;
    m.dead = false;
    m.dying = -1;
    m.pending_removal_tick = None;
    m.corpse_removal_tick = None;
    m.attack_delay = m.atk_speed + 1;
    m.stunned = 0;
    m.frozen = 0;
}

/// Brings monster `ridx` (id `rid`) back with half its hitpoints at the first free
/// square of the respawn block, and logs the revive.
fn revive_mob(state: &mut State, ridx: usize, rid: usize, tick: i32)
    requires
        old(state).wf(),
        ridx < old(state).mobs@.len(),
        old(state).mobs@[ridx as int].id == rid,
        tick == old(state).tick,
    ensures
        final(state).wf(),
        same_frame(*final(state), *old(state)),
        final(state).mobs@.len() == old(state).mobs@.len(),
        forall|k: int| 0 <= k < old(state).mobs@.len() && k != ridx ==> #[trigger] final(state).mobs@[k] == old(state).mobs@[k],
        final(state).mobs@[ridx as int].attack_delay > 0,
        !final(state).mobs@[ridx as int].dead,
        final(state).mobs@[ridx as int].hp == (old(state).mobs@[ridx as int].max_hp / 2) as i32,
        final(state).mobs@[ridx as int].has_los == old(state).mobs@[ridx as int].has_los,
        final(state).mobs@[ridx as int].had_los == old(state).mobs@[ridx as int].had_los,
        final(state).mobs@[ridx as int].los_checked_tick == old(state).mobs@[ridx as int].los_checked_tick,
        final(state).mobs@[ridx as int].flickering == old(state).mobs@[ridx as int].flickering,
        final(state).mobs@[ridx as int].atk_speed == old(state).mobs@[ridx as int].atk_speed,
        final(state).player == old(state).player,
        final(state).attacks@.len() == old(state).attacks@.len() + 1,
        final(state).attacks@.subrange(0, old(state).attacks@.len() as int) == old(state).attacks@,
        final(state).attacks@.last().is_revive,
        final(state).attacks@.last().tick == tick,
        final(state).attacks@.last().mob_id == event_id_spec(Some(rid)),
        final(state).attacks@.last().revive_hp == event_i16_spec(Some((old(state).mobs@[ridx as int].max_hp / 2) as i32)),
        final(state).rng == old(state).rng,
{
    let ghost a = *state;
    proof {
        a.lemma_wf_mob(ridx as int);
        a.lemma_wf_frame_links();
    }
    let ghost m0 = a.mobs@[ridx as int];
    let revive_hp: i32 = state.mobs[ridx].max_hp / 2;
    update_mob_occupancy(&mut state.mob_occupancy, ridx, &state.mobs[ridx], false);
    let ghost occ1 = state.mob_occupancy@;
    if state.mobs[ridx].dead && state.dead_count > 0 {
        state.dead_count = state.dead_count - 1;
    }
    reset_for_revive(&mut state.mobs[ridx], revive_hp);
    let loc: crate::types::Point = find_respawn_location(state.mobs[ridx].size, state.region, state.mobs.as_slice());
    state.mobs[ridx].x = loc.x;
    state.mobs[ridx].y = loc.y;
    update_mob_occupancy(&mut state.mob_occupancy, ridx, &state.mobs[ridx], true);
    proof {
        let m = state.mobs@[ridx as int];
        assert(state.mobs@ =~= a.mobs@.update(ridx as int, m));
        lemma_occupancy_replace(a.mobs@, a.mob_occupancy@, occ1, state.mob_occupancy@, ridx as int, m);
        lemma_dead_total_update(a.mobs@, ridx as int, m);
        lemma_dead_total_bound(a.mobs@);
        lemma_wf_update_mob(a, *state, ridx as int);
    }
    let mob_type: MobType = state.mobs[ridx].mob_type;
    let event: AttackEvent = AttackEvent {
        tick,
        mob_id: event_id(Some(rid)),
        target_mob_id: event_id(None),
        mob_type: event_mob_type(Some(mob_type)),
        style: event_style(None),
        is_scan: false,
        scan_tick: -1,
        acc_roll: 0,
        dmg_roll: 0,
        dist_at_fire: event_i16(None),
        hit_tick: event_i16(None),
        is_player_attack: false,
        player_dmg: 0,
        is_revive: true,
        revive_hp: event_i16(Some(revive_hp)),
    };
    let ghost c = *state;
    proof {
        c.lemma_wf_attacks();
        c.lemma_wf_player_pos();
        crate::state::lemma_attacks_push(c.attacks@, event);
    }
    state.attacks.push(event);
    proof {
        lemma_wf_relevant(c, *state);
        assert(state.attacks@.subrange(0, a.attacks@.len() as int) =~= a.attacks@);
    }
}


/// What an attack step of monster `idx` keeps: the monsters' number, every other
/// monster's attack delay unless a revive reset it to a positive one, and the player's
/// position, target and attack delay.
pub open spec fn attack_step_keeps(a: State<'_>, b: State<'_>, idx: int) -> bool {
    &&& same_frame(b, a)
    &&& b.mobs@.len() == a.mobs@.len()
    &&& forall|k: int| 0 <= k < a.mobs@.len() && k != idx ==> (#[trigger] b.mobs@[k]).attack_delay == a.mobs@[k].attack_delay
        || b.mobs@[k].attack_delay > 0
    &&& b.player.x == a.player.x
    &&& b.player.y == a.player.y
    &&& b.player.aggro == a.player.aggro
    &&& b.player.attack_delay == a.player.attack_delay
}

/// Sets the attack-related fields of monster `idx`, keeping the invariant.
fn set_mob_attack_state(state: &mut State, idx: usize, attack_delay: i32, blob_scan_prayer: bool,
    last_scan_tick: Option<i32>, current_style: Option<Style>, flickering: bool)
    requires
        old(state).wf(),
        idx < old(state).mobs@.len(),
        -old(state).tick - 10 <= attack_delay <= 10,
        last_scan_tick matches Some(t) ==> -10 <= t <= old(state).tick,
    ensures
        final(state).wf(),
        same_frame(*final(state), *old(state)),
        final(state).mobs@.len() == old(state).mobs@.len(),
        forall|k: int| 0 <= k < old(state).mobs@.len() && k != idx ==> #[trigger] final(state).mobs@[k] == old(state).mobs@[k],
        final(state).mobs@[idx as int] == (Mob { attack_delay, blob_scan_prayer, last_scan_tick, current_style, flickering,
            ..old(state).mobs@[idx as int] }),
        final(state).player == old(state).player,
        final(state).attacks@ == old(state).attacks@,
        final(state).rng == old(state).rng,
{
    let ghost a = *state;
    proof {
        a.lemma_wf_mob(idx as int);
        a.lemma_wf_frame_links();
    }
    state.mobs[idx].attack_delay = attack_delay;
    state.mobs[idx].blob_scan_prayer = blob_scan_prayer;
    state.mobs[idx].last_scan_tick = last_scan_tick;
    state.mobs[idx].current_style = current_style;
    state.mobs[idx].flickering = flickering;
    proof {
        let m = state.mobs@[idx as int];
        assert(state.mobs@ =~= a.mobs@.update(idx as int, m));
        lemma_replace_same_footprint(a.mobs@, a.mob_occupancy@, a.id_to_idx@, idx as int, m);
        lemma_wf_update_mob(a, *state, idx as int);
    }
}

/// The sight a monster attacks with on `tick`: the check made this tick, else a fresh one.
pub open spec fn attack_sees(s: State<'_>, m: Mob, tick: int) -> bool {
    if m.los_checked_tick == tick {
        m.has_los
    } else {
        mob_los_spec(s.region.blocked@, m, s.player.x as int, s.player.y as int)
    }
}

/// Whether the player stands under a monster.
pub open spec fn player_under(s: State<'_>, m: Mob) -> bool {
    collides_spec(m.x as int, m.y as int, m.size as int, s.player.x as int, s.player.y as int, 1)
}

/// Refreshes monster `idx`'s line of sight for an attack (reusing this tick's check).
fn attack_sight(idx: usize, state: &mut State, tick: i32)
    requires
        old(state).wf(),
        idx < old(state).mobs@.len(),
        tick == old(state).tick,
    ensures
        final(state).wf(),
        same_frame(*final(state), *old(state)),
        final(state).mobs@.len() == old(state).mobs@.len(),
        forall|k: int| 0 <= k < old(state).mobs@.len() && k != idx ==> #[trigger] final(state).mobs@[k] == old(state).mobs@[k],
        final(state).mobs@[idx as int] == (Mob {
            has_los: attack_sees(*old(state), old(state).mobs@[idx as int], tick as int),
            had_los: old(state).mobs@[idx as int].has_los,
            los_checked_tick: tick,
            ..old(state).mobs@[idx as int] }),
        final(state).player == old(state).player,
        final(state).attacks@ == old(state).attacks@,
        final(state).rng == old(state).rng,
{
    let ghost a = *state;
    proof {
        a.lemma_wf_mob(idx as int);
        a.lemma_wf_frame_links();
    }
    let has_los: bool = if state.mobs[idx].los_checked_tick == tick {
        state.mobs[idx].has_los
    } else {
        mob_has_los(state.region, &state.mobs[idx], &state.player)
    };
    state.mobs[idx].had_los = state.mobs[idx].has_los;
    state.mobs[idx].has_los = has_los;
    state.mobs[idx].los_checked_tick = tick;
    proof {
        let m = state.mobs@[idx as int];
        assert(state.mobs@ =~= a.mobs@.update(idx as int, m));
        lemma_replace_same_footprint(a.mobs@, a.mob_occupancy@, a.id_to_idx@, idx as int, m);
        lemma_wf_update_mob(a, *state, idx as int);
    }
}

/// A monster that takes its turn: not dead, dying or stunned.
pub open spec fn mob_active(m: Mob) -> bool {
    !m.dead && m.dying <= 0 && m.stunned <= 0
}

/// The log after a turn is the log before with one more event.
pub open spec fn log_grew(a: State<'_>, b: State<'_>) -> bool {
    &&& b.attacks@.len() == a.attacks@.len() + 1
    &&& b.attacks@.subrange(0, a.attacks@.len() as int) == a.attacks@
}

/// The last logged event is an attack on the player (not a scan or a revive) by `m` on `tick`.
pub open spec fn fired_last(b: State<'_>, m: Mob, tick: int) -> bool {
    let e = b.attacks@.last();
    &&& e.tick == tick
    &&& e.mob_id == event_id_spec(Some(m.id))
    &&& !e.is_scan && !e.is_revive && !e.is_player_attack
}

/// The event of a blob's scan of the player's prayer.
pub open spec fn blob_scan_event(mob_id: usize, tick: i32) -> AttackEvent {
    AttackEvent {
        tick,
        mob_id: event_id_spec(Some(mob_id)),
        target_mob_id: event_id_spec(None),
        mob_type: event_mob_type_spec(Some(MobType::Blob)),
        style: event_style_spec(None),
        is_scan: true,
        scan_tick: tick,
        acc_roll: 0,
        dmg_roll: 0,
        dist_at_fire: event_i16_spec(None),
        hit_tick: event_i16_spec(None),
        is_player_attack: false,
        player_dmg: 0,
        is_revive: false,
        revive_hp: event_i16_spec(None),
    }
}

/// The turn of an ordinary monster (no flicker, not a blob) that `sees` the player:
/// with its attack ready and the player not under it, it attacks in its own style (or
/// in melee) and waits its attack period; otherwise nothing happens.
pub open spec fn plain_turn(a: State<'_>, b: State<'_>, idx: int, tick: int, sees: bool) -> bool {
    let m = a.mobs@[idx];
    let n = b.mobs@[idx];
    let fires = sees && m.attack_delay <= 0 && !player_under(a, m);
    &&& fires ==> log_grew(a, b) && fired_last(b, m, tick) && n.attack_delay == m.atk_speed
        && (b.attacks@.last().style == event_style_spec(Some(mob_style_spec(m.mob_type)))
            || b.attacks@.last().style == event_style_spec(Some(Style::Melee)))
    &&& fires ==> exists|pd: i32| #[trigger] fired(a, a.rng.s, idx, tick as i32, Some(mob_style_spec(m.mob_type)), None,
        b.attacks@.last(), b.rng.s, pd)
    &&& !fires ==> b.attacks@ == a.attacks@ && n.attack_delay == m.attack_delay && b.rng == a.rng
}

/// The mager's turn when it `sees` the player: it flickers in the tick before its
/// attack; with its attack ready and the player not under it, it either revives a
/// monster and waits twice its period, or attacks and waits its period.
pub open spec fn flicker_turn(a: State<'_>, b: State<'_>, idx: int, tick: int, sees: bool) -> bool {
    let m = a.mobs@[idx];
    let n = b.mobs@[idx];
    let acts = sees && m.attack_delay <= 0 && !player_under(a, m);
    &&& n.flickering == (m.attack_delay == 1 && sees)
    &&& !acts ==> b.attacks@ == a.attacks@ && n.attack_delay == m.attack_delay
    &&& acts ==> log_grew(a, b) && (
        (b.attacks@.last().is_revive && b.attacks@.last().tick == tick && n.attack_delay == 2 * m.atk_speed)
        || (fired_last(b, m, tick) && n.attack_delay == m.atk_speed))
    &&& !acts ==> b.rng == a.rng
    &&& acts ==> {
        let s1 = mulberry_next_state(a.rng.s);
        &&& b.attacks@.last().is_revive ==> mulberry_output(s1) < TENTH_THRESHOLD && b.rng.s == s1
        &&& !b.attacks@.last().is_revive ==> exists|pd: i32| #[trigger] fired(a, s1, idx, tick as i32, None, None,
            b.attacks@.last(), b.rng.s, pd)
    }
}

/// The tick a blob's pending scan was made on (three ticks back when none is recorded).
pub open spec fn blob_scan_tick(m: Mob, tick: i32) -> i32 {
    match m.last_scan_tick {
        Some(t) => t,
        None => (tick - 3) as i32,
    }
}

/// The blob's turn when it `sees` the player (and `had` sight before this tick): on
/// first sight, or with sight and its attack ready while no scan is pending, it scans
/// the player's prayer, picks magic or range and waits its period; with a scan pending
/// and its attack ready it attacks and waits its period; otherwise nothing happens.
pub open spec fn blob_turn(a: State<'_>, b: State<'_>, idx: int, tick: int, sees: bool, had: bool) -> bool {
    let m = a.mobs@[idx];
    let n = b.mobs@[idx];
    let scanning = m.blob_scan_prayer;
    let scans = sees && (!had || (!scanning && m.attack_delay <= 0));
    let fires = !scans && scanning && m.attack_delay <= 0;
    &&& scans ==> b.attacks@ == a.attacks@.push(blob_scan_event(m.id, tick as i32)) && n.blob_scan_prayer
        && n.attack_delay == m.atk_speed && n.last_scan_tick == Some(tick as i32)
        && (n.current_style == Some(Style::Magic) || n.current_style == Some(Style::Range))
    &&& fires ==> log_grew(a, b) && fired_last(b, m, tick) && !n.blob_scan_prayer && n.attack_delay == m.atk_speed
    &&& !scans && !fires ==> b.attacks@ == a.attacks@ && n.attack_delay == m.attack_delay && n.blob_scan_prayer == scanning
    &&& scans ==> b.rng.s == mulberry_next_state(a.rng.s) && n.current_style
        == (if mulberry_output(mulberry_next_state(a.rng.s)) < HALF_THRESHOLD { Some(Style::Magic) } else { Some(Style::Range) })
    &&& fires ==> exists|pd: i32| #[trigger] fired(a, a.rng.s, idx, tick as i32, Some(Style::Blob),
        Some(blob_scan_tick(m, tick as i32)), b.attacks@.last(), b.rng.s, pd)
    &&& !scans && !fires ==> b.rng == a.rng
}

/// The mager's attack once it is ready: with the drawn chance it revives the first
/// killed monster still waiting and rests twice as long; else it attacks.
fn revive_or_fire(idx: usize, state: &mut State, tick: i32, try_revive: bool)
    requires
        old(state).wf(),
        idx < old(state).mobs@.len(),
        tick == old(state).tick,
    ensures
        final(state).wf(),
        attack_step_keeps(*old(state), *final(state), idx as int),
        log_grew(*old(state), *final(state)),
        ({
            let m = old(state).mobs@[idx as int];
            let n = final(state).mobs@[idx as int];
            &&& (final(state).attacks@.last().is_revive && final(state).attacks@.last().tick == tick
                    && n.attack_delay == 2 * m.atk_speed)
                || (fired_last(*final(state), m, tick as int) && n.attack_delay == m.atk_speed)
            &&& n.flickering == m.flickering
            &&& n.has_los == m.has_los && n.had_los == m.had_los && n.los_checked_tick == m.los_checked_tick
        }),
        final(state).attacks@.last().is_revive ==> try_revive && final(state).rng == old(state).rng,
        !final(state).attacks@.last().is_revive ==> exists|pd: i32| #[trigger] fired(*old(state), old(state).rng.s, idx as int,
            tick, None, None, final(state).attacks@.last(), final(state).rng.s, pd),
{
    if try_revive && has_dead_mob_for_revive(state) {
        let popped: Option<usize> = pop_dead_mob_for_revive(state);
        let revive_id: usize = match popped {
            Some(r) => r,
            None => return,
        };
        if let Some(ridx) = mob_idx_by_id(state, revive_id) {
            revive_mob(state, ridx, revive_id, tick);
            proof {
                state.lemma_wf_mob(idx as int);
            }
            let speed: i32 = state.mobs[idx].atk_speed;
            let bsp2: bool = state.mobs[idx].blob_scan_prayer;
            let lst2: Option<i32> = state.mobs[idx].last_scan_tick;
            let cs2: Option<Style> = state.mobs[idx].current_style;
            let fl2: bool = state.mobs[idx].flickering;
            set_mob_attack_state(state, idx, speed * 2, bsp2, lst2, cs2, fl2);
            return;
        }
    }
    let ghost c = *state;
    hl_fire_attack(idx, state, tick, None, None);
    proof {
        state.lemma_wf_mob(idx as int);
        lemma_fired_alike(*old(state), c, c.rng.s, idx as int, tick, None, None, state.attacks@.last(), state.rng.s);
    }
    let speed: i32 = state.mobs[idx].atk_speed;
    let bsp3: bool = state.mobs[idx].blob_scan_prayer;
    let lst3: Option<i32> = state.mobs[idx].last_scan_tick;
    let cs3: Option<Style> = state.mobs[idx].current_style;
    let fl3: bool = state.mobs[idx].flickering;
    set_mob_attack_state(state, idx, speed, bsp3, lst3, cs3, fl3);
}

/// The mager's turn: it flickers in the tick before it attacks; with sight, its
/// attack ready and the player not under it, it revives the first killed monster still
/// waiting (a tenth chance, then it rests twice as long) or attacks.
fn flicker_attack(idx: usize, state: &mut State, tick: i32)
    requires
        old(state).wf(),
        idx < old(state).mobs@.len(),
        tick == old(state).tick,
    ensures
        final(state).wf(),
        attack_step_keeps(*old(state), *final(state), idx as int),
        flicker_turn(*old(state), *final(state), idx as int, tick as int, old(state).mobs@[idx as int].has_los),
        ({
            let m = old(state).mobs@[idx as int];
            let n = final(state).mobs@[idx as int];
            n.has_los == m.has_los && n.had_los == m.had_los && n.los_checked_tick == m.los_checked_tick
        }),
{
    proof {
        state.lemma_wf_mob(idx as int);
    }
    let flickering: bool = state.mobs[idx].attack_delay == 1 && state.mobs[idx].has_los;
    let ad: i32 = state.mobs[idx].attack_delay;
    let bsp: bool = state.mobs[idx].blob_scan_prayer;
    let lst: Option<i32> = state.mobs[idx].last_scan_tick;
    let cs: Option<Style> = state.mobs[idx].current_style;
    set_mob_attack_state(state, idx, ad, bsp, lst, cs, flickering);
    proof {
        state.lemma_wf_mob(idx as int);
        state.lemma_wf_player_pos();
    }
    if !state.mobs[idx].has_los || state.mobs[idx].attack_delay > 0 || is_under_mob(&state.mobs[idx], &state.player) {
        return;
    }
    let ghost b = *state;
    let roll: u32 = state.rng.next_u32();
    proof {
        lemma_wf_relevant(b, *state);
    }
    let ghost d = *state;
    revive_or_fire(idx, state, tick, roll_below(roll, TENTH_THRESHOLD));
    proof {
        assert((tick as int) as i32 == tick);
        assert(d.rng.s == mulberry_next_state(old(state).rng.s));
        if !state.attacks@.last().is_revive {
            lemma_fired_alike(*old(state), d, d.rng.s, idx as int, tick, None, None, state.attacks@.last(), state.rng.s);
        }
    }
}


/// Logs a blob's scan of the player's prayer on `tick`.
fn log_scan(state: &mut State, idx: usize, tick: i32)
    requires
        old(state).wf(),
        idx < old(state).mobs@.len(),
        tick == old(state).tick,
    ensures
        final(state).wf(),
        wf_relevant_eq(*old(state), *final(state)),
        final(state).rng == old(state).rng,
        final(state).attacks@ == old(state).attacks@.push(AttackEvent {
            tick,
            mob_id: event_id_spec(Some(old(state).mobs@[idx as int].id)),
            target_mob_id: event_id_spec(None),
            mob_type: event_mob_type_spec(Some(MobType::Blob)),
            style: event_style_spec(None),
            is_scan: true,
            scan_tick: tick,
            acc_roll: 0,
            dmg_roll: 0,
            dist_at_fire: event_i16_spec(None),
            hit_tick: event_i16_spec(None),
            is_player_attack: false,
            player_dmg: 0,
            is_revive: false,
            revive_hp: event_i16_spec(None),
        }),
{
    let mob_id: usize = state.mobs[idx].id;
    let event: AttackEvent = AttackEvent {
        tick,
        mob_id: event_id(Some(mob_id)),
        target_mob_id: event_id(None),
        mob_type: event_mob_type(Some(MobType::Blob)),
        style: event_style(None),
        is_scan: true,
        scan_tick: tick,
        acc_roll: 0,
        dmg_roll: 0,
        dist_at_fire: event_i16(None),
        hit_tick: event_i16(None),
        is_player_attack: false,
        player_dmg: 0,
        is_revive: false,
        revive_hp: event_i16(None),
    };
    let ghost a = *state;
    proof {
        a.lemma_wf_attacks();
        a.lemma_wf_player_pos();
        crate::state::lemma_attacks_push(a.attacks@, event);
    }
    state.attacks.push(event);
    proof {
        lemma_wf_relevant(a, *state);
    }
}

/// The blob's turn: on first sight, or with sight and its attack ready while no scan
/// is pending, it scans the player's prayer (and picks magic or range at even chance);
/// with a scan pending and its attack ready it attacks in the picked style.
fn blob_attack(idx: usize, state: &mut State, tick: i32)
    requires
        old(state).wf(),
        idx < old(state).mobs@.len(),
        tick == old(state).tick,
    ensures
        final(state).wf(),
        attack_step_keeps(*old(state), *final(state), idx as int),
        blob_turn(*old(state), *final(state), idx as int, tick as int, old(state).mobs@[idx as int].has_los,
            old(state).mobs@[idx as int].had_los),
        ({
            let m = old(state).mobs@[idx as int];
            let n = final(state).mobs@[idx as int];
            n.has_los == m.has_los && n.had_los == m.had_los && n.los_checked_tick == m.los_checked_tick
        }),
{
    proof {
        state.lemma_wf_mob(idx as int);
    }
    let has_los: bool = state.mobs[idx].has_los;
    let had_los: bool = state.mobs[idx].had_los;
    let scanning: bool = state.mobs[idx].blob_scan_prayer;
    let ad: i32 = state.mobs[idx].attack_delay;
    if !has_los && !scanning {
        return;
    }
    if has_los && (!had_los || (!scanning && ad <= 0)) {
        let ghost b = *state;
        let roll: u32 = state.rng.next_u32();
        proof {
            lemma_wf_relevant(b, *state);
        }
        let style: Style = if roll_below(roll, HALF_THRESHOLD) { Style::Magic } else { Style::Range };
        let speed: i32 = state.mobs[idx].atk_speed;
        let fl: bool = state.mobs[idx].flickering;
        set_mob_attack_state(state, idx, speed, true, Some(tick), Some(style), fl);
        log_scan(state, idx, tick);
        return;
    }
    if scanning && ad <= 0 {
        let scan_tick: i32 = match state.mobs[idx].last_scan_tick {
            Some(t) => t,
            None => tick - 3,
        };
        hl_fire_attack(idx, state, tick, Some(Style::Blob), Some(scan_tick));
        proof {
            state.lemma_wf_mob(idx as int);
            assert((tick as int) as i32 == tick);
            assert(scan_tick == blob_scan_tick(old(state).mobs@[idx as int], tick));
        }
        let speed: i32 = state.mobs[idx].atk_speed;
        let lst: Option<i32> = state.mobs[idx].last_scan_tick;
        let cs: Option<Style> = state.mobs[idx].current_style;
        let fl: bool = state.mobs[idx].flickering;
        set_mob_attack_state(state, idx, speed, false, lst, cs, fl);
    }
}

/// Monster `idx`'s attack turn, from state `a` to state `b`: an inactive monster does
/// nothing; an active one refreshes its sight of the player and takes the turn of its
/// kind.
pub open spec fn mob_attack_turn(a: State<'_>, b: State<'_>, idx: int, tick: int) -> bool {
    let m = a.mobs@[idx];
    let n = b.mobs@[idx];
    let sees = attack_sees(a, m, tick);
    &&& attack_step_keeps(a, b, idx)
    &&& !mob_active(m) ==> b == a
    &&& mob_active(m) ==> {
        &&& n.has_los == sees && n.had_los == m.has_los && n.los_checked_tick == tick
        &&& m.has_flicker ==> flicker_turn(a, b, idx, tick, sees)
        &&& !m.has_flicker && m.is_blob ==> blob_turn(a, b, idx, tick, sees, m.has_los)
        &&& !m.has_flicker && !m.is_blob ==> plain_turn(a, b, idx, tick, sees)
    }
}

/// Monster `idx`'s attack turn on `tick`. A dead, dying or stunned monster does
/// nothing; otherwise it refreshes its line of sight, and then the mager flickers,
/// revives or attacks, the blob scans or attacks, and any other monster attacks in its
/// own style when it sees the player, its attack is ready and the player is not under it.
#[verifier::rlimit(60)]
#[verifier::spinoff_prover]
pub fn hl_mob_attack(idx: usize, state: &mut State, tick: i32)
    requires
        old(state).wf(),
        idx < old(state).mobs@.len(),
        tick == old(state).tick,
    ensures
        final(state).wf(),
        mob_attack_turn(*old(state), *final(state), idx as int, tick as int),
{
    if state.mobs[idx].dead || state.mobs[idx].dying > 0 || state.mobs[idx].stunned > 0 {
        return;
    }
    attack_sight(idx, state, tick);
    let ghost c = *state;
    assert((tick as int) as i32 == tick);
    if state.mobs[idx].has_flicker {
        flicker_attack(idx, state, tick);
        proof {
            let s1 = mulberry_next_state(c.rng.s);
            if state.attacks@.len() > c.attacks@.len() && !state.attacks@.last().is_revive {
                lemma_fired_alike(*old(state), c, s1, idx as int, tick, None, None, state.attacks@.last(), state.rng.s);
            }
        }
        return;
    }
    if state.mobs[idx].is_blob {
        blob_attack(idx, state, tick);
        proof {
            let m = c.mobs@[idx as int];
            if !(m.has_los && (!m.had_los || (!m.blob_scan_prayer && m.attack_delay <= 0)))
                && m.blob_scan_prayer && m.attack_delay <= 0 {
                let m0 = old(state).mobs@[idx as int];
                assert(blob_scan_tick(m, tick) == blob_scan_tick(m0, tick));
                lemma_fired_alike(*old(state), c, c.rng.s, idx as int, tick, Some(Style::Blob),
                    Some(blob_scan_tick(m0, tick)), state.attacks@.last(), state.rng.s);
            }
        }
        return;
    }
    proof {
        state.lemma_wf_mob(idx as int);
        state.lemma_wf_player_pos();
    }
    if !state.mobs[idx].has_los || state.mobs[idx].attack_delay > 0 || is_under_mob(&state.mobs[idx], &state.player) {
        return;
    }
    let style: Style = mob_style(state.mobs[idx].mob_type);
    hl_fire_attack(idx, state, tick, Some(style), None);
    proof {
        state.lemma_wf_mob(idx as int);
        lemma_fired_alike(*old(state), c, c.rng.s, idx as int, tick, Some(style), None, state.attacks@.last(), state.rng.s);
    }
    let speed: i32 = state.mobs[idx].atk_speed;
    let bsp: bool = state.mobs[idx].blob_scan_prayer;
    let lst: Option<i32> = state.mobs[idx].last_scan_tick;
    let cs: Option<Style> = state.mobs[idx].current_style;
    let fl: bool = state.mobs[idx].flickering;
    set_mob_attack_state(state, idx, speed, bsp, lst, cs, fl);
}

} // verus!
