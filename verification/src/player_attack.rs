use vstd::prelude::*;

use crate::constants::{blood_barrage_offset, blood_barrage_offset_spec};
use crate::events::{AttackEvent, event_i16, event_i16_spec, event_id, event_id_spec, event_mob_type, event_mob_type_spec,
    event_style, event_style_spec};
use crate::mechanics::{player_projectile_delay, player_projectile_delay_spec};
use crate::queue::{PlayerProjectile, SmallQueue};
use crate::rng::{roll_below, scale_roll, scale_roll_spec, mulberry_next_state, mulberry_output};
use crate::runtime::Mob;
use crate::sight::{player_has_los, player_los_spec};
use crate::state::{State, mob_of, lemma_replace_same_footprint, lemma_wf_player, lemma_wf_relevant, lemma_wf_update_mob,
    mob_idx_by_id, mob_projectiles_ok, player_projectiles_ok, same_frame, wf_relevant_eq};
use crate::types::{MobType, mob_type_index};

verus! {

/// What a player attack keeps: the monsters' number and everything of them but their
/// incoming projectiles, and the player's position and target.
pub open spec fn player_attack_keeps(a: State<'_>, b: State<'_>) -> bool {
    &&& same_frame(b, a)
    &&& b.mobs@.len() == a.mobs@.len()
    &&& forall|k: int| 0 <= k < a.mobs@.len() ==> (#[trigger] b.mobs@[k]).attack_delay == a.mobs@[k].attack_delay
        && b.mobs@[k].dead == a.mobs@[k].dead
    &&& b.player.x == a.player.x
    &&& b.player.y == a.player.y
    &&& b.player.aggro == a.player.aggro
}

/// The log entry of a player attack on monster `target_id`, landing on `hit_tick`.
pub open spec fn player_attack_event_spec(tick: i32, target_id: usize, hit_tick: i32, damage: i32) -> AttackEvent {
    AttackEvent {
        tick,
        mob_id: event_id_spec(None),
        target_mob_id: event_id_spec(Some(target_id)),
        mob_type: event_mob_type_spec(None),
        style: event_style_spec(None),
        is_scan: false,
        scan_tick: -1i32,
        acc_roll: 0u32,
        dmg_roll: 0u32,
        dist_at_fire: event_i16_spec(None),
        hit_tick: event_i16_spec(Some(hit_tick)),
        is_player_attack: true,
        player_dmg: damage,
        is_revive: false,
        revive_hp: event_i16_spec(None),
    }
}

/// The log entry of a player attack.
pub fn player_attack_event(tick: i32, target_id: usize, hit_tick: i32, damage: i32) -> (r: AttackEvent)
    ensures
        r == player_attack_event_spec(tick, target_id, hit_tick, damage),
{
    AttackEvent {
        tick,
        mob_id: event_id(None),
        target_mob_id: event_id(Some(target_id)),
        mob_type: event_mob_type(None),
        style: event_style(None),
        is_scan: false,
        scan_tick: -1,
        acc_roll: 0,
        dmg_roll: 0,
        dist_at_fire: event_i16(None),
        hit_tick: event_i16(Some(hit_tick)),
        is_player_attack: true,
        player_dmg: damage,
        is_revive: false,
        revive_hp: event_i16(None),
    }
}

/// Rolls a player hit on a monster kind: the accuracy draw is compared with the
/// loadout's accuracy against the kind (its first entry after a hit, its second after a
/// miss); a hit deals the damage draw scaled onto `0..=max_hit`, a miss nothing. The
/// main target's roll records whether it hit.
pub fn roll_player_damage(state: &mut State, mob_type: MobType, update_last_hit: bool) -> (r: i32)
    requires
        old(state).wf(),
    ensures
        final(state).wf(),
        0 <= r <= old(state).loadout.max_hit,
        same_frame(*final(state), *old(state)),
        final(state).mobs@ == old(state).mobs@,
        final(state).player.x == old(state).player.x,
        final(state).player.y == old(state).player.y,
        final(state).player.aggro == old(state).player.aggro,
        final(state).player.attack_delay == old(state).player.attack_delay,
        final(state).attacks@ == old(state).attacks@,
        final(state).player.incoming_projectiles == old(state).player.incoming_projectiles,
        final(state).rng.s == mulberry_next_state(old(state).rng.s)
            || final(state).rng.s == mulberry_next_state(mulberry_next_state(old(state).rng.s)),
{
    let ghost a = *state;
    proof {
        a.lemma_wf_player_pos();
        a.lemma_wf_frame_links();
    }
    let row: [u64; 2] = state.loadout.player_acc[mob_type.idx()];
    let acc: u64 = if state.player.last_hit { row[0] } else { row[1] };
    let roll: u32 = state.rng.next_u32();
    let hit: bool = roll_below(roll, acc);
    if update_last_hit {
        state.player.last_hit = hit;
    }
    proof {
        lemma_wf_player(a, *state);
    }
    if hit {
        let ghost b = *state;
        let d: u32 = state.rng.next_u32();
        proof {
            lemma_wf_relevant(b, *state);
        }
        let n: i64 = state.loadout.max_hit as i64 + 1;
        let v: i64 = scale_roll(d, n);
        v as i32
    } else {
        0
    }
}

/// Queues a player projectile of `damage` towards monster `target_idx` and logs the
/// attack; it lands after the player's projectile delay.
pub fn queue_player_projectile(state: &mut State, target_idx: usize, tick: i32, damage: i32)
    requires
        old(state).wf(),
        target_idx < old(state).mobs@.len(),
        tick == old(state).tick,
        0 <= damage <= old(state).loadout.max_hit,
    ensures
        final(state).wf(),
        player_attack_keeps(*old(state), *final(state)),
        final(state).player.attack_delay == old(state).player.attack_delay,
        final(state).player.incoming_projectiles == old(state).player.incoming_projectiles,
        forall|k: int| 0 <= k < old(state).mobs@.len() && k != target_idx ==> #[trigger] final(state).mobs@[k] == old(state).mobs@[k],
        final(state).mobs@[target_idx as int] == (Mob {
            incoming_projectiles: final(state).mobs@[target_idx as int].incoming_projectiles,
            ..old(state).mobs@[target_idx as int]
        }),
        final(state).attacks@ == old(state).attacks@.push(player_attack_event_spec(tick, old(state).mobs@[target_idx as int].id,
            (tick + player_projectile_delay_spec(*old(state).loadout, old(state).player.x as int, old(state).player.y as int,
                old(state).mobs@[target_idx as int])) as i32, damage)),
{
    let ghost a = *state;
    proof {
        a.lemma_wf_mob(target_idx as int);
        a.lemma_wf_player_pos();
        a.lemma_wf_frame_links();
    }
    let delay: i32 = player_projectile_delay(state.loadout, state.player.x, state.player.y, &state.mobs[target_idx]);
    let target_id: usize = state.mobs[target_idx].id;
    let ghost q0 = state.mobs@[target_idx as int].incoming_projectiles;
    state.mobs[target_idx].incoming_projectiles.push(PlayerProjectile { delay, damage });
    proof {
        let m = state.mobs@[target_idx as int];
        let q1 = m.incoming_projectiles;
        let items0 = q0.items();
        let items = q1.items();
        assert(player_projectiles_ok(items0, a.loadout.max_hit as int));
        assert forall|k: int| 0 <= k < items.len() implies -10 <= (#[trigger] items[k]).delay <= 10
            && 0 <= items[k].damage <= a.loadout.max_hit by {
            if q0.inline@.len() < 8 {
                if k < q0.inline@.len() {
                    assert(items[k] == items0[k]);
                } else if k > q0.inline@.len() {
                    assert(items[k] == q0.overflow@[k - q0.inline@.len() - 1]);
                    assert(items0[k - 1] == q0.overflow@[k - q0.inline@.len() - 1]);
                }
            } else {
                if k < items0.len() {
                    if k < q0.inline@.len() {
                        assert(items[k] == items0[k]);
                    } else {
                        assert(items[k] == q1.overflow@[k - q0.inline@.len()]);
                        assert(items0[k] == q0.overflow@[k - q0.inline@.len()]);
                    }
                }
            }
        }
        assert(state.mobs@ =~= a.mobs@.update(target_idx as int, m));
        lemma_replace_same_footprint(a.mobs@, a.mob_occupancy@, a.id_to_idx@, target_idx as int, m);
        lemma_wf_update_mob(a, *state, target_idx as int);
    }
    let event: AttackEvent = player_attack_event(tick, target_id, tick + delay, damage);
    let ghost b = *state;
    proof {
        b.lemma_wf_attacks();
        b.lemma_wf_player_pos();
        crate::state::lemma_attacks_push(b.attacks@, event);
    }
    state.attacks.push(event);
    proof {
        lemma_wf_relevant(b, *state);
    }
}

/// Whether blood barrage splashes onto a monster standing at `(x, y)`: it is alive, not
/// dying and not about to be removed.
pub fn blood_barrage_can_splash(mob: &Mob, x: i32, y: i32) -> (r: bool)
    ensures
        r == (!mob.dead && mob.dying <= 0 && mob.pending_removal_tick is None && mob.x == x && mob.y == y),
{
    !mob.dead && mob.dying <= 0 && mob.pending_removal_tick.is_none() && mob.x == x && mob.y == y
}

/// Whether blood barrage can splash onto monster `m` at `(x, y)`.
pub open spec fn splashable(m: Mob, x: int, y: int) -> bool {
    !m.dead && m.dying <= 0 && m.pending_removal_tick is None && m.x == x && m.y == y
}

/// The first monster from index `i` on, other than `primary`, that a splash onto
/// `(x, y)` hits.
pub open spec fn first_splash(mobs: Seq<Mob>, primary: int, x: int, y: int, i: int) -> Option<int>
    decreases mobs.len() - i,
{
    if i < 0 || i >= mobs.len() {
        None
    } else if i != primary && splashable(mobs[i], x, y) {
        Some(i)
    } else {
        first_splash(mobs, primary, x, y, i + 1)
    }
}

/// The monsters a blood barrage on the monster at `(tx, ty)` splashes onto over its
/// first `o` offsets, in order: for each offset, the first monster standing there.
pub open spec fn splash_targets(mobs: Seq<Mob>, primary: int, tx: int, ty: int, o: int) -> Seq<int>
    decreases o,
{
    if o <= 0 {
        Seq::empty()
    } else {
        let prev = splash_targets(mobs, primary, tx, ty, o - 1);
        let off = blood_barrage_offset_spec(o - 1);
        match first_splash(mobs, primary, tx + off.0, ty + off.1, 0) {
            Some(k) => prev.push(k),
            None => prev,
        }
    }
}

/// Whether log entry `e` is a splash hit on monster `k` of state `a`: a player attack of
/// this tick with its own damage roll, landing after the projectile delay.
pub open spec fn splash_event_ok(a: State<'_>, e: AttackEvent, k: int, tick: i32) -> bool {
    &&& e == player_attack_event_spec(tick, a.mobs@[k].id,
        (tick + player_projectile_delay_spec(*a.loadout, a.player.x as int, a.player.y as int, a.mobs@[k])) as i32,
        e.player_dmg)
    &&& 0 <= e.player_dmg <= a.loadout.max_hit
}

/// Blood barrage splashes: for each of the eight tiles around the main target (while
/// fewer than nine monsters were hit), the first other monster standing there that can
/// be splashed takes a rolled hit of its own: a projectile towards it and an entry in
/// the log, in the order of the tiles.
pub fn hl_player_blood_barrage_splash(primary_idx: usize, state: &mut State, tick: i32)
    requires
        old(state).wf(),
        primary_idx < old(state).mobs@.len(),
        tick == old(state).tick,
    ensures
        final(state).wf(),
        player_attack_keeps(*old(state), *final(state)),
        final(state).player.attack_delay == old(state).player.attack_delay,
        final(state).mobs@[primary_idx as int] == old(state).mobs@[primary_idx as int],
        old(state).attacks@.len() <= final(state).attacks@.len(),
        final(state).attacks@.subrange(0, old(state).attacks@.len() as int) == old(state).attacks@,
        ({
            let a = *old(state);
            let ts = splash_targets(a.mobs@, primary_idx as int, a.mobs@[primary_idx as int].x as int,
                a.mobs@[primary_idx as int].y as int, 8);
            &&& final(state).attacks@.len() == a.attacks@.len() + ts.len()
            &&& forall|i: int| 0 <= i < ts.len() ==>
                splash_event_ok(a, #[trigger] final(state).attacks@[a.attacks@.len() + i], ts[i], tick)
            &&& forall|k: int| 0 <= k < a.mobs@.len() ==> #[trigger] final(state).mobs@[k] == (Mob {
                    incoming_projectiles: final(state).mobs@[k].incoming_projectiles,
                    ..a.mobs@[k]
                })
            &&& forall|k: int| 0 <= k < a.mobs@.len() && !ts.contains(k) ==> #[trigger] final(state).mobs@[k] == a.mobs@[k]
        }),
{
    proof {
        state.lemma_wf_mob(primary_idx as int);
    }
    let target_x: i32 = state.mobs[primary_idx].x;
    let target_y: i32 = state.mobs[primary_idx].y;
    let mut hit_count: usize = 1;
    let mut o: usize = 0;
    let ghost a = *state;
    let ghost pr = primary_idx as int;
    while o < 8 && hit_count < 9
        invariant
            o <= 8,
            hit_count <= o + 1,
            state.wf(),
            tick == state.tick,
            primary_idx < state.mobs@.len(),
            pr == primary_idx as int,
            a.mobs@.len() == state.mobs@.len(),
            target_x == a.mobs@[pr].x,
            target_y == a.mobs@[pr].y,
            player_attack_keeps(a, *state),
            state.player.attack_delay == a.player.attack_delay,
            state.mobs@[primary_idx as int] == a.mobs@[primary_idx as int],
            a.attacks@.len() <= state.attacks@.len(),
            state.attacks@.subrange(0, a.attacks@.len() as int) == a.attacks@,
            -8 <= target_x <= 72,
            -8 <= target_y <= 72,
            ({
                let ts = splash_targets(a.mobs@, pr, target_x as int, target_y as int, o as int);
                &&& state.attacks@.len() == a.attacks@.len() + ts.len()
                &&& forall|i: int| 0 <= i < ts.len() ==>
                    splash_event_ok(a, #[trigger] state.attacks@[a.attacks@.len() + i], ts[i], tick)
                &&& forall|k: int| 0 <= k < a.mobs@.len() ==> #[trigger] state.mobs@[k] == (Mob {
                        incoming_projectiles: state.mobs@[k].incoming_projectiles,
                        ..a.mobs@[k]
                    })
                &&& forall|k: int| 0 <= k < a.mobs@.len() && !ts.contains(k) ==> #[trigger] state.mobs@[k] == a.mobs@[k]
            }),
        decreases 8 - o,
    {
        let (ox, oy) = blood_barrage_offset(o);
        let ax: i32 = target_x + ox;
        let ay: i32 = target_y + oy;
        let ghost ts0 = splash_targets(a.mobs@, pr, target_x as int, target_y as int, o as int);
        let ghost ts1 = splash_targets(a.mobs@, pr, target_x as int, target_y as int, o + 1);
        let ghost first = first_splash(a.mobs@, pr, ax as int, ay as int, 0);
        proof {
            assert(ts1 == match first { Some(k) => ts0.push(k), None => ts0 });
        }
        let len: usize = state.mobs.len();
        let mut mob_idx: usize = 0;
        let mut done: bool = false;
        while mob_idx < len && !done
            invariant
                mob_idx <= len,
                o < 8,
                len == state.mobs@.len(),
                a.mobs@.len() == len,
                pr == primary_idx as int,
                hit_count <= o + 1 + if done { 1int } else { 0 },
                state.wf(),
                tick == state.tick,
                primary_idx < state.mobs@.len(),
                player_attack_keeps(a, *state),
                state.player.attack_delay == a.player.attack_delay,
                state.mobs@[primary_idx as int] == a.mobs@[primary_idx as int],
                a.attacks@.len() <= state.attacks@.len(),
                state.attacks@.subrange(0, a.attacks@.len() as int) == a.attacks@,
                ts1 == match first { Some(k) => ts0.push(k), None => ts0 },
                first == first_splash(a.mobs@, pr, ax as int, ay as int, 0),
                !done ==> first == first_splash(a.mobs@, pr, ax as int, ay as int, mob_idx as int),
                done ==> first is Some,
                ({
                    let ts = if done { ts1 } else { ts0 };
                    &&& state.attacks@.len() == a.attacks@.len() + ts.len()
                    &&& forall|i: int| 0 <= i < ts.len() ==>
                        splash_event_ok(a, #[trigger] state.attacks@[a.attacks@.len() + i], ts[i], tick)
                    &&& forall|k: int| 0 <= k < a.mobs@.len() ==> #[trigger] state.mobs@[k] == (Mob {
                            incoming_projectiles: state.mobs@[k].incoming_projectiles,
                            ..a.mobs@[k]
                        })
                    &&& forall|k: int| 0 <= k < a.mobs@.len() && !ts.contains(k) ==> #[trigger] state.mobs@[k] == a.mobs@[k]
                }),
            decreases len - mob_idx,
        {
            proof {
                assert(state.mobs@[mob_idx as int] == (Mob {
                    incoming_projectiles: state.mobs@[mob_idx as int].incoming_projectiles,
                    ..a.mobs@[mob_idx as int]
                }));
            }
            if mob_idx == primary_idx || !blood_barrage_can_splash(&state.mobs[mob_idx], ax, ay) {
                mob_idx = mob_idx + 1;
                continue;
            }
            proof {
                assert(first == Some(mob_idx as int));
            }
            hit_count = hit_count + 1;
            let ghost cur = *state;
            let mob_type: MobType = state.mobs[mob_idx].mob_type;
            let damage: i32 = roll_player_damage(state, mob_type, false);
            let ghost before = state.attacks@;
            let ghost mid = *state;
            queue_player_projectile(state, mob_idx, tick, damage);
            proof {
                assert(state.attacks@.subrange(0, a.attacks@.len() as int) =~= before.subrange(0, a.attacks@.len() as int));
                let k = mob_idx as int;
                assert(ts1 == ts0.push(k));
                assert(mid.mobs@ == cur.mobs@);
                assert(state.attacks@ == before.push(player_attack_event_spec(tick, cur.mobs@[k].id,
                    (tick + player_projectile_delay_spec(*cur.loadout, cur.player.x as int, cur.player.y as int,
                    cur.mobs@[k])) as i32, damage)));
                assert(splash_event_ok(a, state.attacks@[(a.attacks@.len() + ts0.len()) as int], k, tick));
                assert forall|i: int| 0 <= i < ts1.len() implies
                    splash_event_ok(a, #[trigger] state.attacks@[a.attacks@.len() + i], ts1[i], tick) by {
                    if i < ts0.len() {
                        assert(state.attacks@[a.attacks@.len() + i] == before[a.attacks@.len() + i]);
                        assert(ts1[i] == ts0[i]);
                    }
                }
                assert forall|j: int| 0 <= j < a.mobs@.len() implies #[trigger] state.mobs@[j] == (Mob {
                        incoming_projectiles: state.mobs@[j].incoming_projectiles,
                        ..a.mobs@[j]
                    }) by {
                    if j != k {
                        assert(state.mobs@[j] == cur.mobs@[j]);
                    }
                }
                assert forall|j: int| 0 <= j < a.mobs@.len() && !ts1.contains(j) implies #[trigger] state.mobs@[j] == a.mobs@[j] by {
                    assert(ts1[ts0.len() as int] == k);
                    if j != k {
                        assert(state.mobs@[j] == cur.mobs@[j]);
                        if ts0.contains(j) {
                            let w = choose|w: int| 0 <= w < ts0.len() && ts0[w] == j;
                            assert(ts1[w] == j);
                        }
                    }
                }
            }
            done = true;
            mob_idx = mob_idx + 1;
        }
        proof {
            if !done {
                assert(first_splash(a.mobs@, pr, ax as int, ay as int, len as int) is None);
                assert(ts1 == ts0);
            }
            assert((ax as int, ay as int) == (target_x + blood_barrage_offset_spec(o as int).0,
                target_y + blood_barrage_offset_spec(o as int).1));
        }
        o = o + 1;
    }
    proof {
        assert(o == 8);
    }
}


/// The player attacks monster `target_idx`: a rolled hit is queued and logged, blood
/// barrage splashes, and the player's attack delay restarts at the loadout's speed.
pub fn hl_player_attack(target_idx: usize, state: &mut State, tick: i32)
    requires
        old(state).wf(),
        target_idx < old(state).mobs@.len(),
        tick == old(state).tick,
    ensures
        final(state).wf(),
        player_attack_keeps(*old(state), *final(state)),
        final(state).player.attack_delay == old(state).loadout.atk_speed,
        old(state).attacks@.len() < final(state).attacks@.len(),
        final(state).attacks@.subrange(0, old(state).attacks@.len() as int) == old(state).attacks@,
        ({
            let e = final(state).attacks@[old(state).attacks@.len() as int];
            &&& e.is_player_attack && e.tick == tick
            &&& e.target_mob_id == event_id_spec(Some(old(state).mobs@[target_idx as int].id))
            &&& 0 <= e.player_dmg <= old(state).loadout.max_hit
        }),
{
    let target_type: MobType = state.mobs[target_idx].mob_type;
    let damage: i32 = roll_player_damage(state, target_type, true);
    let ghost n0 = state.attacks@.len();
    queue_player_projectile(state, target_idx, tick, damage);
    let ghost log1 = state.attacks@;
    if state.loadout.is_blood_barrage {
        hl_player_blood_barrage_splash(target_idx, state, tick);
        proof {
            assert(state.attacks@[n0 as int] == state.attacks@.subrange(0, log1.len() as int)[n0 as int]);
        }
    }
    let ghost a = *state;
    proof {
        a.lemma_wf_frame_links();
        a.lemma_wf_player_pos();
    }
    state.player.attack_delay = state.loadout.atk_speed;
    proof {
        lemma_wf_player(a, *state);
    }
}

/// Whether the player can attack its target now: its attack is ready, the target is not
/// about to be removed, and the player sees it within range.
pub open spec fn player_can_attack(s: State<'_>, t: Mob) -> bool {
    &&& s.player.attack_delay <= 0
    &&& t.pending_removal_tick is None
    &&& player_los_spec(s.region.blocked@, s.player.x as int, s.player.y as int, t, s.player.range as int)
}

/// State `b` is state `a` after the player's attack turn: when its target is known and
/// it can attack, its attack delay restarts and its attack leads the new entries of
/// the log; otherwise nothing changes.
pub open spec fn attack_if_ready_step(a: State<'_>, b: State<'_>) -> bool {
    let ready = mob_of(a, a.player.aggro) matches Some(t) && player_can_attack(a, t);
    &&& player_attack_keeps(a, b)
    &&& b.player.attack_delay == a.player.attack_delay || b.player.attack_delay == a.loadout.atk_speed
    &&& !ready ==> b == a
    &&& ready ==> b.player.attack_delay == a.loadout.atk_speed
        && a.attacks@.len() < b.attacks@.len()
        && b.attacks@.subrange(0, a.attacks@.len() as int) == a.attacks@
        && b.attacks@[a.attacks@.len() as int].is_player_attack
        && b.attacks@[a.attacks@.len() as int].target_mob_id == event_id_spec(a.player.aggro)
}

/// The player attacks its target when it can.
pub fn hl_player_attack_if_ready(state: &mut State, tick: i32)
    requires
        old(state).wf(),
        tick == old(state).tick,
    ensures
        final(state).wf(),
        attack_if_ready_step(*old(state), *final(state)),
{
    proof {
        state.lemma_wf_frame_links();
        state.lemma_wf_player_pos();
    }
    let target_id: usize = match state.player.aggro {
        Some(id) => id,
        None => return,
    };
    let target_idx: usize = match mob_idx_by_id(state, target_id) {
        Some(i) => i,
        None => return,
    };
    proof {
        state.lemma_wf_mob(target_idx as int);
    }
    let can_attack: bool = state.player.attack_delay <= 0
        && state.mobs[target_idx].pending_removal_tick.is_none()
        && player_has_los(state.region, state.player.x, state.player.y, &state.mobs[target_idx], state.player.range);
    if can_attack {
        hl_player_attack(target_idx, state, tick);
    }
}

} // verus!
