use vstd::prelude::*;

use crate::mechanics::{dist_to_mob, dist_to_mob_spec};
use crate::player_attack::{attack_if_ready_step, hl_player_attack_if_ready, player_attack_keeps};
use crate::movement::{hl_move_mob, move_keeps, move_turn};
use crate::mob_attack::{hl_mob_attack, attack_step_keeps, mob_attack_turn};
use crate::lifecycle::{hl_process_corpse_expiry, hl_process_pending_mob_deaths, hl_process_delayed_bloblet_spawns, corpse_step, death_step, fresh_tail};
use crate::queue::{MobProjectile, PlayerProjectile, SmallQueue};
use crate::runtime::Mob;
use crate::sight::{closest_face_spec, get_closest_face_tile, osrs_walk_step, player_has_los, player_los_spec, walk_choice};
use crate::state::{State, tick_slack, lemma_wf_tick_advance, lemma_replace_same_footprint, lemma_wf_update_mob, lemma_wf_relevant, mob_ok, aggro_is_unusable, aggro_unusable_spec, lemma_wf_player, mob_idx_by_id, mob_of,
    mob_projectiles_ok, player_projectiles_ok, same_frame, wf_relevant_eq};
use crate::types::Point;

verus! {

/// Whether the player may retaliate against a monster: it is alive, not dying and not
/// about to be removed.
pub fn can_auto_retaliate_to(mob: &Mob) -> (r: bool)
    ensures
        r == (!mob.dead && mob.dying == -1 && mob.pending_removal_tick is None),
{
    !mob.dead && mob.dying == -1 && mob.pending_removal_tick.is_none()
}

/// What a player phase keeps: the monsters.
pub open spec fn player_phase_keeps(a: State<'_>, b: State<'_>) -> bool {
    &&& same_frame(b, a)
    &&& b.mobs@ == a.mobs@
}

/// When the player was hit, has auto-retaliate on and no usable target, it targets its
/// last attacker (if that monster can be retaliated against), and its next attack waits
/// at least half its attack speed plus one tick.
pub fn hl_update_auto_retaliate(state: &mut State, tick: i32, player_was_hit: bool)
    requires
        old(state).wf(),
        tick == old(state).tick,
    ensures
        final(state).wf(),
        player_phase_keeps(*old(state), *final(state)),
        final(state).player.x == old(state).player.x,
        final(state).player.y == old(state).player.y,
        final(state).player.attack_delay >= old(state).player.attack_delay,
        final(state).player.incoming_projectiles == old(state).player.incoming_projectiles,
        ({
            let p = old(state).player;
            let retaliates = p.auto_retaliate && player_was_hit && aggro_unusable_spec(*old(state), p.aggro, tick as int)
                && (mob_of(*old(state), p.last_attacker) matches Some(m) && !m.dead && m.dying == -1 && m.pending_removal_tick is None);
            &&& retaliates ==> final(state).player.aggro == p.last_attacker
            &&& !retaliates ==> final(state).player == p
        }),
        retaliate_phase(*old(state), *final(state), tick as int, player_was_hit),
{
    proof {
        state.lemma_wf_frame_links();
        state.lemma_wf_player_pos();
    }
    if !state.player.auto_retaliate || !player_was_hit || !aggro_is_unusable(state, state.player.aggro, tick) {
        return;
    }
    let target_id: usize = match state.player.last_attacker {
        Some(id) => id,
        None => return,
    };
    let target_idx: usize = match mob_idx_by_id(state, target_id) {
        Some(i) => i,
        None => return,
    };
    if !can_auto_retaliate_to(&state.mobs[target_idx]) {
        return;
    }
    let ghost a = *state;
    state.player.aggro = Some(target_id);
    let forced_delay: i32 = state.loadout.atk_speed / 2 + 1;
    if state.player.attack_delay < forced_delay {
        state.player.attack_delay = forced_delay;
    }
    proof {
        lemma_wf_player(a, *state);
    }
}

/// Index of the player's target, through the id table.
pub fn player_aggro_idx(state: &State<'_>) -> (r: Option<usize>)
    requires
        crate::state::ids_ok(state.id_to_idx@, state.mobs@),
    ensures
        r == match state.player.aggro {
            Some(id) => if id < 64 { state.id_to_idx@[id as int] } else { None },
            None => None,
        },
        r matches Some(i) ==> i < state.mobs@.len(),
{
    match state.player.aggro {
        Some(id) => mob_idx_by_id(state, id),
        None => None,
    }
}

/// Whether the player walks towards its target: the target is alive, not dying and not
/// about to be removed, and is out of the player's range or out of its sight.
pub open spec fn can_move_toward_spec(s: State<'_>, t: Mob) -> bool {
    &&& !t.dead
    &&& t.dying <= 0
    &&& t.pending_removal_tick is None
    &&& (dist_to_mob_spec(s.player.x as int, s.player.y as int, t) > s.player.range
        || !player_los_spec(s.region.blocked@, s.player.x as int, s.player.y as int, t, s.player.range as int))
}

/// Whether the player walks towards its target.
pub fn can_move_toward_player_target(state: &State<'_>, target: &Mob) -> (r: bool)
    requires
        state.wf(),
        crate::runtime::mob_geom_ok(*target),
    ensures
        r == can_move_toward_spec(*state, *target),
{
    proof {
        state.lemma_wf_frame_links();
        state.lemma_wf_player_pos();
    }
    if target.dead || target.dying > 0 || target.pending_removal_tick.is_some() {
        return false;
    }
    dist_to_mob(state.player.x, state.player.y, target) > state.player.range
        || !player_has_los(state.region, state.player.x, state.player.y, target, state.player.range)
}

/// A walk of up to two steps from `(sx, sy)` towards `(tx, ty)` that ends on `(ex, ey)`,
/// with `r1` and `r2` what the two walk steps gave: no first step leaves the walker in
/// place; a first step onto the target ends there; otherwise a second step is taken
/// from the first tile when there is one.
pub open spec fn two_steps(region: crate::region::Region, sx: int, sy: int, tx: int, ty: int, r1: Option<Point>,
    r2: Option<Point>, ex: int, ey: int) -> bool {
    &&& walk_choice(region, sx, sy, tx, ty, r1)
    &&& match r1 {
        None => ex == sx && ey == sy,
        Some(p1) => if p1.x == tx && p1.y == ty {
            ex == tx && ey == ty
        } else {
            &&& walk_choice(region, p1.x as int, p1.y as int, tx, ty, r2)
            &&& match r2 {
                None => ex == p1.x && ey == p1.y,
                Some(p2) => ex == p2.x && ey == p2.y,
            }
        },
    }
}

/// State `b` is state `a` after the player walked up to two steps towards `(tx, ty)`.
pub open spec fn walked_toward(a: State<'_>, b: State<'_>, tx: int, ty: int) -> bool {
    &&& player_phase_keeps(a, b)
    &&& b.player == (crate::runtime::Player { x: b.player.x, y: b.player.y, ..a.player })
    &&& exists|r1: Option<Point>, r2: Option<Point>| #[trigger] two_steps(*a.region, a.player.x as int, a.player.y as int,
        tx, ty, r1, r2, b.player.x as int, b.player.y as int)
}

/// Walks the player up to two steps towards `dest`.
pub fn hl_walk_player_toward(state: &mut State<'_>, dest: Point)
    requires
        old(state).wf(),
        crate::mechanics::small(dest.x as int),
        crate::mechanics::small(dest.y as int),
    ensures
        final(state).wf(),
        player_phase_keeps(*old(state), *final(state)),
        final(state).player == (crate::runtime::Player { x: final(state).player.x, y: final(state).player.y, ..old(state).player }),
        crate::mechanics::chebyshev_spec(old(state).player.x as int, old(state).player.y as int,
            final(state).player.x as int, final(state).player.y as int) <= 2,
        walked_toward(*old(state), *final(state), dest.x as int, dest.y as int),
{
    proof {
        state.lemma_wf_frame_links();
        state.lemma_wf_player_pos();
    }
    let ghost a = *state;
    let ghost mut g2: Option<Point> = None;
    let r1 = osrs_walk_step(state.player.x, state.player.y, dest.x, dest.y, state.region);
    if let Some(s1) = r1 {
        state.player.x = s1.x;
        state.player.y = s1.y;
        proof {
            lemma_wf_player(a, *state);
        }
        if state.player.x != dest.x || state.player.y != dest.y {
            let ghost b = *state;
            proof {
                b.lemma_wf_frame_links();
            }
            let r2 = osrs_walk_step(state.player.x, state.player.y, dest.x, dest.y, state.region);
            proof {
                g2 = r2;
            }
            if let Some(s2) = r2 {
                state.player.x = s2.x;
                state.player.y = s2.y;
                proof {
                    lemma_wf_player(b, *state);
                }
            }
        }
    }
    proof {
        assert(two_steps(*a.region, a.player.x as int, a.player.y as int, dest.x as int, dest.y as int, r1, g2,
            state.player.x as int, state.player.y as int));
    }
}

/// Where the player walks towards its target: the closest tile facing the target, when
/// the target is known, can be walked towards, and such a tile exists.
pub open spec fn toward_aggro_dest(a: State<'_>) -> Option<(int, int)> {
    match mob_of(a, a.player.aggro) {
        Some(t) => if can_move_toward_spec(a, t) {
            closest_face_spec(a.region.blocked@, t, a.player.x as int, a.player.y as int)
        } else {
            None
        },
        None => None,
    }
}

/// State `b` is state `a` after the player's walk towards its target: without a tile to
/// walk to, nothing changes.
pub open spec fn aggro_walk_step(a: State<'_>, b: State<'_>) -> bool {
    &&& player_phase_keeps(a, b)
    &&& b.player == (crate::runtime::Player { x: b.player.x, y: b.player.y, ..a.player })
    &&& match toward_aggro_dest(a) {
        None => b.player == a.player,
        Some((x, y)) => walked_toward(a, b, x, y),
    }
}

/// The player walks towards its target when it should: to the closest tile from which
/// it faces the target.
pub fn hl_move_player_toward_aggro(state: &mut State)
    requires
        old(state).wf(),
    ensures
        final(state).wf(),
        player_phase_keeps(*old(state), *final(state)),
        final(state).player == (crate::runtime::Player { x: final(state).player.x, y: final(state).player.y, ..old(state).player }),
        aggro_walk_step(*old(state), *final(state)),
{
    proof {
        state.lemma_wf_frame_links();
        state.lemma_wf_player_pos();
    }
    let aggro_idx: usize = match player_aggro_idx(state) {
        Some(i) => i,
        None => return,
    };
    proof {
        state.lemma_wf_mob(aggro_idx as int);
    }
    if !can_move_toward_player_target(state, &state.mobs[aggro_idx]) {
        return;
    }
    let dest: Point = match get_closest_face_tile(&state.mobs[aggro_idx], state.player.x, state.player.y, state.region) {
        Some(p) => p,
        None => return,
    };
    hl_walk_player_toward(state, dest);
}

/// State `b` is state `a` after the player dropped a target that is unknown, dead, or
/// dying since an earlier tick.
pub open spec fn aggro_clear_step(a: State<'_>, b: State<'_>, tick: int) -> bool {
    &&& player_phase_keeps(a, b)
    &&& b.player == (crate::runtime::Player {
            aggro: if a.player.aggro is Some && aggro_unusable_spec(a, a.player.aggro, tick) {
                None
            } else {
                a.player.aggro
            },
            ..a.player
        })
}

/// The player drops its target once it is unknown, dead, or dying since an earlier tick.
pub fn hl_clear_expired_player_aggro(state: &mut State, tick: i32)
    requires
        old(state).wf(),
        tick == old(state).tick,
    ensures
        final(state).wf(),
        aggro_clear_step(*old(state), *final(state), tick as int),
{
    proof {
        state.lemma_wf_frame_links();
        state.lemma_wf_player_pos();
    }
    let ghost a = *state;
    if let Some(aggro_id) = state.player.aggro {
        if let Some(aggro_idx) = mob_idx_by_id(state, aggro_id) {
            let m: &Mob = &state.mobs[aggro_idx];
            if m.dead || (m.dying > 0 && tick > m.dying_start_tick) {
                state.player.aggro = None;
                proof {
                    lemma_wf_player(a, *state);
                }
            }
        } else {
            state.player.aggro = None;
            proof {
                lemma_wf_player(a, *state);
            }
        }
    }
}

/// State `b` is state `a` with the player's attack delay one lower.
pub open spec fn player_delay_down(a: State<'_>, b: State<'_>) -> bool {
    b == (State { player: crate::runtime::Player { attack_delay: (a.player.attack_delay - 1) as i32, ..a.player }, ..a })
}

/// The player's part of a tick: its attack delay counts down, it walks towards its
/// target, drops a target that expired, and attacks when it can.
pub fn hl_advance_player<'a>(state: &mut State<'a>, tick: i32)
    requires
        old(state).wf(),
        tick == old(state).tick,
        old(state).player.attack_delay > -old(state).tick - 2_000_010,
    ensures
        final(state).wf(),
        same_frame(*final(state), *old(state)),
        final(state).mobs@.len() == old(state).mobs@.len(),
        exists|b: State<'a>, c: State<'a>, d: State<'a>| #[trigger] player_delay_down(*old(state), b)
            && #[trigger] aggro_walk_step(b, c) && #[trigger] aggro_clear_step(c, d, tick as int)
            && attack_if_ready_step(d, *final(state)),
        advance_player_phase(*old(state), *final(state), tick as int),
{
    proof {
        state.lemma_wf_frame_links();
        state.lemma_wf_player_pos();
    }
    let ghost a = *state;
    state.player.attack_delay = state.player.attack_delay - 1;
    proof {
        lemma_wf_player(a, *state);
    }
    let ghost b = *state;
    hl_move_player_toward_aggro(state);
    let ghost c = *state;
    hl_clear_expired_player_aggro(state, tick);
    let ghost d = *state;
    hl_player_attack_if_ready(state, tick);
    proof {
        assert(player_delay_down(a, b));
        assert(aggro_walk_step(b, c));
        assert(aggro_clear_step(c, d, tick as int));
        assert(attack_if_ready_step(d, *state));
    }
}


/// Projectiles whose delays and damages are in range for a count-down.
pub open spec fn flying_ok(items: Seq<PlayerProjectile>) -> bool {
    forall|k: int| 0 <= k < items.len() ==> i32::MIN < (#[trigger] items[k]).delay && items[k].damage >= 0
}

/// Each remaining projectile is an earlier one, one tick closer.
pub open spec fn counted_down(before: Seq<PlayerProjectile>, after: Seq<PlayerProjectile>) -> bool {
    forall|k: int| 0 <= k < after.len() ==> 1 <= (#[trigger] after[k]).delay
        && exists|j: int| 0 <= j < before.len() && before[j].damage == after[k].damage && before[j].delay == after[k].delay + 1
}

/// Total damage of the projectiles that arrive on this count-down (delay at most one).
pub open spec fn arriving_total(s: Seq<PlayerProjectile>) -> int
    decreases s.len(),
{
    if s.len() == 0 {
        0
    } else {
        (if s[0].delay <= 1 { s[0].damage as int } else { 0 }) + arriving_total(s.drop_first())
    }
}

/// Whether some projectile arrives on this count-down.
pub open spec fn has_arrival(s: Seq<PlayerProjectile>) -> bool {
    exists|k: int| 0 <= k < s.len() && (#[trigger] s[k]).delay <= 1
}

/// Arriving damage is never negative, and is zero when nothing arrives.
proof fn lemma_arriving_total(s: Seq<PlayerProjectile>)
    requires
        flying_ok(s),
    ensures
        arriving_total(s) >= 0,
        !has_arrival(s) ==> arriving_total(s) == 0,
    decreases s.len(),
{
    if s.len() > 0 {
        assert(flying_ok(s.drop_first())) by {
            assert forall|k: int| 0 <= k < s.drop_first().len() implies i32::MIN < (#[trigger] s.drop_first()[k]).delay
                && s.drop_first()[k].damage >= 0 by {
                assert(s.drop_first()[k] == s[k + 1]);
            }
        }
        lemma_arriving_total(s.drop_first());
        if !has_arrival(s) {
            assert(s[0].delay > 1);
            assert(!has_arrival(s.drop_first())) by {
                if has_arrival(s.drop_first()) {
                    let k = choose|k: int| 0 <= k < s.drop_first().len() && (#[trigger] s.drop_first()[k]).delay <= 1;
                    assert(s[k + 1].delay <= 1);
                }
            }
        }
    }
}

/// The projectiles that stay in flight after a count-down, one tick closer: those with a
/// delay above one, in order.
pub open spec fn still_flying(s: Seq<PlayerProjectile>) -> Seq<PlayerProjectile>
    decreases s.len(),
{
    if s.len() == 0 {
        Seq::empty()
    } else {
        let rest = still_flying(s.drop_first());
        if s[0].delay > 1 {
            seq![PlayerProjectile { delay: (s[0].delay - 1) as i32, ..s[0] }] + rest
        } else {
            rest
        }
    }
}

/// The count-down of two parts is the count-down of each, one after the other.
proof fn lemma_still_flying_add(a: Seq<PlayerProjectile>, b: Seq<PlayerProjectile>)
    ensures
        still_flying(a + b) == still_flying(a) + still_flying(b),
    decreases a.len(),
{
    if a.len() == 0 {
        assert(a + b =~= b);
        assert(still_flying(a) + still_flying(b) =~= still_flying(b));
    } else {
        assert((a + b).drop_first() =~= a.drop_first() + b);
        assert((a + b)[0] == a[0]);
        lemma_still_flying_add(a.drop_first(), b);
        if a[0].delay > 1 {
            assert(still_flying(a + b) =~= still_flying(a) + still_flying(b));
        } else {
            assert(still_flying(a + b) =~= still_flying(a) + still_flying(b));
        }
    }
}

/// Moving the last element to the front keeps a sequence's multiset.
proof fn lemma_rotate_multiset(t: Seq<PlayerProjectile>)
    requires
        t.len() > 0,
    ensures
        (seq![t.last()] + t.drop_last()).to_multiset() == t.to_multiset(),
{
    broadcast use vstd::seq_lib::group_to_multiset_ensures;
    vstd::seq_lib::lemma_multiset_commutative(seq![t.last()], t.drop_last());
    vstd::seq_lib::lemma_multiset_commutative(t.drop_last(), seq![t.last()]);
    assert(t.drop_last() + seq![t.last()] =~= t);
}

/// Counts down the projectiles of one part, from last to first: an arriving one deals
/// its damage unless the monster is already doomed, and a hit that brings the
/// hitpoints to zero dooms it (removal next tick, dying from this one).
fn land_projectile_part(part: &mut Vec<PlayerProjectile>, hp: &mut i32, pending: &mut Option<i32>, dying_start: &mut i32, tick: i32)
    requires
        flying_ok(old(part)@),
        *old(hp) >= 0,
        tick < i32::MAX,
    ensures
        counted_down(old(part)@, final(part)@),
        flying_ok(final(part)@),
        final(part)@.len() <= old(part)@.len(),
        0 <= *final(hp) <= *old(hp),
        *old(pending) is Some ==> *final(pending) == *old(pending) && *final(hp) == *old(hp) && *final(dying_start) == *old(dying_start),
        *old(pending) is None ==> (*final(pending) is None && *final(dying_start) == *old(dying_start))
            || (*final(pending) == Some((tick + 1) as i32) && *final(hp) == 0 && *final(dying_start) == tick),
        *old(pending) is None ==> (*final(pending) is Some
            <==> (has_arrival(old(part)@) && *old(hp) - arriving_total(old(part)@) <= 0)),
        *old(pending) is None && *final(pending) is None ==> *final(hp) == *old(hp) - arriving_total(old(part)@),
        final(part)@.to_multiset() == still_flying(old(part)@).to_multiset(),
{
    let ghost orig = part@;
    let ghost hp0 = *hp;
    let ghost pend0 = *pending;
    let ghost ds0 = *dying_start;
    proof {
        assert(part@.subrange(part@.len() as int, part@.len() as int) =~= Seq::<PlayerProjectile>::empty());
        assert(orig.subrange(orig.len() as int, orig.len() as int) =~= Seq::<PlayerProjectile>::empty());
    }
    let mut i: usize = part.len();
    while i > 0
        invariant
            i <= part@.len(),
            part@.len() <= orig.len(),
            flying_ok(orig),
            tick < i32::MAX,
            forall|k: int| 0 <= k < i ==> #[trigger] part@[k] == orig[k],
            forall|k: int| i <= k < part@.len() ==> 1 <= (#[trigger] part@[k]).delay && part@[k].damage >= 0
                && exists|j: int| 0 <= j < orig.len() && orig[j].damage == part@[k].damage && orig[j].delay == part@[k].delay + 1,
            0 <= *hp <= hp0,
            pend0 is Some ==> *pending == pend0 && *hp == hp0 && *dying_start == ds0,
            pend0 is None ==> (*pending is None && *dying_start == ds0)
                || (*pending == Some((tick + 1) as i32) && *hp == 0 && *dying_start == tick),
            pend0 is None ==> (*pending is Some <==> (has_arrival(orig.subrange(i as int, orig.len() as int))
                && hp0 - arriving_total(orig.subrange(i as int, orig.len() as int)) <= 0)),
            pend0 is None && *pending is None ==> *hp == hp0 - arriving_total(orig.subrange(i as int, orig.len() as int)),
            part@.subrange(i as int, part@.len() as int).to_multiset()
                == still_flying(orig.subrange(i as int, orig.len() as int)).to_multiset(),
        decreases i,
    {
        let ghost part0 = part@;
        proof {
            let suf = orig.subrange(i - 1, orig.len() as int);
            assert(suf.drop_first() =~= orig.subrange(i as int, orig.len() as int));
        }
        proof {
            let suf = orig.subrange(i - 1, orig.len() as int);
            assert(suf.drop_first() =~= orig.subrange(i as int, orig.len() as int));
            assert(suf[0] == orig[i - 1]);
            assert(flying_ok(orig.subrange(i as int, orig.len() as int))) by {
                assert forall|k: int| 0 <= k < orig.subrange(i as int, orig.len() as int).len() implies
                    i32::MIN < (#[trigger] orig.subrange(i as int, orig.len() as int)[k]).delay
                    && orig.subrange(i as int, orig.len() as int)[k].damage >= 0 by {
                    assert(orig.subrange(i as int, orig.len() as int)[k] == orig[i + k]);
                }
            }
            lemma_arriving_total(orig.subrange(i as int, orig.len() as int));
            assert(has_arrival(suf) == (orig[i - 1].delay <= 1 || has_arrival(orig.subrange(i as int, orig.len() as int)))) by {
                if has_arrival(suf) {
                    let k = choose|k: int| 0 <= k < suf.len() && (#[trigger] suf[k]).delay <= 1;
                    if k > 0 {
                        assert(orig.subrange(i as int, orig.len() as int)[k - 1] == suf[k]);
                    }
                }
                if has_arrival(orig.subrange(i as int, orig.len() as int)) {
                    let k = choose|k: int| 0 <= k < orig.subrange(i as int, orig.len() as int).len()
                        && (#[trigger] orig.subrange(i as int, orig.len() as int)[k]).delay <= 1;
                    assert(suf[k + 1] == orig.subrange(i as int, orig.len() as int)[k]);
                }
            }
        }
        i = i - 1;
        let mut p: PlayerProjectile = part[i];
        assert(p == orig[i as int]);
        p.delay = p.delay - 1;
        if p.delay <= 0 {
            if pending.is_none() {
                *hp = *hp - p.damage;
                if *hp <= 0 {
                    *hp = 0;
                    *pending = Some(tick + 1);
                    *dying_start = tick;
                }
            }
            let ghost before = part@;
            part.swap_remove(i);
            proof {
                let t = before.subrange(i + 1, before.len() as int);
                let t2 = part@.subrange(i as int, part@.len() as int);
                if t.len() > 0 {
                    assert(t2 =~= seq![t.last()] + t.drop_last());
                    lemma_rotate_multiset(t);
                } else {
                    assert(t2 =~= t);
                }
                assert(orig.subrange(i as int, orig.len() as int)[0] == orig[i as int]);
            }
            proof {
                assert forall|k: int| i <= k < part@.len() implies 1 <= (#[trigger] part@[k]).delay && part@[k].damage >= 0
                    && exists|j: int| 0 <= j < orig.len() && orig[j].damage == part@[k].damage && orig[j].delay == part@[k].delay + 1 by {
                    if k == i {
                        assert(part@[k] == before[before.len() - 1]);
                    } else {
                        assert(part@[k] == before[k]);
                    }
                }
            }
        } else {
            let ghost before = part@;
            part.set(i, p);
            proof {
                assert(orig[i as int].damage == part@[i as int].damage && orig[i as int].delay == part@[i as int].delay + 1);
                let t = before.subrange(i + 1, before.len() as int);
                assert(part@.subrange(i as int, part@.len() as int) =~= seq![p] + t);
                vstd::seq_lib::lemma_multiset_commutative(seq![p], t);
                let o = orig.subrange(i as int, orig.len() as int);
                assert(o[0] == orig[i as int]);
                assert(p == (PlayerProjectile { delay: (o[0].delay - 1) as i32, ..o[0] }));
                vstd::seq_lib::lemma_multiset_commutative(seq![p], still_flying(o.drop_first()));
            }
        }
    }
    proof {
        assert forall|k: int| 0 <= k < part@.len() implies i32::MIN < (#[trigger] part@[k]).delay && part@[k].damage >= 0 by {
            assert(1 <= part@[k].delay);
        }
        assert(orig.subrange(0, orig.len() as int) =~= orig);
        assert(part@.subrange(0, part@.len() as int) =~= part@);
    }
}

/// Monster `m` becomes `n` as the player's projectiles at it count down: those arriving
/// deal their damage until it is doomed (hitpoints at zero, removal on the next tick,
/// dying from this one); an already doomed monster takes no more. Nothing else of it
/// changes.
pub open spec fn projectiles_landed(m: Mob, n: Mob, tick: int) -> bool {
    let inl = m.incoming_projectiles.inline@;
    let ovf = m.incoming_projectiles.overflow@;
    let total = arriving_total(inl) + arriving_total(ovf);
    let doomed = (has_arrival(inl) || has_arrival(ovf)) && m.hp - total <= 0;
    &&& n.incoming_projectiles.wf()
    &&& counted_down(inl, n.incoming_projectiles.inline@)
    &&& counted_down(ovf, n.incoming_projectiles.overflow@)
    &&& n.incoming_projectiles.items().to_multiset() == still_flying(m.incoming_projectiles.items()).to_multiset()
    &&& n == (Mob {
            hp: n.hp,
            pending_removal_tick: n.pending_removal_tick,
            dying_start_tick: n.dying_start_tick,
            incoming_projectiles: n.incoming_projectiles,
            ..m
        })
    &&& m.pending_removal_tick is Some ==> n.pending_removal_tick == m.pending_removal_tick && n.hp == m.hp
        && n.dying_start_tick == m.dying_start_tick
    &&& m.pending_removal_tick is None && doomed ==> n.pending_removal_tick == Some((tick + 1) as i32) && n.hp == 0
        && n.dying_start_tick == tick
    &&& m.pending_removal_tick is None && !doomed ==> n.pending_removal_tick is None && n.hp == m.hp - total
        && n.dying_start_tick == m.dying_start_tick
}

/// The player's projectiles at monster `mob` count down; those arriving deal their
/// damage until the monster is doomed (hitpoints at zero, removal on the next tick,
/// dying from this one); an already doomed monster takes no more.
pub fn hl_apply_player_projectiles_to_mob(mob: &mut Mob, tick: i32)
    requires
        old(mob).incoming_projectiles.wf(),
        flying_ok(old(mob).incoming_projectiles.inline@),
        flying_ok(old(mob).incoming_projectiles.overflow@),
        old(mob).hp >= 0,
        tick < i32::MAX,
    ensures
        final(mob).incoming_projectiles.wf(),
        counted_down(old(mob).incoming_projectiles.inline@, final(mob).incoming_projectiles.inline@),
        counted_down(old(mob).incoming_projectiles.overflow@, final(mob).incoming_projectiles.overflow@),
        *final(mob) == (Mob {
            hp: final(mob).hp,
            pending_removal_tick: final(mob).pending_removal_tick,
            dying_start_tick: final(mob).dying_start_tick,
            incoming_projectiles: final(mob).incoming_projectiles,
            ..*old(mob)
        }),
        0 <= final(mob).hp <= old(mob).hp,
        old(mob).pending_removal_tick is Some ==> final(mob).pending_removal_tick == old(mob).pending_removal_tick
            && final(mob).hp == old(mob).hp && final(mob).dying_start_tick == old(mob).dying_start_tick,
        old(mob).pending_removal_tick is None ==> (final(mob).pending_removal_tick is None
                && final(mob).dying_start_tick == old(mob).dying_start_tick)
            || (final(mob).pending_removal_tick == Some((tick + 1) as i32) && final(mob).hp == 0
                && final(mob).dying_start_tick == tick),
        ({
            let inl = old(mob).incoming_projectiles.inline@;
            let ovf = old(mob).incoming_projectiles.overflow@;
            let total = arriving_total(inl) + arriving_total(ovf);
            let doomed = (has_arrival(inl) || has_arrival(ovf)) && old(mob).hp - total <= 0;
            &&& old(mob).pending_removal_tick is None ==> (final(mob).pending_removal_tick is Some <==> doomed)
            &&& old(mob).pending_removal_tick is None && !doomed ==> final(mob).hp == old(mob).hp - total
        }),
        projectiles_landed(*old(mob), *final(mob), tick as int),
{
    let mut hp: i32 = mob.hp;
    let mut pending: Option<i32> = mob.pending_removal_tick;
    let mut dying_start_tick: i32 = mob.dying_start_tick;
    let ghost inl = mob.incoming_projectiles.inline@;
    let ghost ovf = mob.incoming_projectiles.overflow@;
    proof {
        lemma_arriving_total(inl);
        lemma_arriving_total(ovf);
    }
    land_projectile_part(&mut mob.incoming_projectiles.overflow, &mut hp, &mut pending, &mut dying_start_tick, tick);
    land_projectile_part(&mut mob.incoming_projectiles.inline, &mut hp, &mut pending, &mut dying_start_tick, tick);
    mob.hp = hp;
    mob.pending_removal_tick = pending;
    mob.dying_start_tick = dying_start_tick;
    proof {
        let q = mob.incoming_projectiles;
        lemma_still_flying_add(inl, ovf);
        vstd::seq_lib::lemma_multiset_commutative(q.inline@, q.overflow@);
        vstd::seq_lib::lemma_multiset_commutative(still_flying(inl), still_flying(ovf));
    }
}


/// Player projectiles within bounds are within the bounds of a count-down, part by part.
proof fn lemma_projectiles_flying(q: SmallQueue<PlayerProjectile, 8>, max_hit: int)
    requires
        player_projectiles_ok(q.items(), max_hit),
    ensures
        flying_ok(q.inline@),
        flying_ok(q.overflow@),
{
    assert forall|k: int| 0 <= k < q.inline@.len() implies -10 <= (#[trigger] q.inline@[k]).delay <= 10 && q.inline@[k].damage >= 0 by {
        assert(q.items()[k] == q.inline@[k]);
    }
    assert forall|k: int| 0 <= k < q.overflow@.len() implies -10 <= (#[trigger] q.overflow@[k]).delay <= 10 && q.overflow@[k].damage >= 0 by {
        assert(q.items()[q.inline@.len() + k] == q.overflow@[k]);
    }
}

/// Counted-down projectiles stay within bounds.
proof fn lemma_projectiles_after(q0: SmallQueue<PlayerProjectile, 8>, q1: SmallQueue<PlayerProjectile, 8>, max_hit: int)
    requires
        player_projectiles_ok(q0.items(), max_hit),
        counted_down(q0.inline@, q1.inline@),
        counted_down(q0.overflow@, q1.overflow@),
    ensures
        player_projectiles_ok(q1.items(), max_hit),
{
    assert forall|k: int| 0 <= k < q1.items().len() implies -10 <= (#[trigger] q1.items()[k]).delay <= 10
        && 0 <= q1.items()[k].damage <= max_hit by {
        if k < q1.inline@.len() {
            assert(q1.items()[k] == q1.inline@[k]);
            let j = choose|j: int| 0 <= j < q0.inline@.len() && q0.inline@[j].damage == q1.inline@[k].damage && q0.inline@[j].delay == q1.inline@[k].delay + 1;
            assert(q0.items()[j] == q0.inline@[j]);
        } else {
            let k2 = k - q1.inline@.len();
            assert(q1.items()[k] == q1.overflow@[k2]);
            let j = choose|j: int| 0 <= j < q0.overflow@.len() && q0.overflow@[j].damage == q1.overflow@[k2].damage && q0.overflow@[j].delay == q1.overflow@[k2].delay + 1;
            assert(q0.items()[q0.inline@.len() + j] == q0.overflow@[j]);
        }
    }
}

/// Lands the player projectiles on monster `idx`, keeping the invariant.
fn land_on_mob(state: &mut State, idx: usize, tick: i32)
    requires
        old(state).wf(),
        idx < old(state).mobs@.len(),
        tick == old(state).tick,
    ensures
        final(state).wf(),
        same_frame(*final(state), *old(state)),
        final(state).mobs@.len() == old(state).mobs@.len(),
        forall|k: int| 0 <= k < old(state).mobs@.len() && k != idx ==> #[trigger] final(state).mobs@[k] == old(state).mobs@[k],
        final(state).mobs@[idx as int].attack_delay == old(state).mobs@[idx as int].attack_delay,
        final(state).mobs@[idx as int].no_los_ticks == old(state).mobs@[idx as int].no_los_ticks,
        final(state).player == old(state).player,
        projectiles_landed(old(state).mobs@[idx as int], final(state).mobs@[idx as int], tick as int),
        final(state).attacks@ == old(state).attacks@,
{
    let ghost a = *state;
    proof {
        a.lemma_wf_mob(idx as int);
        a.lemma_wf_frame_links();
        a.lemma_wf_player_pos();
        lemma_projectiles_flying(a.mobs@[idx as int].incoming_projectiles, a.loadout.max_hit as int);
    }
    hl_apply_player_projectiles_to_mob(&mut state.mobs[idx], tick);
    proof {
        let m = state.mobs@[idx as int];
        lemma_projectiles_after(a.mobs@[idx as int].incoming_projectiles, m.incoming_projectiles, a.loadout.max_hit as int);
        assert(state.mobs@ =~= a.mobs@.update(idx as int, m));
        lemma_replace_same_footprint(a.mobs@, a.mob_occupancy@, a.id_to_idx@, idx as int, m);
        lemma_wf_update_mob(a, *state, idx as int);
    }
}

/// The player's projectiles land on every living monster that is not dying.
pub fn hl_apply_player_projectile_hits(state: &mut State, tick: i32)
    requires
        old(state).wf(),
        tick == old(state).tick,
    ensures
        final(state).wf(),
        same_frame(*final(state), *old(state)),
        final(state).mobs@.len() == old(state).mobs@.len(),
        forall|k: int| 0 <= k < old(state).mobs@.len() ==> (#[trigger] final(state).mobs@[k]).attack_delay == old(state).mobs@[k].attack_delay,
        final(state).player == old(state).player,
        final(state).attacks@ == old(state).attacks@,
        forall|k: int| 0 <= k < old(state).mobs@.len() ==> {
            let m = old(state).mobs@[k];
            &&& !m.dead && m.dying <= 0 ==> projectiles_landed(m, #[trigger] final(state).mobs@[k], tick as int)
            &&& !(!m.dead && m.dying <= 0) ==> final(state).mobs@[k] == m
        },
        hits_phase(*old(state), *final(state), tick as int),
{
    let len: usize = state.mobs.len();
    let mut idx: usize = 0;
    while idx < len
        invariant
            idx <= len,
            len == state.mobs@.len(),
            len == old(state).mobs@.len(),
            state.wf(),
            same_frame(*state, *old(state)),
            tick == state.tick,
            forall|k: int| 0 <= k < len ==> (#[trigger] state.mobs@[k]).attack_delay == old(state).mobs@[k].attack_delay,
            state.player == old(state).player,
            state.attacks@ == old(state).attacks@,
            forall|k: int| idx <= k < len ==> #[trigger] state.mobs@[k] == old(state).mobs@[k],
            forall|k: int| 0 <= k < idx ==> {
                let m = old(state).mobs@[k];
                &&& !m.dead && m.dying <= 0 ==> projectiles_landed(m, #[trigger] state.mobs@[k], tick as int)
                &&& !(!m.dead && m.dying <= 0) ==> state.mobs@[k] == m
            },
        decreases len - idx,
    {
        if !state.mobs[idx].dead && state.mobs[idx].dying <= 0 {
            land_on_mob(state, idx, tick);
        }
        idx = idx + 1;
    }
}

/// Counts down one part of the monster projectiles towards the player and drops
/// those that arrive; returns whether any did.
fn land_mob_projectile_part(part: &mut Vec<MobProjectile>) -> (arrived: bool)
    requires
        forall|k: int| 0 <= k < old(part)@.len() ==> -10 <= (#[trigger] old(part)@[k]).delay <= 10,
    ensures
        arrived == exists|k: int| 0 <= k < old(part)@.len() && (#[trigger] old(part)@[k]).delay <= 1,
        final(part)@.len() <= old(part)@.len(),
        forall|k: int| 0 <= k < final(part)@.len() ==> 1 <= (#[trigger] final(part)@[k]).delay <= 9,
{
    let ghost orig = part@;
    let mut arrived: bool = false;
    let mut i: usize = part.len();
    while i > 0
        invariant
            i <= part@.len(),
            part@.len() <= orig.len(),
            forall|k: int| 0 <= k < orig.len() ==> -10 <= (#[trigger] orig[k]).delay <= 10,
            forall|k: int| 0 <= k < i ==> #[trigger] part@[k] == orig[k],
            forall|k: int| i <= k < part@.len() ==> 1 <= (#[trigger] part@[k]).delay <= 9,
            arrived == exists|k: int| i <= k < orig.len() && (#[trigger] orig[k]).delay <= 1,
        decreases i,
    {
        i = i - 1;
        let mut p: MobProjectile = part[i];
        assert(p == orig[i as int]);
        p.delay = p.delay - 1;
        if p.delay <= 0 {
            arrived = true;
            let ghost before = part@;
            part.swap_remove(i);
            proof {
                assert forall|k: int| i <= k < part@.len() implies 1 <= (#[trigger] part@[k]).delay <= 9 by {
                    if k == i {
                        assert(part@[k] == before[before.len() - 1]);
                    } else {
                        assert(part@[k] == before[k]);
                    }
                }
            }
        } else {
            part.set(i, p);
        }
    }
    arrived
}

/// The monster projectiles towards the player count down; returns whether any arrived.
pub fn hl_advance_incoming_mob_projectiles(state: &mut State) -> (arrived: bool)
    requires
        old(state).wf(),
    ensures
        final(state).wf(),
        same_frame(*final(state), *old(state)),
        final(state).mobs@ == old(state).mobs@,
        final(state).player == (crate::runtime::Player {
            incoming_projectiles: final(state).player.incoming_projectiles,
            ..old(state).player
        }),
        arrived == exists|k: int| 0 <= k < old(state).player.incoming_projectiles.items().len()
            && (#[trigger] old(state).player.incoming_projectiles.items()[k]).delay <= 1,
        incoming_phase(*old(state), *final(state), arrived),
{
    let ghost a = *state;
    proof {
        a.lemma_wf_frame_links();
        a.lemma_wf_player_pos();
        let q = a.player.incoming_projectiles;
        assert forall|k: int| 0 <= k < q.inline@.len() implies -10 <= (#[trigger] q.inline@[k]).delay <= 10 by {
            assert(q.items()[k] == q.inline@[k]);
        }
        assert forall|k: int| 0 <= k < q.overflow@.len() implies -10 <= (#[trigger] q.overflow@[k]).delay <= 10 by {
            assert(q.items()[q.inline@.len() + k] == q.overflow@[k]);
        }
    }
    let a1: bool = land_mob_projectile_part(&mut state.player.incoming_projectiles.overflow);
    let a2: bool = land_mob_projectile_part(&mut state.player.incoming_projectiles.inline);
    proof {
        let q0 = a.player.incoming_projectiles;
        let q1 = state.player.incoming_projectiles;
        assert forall|k: int| 0 <= k < q1.items().len() implies -10 <= (#[trigger] q1.items()[k]).delay <= 10 by {
            if k < q1.inline@.len() {
                assert(q1.items()[k] == q1.inline@[k]);
            } else {
                assert(q1.items()[k] == q1.overflow@[k - q1.inline@.len()]);
            }
        }
        assert((a1 || a2) == exists|k: int| 0 <= k < q0.items().len() && (#[trigger] q0.items()[k]).delay <= 1) by {
            if a1 {
                let k = choose|k: int| 0 <= k < q0.overflow@.len() && (#[trigger] q0.overflow@[k]).delay <= 1;
                assert(q0.items()[q0.inline@.len() + k] == q0.overflow@[k]);
            }
            if a2 {
                let k = choose|k: int| 0 <= k < q0.inline@.len() && (#[trigger] q0.inline@[k]).delay <= 1;
                assert(q0.items()[k] == q0.inline@[k]);
            }
            if exists|k: int| 0 <= k < q0.items().len() && (#[trigger] q0.items()[k]).delay <= 1 {
                let k = choose|k: int| 0 <= k < q0.items().len() && (#[trigger] q0.items()[k]).delay <= 1;
                if k < q0.inline@.len() {
                    assert(q0.items()[k] == q0.inline@[k]);
                } else {
                    assert(q0.items()[k] == q0.overflow@[k - q0.inline@.len()]);
                }
            }
        }
        lemma_wf_player(a, *state);
    }
    a1 || a2
}


/// State `b` is state `a` with monster `idx` stunned for `stunned` and frozen for
/// `frozen` ticks.
pub open spec fn hold_turn(a: State<'_>, b: State<'_>, idx: int, stunned: i32, frozen: i32) -> bool {
    &&& same_frame(b, a)
    &&& b.mobs@ == a.mobs@.update(idx, Mob { stunned, frozen, ..a.mobs@[idx] })
    &&& b.player == a.player
    &&& b.attacks@ == a.attacks@
}

/// Monster `k`'s part of the movement phase, from state `a` to state `b`: a dead or
/// dying monster stays as it is; a stunned one serves a tick of its stun, else a frozen
/// one a tick of its freeze; any other takes its move.
pub open spec fn advance_turn(a: State<'_>, b: State<'_>, k: int) -> bool {
    let m = a.mobs@[k];
    if m.dead || m.dying > 0 {
        b == a
    } else if m.stunned > 0 {
        hold_turn(a, b, k, (m.stunned - 1) as i32, m.frozen)
    } else if m.frozen > 0 {
        hold_turn(a, b, k, m.stunned, (m.frozen - 1) as i32)
    } else {
        move_turn(a, b, k as usize)
    }
}

/// Sets how long monster `idx` stays stunned and frozen.
fn set_hold(state: &mut State, idx: usize, stunned: i32, frozen: i32)
    requires
        old(state).wf(),
        idx < old(state).mobs@.len(),
        0 <= stunned <= 10,
        0 <= frozen <= 10,
    ensures
        final(state).wf(),
        same_frame(*final(state), *old(state)),
        final(state).mobs@.len() == old(state).mobs@.len(),
        forall|k: int| 0 <= k < old(state).mobs@.len() && k != idx ==> #[trigger] final(state).mobs@[k] == old(state).mobs@[k],
        final(state).mobs@[idx as int] == (Mob { stunned, frozen, ..old(state).mobs@[idx as int] }),
        final(state).player == old(state).player,
        hold_turn(*old(state), *final(state), idx as int, stunned, frozen),
{
    let ghost a = *state;
    proof {
        a.lemma_wf_mob(idx as int);
        a.lemma_wf_frame_links();
    }
    state.mobs[idx].stunned = stunned;
    state.mobs[idx].frozen = frozen;
    proof {
        let m = state.mobs@[idx as int];
        assert(state.mobs@ =~= a.mobs@.update(idx as int, m));
        lemma_replace_same_footprint(a.mobs@, a.mob_occupancy@, a.id_to_idx@, idx as int, m);
        lemma_wf_update_mob(a, *state, idx as int);
    }
}

/// A monster's movement phase, from `m` to `n`: a dead or dying monster stays as it is;
/// a stunned one serves a tick of its stun, else a frozen one a tick of its freeze; any
/// other takes its move.
pub open spec fn advance_step(m: Mob, n: Mob) -> bool {
    if m.dead || m.dying > 0 {
        n == m
    } else if m.stunned > 0 {
        n == (Mob { stunned: (m.stunned - 1) as i32, ..m })
    } else if m.frozen > 0 {
        n == (Mob { frozen: (m.frozen - 1) as i32, ..m })
    } else {
        move_keeps(m, n)
    }
}

/// The monsters' movement phase: each living monster that is not dying first serves out
/// a stun, then a freeze (a tick each), and otherwise moves.
pub fn hl_advance_mobs<'a>(state: &mut State<'a>)
    requires
        old(state).wf(),
        tick_slack(*old(state)),
    ensures
        final(state).wf(),
        same_frame(*final(state), *old(state)),
        final(state).mobs@.len() == old(state).mobs@.len(),
        forall|k: int| 0 <= k < final(state).mobs@.len() ==> (#[trigger] final(state).mobs@[k]).attack_delay > -final(state).tick - 10,
        final(state).player.attack_delay == old(state).player.attack_delay,
        forall|k: int| 0 <= k < old(state).mobs@.len() ==> advance_step(old(state).mobs@[k], #[trigger] final(state).mobs@[k]),
        mobs_phase(*old(state), *final(state)),
{
    let ghost a = *state;
    let ghost mut ss: Seq<State<'a>> = seq![a];
    let len: usize = state.mobs.len();
    let mut idx: usize = 0;
    while idx < len
        invariant
            a == *old(state),
            ss.len() == idx + 1,
            ss[0] == a,
            ss.last() == *state,
            forall|k: int| 0 <= k < idx ==> #[trigger] advance_turn(ss[k], ss[k + 1], k),
            idx <= len,
            len == state.mobs@.len(),
            len == old(state).mobs@.len(),
            state.wf(),
            same_frame(*state, *old(state)),
            tick_slack(*old(state)),
            forall|k: int| idx <= k < len ==> #[trigger] state.mobs@[k] == old(state).mobs@[k],
            forall|k: int| 0 <= k < idx ==> advance_step(old(state).mobs@[k], #[trigger] state.mobs@[k]),
            forall|k: int| 0 <= k < len ==> (#[trigger] state.mobs@[k]).attack_delay > -state.tick - 10,
            state.player.attack_delay == old(state).player.attack_delay,
        decreases len - idx,
    {
        proof {
            state.lemma_wf_mob(idx as int);
            assert(state.mobs@[idx as int] == old(state).mobs@[idx as int]);
        }
        let ghost before = *state;
        if state.mobs[idx].dead || state.mobs[idx].dying > 0 {
            proof {
                assert(advance_turn(before, before, idx as int));
                ss = ss.push(before);
                assert(ss[idx as int] == before);
            }
            idx = idx + 1;
            continue;
        }
        if state.mobs[idx].stunned > 0 {
            let st: i32 = state.mobs[idx].stunned - 1;
            let fr: i32 = state.mobs[idx].frozen;
            set_hold(state, idx, st, fr);
            proof {
                assert(advance_turn(before, *state, idx as int));
                ss = ss.push(*state);
                assert(ss[idx as int] == before);
            }
            idx = idx + 1;
            continue;
        }
        if state.mobs[idx].frozen > 0 {
            let st: i32 = state.mobs[idx].stunned;
            let fr: i32 = state.mobs[idx].frozen - 1;
            set_hold(state, idx, st, fr);
            proof {
                assert(advance_turn(before, *state, idx as int));
                ss = ss.push(*state);
                assert(ss[idx as int] == before);
            }
            idx = idx + 1;
            continue;
        }
        hl_move_mob(idx, state);
        proof {
            assert(advance_turn(before, *state, idx as int));
            ss = ss.push(*state);
            assert(ss[idx as int] == before);
        }
        idx = idx + 1;
    }
}

/// State `b` is state `a` with the attack delay of monster `idx` one lower.
pub open spec fn attack_counted_down(a: State<'_>, b: State<'_>, idx: int) -> bool {
    b == (State {
        mobs: b.mobs,
        ..a
    }) && b.mobs@ == a.mobs@.update(idx, Mob { attack_delay: (a.mobs@[idx].attack_delay - 1) as i32, ..a.mobs@[idx] })
}

/// Counts down the attack delay of monster `idx`.
fn count_down_attack(state: &mut State, idx: usize)
    requires
        old(state).wf(),
        idx < old(state).mobs@.len(),
        old(state).mobs@[idx as int].attack_delay > -old(state).tick - 10,
    ensures
        final(state).wf(),
        same_frame(*final(state), *old(state)),
        final(state).mobs@.len() == old(state).mobs@.len(),
        forall|k: int| 0 <= k < old(state).mobs@.len() && k != idx ==> #[trigger] final(state).mobs@[k] == old(state).mobs@[k],
        final(state).player == old(state).player,
        attack_counted_down(*old(state), *final(state), idx as int),
{
    let ghost a = *state;
    proof {
        a.lemma_wf_mob(idx as int);
        a.lemma_wf_frame_links();
    }
    state.mobs[idx].attack_delay = state.mobs[idx].attack_delay - 1;
    proof {
        let m = state.mobs@[idx as int];
        assert(state.mobs@ =~= a.mobs@.update(idx as int, m));
        lemma_replace_same_footprint(a.mobs@, a.mob_occupancy@, a.id_to_idx@, idx as int, m);
        lemma_wf_update_mob(a, *state, idx as int);
    }
}

/// Monster `k`'s part of the attack phase, from state `a` to state `b`: a dead, dying or
/// stunned monster is skipped; any other counts down its attack delay and then takes
/// its attack turn.
pub open spec fn fire_turn(a: State<'_>, b: State<'_>, k: int, tick: int) -> bool {
    let m = a.mobs@[k];
    if m.dead || m.dying > 0 || m.stunned > 0 {
        b == a
    } else {
        exists|c: State<'_>| #[trigger] attack_counted_down(a, c, k) && mob_attack_turn(c, b, k, tick)
    }
}

/// The monsters' attack phase: each living, not dying, not stunned monster counts down
/// its attack delay and takes its attack turn, in the order of the monsters.
pub fn hl_fire_ready_mob_attacks<'a>(state: &mut State<'a>, tick: i32)
    requires
        old(state).wf(),
        tick == old(state).tick,
        forall|k: int| 0 <= k < old(state).mobs@.len() ==> (#[trigger] old(state).mobs@[k]).attack_delay > -old(state).tick - 10,
    ensures
        final(state).wf(),
        same_frame(*final(state), *old(state)),
        final(state).mobs@.len() == old(state).mobs@.len(),
        final(state).player.attack_delay == old(state).player.attack_delay,
        exists|ss: Seq<State<'a>>| {
            &&& ss.len() == old(state).mobs@.len() + 1
            &&& ss[0] == *old(state)
            &&& ss.last() == *final(state)
            &&& forall|k: int| 0 <= k < old(state).mobs@.len() ==> #[trigger] fire_turn(ss[k], ss[k + 1], k, tick as int)
        },
        fire_phase(*old(state), *final(state), tick as int),
{
    let ghost a = *state;
    let ghost mut ss: Seq<State<'a>> = seq![a];
    let len: usize = state.mobs.len();
    let mut idx: usize = 0;
    while idx < len
        invariant
            idx <= len,
            len == state.mobs@.len(),
            len == old(state).mobs@.len(),
            a == *old(state),
            state.wf(),
            same_frame(*state, *old(state)),
            tick == state.tick,
            forall|k: int| idx <= k < len ==> (#[trigger] state.mobs@[k]).attack_delay > -state.tick - 10,
            state.player.attack_delay == old(state).player.attack_delay,
            ss.len() == idx + 1,
            ss[0] == a,
            ss.last() == *state,
            forall|k: int| 0 <= k < idx ==> #[trigger] fire_turn(ss[k], ss[k + 1], k, tick as int),
        decreases len - idx,
    {
        let ghost before = *state;
        if state.mobs[idx].dead || state.mobs[idx].dying > 0 || state.mobs[idx].stunned > 0 {
            proof {
                assert(fire_turn(before, before, idx as int, tick as int));
                ss = ss.push(before);
            }
            idx = idx + 1;
            continue;
        }
        count_down_attack(state, idx);
        let ghost mid = *state;
        hl_mob_attack(idx, state, tick);
        proof {
            assert(attack_counted_down(before, mid, idx as int));
            assert(fire_turn(before, *state, idx as int, tick as int));
            ss = ss.push(*state);
            assert(ss[idx as int] == before);
        }
        idx = idx + 1;
    }
}

/// The world's events of a tick: corpses expire, doomed monsters start dying, and
/// bloblets whose time has come are released.
pub fn hl_process_world_events(state: &mut State, tick: i32)
    requires
        old(state).wf(),
        tick == old(state).tick,
        tick >= 1,
        tick_slack(*old(state)),
    ensures
        final(state).wf(),
        same_frame(*final(state), *old(state)),
        tick_slack(*final(state)),
        final(state).mobs@.len() >= old(state).mobs@.len(),
        forall|k: int| 0 <= k < old(state).mobs@.len() ==>
            #[trigger] final(state).mobs@[k] == death_step(corpse_step(old(state).mobs@[k], tick as int), tick as int),
        forall|k: int| old(state).mobs@.len() <= k < final(state).mobs@.len() ==>
            (#[trigger] final(state).mobs@[k]).no_los_ticks == 0 && final(state).mobs@[k].attack_delay == 4,
        final(state).player.x == old(state).player.x,
        final(state).player.y == old(state).player.y,
        final(state).player.attack_delay == old(state).player.attack_delay,
        world_phase(*old(state), *final(state), tick as int),
{
    let ghost a = *state;
    hl_process_corpse_expiry(state, tick);
    let ghost b = *state;
    hl_process_pending_mob_deaths(state, tick);
    let ghost c = *state;
    hl_process_delayed_bloblet_spawns(state, tick);
    proof {
        assert forall|k: int| 0 <= k < state.mobs@.len() implies (#[trigger] state.mobs@[k]).no_los_ticks < state.tick
            && state.mobs@[k].attack_delay > -state.tick - 10 by {
            if k < c.mobs@.len() {
                assert(state.mobs@.subrange(0, c.mobs@.len() as int)[k] == c.mobs@[k]);
                assert(c.mobs@[k] == death_step(b.mobs@[k], tick as int));
                assert(b.mobs@[k] == corpse_step(a.mobs@[k], tick as int));
                assert(a.mobs@[k].no_los_ticks < a.tick);
            }
        }
        assert forall|k: int| 0 <= k < a.mobs@.len() implies
            #[trigger] state.mobs@[k] == death_step(corpse_step(a.mobs@[k], tick as int), tick as int) by {
            assert(state.mobs@.subrange(0, c.mobs@.len() as int)[k] == c.mobs@[k]);
            assert(c.mobs@[k] == death_step(b.mobs@[k], tick as int));
            assert(b.mobs@[k] == corpse_step(a.mobs@[k], tick as int));
        }
    }
}

/// The world-event phase from `a` to `b`: corpses expire and doomed monsters start
/// dying, monster by monster; released bloblets join at the end.
pub open spec fn world_phase(a: State<'_>, b: State<'_>, tick: int) -> bool {
    &&& same_frame(b, a)
    &&& b.mobs@.len() >= a.mobs@.len()
    &&& forall|k: int| 0 <= k < a.mobs@.len() ==> #[trigger] b.mobs@[k] == death_step(corpse_step(a.mobs@[k], tick), tick)
    &&& forall|k: int| a.mobs@.len() <= k < b.mobs@.len() ==> (#[trigger] b.mobs@[k]).no_los_ticks == 0
        && b.mobs@[k].attack_delay == 4
    &&& b.player.x == a.player.x && b.player.y == a.player.y && b.player.attack_delay == a.player.attack_delay
}

/// The movement phase from `a` to `b`: each monster takes its movement step.
pub open spec fn mobs_phase(a: State<'_>, b: State<'_>) -> bool {
    &&& same_frame(b, a)
    &&& b.mobs@.len() == a.mobs@.len()
    &&& b.player.attack_delay == a.player.attack_delay
    &&& forall|k: int| 0 <= k < a.mobs@.len() ==> advance_step(a.mobs@[k], #[trigger] b.mobs@[k])
    &&& exists|ss: Seq<State<'_>>| {
        &&& ss.len() == a.mobs@.len() + 1
        &&& ss[0] == a
        &&& ss.last() == b
        &&& forall|k: int| 0 <= k < a.mobs@.len() ==> #[trigger] advance_turn(ss[k], ss[k + 1], k)
    }
}

/// The attack phase from `a` to `b`: the monsters' turns, one after the other.
pub open spec fn fire_phase(a: State<'_>, b: State<'_>, tick: int) -> bool {
    &&& same_frame(b, a)
    &&& b.mobs@.len() == a.mobs@.len()
    &&& b.player.attack_delay == a.player.attack_delay
    &&& exists|ss: Seq<State<'_>>| {
        &&& ss.len() == a.mobs@.len() + 1
        &&& ss[0] == a
        &&& ss.last() == b
        &&& forall|k: int| 0 <= k < a.mobs@.len() ==> #[trigger] fire_turn(ss[k], ss[k + 1], k, tick)
    }
}

/// The phase from `a` to `b` in which the player's projectiles land on every living
/// monster that is not dying.
pub open spec fn hits_phase(a: State<'_>, b: State<'_>, tick: int) -> bool {
    &&& same_frame(b, a)
    &&& b.mobs@.len() == a.mobs@.len()
    &&& b.player == a.player
    &&& b.attacks@ == a.attacks@
    &&& forall|k: int| 0 <= k < a.mobs@.len() ==> {
        let m = a.mobs@[k];
        &&& !m.dead && m.dying <= 0 ==> projectiles_landed(m, #[trigger] b.mobs@[k], tick)
        &&& !(!m.dead && m.dying <= 0) ==> b.mobs@[k] == m
    }
}

/// The phase from `a` to `b` in which the monsters' projectiles count down towards the
/// player; `arrived` tells whether any arrived.
pub open spec fn incoming_phase(a: State<'_>, b: State<'_>, arrived: bool) -> bool {
    &&& same_frame(b, a)
    &&& b.mobs@ == a.mobs@
    &&& b.player == (crate::runtime::Player { incoming_projectiles: b.player.incoming_projectiles, ..a.player })
    &&& arrived == exists|k: int| 0 <= k < a.player.incoming_projectiles.items().len()
        && (#[trigger] a.player.incoming_projectiles.items()[k]).delay <= 1
}

/// The auto-retaliation phase from `a` to `b`.
pub open spec fn retaliate_phase(a: State<'_>, b: State<'_>, tick: int, player_was_hit: bool) -> bool {
    let p = a.player;
    let retaliates = p.auto_retaliate && player_was_hit && aggro_unusable_spec(a, p.aggro, tick)
        && (mob_of(a, p.last_attacker) matches Some(m) && !m.dead && m.dying == -1 && m.pending_removal_tick is None);
    &&& player_phase_keeps(a, b)
    &&& b.player.x == p.x && b.player.y == p.y
    &&& b.player.attack_delay >= p.attack_delay
    &&& b.player.incoming_projectiles == p.incoming_projectiles
    &&& retaliates ==> b.player.aggro == p.last_attacker
    &&& !retaliates ==> b.player == p
}

/// The player's phase from `a` to `z`: the attack delay counts down, the player walks
/// towards its target, drops an expired target, and attacks when it can.
pub open spec fn advance_player_phase(a: State<'_>, z: State<'_>, tick: int) -> bool {
    &&& same_frame(z, a)
    &&& z.mobs@.len() == a.mobs@.len()
    &&& exists|b: State<'_>, c: State<'_>, d: State<'_>| #[trigger] player_delay_down(a, b)
        && #[trigger] aggro_walk_step(b, c) && #[trigger] aggro_clear_step(c, d, tick)
        && attack_if_ready_step(d, z)
}

/// One tick from `a` to `z` through its phases, with `b0` to `b6` the states between
/// them and `hit` whether a monster projectile reached the player.
pub open spec fn tick_chain(a: State<'_>, b0: State<'_>, b1: State<'_>, b2: State<'_>, b3: State<'_>, b4: State<'_>,
    b5: State<'_>, b6: State<'_>, hit: bool, z: State<'_>) -> bool {
    let t = a.tick + 1;
    &&& b0 == (State { tick: t as i32, ..a })
    &&& world_phase(b0, b1, t)
    &&& mobs_phase(b1, b2)
    &&& fire_phase(b2, b3, t)
    &&& hits_phase(b3, b4, t)
    &&& incoming_phase(b4, b5, hit)
    &&& retaliate_phase(b5, b6, t, hit)
    &&& advance_player_phase(b6, z, t)
}

/// One tick of the simulation, from `a` to `z`.
pub open spec fn tick_step(a: State<'_>, z: State<'_>) -> bool {
    exists|b0: State<'_>, b1: State<'_>, b2: State<'_>, b3: State<'_>, b4: State<'_>, b5: State<'_>, b6: State<'_>,
        hit: bool| #[trigger] tick_chain(a, b0, b1, b2, b3, b4, b5, b6, hit, z)
}

/// One tick of the simulation, in the order the game runs its phases: world events,
/// monster movement, monster attacks, the player's projectiles landing, the monsters'
/// projectiles arriving, auto-retaliation, and the player's turn.
pub fn hl_tick<'a>(state: &mut State<'a>)
    requires
        old(state).wf(),
        old(state).tick < crate::state::MAX_SIM_TICKS,
    ensures
        final(state).wf(),
        final(state).tick == old(state).tick + 1,
        final(state).region == old(state).region,
        final(state).loadout == old(state).loadout,
        tick_step(*old(state), *final(state)),
{
    let ghost a = *state;
    state.tick = state.tick + 1;
    proof {
        lemma_wf_tick_advance(a, *state);
    }
    let ghost b0 = *state;
    let tick: i32 = state.tick;
    hl_process_world_events(state, tick);
    let ghost b1 = *state;
    hl_advance_mobs(state);
    let ghost b2 = *state;
    hl_fire_ready_mob_attacks(state, tick);
    let ghost b3 = *state;
    hl_apply_player_projectile_hits(state, tick);
    let ghost b4 = *state;
    let player_was_hit: bool = hl_advance_incoming_mob_projectiles(state);
    let ghost b5 = *state;
    hl_update_auto_retaliate(state, tick, player_was_hit);
    let ghost b6 = *state;
    proof {
        assert(state.player.attack_delay > -state.tick - 2_000_010);
    }
    hl_advance_player(state, tick);
    proof {
        assert(b0 == (State { tick: (a.tick + 1) as i32, ..a }));
        assert(tick_chain(a, b0, b1, b2, b3, b4, b5, b6, player_was_hit, *state));
    }
}

} // verus!
