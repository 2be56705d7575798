use vstd::prelude::*;

use crate::dig::start_dig;
use crate::mechanics::{arena_index_spec, collides_spec, collision_math, in_arena, on_grid, sign, sign_spec};
use crate::region::{tile_blocked, tile_blocked_spec};
use crate::rng::{HALF_THRESHOLD, TENTH_THRESHOLD, roll_below};
use crate::runtime::{Mob, Player};
use crate::sight::{mob_has_los, mob_los_spec};
use crate::state::{State, lemma_replace_same_footprint, lemma_wf_relevant, lemma_wf_update_mob, mob_ok, mob_pos_ok,
    move_mob_to, point_blocker, same_frame, state_point_collides_with_mobs, wf_relevant_eq};
use crate::types::MobType;

verus! {

/// Whether monster `idx` may step onto tile `(x, y)`: the tile is open and, unless the
/// monster is a nibbler, no other monster (nibblers aside) stands on it.
pub open spec fn step_tile_clear(state: State<'_>, idx: usize, x: int, y: int) -> bool {
    &&& !tile_blocked_spec(state.region.blocked@, x, y)
    &&& state.mobs@[idx as int].mob_type != MobType::Nibbler ==> !(in_arena(x, y)
        && exists|k: int| 0 <= k < 64 && #[trigger] point_blocker(state.mobs@, arena_index_spec(x, y), k, Some(idx), true))
}

/// Whether the `s` tiles from `(x, y)` downwards are clear for monster `idx`.
pub open spec fn column_clear(state: State<'_>, idx: usize, x: int, y: int, s: int) -> bool {
    forall|i: int| 0 <= i < s ==> #[trigger] step_tile_clear(state, idx, x, y - i)
}

/// Whether the `s` tiles from `(x, y)` rightwards are clear for monster `idx`.
pub open spec fn row_clear(state: State<'_>, idx: usize, x: int, y: int, s: int) -> bool {
    forall|i: int| 0 <= i < s ==> #[trigger] step_tile_clear(state, idx, x + i, y)
}

/// Whether monster `idx` can step by `x_off` horizontally and `y_off` upwards: the
/// edge of its footprint that leads in each direction finds clear tiles.
#[verifier::opaque]
pub open spec fn can_move_spec(state: State<'_>, idx: usize, x_off: int, y_off: int) -> bool {
    let m = state.mobs@[idx as int];
    let s = m.size as int;
    let dx = x_off;
    let dy = -y_off;
    let nx = m.x + dx;
    let ny = m.y + dy;
    if x_off == 0 && y_off == 0 {
        true
    } else {
        &&& dx == -1 ==> column_clear(state, idx, nx, ny, s)
        &&& dx == 1 ==> column_clear(state, idx, nx + s - 1, ny, s)
        &&& dy == 1 ==> row_clear(state, idx, nx, ny, s)
        &&& dy == -1 ==> row_clear(state, idx, nx, ny - s + 1, s)
    }
}

/// Checks the `s` tiles of a column (`horizontal` false) or a row of the footprint edge.
fn edge_clear(state: &State<'_>, idx: usize, x: i32, y: i32, s: i32, horizontal: bool) -> (r: bool)
    requires
        state.wf(),
        idx < state.mobs@.len(),
        1 <= s <= 4,
        -20 <= x <= 80,
        -20 <= y <= 80,
    ensures
        horizontal ==> r == row_clear(*state, idx, x as int, y as int, s as int),
        !horizontal ==> r == column_clear(*state, idx, x as int, y as int, s as int),
{
    proof {
        state.lemma_wf_frame_links();
    }
    let is_nib: bool = state.mobs[idx].mob_type == MobType::Nibbler;
    let mut i: i32 = 0;
    while i < s
        invariant
            0 <= i <= s,
            1 <= s <= 4,
            -20 <= x <= 80,
            -20 <= y <= 80,
            idx < state.mobs@.len(),
            is_nib == (state.mobs@[idx as int].mob_type == MobType::Nibbler),
            crate::mechanics::occupancy_consistent(state.mobs@, state.mob_occupancy@),
            horizontal ==> forall|k: int| 0 <= k < i ==> #[trigger] step_tile_clear(*state, idx, x + k, y as int),
            !horizontal ==> forall|k: int| 0 <= k < i ==> #[trigger] step_tile_clear(*state, idx, x as int, y - k),
        decreases s - i,
    {
        let tx: i32 = if horizontal { x + i } else { x };
        let ty: i32 = if horizontal { y } else { y - i };
        if tile_blocked(&state.region.blocked, tx, ty) {
            proof {
                if horizontal {
                    assert(!step_tile_clear(*state, idx, x + i, y as int));
                } else {
                    assert(!step_tile_clear(*state, idx, x as int, y - i));
                }
            }
            return false;
        }
        let hit: Option<usize> = if is_nib { None } else { state_point_collides_with_mobs(tx, ty, state, Some(idx), true) };
        if let Some(k) = hit {
            proof {
                assert(point_blocker(state.mobs@, arena_index_spec(tx as int, ty as int), k as int, Some(idx), true));
                if horizontal {
                    assert(!step_tile_clear(*state, idx, x + i, y as int));
                } else {
                    assert(!step_tile_clear(*state, idx, x as int, y - i));
                }
            }
            return false;
        }
        proof {
            if horizontal {
                assert(step_tile_clear(*state, idx, x + i, y as int));
            } else {
                assert(step_tile_clear(*state, idx, x as int, y - i));
            }
        }
        i = i + 1;
    }
    true
}

/// Whether monster `idx` can step by `x_off` horizontally and `y_off` upwards.
pub fn hl_can_move(idx: usize, x_off: i32, y_off: i32, state: &State) -> (r: bool)
    requires
        state.wf(),
        idx < state.mobs@.len(),
        -1 <= x_off <= 1,
        -1 <= y_off <= 1,
    ensures
        r == can_move_spec(*state, idx, x_off as int, y_off as int),
        r ==> mob_pos_ok(state.mobs@[idx as int].mob_type, state.mobs@[idx as int].x + x_off,
            state.mobs@[idx as int].y - y_off),
{
    proof {
        state.lemma_wf_mob(idx as int);
        reveal(can_move_spec);
    }
    if x_off == 0 && y_off == 0 {
        return true;
    }
    let s: i32 = state.mobs[idx].size;
    let dx: i32 = x_off;
    let dy: i32 = -y_off;
    let nx: i32 = state.mobs[idx].x + dx;
    let ny: i32 = state.mobs[idx].y + dy;
    if dx == -1 {
        if !edge_clear(state, idx, nx, ny, s, false) {
            return false;
        }
        assert(step_tile_clear(*state, idx, nx as int, ny - 0));
    } else if dx == 1 {
        if !edge_clear(state, idx, nx + s - 1, ny, s, false) {
            return false;
        }
        assert(step_tile_clear(*state, idx, (nx + s - 1) as int, ny - 0));
    }
    if dy == 1 {
        if !edge_clear(state, idx, nx, ny, s, true) {
            return false;
        }
        assert(step_tile_clear(*state, idx, nx + 0, ny as int));
    } else if dy == -1 {
        if !edge_clear(state, idx, nx, ny - s + 1, s, true) {
            return false;
        }
        assert(step_tile_clear(*state, idx, nx + 0, (ny - s + 1) as int));
    }
    true
}


/// What a monster's move may change about it: its line-of-sight record, its dig
/// state, its freeze, its attack delay (only to the six ticks after resurfacing) and
/// its position; never its life or kind.
pub open spec fn move_keeps(a: Mob, b: Mob) -> bool {
    &&& b.id == a.id
    &&& b.mob_type == a.mob_type
    &&& b.dead == a.dead
    &&& b.dying == a.dying
    &&& b.stunned == a.stunned
    &&& b.hp == a.hp
    &&& b.pending_removal_tick == a.pending_removal_tick
    &&& (b.attack_delay == a.attack_delay || b.attack_delay == 6)
    &&& b.incoming_projectiles == a.incoming_projectiles
}

/// A digging monster's count-down step from `m` to `n` (with the player's target
/// before and after): the count goes down by one; when it ends the monster resurfaces at
/// its dig location, frozen for two ticks, attacking after six, and stops being the
/// player's target.
pub open spec fn dig_step(m: Mob, n: Mob, aggro: Option<usize>, aggro_after: Option<usize>) -> bool {
    &&& n.dig_timer == m.dig_timer - 1
    &&& m.dig_timer > 1 ==> n.x == m.x && n.y == m.y && n.attack_delay == m.attack_delay && n.frozen == m.frozen
        && n.dig_location == m.dig_location && aggro_after == aggro
    &&& m.dig_timer == 1 ==> {
        &&& n.attack_delay == 6 && n.frozen == 2 && n.dig_location is None
        &&& m.dig_location matches Some(l) ==> n.x == l.x && n.y == l.y
        &&& m.dig_location is None ==> n.x == m.x && n.y == m.y
        &&& aggro_after == if aggro == Some(m.id) { None } else { aggro }
    }
}

/// A monster's walk from `m` to `n`: at most one tile along each axis, and none while
/// its attack delay is above its attack period.
pub open spec fn walk_step(m: Mob, n: Mob) -> bool {
    &&& -1 <= n.x - m.x <= 1
    &&& -1 <= n.y - m.y <= 1
    &&& m.attack_delay > m.atk_speed ==> n.x == m.x && n.y == m.y
    &&& n.attack_delay == m.attack_delay
    &&& n.dig_timer == m.dig_timer
    &&& n.frozen == m.frozen
}

/// The count-down of a digging monster: when it ends, the monster resurfaces at its
/// dig location, frozen for two ticks, attacking after six, and is dropped as the
/// player's target.
#[verifier::rlimit(60)]
fn dig_countdown(idx: usize, state: &mut State)
    requires
        old(state).wf(),
        idx < old(state).mobs@.len(),
        old(state).mobs@[idx as int].has_dig,
        old(state).mobs@[idx as int].dig_timer > 0,
    ensures
        final(state).wf(),
        dig_step(old(state).mobs@[idx as int], final(state).mobs@[idx as int], old(state).player.aggro,
            final(state).player.aggro),
        same_frame(*final(state), *old(state)),
        final(state).mobs@.len() == old(state).mobs@.len(),
        forall|k: int| 0 <= k < old(state).mobs@.len() && k != idx ==> #[trigger] final(state).mobs@[k] == old(state).mobs@[k],
        move_keeps(old(state).mobs@[idx as int], final(state).mobs@[idx as int]),
        final(state).mobs@[idx as int].no_los_ticks == old(state).mobs@[idx as int].no_los_ticks,
        final(state).player == (Player { aggro: final(state).player.aggro, ..old(state).player }),
        final(state).player.x == old(state).player.x,
        final(state).player.y == old(state).player.y,
        final(state).player.attack_delay == old(state).player.attack_delay,
        final(state).player.incoming_projectiles == old(state).player.incoming_projectiles,
        final(state).attacks@ == old(state).attacks@,
{
    let ghost a = *state;
    proof {
        a.lemma_wf_mob(idx as int);
        a.lemma_wf_frame_links();
    }
    state.mobs[idx].dig_timer = state.mobs[idx].dig_timer - 1;
    proof {
        let m = state.mobs@[idx as int];
        assert(state.mobs@ =~= a.mobs@.update(idx as int, m));
        lemma_replace_same_footprint(a.mobs@, a.mob_occupancy@, a.id_to_idx@, idx as int, m);
        lemma_wf_update_mob(a, *state, idx as int);
    }
    if state.mobs[idx].dig_timer != 0 {
        return;
    }
    if let Some(loc) = state.mobs[idx].dig_location {
        move_mob_to(state, idx, loc.x, loc.y);
    }
    let ghost b = *state;
    proof {
        b.lemma_wf_mob(idx as int);
        b.lemma_wf_frame_links();
    }
    state.mobs[idx].attack_delay = 6;
    state.mobs[idx].frozen = 2;
    state.mobs[idx].dig_location = None;
    proof {
        let m = state.mobs@[idx as int];
        assert(state.mobs@ =~= b.mobs@.update(idx as int, m));
        lemma_replace_same_footprint(b.mobs@, b.mob_occupancy@, b.id_to_idx@, idx as int, m);
        lemma_wf_update_mob(b, *state, idx as int);
    }
    if state.player.aggro == Some(state.mobs[idx].id) {
        let ghost c = *state;
        state.player.aggro = None;
        proof {
            c.lemma_wf_frame_links();
            crate::state::lemma_wf_player(c, *state);
        }
    }
}

/// Records the monster's line of sight to the player for this tick; returns it.
fn refresh_sight(idx: usize, state: &mut State) -> (r: bool)
    requires
        old(state).wf(),
        idx < old(state).mobs@.len(),
        old(state).mobs@[idx as int].no_los_ticks < old(state).tick,
    ensures
        final(state).wf(),
        same_frame(*final(state), *old(state)),
        final(state).mobs@.len() == old(state).mobs@.len(),
        forall|k: int| 0 <= k < old(state).mobs@.len() && k != idx ==> #[trigger] final(state).mobs@[k] == old(state).mobs@[k],
        move_keeps(old(state).mobs@[idx as int], final(state).mobs@[idx as int]),
        final(state).mobs@[idx as int].x == old(state).mobs@[idx as int].x,
        final(state).mobs@[idx as int].y == old(state).mobs@[idx as int].y,
        final(state).mobs@[idx as int].frozen == old(state).mobs@[idx as int].frozen,
        final(state).mobs@[idx as int].has_dig == old(state).mobs@[idx as int].has_dig,
        final(state).mobs@[idx as int].dig_timer == old(state).mobs@[idx as int].dig_timer,
        final(state).mobs@[idx as int].attack_delay == old(state).mobs@[idx as int].attack_delay,
        final(state).mobs@[idx as int].has_los == r,
        r == mob_los_spec(old(state).region.blocked@, old(state).mobs@[idx as int], old(state).player.x as int, old(state).player.y as int),
        final(state).mobs@[idx as int] == (Mob {
            had_los: old(state).mobs@[idx as int].has_los,
            has_los: r,
            los_checked_tick: old(state).tick,
            no_los_ticks: if r { 0i32 } else { (old(state).mobs@[idx as int].no_los_ticks + 1) as i32 },
            ..old(state).mobs@[idx as int] }),
        final(state).player == old(state).player,
        final(state).rng == old(state).rng,
        final(state).attacks@ == old(state).attacks@,
{
    let ghost a = *state;
    proof {
        a.lemma_wf_mob(idx as int);
        a.lemma_wf_frame_links();
    }
    let has_los: bool = mob_has_los(state.region, &state.mobs[idx], &state.player);
    let tick: i32 = state.tick;
    state.mobs[idx].had_los = state.mobs[idx].has_los;
    state.mobs[idx].has_los = has_los;
    state.mobs[idx].los_checked_tick = tick;
    if has_los {
        state.mobs[idx].no_los_ticks = 0;
    } else {
        state.mobs[idx].no_los_ticks = state.mobs[idx].no_los_ticks + 1;
    }
    proof {
        let m = state.mobs@[idx as int];
        assert(state.mobs@ =~= a.mobs@.update(idx as int, m));
        lemma_replace_same_footprint(a.mobs@, a.mob_occupancy@, a.id_to_idx@, idx as int, m);
        lemma_wf_update_mob(a, *state, idx as int);
    }
    has_los
}

/// The tile a monster steps towards: one step closer to the player on each axis, a
/// random sideways step when the player stands under the monster, and never onto the
/// player.
fn step_target(idx: usize, state: &mut State) -> (r: (i32, i32))
    requires
        old(state).wf(),
        idx < old(state).mobs@.len(),
    ensures
        final(state).wf(),
        wf_relevant_eq(*old(state), *final(state)),
        final(state).attacks@ == old(state).attacks@,
        -1 <= r.0 - old(state).mobs@[idx as int].x <= 1,
        -1 <= r.1 - old(state).mobs@[idx as int].y <= 1,
        step_target_ok(old(state).mobs@[idx as int], old(state).player.x as int, old(state).player.y as int,
            (r.0 as int, r.1 as int)),
{
    let ghost b = *state;
    proof {
        b.lemma_wf_mob(idx as int);
        b.lemma_wf_frame_links();
    }
    let mx: i32 = state.mobs[idx].x;
    let my: i32 = state.mobs[idx].y;
    let ms: i32 = state.mobs[idx].size;
    let px: i32 = state.player.x;
    let py: i32 = state.player.y;
    let mut dx: i32 = mx + sign(px - mx);
    let mut dy: i32 = my + sign(py - my);
    if collision_math(mx, my, ms, px, py, 1) {
        let r1: u32 = state.rng.next_u32();
        if roll_below(r1, HALF_THRESHOLD) {
            dy = my;
            let r2: u32 = state.rng.next_u32();
            dx = mx + if roll_below(r2, HALF_THRESHOLD) { 1 } else { -1 };
        } else {
            dx = mx;
            let r2: u32 = state.rng.next_u32();
            dy = my + if roll_below(r2, HALF_THRESHOLD) { 1 } else { -1 };
        }
        proof {
            lemma_wf_relevant(b, *state);
        }
    } else if collision_math(dx, dy, ms, px, py, 1) {
        dy = my;
    }
    (dx, dy)
}

/// Monster `m` placed on `(x, y)`; a real move forgets when its sight was last checked.
pub open spec fn placed(m: Mob, x: int, y: int) -> Mob {
    if m.x == x && m.y == y {
        m
    } else {
        Mob { x: x as i32, y: y as i32, los_checked_tick: -1i32, ..m }
    }
}

/// Where monster `idx` ends up stepping towards `(dx, dy)`: there if it can move
/// diagonally, else along x only, else along y only, else where it stands.
pub open spec fn step_dest(state: State<'_>, idx: usize, dx: int, dy: int) -> (int, int) {
    let m = state.mobs@[idx as int];
    let x_off = dx - m.x;
    let y_off = m.y - dy;
    if can_move_spec(state, idx, x_off, y_off) {
        (dx, dy)
    } else if x_off != 0 && can_move_spec(state, idx, x_off, 0) {
        (dx, m.y as int)
    } else if y_off != 0 && can_move_spec(state, idx, 0, y_off) {
        (m.x as int, dy)
    } else {
        (m.x as int, m.y as int)
    }
}

/// The tile a monster chases the player by: one step closer on each axis, keeping its
/// row when that tile would overlap the player.
pub open spec fn chase_target(m: Mob, px: int, py: int) -> (int, int) {
    let dx = m.x + sign_spec(px - m.x);
    let dy = m.y + sign_spec(py - m.y);
    if collides_spec(dx, dy, m.size as int, px, py, 1) {
        (dx, m.y as int)
    } else {
        (dx, dy)
    }
}

/// Whether `t` is a tile monster `m` may step towards while chasing the player at
/// `(px, py)`: the chase tile, or, when the player stands under the monster, one of the
/// four tiles beside it.
pub open spec fn step_target_ok(m: Mob, px: int, py: int, t: (int, int)) -> bool {
    if collides_spec(m.x as int, m.y as int, m.size as int, px, py, 1) {
        (t.0 == m.x && (t.1 == m.y + 1 || t.1 == m.y - 1)) || (t.1 == m.y && (t.0 == m.x + 1 || t.0 == m.x - 1))
    } else {
        t == chase_target(m, px, py)
    }
}

/// Takes a step towards `(dx, dy)`: diagonally if the monster can, else along x, else
/// along y.
#[verifier::rlimit(100)]
fn take_step(idx: usize, state: &mut State, dx: i32, dy: i32)
    requires
        old(state).wf(),
        idx < old(state).mobs@.len(),
        -1 <= dx - old(state).mobs@[idx as int].x <= 1,
        -1 <= dy - old(state).mobs@[idx as int].y <= 1,
    ensures
        final(state).wf(),
        final(state).mobs@[idx as int] == old(state).mobs@[idx as int]
            || final(state).mobs@[idx as int] == (Mob { x: final(state).mobs@[idx as int].x, y: final(state).mobs@[idx as int].y,
                los_checked_tick: -1i32, ..old(state).mobs@[idx as int] }),
        -1 <= final(state).mobs@[idx as int].x - old(state).mobs@[idx as int].x <= 1,
        -1 <= final(state).mobs@[idx as int].y - old(state).mobs@[idx as int].y <= 1,
        same_frame(*final(state), *old(state)),
        final(state).mobs@.len() == old(state).mobs@.len(),
        forall|k: int| 0 <= k < old(state).mobs@.len() && k != idx ==> #[trigger] final(state).mobs@[k] == old(state).mobs@[k],
        move_keeps(old(state).mobs@[idx as int], final(state).mobs@[idx as int]),
        final(state).mobs@[idx as int].no_los_ticks == old(state).mobs@[idx as int].no_los_ticks,
        final(state).player == old(state).player,
        final(state).attacks@ == old(state).attacks@,
        final(state).mobs@ == old(state).mobs@.update(idx as int, placed(old(state).mobs@[idx as int],
            step_dest(*old(state), idx, dx as int, dy as int).0, step_dest(*old(state), idx, dx as int, dy as int).1)),
{
    let mx: i32 = state.mobs[idx].x;
    let my: i32 = state.mobs[idx].y;
    let x_off: i32 = dx - mx;
    let y_off: i32 = my - dy;
    let both: bool = hl_can_move(idx, x_off, y_off, state);
    let mut can_x: bool = false;
    let mut can_y: bool = false;
    if !both {
        if x_off != 0 {
            can_x = hl_can_move(idx, x_off, 0, state);
        }
        if !can_x && y_off != 0 {
            can_y = hl_can_move(idx, 0, y_off, state);
        }
    }
    if both {
        move_mob_to(state, idx, dx, dy);
    } else if can_x {
        move_mob_to(state, idx, dx, my);
    } else if can_y {
        move_mob_to(state, idx, mx, dy);
    }
}

/// A step towards the player, once the monster's attack delay has run down to its
/// attack period.
fn step_towards_player(idx: usize, state: &mut State)
    requires
        old(state).wf(),
        idx < old(state).mobs@.len(),
    ensures
        final(state).wf(),
        walk_step(old(state).mobs@[idx as int], final(state).mobs@[idx as int]),
        final(state).mobs@[idx as int].has_los == old(state).mobs@[idx as int].has_los,
        same_frame(*final(state), *old(state)),
        final(state).mobs@.len() == old(state).mobs@.len(),
        forall|k: int| 0 <= k < old(state).mobs@.len() && k != idx ==> #[trigger] final(state).mobs@[k] == old(state).mobs@[k],
        move_keeps(old(state).mobs@[idx as int], final(state).mobs@[idx as int]),
        final(state).mobs@[idx as int].no_los_ticks == old(state).mobs@[idx as int].no_los_ticks,
        final(state).player == old(state).player,
        final(state).attacks@ == old(state).attacks@,
        ({
            let m = old(state).mobs@[idx as int];
            &&& m.attack_delay > m.atk_speed ==> final(state).mobs@ == old(state).mobs@
            &&& m.attack_delay <= m.atk_speed ==> exists|t: (int, int)| #[trigger] step_target_ok(m, old(state).player.x as int,
                old(state).player.y as int, t) && final(state).mobs@ == old(state).mobs@.update(idx as int,
                placed(m, step_dest(*old(state), idx, t.0, t.1).0, step_dest(*old(state), idx, t.0, t.1).1))
        }),
{
    let ghost a = *state;
    let (dx, dy) = step_target(idx, state);
    if state.mobs[idx].attack_delay > state.mobs[idx].atk_speed {
        return;
    }
    let ghost b = *state;
    take_step(idx, state, dx, dy);
    proof {
        lemma_can_move_same_state(a, b, idx);
        assert(step_dest(b, idx, dx as int, dy as int) == step_dest(a, idx, dx as int, dy as int));
        assert(step_target_ok(a.mobs@[idx as int], a.player.x as int, a.player.y as int, (dx as int, dy as int)));
    }
}

/// Whether a monster can move depends only on the monsters and the blocked tiles.
proof fn lemma_can_move_same_state(a: State<'_>, b: State<'_>, idx: usize)
    requires
        a.mobs@ == b.mobs@,
        a.region.blocked@ == b.region.blocked@,
    ensures
        forall|x: int, y: int| #[trigger] can_move_spec(a, idx, x, y) == can_move_spec(b, idx, x, y),
{
    reveal(can_move_spec);
    assert forall|x: int, y: int| #[trigger] can_move_spec(a, idx, x, y) == can_move_spec(b, idx, x, y) by {
        assert forall|px: int, py: int| step_tile_clear(a, idx, px, py) == step_tile_clear(b, idx, px, py) by {}
    }
}

/// Monster `m` after a sight check on `tick` that found `sees`.
pub open spec fn refreshed(m: Mob, sees: bool, tick: i32) -> Mob {
    Mob {
        had_los: m.has_los,
        has_los: sees,
        los_checked_tick: tick,
        no_los_ticks: if sees { 0i32 } else { (m.no_los_ticks + 1) as i32 },
        ..m
    }
}

/// State `b` has the monsters of state `a`, with monster `idx` replaced by `r`, on the
/// same board.
pub open spec fn with_mob(b: State<'_>, a: State<'_>, idx: usize, r: Mob) -> bool {
    &&& b.mobs@ == a.mobs@.update(idx as int, r)
    &&& b.region == a.region
}

/// Monster `idx`'s move of a tick, from state `a` to state `b`, as `hl_move_mob` makes it.
pub open spec fn move_turn(a: State<'_>, b: State<'_>, idx: usize) -> bool {
    &&& same_frame(b, a)
    &&& b.mobs@.len() == a.mobs@.len()
    &&& forall|k: int| 0 <= k < a.mobs@.len() && k != idx ==> #[trigger] b.mobs@[k] == a.mobs@[k]
    &&& move_keeps(a.mobs@[idx as int], b.mobs@[idx as int])
    &&& b.player.x == a.player.x
    &&& b.player.y == a.player.y
    &&& b.player.attack_delay == a.player.attack_delay
    &&& b.player.incoming_projectiles == a.player.incoming_projectiles
    &&& b.attacks@ == a.attacks@
    &&& {
        let m = a.mobs@[idx as int];
        let n = b.mobs@[idx as int];
        let sees = mob_los_spec(a.region.blocked@, m, a.player.x as int, a.player.y as int);
        let digging = m.has_dig && m.dig_timer > 0;
        &&& digging ==> dig_step(m, n, a.player.aggro, b.player.aggro)
        &&& digging ==> b.player == (Player { aggro: b.player.aggro, ..a.player })
        &&& !digging ==> b.player == a.player
        &&& !digging ==> {
            &&& n.has_los == sees
            &&& n.no_los_ticks == if sees { 0 } else { m.no_los_ticks + 1 }
            &&& b.player.aggro == a.player.aggro
            &&& (sees || m.frozen > 0) ==> n.x == m.x && n.y == m.y && n.attack_delay == m.attack_delay
                && n.dig_timer == m.dig_timer && n.frozen == m.frozen && n.los_checked_tick == a.tick
            &&& (!sees && m.frozen <= 0) ==> {
                let burrows = m.has_dig && m.dig_timer == 0 && n.dig_timer != 0;
                &&& burrows ==> n.x == m.x && n.y == m.y && n.dig_timer == 6 && n.frozen == 6
                    && m.attack_delay <= -38
                &&& !burrows ==> walk_step(m, n)
                &&& (m.has_dig && m.dig_timer == 0 && m.attack_delay <= -50) ==> burrows
                &&& !burrows ==> {
                    let r = refreshed(m, false, a.tick);
                    &&& m.attack_delay > m.atk_speed ==> n == r
                    &&& m.attack_delay <= m.atk_speed ==> exists|w: State<'_>, t: (int, int)|
                        #[trigger] with_mob(w, a, idx, r)
                        && #[trigger] step_target_ok(m, a.player.x as int, a.player.y as int, t)
                        && n == placed(r, step_dest(w, idx, t.0, t.1).0, step_dest(w, idx, t.0, t.1).1)
                }
            }
        }
    }
}

/// Moves monster `idx` one step of a tick. A digging monster counts down and, when the
/// count ends, resurfaces at its dig location (frozen, attacking after six ticks, and
/// dropped as the player's target). Otherwise the monster checks its line of sight to
/// the player; with sight, or while frozen, it stays. A digger that has waited long
/// enough (a tenth chance from 38 ticks past its attack, surely from 50) burrows.
/// Else it steps towards the player, but only once its attack delay has run down to
/// its attack period.
pub fn hl_move_mob(idx: usize, state: &mut State)
    requires
        old(state).wf(),
        idx < old(state).mobs@.len(),
        old(state).mobs@[idx as int].no_los_ticks < old(state).tick,
    ensures
        final(state).wf(),
        same_frame(*final(state), *old(state)),
        final(state).mobs@.len() == old(state).mobs@.len(),
        forall|k: int| 0 <= k < old(state).mobs@.len() && k != idx ==> #[trigger] final(state).mobs@[k] == old(state).mobs@[k],
        move_keeps(old(state).mobs@[idx as int], final(state).mobs@[idx as int]),
        final(state).player.x == old(state).player.x,
        final(state).player.y == old(state).player.y,
        final(state).player.attack_delay == old(state).player.attack_delay,
        final(state).player.incoming_projectiles == old(state).player.incoming_projectiles,
        final(state).attacks@ == old(state).attacks@,
        ({
            let m = old(state).mobs@[idx as int];
            let n = final(state).mobs@[idx as int];
            let sees = mob_los_spec(old(state).region.blocked@, m, old(state).player.x as int, old(state).player.y as int);
            let digging = m.has_dig && m.dig_timer > 0;
            &&& digging ==> dig_step(m, n, old(state).player.aggro, final(state).player.aggro)
            &&& digging ==> final(state).player == (Player { aggro: final(state).player.aggro, ..old(state).player })
            &&& !digging ==> final(state).player == old(state).player
            &&& !digging ==> {
                &&& n.has_los == sees
                &&& n.no_los_ticks == if sees { 0 } else { m.no_los_ticks + 1 }
                &&& final(state).player.aggro == old(state).player.aggro
                &&& (sees || m.frozen > 0) ==> n.x == m.x && n.y == m.y && n.attack_delay == m.attack_delay
                    && n.dig_timer == m.dig_timer && n.frozen == m.frozen && n.los_checked_tick == old(state).tick
                &&& (!sees && m.frozen <= 0) ==> {
                    let burrows = m.has_dig && m.dig_timer == 0 && n.dig_timer != 0;
                    &&& burrows ==> n.x == m.x && n.y == m.y && n.dig_timer == 6 && n.frozen == 6
                        && m.attack_delay <= -38
                    &&& !burrows ==> walk_step(m, n)
                    &&& (m.has_dig && m.dig_timer == 0 && m.attack_delay <= -50) ==> burrows
                    &&& !burrows ==> {
                        let r = refreshed(m, false, old(state).tick);
                        &&& m.attack_delay > m.atk_speed ==> n == r
                        &&& m.attack_delay <= m.atk_speed ==> exists|b: State<'_>, t: (int, int)|
                            #[trigger] with_mob(b, *old(state), idx, r)
                            && #[trigger] step_target_ok(m, old(state).player.x as int, old(state).player.y as int, t)
                            && n == placed(r, step_dest(b, idx, t.0, t.1).0, step_dest(b, idx, t.0, t.1).1)
                    }
                }
            }
        }),
        move_turn(*old(state), *final(state), idx),
{
    if state.mobs[idx].has_dig && state.mobs[idx].dig_timer > 0 {
        dig_countdown(idx, state);
        return;
    }
    let has_los: bool = refresh_sight(idx, state);
    if has_los || state.mobs[idx].frozen > 0 {
        return;
    }
    if state.mobs[idx].has_dig && state.mobs[idx].dig_timer == 0 {
        let attack_delay: i32 = state.mobs[idx].attack_delay;
        let dig: bool = if attack_delay <= -38 {
            let ghost b = *state;
            let roll: u32 = state.rng.next_u32();
            proof {
                lemma_wf_relevant(b, *state);
            }
            roll_below(roll, TENTH_THRESHOLD) || attack_delay <= -50
        } else {
            attack_delay <= -50
        };
        if dig {
            start_dig(idx, state);
            return;
        }
    }
    let ghost b = *state;
    step_towards_player(idx, state);
    proof {
        let a = *old(state);
        let m = a.mobs@[idx as int];
        let r = refreshed(m, false, a.tick);
        assert(b.mobs@[idx as int] == r);
        assert(b.mobs@ =~= a.mobs@.update(idx as int, r));
        assert(with_mob(b, a, idx, r));
        if m.attack_delay <= m.atk_speed {
            let t = choose|t: (int, int)| #[trigger] step_target_ok(b.mobs@[idx as int], b.player.x as int, b.player.y as int, t)
                && state.mobs@ == b.mobs@.update(idx as int, placed(b.mobs@[idx as int], step_dest(b, idx, t.0, t.1).0,
                    step_dest(b, idx, t.0, t.1).1));
            assert(step_target_ok(m, a.player.x as int, a.player.y as int, t));
            assert(state.mobs@[idx as int] == placed(r, step_dest(b, idx, t.0, t.1).0, step_dest(b, idx, t.0, t.1).1));
        }
    }
}

} // verus!
