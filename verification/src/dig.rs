use vstd::prelude::*;

use crate::mechanics::{collides_spec, collides_with_entities, collision_math, entity_ok};
use crate::runtime::{Mob, Player, mob_geom_ok, player_pos_ok};
use crate::region::Region;
use crate::state::{State, lemma_replace_same_footprint, lemma_wf_update_mob, mob_ok, same_frame};
use crate::types::Point;

verus! {

/// Whether a square of side `s` at `(x, y)` overlaps an obstacle of the arena.
pub open spec fn hits_entity(region: Region, x: int, y: int, s: int) -> bool {
    exists|i: int| 0 <= i < region.entities@.len() && #[trigger] collides_spec(x, y, s,
        region.entities@[i].x as int, region.entities@[i].y as int, region.entities@[i].size as int)
}

/// Where a digging monster of side `s` resurfaces next to the player at `(px, py)`: the
/// first square clear of obstacles among the one whose bottom-right tile is the
/// player's, the one whose top-left tile is, the one whose top-right tile is and the one
/// whose bottom-left tile is; else diagonally up-left of the player.
pub open spec fn dig_target(region: Region, s: int, px: int, py: int) -> (int, int) {
    if !hits_entity(region, px - s + 1, py + s - 1, s) {
        (px - s + 1, py + s - 1)
    } else if !hits_entity(region, px, py, s) {
        (px, py)
    } else if !hits_entity(region, px - s + 1, py, s) {
        (px - s + 1, py)
    } else if !hits_entity(region, px, py + s - 1, s) {
        (px, py + s - 1)
    } else {
        (px - 1, py + 1)
    }
}

/// A digging monster burrows: it freezes for six ticks and picks where to resurface.
pub fn start_dig(idx: usize, state: &mut State)
    requires
        old(state).wf(),
        idx < old(state).mobs@.len(),
    ensures
        final(state).wf(),
        same_frame(*final(state), *old(state)),
        final(state).mobs@ == old(state).mobs@.update(idx as int, {
            let m = old(state).mobs@[idx as int];
            let t = dig_target(*old(state).region, m.size as int, old(state).player.x as int, old(state).player.y as int);
            Mob { frozen: 6i32, dig_timer: 6i32, dig_location: Some(Point { x: t.0 as i32, y: t.1 as i32 }), ..m }
        }),
        final(state).player == old(state).player,
        final(state).rng == old(state).rng,
        final(state).attacks@ == old(state).attacks@,
{
    let ghost a = *state;
    proof {
        a.lemma_wf_mob(idx as int);
        a.lemma_wf_frame_links();
        assert forall|i: int| 0 <= i < state.region.entities@.len() implies entity_ok(#[trigger] state.region.entities@[i]) by {
            assert(crate::region::entity_on_grid(state.region.entities@[i]));
        }
    }
    let s: i32 = state.mobs[idx].size;
    let px: i32 = state.player.x;
    let py: i32 = state.player.y;
    let loc: Point = if !collides_with_entities(px - s + 1, py + s - 1, s, state.region.entities.as_slice()) {
        Point { x: px - s + 1, y: py + s - 1 }
    } else if !collides_with_entities(px, py, s, state.region.entities.as_slice()) {
        Point { x: px, y: py }
    } else if !collides_with_entities(px - s + 1, py, s, state.region.entities.as_slice()) {
        Point { x: px - s + 1, y: py }
    } else if !collides_with_entities(px, py + s - 1, s, state.region.entities.as_slice()) {
        Point { x: px, y: py + s - 1 }
    } else {
        Point { x: px - 1, y: py + 1 }
    };
    state.mobs[idx].frozen = 6;
    state.mobs[idx].dig_timer = 6;
    state.mobs[idx].dig_location = Some(loc);
    proof {
        let m = state.mobs@[idx as int];
        assert(state.mobs@ =~= a.mobs@.update(idx as int, m));
        lemma_replace_same_footprint(a.mobs@, a.mob_occupancy@, a.id_to_idx@, idx as int, m);
        lemma_wf_update_mob(a, *state, idx as int);
    }
}

/// Whether the player stands under a monster.
pub fn is_under_mob(mob: &Mob, player: &Player) -> (r: bool)
    requires
        mob_geom_ok(*mob),
        player_pos_ok(*player),
    ensures
        r == collides_spec(mob.x as int, mob.y as int, mob.size as int, player.x as int, player.y as int, 1),
{
    collision_math(mob.x, mob.y, mob.size, player.x, player.y, 1)
}

} // verus!
