use vstd::prelude::*;

use crate::constants::{ARENA_CELLS, MAX_MOB_IDS};
use crate::events::{AttackEvent, MobInit};
use crate::damage::attacks_ok;
use crate::loadout::{Loadout, loadout_ok};
use crate::mechanics::{mob_atk_speed_spec, mob_hp_spec, mob_range_spec, mob_size_spec, occupancy_consistent,
    update_mob_occupancy, covers_cell, occ_bit, occ_update, arena_idx, arena_index_spec, in_arena,
    exclude_parent_spec, lemma_bit_or, lemma_bit_clear, lemma_bit_values};
use crate::queue::{MobProjectile, PlayerProjectile, SmallQueue};
use crate::region::Region;
use crate::rng::Mulberry32;
use crate::runtime::{Mob, Player, player_pos_ok};
use crate::types::MobType;

verus! {

/// Upper bound on the ticks of one simulation: beyond it the attack delays, which count
/// down by one each tick from as low as the loadout's attack speed, could leave `i32`.
pub const MAX_SIM_TICKS: i32 = 2_145_000_000;

/// Bloblets that a dead blob releases on a later tick.
#[derive(Clone, Copy, Debug)]
pub struct DelayedBlobletSpawn {
    pub tick: i32,
    pub blob_id: usize,
}

/// The state of one simulation.
pub struct State<'a> {
    pub region: &'a Region,
    pub mobs: Vec<Mob>,
    pub mob_occupancy: [u64; 870],
    pub id_to_idx: [Option<usize>; 64],
    pub player: Player,
    pub tick: i32,
    pub dead_count: usize,
    pub dead_mobs: Vec<usize>,
    pub dead_mob_cursor: usize,
    pub id_counter: usize,
    pub loadout: &'a Loadout,
    pub attacks: Vec<AttackEvent>,
    pub mob_init_hp: [Option<MobInit>; 64],
    pub mob_init_len: usize,
    pub delayed_bloblet_spawns: Vec<DelayedBlobletSpawn>,
    pub rng: Mulberry32,
}

/// A loadout that a simulation can run with: its numbers are in range and its
/// maximum hit is not negative.
pub open spec fn sim_loadout_ok(l: Loadout) -> bool {
    &&& loadout_ok(l)
    &&& 0 <= l.max_hit < i32::MAX
}

/// A position that a monster can take: near the board, and for a blob far enough from
/// the edge of that margin for its bloblets to stay near the board too.
pub open spec fn mob_pos_ok(t: MobType, x: int, y: int) -> bool {
    &&& -8 <= x <= 72
    &&& -8 <= y <= 72
    &&& t == MobType::Blob ==> x <= 70 && y >= -6
}

/// Player projectiles in flight whose delay and damage are in range.
pub open spec fn player_projectiles_ok(items: Seq<PlayerProjectile>, max_hit: int) -> bool {
    forall|k: int| 0 <= k < items.len() ==> -10 <= (#[trigger] items[k]).delay <= 10
        && 0 <= items[k].damage <= max_hit
}

/// Monster projectiles in flight whose delay is in range.
pub open spec fn mob_projectiles_ok(items: Seq<MobProjectile>) -> bool {
    forall|k: int| 0 <= k < items.len() ==> -10 <= (#[trigger] items[k]).delay <= 10
}

/// A monster whose numbers are those of its kind and whose counters are in range on
/// tick `tick`.
pub open spec fn mob_ok(m: Mob, tick: int, max_hit: int) -> bool {
    &&& mob_pos_ok(m.mob_type, m.x as int, m.y as int)
    &&& m.size == mob_size_spec(m.mob_type)
    &&& m.max_hp == mob_hp_spec(m.mob_type)
    &&& 0 <= m.hp <= m.max_hp
    &&& m.atk_speed == mob_atk_speed_spec(m.mob_type)
    &&& m.range == mob_range_spec(m.mob_type)
    &&& -tick - 10 <= m.attack_delay <= 10
    &&& 0 <= m.stunned <= 10
    &&& 0 <= m.frozen <= 10
    &&& -1 <= m.dying <= 10
    &&& -10 <= m.dying_start_tick <= tick
    &&& (m.corpse_removal_tick matches Some(t) ==> -10 <= t <= tick + 10)
    &&& (m.pending_removal_tick matches Some(t) ==> -10 <= t <= tick + 10)
    &&& -10 <= m.los_checked_tick <= tick
    &&& 0 <= m.no_los_ticks <= tick
    &&& 0 <= m.dig_timer <= 10
    &&& (m.dig_location matches Some(p) ==> -8 <= p.x <= 72 && -8 <= p.y <= 72)
    &&& (m.last_scan_tick matches Some(t) ==> -10 <= t <= tick)
    &&& m.is_blob == (m.mob_type == MobType::Blob)
    &&& m.has_dig == (m.mob_type == MobType::Meleer)
    &&& m.has_flicker == (m.mob_type == MobType::Mager)
    &&& m.incoming_projectiles.wf()
    &&& player_projectiles_ok(m.incoming_projectiles.items(), max_hit)
}

/// Number of dead monsters.
pub open spec fn dead_total(mobs: Seq<Mob>) -> nat
    decreases mobs.len(),
{
    if mobs.len() == 0 {
        0
    } else {
        dead_total(mobs.drop_last()) + if mobs.last().dead { 1nat } else { 0 }
    }
}

/// No two monsters share an id.
pub open spec fn ids_distinct(mobs: Seq<Mob>) -> bool {
    forall|i: int, j: int| 0 <= i < mobs.len() && 0 <= j < mobs.len() && i != j
        ==> (#[trigger] mobs[i]).id != (#[trigger] mobs[j]).id
}

/// Every monster with id `id` is a blob, and the id was given out.
pub open spec fn blob_id_ok(mobs: Seq<Mob>, id: usize) -> bool {
    &&& id < mobs.len()
    &&& forall|i: int| 0 <= i < mobs.len() && (#[trigger] mobs[i]).id == id ==> mobs[i].mob_type == MobType::Blob
}

/// Every monster of a list is in range on tick `tick`.
pub open spec fn mobs_ok(mobs: Seq<Mob>, tick: int, max_hit: int) -> bool {
    forall|i: int| 0 <= i < mobs.len() ==> mob_ok(#[trigger] mobs[i], tick, max_hit)
}

/// The id table maps every id it holds to a monster with that id.
pub open spec fn ids_ok(id_to_idx: Seq<Option<usize>>, mobs: Seq<Mob>) -> bool {
    forall|id: int| 0 <= id < MAX_MOB_IDS ==> (#[trigger] id_to_idx[id] matches Some(idx)
        ==> idx < mobs.len() && mobs[idx as int].id == id)
}

impl<'a> State<'a> {
    /// The simulation's invariant: the arena is well formed, the loadout in range, the
    /// tick within bounds, the player on the board with counters in range, every monster
    /// in range, the occupancy grid and id table in step with the monsters, and the dead
    /// count exact.
    pub open spec fn wf(&self) -> bool {
        &&& self.region.wf()
        &&& sim_loadout_ok(*self.loadout)
        &&& 0 <= self.tick <= MAX_SIM_TICKS
        &&& player_pos_ok(self.player)
        &&& -self.tick - 2_000_010 <= self.player.attack_delay
        &&& self.player.incoming_projectiles.wf()
        &&& mob_projectiles_ok(self.player.incoming_projectiles.items())
        &&& mobs_ok(self.mobs@, self.tick as int, self.loadout.max_hit as int)
        &&& occupancy_consistent(self.mobs@, self.mob_occupancy@)
        &&& ids_ok(self.id_to_idx@, self.mobs@)
        &&& self.dead_count == dead_total(self.mobs@)
        &&& self.dead_mob_cursor <= self.dead_mobs@.len()
        &&& self.mob_init_len <= MAX_MOB_IDS
        &&& self.id_counter == self.mobs@.len()
        &&& forall|i: int| 0 <= i < self.mobs@.len() ==> (#[trigger] self.mobs@[i]).id < self.mobs@.len()
        &&& ids_distinct(self.mobs@)
        &&& attacks_ok(self.attacks@)
        &&& forall|k: int| 0 <= k < self.delayed_bloblet_spawns@.len()
            ==> -10 <= (#[trigger] self.delayed_bloblet_spawns@[k]).tick <= self.tick + 10
                && blob_id_ok(self.mobs@, self.delayed_bloblet_spawns@[k].blob_id)
    }
}

/// Counting dead monsters after one of them changes.
pub proof fn lemma_dead_total_update(mobs: Seq<Mob>, i: int, m: Mob)
    requires
        0 <= i < mobs.len(),
    ensures
        dead_total(mobs.update(i, m)) + (if mobs[i].dead { 1int } else { 0 })
            == dead_total(mobs) + (if m.dead { 1int } else { 0 }),
    decreases mobs.len(),
{
    if i < mobs.len() - 1 {
        lemma_dead_total_update(mobs.drop_last(), i, m);
        assert(mobs.update(i, m).drop_last() =~= mobs.drop_last().update(i, m));
    } else {
        assert(mobs.update(i, m).drop_last() =~= mobs.drop_last());
    }
}

/// Counting dead monsters after one is added.
pub proof fn lemma_dead_total_push(mobs: Seq<Mob>, m: Mob)
    ensures
        dead_total(mobs.push(m)) == dead_total(mobs) + if m.dead { 1nat } else { 0 },
{
    assert(mobs.push(m).drop_last() =~= mobs);
}

/// The dead count never exceeds the number of monsters.
pub proof fn lemma_dead_total_bound(mobs: Seq<Mob>)
    ensures
        dead_total(mobs) <= mobs.len(),
    decreases mobs.len(),
{
    if mobs.len() > 0 {
        lemma_dead_total_bound(mobs.drop_last());
    }
}

/// Index of the monster with id `id`, through the id table.
pub fn mob_idx_by_id(state: &State<'_>, id: usize) -> (r: Option<usize>)
    requires
        ids_ok(state.id_to_idx@, state.mobs@),
    ensures
        r == (if id < MAX_MOB_IDS { state.id_to_idx@[id as int] } else { None }),
        r matches Some(idx) ==> idx < state.mobs@.len() && state.mobs@[idx as int].id == id,
{
    if id < MAX_MOB_IDS {
        state.id_to_idx[id]
    } else {
        None
    }
}

/// The monster an optional id names, through the id table.
pub open spec fn mob_of(state: State<'_>, id: Option<usize>) -> Option<Mob> {
    match id {
        Some(i) => if i < MAX_MOB_IDS {
            match state.id_to_idx@[i as int] {
                Some(idx) => Some(state.mobs@[idx as int]),
                None => None,
            }
        } else {
            None
        },
        None => None,
    }
}

/// Whether the player's target can no longer be attacked on `tick`: it is unknown,
/// dead, or dying since an earlier tick.
pub open spec fn aggro_unusable_spec(state: State<'_>, aggro: Option<usize>, tick: int) -> bool {
    match mob_of(state, aggro) {
        None => true,
        Some(m) => m.dead || (m.dying > 0 && tick > m.dying_start_tick),
    }
}

/// Whether the player's target can no longer be attacked.
pub fn aggro_is_unusable(state: &State<'_>, aggro: Option<usize>, tick: i32) -> (r: bool)
    requires
        ids_ok(state.id_to_idx@, state.mobs@),
    ensures
        r == aggro_unusable_spec(*state, aggro, tick as int),
{
    let found: Option<usize> = match aggro {
        Some(id) => mob_idx_by_id(state, id),
        None => None,
    };
    match found {
        None => true,
        Some(idx) => {
            let m: &Mob = &state.mobs[idx];
            m.dead || (m.dying > 0 && tick > m.dying_start_tick)
        },
    }
}

/// Whether a monster attacking the player may become its last attacker: the player has
/// no target, the target is that monster, or the target is unknown or dead.
pub open spec fn can_set_last_attacker_spec(state: State<'_>, mob_id: usize) -> bool {
    match state.player.aggro {
        None => true,
        Some(id) => id == mob_id || match mob_of(state, Some(id)) {
            Some(m) => m.dead,
            None => true,
        },
    }
}

/// Whether a monster attacking the player may become its last attacker.
pub fn can_set_last_attacker(state: &State<'_>, mob_id: usize) -> (r: bool)
    requires
        ids_ok(state.id_to_idx@, state.mobs@),
    ensures
        r == can_set_last_attacker_spec(*state, mob_id),
{
    match state.player.aggro {
        None => true,
        Some(id) => {
            if id == mob_id {
                true
            } else {
                match mob_idx_by_id(state, id) {
                    Some(idx) => state.mobs[idx].dead,
                    None => true,
                }
            }
        },
    }
}

/// Records a monster as the player's last attacker when it may be.
pub fn set_player_last_attacker(state: &mut State, mob_id: usize)
    requires
        old(state).wf(),
    ensures
        final(state).wf(),
        final(state).player.last_attacker == if can_set_last_attacker_spec(*old(state), mob_id) {
            Some(mob_id)
        } else {
            old(state).player.last_attacker
        },
        final(state).player.aggro == old(state).player.aggro,
        final(state).mobs@ == old(state).mobs@,
        final(state).tick == old(state).tick,
        final(state).region == old(state).region,
        final(state).loadout == old(state).loadout,
        final(state).rng == old(state).rng,
        final(state).attacks@ == old(state).attacks@,
        final(state).player.x == old(state).player.x,
        final(state).player.y == old(state).player.y,
        final(state).player.attack_delay == old(state).player.attack_delay,
        final(state).player.incoming_projectiles == old(state).player.incoming_projectiles,
{
    proof {
        reveal(State::wf);
    }
    if can_set_last_attacker(state, mob_id) {
        state.player.last_attacker = Some(mob_id);
    }
}


/// Replacing a monster by one with the same footprint, life and id keeps the grid, the
/// id table and the dead count as they are.
pub proof fn lemma_replace_same_footprint(mobs: Seq<Mob>, occ: Seq<u64>, ids: Seq<Option<usize>>, i: int, m: Mob)
    requires
        0 <= i < mobs.len(),
        occupancy_consistent(mobs, occ),
        ids_ok(ids, mobs),
        m.x == mobs[i].x,
        m.y == mobs[i].y,
        m.size == mobs[i].size,
        m.dead == mobs[i].dead,
        m.id == mobs[i].id,
    ensures
        occupancy_consistent(mobs.update(i, m), occ),
        ids_ok(ids, mobs.update(i, m)),
        dead_total(mobs.update(i, m)) == dead_total(mobs),
{
    lemma_dead_total_update(mobs, i, m);
    let m2 = mobs.update(i, m);
    assert forall|c: int, j: int| 0 <= c < ARENA_CELLS && 0 <= j < 64 implies
        (#[trigger] occ_bit(occ[c], j) <==> (j < m2.len() && !m2[j].dead && covers_cell(m2[j], c))) by {
        assert(occ_bit(occ[c], j) <==> (j < mobs.len() && !mobs[j].dead && covers_cell(mobs[j], c)));
    }
}

/// Clearing a monster's cells and setting the cells of its replacement (alive or dead
/// alike) keeps the grid in step.
pub proof fn lemma_occupancy_replace(mobs: Seq<Mob>, occ0: Seq<u64>, occ1: Seq<u64>, occ2: Seq<u64>, idx: int, m: Mob)
    requires
        0 <= idx < mobs.len(),
        occupancy_consistent(mobs, occ0),
        occ1.len() == ARENA_CELLS,
        occ2.len() == ARENA_CELLS,
        forall|c: int| 0 <= c < ARENA_CELLS ==> #[trigger] occ1[c] ==
            if !mobs[idx].dead && idx < 64 && covers_cell(mobs[idx], c) { occ_update(occ0[c], idx, false) } else { occ0[c] },
        forall|c: int| 0 <= c < ARENA_CELLS ==> #[trigger] occ2[c] ==
            if !m.dead && idx < 64 && covers_cell(m, c) { occ_update(occ1[c], idx, true) } else { occ1[c] },
    ensures
        occupancy_consistent(mobs.update(idx, m), occ2),
{
    let m2 = mobs.update(idx, m);
    assert forall|c: int, j: int| 0 <= c < ARENA_CELLS && 0 <= j < 64 implies
        (#[trigger] occ_bit(occ2[c], j) <==> (j < m2.len() && !m2[j].dead && covers_cell(m2[j], c))) by {
        assert(occ_bit(occ0[c], j) <==> (j < mobs.len() && !mobs[j].dead && covers_cell(mobs[j], c)));
        lemma_bit_values(occ0[c], j as u64);
        lemma_bit_values(occ1[c], j as u64);
        if idx < 64 {
            lemma_bit_clear(occ0[c], idx as u64, j as u64);
            lemma_bit_or(occ1[c], idx as u64, j as u64);
            if j == idx {
                assert(!occ_bit(occ1[c], j));
            }
        }
    }
}

/// Moves monster `idx` to `(x, y)`, keeping the occupancy grid in step; a real move
/// forgets when its line of sight was last checked.
pub fn move_mob_to(state: &mut State<'_>, idx: usize, x: i32, y: i32)
    requires
        old(state).wf(),
        idx < old(state).mobs@.len(),
        mob_pos_ok(old(state).mobs@[idx as int].mob_type, x as int, y as int),
    ensures
        final(state).wf(),
        final(state).mobs@ == old(state).mobs@.update(idx as int, {
            let m = old(state).mobs@[idx as int];
            if m.x == x && m.y == y { m } else { Mob { x, y, los_checked_tick: -1i32, ..m } }
        }),
        final(state).player == old(state).player,
        final(state).tick == old(state).tick,
        final(state).loadout == old(state).loadout,
        final(state).region == old(state).region,
        final(state).rng == old(state).rng,
        final(state).attacks@ == old(state).attacks@,
        final(state).dead_mobs@ == old(state).dead_mobs@,
        final(state).dead_mob_cursor == old(state).dead_mob_cursor,
        final(state).id_counter == old(state).id_counter,
        final(state).mob_init_hp == old(state).mob_init_hp,
        final(state).mob_init_len == old(state).mob_init_len,
        final(state).delayed_bloblet_spawns@ == old(state).delayed_bloblet_spawns@,
        final(state).id_to_idx == old(state).id_to_idx,
{
    proof {
        reveal(State::wf);
    }
    if state.mobs[idx].x == x && state.mobs[idx].y == y {
        assert(state.mobs@ =~= old(state).mobs@.update(idx as int, old(state).mobs@[idx as int]));
        return;
    }
    let ghost mobs0 = state.mobs@;
    let ghost occ0 = state.mob_occupancy@;
    assert(crate::runtime::mob_geom_ok(state.mobs@[idx as int]));
    update_mob_occupancy(&mut state.mob_occupancy, idx, &state.mobs[idx], false);
    let ghost occ1 = state.mob_occupancy@;
    state.mobs[idx].x = x;
    state.mobs[idx].y = y;
    state.mobs[idx].los_checked_tick = -1;
    assert(crate::runtime::mob_geom_ok(state.mobs@[idx as int]));
    update_mob_occupancy(&mut state.mob_occupancy, idx, &state.mobs[idx], true);
    proof {
        let m = state.mobs@[idx as int];
        assert(state.mobs@ =~= mobs0.update(idx as int, m));
        lemma_occupancy_replace(mobs0, occ0, occ1, state.mob_occupancy@, idx as int, m);
        lemma_dead_total_update(mobs0, idx as int, m);
        assert(mob_ok(m, state.tick as int, state.loadout.max_hit as int));
        assert(mobs_ok(state.mobs@, state.tick as int, state.loadout.max_hit as int));
        assert(ids_ok(state.id_to_idx@, state.mobs@));
    }
}

/// Whether monster `i` stands on arena cell `cell` in the way of a point: one of the
/// first 64 monsters, not the excluded one, not dead, not a dying parent blob of the
/// excluded one, and not a skipped nibbler.
pub open spec fn point_blocker(mobs: Seq<Mob>, cell: int, i: int, exclude_idx: Option<usize>, skip_nibblers: bool) -> bool {
    &&& 0 <= i < 64
    &&& i < mobs.len()
    &&& exclude_idx != Some(i as usize)
    &&& !mobs[i].dead
    &&& covers_cell(mobs[i], cell)
    &&& !(exclude_parent_spec(mobs, exclude_idx) == Some(mobs[i].id) && mobs[i].dying > 0)
    &&& !(skip_nibblers && mobs[i].mob_type == MobType::Nibbler)
}

/// The first monster (by index, among the first 64) that stands on the arena tile
/// `(x, y)` in the way of a point, read from the occupancy grid; none off the arena.
pub fn state_point_collides_with_mobs(
    x: i32,
    y: i32,
    state: &State<'_>,
    exclude_idx: Option<usize>,
    skip_nibblers: bool,
) -> (r: Option<usize>)
    requires
        occupancy_consistent(state.mobs@, state.mob_occupancy@),
    ensures
        !in_arena(x as int, y as int) ==> r is None,
        in_arena(x as int, y as int) ==> {
            let cell = arena_index_spec(x as int, y as int);
            &&& r matches Some(i) ==> point_blocker(state.mobs@, cell, i as int, exclude_idx, skip_nibblers)
                && forall|k: int| 0 <= k < i ==> !#[trigger] point_blocker(state.mobs@, cell, k, exclude_idx, skip_nibblers)
            &&& r is None ==> forall|k: int| 0 <= k < 64 ==> !#[trigger] point_blocker(state.mobs@, cell, k, exclude_idx, skip_nibblers)
        },
{
    let cell: usize = match arena_idx(x, y) {
        Some(c) => c,
        None => return None,
    };
    let bits: u64 = state.mob_occupancy[cell];
    let exclude_parent: Option<usize> = match exclude_idx {
        Some(e) => if e < state.mobs.len() { state.mobs[e].parent_blob_id } else { None },
        None => None,
    };
    let mut i: usize = 0;
    while i < 64
        invariant
            i <= 64,
            cell < ARENA_CELLS,
            cell == arena_index_spec(x as int, y as int),
            in_arena(x as int, y as int),
            bits == state.mob_occupancy@[cell as int],
            occupancy_consistent(state.mobs@, state.mob_occupancy@),
            exclude_parent == exclude_parent_spec(state.mobs@, exclude_idx),
            forall|k: int| 0 <= k < i ==> !#[trigger] point_blocker(state.mobs@, cell as int, k, exclude_idx, skip_nibblers),
        decreases 64 - i,
    {
        let set: bool = (bits >> (i as u64)) & 1u64 == 1u64;
        assert(set == occ_bit(bits, i as int));
        if set && exclude_idx != Some(i) {
            assert(i < state.mobs@.len() && !state.mobs@[i as int].dead && covers_cell(state.mobs@[i as int], cell as int));
            let m: &Mob = &state.mobs[i];
            if !m.dead && !(exclude_parent == Some(m.id) && m.dying > 0) && !(skip_nibblers && m.mob_type == MobType::Nibbler) {
                return Some(i);
            }
        }
        i = i + 1;
    }
    None
}

/// Whether a killed monster waits to be revived.
pub fn has_dead_mob_for_revive(state: &State<'_>) -> (r: bool)
    ensures
        r == (state.dead_mob_cursor < state.dead_mobs@.len()),
{
    state.dead_mob_cursor < state.dead_mobs.len()
}

/// Takes the next killed monster to revive, in the order they died; the list empties
/// once all are taken.
pub fn pop_dead_mob_for_revive(state: &mut State<'_>) -> (r: Option<usize>)
    requires
        old(state).wf(),
    ensures
        final(state).wf(),
        old(state).dead_mob_cursor >= old(state).dead_mobs@.len() ==> r is None
            && final(state).dead_mobs@.len() == 0 && final(state).dead_mob_cursor == 0,
        old(state).dead_mob_cursor < old(state).dead_mobs@.len() ==>
            r == Some(old(state).dead_mobs@[old(state).dead_mob_cursor as int]),
        final(state).mobs@ == old(state).mobs@,
        final(state).player == old(state).player,
        final(state).tick == old(state).tick,
        final(state).loadout == old(state).loadout,
        final(state).region == old(state).region,
        final(state).rng == old(state).rng,
        final(state).attacks@ == old(state).attacks@,
        final(state).id_to_idx == old(state).id_to_idx,
        final(state).mob_occupancy == old(state).mob_occupancy,
        final(state).dead_count == old(state).dead_count,
        final(state).id_counter == old(state).id_counter,
        final(state).mob_init_hp == old(state).mob_init_hp,
        final(state).mob_init_len == old(state).mob_init_len,
        final(state).delayed_bloblet_spawns@ == old(state).delayed_bloblet_spawns@,
{
    proof {
        reveal(State::wf);
    }
    if state.dead_mob_cursor >= state.dead_mobs.len() {
        state.dead_mobs.clear();
        state.dead_mob_cursor = 0;
        return None;
    }
    let mob_id: usize = state.dead_mobs[state.dead_mob_cursor];
    state.dead_mob_cursor = state.dead_mob_cursor + 1;
    if state.dead_mob_cursor >= state.dead_mobs.len() {
        state.dead_mobs.clear();
        state.dead_mob_cursor = 0;
    }
    Some(mob_id)
}


/// Adding a monster and setting its cells keeps the grid in step.
pub proof fn lemma_occupancy_push(mobs: Seq<Mob>, occ0: Seq<u64>, occ1: Seq<u64>, m: Mob)
    requires
        occupancy_consistent(mobs, occ0),
        occ1.len() == ARENA_CELLS,
        forall|c: int| 0 <= c < ARENA_CELLS ==> #[trigger] occ1[c] ==
            if !m.dead && mobs.len() < 64 && covers_cell(m, c) { occ_update(occ0[c], mobs.len() as int, true) } else { occ0[c] },
    ensures
        occupancy_consistent(mobs.push(m), occ1),
{
    let m2 = mobs.push(m);
    let idx = mobs.len() as int;
    assert forall|c: int, j: int| 0 <= c < ARENA_CELLS && 0 <= j < 64 implies
        (#[trigger] occ_bit(occ1[c], j) <==> (j < m2.len() && !m2[j].dead && covers_cell(m2[j], c))) by {
        assert(occ_bit(occ0[c], j) <==> (j < mobs.len() && !mobs[j].dead && covers_cell(mobs[j], c)));
        lemma_bit_values(occ0[c], j as u64);
        if idx < 64 {
            lemma_bit_or(occ0[c], idx as u64, j as u64);
        }
    }
}

/// The things a phase of a tick leaves alone: the arena, the loadout and the tick.
pub open spec fn same_frame(a: State<'_>, b: State<'_>) -> bool {
    &&& a.region == b.region
    &&& a.loadout == b.loadout
    &&& a.tick == b.tick
}


/// The parts of the invariant that do not speak of single monsters.
pub open spec fn wf_frame(s: State<'_>) -> bool {
    &&& s.region.wf()
    &&& sim_loadout_ok(*s.loadout)
    &&& 0 <= s.tick <= MAX_SIM_TICKS
    &&& player_pos_ok(s.player)
    &&& -s.tick - 2_000_010 <= s.player.attack_delay
    &&& s.player.incoming_projectiles.wf()
    &&& mob_projectiles_ok(s.player.incoming_projectiles.items())
    &&& s.dead_mob_cursor <= s.dead_mobs@.len()
    &&& s.mob_init_len <= MAX_MOB_IDS
}

/// The parts of the invariant that tie the monsters to the grid, the id table and the
/// counters.
pub open spec fn wf_links(s: State<'_>) -> bool {
    &&& occupancy_consistent(s.mobs@, s.mob_occupancy@)
    &&& ids_ok(s.id_to_idx@, s.mobs@)
    &&& s.dead_count == dead_total(s.mobs@)
    &&& s.id_counter == s.mobs@.len()
    &&& forall|i: int| 0 <= i < s.mobs@.len() ==> (#[trigger] s.mobs@[i]).id < s.mobs@.len()
    &&& ids_distinct(s.mobs@)
}

/// Pending bloblet releases are in range and name blobs.
pub open spec fn wf_delayed(s: State<'_>) -> bool {
    forall|k: int| 0 <= k < s.delayed_bloblet_spawns@.len()
        ==> -10 <= (#[trigger] s.delayed_bloblet_spawns@[k]).tick <= s.tick + 10
            && blob_id_ok(s.mobs@, s.delayed_bloblet_spawns@[k].blob_id)
}

impl<'a> State<'a> {
    /// The invariant, in parts.
    pub proof fn lemma_wf_parts(&self)
        ensures
            self.wf() <==> (wf_frame(*self) && wf_links(*self) && wf_delayed(*self) && attacks_ok(self.attacks@)
                && mobs_ok(self.mobs@, self.tick as int, self.loadout.max_hit as int)),
    {
        reveal(State::wf);
    }

    /// The frame and the links of a state that keeps its invariant.
    pub proof fn lemma_wf_frame_links(&self)
        requires
            self.wf(),
        ensures
            wf_frame(*self),
            wf_links(*self),
    {
        reveal(State::wf);
    }

    /// The attack log of a state that keeps its invariant is well formed.
    pub proof fn lemma_wf_attacks(&self)
        requires
            self.wf(),
        ensures
            attacks_ok(self.attacks@),
    {
        reveal(State::wf);
    }

    /// The player of a state that keeps its invariant stands on the board, and the tick
    /// is in range.
    pub proof fn lemma_wf_player_pos(&self)
        requires
            self.wf(),
        ensures
            player_pos_ok(self.player),
            0 <= self.tick <= MAX_SIM_TICKS,
            sim_loadout_ok(*self.loadout),
    {
        reveal(State::wf);
    }

    /// Every monster of a state that keeps its invariant is in range.
    pub proof fn lemma_wf_mob(&self, i: int)
        requires
            self.wf(),
            0 <= i < self.mobs@.len(),
        ensures
            mob_ok(self.mobs@[i], self.tick as int, self.loadout.max_hit as int),
            crate::runtime::mob_geom_ok(self.mobs@[i]),
    {
        reveal(State::wf);
    }
}

/// Changing one monster while keeping its id and kind, with the grid and the dead count
/// brought in step, keeps the invariant.
pub proof fn lemma_wf_update_mob(a: State<'_>, b: State<'_>, i: int)
    requires
        a.wf(),
        wf_frame(b),
        0 <= i < a.mobs@.len(),
        b.mobs@ == a.mobs@.update(i, b.mobs@[i]),
        b.mobs@[i].id == a.mobs@[i].id,
        b.mobs@[i].mob_type == a.mobs@[i].mob_type,
        mob_ok(b.mobs@[i], b.tick as int, b.loadout.max_hit as int),
        b.tick == a.tick,
        b.loadout.max_hit == a.loadout.max_hit,
        occupancy_consistent(b.mobs@, b.mob_occupancy@),
        b.dead_count == dead_total(b.mobs@),
        b.id_to_idx == a.id_to_idx,
        b.id_counter == a.id_counter,
        b.delayed_bloblet_spawns@ == a.delayed_bloblet_spawns@,
        b.attacks@ == a.attacks@,
    ensures
        b.wf(),
{
    reveal(State::wf);
    assert forall|k: int| 0 <= k < b.mobs@.len() implies mob_ok(#[trigger] b.mobs@[k], b.tick as int, b.loadout.max_hit as int) by {
        if k != i {
            assert(b.mobs@[k] == a.mobs@[k]);
        }
    }
    assert forall|k: int| 0 <= k < b.mobs@.len() implies (#[trigger] b.mobs@[k]).id < b.mobs@.len() by {
        assert(a.mobs@[k].id < a.mobs@.len());
    }
    assert forall|x: int, y: int| 0 <= x < b.mobs@.len() && 0 <= y < b.mobs@.len() && x != y
        implies (#[trigger] b.mobs@[x]).id != (#[trigger] b.mobs@[y]).id by {
        assert(a.mobs@[x].id != a.mobs@[y].id);
    }
    assert forall|id: int| 0 <= id < MAX_MOB_IDS implies (#[trigger] b.id_to_idx@[id] matches Some(idx)
        ==> idx < b.mobs@.len() && b.mobs@[idx as int].id == id) by {
        if let Some(idx) = b.id_to_idx@[id] {
            assert(a.mobs@[idx as int].id == id);
        }
    }
    assert forall|k: int| 0 <= k < b.delayed_bloblet_spawns@.len() implies
        -10 <= (#[trigger] b.delayed_bloblet_spawns@[k]).tick <= b.tick + 10
        && blob_id_ok(b.mobs@, b.delayed_bloblet_spawns@[k].blob_id) by {
        let id = b.delayed_bloblet_spawns@[k].blob_id;
        assert(blob_id_ok(a.mobs@, id));
        assert forall|j: int| 0 <= j < b.mobs@.len() && (#[trigger] b.mobs@[j]).id == id implies b.mobs@[j].mob_type == MobType::Blob by {
            assert(a.mobs@[j].id == id);
        }
    }
}


/// Two states that agree on everything the invariant reads.
pub open spec fn wf_relevant_eq(a: State<'_>, b: State<'_>) -> bool {
    &&& a.region == b.region
    &&& a.loadout == b.loadout
    &&& a.tick == b.tick
    &&& a.player == b.player
    &&& a.mobs@ == b.mobs@
    &&& a.mob_occupancy == b.mob_occupancy
    &&& a.id_to_idx == b.id_to_idx
    &&& a.dead_count == b.dead_count
    &&& a.dead_mobs@.len() == b.dead_mobs@.len()
    &&& a.dead_mob_cursor == b.dead_mob_cursor
    &&& a.mob_init_len == b.mob_init_len
    &&& a.id_counter == b.id_counter
    &&& a.delayed_bloblet_spawns@ == b.delayed_bloblet_spawns@
}

/// The invariant reads nothing else but the attack log: the generator and the recorded
/// hitpoints are free to change, and the log may grow by well-formed entries.
pub proof fn lemma_wf_relevant(a: State<'_>, b: State<'_>)
    requires
        a.wf(),
        wf_relevant_eq(a, b),
        b.attacks@ == a.attacks@ || attacks_ok(b.attacks@),
    ensures
        b.wf(),
{
    reveal(State::wf);
}

/// Changing only the player, within the player's bounds, keeps the invariant.
pub proof fn lemma_wf_player(a: State<'_>, b: State<'_>)
    requires
        a.wf(),
        wf_relevant_eq(a, State { player: a.player, ..b }),
        player_pos_ok(b.player),
        -b.tick - 2_000_010 <= b.player.attack_delay,
        b.player.incoming_projectiles.wf(),
        mob_projectiles_ok(b.player.incoming_projectiles.items()),
        b.attacks@ == a.attacks@,
    ensures
        b.wf(),
{
    reveal(State::wf);
}


/// Slack that the phases of a tick use up: every monster's sight count and attack
/// delay, and the player's attack delay, have room for one more tick.
pub open spec fn tick_slack(s: State<'_>) -> bool {
    &&& forall|k: int| 0 <= k < s.mobs@.len() ==> (#[trigger] s.mobs@[k]).no_los_ticks < s.tick
        && s.mobs@[k].attack_delay > -s.tick - 10
    &&& s.player.attack_delay > -s.tick - 2_000_010
}

/// Advancing the tick keeps the invariant and leaves slack for the new tick.
pub proof fn lemma_wf_tick_advance(a: State<'_>, b: State<'_>)
    requires
        a.wf(),
        a.tick < MAX_SIM_TICKS,
        b.tick == a.tick + 1,
        wf_relevant_eq(State { tick: a.tick, ..b }, a),
        b.attacks@ == a.attacks@,
    ensures
        b.wf(),
        tick_slack(b),
{
    reveal(State::wf);
    assert forall|i: int| 0 <= i < b.mobs@.len() implies mob_ok(#[trigger] b.mobs@[i], b.tick as int, b.loadout.max_hit as int) by {
        assert(mob_ok(a.mobs@[i], a.tick as int, a.loadout.max_hit as int));
    }
}


/// Appending a well-formed entry keeps a log well formed.
pub proof fn lemma_attacks_push(log: Seq<AttackEvent>, e: AttackEvent)
    requires
        attacks_ok(log),
        e.tick <= i32::MAX - 8,
        e.player_dmg >= 0,
    ensures
        attacks_ok(log.push(e)),
{
    assert forall|k: int| 0 <= k < log.push(e).len() implies (#[trigger] log.push(e)[k]).tick <= i32::MAX - 8
        && log.push(e)[k].player_dmg >= 0 by {
        if k < log.len() {
            assert(log.push(e)[k] == log[k]);
        }
    }
}

} // verus!
