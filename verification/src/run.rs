use vstd::prelude::*;

use crate::damage::attacks_ok;
use crate::events::{AttackEvent, MobInit, SimResult, SimStatus};
use crate::loadout::Loadout;
use crate::region::Region;
use crate::setup::{hl_init_state, initial_state_ok, spawns_ok};
use crate::spawn::ParsedSpawnCode;
use crate::state::{MAX_SIM_TICKS, State, sim_loadout_ok};
use crate::tick::{hl_tick, tick_step};
use crate::runtime::Mob;
use crate::spawn::lemma_take_filter;
use crate::types::{MobType, PillarConfig, Point};

verus! {

/// What one simulation runs on.
#[derive(Clone, Copy)]
pub struct SimRunParams<'a> {
    pub parsed: &'a ParsedSpawnCode,
    pub player_pos: Point,
    pub pillar_config: PillarConfig,
    pub loadout: &'a Loadout,
    pub max_ticks: i32,
    pub region: &'a Region,
    pub seed: u32,
}

/// Whether the big monsters that can no longer reach the player make a trap the player
/// may rely on: none at all; or one or two, none of them a mager, and when two, two
/// blobs, two bats, or a bat and a ranger.
pub open spec fn trapped_valid_spec(t: Seq<MobType>, len: int) -> bool {
    if len == 0 {
        true
    } else if len > 2 || (exists|k: int| 0 <= k < len && #[trigger] t[k] == MobType::Mager) {
        false
    } else if len == 1 {
        true
    } else {
        ||| t[0] == MobType::Blob && t[1] == MobType::Blob
        ||| t[0] == MobType::Bat && t[1] == MobType::Bat
        ||| t[0] == MobType::Bat && t[1] == MobType::Ranger
        ||| t[0] == MobType::Ranger && t[1] == MobType::Bat
    }
}

/// Whether the big monsters that can no longer reach the player make a valid trap.
pub fn check_trapped_valid(trapped: &[MobType; 3], trapped_len: usize) -> (r: bool)
    ensures
        r == trapped_valid_spec(trapped@, trapped_len as int),
{
    if trapped_len == 0 {
        return true;
    }
    if trapped_len > 2 {
        return false;
    }
    let mut k: usize = 0;
    while k < trapped_len
        invariant
            k <= trapped_len <= 2,
            forall|j: int| 0 <= j < k ==> #[trigger] trapped@[j] != MobType::Mager,
        decreases trapped_len - k,
    {
        if trapped[k] == MobType::Mager {
            return false;
        }
        k = k + 1;
    }
    if trapped_len == 1 {
        return true;
    }
    let a: MobType = trapped[0];
    let b: MobType = trapped[1];
    (a == MobType::Blob && b == MobType::Blob)
        || (a == MobType::Bat && b == MobType::Bat)
        || (a == MobType::Bat && b == MobType::Ranger)
        || (a == MobType::Ranger && b == MobType::Bat)
}

/// The result of a simulation that ended on `completed_tick` with `status`: its part of
/// the log runs from `attack_start` to `attack_end`, and it records the monsters'
/// starting hitpoints.
pub fn finish_sim_result(state: &State<'_>, attack_start: usize, attack_end: usize, completed_tick: i32,
    status: SimStatus) -> (r: SimResult)
    ensures
        r.attack_start == attack_start,
        r.attack_end == attack_end,
        r.completed_tick == completed_tick,
        r.status == status,
        r.mob_init_hp == state.mob_init_hp,
        r.mob_init_len == state.mob_init_len,
{
    SimResult {
        attack_start,
        attack_end,
        completed_tick,
        status,
        mob_init_hp: state.mob_init_hp,
        mob_init_len: state.mob_init_len,
    }
}

/// Whether a kind is one of the three bloblets.
pub open spec fn is_bloblet(t: MobType) -> bool {
    t == MobType::BlobletMage || t == MobType::BlobletRange || t == MobType::BlobletMelee
}

/// A monster that counts for a trap: alive, not dying, and neither a nibbler nor a bloblet.
pub open spec fn trap_big(m: Mob) -> bool {
    !m.dead && m.dying <= 0 && m.mob_type != MobType::Nibbler && !is_bloblet(m.mob_type)
}

/// The monsters that count for a trap, in order.
pub open spec fn trap_bigs(mobs: Seq<Mob>) -> Seq<Mob> {
    mobs.filter(|m: Mob| trap_big(m))
}

/// Whether every living monster that is not dying has gone 20 ticks without sight of the player.
pub open spec fn all_out_of_sight(mobs: Seq<Mob>) -> bool {
    forall|k: int| 0 <= k < mobs.len() && !(#[trigger] mobs[k]).dead && mobs[k].dying <= 0 ==> mobs[k].no_los_ticks >= 20
}

/// The kinds of the first (up to three) monsters that count for a trap.
pub open spec fn trap_kinds_agree(t: Seq<MobType>, bigs: Seq<Mob>) -> bool {
    forall|j: int| 0 <= j < 3 && j < bigs.len() ==> #[trigger] t[j] == bigs[j].mob_type
}

/// How a simulation stands at the end of a tick: complete once every monster is dead;
/// trapped (or invalid, when the trap is not one the player may rely on) once the player
/// has no target and every remaining monster has gone 20 ticks without sight of it;
/// else still running.
pub open spec fn end_status(s: State<'_>) -> Option<SimStatus> {
    let bigs = trap_bigs(s.mobs@);
    if s.dead_count == s.mobs@.len() {
        Some(SimStatus::Complete)
    } else if s.player.aggro is None && all_out_of_sight(s.mobs@) {
        Some(if trapped_valid_spec(bigs.map_values(|m: Mob| m.mob_type), bigs.len() as int) {
            SimStatus::Trapped
        } else {
            SimStatus::Invalid
        })
    } else {
        None
    }
}

/// Scans for a trap: whether every living monster that is not dying has gone 20 ticks
/// without sight of the player, with the number of those that count for a trap and the
/// kinds of the first three of them.
fn scan_trap(state: &State<'_>) -> (r: (bool, [MobType; 3], usize))
    ensures
        r.0 == all_out_of_sight(state.mobs@),
        r.2 <= state.mobs@.len(),
        r.0 ==> r.2 == trap_bigs(state.mobs@).len() && trap_kinds_agree(r.1@, trap_bigs(state.mobs@)),
{
    let ghost ms = state.mobs@;
    let ghost f = |m: Mob| trap_big(m);
    let mut trapped_big: [MobType; 3] = [MobType::Mager; 3];
    let mut trapped_big_len: usize = 0;
    let mut i: usize = 0;
    while i < state.mobs.len()
        invariant
            ms == state.mobs@,
            f == |m: Mob| trap_big(m),
            i <= ms.len(),
            trapped_big_len <= i,
            forall|k: int| 0 <= k < i && !(#[trigger] ms[k]).dead && ms[k].dying <= 0 ==> ms[k].no_los_ticks >= 20,
            trapped_big_len == ms.take(i as int).filter(f).len(),
            trap_kinds_agree(trapped_big@, ms.take(i as int).filter(f)),
        decreases ms.len() - i,
    {
        proof {
            lemma_take_filter(ms, f, i as int);
            ms.take(i as int).filter(f).lemma_filter_len(f);
        }
        let m: &Mob = &state.mobs[i];
        if !m.dead && m.dying <= 0 {
            if m.no_los_ticks < 20 {
                return (false, trapped_big, trapped_big_len);
            }
            let t: MobType = m.mob_type;
            if t != MobType::Nibbler && t != MobType::BlobletMage && t != MobType::BlobletRange && t != MobType::BlobletMelee {
                if trapped_big_len < 3 {
                    trapped_big[trapped_big_len] = t;
                }
                trapped_big_len = trapped_big_len + 1;
            }
        }
        i = i + 1;
    }
    proof {
        assert(ms.take(ms.len() as int) =~= ms);
    }
    (true, trapped_big, trapped_big_len)
}

/// The kinds of the monsters that count for a trap, read from a scan's first three,
/// decide the trap as their whole list does.
proof fn lemma_trap_kinds(t: Seq<MobType>, bigs: Seq<Mob>)
    requires
        t.len() == 3,
        trap_kinds_agree(t, bigs),
    ensures
        trapped_valid_spec(t, bigs.len() as int) == trapped_valid_spec(bigs.map_values(|m: Mob| m.mob_type), bigs.len() as int),
{
    let b = bigs.map_values(|m: Mob| m.mob_type);
    if 0 < bigs.len() <= 2 {
        assert forall|k: int| 0 <= k < bigs.len() implies #[trigger] t[k] == b[k] by {}
        assert((exists|k: int| 0 <= k < bigs.len() && #[trigger] t[k] == MobType::Mager)
            == (exists|k: int| 0 <= k < bigs.len() && #[trigger] b[k] == MobType::Mager)) by {
            if exists|k: int| 0 <= k < bigs.len() && #[trigger] t[k] == MobType::Mager {
                let k = choose|k: int| 0 <= k < bigs.len() && #[trigger] t[k] == MobType::Mager;
                assert(b[k] == MobType::Mager);
            }
            if exists|k: int| 0 <= k < bigs.len() && #[trigger] b[k] == MobType::Mager {
                let k = choose|k: int| 0 <= k < bigs.len() && #[trigger] b[k] == MobType::Mager;
                assert(t[k] == MobType::Mager);
            }
        }
    }
}

/// Whether `ss` is the run of a simulation with `params` that produced `res`, taking the
/// log from `log0` to `log1`: it starts from the initial state, each state is one tick
/// after the one before, no tick before the last ends the run, and the last one ends it
/// with the result's status, or the ticks ran out (a timeout). The run's attacks are
/// appended to the log.
pub open spec fn sim_run(params: SimRunParams<'_>, log0: Seq<AttackEvent>, ss: Seq<State<'_>>, res: SimResult,
    log1: Seq<AttackEvent>) -> bool {
    let n = ss.len() - 1;
    &&& ss.len() >= 1
    &&& initial_state_ok(*params.parsed, params.player_pos, params.pillar_config, params.loadout, params.region, params.seed,
        Seq::empty(), ss[0])
    &&& forall|k: int| 0 <= k < n ==> #[trigger] tick_step(ss[k], ss[k + 1])
    &&& forall|k: int| 1 <= k < n ==> #[trigger] end_status(ss[k]) is None
    &&& res.status == SimStatus::Timeout ==> {
        &&& n == if params.max_ticks > 0 { params.max_ticks as int } else { 0 }
        &&& n >= 1 ==> end_status(ss[n]) is None
        &&& res.completed_tick == params.max_ticks
    }
    &&& res.status != SimStatus::Timeout ==> n >= 1 && end_status(ss[n]) == Some(res.status) && res.completed_tick == n
    &&& log1 == log0 + ss[n].attacks@
    &&& res.attack_start == log0.len()
    &&& res.attack_end == log1.len()
    &&& res.mob_init_hp == ss[n].mob_init_hp
    &&& res.mob_init_len == ss[n].mob_init_len
}

/// Runs one simulation for at most `max_ticks` ticks, appending its attacks to
/// `attack_log`. It ends complete once every monster is dead; trapped (or invalid, when
/// the trap is not one the player may rely on) once the player has no target and every
/// remaining monster has gone 20 ticks without sight of the player; else by timeout.
pub fn hl_run_sim<'a>(params: SimRunParams<'a>, attack_log: &mut Vec<AttackEvent>) -> (r: Result<SimResult, String>)
    requires
        params.region.wf(),
        sim_loadout_ok(*params.loadout),
        0 <= params.player_pos.x < 64 && 0 <= params.player_pos.y < 64,
        spawns_ok(params.parsed.spawns@),
        attacks_ok(old(attack_log)@),
        params.max_ticks <= MAX_SIM_TICKS,
    ensures
        r matches Ok(res) && {
            &&& res.attack_start == old(attack_log)@.len()
            &&& res.attack_end == final(attack_log)@.len()
            &&& res.attack_start <= res.attack_end
            &&& res.mob_init_len <= 64
            &&& res.completed_tick <= if params.max_ticks > 0 { params.max_ticks } else { 0 }
            &&& res.completed_tick >= 0 || res.status == SimStatus::Timeout
            &&& res.status == SimStatus::Timeout ==> res.completed_tick == params.max_ticks
            &&& res.status != SimStatus::Timeout ==> exists|s: State<'_>| #[trigger] end_status(s) == Some(res.status)
                && s.wf() && s.tick == res.completed_tick
            &&& exists|ss: Seq<State<'a>>| #[trigger] sim_run(params, old(attack_log)@, ss, res, final(attack_log)@)
        },
        final(attack_log)@.subrange(0, old(attack_log)@.len() as int) == old(attack_log)@,
        attacks_ok(final(attack_log)@),
{
    let attack_start: usize = attack_log.len();
    let mut state: State = hl_init_state(params.parsed, params.player_pos, params.pillar_config, params.loadout,
        params.region, params.seed, Vec::new());
    let mut t: i32 = 0;
    let mut outcome: Option<(i32, SimStatus)> = None;
    let ghost mut end_state: State = state;
    let ghost mut ss: Seq<State<'a>> = seq![state];
    while t < params.max_ticks && outcome.is_none()
        invariant
            ss.len() == t + 1,
            ss.last() == state,
            initial_state_ok(*params.parsed, params.player_pos, params.pillar_config, params.loadout, params.region, params.seed,
        Seq::empty(), ss[0]),
            forall|k: int| 0 <= k < t ==> #[trigger] tick_step(ss[k], ss[k + 1]),
            forall|k: int| 1 <= k < t ==> #[trigger] end_status(ss[k]) is None,
            outcome is None && t >= 1 ==> end_status(ss[t as int]) is None,
            outcome matches Some((c, st)) ==> c == t && t >= 1 && end_status(ss[t as int]) == Some(st),
            outcome matches Some((c, st)) ==> end_status(end_state) == Some(st) && end_state.wf() && end_state.tick == c,
            0 <= t,
            t <= (if params.max_ticks > 0 { params.max_ticks } else { 0 }),
            params.max_ticks <= MAX_SIM_TICKS,
            state.wf(),
            state.tick == t,
            outcome matches Some((c, s)) ==> 0 <= c <= t && s != SimStatus::Timeout,
        decreases params.max_ticks - t,
    {
        let ghost prev = state;
        let ghost ss0 = ss;
        hl_tick(&mut state);
        t = t + 1;
        proof {
            ss = ss.push(state);
            assert(ss[t - 1] == prev);
            assert(tick_step(ss[t - 1], ss[t as int]));
            assert forall|k: int| 0 <= k < t implies #[trigger] tick_step(ss[k], ss[k + 1]) by {
                if k < t - 1 {
                    assert(ss[k] == ss0[k] && ss[k + 1] == ss0[k + 1]);
                }
            }
            assert forall|k: int| 1 <= k < t implies #[trigger] end_status(ss[k]) is None by {
                assert(ss[k] == ss0[k]);
            }
        }
        if state.dead_count == state.mobs.len() {
            outcome = Some((state.tick, SimStatus::Complete));
            proof { end_state = state; }
        } else if state.player.aggro.is_none() {
            let (all_no_los, trapped_big, trapped_big_len) = scan_trap(&state);
            if all_no_los {
                let valid: bool = check_trapped_valid(&trapped_big, trapped_big_len);
                proof { lemma_trap_kinds(trapped_big@, trap_bigs(state.mobs@)); }
                outcome = Some((state.tick, if valid { SimStatus::Trapped } else { SimStatus::Invalid }));
                proof { end_state = state; }
            }
        }
        proof {
            assert(ss[t as int] == state);
        }
    }
    let (completed_tick, status) = match outcome {
        Some(o) => o,
        None => (params.max_ticks, SimStatus::Timeout),
    };
    proof {
        state.lemma_wf_attacks();
        state.lemma_wf_frame_links();
    }
    let ghost log0 = attack_log@;
    let ghost added = state.attacks@;
    attack_log.append(&mut state.attacks);
    proof {
        assert(attack_log@.subrange(0, log0.len() as int) =~= log0);
        assert forall|k: int| 0 <= k < attack_log@.len() implies (#[trigger] attack_log@[k]).tick <= i32::MAX - 8
            && attack_log@[k].player_dmg >= 0 by {
            if k >= log0.len() {
                assert(attack_log@[k] == added[k - log0.len()]);
            }
        }
    }
    proof {
        if status != SimStatus::Timeout {
            assert(end_status(end_state) == Some(status));
        }
    }
    let result: SimResult = finish_sim_result(&state, attack_start, attack_log.len(), completed_tick, status);
    proof {
        assert(attack_log@ =~= log0 + added);
        assert(sim_run(params, log0, ss, result, attack_log@));
    }
    Ok(result)
}

} // verus!
