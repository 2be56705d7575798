use vstd::prelude::*;

use crate::constants::DAMAGE_BUCKETS;
use crate::damage::attacks_ok;
use crate::events::{AttackEvent, SimResult, SimStatus};
use crate::loadout::Loadout;
use crate::prayer::{best_combo, combo_seq, combo_total, damages_ok, fixed_slots, optimize_prayer, result_damage, results_ok};
use crate::queue::DamageResult;
use crate::region::Region;
use crate::run::{SimRunParams, hl_run_sim, sim_run};
use crate::scoring::{damage_bucket, damage_bucket_spec};
use crate::setup::spawns_ok;
use crate::spawn::{ParsedSpawnCode, is_empty_wave, is_empty_wave_spec, wave_flags, wave_flags_spec};
use crate::state::State;
use crate::state::{MAX_SIM_TICKS, sim_loadout_ok};
use crate::types::{PillarConfig, Point, Prayer};

verus! {


/// An average `sum / count`, or `fallback` when the count is zero.
#[derive(Clone, Copy, Debug, PartialEq, Eq, Structural)]
pub struct Average {
    pub sum: i64,
    pub count: u64,
    pub fallback: i64,
}

/// A percentage `part / count * 100`, or `fallback` when the count is zero and a
/// fallback is given.
#[derive(Clone, Copy, Debug, PartialEq, Eq, Structural)]
pub struct Percent {
    pub part: u64,
    pub count: u64,
    pub fallback: Option<u64>,
}

/// The summary of a tile's simulations: average damage, the damage histogram and its
/// top, the share of simulations over 50 damage, the average length, the chosen prayer
/// sequence, the share of invalid simulations, their number and the share of deaths.
#[derive(Clone, Copy, Debug)]
pub struct TileSummary {
    pub avg_damage: Average,
    pub damage_buckets: [usize; 20],
    pub damage_max: i32,
    pub over50_pct: Percent,
    pub avg_ticks: Average,
    pub prayer: [Prayer; 4],
    pub invalid_pct: Percent,
    pub total_sims: usize,
    pub death_pct: Percent,
}

/// What the simulations of one tile run on.
#[derive(Clone, Copy)]
pub struct TileSimParams<'a> {
    pub parsed: &'a ParsedSpawnCode,
    pub pillar_config: PillarConfig,
    pub tile: Point,
    pub loadout: &'a Loadout,
    pub max_ticks: i32,
    pub max_sims: i32,
    pub seed_base: u32,
    pub region: &'a Region,
    pub quick_prune: bool,
}

/// Buffers reused across the tiles of a batch.
pub struct SimScratch {
    pub all_results: Vec<SimResult>,
    pub attack_log: Vec<AttackEvent>,
    pub best_damages: Vec<DamageResult>,
    pub candidate_damages: Vec<DamageResult>,
}

impl SimScratch {
    /// Empty buffers sized for `sim_cap` simulations.
    pub fn with_capacity(sim_cap: usize) -> (r: Self)
        ensures
            r.all_results@.len() == 0,
            r.attack_log@.len() == 0,
            r.best_damages@.len() == 0,
            r.candidate_damages@.len() == 0,
    {
        let attack_cap: usize = if sim_cap < 32 { sim_cap * 192 } else { 32 * 192 };
        SimScratch {
            all_results: Vec::with_capacity(sim_cap),
            attack_log: Vec::with_capacity(attack_cap),
            best_damages: Vec::with_capacity(sim_cap),
            candidate_damages: Vec::with_capacity(sim_cap),
        }
    }

    /// Makes room for `sim_cap` simulations; the contents stay as they are.
    pub fn ensure_capacity(&mut self, sim_cap: usize)
        ensures
            final(self).all_results@ == old(self).all_results@,
            final(self).attack_log@ == old(self).attack_log@,
            final(self).best_damages@ == old(self).best_damages@,
            final(self).candidate_damages@ == old(self).candidate_damages@,
    {
        let attack_cap: usize = if sim_cap < 32 { sim_cap * 192 } else { 32 * 192 };
        self.all_results.reserve(sim_cap);
        self.attack_log.reserve(attack_cap);
        self.best_damages.reserve(sim_cap);
        self.candidate_damages.reserve(sim_cap);
    }
}

/// The summary of a wave without monsters: no damage, one tick, `sample_count` samples.
pub open spec fn is_empty_wave_summary(r: TileSummary, sample_count: usize) -> bool {
    &&& r.avg_damage == Average { sum: 0, count: sample_count as u64, fallback: 0 }
    &&& r.damage_buckets@ == seq![sample_count, 0, 0, 0, 0, 0, 0, 0, 0, 0, 0, 0, 0, 0, 0, 0, 0, 0, 0, 0]
    &&& r.damage_max == 100
    &&& r.over50_pct == Percent { part: 0, count: sample_count as u64, fallback: Some(0) }
    &&& r.avg_ticks == Average { sum: sample_count as i64, count: sample_count as u64, fallback: 1 }
    &&& r.prayer@ == seq![Prayer::Mage, Prayer::Mage, Prayer::Mage, Prayer::Mage]
    &&& r.invalid_pct == Percent { part: 0, count: sample_count as u64, fallback: Some(0) }
    &&& r.total_sims == sample_count
    &&& r.death_pct == Percent { part: 0, count: sample_count as u64, fallback: Some(0) }
}

/// The summary of a wave without monsters.
pub fn summarize_empty_wave_typed(sample_count: usize) -> (r: TileSummary)
    requires
        sample_count <= i64::MAX,
    ensures
        is_empty_wave_summary(r, sample_count),
{
    let mut damage_buckets: [usize; 20] = [0usize; 20];
    damage_buckets[0] = sample_count;
    let r = TileSummary {
        avg_damage: Average { sum: 0, count: sample_count as u64, fallback: 0 },
        damage_buckets,
        damage_max: 100,
        over50_pct: Percent { part: 0, count: sample_count as u64, fallback: Some(0) },
        avg_ticks: Average { sum: sample_count as i64, count: sample_count as u64, fallback: 1 },
        prayer: [Prayer::Mage; 4],
        invalid_pct: Percent { part: 0, count: sample_count as u64, fallback: Some(0) },
        total_sims: sample_count,
        death_pct: Percent { part: 0, count: sample_count as u64, fallback: Some(0) },
    };
    assert(r.damage_buckets@ =~= seq![sample_count, 0, 0, 0, 0, 0, 0, 0, 0, 0, 0, 0, 0, 0, 0, 0, 0, 0, 0, 0]);
    assert(r.prayer@ =~= seq![Prayer::Mage, Prayer::Mage, Prayer::Mage, Prayer::Mage]);
    r
}

/// Number of invalid results among the first `n`.
pub open spec fn invalid_count_spec(results: Seq<SimResult>, n: int) -> int
    decreases n,
{
    if n <= 0 { 0 } else { invalid_count_spec(results, n - 1) + if results[n - 1].status == SimStatus::Invalid { 1int } else { 0 } }
}

/// The invalid results among the first `n` are at most `n`.
pub proof fn lemma_invalid_count_bounds(results: Seq<SimResult>, n: int)
    requires
        0 <= n,
    ensures
        0 <= invalid_count_spec(results, n) <= n,
    decreases n,
{
    if n > 0 {
        lemma_invalid_count_bounds(results, n - 1);
    }
}

/// Sum of the completion ticks of the valid results among the first `n`.
pub open spec fn valid_tick_sum(results: Seq<SimResult>, n: int) -> int
    decreases n,
{
    if n <= 0 { 0 } else { valid_tick_sum(results, n - 1) + if results[n - 1].status == SimStatus::Invalid { 0 } else { results[n - 1].completed_tick as int } }
}

/// The summary of simulations in which no monster attacked: no damage; invalid
/// simulations count separately, and with none valid the damage is 999 and every
/// simulation counts as over 50.
pub fn summarize_no_attack_results_typed(results: &[SimResult], max_ticks: i32) -> (r: TileSummary)
    requires
        results@.len() <= i32::MAX,
    ensures
        no_attack_summary(results@, max_ticks, r),
        ({
            let n = results@.len() as int;
            let invalid = invalid_count_spec(results@, n);
            let valid = n - invalid;
            &&& r.avg_damage == Average { sum: 0, count: valid as u64, fallback: 999 }
            &&& r.damage_buckets@ == seq![valid as usize, 0, 0, 0, 0, 0, 0, 0, 0, 0, 0, 0, 0, 0, 0, 0, 0, 0, 0, 0]
            &&& r.damage_max == 100
            &&& r.over50_pct == Percent { part: 0, count: valid as u64, fallback: Some(100) }
            &&& r.avg_ticks == Average { sum: valid_tick_sum(results@, n) as i64, count: valid as u64, fallback: max_ticks as i64 }
            &&& r.prayer@ == seq![Prayer::Mage, Prayer::Mage, Prayer::Mage, Prayer::Mage]
            &&& r.invalid_pct == Percent { part: invalid as u64, count: n as u64, fallback: None }
            &&& r.total_sims == n
            &&& r.death_pct == Percent { part: 0, count: valid as u64, fallback: Some(0) }
        }),
{
    let mut invalid_count: usize = 0;
    let mut valid_count: usize = 0;
    let mut completion_tick_sum: i64 = 0;
    let mut i: usize = 0;
    while i < results.len()
        invariant
            i <= results@.len(),
            results@.len() <= i32::MAX,
                invalid_count == invalid_count_spec(results@, i as int),
            valid_count == i - invalid_count,
            completion_tick_sum == valid_tick_sum(results@, i as int),
            -2_147_483_648 * (i as int) <= completion_tick_sum <= 2_147_483_648 * (i as int),
        decreases results@.len() - i,
    {
        let result: SimResult = results[i];
        assert(result == results@[i as int]);
        assert(-2_147_483_648 * (i as int) - 2_147_483_648 == -2_147_483_648 * (i + 1) && 2_147_483_648 * (i as int) + 2_147_483_648 == 2_147_483_648 * (i + 1)) by (nonlinear_arith);
        assert(2_147_483_648 * (i as int) <= 2_147_483_648 * 2_147_483_647) by (nonlinear_arith)
            requires i <= 2_147_483_647;
        if result.status == SimStatus::Invalid {
            invalid_count = invalid_count + 1;
        } else {
            valid_count = valid_count + 1;
            completion_tick_sum = completion_tick_sum + result.completed_tick as i64;
        }
        i = i + 1;
    }
    let mut damage_buckets: [usize; 20] = [0usize; 20];
    damage_buckets[0] = valid_count;
    assert(damage_buckets@ =~= seq![valid_count, 0, 0, 0, 0, 0, 0, 0, 0, 0, 0, 0, 0, 0, 0, 0, 0, 0, 0, 0]);
    let prayer: [Prayer; 4] = [Prayer::Mage; 4];
    assert(prayer@ =~= seq![Prayer::Mage, Prayer::Mage, Prayer::Mage, Prayer::Mage]);
    TileSummary {
        avg_damage: Average { sum: 0, count: valid_count as u64, fallback: 999 },
        damage_buckets,
        damage_max: 100,
        over50_pct: Percent { part: 0, count: valid_count as u64, fallback: Some(100) },
        avg_ticks: Average { sum: completion_tick_sum, count: valid_count as u64, fallback: max_ticks as i64 },
        prayer,
        invalid_pct: Percent { part: invalid_count as u64, count: results.len() as u64, fallback: None },
        total_sims: results.len(),
        death_pct: Percent { part: 0, count: valid_count as u64, fallback: Some(0) },
    }
}


/// How many of the first `n` valid results fall in damage bucket `b` of `max_damage`.
pub open spec fn bucket_count(results: Seq<SimResult>, d: Seq<DamageResult>, n: int, max_damage: int, b: int) -> int
    decreases n,
{
    if n <= 0 {
        0
    } else {
        bucket_count(results, d, n - 1, max_damage, b)
            + if results[n - 1].status != SimStatus::Invalid && damage_bucket_spec(d[n - 1].damage as int, max_damage) == b {
                1int
            } else {
                0
            }
    }
}

/// Tallies of the valid results among the first `n` under their damages `d`:
/// (deaths, damage sum, results over 50 damage, largest damage with a floor of 100).
pub open spec fn damage_tally(results: Seq<SimResult>, d: Seq<DamageResult>, n: int) -> (int, int, int, int)
    decreases n,
{
    if n <= 0 {
        (0, 0, 0, 100)
    } else {
        let t = damage_tally(results, d, n - 1);
        if results[n - 1].status == SimStatus::Invalid {
            t
        } else {
            let x = d[n - 1];
            (t.0 + if x.died { 1int } else { 0 }, t.1 + x.damage, t.2 + if x.damage > 50 { 1int } else { 0 },
                if x.damage > t.3 { x.damage as int } else { t.3 })
        }
    }
}

/// The over-50 share counts every valid result whose damage exceeds 50, whether or not
/// the player died in it: two damage lists with the same damages give the same over-50
/// count (and damage sum), and when the starting hitpoints exceed 50, so that every
/// death's damage does, at least as many results are over 50 as ended in death.
pub proof fn law_over50_counts_deaths(results: Seq<SimResult>, d: Seq<DamageResult>, d2: Seq<DamageResult>, l: Loadout, n: int)
    requires
        0 <= n <= results.len(),
        n <= d.len(),
        n <= d2.len(),
        damages_ok(d, l),
    ensures
        (forall|k: int| 0 <= k < n ==> (#[trigger] d2[k]).damage == d[k].damage) ==>
            damage_tally(results, d2, n).2 == damage_tally(results, d, n).2
            && damage_tally(results, d2, n).1 == damage_tally(results, d, n).1,
        l.starting_hp > 50 ==> damage_tally(results, d, n).0 <= damage_tally(results, d, n).2,
        0 <= damage_tally(results, d, n).0 <= n,
        0 <= damage_tally(results, d, n).2 <= n,
    decreases n,
{
    if n > 0 {
        law_over50_counts_deaths(results, d, d2, l, n - 1);
        if forall|k: int| 0 <= k < n ==> (#[trigger] d2[k]).damage == d[k].damage {
            assert forall|k: int| 0 <= k < n - 1 implies (#[trigger] d2[k]).damage == d[k].damage by {
                assert(d2[k].damage == d[k].damage);
            }
            assert(d2[n - 1].damage == d[n - 1].damage);
        }
        assert(0 <= d[n - 1].damage <= l.starting_hp && (d[n - 1].died ==> d[n - 1].damage == l.starting_hp));
    }
}

/// In a summary of results whose damages are consistent with the loadout (a death takes
/// the starting hitpoints), a death whose damage exceeds 50 counts in the over-50
/// share too: with more than 50 starting hitpoints the over-50 share holds at least the
/// deaths.
pub proof fn law_summary_over50_holds_deaths(results: Seq<SimResult>, d: Seq<DamageResult>, prayer: [Prayer; 4],
    max_ticks: i32, l: Loadout, r: TileSummary)
    requires
        results.len() <= d.len(),
        results.len() <= i32::MAX,
        damages_ok(d, l),
        l.starting_hp > 50,
        results_summary(results, d, prayer, max_ticks, r),
    ensures
        r.death_pct.part <= r.over50_pct.part,
        r.death_pct.count == r.over50_pct.count,
{
    law_over50_counts_deaths(results, d, d, l, results.len() as int);
}

/// The summary of simulated results under the chosen prayer sequence: averages and
/// shares over the valid results (a death counts its full hitpoints), and the damage
/// histogram relative to the largest damage.
pub fn summarize_results(results: &[SimResult], best_damages: &[DamageResult], prayer: [Prayer; 4], max_ticks: i32,
    l: &Loadout) -> (r: TileSummary)
    requires
        results@.len() <= i32::MAX,
        best_damages@.len() == results@.len(),
        damages_ok(best_damages@, *l),
        crate::loadout::loadout_ok(*l),
    ensures
        results_summary(results@, best_damages@, prayer, max_ticks, r),
        ({
            let n = results@.len() as int;
            let invalid = invalid_count_spec(results@, n);
            let valid = n - invalid;
            let t = damage_tally(results@, best_damages@, n);
            &&& r.avg_damage == Average { sum: t.1 as i64, count: valid as u64, fallback: 999 }
            &&& r.damage_max == t.3
            &&& r.over50_pct == Percent { part: t.2 as u64, count: valid as u64, fallback: Some(100) }
            &&& r.avg_ticks == Average { sum: valid_tick_sum(results@, n) as i64, count: valid as u64, fallback: max_ticks as i64 }
            &&& r.prayer == prayer
            &&& r.invalid_pct == Percent { part: invalid as u64, count: n as u64, fallback: None }
            &&& r.total_sims == n
            &&& r.death_pct == Percent { part: t.0 as u64, count: valid as u64, fallback: Some(0) }
            &&& forall|b: int| 0 <= b < 20 ==> #[trigger] r.damage_buckets@[b] <= valid
            &&& forall|b: int| 0 <= b < 20 ==> #[trigger] r.damage_buckets@[b] == bucket_count(results@, best_damages@, n, t.3, b)
        }),
{
    let mut invalid_count: usize = 0;
    let mut death_count: usize = 0;
    let mut damage_count: usize = 0;
    let mut damage_sum: i64 = 0;
    let mut over50: usize = 0;
    let mut max_damage: i32 = 100;
    let mut completion_tick_sum: i64 = 0;
    let mut completion_tick_count: usize = 0;
    let mut idx: usize = 0;
    while idx < results.len()
        invariant
            idx <= results@.len(),
            results@.len() <= i32::MAX,
            best_damages@.len() == results@.len(),
            damages_ok(best_damages@, *l),
            crate::loadout::loadout_ok(*l),
                invalid_count == invalid_count_spec(results@, idx as int),
            damage_count == idx - invalid_count,
            completion_tick_count == damage_count,
            completion_tick_sum == valid_tick_sum(results@, idx as int),
            -2_147_483_648 * (idx as int) <= completion_tick_sum <= 2_147_483_648 * (idx as int),
            (death_count as int, damage_sum as int, over50 as int, max_damage as int) == damage_tally(results@, best_damages@, idx as int),
            death_count <= idx,
            over50 <= idx,
            0 <= damage_sum <= 115 * (idx as int),
            100 <= max_damage <= 115,
        decreases results@.len() - idx,
    {
        let r: SimResult = results[idx];
        assert(r == results@[idx as int]);
        assert(-2_147_483_648 * (idx as int) - 2_147_483_648 == -2_147_483_648 * (idx + 1) && 2_147_483_648 * (idx as int) + 2_147_483_648 == 2_147_483_648 * (idx + 1)) by (nonlinear_arith);
        assert(2_147_483_648 * (idx as int) <= 2_147_483_648 * 2_147_483_647) by (nonlinear_arith)
            requires idx <= 2_147_483_647;
        if r.status == SimStatus::Invalid {
            invalid_count = invalid_count + 1;
            idx = idx + 1;
            continue;
        }
        let res: DamageResult = best_damages[idx];
        assert(res == best_damages@[idx as int]);
        if res.died {
            death_count = death_count + 1;
        }
        damage_count = damage_count + 1;
        damage_sum = damage_sum + res.damage as i64;
        if res.damage > 50 {
            over50 = over50 + 1;
        }
        if res.damage > max_damage {
            max_damage = res.damage;
        }
        completion_tick_sum = completion_tick_sum + r.completed_tick as i64;
        completion_tick_count = completion_tick_count + 1;
        idx = idx + 1;
    }
    let mut damage_buckets: [usize; 20] = [0usize; 20];
    let mut k: usize = 0;
    while k < results.len()
        invariant
            k <= results@.len(),
            results@.len() <= i32::MAX,
            best_damages@.len() == results@.len(),
            forall|b: int| 0 <= b < 20 ==> #[trigger] damage_buckets@[b] <= k - invalid_count_spec(results@, k as int),
            forall|b: int| 0 <= b < 20 ==> #[trigger] damage_buckets@[b] == bucket_count(results@, best_damages@, k as int, max_damage as int, b),
            0 <= invalid_count_spec(results@, k as int) <= k,
        decreases results@.len() - k,
    {
        if results[k].status == SimStatus::Invalid {
            k = k + 1;
            continue;
        }
        let bucket: usize = damage_bucket(best_damages[k].damage, max_damage);
        assert(damage_buckets@[bucket as int] <= k);
        damage_buckets[bucket] = damage_buckets[bucket] + 1;
        k = k + 1;
    }
    TileSummary {
        avg_damage: Average { sum: damage_sum, count: damage_count as u64, fallback: 999 },
        damage_buckets,
        damage_max: max_damage,
        over50_pct: Percent { part: over50 as u64, count: damage_count as u64, fallback: Some(100) },
        avg_ticks: Average { sum: completion_tick_sum, count: completion_tick_count as u64, fallback: max_ticks as i64 },
        prayer,
        invalid_pct: Percent { part: invalid_count as u64, count: results.len() as u64, fallback: None },
        total_sims: results.len(),
        death_pct: Percent { part: death_count as u64, count: damage_count as u64, fallback: Some(0) },
    }
}



/// Whether `r` summarises simulations in which no monster attacked: no damage; invalid
/// simulations count separately, and with none valid the damage is 999 and every
/// simulation counts as over 50.
pub open spec fn no_attack_summary(results: Seq<SimResult>, max_ticks: i32, r: TileSummary) -> bool {
    let n = results.len() as int;
    let invalid = invalid_count_spec(results, n);
    let valid = n - invalid;
    &&& r.avg_damage == Average { sum: 0, count: valid as u64, fallback: 999 }
    &&& r.damage_buckets@ == seq![valid as usize, 0, 0, 0, 0, 0, 0, 0, 0, 0, 0, 0, 0, 0, 0, 0, 0, 0, 0, 0]
    &&& r.damage_max == 100
    &&& r.over50_pct == Percent { part: 0, count: valid as u64, fallback: Some(100) }
    &&& r.avg_ticks == Average { sum: valid_tick_sum(results, n) as i64, count: valid as u64, fallback: max_ticks as i64 }
    &&& r.prayer@ == seq![Prayer::Mage, Prayer::Mage, Prayer::Mage, Prayer::Mage]
    &&& r.invalid_pct == Percent { part: invalid as u64, count: n as u64, fallback: None }
    &&& r.total_sims == n
    &&& r.death_pct == Percent { part: 0, count: valid as u64, fallback: Some(0) }
}

/// Whether `r` summarises `results`, whose damages under `prayer` are `d`: averages and
/// shares over the valid results (a death counts its full hitpoints), and the damage
/// histogram relative to the largest damage.
pub open spec fn results_summary(results: Seq<SimResult>, d: Seq<DamageResult>, prayer: [Prayer; 4], max_ticks: i32,
    r: TileSummary) -> bool {
    let n = results.len() as int;
    let invalid = invalid_count_spec(results, n);
    let valid = n - invalid;
    let t = damage_tally(results, d, n);
    &&& r.avg_damage == Average { sum: t.1 as i64, count: valid as u64, fallback: 999 }
    &&& r.damage_max == t.3
    &&& r.over50_pct == Percent { part: t.2 as u64, count: valid as u64, fallback: Some(100) }
    &&& r.avg_ticks == Average { sum: valid_tick_sum(results, n) as i64, count: valid as u64, fallback: max_ticks as i64 }
    &&& r.prayer == prayer
    &&& r.invalid_pct == Percent { part: invalid as u64, count: n as u64, fallback: None }
    &&& r.total_sims == n
    &&& r.death_pct == Percent { part: t.0 as u64, count: valid as u64, fallback: Some(0) }
    &&& forall|b: int| 0 <= b < 20 ==> #[trigger] r.damage_buckets@[b] == bucket_count(results, d, n, t.3, b)
}

/// The seed of simulation `s` of a tile.
pub open spec fn tile_seed_spec(seed_base: u32, tile: Point, s: int) -> u32 {
    seed_base ^ (tile.x as u32).wrapping_mul(73_856_093u32) ^ (tile.y as u32).wrapping_mul(19_349_663u32)
        ^ (s as u32).wrapping_mul(83_492_791u32)
}

/// What simulation `s` of a tile runs on.
pub open spec fn run_params<'a>(p: TileSimParams<'a>, s: int) -> SimRunParams<'a> {
    SimRunParams {
        parsed: p.parsed,
        player_pos: p.tile,
        pillar_config: p.pillar_config,
        loadout: p.loadout,
        max_ticks: p.max_ticks,
        region: p.region,
        seed: tile_seed_spec(p.seed_base, p.tile, s),
    }
}

/// Whether result `i` is what simulation `i` of the tile gives, its attacks making its
/// part of `log`.
pub open spec fn run_ok(p: TileSimParams<'_>, log: Seq<AttackEvent>, results: Seq<SimResult>, i: int) -> bool {
    exists|ss: Seq<State<'_>>| #[trigger] sim_run(run_params(p, i), log.subrange(0, results[i].attack_start as int), ss,
        results[i], log.subrange(0, results[i].attack_end as int))
}

/// Whether `results` are the tile's first simulations, in order, with their attacks
/// making up `log` one after the other.
pub open spec fn runs_ok(p: TileSimParams<'_>, log: Seq<AttackEvent>, results: Seq<SimResult>) -> bool {
    &&& forall|i: int| 0 <= i < results.len() ==> (#[trigger] results[i]).attack_start <= results[i].attack_end <= log.len()
    &&& forall|i: int| 0 <= i < results.len() ==> #[trigger] run_ok(p, log, results, i)
    &&& results.len() == 0 ==> log.len() == 0
    &&& results.len() > 0 ==> results[0].attack_start == 0 && results.last().attack_end == log.len()
    &&& forall|i: int| 0 <= i < results.len() - 1 ==> #[trigger] results[i + 1].attack_start == results[i].attack_end
}

/// Whether `t` is the summary of the tile's simulations `results` with attack log `log`:
/// without any attack, the summary of undamaged runs; otherwise the prayers are the
/// first lowest-damage choice over all runs, and the damage under them is summarised.
pub open spec fn tile_summary_of(p: TileSimParams<'_>, results: Seq<SimResult>, log: Seq<AttackEvent>, t: TileSummary) -> bool {
    let flags = wave_flags_spec(p.parsed.spawns@);
    &&& runs_ok(p, log, results)
    &&& runs_stop_ok(p, results, log)
    &&& t.total_sims == results.len()
    &&& log.len() == 0 ==> no_attack_summary(results, p.max_ticks, t)
    &&& log.len() > 0 ==> {
        &&& exists|c: usize| #[trigger] combo_seq(fixed_slots(results, log, flags), c) == t.prayer@
            && best_combo(results, log, flags, *p.loadout, c)
        &&& results_summary(results, Seq::new(results.len(), |k: int| result_damage(results[k], log, t.prayer@, *p.loadout)),
            t.prayer, p.max_ticks, t)
    }
}

/// Runs recorded against a shorter log stay recorded against a longer one.
proof fn lemma_run_ok_extend(p: TileSimParams<'_>, l0: Seq<AttackEvent>, l1: Seq<AttackEvent>, r0: Seq<SimResult>,
    r1: Seq<SimResult>, i: int)
    requires
        l0.len() <= l1.len(),
        l1.subrange(0, l0.len() as int) == l0,
        0 <= i < r0.len(),
        i < r1.len(),
        r1[i] == r0[i],
        r0[i].attack_start <= r0[i].attack_end <= l0.len(),
        run_ok(p, l0, r0, i),
    ensures
        run_ok(p, l1, r1, i),
{
    let a = r0[i].attack_start as int;
    let b = r0[i].attack_end as int;
    assert(l1.subrange(0, a) =~= l0.subrange(0, a));
    assert(l1.subrange(0, b) =~= l0.subrange(0, b));
    let ss = choose|ss: Seq<State<'_>>| #[trigger] sim_run(run_params(p, i), l0.subrange(0, a), ss, r0[i], l0.subrange(0, b));
    assert(sim_run(run_params(p, i), l1.subrange(0, a), ss, r1[i], l1.subrange(0, b)));
}


/// Whether every one of simulations `r` with log `l` kills the player under the best
/// prayers for them.
pub open spec fn all_die(p: TileSimParams<'_>, r: Seq<SimResult>, l: Seq<AttackEvent>) -> bool {
    let flags = wave_flags_spec(p.parsed.spawns@);
    &&& l.len() > 0
    &&& exists|c: usize| #[trigger] best_combo(r, l, flags, *p.loadout, c) && forall|k: int| 0 <= k < r.len() ==>
        (#[trigger] result_damage(r[k], l, combo_seq(fixed_slots(r, l, flags), c), *p.loadout)).died
}

/// Whether simulations `r` with log `l` average more than 80 damage under the best
/// prayers for them.
pub open spec fn too_much_damage(p: TileSimParams<'_>, r: Seq<SimResult>, l: Seq<AttackEvent>) -> bool {
    let flags = wave_flags_spec(p.parsed.spawns@);
    &&& l.len() > 0
    &&& exists|c: usize| #[trigger] best_combo(r, l, flags, *p.loadout, c)
        && combo_total(r, l, *p.loadout, combo_seq(fixed_slots(r, l, flags), c)) > 80 * r.len()
}

/// Quick pruning stops after the first three simulations when all of them kill the player.
pub open spec fn stop_at_3(p: TileSimParams<'_>, r: Seq<SimResult>, l: Seq<AttackEvent>) -> bool {
    p.quick_prune && r.len() >= 3 && all_die(p, r.take(3), l.subrange(0, r[2].attack_end as int))
}

/// Quick pruning stops after the first ten simulations when they average over 80 damage.
pub open spec fn stop_at_10(p: TileSimParams<'_>, r: Seq<SimResult>, l: Seq<AttackEvent>) -> bool {
    p.quick_prune && r.len() >= 10 && too_much_damage(p, r.take(10), l.subrange(0, r[9].attack_end as int))
}

/// Whether simulations `r` stopped where the tile's run rules say: after all
/// `max_sims`, or early only where quick pruning stops, and never past such a point.
pub open spec fn runs_stop_ok(p: TileSimParams<'_>, r: Seq<SimResult>, l: Seq<AttackEvent>) -> bool {
    &&& r.len() > 3 ==> !stop_at_3(p, r, l)
    &&& r.len() > 10 ==> !stop_at_10(p, r, l)
    &&& r.len() < p.max_sims ==> (r.len() == 3 && stop_at_3(p, r, l)) || (r.len() == 10 && stop_at_10(p, r, l))
}

/// The best prayer choice is unique.
proof fn lemma_best_combo_unique(r: Seq<SimResult>, l: Seq<AttackEvent>, flags: crate::spawn::WaveFlags, lo: Loadout,
    c1: usize, c2: usize)
    requires
        best_combo(r, l, flags, lo, c1),
        best_combo(r, l, flags, lo, c2),
    ensures
        c1 == c2,
{
    let slots = fixed_slots(r, l, flags);
    if c1 < c2 {
        assert(combo_total(r, l, lo, combo_seq(slots, c1)) > combo_total(r, l, lo, combo_seq(slots, c2)));
        assert(combo_total(r, l, lo, combo_seq(slots, c2)) >= combo_total(r, l, lo, combo_seq(slots, c1)));
    } else if c2 < c1 {
        assert(combo_total(r, l, lo, combo_seq(slots, c2)) > combo_total(r, l, lo, combo_seq(slots, c1)));
        assert(combo_total(r, l, lo, combo_seq(slots, c1)) >= combo_total(r, l, lo, combo_seq(slots, c2)));
    }
}

/// The total damage of the first `k + 1` simulations adds the damage of simulation `k`.
proof fn lemma_combo_total_take(r: Seq<SimResult>, l: Seq<AttackEvent>, lo: Loadout, sq: Seq<Prayer>, k: int)
    requires
        0 <= k < r.len(),
    ensures
        combo_total(r.take(k + 1), l, lo, sq) == combo_total(r.take(k), l, lo, sq) + result_damage(r[k], l, sq, lo).damage,
{
    assert(r.take(k + 1).drop_last() =~= r.take(k));
    assert(r.take(k + 1).last() == r[k]);
}

/// The pruning points depend only on the simulations up to them.
proof fn lemma_stops_stable(p: TileSimParams<'_>, r: Seq<SimResult>, l: Seq<AttackEvent>, r2: Seq<SimResult>,
    l2: Seq<AttackEvent>)
    requires
        r.len() <= r2.len(),
        r2.take(r.len() as int) == r,
        l.len() <= l2.len(),
        l2.subrange(0, l.len() as int) == l,
        forall|i: int| 0 <= i < r.len() ==> (#[trigger] r[i]).attack_end <= l.len(),
    ensures
        r.len() >= 3 ==> stop_at_3(p, r2, l2) == stop_at_3(p, r, l),
        r.len() >= 10 ==> stop_at_10(p, r2, l2) == stop_at_10(p, r, l),
{
    if r.len() >= 3 {
        assert(r2[2] == r[2]);
        assert(r2.take(3) =~= r.take(3));
        assert(l2.subrange(0, r[2].attack_end as int) =~= l.subrange(0, r[2].attack_end as int));
    }
    if r.len() >= 10 {
        assert(r2[9] == r[9]);
        assert(r2.take(10) =~= r.take(10));
        assert(l2.subrange(0, r[9].attack_end as int) =~= l.subrange(0, r[9].attack_end as int));
    }
}

/// Inputs a tile can be simulated on.
pub open spec fn tile_params_ok(p: TileSimParams<'_>) -> bool {
    &&& p.region.wf()
    &&& sim_loadout_ok(*p.loadout)
    &&& 0 <= p.tile.x < 64 && 0 <= p.tile.y < 64
    &&& spawns_ok(p.parsed.spawns@)
    &&& p.max_ticks <= MAX_SIM_TICKS
}

/// The seed of simulation `s` of a tile.
pub fn tile_seed(seed_base: u32, tile: Point, s: i32) -> (r: u32)
    requires
        0 <= tile.x < 64,
        0 <= tile.y < 64,
        s >= 0,
    ensures
        r == seed_base ^ (tile.x as u32).wrapping_mul(73_856_093u32) ^ (tile.y as u32).wrapping_mul(19_349_663u32)
            ^ (s as u32).wrapping_mul(83_492_791u32),
{
    let x: u32 = tile.x as u32;
    let y: u32 = tile.y as u32;
    let n: u32 = s as u32;
    seed_base ^ x.wrapping_mul(73_856_093u32) ^ y.wrapping_mul(19_349_663u32) ^ n.wrapping_mul(83_492_791u32)
}

/// Simulates a tile up to `max_sims` times and summarises the results. Without
/// simulations there is no summary; a wave without monsters summarises as such. With
/// quick pruning, the runs stop after three simulations in which the player always died
/// under the best prayers, or after ten whose average damage exceeds 80. Without any
/// monster attack the summary is that of undamaged runs; else the prayers are chosen
/// over all runs and the damage under them is summarised.
pub fn simulate_tile_summary_typed_with_scratch(params: TileSimParams<'_>, scratch: &mut SimScratch)
    -> (r: Result<Option<TileSummary>, String>)
    requires
        tile_params_ok(params),
    ensures
        r is Ok,
        params.max_sims <= 0 ==> r == Ok::<Option<TileSummary>, String>(None),
        params.max_sims > 0 && is_empty_wave_spec(params.parsed.spawns@, params.pillar_config) ==>
            (r matches Ok(Some(t)) && is_empty_wave_summary(t, params.max_sims as usize)),
        params.max_sims > 0 && !is_empty_wave_spec(params.parsed.spawns@, params.pillar_config) ==>
            (r matches Ok(Some(t)) && 1 <= t.total_sims <= params.max_sims
                && (t.total_sims == params.max_sims || (params.quick_prune && (t.total_sims == 3 || t.total_sims == 10)))
                && t.invalid_pct.count == t.total_sims
                && t.invalid_pct.part + t.avg_damage.count == t.total_sims
                && t.avg_ticks.count == t.avg_damage.count),
        params.max_sims > 0 && !is_empty_wave_spec(params.parsed.spawns@, params.pillar_config) ==>
            (r matches Ok(Some(t)) && exists|results: Seq<SimResult>, log: Seq<AttackEvent>|
                #[trigger] tile_summary_of(params, results, log, t)),
{
    if params.max_sims <= 0 {
        return Ok(None);
    }
    if is_empty_wave(params.parsed, params.pillar_config) {
        return Ok(Some(summarize_empty_wave_typed(params.max_sims as usize)));
    }
    let flags = wave_flags(params.parsed);
    scratch.ensure_capacity(params.max_sims as usize);
    scratch.all_results.clear();
    scratch.attack_log.clear();
    scratch.best_damages.clear();
    scratch.candidate_damages.clear();
    let mut s: i32 = 0;
    let mut stop: bool = false;
    while s < params.max_sims && !stop
        invariant
            tile_params_ok(params),
            0 <= s <= params.max_sims,
            scratch.all_results@.len() == s,
            results_ok(scratch.all_results@, scratch.attack_log@),
            attacks_ok(scratch.attack_log@),
            s > 0 || !stop,
            stop ==> params.quick_prune && (s == 3 || s == 10),
            runs_ok(params, scratch.attack_log@, scratch.all_results@),
            flags == wave_flags_spec(params.parsed.spawns@),
            s > 3 ==> !stop_at_3(params, scratch.all_results@, scratch.attack_log@),
            s > 10 ==> !stop_at_10(params, scratch.all_results@, scratch.attack_log@),
            !stop && s == 3 ==> !stop_at_3(params, scratch.all_results@, scratch.attack_log@),
            !stop && s == 10 ==> !stop_at_10(params, scratch.all_results@, scratch.attack_log@),
            stop ==> (s == 3 && stop_at_3(params, scratch.all_results@, scratch.attack_log@))
                || (s == 10 && stop_at_10(params, scratch.all_results@, scratch.attack_log@)),
        decreases params.max_sims - s,
    {
        let seed: u32 = tile_seed(params.seed_base, params.tile, s);
        let ghost log0 = scratch.attack_log@;
        let run = hl_run_sim(SimRunParams {
            parsed: params.parsed,
            player_pos: params.tile,
            pillar_config: params.pillar_config,
            loadout: params.loadout,
            max_ticks: params.max_ticks,
            region: params.region,
            seed,
        }, &mut scratch.attack_log);
        let result: SimResult = match run {
            Ok(res) => res,
            Err(e) => return Err(e),
        };
        let ghost results0 = scratch.all_results@;
        scratch.all_results.push(result);
        proof {
            let l1 = scratch.attack_log@;
            let r1 = scratch.all_results@;
            assert(tile_seed_spec(params.seed_base, params.tile, s as int) == seed);
            assert(l1.subrange(0, log0.len() as int) =~= log0);
            assert(l1.subrange(0, l1.len() as int) =~= l1);
            assert forall|i: int| 0 <= i < r1.len() implies #[trigger] run_ok(params, l1, r1, i) by {
                if i < results0.len() {
                    lemma_run_ok_extend(params, log0, l1, results0, r1, i);
                } else {
                    assert(r1[i] == result);
                    let ss = choose|ss: Seq<State<'_>>| #[trigger] sim_run(run_params(params, s as int), log0, ss, result, l1);
                    assert(sim_run(run_params(params, i), l1.subrange(0, r1[i].attack_start as int), ss, r1[i],
                        l1.subrange(0, r1[i].attack_end as int)));
                }
            }
            assert forall|i: int| 0 <= i < r1.len() - 1 implies #[trigger] r1[i + 1].attack_start == r1[i].attack_end by {
                if i + 1 < results0.len() {
                    assert(r1[i + 1] == results0[i + 1] && r1[i] == results0[i]);
                } else {
                    assert(r1[i] == results0.last());
                }
            }
            assert forall|i: int| 0 <= i < r1.len() implies (#[trigger] r1[i]).attack_start <= r1[i].attack_end <= l1.len() by {
                if i < results0.len() {
                    assert(r1[i] == results0[i]);
                }
            }
            assert(runs_ok(params, l1, r1));
            assert(r1.take(results0.len() as int) =~= results0);
            lemma_stops_stable(params, results0, log0, r1, l1);
            assert(r1[r1.len() - 1].attack_end == l1.len());
        }
        proof {
            assert forall|j: int| 0 <= j < scratch.all_results@.len() implies (#[trigger] scratch.all_results@[j]).attack_start
                <= scratch.all_results@[j].attack_end <= scratch.attack_log@.len() && scratch.all_results@[j].mob_init_len <= 64 by {
                if j < results0.len() {
                    assert(scratch.all_results@[j] == results0[j]);
                }
            }
        }
        let ghost rr = scratch.all_results@;
        let ghost ll = scratch.attack_log@;
        proof {
            if rr.len() == 3 {
                assert(rr.take(3) =~= rr);
                assert(ll.subrange(0, rr[2].attack_end as int) =~= ll);
            }
            if rr.len() == 10 {
                assert(rr.take(10) =~= rr);
                assert(ll.subrange(0, rr[9].attack_end as int) =~= ll);
            }
        }
        if params.quick_prune && s == 2 && scratch.all_results.len() >= 3 && scratch.attack_log.len() > 0 {
            let pr = optimize_prayer(scratch.all_results.as_slice(), scratch.attack_log.as_slice(), flags, params.loadout,
                &mut scratch.best_damages, &mut scratch.candidate_damages);
            let mut all_dead: bool = true;
            let mut k: usize = 0;
            while k < scratch.best_damages.len()
                invariant
                    k <= scratch.best_damages@.len(),
                    all_dead == forall|j: int| 0 <= j < k ==> (#[trigger] scratch.best_damages@[j]).died,
                decreases scratch.best_damages@.len() - k,
            {
                if !scratch.best_damages[k].died {
                    all_dead = false;
                }
                k = k + 1;
            }
            proof {
                let slots = fixed_slots(rr, ll, flags);
                let c0 = choose|c: usize| c < (1usize << (crate::prayer::free_count(slots) as usize))
                    && #[trigger] combo_seq(slots, c) == pr@ && best_combo(rr, ll, flags, *params.loadout, c);
                assert(best_combo(rr, ll, flags, *params.loadout, c0));
                if all_dead {
                    assert forall|k2: int| 0 <= k2 < rr.len() implies
                        (#[trigger] result_damage(rr[k2], ll, combo_seq(slots, c0), *params.loadout)).died by {
                        assert(scratch.best_damages@[k2].died);
                    }
                    assert(all_die(params, rr, ll));
                } else {
                    if all_die(params, rr, ll) {
                        let c1 = choose|c: usize| #[trigger] best_combo(rr, ll, flags, *params.loadout, c) && forall|k2: int|
                            0 <= k2 < rr.len() ==> (#[trigger] result_damage(rr[k2], ll, combo_seq(slots, c), *params.loadout)).died;
                        lemma_best_combo_unique(rr, ll, flags, *params.loadout, c0, c1);
                        let j = choose|j: int| 0 <= j < k && !(#[trigger] scratch.best_damages@[j]).died;
                        assert(result_damage(rr[j], ll, combo_seq(slots, c1), *params.loadout).died);
                    }
                }
            }
            if all_dead {
                stop = true;
            }
        }
        if !stop && params.quick_prune && s == 9 && scratch.all_results.len() >= 10 && scratch.attack_log.len() > 0 {
            let pr10 = optimize_prayer(scratch.all_results.as_slice(), scratch.attack_log.as_slice(), flags, params.loadout,
                &mut scratch.best_damages, &mut scratch.candidate_damages);
            let mut total: i64 = 0;
            let mut k: usize = 0;
            proof {
                assert(rr.take(0) =~= Seq::<SimResult>::empty());
            }
            while k < scratch.best_damages.len()
                invariant
                    k <= scratch.best_damages@.len(),
                    scratch.best_damages@.len() == scratch.all_results@.len(),
                    scratch.all_results@.len() <= i32::MAX,
                    scratch.all_results@ == rr,
                    damages_ok(scratch.best_damages@, *params.loadout),
                    crate::loadout::loadout_ok(*params.loadout),
                    0 <= total <= 115 * (k as int),
                    forall|j: int| 0 <= j < rr.len() ==> #[trigger] scratch.best_damages@[j]
                        == result_damage(rr[j], ll, pr10@, *params.loadout),
                    total == combo_total(rr.take(k as int), ll, *params.loadout, pr10@),
                decreases scratch.best_damages@.len() - k,
            {
                assert(0 <= scratch.best_damages@[k as int].damage <= 115);
                proof {
                    lemma_combo_total_take(rr, ll, *params.loadout, pr10@, k as int);
                }
                total = total + scratch.best_damages[k].damage as i64;
                k = k + 1;
            }
            proof {
                assert(rr.take(rr.len() as int) =~= rr);
                let slots = fixed_slots(rr, ll, flags);
                let c0 = choose|c: usize| c < (1usize << (crate::prayer::free_count(slots) as usize))
                    && #[trigger] combo_seq(slots, c) == pr10@ && best_combo(rr, ll, flags, *params.loadout, c);
                assert(best_combo(rr, ll, flags, *params.loadout, c0));
                if total > 80 * (rr.len() as int) {
                    assert(too_much_damage(params, rr, ll));
                } else {
                    if too_much_damage(params, rr, ll) {
                        let c1 = choose|c: usize| #[trigger] best_combo(rr, ll, flags, *params.loadout, c)
                            && combo_total(rr, ll, *params.loadout, combo_seq(slots, c)) > 80 * rr.len();
                        lemma_best_combo_unique(rr, ll, flags, *params.loadout, c0, c1);
                    }
                }
            }
            if total > 80 * (scratch.all_results.len() as i64) {
                stop = true;
            }
        }
        s = s + 1;
    }
    if scratch.all_results.len() == 0 {
        return Ok(None);
    }
    proof {
        lemma_invalid_count_bounds(scratch.all_results@, scratch.all_results@.len() as int);
    }
    if scratch.attack_log.len() == 0 {
        let t = summarize_no_attack_results_typed(scratch.all_results.as_slice(), params.max_ticks);
        proof {
            assert(tile_summary_of(params, scratch.all_results@, scratch.attack_log@, t));
        }
        return Ok(Some(t));
    }
    let prayer: [Prayer; 4] = optimize_prayer(scratch.all_results.as_slice(), scratch.attack_log.as_slice(), flags,
        params.loadout, &mut scratch.best_damages, &mut scratch.candidate_damages);
    let t = summarize_results(scratch.all_results.as_slice(), scratch.best_damages.as_slice(), prayer,
        params.max_ticks, params.loadout);
    proof {
        let res = scratch.all_results@;
        let log = scratch.attack_log@;
        assert(scratch.best_damages@ =~= Seq::new(res.len(), |k: int| result_damage(res[k], log, t.prayer@, *params.loadout)));
        assert(tile_summary_of(params, res, log, t));
    }
    Ok(Some(t))
}

/// Simulates and summarises a tile as [`simulate_tile_summary_typed_with_scratch`] does,
/// with buffers of its own.
pub fn simulate_tile_summary_typed(params: TileSimParams<'_>) -> (r: Result<Option<TileSummary>, String>)
    requires
        tile_params_ok(params),
    ensures
        r is Ok,
        params.max_sims <= 0 ==> r == Ok::<Option<TileSummary>, String>(None),
        params.max_sims > 0 && is_empty_wave_spec(params.parsed.spawns@, params.pillar_config) ==>
            (r matches Ok(Some(t)) && is_empty_wave_summary(t, params.max_sims as usize)),
        params.max_sims > 0 && !is_empty_wave_spec(params.parsed.spawns@, params.pillar_config) ==>
            (r matches Ok(Some(t)) && 1 <= t.total_sims <= params.max_sims
                && (t.total_sims == params.max_sims || (params.quick_prune && (t.total_sims == 3 || t.total_sims == 10)))
                && t.invalid_pct.count == t.total_sims
                && t.invalid_pct.part + t.avg_damage.count == t.total_sims
                && t.avg_ticks.count == t.avg_damage.count),
        params.max_sims > 0 && !is_empty_wave_spec(params.parsed.spawns@, params.pillar_config) ==>
            (r matches Ok(Some(t)) && exists|results: Seq<SimResult>, log: Seq<AttackEvent>|
                #[trigger] tile_summary_of(params, results, log, t)),
{
    let cap: usize = if params.max_sims < 0 { 0 } else { params.max_sims as usize };
    let mut scratch = SimScratch::with_capacity(cap);
    simulate_tile_summary_typed_with_scratch(params, &mut scratch)
}

} // verus!
