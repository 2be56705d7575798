use vstd::prelude::*;

use crate::damage::{attacks_ok, calc_sim_damage, lemma_sim_damage_bounds, sim_damage};
use crate::events::{AttackEvent, MobInit, SimResult};
use crate::loadout::{Loadout, loadout_ok};
use crate::queue::DamageResult;
use crate::scoring::{best_vote_slot, best_vote_slot_spec, prayer_slot, prayer_slot_spec};
use crate::spawn::WaveFlags;
use crate::types::Prayer;

verus! {

/// Kind code of the mager in the attack log.
pub const MAGER_CODE: u8 = 0;
/// Kind code of the ranger in the attack log.
pub const RANGER_CODE: u8 = 1;
/// Kind code of the meleer in the attack log.
pub const MELEER_CODE: u8 = 2;

/// Prayer slot of the first attack (scans aside) of the kind `code` in a log, looking
/// from position `k` on.
pub open spec fn first_attack_slot(attacks: Seq<AttackEvent>, code: u8, k: int) -> Option<int>
    decreases attacks.len() - k,
{
    if k < 0 || k >= attacks.len() {
        None
    } else if !attacks[k].is_scan && attacks[k].mob_type == code {
        Some(prayer_slot_spec(attacks[k].tick as int))
    } else {
        first_attack_slot(attacks, code, k + 1)
    }
}

/// The part of the shared log that a result wrote.
pub open spec fn result_attacks(r: SimResult, log: Seq<AttackEvent>) -> Seq<AttackEvent> {
    log.subrange(r.attack_start as int, r.attack_end as int)
}

/// Results whose parts of the log and recorded hitpoints are in range.
pub open spec fn results_ok(results: Seq<SimResult>, log: Seq<AttackEvent>) -> bool {
    forall|j: int| 0 <= j < results.len() ==> (#[trigger] results[j]).attack_start <= results[j].attack_end <= log.len()
        && results[j].mob_init_len <= 64
}

/// Number of results whose first attack of the kind `code` falls in `slot`.
pub open spec fn vote_count(results: Seq<SimResult>, log: Seq<AttackEvent>, code: u8, slot: int) -> int
    decreases results.len(),
{
    if results.len() == 0 {
        0
    } else {
        vote_count(results.drop_last(), log, code, slot)
            + if first_attack_slot(result_attacks(results.last(), log), code, 0) == Some(slot) { 1int } else { 0 }
    }
}

/// The four vote counts of a kind.
pub open spec fn votes_of(results: Seq<SimResult>, log: Seq<AttackEvent>, code: u8) -> Seq<i32> {
    seq![
        vote_count(results, log, code, 0) as i32,
        vote_count(results, log, code, 1) as i32,
        vote_count(results, log, code, 2) as i32,
        vote_count(results, log, code, 3) as i32,
    ]
}

/// The slot that [`best_vote_slot`] picks from a vote count.
pub open spec fn vote_pick(votes: Seq<i32>) -> Option<usize> {
    choose|r: Option<usize>| best_vote_slot_spec(votes, r)
}

/// A vote count picks at most one slot.
pub proof fn lemma_best_vote_slot_unique(votes: Seq<i32>, a: Option<usize>, b: Option<usize>)
    requires
        best_vote_slot_spec(votes, a),
        best_vote_slot_spec(votes, b),
    ensures
        a == b,
{
    match (a, b) {
        (Some(i), Some(j)) => {
            if i < j {
                assert(votes[i as int] < votes[j as int]);
            } else if j < i {
                assert(votes[j as int] < votes[i as int]);
            }
        },
        (Some(i), None) => {
            assert(votes[i as int] <= 0);
        },
        (None, Some(j)) => {
            assert(votes[j as int] <= 0);
        },
        (None, None) => {},
    }
}

/// Sets a slot to a prayer when a slot was picked and is still free.
pub open spec fn claim(slots: Seq<Option<Prayer>>, pick: Option<usize>, p: Prayer) -> Seq<Option<Prayer>> {
    match pick {
        Some(i) => if slots[i as int] is None { slots.update(i as int, Some(p)) } else { slots },
        None => slots,
    }
}

/// The slots that the votes fix: magic protection where the mager's attacks fall most,
/// then missile where the ranger's do, then melee where the meleer's do, each only for a
/// kind of the wave and only on a slot still free.
pub open spec fn fixed_slots(results: Seq<SimResult>, log: Seq<AttackEvent>, flags: WaveFlags) -> Seq<Option<Prayer>> {
    let s0 = seq![None::<Prayer>, None, None, None];
    let s1 = if flags.has_mager { claim(s0, vote_pick(votes_of(results, log, MAGER_CODE)), Prayer::Mage) } else { s0 };
    let s2 = if flags.has_ranger { claim(s1, vote_pick(votes_of(results, log, RANGER_CODE)), Prayer::Range) } else { s1 };
    if flags.has_meleer { claim(s2, vote_pick(votes_of(results, log, MELEER_CODE)), Prayer::Melee) } else { s2 }
}

/// Number of free slots before slot `j`.
pub open spec fn free_before(slots: Seq<Option<Prayer>>, j: int) -> int
    decreases j,
{
    if j <= 0 { 0 } else { free_before(slots, j - 1) + if slots[j - 1] is None { 1int } else { 0 } }
}

/// Whether bit `pos` of the combination number `c` is set.
pub open spec fn combo_bit(c: usize, pos: usize) -> bool {
    (c >> pos) & 1usize == 1usize
}

/// The prayer sequence of combination `c`: fixed slots keep their prayer; the free
/// slot with `k` free slots before it gets missile protection when bit `k` of `c` is
/// set, else magic protection.
pub open spec fn combo_seq(slots: Seq<Option<Prayer>>, c: usize) -> Seq<Prayer> {
    Seq::new(4, |j: int| match slots[j] {
        Some(p) => p,
        None => if combo_bit(c, free_before(slots, j) as usize) { Prayer::Range } else { Prayer::Mage },
    })
}


/// Counts of free slots lie between zero and the slot number.
proof fn lemma_free_before_bounds(slots: Seq<Option<Prayer>>)
    ensures
        forall|j: int| 0 <= j <= 4 ==> 0 <= #[trigger] free_before(slots, j) <= j,
{
    reveal_with_fuel(free_before, 5);
}

/// Number of free slots.
pub open spec fn free_count(slots: Seq<Option<Prayer>>) -> int {
    free_before(slots, 4)
}

/// The monsters' starting hitpoints that a simulation recorded.
pub open spec fn result_init(r: SimResult) -> Seq<Option<MobInit>> {
    r.mob_init_hp@.subrange(0, r.mob_init_len as int)
}

/// The damage count of a simulation's attacks under a prayer sequence.
pub open spec fn result_damage(r: SimResult, log: Seq<AttackEvent>, seq: Seq<Prayer>, l: Loadout) -> DamageResult {
    sim_damage(result_attacks(r, log), seq, l, result_init(r))
}

/// Total damage of a prayer sequence over all results.
pub open spec fn combo_total(results: Seq<SimResult>, log: Seq<AttackEvent>, l: Loadout, seq: Seq<Prayer>) -> int
    decreases results.len(),
{
    if results.len() == 0 {
        0
    } else {
        combo_total(results.drop_last(), log, l, seq) + result_damage(results.last(), log, seq, l).damage
    }
}

/// Combination `c` is the one the search keeps: among the combinations the lowest total,
/// and the first with that total.
pub open spec fn best_combo(results: Seq<SimResult>, log: Seq<AttackEvent>, flags: WaveFlags, l: Loadout, c: usize) -> bool {
    let slots = fixed_slots(results, log, flags);
    let n = 1usize << (free_count(slots) as usize);
    &&& c < n
    &&& forall|d: usize| d < n ==> combo_total(results, log, l, #[trigger] combo_seq(slots, d))
            >= combo_total(results, log, l, combo_seq(slots, c))
    &&& forall|d: usize| d < c ==> combo_total(results, log, l, #[trigger] combo_seq(slots, d))
            > combo_total(results, log, l, combo_seq(slots, c))
}

/// The prayer slot of the first mager, ranger and meleer attack (scans aside) in a log.
fn first_attack_slots(attacks: &[AttackEvent]) -> (r: (Option<usize>, Option<usize>, Option<usize>))
    ensures
        (match r.0 { Some(s) => Some(s as int), None => None }) == first_attack_slot(attacks@, MAGER_CODE, 0),
        (match r.1 { Some(s) => Some(s as int), None => None }) == first_attack_slot(attacks@, RANGER_CODE, 0),
        (match r.2 { Some(s) => Some(s as int), None => None }) == first_attack_slot(attacks@, MELEER_CODE, 0),
        r.0 matches Some(s) ==> s < 4,
        r.1 matches Some(s) ==> s < 4,
        r.2 matches Some(s) ==> s < 4,
{
    let mut mager: Option<usize> = None;
    let mut ranger: Option<usize> = None;
    let mut meleer: Option<usize> = None;
    let mut i: usize = 0;
    while i < attacks.len()
        invariant
            i <= attacks@.len(),
            mager is None ==> first_attack_slot(attacks@, MAGER_CODE, 0) == first_attack_slot(attacks@, MAGER_CODE, i as int),
            mager matches Some(s) ==> s < 4 && first_attack_slot(attacks@, MAGER_CODE, 0) == Some(s as int),
            ranger is None ==> first_attack_slot(attacks@, RANGER_CODE, 0) == first_attack_slot(attacks@, RANGER_CODE, i as int),
            ranger matches Some(s) ==> s < 4 && first_attack_slot(attacks@, RANGER_CODE, 0) == Some(s as int),
            meleer is None ==> first_attack_slot(attacks@, MELEER_CODE, 0) == first_attack_slot(attacks@, MELEER_CODE, i as int),
            meleer matches Some(s) ==> s < 4 && first_attack_slot(attacks@, MELEER_CODE, 0) == Some(s as int),
        decreases attacks@.len() - i,
    {
        let atk: AttackEvent = attacks[i];
        if !atk.is_scan {
            let slot: usize = prayer_slot(atk.tick);
            if atk.mob_type == MAGER_CODE && mager.is_none() {
                mager = Some(slot);
            } else if atk.mob_type == RANGER_CODE && ranger.is_none() {
                ranger = Some(slot);
            } else if atk.mob_type == MELEER_CODE && meleer.is_none() {
                meleer = Some(slot);
            }
        }
        i = i + 1;
    }
    (mager, ranger, meleer)
}

/// Adds one vote to a slot of a vote count.
fn add_vote(votes: &mut [i32; 4], slot: Option<usize>, enabled: bool)
    requires
        slot matches Some(s) ==> s < 4,
        forall|k: int| 0 <= k < 4 ==> #[trigger] old(votes)@[k] < i32::MAX,
    ensures
        forall|k: int| 0 <= k < 4 ==> #[trigger] final(votes)@[k] == old(votes)@[k]
            + if enabled && slot == Some(k as usize) { 1int } else { 0 },
{
    if enabled {
        if let Some(s) = slot {
            votes[s] = votes[s] + 1;
        }
    }
}


/// Attacks of a well-formed log are well formed in every part of it.
proof fn lemma_attacks_ok_subrange(log: Seq<AttackEvent>, a: int, b: int)
    requires
        attacks_ok(log),
        0 <= a <= b <= log.len(),
    ensures
        attacks_ok(log.subrange(a, b)),
{
    assert forall|k: int| 0 <= k < log.subrange(a, b).len() implies (#[trigger] log.subrange(a, b)[k]).tick <= i32::MAX - 8
        && log.subrange(a, b)[k].player_dmg >= 0 by {
        assert(log.subrange(a, b)[k] == log[a + k]);
    }
}

/// Totals over more results are never smaller.
proof fn lemma_combo_total_prefix(results: Seq<SimResult>, log: Seq<AttackEvent>, l: Loadout, seq: Seq<Prayer>, i: int, j: int)
    requires
        0 <= i <= j <= results.len(),
        loadout_ok(l),
    ensures
        combo_total(results.take(i), log, l, seq) <= combo_total(results.take(j), log, l, seq),
    decreases j,
{
    if i < j {
        lemma_combo_total_prefix(results, log, l, seq, i, j - 1);
        assert(results.take(j).drop_last() =~= results.take(j - 1));
        lemma_sim_damage_bounds(result_attacks(results.take(j).last(), log), seq, l, result_init(results.take(j).last()));
    }
}

/// Damage results that a damage count can give for a loadout.
pub open spec fn damages_ok(d: Seq<DamageResult>, l: Loadout) -> bool {
    forall|k: int| 0 <= k < d.len() ==> 0 <= (#[trigger] d[k]).damage <= l.starting_hp
        && (d[k].died ==> d[k].damage == l.starting_hp)
}

/// Chooses the prayer sequence for a set of simulations. The first attack of each of
/// the mager, ranger and meleer in every simulation votes for its slot of the four-tick
/// cycle; the winning slots get the matching protection (first come, first served),
/// and every choice of magic or missile protection on the remaining slots is tried, in
/// order, keeping the first with the lowest total damage. `best_damages` ends up with
/// the damage of each simulation under the kept sequence; `candidate_damages` is scratch.
pub fn optimize_prayer(
    results: &[SimResult],
    attack_log: &[AttackEvent],
    flags: WaveFlags,
    loadout: &Loadout,
    best_damages: &mut Vec<DamageResult>,
    candidate_damages: &mut Vec<DamageResult>,
) -> (r: [Prayer; 4])
    requires
        results_ok(results@, attack_log@),
        attacks_ok(attack_log@),
        loadout_ok(*loadout),
        results@.len() <= i32::MAX,
    ensures
        exists|c: usize| c < (1usize << (free_count(fixed_slots(results@, attack_log@, flags)) as usize))
            && #[trigger] combo_seq(fixed_slots(results@, attack_log@, flags), c) == r@
            && best_combo(results@, attack_log@, flags, *loadout, c),
        final(best_damages)@.len() == results@.len(),
        damages_ok(final(best_damages)@, *loadout),
        forall|k: int| 0 <= k < results@.len() ==> #[trigger] final(best_damages)@[k]
            == result_damage(results@[k], attack_log@, r@, *loadout),
{
    best_damages.clear();
    candidate_damages.clear();
    let ghost log = attack_log@;
    let mut mager_votes: [i32; 4] = [0i32; 4];
    let mut ranger_votes: [i32; 4] = [0i32; 4];
    let mut meleer_votes: [i32; 4] = [0i32; 4];
    let mut j: usize = 0;
    while j < results.len()
        invariant
            j <= results@.len(),
            results@.len() <= i32::MAX,
            results_ok(results@, log),
            log == attack_log@,
            forall|k: int| 0 <= k < 4 ==> #[trigger] mager_votes@[k]
                == if flags.has_mager { vote_count(results@.take(j as int), log, MAGER_CODE, k) } else { 0 },
            forall|k: int| 0 <= k < 4 ==> #[trigger] ranger_votes@[k]
                == if flags.has_ranger { vote_count(results@.take(j as int), log, RANGER_CODE, k) } else { 0 },
            forall|k: int| 0 <= k < 4 ==> #[trigger] meleer_votes@[k]
                == if flags.has_meleer { vote_count(results@.take(j as int), log, MELEER_CODE, k) } else { 0 },
            forall|k: int| 0 <= k < 4 ==> 0 <= #[trigger] mager_votes@[k] <= j,
            forall|k: int| 0 <= k < 4 ==> 0 <= #[trigger] ranger_votes@[k] <= j,
            forall|k: int| 0 <= k < 4 ==> 0 <= #[trigger] meleer_votes@[k] <= j,
        decreases results@.len() - j,
    {
        let res: SimResult = results[j];
        assert(res == results@[j as int]);
        let part: &[AttackEvent] = res.attacks(attack_log);
        let (m, rg, me) = first_attack_slots(part);
        proof {
            assert(results@.take(j + 1).drop_last() =~= results@.take(j as int));
            assert(results@.take(j + 1).last() == res);
        }
        add_vote(&mut mager_votes, m, flags.has_mager);
        add_vote(&mut ranger_votes, rg, flags.has_ranger);
        add_vote(&mut meleer_votes, me, flags.has_meleer);
        j = j + 1;
    }
    proof {
        assert(results@.take(results@.len() as int) =~= results@);
    }
    let ghost s0: Seq<Option<Prayer>> = seq![None::<Prayer>, None, None, None];
    let mut slots: [Option<Prayer>; 4] = [None, None, None, None];
    assert(slots@ =~= s0);
    if flags.has_mager {
        let pick: Option<usize> = best_vote_slot(&mager_votes);
        proof {
            let v = votes_of(results@, log, MAGER_CODE);
            assert(mager_votes@ =~= v);
            assert(best_vote_slot_spec(v, vote_pick(v)));
            lemma_best_vote_slot_unique(v, pick, vote_pick(v));
        }
        if let Some(s) = pick {
            slots[s] = Some(Prayer::Mage);
        }
    }
    let ghost s1: Seq<Option<Prayer>> = if flags.has_mager { claim(s0, vote_pick(votes_of(results@, log, MAGER_CODE)), Prayer::Mage) } else { s0 };
    assert(slots@ =~= s1);
    if flags.has_ranger {
        let pick: Option<usize> = best_vote_slot(&ranger_votes);
        proof {
            let v = votes_of(results@, log, RANGER_CODE);
            assert(ranger_votes@ =~= v);
            assert(best_vote_slot_spec(v, vote_pick(v)));
            lemma_best_vote_slot_unique(v, pick, vote_pick(v));
        }
        if let Some(s) = pick {
            if slots[s].is_none() {
                slots[s] = Some(Prayer::Range);
            }
        }
    }
    let ghost s2: Seq<Option<Prayer>> = if flags.has_ranger { claim(s1, vote_pick(votes_of(results@, log, RANGER_CODE)), Prayer::Range) } else { s1 };
    assert(slots@ =~= s2);
    if flags.has_meleer {
        let pick: Option<usize> = best_vote_slot(&meleer_votes);
        proof {
            let v = votes_of(results@, log, MELEER_CODE);
            assert(meleer_votes@ =~= v);
            assert(best_vote_slot_spec(v, vote_pick(v)));
            lemma_best_vote_slot_unique(v, pick, vote_pick(v));
        }
        if let Some(s) = pick {
            if slots[s].is_none() {
                slots[s] = Some(Prayer::Melee);
            }
        }
    }
    let ghost fixed = fixed_slots(results@, log, flags);
    assert(slots@ =~= fixed);

    proof {
        lemma_free_before_bounds(fixed);
    }
    let mut unknowns: [usize; 4] = [0usize; 4];
    let mut unknown_count: usize = 0;
    let mut idx: usize = 0;
    while idx < 4
        invariant
            idx <= 4,
            slots@ == fixed,
            unknown_count == free_before(fixed, idx as int),
            unknown_count <= idx,
            forall|j: int| 0 <= j <= 4 ==> 0 <= #[trigger] free_before(fixed, j) <= j,
            forall|t: int| 0 <= t < unknown_count ==> #[trigger] unknowns@[t] < idx
                && fixed[unknowns@[t] as int] is None && free_before(fixed, unknowns@[t] as int) == t,
            forall|k: int| 0 <= k < idx && fixed[k] is None ==> free_before(fixed, k) < unknown_count
                && unknowns@[free_before(fixed, k)] == k,
        decreases 4 - idx,
    {
        let ghost old_unknowns = unknowns@;
        if slots[idx].is_none() {
            unknowns[unknown_count] = idx;
            unknown_count = unknown_count + 1;
            proof {
                assert forall|k: int| 0 <= k < idx + 1 && fixed[k] is None implies free_before(fixed, k) < unknown_count
                    && unknowns@[free_before(fixed, k)] == k by {
                    if k < idx {
                        assert(old_unknowns[free_before(fixed, k)] == k);
                    }
                }
            }
        }
        idx = idx + 1;
    }
    assert(unknown_count == free_count(fixed));
    let combos: usize = 1usize << unknown_count;
    assert(1usize << unknown_count >= 1usize) by (bit_vector)
        requires unknown_count <= 4usize;
    let ghost n = combos;
    let mut best_seq: [Prayer; 4] = [Prayer::Mage; 4];
    let mut best_total: Option<i64> = None;
    let ghost mut best_c: usize = 0;
    let mut c: usize = 0;
    while c < combos
        invariant
            c <= combos,
            n == combos,
            combos == 1usize << (free_count(fixed) as usize),
            combos >= 1,
            slots@ == fixed,
            forall|j: int| 0 <= j <= 4 ==> 0 <= #[trigger] free_before(fixed, j) <= j,
            unknown_count == free_count(fixed),
            forall|t: int| 0 <= t < unknown_count ==> #[trigger] unknowns@[t] < 4
                && fixed[unknowns@[t] as int] is None && free_before(fixed, unknowns@[t] as int) == t,
            forall|k: int| 0 <= k < 4 && fixed[k] is None ==> free_before(fixed, k) < unknown_count
                && unknowns@[free_before(fixed, k)] == k,
            results_ok(results@, log),
            attacks_ok(log),
            log == attack_log@,
            loadout_ok(*loadout),
            results@.len() <= i32::MAX,
            best_total is None ==> c == 0,
            best_total matches Some(t) ==> {
                &&& best_c < c
                &&& best_seq@ == combo_seq(fixed, best_c)
                &&& best_damages@.len() == results@.len()
                &&& damages_ok(best_damages@, *loadout)
                &&& 0 <= t
                &&& t == combo_total(results@, log, *loadout, best_seq@)
                &&& forall|k: int| 0 <= k < results@.len() ==> #[trigger] best_damages@[k]
                    == result_damage(results@[k], log, best_seq@, *loadout)
                &&& forall|d: usize| d < c ==> combo_total(results@, log, *loadout, #[trigger] combo_seq(fixed, d)) >= t
                &&& forall|d: usize| d < best_c ==> combo_total(results@, log, *loadout, #[trigger] combo_seq(fixed, d)) > t
            },
        decreases combos - c,
    {
        let mut seq: [Prayer; 4] = [
            match slots[0] { Some(p) => p, None => Prayer::Mage },
            match slots[1] { Some(p) => p, None => Prayer::Mage },
            match slots[2] { Some(p) => p, None => Prayer::Mage },
            match slots[3] { Some(p) => p, None => Prayer::Mage },
        ];
        let mut i: usize = 0;
        while i < unknown_count
            invariant
                i <= unknown_count,
                unknown_count == free_count(fixed),
                unknown_count <= 4,
                forall|j: int| 0 <= j <= 4 ==> 0 <= #[trigger] free_before(fixed, j) <= j,
                forall|t: int| 0 <= t < unknown_count ==> #[trigger] unknowns@[t] < 4
                    && fixed[unknowns@[t] as int] is None && free_before(fixed, unknowns@[t] as int) == t,
                forall|k: int| 0 <= k < 4 && fixed[k] is None ==> free_before(fixed, k) < unknown_count
                    && unknowns@[free_before(fixed, k)] == k,
                forall|k: int| 0 <= k < 4 ==> #[trigger] seq@[k] == match fixed[k] {
                    Some(p) => p,
                    None => if free_before(fixed, k) < i && combo_bit(c, free_before(fixed, k) as usize) { Prayer::Range } else { Prayer::Mage },
                },
            decreases unknown_count - i,
        {
            let slot: usize = unknowns[i];
            let bit: usize = (c >> i) & 1usize;
            assert((bit != 0usize) == (((c >> i) & 1usize) == 1usize)) by (bit_vector)
                requires bit == (c >> i) & 1usize;
            let ghost old_seq = seq@;
            seq[slot] = if bit != 0 { Prayer::Range } else { Prayer::Mage };
            proof {
                assert forall|k: int| 0 <= k < 4 implies #[trigger] seq@[k] == match fixed[k] {
                    Some(p) => p,
                    None => if free_before(fixed, k) < i + 1 && combo_bit(c, free_before(fixed, k) as usize) { Prayer::Range } else { Prayer::Mage },
                } by {
                    if fixed[k] is None && k != slot {
                        assert(unknowns@[free_before(fixed, k)] == k);
                        assert(free_before(fixed, k) != i);
                    }
                }
            }
            i = i + 1;
        }
        assert(seq@ =~= combo_seq(fixed, c));
        candidate_damages.clear();
        let mut total: i64 = 0;
        let mut pruned: bool = false;
        let mut k: usize = 0;
        while k < results.len() && !pruned
            invariant
                k <= results@.len(),
                results_ok(results@, log),
                attacks_ok(log),
                log == attack_log@,
                loadout_ok(*loadout),
                results@.len() <= i32::MAX,
                seq@ == combo_seq(fixed, c),
                candidate_damages@.len() == k,
                damages_ok(candidate_damages@, *loadout),
                0 <= total <= 115 * k,
                total == combo_total(results@.take(k as int), log, *loadout, seq@),
                forall|q: int| 0 <= q < k ==> #[trigger] candidate_damages@[q]
                    == result_damage(results@[q], log, seq@, *loadout),
                pruned ==> (best_total matches Some(t) && total >= t),
            decreases results@.len() - k,
        {
            let res: SimResult = results[k];
            assert(res == results@[k as int]);
            let part: &[AttackEvent] = res.attacks(attack_log);
            let init: &[Option<MobInit>] = res.mob_init_hp();
            proof {
                lemma_attacks_ok_subrange(log, res.attack_start as int, res.attack_end as int);
                assert(results@.take(k + 1).drop_last() =~= results@.take(k as int));
                assert(results@.take(k + 1).last() == res);
            }
            let damage: DamageResult = calc_sim_damage(part, &seq, loadout, init);
            total = total + damage.damage as i64;
            candidate_damages.push(damage);
            if let Some(t) = best_total {
                if total >= t {
                    pruned = true;
                }
            }
            k = k + 1;
        }
        if pruned {
            proof {
                lemma_combo_total_prefix(results@, log, *loadout, seq@, k as int, results@.len() as int);
                assert(results@.take(results@.len() as int) =~= results@);
            }
        } else {
            proof {
                assert(results@.take(results@.len() as int) =~= results@);
            }
            let better: bool = match best_total {
                None => true,
                Some(t) => total < t,
            };
            if better {
                best_total = Some(total);
                best_seq = seq;
                std::mem::swap(best_damages, candidate_damages);
                proof {
                    best_c = c;
                }
            }
        }
        c = c + 1;
    }
    proof {
        assert(best_total is Some);
        assert(combo_seq(fixed, best_c) == best_seq@);
        assert(best_combo(results@, log, flags, *loadout, best_c));
    }
    best_seq
}

} // verus!
