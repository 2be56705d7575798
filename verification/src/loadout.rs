use vstd::prelude::*;

use crate::types::{MobType, Style, mob_type_index, all_mob_types};
use crate::rng::ROLL_RANGE;

verus! {

/// A monster attack: its maximum hit and its accuracy, given as the threshold
/// below which a 32-bit accuracy draw hits (`ceil(accuracy * 2^32)`, at most `2^32`).
#[derive(Clone, Copy, Debug, PartialEq, Eq, Structural)]
pub struct AttackStats {
    pub max: i32,
    pub acc: u64,
}

/// An attack whose numbers stay within what the damage count can hold.
pub open spec fn attack_stats_ok(s: Option<AttackStats>) -> bool {
    s matches Some(a) ==> a.acc <= ROLL_RANGE && a.max > i32::MIN
}

/// Monster attacks as a loadout declares them.
#[derive(Clone, Copy, Debug)]
pub struct MonsterAttackTable {
    pub normal: [Option<AttackStats>; 9],
    pub melee: [Option<AttackStats>; 9],
    pub blob_mage: Option<AttackStats>,
    pub blob_range: Option<AttackStats>,
    pub blob_melee: Option<AttackStats>,
}

/// The attack that a monster kind makes in a style, as [`MonsterAttackTable::resolve`] picks it.
pub open spec fn resolve_spec(t: MonsterAttackTable, mob_type: MobType, style: Style) -> Option<AttackStats> {
    let idx = mob_type_index(mob_type) as int;
    if style == Style::Melee && t.melee@[idx] is Some {
        t.melee@[idx]
    } else if mob_type == MobType::Blob {
        match style {
            Style::Magic => t.blob_mage,
            Style::Range => t.blob_range,
            Style::Melee => if t.blob_melee is Some { t.blob_melee } else { t.blob_range },
            Style::Blob => t.blob_range,
        }
    } else {
        t.normal@[idx]
    }
}

/// The attacks a table gives: a melee attack declared for a kind comes first; for the
/// blob otherwise each style has its own attack, the declared blob melee attack for melee
/// whenever there is one and its range attack only when there is none; every other kind
/// has its one normal attack in every style.
pub proof fn law_resolve_picks_declared(t: MonsterAttackTable, mob_type: MobType, style: Style, s: AttackStats)
    ensures
        t.melee@[mob_type_index(mob_type) as int] == Some(s) ==> resolve_spec(t, mob_type, Style::Melee) == Some(s),
        t.melee@[3] is None && t.blob_melee == Some(s) ==> resolve_spec(t, MobType::Blob, Style::Melee) == Some(s),
        t.melee@[3] is None && t.blob_melee is None ==> resolve_spec(t, MobType::Blob, Style::Melee) == t.blob_range,
        resolve_spec(t, MobType::Blob, Style::Magic) == t.blob_mage,
        resolve_spec(t, MobType::Blob, Style::Range) == t.blob_range,
        mob_type != MobType::Blob && style != Style::Melee ==>
            resolve_spec(t, mob_type, style) == t.normal@[mob_type_index(mob_type) as int],
        mob_type != MobType::Blob && t.melee@[mob_type_index(mob_type) as int] is None ==>
            resolve_spec(t, mob_type, Style::Melee) == t.normal@[mob_type_index(mob_type) as int],
{
}

impl MonsterAttackTable {
    /// The attack of `mob_type` in `style`: a declared melee attack first, then the
    /// blob's per-style attacks (melee falling back to range), then the normal attack.
    pub fn resolve(&self, mob_type: MobType, style: Style) -> (r: Option<AttackStats>)
        ensures
            r == resolve_spec(*self, mob_type, style),
    {
        let idx: usize = mob_type.idx();
        if style == Style::Melee {
            if let Some(stats) = self.melee[idx] {
                return Some(stats);
            }
        }
        if mob_type == MobType::Blob {
            return match style {
                Style::Magic => self.blob_mage,
                Style::Range => self.blob_range,
                Style::Melee => if self.blob_melee.is_some() { self.blob_melee } else { self.blob_range },
                Style::Blob => self.blob_range,
            };
        }
        self.normal[idx]
    }
}

/// Everything the damage count and the player's attacks read from a loadout.
/// Probabilities are thresholds of 32-bit draws (see [`AttackStats`]).
#[derive(Clone, Copy, Debug)]
pub struct Loadout {
    pub atk_speed: i32,
    pub max_hit: i32,
    pub range: i32,
    pub starting_hp: i32,
    pub has_recoil: bool,
    pub has_ring_recoil: bool,
    pub has_echo_boots: bool,
    pub is_blood_barrage: bool,
    pub has_blood_sceptre: bool,
    pub player_acc: [[u64; 2]; 9],
    pub monster_atk_fast: [[Option<AttackStats>; 3]; 9],
}

/// The numbers of a loadout stay within what the simulation can hold.
pub open spec fn loadout_ok(l: Loadout) -> bool {
    &&& 1 <= l.starting_hp <= 115
    &&& -1_000_000 <= l.atk_speed
    &&& l.max_hit > i32::MIN
    &&& forall|i: int, j: int| 0 <= i < 9 && 0 <= j < 2 ==> #[trigger] l.player_acc@[i]@[j] <= ROLL_RANGE
    &&& forall|i: int, j: int| 0 <= i < 9 && 0 <= j < 3 ==> attack_stats_ok(#[trigger] l.monster_atk_fast@[i]@[j])
}

/// Column of an attack style in the per-kind attack table.
pub open spec fn attack_style_index(style: Style) -> nat {
    match style {
        Style::Magic => 0,
        Style::Range | Style::Blob => 1,
        Style::Melee => 2,
    }
}

/// Column of an attack style in the per-kind attack table.
pub fn attack_style_idx(style: Style) -> (r: usize)
    ensures
        r == attack_style_index(style),
        r < 3,
{
    match style {
        Style::Magic => 0,
        Style::Range | Style::Blob => 1,
        Style::Melee => 2,
    }
}

/// The per-kind, per-style attack table: entry `[kind][column]` is the resolved
/// attack of that kind in magic, range and melee.
pub fn build_monster_attack_fast(monster_atk: &MonsterAttackTable) -> (r: [[Option<AttackStats>; 3]; 9])
    ensures
        forall|i: int| 0 <= i < 9 ==> (#[trigger] r@[i])@[0] == resolve_spec(*monster_atk, all_mob_types()[i], Style::Magic)
            && r@[i]@[1] == resolve_spec(*monster_atk, all_mob_types()[i], Style::Range)
            && r@[i]@[2] == resolve_spec(*monster_atk, all_mob_types()[i], Style::Melee),
{
    let mut fast: [[Option<AttackStats>; 3]; 9] = [[None; 3]; 9];
    let all: [MobType; 9] = MobType::all();
    let mut k: usize = 0;
    while k < 9
        invariant
            k <= 9,
            all@ == all_mob_types(),
            forall|i: int| 0 <= i < k ==> (#[trigger] fast@[i])@[0] == resolve_spec(*monster_atk, all_mob_types()[i], Style::Magic)
                && fast@[i]@[1] == resolve_spec(*monster_atk, all_mob_types()[i], Style::Range)
                && fast@[i]@[2] == resolve_spec(*monster_atk, all_mob_types()[i], Style::Melee),
        decreases 9 - k,
    {
        let mob_type: MobType = all[k];
        let idx: usize = mob_type.idx();
        assert(idx == k);
        let row: [Option<AttackStats>; 3] = [
            monster_atk.resolve(mob_type, Style::Magic),
            monster_atk.resolve(mob_type, Style::Range),
            monster_atk.resolve(mob_type, Style::Melee),
        ];
        fast[idx] = row;
        k = k + 1;
    }
    fast
}

/// A loadout's fields as its input gives them: numbers already rounded, flags and the
/// starting hitpoints possibly absent, probabilities as draw thresholds, and the monster
/// attacks as declared.
#[derive(Clone, Copy, Debug)]
pub struct LoadoutFields {
    pub atk_speed: i32,
    pub max_hit: i32,
    pub range: i32,
    pub starting_hp: Option<i32>,
    pub has_recoil: Option<bool>,
    pub has_ring_recoil: Option<bool>,
    pub has_echo_boots: Option<bool>,
    pub is_blood_barrage: Option<bool>,
    pub has_blood_sceptre: Option<bool>,
    pub player_acc: [[u64; 2]; 9],
    pub monster_atk: MonsterAttackTable,
}

/// Starting hitpoints: 99 when absent, clamped to 1..=115.
pub open spec fn starting_hp_spec(h: Option<i32>) -> i32 {
    let v = match h { Some(v) => v, None => 99i32 };
    if v < 1 { 1 } else if v > 115 { 115 } else { v }
}

/// Builds a loadout from its fields: starting hitpoints default to 99 and are clamped to
/// 1..=115; recoil defaults to off, and the ring of recoil and echo boots default to on
/// but count only with recoil; blood barrage and the sceptre default to off; the monster
/// attacks are resolved per kind and style.
pub fn build_loadout(f: &LoadoutFields) -> (r: Loadout)
    ensures
        r.atk_speed == f.atk_speed,
        r.max_hit == f.max_hit,
        r.range == f.range,
        r.starting_hp == starting_hp_spec(f.starting_hp),
        r.has_recoil == (f.has_recoil == Some(true)),
        r.has_ring_recoil == (f.has_recoil == Some(true) && f.has_ring_recoil != Some(false)),
        r.has_echo_boots == (f.has_recoil == Some(true) && f.has_echo_boots != Some(false)),
        r.is_blood_barrage == (f.is_blood_barrage == Some(true)),
        r.has_blood_sceptre == (f.has_blood_sceptre == Some(true)),
        r.player_acc == f.player_acc,
        forall|i: int| 0 <= i < 9 ==> (#[trigger] r.monster_atk_fast@[i])@[0] == resolve_spec(f.monster_atk, all_mob_types()[i], Style::Magic)
            && r.monster_atk_fast@[i]@[1] == resolve_spec(f.monster_atk, all_mob_types()[i], Style::Range)
            && r.monster_atk_fast@[i]@[2] == resolve_spec(f.monster_atk, all_mob_types()[i], Style::Melee),
{
    let hp: i32 = match f.starting_hp { Some(v) => v, None => 99 };
    let starting_hp: i32 = if hp < 1 { 1 } else if hp > 115 { 115 } else { hp };
    let has_recoil: bool = match f.has_recoil { Some(b) => b, None => false };
    let ring: bool = match f.has_ring_recoil { Some(b) => b, None => true };
    let echo: bool = match f.has_echo_boots { Some(b) => b, None => true };
    let is_blood_barrage: bool = match f.is_blood_barrage { Some(b) => b, None => false };
    let has_blood_sceptre: bool = match f.has_blood_sceptre { Some(b) => b, None => false };
    Loadout {
        atk_speed: f.atk_speed,
        max_hit: f.max_hit,
        range: f.range,
        starting_hp,
        has_recoil,
        has_ring_recoil: has_recoil && ring,
        has_echo_boots: has_recoil && echo,
        is_blood_barrage,
        has_blood_sceptre,
        player_acc: f.player_acc,
        monster_atk_fast: build_monster_attack_fast(&f.monster_atk),
    }
}

/// Hitpoints healed per point of blood-barrage damage, as a fraction `(num, den)`: 0.275 with
/// the blood sceptre, else 0.25.
pub open spec fn blood_heal_fraction(l: Loadout) -> (int, int) {
    if l.has_blood_sceptre { (11, 40) } else { (1, 4) }
}

/// Hitpoints healed by a blood-barrage hit of `damage`: `floor(damage * rate)`.
pub fn loadout_blood_heal(loadout: &Loadout, damage: i32) -> (r: i32)
    requires
        damage >= 0,
    ensures
        r == damage * blood_heal_fraction(*loadout).0 / blood_heal_fraction(*loadout).1,
        0 <= r <= damage,
{
    if loadout.has_blood_sceptre {
        let d: i64 = damage as i64;
        ((d * 11) / 40) as i32
    } else {
        damage / 4
    }
}

/// The hitpoint cap under blood barrage.
pub open spec fn blood_max_hp_spec(l: Loadout) -> int {
    if l.is_blood_barrage && l.has_blood_sceptre { 108 } else { 99 }
}

/// The hitpoint cap under blood barrage: 108 with barrage and sceptre, else 99.
pub fn loadout_blood_max_hp(loadout: &Loadout) -> (r: i32)
    ensures
        r == blood_max_hp_spec(*loadout),
{
    if loadout.is_blood_barrage && loadout.has_blood_sceptre {
        108
    } else {
        99
    }
}

} // verus!
