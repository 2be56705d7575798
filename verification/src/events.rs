use vstd::prelude::*;

use crate::types::{MobType, Style, mob_type_index};
use crate::constants::MAX_MOB_IDS;

verus! {

/// One entry of the attack log that a simulation writes. Random rolls are the
/// raw 32-bit draws of the generator: a roll `r` stands for the fraction `r / 2^32`.
#[derive(Clone, Copy, Debug)]
pub struct AttackEvent {
    pub tick: i32,
    pub mob_id: u16,
    pub target_mob_id: u16,
    pub mob_type: u8,
    pub style: u8,
    pub is_scan: bool,
    pub scan_tick: i32,
    pub acc_roll: u32,
    pub dmg_roll: u32,
    pub dist_at_fire: i16,
    pub hit_tick: i16,
    pub is_player_attack: bool,
    pub player_dmg: i32,
    pub is_revive: bool,
    pub revive_hp: i16,
}

/// Code of an absent id.
pub const EVENT_NONE_ID: u16 = 65535;
/// Code of an absent kind or style.
pub const EVENT_NONE_CODE: u8 = 255;
/// Code of an absent small number.
pub const EVENT_NONE_I16: i16 = -32768;

/// Encoding of an optional id.
pub open spec fn event_id_spec(value: Option<usize>) -> u16 {
    match value {
        Some(v) => v as u16,
        None => EVENT_NONE_ID,
    }
}

/// Encoding of an optional small number.
pub open spec fn event_i16_spec(value: Option<i32>) -> i16 {
    match value {
        Some(v) => v as i16,
        None => EVENT_NONE_I16,
    }
}

/// Encoding of an optional monster kind.
pub open spec fn event_mob_type_spec(value: Option<MobType>) -> u8 {
    match value {
        Some(t) => mob_type_index(t) as u8,
        None => EVENT_NONE_CODE,
    }
}

/// Encoding of an optional style.
pub open spec fn event_style_spec(value: Option<Style>) -> u8 {
    match value {
        Some(Style::Magic) => 0,
        Some(Style::Range) => 1,
        Some(Style::Melee) => 2,
        Some(Style::Blob) => 3,
        None => EVENT_NONE_CODE,
    }
}

/// Decoding of a monster-kind code.
pub open spec fn decode_mob_type_spec(value: u8) -> Option<MobType> {
    if value == 0 { Some(MobType::Mager) }
    else if value == 1 { Some(MobType::Ranger) }
    else if value == 2 { Some(MobType::Meleer) }
    else if value == 3 { Some(MobType::Blob) }
    else if value == 4 { Some(MobType::Bat) }
    else if value == 5 { Some(MobType::Nibbler) }
    else if value == 6 { Some(MobType::BlobletMage) }
    else if value == 7 { Some(MobType::BlobletRange) }
    else if value == 8 { Some(MobType::BlobletMelee) }
    else { None }
}

/// Decoding of a style code.
pub open spec fn decode_style_spec(value: u8) -> Option<Style> {
    if value == 0 { Some(Style::Magic) }
    else if value == 1 { Some(Style::Range) }
    else if value == 2 { Some(Style::Melee) }
    else if value == 3 { Some(Style::Blob) }
    else { None }
}

/// Encodes an optional id (truncated to 16 bits).
pub fn event_id(value: Option<usize>) -> (r: u16)
    ensures
        r == event_id_spec(value),
{
    match value {
        Some(v) => v as u16,
        None => EVENT_NONE_ID,
    }
}

/// Encodes an optional small number (truncated to 16 bits).
pub fn event_i16(value: Option<i32>) -> (r: i16)
    ensures
        r == event_i16_spec(value),
{
    match value {
        Some(v) => v as i16,
        None => EVENT_NONE_I16,
    }
}

/// Encodes an optional monster kind.
pub fn event_mob_type(value: Option<MobType>) -> (r: u8)
    ensures
        r == event_mob_type_spec(value),
{
    match value {
        Some(t) => t.idx() as u8,
        None => EVENT_NONE_CODE,
    }
}

/// Encodes an optional style.
pub fn event_style(value: Option<Style>) -> (r: u8)
    ensures
        r == event_style_spec(value),
{
    match value {
        Some(Style::Magic) => 0,
        Some(Style::Range) => 1,
        Some(Style::Melee) => 2,
        Some(Style::Blob) => 3,
        None => EVENT_NONE_CODE,
    }
}

/// Decodes a monster-kind code.
pub fn decode_mob_type(value: u8) -> (r: Option<MobType>)
    ensures
        r == decode_mob_type_spec(value),
{
    match value {
        0 => Some(MobType::Mager),
        1 => Some(MobType::Ranger),
        2 => Some(MobType::Meleer),
        3 => Some(MobType::Blob),
        4 => Some(MobType::Bat),
        5 => Some(MobType::Nibbler),
        6 => Some(MobType::BlobletMage),
        7 => Some(MobType::BlobletRange),
        8 => Some(MobType::BlobletMelee),
        _ => None,
    }
}

/// Decodes a style code.
pub fn decode_style(value: u8) -> (r: Option<Style>)
    ensures
        r == decode_style_spec(value),
{
    match value {
        0 => Some(Style::Magic),
        1 => Some(Style::Range),
        2 => Some(Style::Melee),
        3 => Some(Style::Blob),
        _ => None,
    }
}

/// Decoding a monster kind gives back the kind that was encoded.
pub proof fn lemma_mob_type_code_roundtrip(t: Option<MobType>)
    ensures
        decode_mob_type_spec(event_mob_type_spec(t)) == t,
{
}

/// Decoding a style gives back the style that was encoded.
pub proof fn lemma_style_code_roundtrip(s: Option<Style>)
    ensures
        decode_style_spec(event_style_spec(s)) == s,
{
}

/// An id below the absent-id code reads back unchanged; an absent id reads back absent.
pub proof fn lemma_event_id_roundtrip(v: Option<usize>)
    requires
        v matches Some(x) ==> x < EVENT_NONE_ID,
    ensures
        event_id_spec(v) != EVENT_NONE_ID <==> v is Some,
        v matches Some(x) ==> event_id_spec(v) == x,
{
    if let Some(x) = v {
        assert((x as u16) == x) by (bit_vector)
            requires x < 65535usize;
    }
}

/// A small number strictly inside the 16-bit range reads back unchanged.
pub proof fn lemma_event_i16_roundtrip(v: Option<i32>)
    requires
        v matches Some(x) ==> -32768 < x < 32768,
    ensures
        event_i16_spec(v) != EVENT_NONE_I16 <==> v is Some,
        v matches Some(x) ==> event_i16_spec(v) == x,
{
    if let Some(x) = v {
        assert((x as i16) == x) by (bit_vector)
            requires -32768 < x < 32768;
    }
}

/// Reads an id field.
pub open spec fn decode_id_spec(v: u16) -> Option<usize> {
    if v != EVENT_NONE_ID { Some(v as usize) } else { None }
}

/// Reads a small-number field.
pub open spec fn decode_i16_spec(v: i16) -> Option<i32> {
    if v != EVENT_NONE_I16 { Some(v as i32) } else { None }
}

impl AttackEvent {
    /// The attacking monster's id.
    pub fn mob_id(&self) -> (r: Option<usize>)
        ensures
            r == decode_id_spec(self.mob_id),
    {
        if self.mob_id != EVENT_NONE_ID { Some(self.mob_id as usize) } else { None }
    }

    /// The id of the monster the player attacked.
    pub fn target_mob_id(&self) -> (r: Option<usize>)
        ensures
            r == decode_id_spec(self.target_mob_id),
    {
        if self.target_mob_id != EVENT_NONE_ID { Some(self.target_mob_id as usize) } else { None }
    }

    /// The attacking monster's kind.
    pub fn mob_type(&self) -> (r: Option<MobType>)
        ensures
            r == decode_mob_type_spec(self.mob_type),
    {
        decode_mob_type(self.mob_type)
    }

    /// The attack style.
    pub fn style(&self) -> (r: Option<Style>)
        ensures
            r == decode_style_spec(self.style),
    {
        decode_style(self.style)
    }

    /// Distance between attacker and player when the attack was fired.
    pub fn dist_at_fire(&self) -> (r: Option<i32>)
        ensures
            r == decode_i16_spec(self.dist_at_fire),
    {
        if self.dist_at_fire != EVENT_NONE_I16 { Some(self.dist_at_fire as i32) } else { None }
    }

    /// Tick on which the attack lands.
    pub fn hit_tick(&self) -> (r: Option<i32>)
        ensures
            r == decode_i16_spec(self.hit_tick),
    {
        if self.hit_tick != EVENT_NONE_I16 { Some(self.hit_tick as i32) } else { None }
    }

    /// Hitpoints a revived monster comes back with.
    pub fn revive_hp(&self) -> (r: Option<i32>)
        ensures
            r == decode_i16_spec(self.revive_hp),
    {
        if self.revive_hp != EVENT_NONE_I16 { Some(self.revive_hp as i32) } else { None }
    }
}

/// Starting hitpoints of a monster id, as recorded by a simulation.
#[derive(Clone, Copy, Debug, PartialEq, Eq, Structural)]
pub struct MobInit {
    pub hp: i32,
}

/// How a simulation ended.
#[derive(Clone, Copy, Debug, PartialEq, Eq, Structural)]
pub enum SimStatus {
    Complete,
    Trapped,
    Invalid,
    Timeout,
}

/// Result of one simulation: the slice of the shared attack log that it wrote,
/// the tick at which it ended, its status, and the starting hitpoints of every id.
#[derive(Clone, Copy, Debug)]
pub struct SimResult {
    pub attack_start: usize,
    pub attack_end: usize,
    pub completed_tick: i32,
    pub status: SimStatus,
    pub mob_init_hp: [Option<MobInit>; 64],
    pub mob_init_len: usize,
}

impl SimResult {
    /// The part of the shared attack log that this simulation wrote.
    pub fn attacks<'a>(&self, attack_log: &'a [AttackEvent]) -> (r: &'a [AttackEvent])
        requires
            self.attack_start <= self.attack_end <= attack_log@.len(),
        ensures
            r@ == attack_log@.subrange(self.attack_start as int, self.attack_end as int),
    {
        &attack_log[self.attack_start..self.attack_end]
    }

    /// The recorded starting hitpoints, up to the highest id seen.
    pub fn mob_init_hp(&self) -> (r: &[Option<MobInit>])
        requires
            self.mob_init_len <= MAX_MOB_IDS,
        ensures
            r@ == self.mob_init_hp@.subrange(0, self.mob_init_len as int),
    {
        let all: &[Option<MobInit>] = self.mob_init_hp.as_slice();
        &all[0..self.mob_init_len]
    }
}

} // verus!
