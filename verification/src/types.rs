//! The catalog data model: equippable items, their equipment bonus profile,
//! stat requirements, and (for weapons) the attack cadence and stance table.
use vstd::prelude::*;

use crate::GameInt;

verus! {

/// Equipment slot an item occupies.
#[derive(Clone, Copy, Debug, PartialEq, Eq, Structural)]
pub enum Slot {
    TwoH,
    Ammo,
    Body,
    Cape,
    Feet,
    Hands,
    Head,
    Legs,
    Neck,
    Ring,
    Shield,
    Weapon,
}

/// Damage type a stance attacks with.
#[derive(Clone, Copy, Debug, PartialEq, Eq, Structural)]
pub enum AttackType {
    Crush,
    DefensiveCasting,
    Slash,
    Spellcasting,
    Stab,
}

/// Combat stance: decides which stat the training experience goes to.
#[derive(Clone, Copy, Debug, PartialEq, Eq, Structural)]
pub enum AttackStyle {
    Accurate,
    Aggressive,
    Controlled,
    Defensive,
    Magic,
}

/// Rank of an attack type in the catalog's canonical ordering.
pub open spec fn type_rank(t: AttackType) -> int {
    match t {
        AttackType::Crush => 0,
        AttackType::DefensiveCasting => 1,
        AttackType::Slash => 2,
        AttackType::Spellcasting => 3,
        AttackType::Stab => 4,
    }
}

/// Rank of an attack style in the catalog's canonical ordering.
pub open spec fn style_rank(s: AttackStyle) -> int {
    match s {
        AttackStyle::Accurate => 0,
        AttackStyle::Aggressive => 1,
        AttackStyle::Controlled => 2,
        AttackStyle::Defensive => 3,
        AttackStyle::Magic => 4,
    }
}

/// Rank of an optional style: an absent style orders before any present one.
pub open spec fn opt_style_rank(s: Option<AttackStyle>) -> int {
    match s {
        Option::None => -1,
        Option::Some(v) => style_rank(v),
    }
}

pub fn exec_type_rank(t: AttackType) -> (r: GameInt)
    ensures
        r == type_rank(t),
{
    match t {
        AttackType::Crush => 0,
        AttackType::DefensiveCasting => 1,
        AttackType::Slash => 2,
        AttackType::Spellcasting => 3,
        AttackType::Stab => 4,
    }
}

pub fn exec_opt_style_rank(s: Option<AttackStyle>) -> (r: GameInt)
    ensures
        r == opt_style_rank(s),
{
    match s {
        Option::None => -1,
        Option::Some(AttackStyle::Accurate) => 0,
        Option::Some(AttackStyle::Aggressive) => 1,
        Option::Some(AttackStyle::Controlled) => 2,
        Option::Some(AttackStyle::Defensive) => 3,
        Option::Some(AttackStyle::Magic) => 4,
    }
}

/// Stat requirements an item may declare; an absent field demands nothing.
#[derive(Clone, Copy, Debug, PartialEq, Eq, Structural)]
pub struct Stats {
    pub attack: Option<GameInt>,
    pub strength: Option<GameInt>,
    pub defence: Option<GameInt>,
    pub hitpoints: Option<GameInt>,
    pub prayer: Option<GameInt>,
    pub ranged: Option<GameInt>,
    pub magic: Option<GameInt>,
}

/// One required stat is met: no requirement passes, a requirement against an
/// absent player stat fails, otherwise the player's value must reach it.
pub open spec fn req_met(req: Option<GameInt>, have: Option<GameInt>) -> bool {
    match req {
        Option::None => true,
        Option::Some(r) => match have {
            Option::None => false,
            Option::Some(p) => p >= r,
        },
    }
}

fn exec_req_met(req: Option<GameInt>, have: Option<GameInt>) -> (r: bool)
    ensures
        r == req_met(req, have),
{
    match req {
        Option::None => true,
        Option::Some(rv) => match have {
            Option::None => false,
            Option::Some(p) => p >= rv,
        },
    }
}

impl Stats {
    /// Every requirement this value declares is met by the player's stats.
    pub open spec fn spec_has_requirements(self, player_stats: Stats) -> bool {
        &&& req_met(self.attack, player_stats.attack)
        &&& req_met(self.strength, player_stats.strength)
        &&& req_met(self.defence, player_stats.defence)
        &&& req_met(self.hitpoints, player_stats.hitpoints)
        &&& req_met(self.prayer, player_stats.prayer)
        &&& req_met(self.ranged, player_stats.ranged)
        &&& req_met(self.magic, player_stats.magic)
    }

    pub fn has_requirements(&self, player_stats: &Stats) -> (r: bool)
        ensures
            r == self.spec_has_requirements(*player_stats),
    {
        exec_req_met(self.attack, player_stats.attack)
            && exec_req_met(self.strength, player_stats.strength)
            && exec_req_met(self.defence, player_stats.defence)
            && exec_req_met(self.hitpoints, player_stats.hitpoints)
            && exec_req_met(self.prayer, player_stats.prayer)
            && exec_req_met(self.ranged, player_stats.ranged)
            && exec_req_met(self.magic, player_stats.magic)
    }
}

/// Equipment bonus profile of an item, its slot, and optional requirements.
#[derive(Clone, Copy, Debug, PartialEq, Eq, Structural)]
pub struct Equipment {
    pub attack_stab: GameInt,
    pub attack_slash: GameInt,
    pub attack_crush: GameInt,
    pub attack_magic: GameInt,
    pub attack_ranged: GameInt,
    pub defence_stab: GameInt,
    pub defence_slash: GameInt,
    pub defence_crush: GameInt,
    pub defence_magic: GameInt,
    pub defence_ranged: GameInt,
    pub melee_strength: GameInt,
    pub ranged_strength: GameInt,
    pub magic_damage: GameInt,
    pub prayer: GameInt,
    pub slot: Slot,
    pub requirements: Option<Stats>,
}

/// One stance of a weapon: a named combat style mapped to the damage type and
/// training style it uses.
#[derive(Clone, Debug)]
pub struct Stance {
    pub combat_style: String,
    pub attack_type: Option<AttackType>,
    pub attack_style: Option<AttackStyle>,
}

/// Weapon descriptor: cadence in game ticks plus the stance table.
#[derive(Clone, Debug)]
pub struct Weapon {
    pub attack_speed: GameInt,
    pub weapon_type: String,
    pub stances: Vec<Stance>,
}

/// One catalog item.
#[derive(Clone, Debug)]
pub struct Item {
    pub id: GameInt,
    pub name: String,
    pub equipment: Equipment,
    pub weapon: Option<Weapon>,
}

/// The weapon's stance table contains an entry for this damage type and style.
pub open spec fn spec_has_type_and_style(
    stances: Seq<Stance>,
    attack_type: AttackType,
    attack_style: AttackStyle,
) -> bool {
    exists|i: int|
        0 <= i < stances.len() && stances[i].attack_type == Some(attack_type)
            && stances[i].attack_style == Some(attack_style)
}

pub fn has_type_and_style(
    stances: &Vec<Stance>,
    attack_type: AttackType,
    attack_style: AttackStyle,
) -> (r: bool)
    ensures
        r == spec_has_type_and_style(stances@, attack_type, attack_style),
{
    let mut i: usize = 0;
    while i < stances.len()
        invariant
            0 <= i <= stances.len(),
            forall|j: int|
                0 <= j < i ==> !(stances@[j].attack_type == Some(attack_type)
                    && stances@[j].attack_style == Some(attack_style)),
        decreases stances.len() - i,
    {
        let matches_type = match stances[i].attack_type {
            Option::Some(t) => t == attack_type,
            Option::None => false,
        };
        let matches_style = match stances[i].attack_style {
            Option::Some(s) => s == attack_style,
            Option::None => false,
        };
        if matches_type && matches_style {
            return true;
        }
        i = i + 1;
    }
    false
}

} // verus!
